//! The space of kernel configurations that the tuner searches, how each is
//! built and launched, and which one wins.
use vstd::arithmetic::div_mod::{
    lemma_div_by_multiple, lemma_div_denominator, lemma_fundamental_div_mod,
    lemma_fundamental_div_mod_converse, lemma_mod_multiples_basic,
};
use vstd::prelude::*;

use crate::number::Number;
use crate::problem::{BATCH_SIZE, M, N};
use crate::reading::{reads_constants, reads_order, Reading};
use crate::text::{decimal, push_decimal};

verus! {

/// The build options that every configuration has.
pub const CL_BASE_ARGS: &'static str =
    "-cl-mad-enable -cl-fast-relaxed-math -cl-no-signed-zeros -cl-denorms-are-zero -DQ4K_B";

/// One configuration of the kernel.
#[derive(Clone, Copy, Debug, PartialEq, Eq, Structural)]
pub struct TuneConfig {
    pub mdimc: usize,
    pub ndimc: usize,
    pub mwg: usize,
    pub nwg: usize,
    pub kwg: usize,
    pub sa: usize,
    pub sb: usize,
    pub vwm: usize,
    pub vwn: usize,
}

/// How many combinations of settings there are.
pub const COMBINATIONS: usize = 4608;

/// The tile sizes.
pub open spec fn tile(choice: int) -> usize {
    if choice == 0 {
        16
    } else if choice == 1 {
        32
    } else {
        64
    }
}

/// The vector widths.
pub open spec fn width(choice: int) -> usize {
    if choice == 0 {
        1
    } else if choice == 1 {
        2
    } else if choice == 2 {
        4
    } else {
        8
    }
}

/// The combination with number `p`, counted with `vwn` changing fastest and
/// `mdimc` slowest.
pub open spec fn config_at(p: int) -> TuneConfig {
    TuneConfig {
        mdimc: tile(p / 1536),
        ndimc: tile((p / 768) % 2),
        mwg: tile((p / 256) % 3),
        nwg: tile((p / 128) % 2),
        kwg: tile((p / 64) % 2),
        sa: ((p / 32) % 2) as usize,
        sb: ((p / 16) % 2) as usize,
        vwm: width((p / 4) % 4),
        vwn: width(p % 4),
    }
}

/// All combinations of settings, in order.
pub open spec fn all_configs() -> Seq<TuneConfig> {
    Seq::new(COMBINATIONS as nat, |p: int| config_at(p))
}

/// The combinations that are tried: a work group covers at least its threads,
/// and a vector width is a choice only where local memory is used.
pub open spec fn is_candidate(c: TuneConfig) -> bool {
    &&& c.mdimc <= c.mwg
    &&& c.ndimc <= c.nwg
    &&& c.sa == 0 ==> c.vwm == 1
    &&& c.sb == 0 ==> c.vwn == 1
}

/// The combinations that are tried, in order.
pub open spec fn candidates() -> Seq<TuneConfig> {
    all_configs().filter(|c: TuneConfig| is_candidate(c))
}

/// One of the tile sizes.
fn nth_tile(choice: usize) -> (size: usize)
    ensures
        size == tile(choice as int),
{
    if choice == 0 {
        16
    } else if choice == 1 {
        32
    } else {
        64
    }
}

/// One of the vector widths.
fn nth_width(choice: usize) -> (size: usize)
    ensures
        size == width(choice as int),
{
    if choice == 0 {
        1
    } else if choice == 1 {
        2
    } else if choice == 2 {
        4
    } else {
        8
    }
}

/// The configurations to try, in order.
pub fn tuning_configs() -> (configs: Vec<TuneConfig>)
    ensures
        configs@ == candidates(),
{
    let mut configs: Vec<TuneConfig> = Vec::new();
    let mut p: usize = 0;
    let ghost all = all_configs();
    let ghost tried = |c: TuneConfig| is_candidate(c);
    proof {
        reveal(Seq::filter);
        assert(all.take(0).filter(tried) =~= Seq::empty());
    }
    while p < COMBINATIONS
        invariant
            p <= COMBINATIONS,
            all == all_configs(),
            tried == |c: TuneConfig| is_candidate(c),
            configs@ == all.take(p as int).filter(tried),
        decreases COMBINATIONS - p,
    {
        let c = TuneConfig {
            mdimc: nth_tile(p / 1536),
            ndimc: nth_tile((p / 768) % 2),
            mwg: nth_tile((p / 256) % 3),
            nwg: nth_tile((p / 128) % 2),
            kwg: nth_tile((p / 64) % 2),
            sa: (p / 32) % 2,
            sb: (p / 16) % 2,
            vwm: nth_width((p / 4) % 4),
            vwn: nth_width(p % 4),
        };
        proof {
            reveal(Seq::filter);
            assert(c == config_at(p as int));
            assert(all.take(p + 1).drop_last() =~= all.take(p as int));
            assert(all.take(p + 1).last() == c);
        }
        if c.mdimc <= c.mwg && c.ndimc <= c.nwg && (c.sa != 0 || c.vwm == 1) && (c.sb != 0
            || c.vwn == 1) {
            configs.push(c);
        }
        p = p + 1;
    }
    assert(all.take(p as int) =~= all);
    configs
}

/// A tile size of sixteen or thirty-two.
pub open spec fn is_small_tile(size: usize) -> bool {
    size == 16 || size == 32
}

/// A vector width.
pub open spec fn is_width(size: usize) -> bool {
    size == 1 || size == 2 || size == 4 || size == 8
}

/// Every setting is one of those that it can have.
pub open spec fn is_combination(c: TuneConfig) -> bool {
    &&& is_small_tile(c.mdimc) || c.mdimc == 64
    &&& is_small_tile(c.ndimc)
    &&& is_small_tile(c.mwg) || c.mwg == 64
    &&& is_small_tile(c.nwg)
    &&& is_small_tile(c.kwg)
    &&& c.sa <= 1
    &&& c.sb <= 1
    &&& is_width(c.vwm)
    &&& is_width(c.vwn)
}

/// Which tile size it is.
spec fn tile_choice(size: usize) -> int {
    if size == 16 {
        0
    } else if size == 32 {
        1
    } else {
        2
    }
}

/// Which vector width it is.
spec fn width_choice(size: usize) -> int {
    if size == 1 {
        0
    } else if size == 2 {
        1
    } else if size == 4 {
        2
    } else {
        3
    }
}

/// The number of a combination.
spec fn combination_number(c: TuneConfig) -> int {
    1536 * tile_choice(c.mdimc) + 768 * tile_choice(c.ndimc) + 256 * tile_choice(c.mwg) + 128
        * tile_choice(c.nwg) + 64 * tile_choice(c.kwg) + 32 * c.sa + 16 * c.sb + 4 * width_choice(
        c.vwm,
    ) + width_choice(c.vwn)
}

/// The places of the mixed digits of a number.
proof fn lemma_places(p: int)
    requires
        0 <= p,
    ensures
        p / 4 / 4 == p / 16,
        p / 16 / 2 == p / 32,
        p / 32 / 2 == p / 64,
        p / 64 / 2 == p / 128,
        p / 128 / 2 == p / 256,
        p / 256 / 3 == p / 768,
        p / 768 / 2 == p / 1536,
{
    lemma_div_denominator(p, 4, 4);
    lemma_div_denominator(p, 16, 2);
    lemma_div_denominator(p, 32, 2);
    lemma_div_denominator(p, 64, 2);
    lemma_div_denominator(p, 128, 2);
    lemma_div_denominator(p, 256, 3);
    lemma_div_denominator(p, 768, 2);
}

/// A number of mixed digits has the digits that it is made of.
proof fn lemma_digits_of_sum(
    mdimc: int,
    ndimc: int,
    mwg: int,
    nwg: int,
    kwg: int,
    sa: int,
    sb: int,
    vwm: int,
    vwn: int,
    p: int,
)
    requires
        0 <= mdimc < 3,
        0 <= ndimc < 2,
        0 <= mwg < 3,
        0 <= nwg < 2,
        0 <= kwg < 2,
        0 <= sa < 2,
        0 <= sb < 2,
        0 <= vwm < 4,
        0 <= vwn < 4,
        p == 1536 * mdimc + 768 * ndimc + 256 * mwg + 128 * nwg + 64 * kwg + 32 * sa + 16 * sb + 4
            * vwm + vwn,
    ensures
        0 <= p < COMBINATIONS,
        p / 1536 == mdimc,
        (p / 768) % 2 == ndimc,
        (p / 256) % 3 == mwg,
        (p / 128) % 2 == nwg,
        (p / 64) % 2 == kwg,
        (p / 32) % 2 == sa,
        (p / 16) % 2 == sb,
        (p / 4) % 4 == vwm,
        p % 4 == vwn,
{
    let to_ndimc = 2 * mdimc + ndimc;
    let to_mwg = 3 * to_ndimc + mwg;
    let to_nwg = 2 * to_mwg + nwg;
    let to_kwg = 2 * to_nwg + kwg;
    let to_sa = 2 * to_kwg + sa;
    let to_sb = 2 * to_sa + sb;
    let to_vwm = 4 * to_sb + vwm;
    lemma_places(p);
    lemma_fundamental_div_mod_converse(p, 4, to_vwm, vwn);
    lemma_fundamental_div_mod_converse(to_vwm, 4, to_sb, vwm);
    lemma_fundamental_div_mod_converse(to_sb, 2, to_sa, sb);
    lemma_fundamental_div_mod_converse(to_sa, 2, to_kwg, sa);
    lemma_fundamental_div_mod_converse(to_kwg, 2, to_nwg, kwg);
    lemma_fundamental_div_mod_converse(to_nwg, 2, to_mwg, nwg);
    lemma_fundamental_div_mod_converse(to_mwg, 3, to_ndimc, mwg);
    lemma_fundamental_div_mod_converse(to_ndimc, 2, mdimc, ndimc);
}

/// A number is made of its mixed digits.
proof fn lemma_sum_of_digits(p: int)
    requires
        0 <= p < COMBINATIONS,
    ensures
        0 <= p / 1536 < 3,
        p == 1536 * (p / 1536) + 768 * ((p / 768) % 2) + 256 * ((p / 256) % 3) + 128 * ((p / 128)
            % 2) + 64 * ((p / 64) % 2) + 32 * ((p / 32) % 2) + 16 * ((p / 16) % 2) + 4 * ((p / 4)
            % 4) + p % 4,
{
    lemma_places(p);
}

/// A combination is found under its number.
proof fn lemma_config_of_number(c: TuneConfig)
    requires
        is_combination(c),
    ensures
        0 <= combination_number(c) < COMBINATIONS,
        config_at(combination_number(c)) == c,
{
    lemma_digits_of_sum(
        tile_choice(c.mdimc),
        tile_choice(c.ndimc),
        tile_choice(c.mwg),
        tile_choice(c.nwg),
        tile_choice(c.kwg),
        c.sa as int,
        c.sb as int,
        width_choice(c.vwm),
        width_choice(c.vwn),
        combination_number(c),
    );
}

/// The number of a combination is the one that it was found under.
proof fn lemma_number_of_config(p: int)
    requires
        0 <= p < COMBINATIONS,
    ensures
        is_combination(config_at(p)),
        combination_number(config_at(p)) == p,
{
    lemma_sum_of_digits(p);
}

/// A filter makes no duplicates.
proof fn lemma_filter_keeps_distinct<A>(s: Seq<A>, pred: spec_fn(A) -> bool)
    requires
        s.no_duplicates(),
    ensures
        s.filter(pred).no_duplicates(),
    decreases s.len(),
{
    reveal(Seq::filter);
    if s.len() > 0 {
        let front = s.drop_last();
        let last = s.last();
        lemma_filter_keeps_distinct(front, pred);
        if front.filter(pred).contains(last) {
            front.lemma_filter_contains_rev(pred, last);
        }
    }
}

/// The tuner tries every combination of settings that is a candidate, and
/// nothing else.
pub proof fn law_every_candidate_is_tried(c: TuneConfig)
    ensures
        candidates().contains(c) <==> is_combination(c) && is_candidate(c),
{
    let all = all_configs();
    let tried = |c: TuneConfig| is_candidate(c);
    if candidates().contains(c) {
        all.lemma_filter_contains_rev(tried, c);
        let p = choose|p: int| 0 <= p < all.len() && all[p] == c;
        lemma_number_of_config(p);
        let i = choose|i: int| 0 <= i < candidates().len() && candidates()[i] == c;
        all.lemma_filter_pred(tried, i);
    }
    if is_combination(c) && is_candidate(c) {
        lemma_config_of_number(c);
        all.lemma_filter_contains(tried, combination_number(c));
    }
}

/// The tuner tries no configuration twice.
pub proof fn law_no_candidate_is_tried_twice()
    ensures
        candidates().no_duplicates(),
{
    let all = all_configs();
    assert forall|p: int, q: int| 0 <= p < all.len() && 0 <= q < all.len() && p != q implies all[p]
        != all[q] by {
        lemma_number_of_config(p);
        lemma_number_of_config(q);
    }
    lemma_filter_keeps_distinct(all, |c: TuneConfig| is_candidate(c));
}

/// The build options of one configuration.
pub open spec fn tune_text(c: TuneConfig) -> Seq<char> {
    " -DMDIMC="@ + decimal(c.mdimc as nat) + " -DNDIMC="@ + decimal(c.ndimc as nat) + " -DMWG="@
        + decimal(c.mwg as nat) + " -DNWG="@ + decimal(c.nwg as nat) + " -DKWG="@ + decimal(
        c.kwg as nat,
    ) + " -DSA="@ + decimal(c.sa as nat) + " -DSB="@ + decimal(c.sb as nat) + " -DVWM="@ + decimal(
        c.vwm as nat,
    ) + " -DVWN="@ + decimal(c.vwn as nat)
}

/// The build options of one configuration.
pub fn tune_args(c: &TuneConfig) -> (args: String)
    ensures
        args@ == tune_text(*c),
{
    let mut args: String = String::new();
    args.append(" -DMDIMC=");
    push_decimal(&mut args, c.mdimc);
    args.append(" -DNDIMC=");
    push_decimal(&mut args, c.ndimc);
    args.append(" -DMWG=");
    push_decimal(&mut args, c.mwg);
    args.append(" -DNWG=");
    push_decimal(&mut args, c.nwg);
    args.append(" -DKWG=");
    push_decimal(&mut args, c.kwg);
    args.append(" -DSA=");
    push_decimal(&mut args, c.sa);
    args.append(" -DSB=");
    push_decimal(&mut args, c.sb);
    args.append(" -DVWM=");
    push_decimal(&mut args, c.vwm);
    args.append(" -DVWN=");
    push_decimal(&mut args, c.vwn);
    args
}

/// All build options of one configuration, where `tune` are its own.
pub fn build_args(tune: &str) -> (args: String)
    ensures
        args@ == CL_BASE_ARGS@ + tune@,
{
    let mut args: String = String::new();
    args.append(CL_BASE_ARGS);
    args.append(tune);
    args
}

/// How many work items a launch has in each direction, in all and in each work
/// group.
#[derive(Clone, Copy, Debug, PartialEq, Eq, Structural)]
pub struct LaunchDims {
    pub global_x: usize,
    pub global_y: usize,
    pub global_z: usize,
    pub local_x: usize,
    pub local_y: usize,
    pub local_z: usize,
}

/// The launch of one configuration: 32 work items share a tile of sixteen rows
/// and columns, and the batch goes in the third direction.
pub open spec fn launch_of(c: TuneConfig) -> LaunchDims {
    LaunchDims {
        global_x: ((32 * M / 16) * c.mdimc / (c.mwg as int)) as usize,
        global_y: ((N / 16) * c.ndimc / (c.nwg as int)) as usize,
        global_z: BATCH_SIZE,
        local_x: (32 * c.mdimc / 16) as usize,
        local_y: (c.ndimc / 16) as usize,
        local_z: 1,
    }
}

/// The launch of one configuration.
pub fn launch_dims(c: &TuneConfig) -> (dims: LaunchDims)
    requires
        c.mwg > 0,
        c.nwg > 0,
        (32 * M / 16) * c.mdimc <= usize::MAX,
        (N / 16) * c.ndimc <= usize::MAX,
    ensures
        dims == launch_of(*c),
{
    proof {
        lemma_items_in_x(c.mdimc as int);
    }
    LaunchDims {
        global_x: 32 * M / 16 * c.mdimc / c.mwg,
        global_y: N / 16 * c.ndimc / c.nwg,
        global_z: BATCH_SIZE,
        local_x: 32 * c.mdimc / 16,
        local_y: c.ndimc / 16,
        local_z: 1,
    }
}

/// Every configuration that is tried has a valid launch, and its work groups
/// cover the product exactly.
pub proof fn law_launch_covers_product(c: TuneConfig)
    requires
        candidates().contains(c),
    ensures
        c.mwg > 0,
        c.nwg > 0,
        (32 * M / 16) * c.mdimc <= usize::MAX,
        (N / 16) * c.ndimc <= usize::MAX,
        launch_of(c).local_x > 0,
        launch_of(c).local_y > 0,
        launch_of(c).global_x % launch_of(c).local_x == 0,
        launch_of(c).global_y % launch_of(c).local_y == 0,
        launch_of(c).global_x / launch_of(c).local_x * c.mwg == M,
        launch_of(c).global_y / launch_of(c).local_y * c.nwg == N,
        launch_of(c).global_z == BATCH_SIZE,
        launch_of(c).local_z == 1,
{
    law_every_candidate_is_tried(c);
    lemma_items_in_x(c.mdimc as int);
    lemma_items_in_y(c.ndimc as int);
    lemma_groups(512 * c.mdimc, c.mwg as int, 2 * c.mdimc, 256);
    lemma_groups(2 * c.ndimc, c.nwg as int, (c.ndimc / 16) as int, 32);
}

/// The launch follows the settings that the kernel is compiled with. A work group
/// has 32 work items for each sixteen of `mdimc` in the first direction and one for
/// each sixteen of `ndimc` in the second. In all there are as many work items as
/// make up the product, each group of `mdimc` by `ndimc` for a tile of `mwg` by
/// `nwg`, and one layer for each product of the batch.
pub proof fn law_launch_follows_settings(c: TuneConfig, dims: LaunchDims)
    requires
        c.mwg > 0,
        c.nwg > 0,
        512 * c.mdimc <= usize::MAX,
        2 * c.ndimc <= usize::MAX,
        call_ensures(launch_dims, (&c,), dims),
    ensures
        dims.local_x == 2 * c.mdimc,
        16 * dims.local_y <= c.ndimc < 16 * (dims.local_y + 1),
        dims.local_z == 1,
        dims.global_x * c.mwg <= 256 * dims.local_x < (dims.global_x + 1) * c.mwg,
        dims.global_y * c.nwg <= 2 * c.ndimc < (dims.global_y + 1) * c.nwg,
        dims.global_z == 36,
{
    lemma_items_in_x(c.mdimc as int);
    lemma_items_in_y(c.ndimc as int);
    let wide = 512 * c.mdimc;
    let high = 2 * c.ndimc;
    lemma_fundamental_div_mod(wide, c.mwg as int);
    lemma_fundamental_div_mod(high, c.nwg as int);
    lemma_quotient_fits(wide, c.mwg as int);
    lemma_quotient_fits(high, c.nwg as int);
}

/// A quotient is no larger than what is divided, and the next one is too large.
proof fn lemma_quotient_fits(n: int, d: int)
    requires
        0 <= n,
        0 < d,
    ensures
        0 <= n / d <= n,
        (n / d) * d <= n < (n / d + 1) * d,
{
    lemma_fundamental_div_mod(n, d);
    let q = n / d;
    let r = n % d;
    assert(0 <= q <= n && q * d <= n < (q + 1) * d) by (nonlinear_arith)
        requires
            n == d * q + r,
            0 <= r < d,
            0 <= n,
    ;
}

/// The configurations that are tried are those that combine one of the sizes of
/// each setting, where a tile is no smaller than the threads that share it, and the
/// vector width differs from one only along with local memory. None is tried twice.
pub proof fn law_configs_are_the_sensible_ones(configs: Vec<TuneConfig>, c: TuneConfig)
    requires
        call_ensures(tuning_configs, (), configs),
    ensures
        configs@.no_duplicates(),
        configs@.contains(c) <==> ({
            &&& c.mdimc == 16 || c.mdimc == 32 || c.mdimc == 64
            &&& c.ndimc == 16 || c.ndimc == 32
            &&& c.mwg == 16 || c.mwg == 32 || c.mwg == 64
            &&& c.nwg == 16 || c.nwg == 32
            &&& c.kwg == 16 || c.kwg == 32
            &&& c.sa == 0 || c.sa == 1
            &&& c.sb == 0 || c.sb == 1
            &&& c.vwm == 1 || (c.sa == 1 && (c.vwm == 2 || c.vwm == 4 || c.vwm == 8))
            &&& c.vwn == 1 || (c.sb == 1 && (c.vwn == 2 || c.vwn == 4 || c.vwn == 8))
            &&& c.mdimc <= c.mwg
            &&& c.ndimc <= c.nwg
        }),
{
    law_every_candidate_is_tried(c);
    law_no_candidate_is_tried_twice();
}

/// A filter keeps what increases increasing.
proof fn lemma_filter_keeps_increasing<A>(
    s: Seq<A>,
    pred: spec_fn(A) -> bool,
    number: spec_fn(A) -> int,
)
    requires
        forall|i: int, j: int| 0 <= i < j < s.len() ==> number(s[i]) < number(s[j]),
    ensures
        forall|i: int, j: int|
            0 <= i < j < s.filter(pred).len() ==> number(#[trigger] s.filter(pred)[i]) < number(
                #[trigger] s.filter(pred)[j],
            ),
    decreases s.len(),
{
    reveal(Seq::filter);
    if s.len() > 0 {
        let front = s.drop_last();
        let last = s.last();
        lemma_filter_keeps_increasing(front, pred, number);
        let kept = front.filter(pred);
        assert forall|i: int| 0 <= i < kept.len() implies number(#[trigger] kept[i]) < number(
            last,
        ) by {
            assert(kept.contains(kept[i]));
            front.lemma_filter_contains_rev(pred, kept[i]);
            let q = choose|q: int| 0 <= q < front.len() && front[q] == kept[i];
            assert(s[q] == kept[i]);
        }
    }
}

/// The settings of the one come before those of the other where they first differ.
pub open spec fn comes_before(a: Seq<usize>, b: Seq<usize>) -> bool {
    exists|n: int|
        {
            &&& 0 <= n < a.len()
            &&& n < b.len()
            &&& a.take(n) == b.take(n)
            &&& #[trigger] a[n] < b[n]
        }
}

/// The settings of a configuration, in the order of the build options.
pub open spec fn settings(c: TuneConfig) -> Seq<usize> {
    seq![c.mdimc, c.ndimc, c.mwg, c.nwg, c.kwg, c.sa, c.sb, c.vwm, c.vwn]
}

/// The configurations are tried in the order of their settings, smaller ones first.
pub proof fn law_configs_come_in_order(configs: Vec<TuneConfig>, i: int, j: int)
    requires
        call_ensures(tuning_configs, (), configs),
        0 <= i < j < configs@.len(),
    ensures
        comes_before(settings(configs@[i]), settings(configs@[j])),
{
    let all = all_configs();
    let number = |c: TuneConfig| combination_number(c);
    assert forall|p: int, q: int| 0 <= p < q < all.len() implies number(all[p]) < number(
        all[q],
    ) by {
        lemma_number_of_config(p);
        lemma_number_of_config(q);
    }
    lemma_filter_keeps_increasing(all, |c: TuneConfig| is_candidate(c), number);
    let (a, b) = (configs@[i], configs@[j]);
    assert(number(a) < number(b));
    law_every_candidate_is_tried(a);
    law_every_candidate_is_tried(b);
    let (x, y) = (settings(a), settings(b));
    let n: int = if a.mdimc != b.mdimc {
        0
    } else if a.ndimc != b.ndimc {
        1
    } else if a.mwg != b.mwg {
        2
    } else if a.nwg != b.nwg {
        3
    } else if a.kwg != b.kwg {
        4
    } else if a.sa != b.sa {
        5
    } else if a.sb != b.sb {
        6
    } else if a.vwm != b.vwm {
        7
    } else {
        8
    };
    assert(x[n] < y[n]);
    assert(x.take(n) =~= y.take(n));
}

/// The build options name every setting with its value in decimal, behind the
/// options that all configurations share.
pub proof fn law_options_name_the_settings(c: TuneConfig, tune: String, text: &str, args: String)
    requires
        call_ensures(tune_args, (&c,), tune),
        text@ == tune@,
        call_ensures(build_args, (text,), args),
    ensures
        args@
            == "-cl-mad-enable -cl-fast-relaxed-math -cl-no-signed-zeros -cl-denorms-are-zero -DQ4K_B"@
            + (" -DMDIMC="@ + decimal(c.mdimc as nat) + " -DNDIMC="@ + decimal(c.ndimc as nat)
            + " -DMWG="@ + decimal(c.mwg as nat) + " -DNWG="@ + decimal(c.nwg as nat) + " -DKWG="@
            + decimal(c.kwg as nat) + " -DSA="@ + decimal(c.sa as nat) + " -DSB="@ + decimal(
            c.sb as nat,
        ) + " -DVWM="@ + decimal(c.vwm as nat) + " -DVWN="@ + decimal(c.vwn as nat)),
{
}

/// How many work items there would be with tiles of a single row.
proof fn lemma_items_in_x(mdimc: int)
    ensures
        (32 * M / 16) * mdimc == 512 * mdimc,
{
    assert((32 * M / 16) * mdimc == 512 * mdimc) by (nonlinear_arith)
        requires
            32 * M / 16 == 512,
    ;
}

/// How many work items there would be with tiles of a single column.
proof fn lemma_items_in_y(ndimc: int)
    ensures
        (N / 16) * ndimc == 2 * ndimc,
{
    assert((N / 16) * ndimc == 2 * ndimc) by (nonlinear_arith)
        requires
            N / 16 == 2,
    ;
}

/// Work groups of `local` items, each for `tile` of `extent` elements, make up
/// `items / tile` items.
proof fn lemma_groups(items: int, tile: int, local: int, extent: int)
    requires
        tile > 0,
        local > 0,
        extent >= 0,
        extent % tile == 0,
        items == extent * local,
    ensures
        (items / tile) % local == 0,
        (items / tile) / local * tile == extent,
{
    let groups = extent / tile;
    lemma_fundamental_div_mod(extent, tile);
    assert(0 <= groups && extent == groups * tile && 0 <= groups * local) by (nonlinear_arith)
        requires
            tile > 0,
            local > 0,
            extent >= 0,
            extent == tile * groups,
    ;
    assert(items == (groups * local) * tile) by (nonlinear_arith)
        requires
            items == extent * local,
            extent == groups * tile,
    ;
    lemma_div_by_multiple(groups * local, tile);
    lemma_div_by_multiple(groups, local);
    lemma_mod_multiples_basic(groups, local);
}

/// The best run so far.
pub struct BestRun<T> {
    pub time: T,
    pub error: T,
    pub args: String,
}

/// No run yet: the greatest time, no error and no options.
pub open spec fn is_no_run<T: Number>(best: BestRun<T>) -> bool {
    &&& call_ensures(T::greatest, (), best.time)
    &&& call_ensures(T::decimal, (0i32, 0i32), best.error)
    &&& best.args@ == Seq::<char>::empty()
}

/// `better` tells whether a run that took `time` replaces one that took `best`:
/// it must have taken some time, and less.
pub open spec fn is_better<T: Number>(time: T, best: T, better: bool) -> bool {
    exists|zero: T, positive: bool|
        {
            &&& call_ensures(T::decimal, (0i32, 0i32), zero)
            &&& #[trigger] call_ensures(T::exceeds, (time, zero), positive)
            &&& if positive {
                call_ensures(T::below, (time, best), better)
            } else {
                !better
            }
        }
}

/// `after` is the best run once a run has been recorded with `before` the best.
pub open spec fn is_recorded<T: Number>(
    before: BestRun<T>,
    time: T,
    error: T,
    args: Seq<char>,
    after: BestRun<T>,
) -> bool {
    exists|better: bool| #[trigger]
        is_better(time, before.time, better) && if better {
            after.time == time && after.error == error && after.args@ == args
        } else {
            after == before
        }
}

/// `best` are the best runs before the first of the runs that took `times` and
/// after each of them.
pub open spec fn is_search<T: Number>(
    best: Seq<BestRun<T>>,
    times: Seq<T>,
    errors: Seq<T>,
    args: Seq<Seq<char>>,
) -> bool {
    &&& best.len() == times.len() + 1
    &&& errors.len() == times.len()
    &&& args.len() == times.len()
    &&& is_no_run(best[0])
    &&& forall|k: int|
        0 <= k < times.len() ==> is_recorded(
            best[k],
            #[trigger] times[k],
            errors[k],
            args[k],
            best[k + 1],
        )
}

/// A search without its last run.
proof fn lemma_shorter_search<T: Number>(
    best: Seq<BestRun<T>>,
    times: Seq<T>,
    errors: Seq<T>,
    args: Seq<Seq<char>>,
)
    requires
        is_search(best, times, errors, args),
        times.len() > 0,
    ensures
        is_search(best.drop_last(), times.drop_last(), errors.drop_last(), args.drop_last()),
        is_recorded(
            best.drop_last().last(),
            times.last(),
            errors.last(),
            args.last(),
            best.last(),
        ),
{
    let n = times.len() - 1;
    assert forall|k: int| 0 <= k < n implies is_recorded(
        best.drop_last()[k],
        #[trigger] times.drop_last()[k],
        errors.drop_last()[k],
        args.drop_last()[k],
        best.drop_last()[k + 1],
    ) by {
        assert(times.drop_last()[k] == times[k]);
    }
    assert(is_recorded(best[n], times[n], errors[n], args[n], best[n + 1]));
}

/// Run `winner` was better than the best before it, is the best at the end with
/// its own time, error and options, and no later run was better than it. Where
/// `winner` is -1, no run was better than none.
pub open spec fn is_winner<T: Number>(
    best: Seq<BestRun<T>>,
    times: Seq<T>,
    errors: Seq<T>,
    args: Seq<Seq<char>>,
    winner: int,
) -> bool {
    &&& -1 <= winner < times.len()
    &&& winner == -1 ==> best.last() == best[0]
    &&& winner >= 0 ==> {
        &&& best.last().time == times[winner]
        &&& best.last().error == errors[winner]
        &&& best.last().args@ == args[winner]
        &&& is_better(times[winner], best[winner].time, true)
    }
    &&& forall|k: int|
        winner < k < times.len() ==> is_better(#[trigger] times[k], best.last().time, false)
}

/// A search ends with the last of its runs that was better than all before it,
/// or with none.
pub proof fn law_winner_was_recorded<T: Number>(
    best: Seq<BestRun<T>>,
    times: Seq<T>,
    errors: Seq<T>,
    args: Seq<Seq<char>>,
)
    requires
        is_search(best, times, errors, args),
    ensures
        exists|winner: int| is_winner(best, times, errors, args, winner),
    decreases times.len(),
{
    if times.len() == 0 {
        assert(is_winner(best, times, errors, args, -1));
    } else {
        let n = times.len() - 1;
        let earlier = best.drop_last();
        lemma_shorter_search(best, times, errors, args);
        law_winner_was_recorded(
            earlier,
            times.drop_last(),
            errors.drop_last(),
            args.drop_last(),
        );
        let w = choose|w: int|
            is_winner(earlier, times.drop_last(), errors.drop_last(), args.drop_last(), w);
        let better = choose|better: bool| #[trigger]
            is_better(times[n], earlier.last().time, better) && if better {
                best.last().time == times[n] && best.last().error == errors[n]
                    && best.last().args@ == args[n]
            } else {
                best.last() == earlier.last()
            };
        if better {
            assert(is_winner(best, times, errors, args, n));
        } else {
            assert forall|k: int| w < k < times.len() implies is_better(
                #[trigger] times[k],
                best.last().time,
                false,
            ) by {
                if k < n {
                    assert(times.drop_last()[k] == times[k]);
                }
            }
            assert(is_winner(best, times, errors, args, w));
        }
    }
}

/// Comparisons of times have one outcome, and `below` is a strict order. Single
/// precision has both, also for what is not a number: it is below nothing and
/// nothing is below it.
pub open spec fn orders_times<T: Number>() -> bool {
    &&& forall|time: T, best: T|
        !(#[trigger] is_better(time, best, true) && is_better(time, best, false))
    &&& forall|a: T| !#[trigger] call_ensures(T::below, (a, a), true)
    &&& forall|a: T, b: T, c: T| #[trigger]
        call_ensures(T::below, (a, b), true) && #[trigger] call_ensures(T::below, (b, c), true)
            ==> call_ensures(T::below, (a, c), true)
}

/// The winner is the fastest run: no run of the search is better than the one
/// that it ends with.
pub proof fn law_winner_is_the_fastest<T: Number>(
    best: Seq<BestRun<T>>,
    times: Seq<T>,
    errors: Seq<T>,
    args: Seq<Seq<char>>,
)
    requires
        orders_times::<T>(),
        is_search(best, times, errors, args),
    ensures
        forall|k: int|
            0 <= k < times.len() ==> !is_better(#[trigger] times[k], best.last().time, true),
    decreases times.len(),
{
    if times.len() > 0 {
        let n = times.len() - 1;
        let earlier = best.drop_last();
        lemma_shorter_search(best, times, errors, args);
        law_winner_is_the_fastest(
            earlier,
            times.drop_last(),
            errors.drop_last(),
            args.drop_last(),
        );
        let before = earlier.last().time;
        let after = best.last().time;
        assert forall|k: int| 0 <= k < times.len() implies !is_better(
            #[trigger] times[k],
            after,
            true,
        ) by {
            if k < n {
                assert(times.drop_last()[k] == times[k]);
                assert(!is_better(times[k], before, true));
            }
        }
    }
}

/// The winner of a search took some time, and no run that took some time took less.
/// Of those that took as little it was the first, and its time, error and options
/// stand together. Without a winner, no run took some time below the greatest there
/// is.
#[verifier::rlimit(50)]
pub proof fn law_winner_took_the_least_time<T: Number>(
    m: Reading<T>,
    best: Seq<BestRun<T>>,
    times: Seq<T>,
    errors: Seq<T>,
    args: Seq<Seq<char>>,
)
    requires
        reads_constants(m),
        reads_order(m),
        forall|a: T| #[trigger] call_ensures(T::greatest, (), a) ==> (m.known)(a),
        is_search(best, times, errors, args),
        forall|k: int| 0 <= k < times.len() ==> (m.known)(#[trigger] times[k]),
    ensures
        ({
            ||| {
                &&& best.last() == best[0]
                &&& forall|k: int|
                    0 <= k < times.len() ==> (m.value)(#[trigger] times[k]) <= 0 || (m.value)(
                        times[k],
                    ) >= (m.value)(best[0].time)
            }
            ||| exists|w: int|
                {
                    &&& 0 <= w < times.len()
                    &&& 0 < (m.value)(#[trigger] times[w]) < (m.value)(best[0].time)
                    &&& best.last().time == times[w]
                    &&& best.last().error == errors[w]
                    &&& best.last().args@ == args[w]
                    &&& forall|k: int|
                        0 <= k < times.len() ==> (m.value)(#[trigger] times[k]) <= 0 || (m.value)(
                            times[w],
                        ) < (m.value)(times[k]) || ((m.value)(times[w]) == (m.value)(times[k]) && w
                            <= k)
                }
        }),
        (m.known)(best.last().time),
    decreases times.len(),
{
    if times.len() > 0 {
        let n = times.len() - 1;
        let earlier = best.drop_last();
        let fewer = times.drop_last();
        lemma_shorter_search(best, times, errors, args);
        law_winner_took_the_least_time(m, earlier, fewer, errors.drop_last(), args.drop_last());
        assert(forall|k: int| 0 <= k < n ==> times[k] == #[trigger] fewer[k]);
        assert(forall|k: int| 0 <= k < n ==> #[trigger] times[k] == fewer[k]);
        let better = choose|better: bool| #[trigger]
            is_better(times[n], earlier.last().time, better) && if better {
                best.last().time == times[n] && best.last().error == errors[n]
                    && best.last().args@ == args[n]
            } else {
                best.last() == earlier.last()
            };
        assert(better == (0 < (m.value)(times[n]) < (m.value)(earlier.last().time)));
        assert(earlier[0] == best[0]);
        let none = earlier.last() == earlier[0] && (forall|k: int|
            0 <= k < n ==> (m.value)(#[trigger] fewer[k]) <= 0 || (m.value)(fewer[k]) >= (m.value)(
                earlier[0].time,
            ));
        if none {
            if better {
                assert(0 < (m.value)(times[n]) < (m.value)(best[0].time));
            }
        } else {
            let w = choose|w: int|
                {
                    &&& 0 <= w < fewer.len()
                    &&& 0 < (m.value)(#[trigger] fewer[w]) < (m.value)(earlier[0].time)
                    &&& earlier.last().time == fewer[w]
                    &&& earlier.last().error == errors.drop_last()[w]
                    &&& earlier.last().args@ == args.drop_last()[w]
                    &&& forall|k: int|
                        0 <= k < fewer.len() ==> (m.value)(#[trigger] fewer[k]) <= 0 || (m.value)(
                            fewer[w],
                        ) < (m.value)(fewer[k]) || ((m.value)(fewer[w]) == (m.value)(fewer[k]) && w
                            <= k)
                };
            if better {
                assert(0 < (m.value)(times[n]) < (m.value)(best[0].time));
            } else {
                assert(0 < (m.value)(times[w]) < (m.value)(best[0].time));
            }
        }
    }
}

/// [`BestRun::record`] takes over the time, the error and the options of a run that
/// took some time, and less than the best so far. After any other run the best is what
/// it was.
pub proof fn law_record_keeps_the_faster<T: Number>(
    m: Reading<T>,
    best: &mut BestRun<T>,
    time: T,
    error: T,
    args: &str,
)
    requires
        reads_constants(m),
        reads_order(m),
        (m.known)(time),
        (m.known)(old(best).time),
        call_ensures(BestRun::<T>::record, (best, time, error, args), ()),
    ensures
        0 < (m.value)(time) < (m.value)(old(best).time) ==> ({
            &&& final(best).time == time
            &&& final(best).error == error
            &&& final(best).args@ == args@
        }),
        !(0 < (m.value)(time) < (m.value)(old(best).time)) ==> *final(best) == *old(best),
{
    let better = choose|better: bool| #[trigger]
        is_better(time, old(best).time, better) && if better {
            final(best).time == time && final(best).error == error && final(best).args@ == args@
        } else {
            *final(best) == *old(best)
        };
    assert(better == (0 < (m.value)(time) < (m.value)(old(best).time)));
}

/// Before the first run there are no options and no error, and no time is above that
/// of the best.
pub proof fn law_search_starts_with_nothing<T: Number>(m: Reading<T>, best: BestRun<T>, time: T)
    requires
        reads_constants(m),
        forall|a: T, b: T| #[trigger]
            call_ensures(T::greatest, (), a) && (m.known)(b) ==> #[trigger] (m.value)(b) <= (
            m.value)(a),
        call_ensures(BestRun::<T>::none, (), best),
        (m.known)(time),
    ensures
        best.args@.len() == 0,
        (m.value)(best.error) == 0,
        (m.value)(time) <= (m.value)(best.time),
{
    assert(0 * m.unit == 0);
}

/// A run whose time is no number, or is not below the best, is not kept.
pub proof fn law_unmeasured_run_changes_nothing<T: Number>(
    before: BestRun<T>,
    time: T,
    error: T,
    args: Seq<char>,
    after: BestRun<T>,
)
    requires
        is_recorded(before, time, error, args, after),
        forall|zero: T, r: bool| #[trigger]
            call_ensures(T::exceeds, (time, zero), r) && call_ensures(T::decimal, (0i32, 0i32), zero)
                ==> !r || !call_ensures(T::below, (time, before.time), true),
    ensures
        after == before,
{
}

impl<T: Number> BestRun<T> {
    /// No run yet.
    pub fn none() -> (best: Self)
        ensures
            is_no_run(best),
    {
        BestRun { time: T::greatest(), error: T::decimal(0, 0), args: String::new() }
    }

    /// Takes note of a run, and keeps it if it is better than the best so far.
    pub fn record(&mut self, time: T, error: T, args: &str)
        ensures
            is_recorded(*old(self), time, error, args@, *final(self)),
    {
        let ghost best = self.time;
        let positive: bool = time.exceeds(T::decimal(0, 0));
        let better: bool = positive && time.below(self.time);
        assert(is_better(time, best, better));
        if better {
            self.time = time;
            self.error = error;
            self.args = args.to_owned();
        }
    }
}

} // verus!

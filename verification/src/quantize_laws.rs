//! What two calls of the quantisation have to do with each other.
//!
//! The operations of a [`Number`] are relations, so that the laws have premises on
//! them, which single precision meets. They speak of the form of a number, which
//! leaves open what single precision leaves open: the sign of a zero, since either
//! of two zeros may be the smaller, and the bits of what is not a number.
use vstd::prelude::*;
use vstd::seq_lib::{lemma_fold_left_permutation, to_multiset_contains, to_multiset_update};

use crate::layout::{at, lemma_at_bound, lemma_at_covers};
use crate::number::{
    folds_to, greater_step, is_half_negative, is_half_zero, lemma_folds_stay_related, lesser_step,
    Number,
};
use crate::q4k::{
    law_block_reads_back, packed_block, read_half, read_quant, BLOCK_BYTES, BLOCK_VALUES,
    SUB_BLOCKS, SUB_BLOCK_VALUES,
};
use crate::quantize::{
    are_block_params, are_block_params_over, are_column_blocks, are_six_bit_quants, block_index,
    is_column, is_column_block, is_level, is_quant, is_quantized_block, is_six_bit_level,
    is_six_bit_quant, is_sub_block, is_sub_block_between, is_sub_block_high, is_sub_block_low,
    is_sub_block_scale, is_super_scale, lemma_quants_are_small, nth_block, sub_block, BlockParams,
};

verus! {

/// `b` has the form of twice `a`.
pub open spec fn is_twice<T>(form: spec_fn(T) -> T, twice: spec_fn(T) -> T, a: T, b: T) -> bool {
    form(b) == form(twice(a))
}

/// The number is above zero.
pub open spec fn is_positive<T: Number>(a: T) -> bool {
    exists|zero: T| #[trigger]
        call_ensures(T::decimal, (0i32, 0i32), zero) && call_ensures(T::exceeds, (a, zero), true)
}

/// The number is below zero.
pub open spec fn is_negative<T: Number>(a: T) -> bool {
    exists|zero: T| #[trigger]
        call_ensures(T::decimal, (0i32, 0i32), zero) && call_ensures(T::below, (a, zero), true)
}

/// `c` is one of the numbers of levels that ranges are divided by.
pub open spec fn is_divisor<T: Number>(c: T) -> bool {
    call_ensures(T::decimal, (15i32, 0i32), c) || call_ensures(T::decimal, (63i32, 0i32), c)
}

/// `twice` passes through the quantisation: up to the form, it commutes with the
/// operations that lead from the values to the factors and cancels in the ratios.
///
/// This is asked of numbers that are tame enough. A value has to be tame at level
/// zero; a difference and a quotient are tame at one level more. In single
/// precision, with `twice` the doubling, a number is tame at level `k` if it is
/// zero, infinite or not a number, or lies between `2^(-24 - 27 * k)` and
/// `2^(20 + k)` in magnitude. With `twice` the identity, all numbers are tame.
pub open spec fn passes_through<T: Number>(
    form: spec_fn(T) -> T,
    twice: spec_fn(T) -> T,
    tame: spec_fn(T, int) -> bool,
) -> bool {
    &&& constants_pass_through(form, twice, tame)
    &&& tame_numbers_lead_on(tame)
    &&& numbers_pass_through(form, twice, tame)
    &&& ratios_cancel(form, twice, tame)
}

/// The constants are tame, and twice themselves.
pub open spec fn constants_pass_through<T: Number>(
    form: spec_fn(T) -> T,
    twice: spec_fn(T) -> T,
    tame: spec_fn(T, int) -> bool,
) -> bool {
    &&& forall|m: i32, e: i32, a: T, b: T| #[trigger]
        call_ensures(T::decimal, (m, e), a) && #[trigger] call_ensures(T::decimal, (m, e), b) ==> a
            == b
    &&& forall|a: T| #[trigger]
        call_ensures(T::decimal, (0i32, 0i32), a) ==> tame(a, 0) && is_twice(form, twice, a, a)
    &&& forall|a: T, b: T| #[trigger]
        call_ensures(T::infinity, (), a) && #[trigger] call_ensures(T::infinity, (), b) ==> tame(
            a,
            0,
        ) && is_twice(form, twice, a, b)
    &&& forall|a: T, b: T| #[trigger]
        call_ensures(T::neg_infinity, (), a) && #[trigger] call_ensures(T::neg_infinity, (), b)
            ==> tame(a, 0) && is_twice(form, twice, a, b)
}

/// What comes of tame numbers is tame.
pub open spec fn tame_numbers_lead_on<T: Number>(tame: spec_fn(T, int) -> bool) -> bool {
    &&& forall|a: T, k: int, l: int| #[trigger] tame(a, k) && k <= l ==> #[trigger] tame(a, l)
    &&& forall|a: T, b: T, x: T, k: int|
        #![trigger call_ensures(T::lesser, (a, b), x), tame(a, k), tame(b, k)]
        call_ensures(T::lesser, (a, b), x) && tame(a, k) && tame(b, k) ==> tame(x, k)
    &&& forall|a: T, b: T, x: T, k: int|
        #![trigger call_ensures(T::greater, (a, b), x), tame(a, k), tame(b, k)]
        call_ensures(T::greater, (a, b), x) && tame(a, k) && tame(b, k) ==> tame(x, k)
    &&& forall|a: T, x: T, k: int|
        #![trigger call_ensures(T::negated, (a,), x), tame(a, k)]
        call_ensures(T::negated, (a,), x) && tame(a, k) ==> tame(x, k)
    &&& forall|a: T, b: T, x: T|
        #![trigger call_ensures(T::minus, (a, b), x), tame(a, 0), tame(b, 0)]
        call_ensures(T::minus, (a, b), x) && tame(a, 0) && tame(b, 0) ==> tame(x, 1)
    &&& forall|a: T, c: T, x: T, k: int|
        #![trigger call_ensures(T::over, (a, c), x), tame(a, k)]
        call_ensures(T::over, (a, c), x) && is_divisor(c) && tame(a, k) && k <= 2 ==> tame(
            x,
            k + 1,
        )
}

/// Operations on tame numbers and on their doubles give a number and its double.
pub open spec fn numbers_pass_through<T: Number>(
    form: spec_fn(T) -> T,
    twice: spec_fn(T) -> T,
    tame: spec_fn(T, int) -> bool,
) -> bool {
    &&& forall|a: T, b: T, c: T, d: T, x: T, y: T| #[trigger]
        call_ensures(T::lesser, (a, b), x) && #[trigger] call_ensures(T::lesser, (c, d), y)
            && is_twice(form, twice, a, c) && is_twice(form, twice, b, d) && tame(a, 3) && tame(
            b,
            3,
        ) ==> is_twice(form, twice, x, y)
    &&& forall|a: T, b: T, c: T, d: T, x: T, y: T| #[trigger]
        call_ensures(T::greater, (a, b), x) && #[trigger] call_ensures(T::greater, (c, d), y)
            && is_twice(form, twice, a, c) && is_twice(form, twice, b, d) && tame(a, 3) && tame(
            b,
            3,
        ) ==> is_twice(form, twice, x, y)
    &&& forall|a: T, c: T, x: T, y: T| #[trigger]
        call_ensures(T::negated, (a,), x) && #[trigger] call_ensures(T::negated, (c,), y)
            && is_twice(form, twice, a, c) && tame(a, 3) ==> is_twice(form, twice, x, y)
    &&& forall|a: T, b: T, c: T, d: T, x: bool, y: bool| #[trigger]
        call_ensures(T::exceeds, (a, b), x) && #[trigger] call_ensures(T::exceeds, (c, d), y)
            && is_twice(form, twice, a, c) && is_twice(form, twice, b, d) && tame(a, 3) && tame(
            b,
            3,
        ) ==> x == y
    &&& forall|a: T, b: T, c: T, d: T, x: T, y: T| #[trigger]
        call_ensures(T::minus, (a, b), x) && #[trigger] call_ensures(T::minus, (c, d), y)
            && is_twice(form, twice, a, c) && is_twice(form, twice, b, d) && tame(a, 0) && tame(
            b,
            0,
        ) ==> is_twice(form, twice, x, y)
    &&& forall|a: T, b: T, c: T, x: T, y: T| #[trigger]
        call_ensures(T::over, (a, c), x) && #[trigger] call_ensures(T::over, (b, c), y)
            && is_divisor(c) && is_twice(form, twice, a, b) && tame(a, 2) ==> is_twice(
            form,
            twice,
            x,
            y,
        )
}

/// The ratio of two tame numbers has the form of the ratio of their doubles, and
/// what has one form is rounded and capped to one level.
pub open spec fn ratios_cancel<T: Number>(
    form: spec_fn(T) -> T,
    twice: spec_fn(T) -> T,
    tame: spec_fn(T, int) -> bool,
) -> bool {
    &&& forall|a: T, b: T, c: T, d: T, x: T, y: T| #[trigger]
        call_ensures(T::over, (a, b), x) && #[trigger] call_ensures(T::over, (c, d), y) && is_twice(
            form,
            twice,
            a,
            c,
        ) && is_twice(form, twice, b, d) && tame(a, 3) && tame(b, 3) && is_positive(b) ==> form(x)
            == form(y)
    &&& forall|a: T, b: T, c: T, x: T, y: T| #[trigger]
        call_ensures(T::plus, (a, c), x) && #[trigger] call_ensures(T::plus, (b, c), y) && form(a)
            == form(b) ==> form(x) == form(y)
    &&& forall|a: T, b: T, c: T, x: T, y: T| #[trigger]
        call_ensures(T::lesser, (a, c), x) && #[trigger] call_ensures(T::lesser, (b, c), y)
            && form(a) == form(b) ==> form(x) == form(y)
    &&& forall|a: T, b: T, x: u8, y: u8| #[trigger]
        call_ensures(T::to_u8, (a,), x) && #[trigger] call_ensures(T::to_u8, (b,), y) && form(a)
            == form(b) ==> x == y
}

/// Every number as it is.
pub open spec fn unchanged<T>() -> spec_fn(T) -> T {
    |a: T| a
}

/// Every number is tame.
pub open spec fn always<T>() -> spec_fn(T, int) -> bool {
    |a: T, level: int| true
}

/// Operations on numbers of one form give results of one form. Single precision
/// has this.
pub open spec fn keeps_form<T: Number>(form: spec_fn(T) -> T) -> bool {
    passes_through(form, unchanged::<T>(), always::<T>())
}

/// The number is a constant zero, or above zero.
pub open spec fn is_plain<T: Number>(a: T) -> bool {
    call_ensures(T::decimal, (0i32, 0i32), a) || is_positive(a)
}

/// The number has the form of zero.
pub open spec fn is_zero_form<T: Number>(form: spec_fn(T) -> T, a: T) -> bool {
    exists|zero: T| #[trigger]
        call_ensures(T::decimal, (0i32, 0i32), zero) && form(a) == form(zero)
}

/// Where signs of zeros do not come in, the form is the number: what is above zero
/// is settled by its form, and the operations on scales give one result. A value
/// below zero makes the factor of the minima one of these. Single precision has
/// this.
pub open spec fn settles<T: Number>(form: spec_fn(T) -> T) -> bool {
    &&& plain_numbers_are_fixed(form)
    &&& zeros_stay_zero(form)
    &&& signs_are_kept::<T>()
}

/// What is above zero is settled by its form, and the operations on zero and on
/// what is above it give one result, which is again such a number.
pub open spec fn plain_numbers_are_fixed<T: Number>(form: spec_fn(T) -> T) -> bool {
    &&& forall|a: T, b: T|
        #![trigger form(a), form(b)]
        is_positive(a) && form(a) == form(b) ==> a == b
    &&& forall|a: T, b: T, x: T| #[trigger]
        call_ensures(T::minus, (a, b), x) && call_ensures(T::exceeds, (a, b), true) ==> is_positive(
            x,
        )
    &&& forall|a: T, c: T, x: T, y: T| #[trigger]
        call_ensures(T::over, (a, c), x) && #[trigger] call_ensures(T::over, (a, c), y)
            && is_divisor(c) && is_plain(a) ==> x == y && is_plain(x)
    &&& forall|a: T, b: T, x: T, y: T| #[trigger]
        call_ensures(T::greater, (a, b), x) && #[trigger] call_ensures(T::greater, (a, b), y)
            && is_plain(a) && is_plain(b) ==> x == y && is_plain(x)
    &&& forall|a: T, x: u16, y: u16| #[trigger]
        call_ensures(T::to_half_bits, (a,), x) && #[trigger] call_ensures(T::to_half_bits, (a,), y)
            && is_plain(a) ==> x == y
}

/// A zero divided is a zero and has the bits of one, and the larger of a zero and
/// another number is a zero or above.
pub open spec fn zeros_stay_zero<T: Number>(form: spec_fn(T) -> T) -> bool {
    &&& forall|a: T, b: T, x: T| #[trigger]
        call_ensures(T::greater, (a, b), x) && (is_zero_form(form, a) || is_positive(a))
            ==> is_zero_form(form, x) || is_positive(x)
    &&& forall|a: T, c: T, x: T| #[trigger]
        call_ensures(T::over, (a, c), x) && is_divisor(c) && is_zero_form(form, a) ==> is_zero_form(
            form,
            x,
        )
    &&& forall|a: T, x: u16| #[trigger]
        call_ensures(T::to_half_bits, (a,), x) && is_zero_form(form, a) ==> is_half_zero(x)
}

/// The smaller of a negative number and another is negative, its opposite is
/// positive, and the larger of a positive number and another is positive.
pub open spec fn signs_are_kept<T: Number>() -> bool {
    &&& forall|a: T, b: T, x: T| #[trigger]
        call_ensures(T::lesser, (a, b), x) && (is_negative(a) || is_negative(b)) ==> is_negative(x)
    &&& forall|a: T, x: T| #[trigger]
        call_ensures(T::negated, (a,), x) && is_negative(a) ==> is_positive(x)
    &&& forall|a: T, b: T, x: T| #[trigger]
        call_ensures(T::greater, (a, b), x) && (is_positive(a) || is_positive(b)) ==> is_positive(x)
}

/// `after` are the doubles of `before`, which are tame.
spec fn is_doubled<T>(
    form: spec_fn(T) -> T,
    twice: spec_fn(T) -> T,
    tame: spec_fn(T, int) -> bool,
    level: int,
    before: Seq<T>,
    after: Seq<T>,
) -> bool {
    &&& after.len() == before.len()
    &&& forall|i: int|
        0 <= i < before.len() ==> tame(#[trigger] before[i], level) && is_twice(
            form,
            twice,
            before[i],
            after[i],
        )
}

/// `b` has the form of twice `a`, which is tame.
spec fn doubles<T>(
    form: spec_fn(T) -> T,
    twice: spec_fn(T) -> T,
    tame: spec_fn(T, int) -> bool,
    level: int,
) -> spec_fn(T, T) -> bool {
    |a: T, b: T| tame(a, level) && is_twice(form, twice, a, b)
}

/// The lowest level passes through.
proof fn lemma_low_passes<T: Number>(
    form: spec_fn(T) -> T,
    twice: spec_fn(T) -> T,
    tame: spec_fn(T, int) -> bool,
    before: Seq<T>,
    after: Seq<T>,
    low1: T,
    low2: T,
)
    requires
        passes_through(form, twice, tame),
        is_doubled(form, twice, tame, 0, before, after),
        is_sub_block_low(before, low1),
        is_sub_block_low(after, low2),
    ensures
        tame(low1, 0),
        is_twice(form, twice, low1, low2),
{
    let (start1, smallest1, zero1) = choose|start: T, smallest: T, zero: T|
        {
            &&& #[trigger] call_ensures(T::infinity, (), start)
            &&& folds_to(lesser_step::<T>(), start, before, smallest)
            &&& call_ensures(T::decimal, (0i32, 0i32), zero)
            &&& #[trigger] call_ensures(T::lesser, (smallest, zero), low1)
        };
    let (start2, smallest2, zero2) = choose|start: T, smallest: T, zero: T|
        {
            &&& #[trigger] call_ensures(T::infinity, (), start)
            &&& folds_to(lesser_step::<T>(), start, after, smallest)
            &&& call_ensures(T::decimal, (0i32, 0i32), zero)
            &&& #[trigger] call_ensures(T::lesser, (smallest, zero), low2)
        };
    let pairs = doubles(form, twice, tame, 0);
    assert(zero1 == zero2);
    assert(forall|a: T| tame(a, 0) ==> #[trigger] tame(a, 3));
    lemma_folds_stay_related(
        lesser_step::<T>(),
        pairs,
        pairs,
        start1,
        start2,
        before,
        after,
        smallest1,
        smallest2,
    );
    assert(tame(zero1, 0));
}

/// The largest value passes through.
proof fn lemma_high_passes<T: Number>(
    form: spec_fn(T) -> T,
    twice: spec_fn(T) -> T,
    tame: spec_fn(T, int) -> bool,
    before: Seq<T>,
    after: Seq<T>,
    high1: T,
    high2: T,
)
    requires
        passes_through(form, twice, tame),
        is_doubled(form, twice, tame, 0, before, after),
        is_sub_block_high(before, high1),
        is_sub_block_high(after, high2),
    ensures
        tame(high1, 0),
        is_twice(form, twice, high1, high2),
{
    let start1 = choose|start: T| #[trigger]
        call_ensures(T::neg_infinity, (), start) && folds_to(
            greater_step::<T>(),
            start,
            before,
            high1,
        );
    let start2 = choose|start: T| #[trigger]
        call_ensures(T::neg_infinity, (), start) && folds_to(
            greater_step::<T>(),
            start,
            after,
            high2,
        );
    let pairs = doubles(form, twice, tame, 0);
    assert(forall|a: T| tame(a, 0) ==> #[trigger] tame(a, 3));
    lemma_folds_stay_related(
        greater_step::<T>(),
        pairs,
        pairs,
        start1,
        start2,
        before,
        after,
        high1,
        high2,
    );
}

/// What a scale was made of: whether the largest value is above the lowest level,
/// and then the range and the number of levels.
proof fn lemma_scale_parts<T: Number>(low: T, high: T, scale: T) -> (parts: (bool, T, T))
    requires
        is_sub_block_scale(low, high, scale),
    ensures
        call_ensures(T::exceeds, (high, low), parts.0),
        parts.0 ==> {
            &&& call_ensures(T::minus, (high, low), parts.1)
            &&& call_ensures(T::decimal, (15i32, 0i32), parts.2)
            &&& call_ensures(T::over, (parts.1, parts.2), scale)
        },
        !parts.0 ==> call_ensures(T::decimal, (0i32, 0i32), scale),
{
    let above = choose|above: bool|
        {
            &&& #[trigger] call_ensures(T::exceeds, (high, low), above)
            &&& if above {
                exists|range: T, levels: T|
                    {
                        &&& call_ensures(T::minus, (high, low), range)
                        &&& call_ensures(T::decimal, (15i32, 0i32), levels)
                        &&& #[trigger] call_ensures(T::over, (range, levels), scale)
                    }
            } else {
                call_ensures(T::decimal, (0i32, 0i32), scale)
            }
        };
    let (range, levels) = choose|range: T, levels: T|
        {
            &&& call_ensures(T::minus, (high, low), range)
            &&& call_ensures(T::decimal, (15i32, 0i32), levels)
            &&& #[trigger] call_ensures(T::over, (range, levels), scale)
        };
    (above, range, levels)
}

/// The scale passes through.
proof fn lemma_scale_passes<T: Number>(
    form: spec_fn(T) -> T,
    twice: spec_fn(T) -> T,
    tame: spec_fn(T, int) -> bool,
    low1: T,
    high1: T,
    scale1: T,
    low2: T,
    high2: T,
    scale2: T,
)
    requires
        passes_through(form, twice, tame),
        tame(low1, 0),
        tame(high1, 0),
        is_twice(form, twice, low1, low2),
        is_twice(form, twice, high1, high2),
        is_sub_block_scale(low1, high1, scale1),
        is_sub_block_scale(low2, high2, scale2),
    ensures
        tame(scale1, 2),
        is_twice(form, twice, scale1, scale2),
{
    assert(tame(low1, 3) && tame(high1, 3));
    let (above1, range1, levels1) = lemma_scale_parts(low1, high1, scale1);
    let (above2, range2, levels2) = lemma_scale_parts(low2, high2, scale2);
    assert(above1 == above2);
    if above1 {
        assert(levels1 == levels2);
        assert(tame(range1, 1));
        assert(tame(range1, 2));
        assert(is_divisor(levels1));
        assert(is_twice(form, twice, range1, range2));
        assert(tame(scale1, 2));
    } else {
        assert(tame(scale1, 0));
        assert(tame(scale1, 2));
    }
}

/// A level cancels.
proof fn lemma_quant_passes<T: Number>(
    form: spec_fn(T) -> T,
    twice: spec_fn(T) -> T,
    tame: spec_fn(T, int) -> bool,
    value1: T,
    low1: T,
    scale1: T,
    quant1: u8,
    value2: T,
    low2: T,
    scale2: T,
    quant2: u8,
)
    requires
        passes_through(form, twice, tame),
        tame(value1, 0),
        tame(low1, 0),
        tame(scale1, 2),
        is_twice(form, twice, value1, value2),
        is_twice(form, twice, low1, low2),
        is_twice(form, twice, scale1, scale2),
        is_quant(value1, low1, scale1, quant1),
        is_quant(value2, low2, scale2, quant2),
    ensures
        quant1 == quant2,
{
    assert(tame(scale1, 3));
    let (zero1, positive1) = lemma_quant_parts(value1, low1, scale1, quant1);
    let (zero2, positive2) = lemma_quant_parts(value2, low2, scale2, quant2);
    assert(tame(zero1, 0));
    assert(tame(zero1, 3));
    assert(positive1 == positive2);
    if positive1 {
        assert(is_positive(scale1));
        let level1 = choose|level: u8| #[trigger]
            is_level(value1, low1, scale1, level) && quant1 == if level < 15 {
                level
            } else {
                15
            };
        let level2 = choose|level: u8| #[trigger]
            is_level(value2, low2, scale2, level) && quant2 == if level < 15 {
                level
            } else {
                15
            };
        let (offset1, ratio1, half1, rounded1) = choose|offset: T, ratio: T, half: T, rounded: T|
            {
                &&& call_ensures(T::minus, (value1, low1), offset)
                &&& #[trigger] call_ensures(T::over, (offset, scale1), ratio)
                &&& call_ensures(T::decimal, (5i32, -1i32), half)
                &&& #[trigger] call_ensures(T::plus, (ratio, half), rounded)
                &&& call_ensures(T::to_u8, (rounded,), level1)
            };
        let (offset2, ratio2, half2, rounded2) = choose|offset: T, ratio: T, half: T, rounded: T|
            {
                &&& call_ensures(T::minus, (value2, low2), offset)
                &&& #[trigger] call_ensures(T::over, (offset, scale2), ratio)
                &&& call_ensures(T::decimal, (5i32, -1i32), half)
                &&& #[trigger] call_ensures(T::plus, (ratio, half), rounded)
                &&& call_ensures(T::to_u8, (rounded,), level2)
            };
        assert(is_twice(form, twice, offset1, offset2));
        assert(tame(offset1, 1));
        assert(tame(offset1, 3));
        assert(form(ratio1) == form(ratio2));
        assert(half1 == half2);
        assert(form(rounded1) == form(rounded2));
    }
}

/// What decides whether a value has a level: the constant zero, and whether the
/// scale is above it.
proof fn lemma_quant_parts<T: Number>(value: T, low: T, scale: T, quant: u8) -> (parts: (T, bool))
    requires
        is_quant(value, low, scale, quant),
    ensures
        call_ensures(T::decimal, (0i32, 0i32), parts.0),
        call_ensures(T::exceeds, (scale, parts.0), parts.1),
        parts.1 ==> exists|level: u8| #[trigger]
            is_level(value, low, scale, level) && quant == if level < 15 {
                level
            } else {
                15
            },
        !parts.1 ==> quant == 0,
{
    choose|zero: T, positive: bool|
        {
            &&& call_ensures(T::decimal, (0i32, 0i32), zero)
            &&& #[trigger] call_ensures(T::exceeds, (scale, zero), positive)
            &&& if positive {
                exists|level: u8| #[trigger]
                    is_level(value, low, scale, level) && quant == if level < 15 {
                        level
                    } else {
                        15
                    }
            } else {
                quant == 0
            }
        }
}

/// The scale and the offset of a sub-block are the doubles of those of another.
spec fn is_doubled_scale<T>(
    form: spec_fn(T) -> T,
    twice: spec_fn(T) -> T,
    tame: spec_fn(T, int) -> bool,
    scale1: T,
    offset1: T,
    scale2: T,
    offset2: T,
) -> bool {
    &&& tame(scale1, 2)
    &&& is_twice(form, twice, scale1, scale2)
    &&& tame(offset1, 0)
    &&& is_twice(form, twice, offset1, offset2)
}

/// A sub-block with given ends passes through, and each value brings its level
/// with it.
proof fn lemma_between_passes<T: Number>(
    form: spec_fn(T) -> T,
    twice: spec_fn(T) -> T,
    tame: spec_fn(T, int) -> bool,
    low1: T,
    high1: T,
    values1: Seq<T>,
    scale1: T,
    offset1: T,
    quants1: Seq<u8>,
    low2: T,
    high2: T,
    values2: Seq<T>,
    scale2: T,
    offset2: T,
    quants2: Seq<u8>,
)
    requires
        passes_through(form, twice, tame),
        tame(low1, 0),
        tame(high1, 0),
        is_twice(form, twice, low1, low2),
        is_twice(form, twice, high1, high2),
        is_sub_block_between(values1, low1, high1, scale1, offset1, quants1),
        is_sub_block_between(values2, low2, high2, scale2, offset2, quants2),
    ensures
        is_doubled_scale(form, twice, tame, scale1, offset1, scale2, offset2),
        forall|i: int, j: int|
            #![trigger quants1[i], quants2[j]]
            0 <= i < values1.len() && 0 <= j < values2.len() && tame(values1[i], 0) && is_twice(
                form,
                twice,
                values1[i],
                values2[j],
            ) ==> quants2[j] == quants1[i],
{
    assert(tame(low1, 3));
    lemma_scale_passes(form, twice, tame, low1, high1, scale1, low2, high2, scale2);
    assert forall|i: int, j: int|
        #![trigger quants1[i], quants2[j]]
        0 <= i < values1.len() && 0 <= j < values2.len() && tame(values1[i], 0) && is_twice(
            form,
            twice,
            values1[i],
            values2[j],
        ) implies quants2[j] == quants1[i] by {
        lemma_quant_passes(
            form,
            twice,
            tame,
            values1[i],
            low1,
            scale1,
            quants1[i],
            values2[j],
            low2,
            scale2,
            quants2[j],
        );
    }
}

/// The lowest level and the largest value that a sub-block was made with.
proof fn lemma_sub_block_ends<T: Number>(
    values: Seq<T>,
    scale: T,
    offset: T,
    quants: Seq<u8>,
) -> (ends: (T, T))
    requires
        is_sub_block(values, scale, offset, quants),
    ensures
        is_sub_block_low(values, ends.0),
        is_sub_block_high(values, ends.1),
        is_sub_block_between(values, ends.0, ends.1, scale, offset, quants),
{
    choose|low: T, high: T|
        {
            &&& #[trigger] is_sub_block_low(values, low)
            &&& #[trigger] is_sub_block_high(values, high)
            &&& is_sub_block_between(values, low, high, scale, offset, quants)
        }
}

/// A sub-block passes through.
proof fn lemma_sub_block_passes<T: Number>(
    form: spec_fn(T) -> T,
    twice: spec_fn(T) -> T,
    tame: spec_fn(T, int) -> bool,
    values1: Seq<T>,
    scale1: T,
    offset1: T,
    quants1: Seq<u8>,
    values2: Seq<T>,
    scale2: T,
    offset2: T,
    quants2: Seq<u8>,
)
    requires
        passes_through(form, twice, tame),
        is_doubled(form, twice, tame, 0, values1, values2),
        is_sub_block(values1, scale1, offset1, quants1),
        is_sub_block(values2, scale2, offset2, quants2),
    ensures
        is_doubled_scale(form, twice, tame, scale1, offset1, scale2, offset2),
        quants1 == quants2,
{
    let (low1, high1) = lemma_sub_block_ends(values1, scale1, offset1, quants1);
    let (low2, high2) = lemma_sub_block_ends(values2, scale2, offset2, quants2);
    lemma_low_passes(form, twice, tame, values1, values2, low1, low2);
    lemma_high_passes(form, twice, tame, values1, values2, high1, high2);
    lemma_between_passes(
        form,
        twice,
        tame,
        low1,
        high1,
        values1,
        scale1,
        offset1,
        quants1,
        low2,
        high2,
        values2,
        scale2,
        offset2,
        quants2,
    );
    assert forall|i: int| 0 <= i < quants1.len() implies quants1[i] == quants2[i] by {
        assert(tame(values1[i], 0));
    }
    assert(quants1 =~= quants2);
}

/// What a factor was made of: the constant zero, the largest of the values and the
/// number of levels.
proof fn lemma_factor_parts<T: Number>(values: Seq<T>, factor: T) -> (parts: (T, T, T))
    requires
        is_super_scale(values, factor),
    ensures
        call_ensures(T::decimal, (0i32, 0i32), parts.0),
        folds_to(greater_step::<T>(), parts.0, values, parts.1),
        call_ensures(T::decimal, (63i32, 0i32), parts.2),
        call_ensures(T::over, (parts.1, parts.2), factor),
{
    choose|zero: T, largest: T, levels: T|
        {
            &&& #[trigger] call_ensures(T::decimal, (0i32, 0i32), zero)
            &&& folds_to(greater_step::<T>(), zero, values, largest)
            &&& call_ensures(T::decimal, (63i32, 0i32), levels)
            &&& #[trigger] call_ensures(T::over, (largest, levels), factor)
        }
}

/// A factor passes through, and the 6-bit levels in steps of it cancel.
proof fn lemma_factor_passes<T: Number>(
    form: spec_fn(T) -> T,
    twice: spec_fn(T) -> T,
    tame: spec_fn(T, int) -> bool,
    values1: Seq<T>,
    factor1: T,
    quants1: Seq<u8>,
    values2: Seq<T>,
    factor2: T,
    quants2: Seq<u8>,
)
    requires
        passes_through(form, twice, tame),
        is_doubled(form, twice, tame, 2, values1, values2),
        is_super_scale(values1, factor1),
        is_super_scale(values2, factor2),
        are_six_bit_quants(values1, factor1, quants1),
        are_six_bit_quants(values2, factor2, quants2),
    ensures
        is_twice(form, twice, factor1, factor2),
        quants1 == quants2,
{
    let (zero1, largest1, levels1) = lemma_factor_parts(values1, factor1);
    let (zero2, largest2, levels2) = lemma_factor_parts(values2, factor2);
    let pairs = doubles(form, twice, tame, 2);
    assert(zero1 == zero2 && levels1 == levels2);
    assert(tame(zero1, 0));
    assert(tame(zero1, 2) && tame(zero1, 3));
    assert(forall|a: T| tame(a, 2) ==> #[trigger] tame(a, 3));
    lemma_folds_stay_related(
        greater_step::<T>(),
        pairs,
        pairs,
        zero1,
        zero2,
        values1,
        values2,
        largest1,
        largest2,
    );
    assert(is_divisor(levels1));
    assert(tame(factor1, 3));
    assert forall|s: int| 0 <= s < quants1.len() implies quants1[s] == quants2[s] by {
        assert(tame(values1[s], 2));
        lemma_six_bit_quant_passes(
            form,
            twice,
            tame,
            values1[s],
            factor1,
            quants1[s],
            values2[s],
            factor2,
            quants2[s],
        );
    }
    assert(quants1 =~= quants2);
}

/// A 6-bit level cancels.
proof fn lemma_six_bit_quant_passes<T: Number>(
    form: spec_fn(T) -> T,
    twice: spec_fn(T) -> T,
    tame: spec_fn(T, int) -> bool,
    value1: T,
    factor1: T,
    quant1: u8,
    value2: T,
    factor2: T,
    quant2: u8,
)
    requires
        passes_through(form, twice, tame),
        tame(value1, 3),
        tame(factor1, 3),
        is_twice(form, twice, value1, value2),
        is_twice(form, twice, factor1, factor2),
        is_six_bit_quant(value1, factor1, quant1),
        is_six_bit_quant(value2, factor2, quant2),
    ensures
        quant1 == quant2,
{
    let (zero1, positive1) = lemma_six_bit_parts(value1, factor1, quant1);
    let (zero2, positive2) = lemma_six_bit_parts(value2, factor2, quant2);
    assert(tame(zero1, 0));
    assert(tame(zero1, 3));
    assert(positive1 == positive2);
    if positive1 {
        assert(is_positive(factor1));
        let (ratio1, half1, rounded1, limit1, capped1) = choose|
            ratio: T,
            half: T,
            rounded: T,
            limit: T,
            capped: T,
        |
            {
                &&& #[trigger] call_ensures(T::over, (value1, factor1), ratio)
                &&& call_ensures(T::decimal, (5i32, -1i32), half)
                &&& #[trigger] call_ensures(T::plus, (ratio, half), rounded)
                &&& call_ensures(T::decimal, (63i32, 0i32), limit)
                &&& #[trigger] call_ensures(T::lesser, (rounded, limit), capped)
                &&& call_ensures(T::to_u8, (capped,), quant1)
            };
        let (ratio2, half2, rounded2, limit2, capped2) = choose|
            ratio: T,
            half: T,
            rounded: T,
            limit: T,
            capped: T,
        |
            {
                &&& #[trigger] call_ensures(T::over, (value2, factor2), ratio)
                &&& call_ensures(T::decimal, (5i32, -1i32), half)
                &&& #[trigger] call_ensures(T::plus, (ratio, half), rounded)
                &&& call_ensures(T::decimal, (63i32, 0i32), limit)
                &&& #[trigger] call_ensures(T::lesser, (rounded, limit), capped)
                &&& call_ensures(T::to_u8, (capped,), quant2)
            };
        assert(form(ratio1) == form(ratio2));
        assert(half1 == half2 && limit1 == limit2);
        assert(form(rounded1) == form(rounded2));
        assert(form(capped1) == form(capped2));
    }
}

/// What decides whether there are 6-bit levels: the constant zero, and whether the
/// factor is above it.
proof fn lemma_six_bit_parts<T: Number>(value: T, factor: T, quant: u8) -> (parts: (T, bool))
    requires
        is_six_bit_quant(value, factor, quant),
    ensures
        call_ensures(T::decimal, (0i32, 0i32), parts.0),
        call_ensures(T::exceeds, (factor, parts.0), parts.1),
        parts.1 ==> is_six_bit_level(value, factor, quant),
        !parts.1 ==> quant == 0,
{
    choose|zero: T, positive: bool|
        {
            &&& call_ensures(T::decimal, (0i32, 0i32), zero)
            &&& #[trigger] call_ensures(T::exceeds, (factor, zero), positive)
            &&& if positive {
                is_six_bit_level(value, factor, quant)
            } else {
                quant == 0
            }
        }
}

/// Where the eight sub-blocks of one block have the doubles of the scales and
/// offsets of another, so do the blocks have the doubles of the factors, and
/// the same 6-bit levels.
proof fn lemma_params_pass<T: Number>(
    form: spec_fn(T) -> T,
    twice: spec_fn(T) -> T,
    tame: spec_fn(T, int) -> bool,
    params1: BlockParams<T>,
    scales1: Seq<T>,
    offsets1: Seq<T>,
    params2: BlockParams<T>,
    scales2: Seq<T>,
    offsets2: Seq<T>,
    values1: Seq<T>,
    values2: Seq<T>,
)
    requires
        passes_through(form, twice, tame),
        are_block_params_over(values1, params1, scales1, offsets1),
        are_block_params_over(values2, params2, scales2, offsets2),
        forall|s: int|
            0 <= s < SUB_BLOCKS ==> is_doubled_scale(
                form,
                twice,
                tame,
                #[trigger] scales1[s],
                offsets1[s],
                scales2[s],
                offsets2[s],
            ),
    ensures
        is_twice(form, twice, params1.d, params2.d),
        is_twice(form, twice, params1.dmin, params2.dmin),
        params2.scales@ == params1.scales@,
        params2.mins@ == params1.mins@,
{
    assert(is_doubled(form, twice, tame, 2, scales1, scales2));
    assert(is_doubled(form, twice, tame, 2, offsets1, offsets2)) by {
        assert forall|s: int| 0 <= s < offsets1.len() implies tame(#[trigger] offsets1[s], 2)
            && is_twice(form, twice, offsets1[s], offsets2[s]) by {
            assert(is_doubled_scale(
                form,
                twice,
                tame,
                scales1[s],
                offsets1[s],
                scales2[s],
                offsets2[s],
            ));
            assert(tame(offsets1[s], 0));
        }
    }
    lemma_factor_passes(
        form,
        twice,
        tame,
        scales1,
        params1.d,
        params1.scales@,
        scales2,
        params2.d,
        params2.scales@,
    );
    lemma_factor_passes(
        form,
        twice,
        tame,
        offsets1,
        params1.dmin,
        params1.mins@,
        offsets2,
        params2.dmin,
        params2.mins@,
    );
}

/// A block passes through: the sub-blocks have the doubles of the scales and
/// offsets and the same quants.
proof fn lemma_block_passes<T: Number>(
    form: spec_fn(T) -> T,
    twice: spec_fn(T) -> T,
    tame: spec_fn(T, int) -> bool,
    values1: Seq<T>,
    params1: BlockParams<T>,
    scales1: Seq<T>,
    offsets1: Seq<T>,
    values2: Seq<T>,
    params2: BlockParams<T>,
    scales2: Seq<T>,
    offsets2: Seq<T>,
)
    requires
        passes_through(form, twice, tame),
        values1.len() >= BLOCK_VALUES,
        values2.len() >= BLOCK_VALUES,
        is_doubled(form, twice, tame, 0, values1.take(256), values2.take(256)),
        are_block_params_over(values1, params1, scales1, offsets1),
        are_block_params_over(values2, params2, scales2, offsets2),
    ensures
        is_twice(form, twice, params1.d, params2.d),
        is_twice(form, twice, params1.dmin, params2.dmin),
        params2.scales@ == params1.scales@,
        params2.mins@ == params1.mins@,
        params2.quants@ == params1.quants@,
{
    assert forall|s: int| 0 <= s < SUB_BLOCKS implies is_doubled_scale(
        form,
        twice,
        tame,
        #[trigger] scales1[s],
        offsets1[s],
        scales2[s],
        offsets2[s],
    ) && sub_block(params1.quants@, s) == sub_block(params2.quants@, s) by {
        let sub1 = sub_block(values1, s);
        let sub2 = sub_block(values2, s);
        assert forall|i: int| 0 <= i < sub1.len() implies tame(#[trigger] sub1[i], 0) && is_twice(
            form,
            twice,
            sub1[i],
            sub2[i],
        ) by {
            assert(values1.take(256)[s * 32 + i] == sub1[i]);
            assert(values2.take(256)[s * 32 + i] == sub2[i]);
        }
        lemma_sub_block_passes(
            form,
            twice,
            tame,
            sub1,
            scales1[s],
            offsets1[s],
            sub_block(params1.quants@, s),
            sub2,
            scales2[s],
            offsets2[s],
            sub_block(params2.quants@, s),
        );
    }
    lemma_params_pass(
        form,
        twice,
        tame,
        params1,
        scales1,
        offsets1,
        params2,
        scales2,
        offsets2,
        values1,
        values2,
    );
    assert forall|t: int| 0 <= t < 256 implies params1.quants@[t] == params2.quants@[t] by {
        let s = t / 32;
        assert(is_doubled_scale(
            form,
            twice,
            tame,
            scales1[s],
            offsets1[s],
            scales2[s],
            offsets2[s],
        ));
        assert(sub_block(params1.quants@, s)[t % 32] == params1.quants@[t]);
        assert(sub_block(params2.quants@, s)[t % 32] == params2.quants@[t]);
    }
    assert(params1.quants@ =~= params2.quants@);
}

/// What a block was packed from: its parameters and the halves of its factors, and
/// the scales and offsets of its sub-blocks.
proof fn lemma_block_parts<T: Number>(values: Seq<T>, bytes: Seq<u8>) -> (parts: (
    BlockParams<T>,
    u16,
    u16,
    Seq<T>,
    Seq<T>,
))
    requires
        is_quantized_block(values, bytes),
    ensures
        are_block_params(values, parts.0),
        call_ensures(T::to_half_bits, (parts.0.d,), parts.1),
        call_ensures(T::to_half_bits, (parts.0.dmin,), parts.2),
        bytes == packed_block(
            parts.1,
            parts.2,
            parts.0.scales@,
            parts.0.mins@,
            parts.0.quants@,
        ),
        are_block_params_over(values, parts.0, parts.3, parts.4),
{
    let (params, d, dmin) = choose|params: BlockParams<T>, d: u16, dmin: u16|
        {
            &&& are_block_params(values, params)
            &&& #[trigger] call_ensures(T::to_half_bits, (params.d,), d)
            &&& #[trigger] call_ensures(T::to_half_bits, (params.dmin,), dmin)
            &&& bytes == packed_block(d, dmin, params.scales@, params.mins@, params.quants@)
        };
    let (scales, offsets) = choose|scales: Seq<T>, offsets: Seq<T>|
        are_block_params_over(values, params, scales, offsets);
    (params, d, dmin, scales, offsets)
}

/// The scales of sub-blocks whose ends have one form are one number.
proof fn lemma_scale_settles<T: Number>(
    form: spec_fn(T) -> T,
    low1: T,
    high1: T,
    scale1: T,
    low2: T,
    high2: T,
    scale2: T,
)
    requires
        keeps_form(form),
        settles(form),
        form(low1) == form(low2),
        form(high1) == form(high2),
        is_sub_block_scale(low1, high1, scale1),
        is_sub_block_scale(low2, high2, scale2),
    ensures
        scale1 == scale2,
        is_plain(scale1),
{
    let same = unchanged::<T>();
    let (above1, range1, levels1) = lemma_scale_parts(low1, high1, scale1);
    let (above2, range2, levels2) = lemma_scale_parts(low2, high2, scale2);
    assert(is_twice(form, same, low1, low2) && is_twice(form, same, high1, high2));
    assert(above1 == above2);
    if above1 {
        assert(levels1 == levels2);
        assert(is_twice(form, same, range1, range2));
        assert(is_positive(range1));
        assert(range1 == range2);
        assert(is_divisor(levels1));
        assert(is_plain(range1));
    }
}

/// The factor of plain numbers is one plain number.
proof fn lemma_plain_factor_is_fixed<T: Number>(
    form: spec_fn(T) -> T,
    values: Seq<T>,
    factor1: T,
    factor2: T,
)
    requires
        keeps_form(form),
        settles(form),
        forall|s: int| 0 <= s < values.len() ==> is_plain(#[trigger] values[s]),
        is_super_scale(values, factor1),
        is_super_scale(values, factor2),
    ensures
        factor1 == factor2,
        is_plain(factor1),
{
    let (zero1, largest1, levels1) = lemma_factor_parts(values, factor1);
    let (zero2, largest2, levels2) = lemma_factor_parts(values, factor2);
    let one = |a: T, b: T| a == b && is_plain(a);
    lemma_folds_stay_related(
        greater_step::<T>(),
        one,
        one,
        zero1,
        zero2,
        values,
        values,
        largest1,
        largest2,
    );
    assert(levels1 == levels2);
    assert(is_divisor(levels1));
}

/// A fold ends in a good value where one of its items is good, and a good value or
/// item makes the next value good.
proof fn lemma_fold_turns_good<T>(
    step: spec_fn(T, T, T) -> bool,
    good: spec_fn(T) -> bool,
    init: T,
    items: Seq<T>,
    i: int,
    x: T,
)
    requires
        0 <= i < items.len(),
        good(items[i]),
        forall|a: T, e: T, p: T| #[trigger] step(a, e, p) && (good(a) || good(e)) ==> good(p),
        folds_to(step, init, items, x),
    ensures
        good(x),
    decreases items.len(),
{
    let front = items.drop_last();
    let mid = choose|mid: T| folds_to(step, init, front, mid) && #[trigger] step(mid, items.last(), x);
    if i < items.len() - 1 {
        assert(front[i] == items[i]);
        lemma_fold_turns_good(step, good, init, front, i, mid);
    }
}

/// The factors of offsets that have one form are one plain number, or zeros of
/// either sign. They are one number if an offset is above zero.
proof fn lemma_offset_factor_settles<T: Number>(
    form: spec_fn(T) -> T,
    offsets1: Seq<T>,
    offsets2: Seq<T>,
    factor1: T,
    factor2: T,
)
    requires
        keeps_form(form),
        settles(form),
        offsets1.len() == offsets2.len(),
        forall|s: int|
            0 <= s < offsets1.len() ==> form(#[trigger] offsets1[s]) == form(offsets2[s]),
        is_super_scale(offsets1, factor1),
        is_super_scale(offsets2, factor2),
    ensures
        (factor1 == factor2 && is_plain(factor1)) || (is_zero_form(form, factor1) && is_zero_form(
            form,
            factor2,
        )),
        (exists|s: int| 0 <= s < offsets1.len() && is_positive(#[trigger] offsets1[s])) ==> factor1
            == factor2 && is_plain(factor1),
{
    let same = unchanged::<T>();
    let step = greater_step::<T>();
    let (zero1, largest1, levels1) = lemma_factor_parts(offsets1, factor1);
    let (zero2, largest2, levels2) = lemma_factor_parts(offsets2, factor2);
    assert(levels1 == levels2);
    assert(is_divisor(levels1));
    let alike = |a: T, b: T| form(a) == form(b);
    let raised = |a: T, b: T| form(a) == form(b) && (is_zero_form(form, a) || is_positive(a));
    assert forall|a: T, b: T, e: T, f: T, p: T, q: T| #[trigger]
        step(a, e, p) && #[trigger] step(b, f, q) && raised(a, b) && alike(e, f) implies raised(
        p,
        q,
    ) by {
        assert(is_twice(form, same, a, b) && is_twice(form, same, e, f));
        assert(is_twice(form, same, p, q));
    }
    assert(is_zero_form(form, zero1));
    lemma_folds_stay_related(
        step,
        raised,
        alike,
        zero1,
        zero2,
        offsets1,
        offsets2,
        largest1,
        largest2,
    );
    if is_positive(largest1) {
        assert(largest1 == largest2);
        assert(is_plain(largest1));
    } else {
        assert(is_zero_form(form, largest2));
    }
    if exists|s: int| 0 <= s < offsets1.len() && is_positive(#[trigger] offsets1[s]) {
        let s = choose|s: int| 0 <= s < offsets1.len() && is_positive(#[trigger] offsets1[s]);
        lemma_fold_turns_good(step, |a: T| is_positive(a), zero1, offsets1, s, largest1);
    }
}

/// A value below zero makes the offset of its sub-block positive.
proof fn lemma_offset_rises<T: Number>(
    form: spec_fn(T) -> T,
    values: Seq<T>,
    i: int,
    low: T,
    offset: T,
)
    requires
        settles(form),
        0 <= i < values.len(),
        is_negative(values[i]),
        is_sub_block_low(values, low),
        call_ensures(T::negated, (low,), offset),
    ensures
        is_positive(offset),
{
    let (start, smallest, zero) = choose|start: T, smallest: T, zero: T|
        {
            &&& #[trigger] call_ensures(T::infinity, (), start)
            &&& folds_to(lesser_step::<T>(), start, values, smallest)
            &&& call_ensures(T::decimal, (0i32, 0i32), zero)
            &&& #[trigger] call_ensures(T::lesser, (smallest, zero), low)
        };
    lemma_fold_turns_good(lesser_step::<T>(), |a: T| is_negative(a), start, values, i, smallest);
}

/// The sub-blocks number `s` of two blocks have the same scale and offsets of one
/// form, and a value below zero makes the first of these positive.
spec fn sub_blocks_settle<T: Number>(
    form: spec_fn(T) -> T,
    values1: Seq<T>,
    scale1: T,
    offset1: T,
    scale2: T,
    offset2: T,
) -> bool {
    &&& is_doubled_scale(
        form,
        unchanged::<T>(),
        always::<T>(),
        scale1,
        offset1,
        scale2,
        offset2,
    )
    &&& scale1 == scale2
    &&& is_plain(scale1)
    &&& (exists|i: int| 0 <= i < values1.len() && is_negative(#[trigger] values1[i]))
        ==> is_positive(offset1)
}

/// Sub-blocks whose ends have one form settle, and values of one form have one
/// quant.
proof fn lemma_sub_blocks_settle<T: Number>(
    form: spec_fn(T) -> T,
    low1: T,
    high1: T,
    values1: Seq<T>,
    scale1: T,
    offset1: T,
    quants1: Seq<u8>,
    low2: T,
    high2: T,
    values2: Seq<T>,
    scale2: T,
    offset2: T,
    quants2: Seq<u8>,
)
    requires
        keeps_form(form),
        settles(form),
        form(low1) == form(low2),
        form(high1) == form(high2),
        is_sub_block_low(values1, low1),
        is_sub_block_between(values1, low1, high1, scale1, offset1, quants1),
        is_sub_block_between(values2, low2, high2, scale2, offset2, quants2),
    ensures
        sub_blocks_settle(form, values1, scale1, offset1, scale2, offset2),
        forall|i: int, j: int|
            #![trigger quants1[i], quants2[j]]
            0 <= i < values1.len() && 0 <= j < values2.len() && form(values1[i]) == form(values2[j])
                ==> quants2[j] == quants1[i],
{
    lemma_between_passes(
        form,
        unchanged::<T>(),
        always::<T>(),
        low1,
        high1,
        values1,
        scale1,
        offset1,
        quants1,
        low2,
        high2,
        values2,
        scale2,
        offset2,
        quants2,
    );
    lemma_scale_settles(form, low1, high1, scale1, low2, high2, scale2);
    if exists|i: int| 0 <= i < values1.len() && is_negative(#[trigger] values1[i]) {
        let i = choose|i: int| 0 <= i < values1.len() && is_negative(#[trigger] values1[i]);
        lemma_offset_rises(form, values1, i, low1, offset1);
    }
}

/// A block has a value below zero.
pub open spec fn has_negative<T: Number>(values: Seq<T>) -> bool {
    exists|t: int| 0 <= t < BLOCK_VALUES && is_negative(#[trigger] values[t])
}

/// Both halves have the same bits, or both are zeros.
pub open spec fn are_same_up_to_zero_sign(x: u16, y: u16) -> bool {
    x == y || (is_half_zero(x) && is_half_zero(y))
}

/// Blocks whose sub-blocks settle have the same factors, 6-bit scales and minima.
/// The factor of the minima may be a zero of either sign where no value is below
/// zero.
#[verifier::rlimit(50)]
proof fn lemma_block_settles<T: Number>(
    form: spec_fn(T) -> T,
    values1: Seq<T>,
    params1: BlockParams<T>,
    d1: u16,
    dmin1: u16,
    scales1: Seq<T>,
    offsets1: Seq<T>,
    values2: Seq<T>,
    params2: BlockParams<T>,
    d2: u16,
    dmin2: u16,
    scales2: Seq<T>,
    offsets2: Seq<T>,
)
    requires
        keeps_form(form),
        settles(form),
        values1.len() >= BLOCK_VALUES,
        are_block_params_over(values1, params1, scales1, offsets1),
        are_block_params_over(values2, params2, scales2, offsets2),
        forall|s: int|
            0 <= s < SUB_BLOCKS ==> sub_blocks_settle(
                form,
                sub_block(values1, s),
                #[trigger] scales1[s],
                offsets1[s],
                scales2[s],
                offsets2[s],
            ),
        call_ensures(T::to_half_bits, (params1.d,), d1),
        call_ensures(T::to_half_bits, (params1.dmin,), dmin1),
        call_ensures(T::to_half_bits, (params2.d,), d2),
        call_ensures(T::to_half_bits, (params2.dmin,), dmin2),
    ensures
        d1 == d2,
        are_same_up_to_zero_sign(dmin1, dmin2),
        has_negative(values1) ==> dmin1 == dmin2,
        params2.scales@ == params1.scales@,
        params2.mins@ == params1.mins@,
{
    lemma_params_pass(
        form,
        unchanged::<T>(),
        always::<T>(),
        params1,
        scales1,
        offsets1,
        params2,
        scales2,
        offsets2,
        values1,
        values2,
    );
    assert(scales1 =~= scales2);
    lemma_plain_factor_is_fixed(form, scales1, params1.d, params2.d);
    assert forall|s: int| 0 <= s < offsets1.len() implies form(#[trigger] offsets1[s]) == form(
        offsets2[s],
    ) by {
        assert(sub_blocks_settle(
            form,
            sub_block(values1, s),
            scales1[s],
            offsets1[s],
            scales2[s],
            offsets2[s],
        ));
        assert(is_twice(form, unchanged::<T>(), offsets1[s], offsets2[s]));
    }
    lemma_offset_factor_settles(form, offsets1, offsets2, params1.dmin, params2.dmin);
    if has_negative(values1) {
        let t = choose|t: int| 0 <= t < BLOCK_VALUES && is_negative(#[trigger] values1[t]);
        let s = t / 32;
        assert(sub_block(values1, s)[t % 32] == values1[t]);
        assert(sub_blocks_settle(
            form,
            sub_block(values1, s),
            scales1[s],
            offsets1[s],
            scales2[s],
            offsets2[s],
        ));
        assert(is_positive(offsets1[s]));
    }
}

/// Both are one block, but that the factor of the minima may be a zero of either
/// sign.
pub open spec fn are_same_block(bytes1: Seq<u8>, bytes2: Seq<u8>) -> bool {
    &&& bytes1.len() == bytes2.len() == BLOCK_BYTES
    &&& bytes1.take(2) == bytes2.take(2)
    &&& are_same_up_to_zero_sign(read_half(bytes1, 2) as u16, read_half(bytes2, 2) as u16)
    &&& bytes1.skip(4) == bytes2.skip(4)
}

/// Values of one form have one block.
#[verifier::rlimit(50)]
proof fn lemma_same_block<T: Number>(
    form: spec_fn(T) -> T,
    values1: Seq<T>,
    values2: Seq<T>,
    bytes1: Seq<u8>,
    bytes2: Seq<u8>,
)
    requires
        keeps_form(form),
        settles(form),
        values1.len() >= BLOCK_VALUES,
        values2.len() >= BLOCK_VALUES,
        forall|t: int|
            0 <= t < BLOCK_VALUES ==> form(#[trigger] values1[t]) == form(values2[t]),
        is_quantized_block(values1, bytes1),
        is_quantized_block(values2, bytes2),
    ensures
        are_same_block(bytes1, bytes2),
        has_negative(values1) ==> bytes1 == bytes2,
{
    let same = unchanged::<T>();
    let all = always::<T>();
    let (params1, d1, dmin1, scales1, offsets1) = lemma_block_parts(values1, bytes1);
    let (params2, d2, dmin2, scales2, offsets2) = lemma_block_parts(values2, bytes2);
    assert(is_doubled(form, same, all, 0, values1.take(256), values2.take(256))) by {
        assert forall|t: int| 0 <= t < 256 implies all(#[trigger] values1.take(256)[t], 0)
            && is_twice(form, same, values1.take(256)[t], values2.take(256)[t]) by {
            assert(form(values1[t]) == form(values2[t]));
        }
    }
    lemma_block_passes(
        form,
        same,
        all,
        values1,
        params1,
        scales1,
        offsets1,
        values2,
        params2,
        scales2,
        offsets2,
    );
    assert forall|s: int| 0 <= s < SUB_BLOCKS implies sub_blocks_settle(
        form,
        sub_block(values1, s),
        #[trigger] scales1[s],
        offsets1[s],
        scales2[s],
        offsets2[s],
    ) by {
        let sub1 = sub_block(values1, s);
        let sub2 = sub_block(values2, s);
        let quants1 = sub_block(params1.quants@, s);
        let quants2 = sub_block(params2.quants@, s);
        lemma_sub_forms(form, values1, values2, s);
        let (low1, high1) = lemma_sub_block_ends(sub1, scales1[s], offsets1[s], quants1);
        let (low2, high2) = lemma_sub_block_ends(sub2, scales2[s], offsets2[s], quants2);
        lemma_low_passes(form, same, all, sub1, sub2, low1, low2);
        lemma_high_passes(form, same, all, sub1, sub2, high1, high2);
        lemma_sub_blocks_settle(
            form,
            low1,
            high1,
            sub1,
            scales1[s],
            offsets1[s],
            quants1,
            low2,
            high2,
            sub2,
            scales2[s],
            offsets2[s],
            quants2,
        );
    }
    lemma_block_settles(
        form,
        values1,
        params1,
        d1,
        dmin1,
        scales1,
        offsets1,
        values2,
        params2,
        d2,
        dmin2,
        scales2,
        offsets2,
    );
    law_block_reads_back(d1, dmin1, params1.scales@, params1.mins@, params1.quants@);
    law_block_reads_back(d2, dmin2, params2.scales@, params2.mins@, params2.quants@);
    assert(bytes1.take(2) =~= bytes2.take(2));
    assert(bytes1.skip(4) =~= bytes2.skip(4));
}

/// The values of a sub-block have one form where those of the block have.
proof fn lemma_sub_forms<T: Number>(
    form: spec_fn(T) -> T,
    values1: Seq<T>,
    values2: Seq<T>,
    s: int,
)
    requires
        0 <= s < SUB_BLOCKS,
        values1.len() >= BLOCK_VALUES,
        values2.len() >= BLOCK_VALUES,
        forall|t: int|
            s * 32 <= t < (s + 1) * 32 ==> form(#[trigger] values1[t]) == form(values2[t]),
    ensures
        is_doubled(
            form,
            unchanged::<T>(),
            always::<T>(),
            0,
            sub_block(values1, s),
            sub_block(values2, s),
        ),
{
    let sub1 = sub_block(values1, s);
    let sub2 = sub_block(values2, s);
    assert forall|i: int| 0 <= i < sub1.len() implies always::<T>()(#[trigger] sub1[i], 0)
        && is_twice(form, unchanged::<T>(), sub1[i], sub2[i]) by {
        assert(sub1[i] == values1[s * 32 + i]);
        assert(sub2[i] == values2[s * 32 + i]);
    }
}

/// A block depends on the first 256 values alone. Where none of them is below zero,
/// the factor of the minima is a zero, whose sign is left open.
pub proof fn law_block_depends_on_its_values<T: Number>(
    form: spec_fn(T) -> T,
    values1: Seq<T>,
    values2: Seq<T>,
    bytes1: Seq<u8>,
    bytes2: Seq<u8>,
)
    requires
        keeps_form(form),
        settles(form),
        values1.len() >= BLOCK_VALUES,
        values2.len() >= BLOCK_VALUES,
        values1.take(BLOCK_VALUES as int) == values2.take(BLOCK_VALUES as int),
        is_quantized_block(values1, bytes1),
        is_quantized_block(values2, bytes2),
    ensures
        are_same_block(bytes1, bytes2),
        has_negative(values1) ==> bytes1 == bytes2,
{
    assert forall|t: int| 0 <= t < BLOCK_VALUES implies form(#[trigger] values1[t]) == form(
        values2[t],
    ) by {
        assert(values1.take(256)[t] == values2.take(256)[t]);
    }
    lemma_same_block(form, values1, values2, bytes1, bytes2);
}

/// The half of a double reads as the double of what the half reads as, where that
/// is wide of the ends of half precision. In single precision, with `twice` the
/// doubling, a number from `0.001` to `32752` is.
pub open spec fn rounds_alike<T: Number>(
    form: spec_fn(T) -> T,
    twice: spec_fn(T) -> T,
    wide: spec_fn(T) -> bool,
) -> bool {
    forall|a: T, b: T, x: u16, y: u16, v: T, w: T|
        #![trigger call_ensures(T::to_half_bits, (a,), x), call_ensures(T::to_half_bits, (b,), y), call_ensures(T::from_half_bits, (x,), v), call_ensures(T::from_half_bits, (y,), w)]
        is_twice(form, twice, a, b) && call_ensures(T::to_half_bits, (a,), x) && call_ensures(
            T::to_half_bits,
            (b,),
            y,
        ) && call_ensures(T::from_half_bits, (x,), v) && call_ensures(T::from_half_bits, (y,), w)
            && wide(v) ==> w == twice(v)
}

/// Doubling all values doubles the two factors of a block and keeps the other
/// bytes.
pub proof fn law_doubled_values_double_the_factors<T: Number>(
    form: spec_fn(T) -> T,
    twice: spec_fn(T) -> T,
    tame: spec_fn(T, int) -> bool,
    wide: spec_fn(T) -> bool,
    values1: Seq<T>,
    values2: Seq<T>,
    bytes1: Seq<u8>,
    bytes2: Seq<u8>,
    d1: T,
    dmin1: T,
    d2: T,
    dmin2: T,
)
    requires
        passes_through(form, twice, tame),
        rounds_alike(form, twice, wide),
        values1.len() == BLOCK_VALUES,
        values2.len() == BLOCK_VALUES,
        forall|t: int|
            0 <= t < BLOCK_VALUES ==> tame(#[trigger] values1[t], 0) && is_twice(
                form,
                twice,
                values1[t],
                values2[t],
            ),
        is_quantized_block(values1, bytes1),
        is_quantized_block(values2, bytes2),
        call_ensures(T::from_half_bits, (read_half(bytes1, 0) as u16,), d1),
        call_ensures(T::from_half_bits, (read_half(bytes1, 2) as u16,), dmin1),
        call_ensures(T::from_half_bits, (read_half(bytes2, 0) as u16,), d2),
        call_ensures(T::from_half_bits, (read_half(bytes2, 2) as u16,), dmin2),
    ensures
        wide(d1) ==> d2 == twice(d1),
        wide(dmin1) ==> dmin2 == twice(dmin1),
        bytes2.len() == bytes1.len() == BLOCK_BYTES,
        bytes2.skip(4) == bytes1.skip(4),
{
    assert(values1.take(256) =~= values1);
    assert(values2.take(256) =~= values2);
    let (params1, h1, hmin1, scales1, offsets1) = lemma_block_parts(values1, bytes1);
    let (params2, h2, hmin2, scales2, offsets2) = lemma_block_parts(values2, bytes2);
    lemma_block_passes(
        form,
        twice,
        tame,
        values1,
        params1,
        scales1,
        offsets1,
        values2,
        params2,
        scales2,
        offsets2,
    );
    law_block_reads_back(h1, hmin1, params1.scales@, params1.mins@, params1.quants@);
    law_block_reads_back(h2, hmin2, params2.scales@, params2.mins@, params2.quants@);
    assert(bytes2.skip(4) =~= bytes1.skip(4));
}

/// The smaller of two numbers.
pub open spec fn lesser_of<T: Number>(a: T, b: T) -> T {
    choose|x: T| call_ensures(T::lesser, (a, b), x)
}

/// The larger of two numbers.
pub open spec fn greater_of<T: Number>(a: T, b: T) -> T {
    choose|x: T| call_ensures(T::greater, (a, b), x)
}

/// Up to the form, the smallest and the largest number can be picked in any order.
/// Single precision has this.
pub open spec fn picks_in_any_order<T: Number>(form: spec_fn(T) -> T) -> bool {
    &&& forall|a: T| #[trigger] form(form(a)) == form(a)
    &&& forall|a: T, b: T| call_ensures(T::lesser, (a, b), #[trigger] lesser_of(a, b))
    &&& forall|a: T, b: T| call_ensures(T::greater, (a, b), #[trigger] greater_of(a, b))
    &&& forall|a: T, b: T, c: T|
        form(#[trigger] lesser_of(lesser_of(a, b), c)) == form(lesser_of(lesser_of(a, c), b))
    &&& forall|a: T, b: T, c: T|
        form(#[trigger] greater_of(greater_of(a, b), c)) == form(greater_of(greater_of(a, c), b))
}

/// The form of what `pick` gives.
spec fn formed<T>(form: spec_fn(T) -> T, pick: spec_fn(T, T) -> T) -> spec_fn(T, T) -> T {
    |a: T, b: T| form(pick(a, b))
}

/// Every step gives the form that `pick` gives.
spec fn steps_pick<T>(
    step: spec_fn(T, T, T) -> bool,
    form: spec_fn(T) -> T,
    pick: spec_fn(T, T) -> T,
) -> bool {
    forall|a: T, b: T, e: T, x: T|
        #![trigger step(a, e, x), pick(b, e)]
        step(a, e, x) && form(a) == form(b) ==> form(x) == form(pick(b, e))
}

/// A fold picks one number after the other, up to the form.
proof fn lemma_fold_picks<T>(
    step: spec_fn(T, T, T) -> bool,
    form: spec_fn(T) -> T,
    pick: spec_fn(T, T) -> T,
    init: T,
    items: Seq<T>,
    x: T,
)
    requires
        forall|a: T| #[trigger] form(form(a)) == form(a),
        steps_pick(step, form, pick),
        folds_to(step, init, items, x),
    ensures
        form(x) == items.fold_left(form(init), formed(form, pick)),
    decreases items.len(),
{
    if items.len() > 0 {
        let front = items.drop_last();
        let mid = choose|mid: T|
            folds_to(step, init, front, mid) && #[trigger] step(mid, items.last(), x);
        lemma_fold_picks(step, form, pick, init, front, mid);
        assert(form(form(mid)) == form(mid));
        assert(form(x) == form(pick(form(mid), items.last())));
    }
}

/// Folds over the same numbers in another order end in numbers of one form.
proof fn lemma_fold_in_any_order<T>(
    step: spec_fn(T, T, T) -> bool,
    form: spec_fn(T) -> T,
    pick: spec_fn(T, T) -> T,
    init1: T,
    init2: T,
    items1: Seq<T>,
    items2: Seq<T>,
    x: T,
    y: T,
)
    requires
        forall|a: T| #[trigger] form(form(a)) == form(a),
        steps_pick(step, form, pick),
        forall|a: T, b: T| step(a, b, #[trigger] pick(a, b)),
        forall|a: T, b: T, c: T|
            form(#[trigger] pick(pick(a, b), c)) == form(pick(pick(a, c), b)),
        form(init1) == form(init2),
        items1.to_multiset() == items2.to_multiset(),
        folds_to(step, init1, items1, x),
        folds_to(step, init2, items2, y),
    ensures
        form(x) == form(y),
{
    let f = formed(form, pick);
    lemma_fold_picks(step, form, pick, init1, items1, x);
    lemma_fold_picks(step, form, pick, init2, items2, y);
    assert forall|b: T, c: T, a: T| #[trigger] f(f(a, b), c) == f(f(a, c), b) by {
        let ab = pick(a, b);
        let ac = pick(a, c);
        assert(form(form(ab)) == form(ab) && form(form(ac)) == form(ac));
        assert(step(ab, c, pick(ab, c)) && step(ac, b, pick(ac, b)));
        assert(form(pick(ab, c)) == form(pick(form(ab), c)));
        assert(form(pick(ac, b)) == form(pick(form(ac), b)));
    }
    lemma_fold_left_permutation(items1, items2, f, form(init1));
}

/// `after` is `before` with the items at `a` and `b` exchanged.
pub open spec fn is_exchanged<E>(before: Seq<E>, after: Seq<E>, a: int, b: int) -> bool {
    after == before.update(a, before[b]).update(b, before[a])
}

/// An exchange keeps the items.
proof fn lemma_exchange_keeps_items<E>(before: Seq<E>, after: Seq<E>, a: int, b: int)
    requires
        0 <= a < before.len(),
        0 <= b < before.len(),
        is_exchanged(before, after, a, b),
    ensures
        before.to_multiset() == after.to_multiset(),
{
    broadcast use vstd::multiset::group_multiset_axioms;

    let mid = before.update(a, before[b]);
    to_multiset_update(before, a, before[b]);
    to_multiset_update(mid, b, before[a]);
    to_multiset_contains(before, before[a]);
    if a == b {
        assert(after =~= before);
    } else {
        assert(mid[b] == before[b]);
        assert(before.contains(before[a]));
        assert(before.to_multiset() =~= after.to_multiset());
    }
}

/// Both ends of a sub-block keep their form when two of its values are exchanged.
proof fn lemma_ends_of_exchanged<T: Number>(
    form: spec_fn(T) -> T,
    values1: Seq<T>,
    values2: Seq<T>,
    a: int,
    b: int,
    low1: T,
    high1: T,
    low2: T,
    high2: T,
)
    requires
        keeps_form(form),
        picks_in_any_order(form),
        0 <= a < values1.len(),
        0 <= b < values1.len(),
        is_exchanged(values1, values2, a, b),
        is_sub_block_low(values1, low1),
        is_sub_block_high(values1, high1),
        is_sub_block_low(values2, low2),
        is_sub_block_high(values2, high2),
    ensures
        form(low1) == form(low2),
        form(high1) == form(high2),
{
    let same = unchanged::<T>();
    lemma_exchange_keeps_items(values1, values2, a, b);
    let (start1, smallest1, zero1) = choose|start: T, smallest: T, zero: T|
        {
            &&& #[trigger] call_ensures(T::infinity, (), start)
            &&& folds_to(lesser_step::<T>(), start, values1, smallest)
            &&& call_ensures(T::decimal, (0i32, 0i32), zero)
            &&& #[trigger] call_ensures(T::lesser, (smallest, zero), low1)
        };
    let (start2, smallest2, zero2) = choose|start: T, smallest: T, zero: T|
        {
            &&& #[trigger] call_ensures(T::infinity, (), start)
            &&& folds_to(lesser_step::<T>(), start, values2, smallest)
            &&& call_ensures(T::decimal, (0i32, 0i32), zero)
            &&& #[trigger] call_ensures(T::lesser, (smallest, zero), low2)
        };
    assert(zero1 == zero2);
    assert(is_twice(form, same, start1, start2));
    let least = |a: T, b: T| lesser_of(a, b);
    lemma_fold_in_any_order(
        lesser_step::<T>(),
        form,
        least,
        start1,
        start2,
        values1,
        values2,
        smallest1,
        smallest2,
    );
    let bottom1 = choose|start: T| #[trigger]
        call_ensures(T::neg_infinity, (), start) && folds_to(
            greater_step::<T>(),
            start,
            values1,
            high1,
        );
    let bottom2 = choose|start: T| #[trigger]
        call_ensures(T::neg_infinity, (), start) && folds_to(
            greater_step::<T>(),
            start,
            values2,
            high2,
        );
    assert(is_twice(form, same, bottom1, bottom2));
    let most = |a: T, b: T| greater_of(a, b);
    assert(steps_pick(greater_step::<T>(), form, most)) by {
        assert forall|a: T, b: T, e: T, x: T|
            #![trigger greater_step::<T>()(a, e, x), most(b, e)]
            greater_step::<T>()(a, e, x) && form(a) == form(b) implies form(x) == form(
            most(b, e),
        ) by {
            assert(is_twice(form, same, a, b) && is_twice(form, same, e, e));
            assert(is_twice(form, same, x, greater_of(b, e)));
        }
    }
    lemma_fold_in_any_order(
        greater_step::<T>(),
        form,
        most,
        bottom1,
        bottom2,
        values1,
        values2,
        high1,
        high2,
    );
}

/// The sub-blocks number `s` of a block and of one with two values exchanged
/// settle, and equal values have one quant.
#[verifier::rlimit(50)]
proof fn lemma_exchanged_sub_block<T: Number>(
    form: spec_fn(T) -> T,
    values1: Seq<T>,
    values2: Seq<T>,
    a: int,
    b: int,
    s: int,
    scale1: T,
    offset1: T,
    quants1: Seq<u8>,
    scale2: T,
    offset2: T,
    quants2: Seq<u8>,
)
    requires
        keeps_form(form),
        settles(form),
        picks_in_any_order(form),
        values1.len() == BLOCK_VALUES,
        0 <= a < BLOCK_VALUES,
        0 <= b < BLOCK_VALUES,
        a / 32 == b / 32,
        is_exchanged(values1, values2, a, b),
        0 <= s < SUB_BLOCKS,
        is_sub_block(sub_block(values1, s), scale1, offset1, quants1),
        is_sub_block(sub_block(values2, s), scale2, offset2, quants2),
    ensures
        sub_blocks_settle(form, sub_block(values1, s), scale1, offset1, scale2, offset2),
        quants1.len() == 32,
        quants2.len() == 32,
        forall|i: int, j: int|
            #![trigger quants1[i], quants2[j]]
            0 <= i < 32 && 0 <= j < 32 && values2[s * 32 + j] == values1[s * 32 + i]
                ==> quants2[j] == quants1[i],
{
    let same = unchanged::<T>();
    let all = always::<T>();
    let sub1 = sub_block(values1, s);
    let sub2 = sub_block(values2, s);
    let (low1, high1) = lemma_sub_block_ends(sub1, scale1, offset1, quants1);
    let (low2, high2) = lemma_sub_block_ends(sub2, scale2, offset2, quants2);
    if s == a / 32 {
        let x = a % 32;
        let y = b % 32;
        assert(is_exchanged(sub1, sub2, x, y)) by {
            assert(sub2 =~= sub1.update(x, sub1[y]).update(y, sub1[x]));
        }
        lemma_ends_of_exchanged(form, sub1, sub2, x, y, low1, high1, low2, high2);
    } else {
        lemma_sub_forms(form, values1, values2, s);
        lemma_low_passes(form, same, all, sub1, sub2, low1, low2);
        lemma_high_passes(form, same, all, sub1, sub2, high1, high2);
    }
    lemma_sub_blocks_settle(
        form,
        low1,
        high1,
        sub1,
        scale1,
        offset1,
        quants1,
        low2,
        high2,
        sub2,
        scale2,
        offset2,
        quants2,
    );
    assert forall|i: int, j: int|
        #![trigger quants1[i], quants2[j]]
        0 <= i < 32 && 0 <= j < 32 && values2[s * 32 + j] == values1[s * 32 + i] implies quants2[j]
        == quants1[i] by {
        assert(sub1[i] == values1[s * 32 + i]);
        assert(sub2[j] == values2[s * 32 + j]);
    }
}

/// Blocks that hold the same but for two exchanged quants.
proof fn lemma_exchanged_quants_read_back(
    d1: u16,
    dmin1: u16,
    quants1: Seq<u8>,
    d2: u16,
    dmin2: u16,
    quants2: Seq<u8>,
    scales: Seq<u8>,
    mins: Seq<u8>,
    a: int,
    b: int,
)
    requires
        d1 == d2,
        scales.len() == SUB_BLOCKS,
        mins.len() == SUB_BLOCKS,
        quants1.len() == BLOCK_VALUES,
        0 <= a < BLOCK_VALUES,
        0 <= b < BLOCK_VALUES,
        is_exchanged(quants1, quants2, a, b),
        forall|t: int| 0 <= t < BLOCK_VALUES ==> #[trigger] quants1[t] < 16,
    ensures
        ({
            let bytes1 = packed_block(d1, dmin1, scales, mins, quants1);
            let bytes2 = packed_block(d2, dmin2, scales, mins, quants2);
            &&& bytes1.take(2) == bytes2.take(2)
            &&& read_half(bytes1, 2) == dmin1
            &&& read_half(bytes2, 2) == dmin2
            &&& bytes1.subrange(4, 16) == bytes2.subrange(4, 16)
            &&& dmin1 == dmin2 ==> bytes1.take(16) == bytes2.take(16)
            &&& read_quant(bytes2, a) == read_quant(bytes1, b)
            &&& read_quant(bytes2, b) == read_quant(bytes1, a)
            &&& forall|t: int|
                0 <= t < BLOCK_VALUES && t != a && t != b ==> #[trigger] read_quant(bytes2, t)
                    == read_quant(bytes1, t)
        }),
{
    let bytes1 = packed_block(d1, dmin1, scales, mins, quants1);
    let bytes2 = packed_block(d2, dmin2, scales, mins, quants2);
    law_block_reads_back(d1, dmin1, scales, mins, quants1);
    law_block_reads_back(d2, dmin2, scales, mins, quants2);
    assert(bytes1.take(2) =~= bytes2.take(2));
    assert(bytes1.subrange(4, 16) =~= bytes2.subrange(4, 16));
    if dmin1 == dmin2 {
        assert(bytes1.take(16) =~= bytes2.take(16));
    }
    assert(quants2[a] == quants1[b] && quants2[b] == quants1[a]);
    assert forall|t: int| 0 <= t < BLOCK_VALUES && t != a && t != b implies #[trigger] read_quant(
        bytes2,
        t,
    ) == read_quant(bytes1, t) by {
        assert(quants2[t] == quants1[t]);
    }
}

/// A value brings its quant with it when two values of its sub-block are exchanged.
#[verifier::rlimit(50)]
proof fn lemma_moved_quant<T: Number>(
    form: spec_fn(T) -> T,
    values1: Seq<T>,
    params1: BlockParams<T>,
    scales1: Seq<T>,
    offsets1: Seq<T>,
    values2: Seq<T>,
    params2: BlockParams<T>,
    scales2: Seq<T>,
    offsets2: Seq<T>,
    a: int,
    b: int,
    t: int,
    u: int,
)
    requires
        keeps_form(form),
        settles(form),
        picks_in_any_order(form),
        values1.len() == BLOCK_VALUES,
        0 <= a < BLOCK_VALUES,
        0 <= b < BLOCK_VALUES,
        a / 32 == b / 32,
        is_exchanged(values1, values2, a, b),
        are_block_params_over(values1, params1, scales1, offsets1),
        are_block_params_over(values2, params2, scales2, offsets2),
        0 <= t < BLOCK_VALUES,
        0 <= u < BLOCK_VALUES,
        t / 32 == u / 32,
        values2[u] == values1[t],
    ensures
        params2.quants@[u] == params1.quants@[t],
{
    let s = t / 32;
    let quants1 = sub_block(params1.quants@, s);
    let quants2 = sub_block(params2.quants@, s);
    assert(is_sub_block(sub_block(values1, s), scales1[s], offsets1[s], quants1));
    assert(is_sub_block(sub_block(values2, s), scales2[s], offsets2[s], quants2));
    lemma_exchanged_sub_block(
        form,
        values1,
        values2,
        a,
        b,
        s,
        scales1[s],
        offsets1[s],
        quants1,
        scales2[s],
        offsets2[s],
        quants2,
    );
    assert(quants1[t % 32] == params1.quants@[t]);
    assert(quants2[u % 32] == params2.quants@[u]);
}

/// The quants of a block are exchanged with its values.
#[verifier::rlimit(50)]
proof fn lemma_quants_are_exchanged<T: Number>(
    form: spec_fn(T) -> T,
    values1: Seq<T>,
    params1: BlockParams<T>,
    scales1: Seq<T>,
    offsets1: Seq<T>,
    values2: Seq<T>,
    params2: BlockParams<T>,
    scales2: Seq<T>,
    offsets2: Seq<T>,
    a: int,
    b: int,
)
    requires
        keeps_form(form),
        settles(form),
        picks_in_any_order(form),
        values1.len() == BLOCK_VALUES,
        0 <= a < BLOCK_VALUES,
        0 <= b < BLOCK_VALUES,
        a / 32 == b / 32,
        is_exchanged(values1, values2, a, b),
        are_block_params_over(values1, params1, scales1, offsets1),
        are_block_params_over(values2, params2, scales2, offsets2),
    ensures
        is_exchanged(params1.quants@, params2.quants@, a, b),
{
    let quants = params1.quants@.update(a, params1.quants@[b]).update(b, params1.quants@[a]);
    assert forall|t: int| 0 <= t < 256 implies params2.quants@[t] == quants[t] by {
        let u = if t == b {
            a
        } else if t == a {
            b
        } else {
            t
        };
        lemma_moved_quant(
            form,
            values1,
            params1,
            scales1,
            offsets1,
            values2,
            params2,
            scales2,
            offsets2,
            a,
            b,
            u,
            t,
        );
    }
    assert(params2.quants@ =~= quants);
}

/// Exchanging two values of a sub-block exchanges their quants and changes nothing
/// else. Where no value is below zero, the factor of the minima is a zero, whose
/// sign is left open.
#[verifier::rlimit(50)]
pub proof fn law_exchanged_values_exchange_quants<T: Number>(
    form: spec_fn(T) -> T,
    values1: Seq<T>,
    values2: Seq<T>,
    a: int,
    b: int,
    bytes1: Seq<u8>,
    bytes2: Seq<u8>,
)
    requires
        keeps_form(form),
        settles(form),
        picks_in_any_order(form),
        values1.len() == BLOCK_VALUES,
        0 <= a < BLOCK_VALUES,
        0 <= b < BLOCK_VALUES,
        a / (SUB_BLOCK_VALUES as int) == b / (SUB_BLOCK_VALUES as int),
        is_exchanged(values1, values2, a, b),
        is_quantized_block(values1, bytes1),
        is_quantized_block(values2, bytes2),
    ensures
        bytes1.take(2) == bytes2.take(2),
        are_same_up_to_zero_sign(read_half(bytes1, 2) as u16, read_half(bytes2, 2) as u16),
        bytes1.subrange(4, 16) == bytes2.subrange(4, 16),
        has_negative(values1) ==> bytes1.take(16) == bytes2.take(16),
        read_quant(bytes2, a) == read_quant(bytes1, b),
        read_quant(bytes2, b) == read_quant(bytes1, a),
        forall|t: int|
            0 <= t < BLOCK_VALUES && t != a && t != b ==> #[trigger] read_quant(bytes2, t)
                == read_quant(bytes1, t),
{
    let (params1, d1, dmin1, scales1, offsets1) = lemma_block_parts(values1, bytes1);
    let (params2, d2, dmin2, scales2, offsets2) = lemma_block_parts(values2, bytes2);
    assert forall|s: int| 0 <= s < SUB_BLOCKS implies sub_blocks_settle(
        form,
        sub_block(values1, s),
        #[trigger] scales1[s],
        offsets1[s],
        scales2[s],
        offsets2[s],
    ) by {
        lemma_exchanged_sub_block(
            form,
            values1,
            values2,
            a,
            b,
            s,
            scales1[s],
            offsets1[s],
            sub_block(params1.quants@, s),
            scales2[s],
            offsets2[s],
            sub_block(params2.quants@, s),
        );
    }
    lemma_block_settles(
        form,
        values1,
        params1,
        d1,
        dmin1,
        scales1,
        offsets1,
        values2,
        params2,
        d2,
        dmin2,
        scales2,
        offsets2,
    );
    lemma_quants_are_exchanged(
        form,
        values1,
        params1,
        scales1,
        offsets1,
        values2,
        params2,
        scales2,
        offsets2,
        a,
        b,
    );
    lemma_quants_are_small(values1, params1);
    lemma_exchanged_quants_read_back(
        d1,
        dmin1,
        params1.quants@,
        d2,
        dmin2,
        params2.quants@,
        params1.scales@,
        params1.mins@,
        a,
        b,
    );
}

/// Equal halves read as numbers of one form, and halves below zero as numbers below
/// zero. Single precision has this.
pub open spec fn halves_read_alike<T: Number>(form: spec_fn(T) -> T) -> bool {
    &&& forall|x: u16, a: T, b: T| #[trigger]
        call_ensures(T::from_half_bits, (x,), a) && #[trigger] call_ensures(
            T::from_half_bits,
            (x,),
            b,
        ) ==> form(a) == form(b)
    &&& forall|x: u16, a: T| #[trigger]
        call_ensures(T::from_half_bits, (x,), a) && is_half_negative(x) ==> is_negative(a)
}

/// A column of a matrix of 256 rows and `n_cols` columns has an element below zero.
pub open spec fn column_dips(b: Seq<u16>, n_cols: int, batch: int, n: int) -> bool {
    exists|k: int|
        0 <= k < BLOCK_VALUES && is_half_negative(
            b[#[trigger] at(batch, k, n, BLOCK_VALUES as int, n_cols)],
        )
}

/// Equal columns have equal blocks.
proof fn lemma_same_columns<T: Number>(
    form: spec_fn(T) -> T,
    x: Seq<u16>,
    y: Seq<u16>,
    n_cols: int,
    batch_x: int,
    batch_y: int,
    n: int,
    bytes_x: Seq<u8>,
    bytes_y: Seq<u8>,
)
    requires
        keeps_form(form),
        settles(form),
        halves_read_alike(form),
        forall|k: int|
            0 <= k < BLOCK_VALUES ==> x[#[trigger] at(batch_x, k, n, BLOCK_VALUES as int, n_cols)]
                == y[at(batch_y, k, n, BLOCK_VALUES as int, n_cols)],
        is_column_block::<T>(x, n_cols, batch_x, n, bytes_x),
        is_column_block::<T>(y, n_cols, batch_y, n, bytes_y),
    ensures
        are_same_block(bytes_x, bytes_y),
        column_dips(x, n_cols, batch_x, n) ==> bytes_x == bytes_y,
{
    let values_x = choose|values: Seq<T>| #[trigger]
        is_column(x, n_cols, batch_x, n, values) && is_quantized_block(values, bytes_x);
    let values_y = choose|values: Seq<T>| #[trigger]
        is_column(y, n_cols, batch_y, n, values) && is_quantized_block(values, bytes_y);
    assert forall|k: int| 0 <= k < BLOCK_VALUES implies form(#[trigger] values_x[k]) == form(
        values_y[k],
    ) by {
        let place = at(batch_x, k, n, BLOCK_VALUES as int, n_cols);
        assert(x[place] == y[at(batch_y, k, n, BLOCK_VALUES as int, n_cols)]);
        assert(call_ensures(T::from_half_bits, (x[place],), values_x[k]));
        assert(call_ensures(T::from_half_bits, (x[place],), values_y[k]));
    }
    if column_dips(x, n_cols, batch_x, n) {
        let k = choose|k: int|
            0 <= k < BLOCK_VALUES && is_half_negative(
                x[#[trigger] at(batch_x, k, n, BLOCK_VALUES as int, n_cols)],
            );
        assert(is_negative(values_x[k]));
    }
    lemma_same_block(form, values_x, values_y, bytes_x, bytes_y);
}

/// Where a byte of a batch of blocks stands in its block.
proof fn lemma_byte_of_block(out: Seq<u8>, n_cols: int, batch_size: int, p: int) -> (place: (
    int,
    int,
))
    requires
        0 <= n_cols,
        0 <= batch_size,
        out.len() == batch_size * n_cols * BLOCK_BYTES,
        0 <= p < out.len(),
    ensures
        0 <= place.0 < batch_size,
        0 <= place.1 < n_cols,
        p == block_index(place.0, place.1, n_cols) * BLOCK_BYTES + p % 144,
        out[p] == nth_block(out, block_index(place.0, place.1, n_cols))[p % 144],
{
    lemma_at_covers(p, batch_size, n_cols, BLOCK_BYTES as int);
    let batch = p / 144 / n_cols;
    let n = (p / 144) % n_cols;
    lemma_at_bound(batch, n, 0, batch_size, n_cols, BLOCK_BYTES as int);
    (batch, n)
}

/// The block of a column is the block of the column's values alone. Where none of
/// them is below zero, the factor of the minima is a zero, whose sign is left open.
pub proof fn law_block_of_its_column<T: Number>(
    form: spec_fn(T) -> T,
    b: Seq<u16>,
    n_cols: int,
    batch_size: int,
    out: Seq<u8>,
    batch: int,
    n: int,
    values: Seq<T>,
    alone: Seq<u8>,
)
    requires
        keeps_form(form),
        settles(form),
        halves_read_alike(form),
        are_column_blocks::<T>(b, n_cols, batch_size, out),
        0 <= batch < batch_size,
        0 <= n < n_cols,
        is_column(b, n_cols, batch, n, values),
        is_quantized_block(values, alone),
    ensures
        are_same_block(nth_block(out, block_index(batch, n, n_cols)), alone),
        column_dips(b, n_cols, batch, n) ==> nth_block(out, block_index(batch, n, n_cols)) == alone,
{
    lemma_same_columns::<T>(
        form,
        b,
        b,
        n_cols,
        batch,
        batch,
        n,
        nth_block(out, block_index(batch, n, n_cols)),
        alone,
    );
}

/// Two batches agree in one column.
pub open spec fn is_same_column(
    x: Seq<u16>,
    y: Seq<u16>,
    n_cols: int,
    batch: int,
    n: int,
) -> bool {
    forall|k: int|
        0 <= k < BLOCK_VALUES ==> x[#[trigger] at(batch, k, n, BLOCK_VALUES as int, n_cols)] == y[at(
            batch,
            k,
            n,
            BLOCK_VALUES as int,
            n_cols,
        )]
}

/// A change of one column changes its block alone, and what follows the last matrix
/// changes nothing: every other column keeps its block, down to the byte where an
/// element of it is below zero.
pub proof fn law_column_changes_its_block<T: Number>(
    form: spec_fn(T) -> T,
    x: Seq<u16>,
    y: Seq<u16>,
    n_cols: int,
    batch_size: int,
    out_x: Seq<u8>,
    out_y: Seq<u8>,
    batch: int,
    n: int,
)
    requires
        keeps_form(form),
        settles(form),
        halves_read_alike(form),
        0 <= n_cols,
        0 <= batch_size,
        are_column_blocks::<T>(x, n_cols, batch_size, out_x),
        are_column_blocks::<T>(y, n_cols, batch_size, out_y),
        forall|q: int, c: int|
            0 <= q < batch_size && 0 <= c < n_cols && (q != batch || c != n)
                ==> #[trigger] is_same_column(x, y, n_cols, q, c),
    ensures
        out_x.len() == out_y.len(),
        forall|q: int, c: int|
            0 <= q < batch_size && 0 <= c < n_cols && (q != batch || c != n) ==> are_same_block(
                nth_block(out_x, #[trigger] block_index(q, c, n_cols)),
                nth_block(out_y, block_index(q, c, n_cols)),
            ),
        forall|q: int, c: int|
            0 <= q < batch_size && 0 <= c < n_cols && (q != batch || c != n) && column_dips(
                x,
                n_cols,
                q,
                c,
            ) ==> nth_block(out_x, #[trigger] block_index(q, c, n_cols)) == nth_block(
                out_y,
                block_index(q, c, n_cols),
            ),
{
    assert forall|q: int, c: int|
        0 <= q < batch_size && 0 <= c < n_cols && (q != batch || c != n) implies {
        let block_x = nth_block(out_x, #[trigger] block_index(q, c, n_cols));
        let block_y = nth_block(out_y, block_index(q, c, n_cols));
        are_same_block(block_x, block_y) && (column_dips(x, n_cols, q, c) ==> block_x == block_y)
    } by {
        let index = block_index(q, c, n_cols);
        assert(is_same_column(x, y, n_cols, q, c));
        lemma_same_columns::<T>(
            form,
            x,
            y,
            n_cols,
            q,
            q,
            c,
            nth_block(out_x, index),
            nth_block(out_y, index),
        );
    }
}

/// Where every other column has an element below zero, a change of one column
/// changes no byte outside its block.
pub proof fn law_column_changes_its_bytes<T: Number>(
    form: spec_fn(T) -> T,
    x: Seq<u16>,
    y: Seq<u16>,
    n_cols: int,
    batch_size: int,
    out_x: Seq<u8>,
    out_y: Seq<u8>,
    batch: int,
    n: int,
)
    requires
        keeps_form(form),
        settles(form),
        halves_read_alike(form),
        0 <= n_cols,
        0 <= batch_size,
        are_column_blocks::<T>(x, n_cols, batch_size, out_x),
        are_column_blocks::<T>(y, n_cols, batch_size, out_y),
        forall|q: int, c: int|
            0 <= q < batch_size && 0 <= c < n_cols && (q != batch || c != n)
                ==> #[trigger] is_same_column(x, y, n_cols, q, c),
        forall|q: int, c: int|
            0 <= q < batch_size && 0 <= c < n_cols && (q != batch || c != n)
                ==> #[trigger] column_dips(x, n_cols, q, c),
    ensures
        out_x.len() == out_y.len(),
        forall|p: int|
            0 <= p < out_x.len() && !(block_index(batch, n, n_cols) * BLOCK_BYTES <= p < (
            block_index(batch, n, n_cols) + 1) * BLOCK_BYTES) ==> #[trigger] out_x[p] == out_y[p],
{
    law_column_changes_its_block::<T>(
        form,
        x,
        y,
        n_cols,
        batch_size,
        out_x,
        out_y,
        batch,
        n,
    );
    assert forall|p: int|
        0 <= p < out_x.len() && !(block_index(batch, n, n_cols) * BLOCK_BYTES <= p < (block_index(
            batch,
            n,
            n_cols,
        ) + 1) * BLOCK_BYTES) implies #[trigger] out_x[p] == out_y[p] by {
        let (q, c) = lemma_byte_of_block(out_x, n_cols, batch_size, p);
        let index = block_index(q, c, n_cols);
        lemma_at_bound(q, c, 0, batch_size, n_cols, BLOCK_BYTES as int);
        assert(column_dips(x, n_cols, q, c));
        assert(out_y[p] == nth_block(out_y, index)[p % 144]);
    }
}

/// The block of a column in two batches that are joined, and in the one of them
/// that the column comes from.
proof fn lemma_joined_block<T: Number>(
    form: spec_fn(T) -> T,
    x: Seq<u16>,
    y: Seq<u16>,
    n_cols: int,
    batch_size_x: int,
    batch_size_y: int,
    out_x: Seq<u8>,
    out_y: Seq<u8>,
    out: Seq<u8>,
    q: int,
    c: int,
)
    requires
        keeps_form(form),
        settles(form),
        halves_read_alike(form),
        0 <= batch_size_x,
        0 <= batch_size_y,
        x.len() == batch_size_x * BLOCK_VALUES * n_cols,
        y.len() >= batch_size_y * BLOCK_VALUES * n_cols,
        are_column_blocks::<T>(x, n_cols, batch_size_x, out_x),
        are_column_blocks::<T>(y, n_cols, batch_size_y, out_y),
        are_column_blocks::<T>(x + y, n_cols, batch_size_x + batch_size_y, out),
        0 <= q < batch_size_x + batch_size_y,
        0 <= c < n_cols,
    ensures
        out.len() == out_x.len() + out_y.len(),
        are_same_block(
            nth_block(out, block_index(q, c, n_cols)),
            nth_block(out_x + out_y, block_index(q, c, n_cols)),
        ),
        column_dips(x + y, n_cols, q, c) ==> nth_block(out, block_index(q, c, n_cols)) == nth_block(
            out_x + out_y,
            block_index(q, c, n_cols),
        ),
{
    let both = batch_size_x + batch_size_y;
    let joined = out_x + out_y;
    let index = block_index(q, c, n_cols);
    let rows = BLOCK_VALUES as int;
    assert(both * n_cols == batch_size_x * n_cols + batch_size_y * n_cols) by (nonlinear_arith)
        requires
            both == batch_size_x + batch_size_y,
    ;
    if q < batch_size_x {
        lemma_at_bound(q, c, 0, batch_size_x, n_cols, BLOCK_BYTES as int);
        assert(nth_block(joined, index) =~= nth_block(out_x, index));
        assert forall|k: int| 0 <= k < BLOCK_VALUES implies (x + y)[#[trigger] at(
            q,
            k,
            c,
            rows,
            n_cols,
        )] == x[at(q, k, c, rows, n_cols)] by {
            lemma_at_bound(q, k, c, batch_size_x, rows, n_cols);
        }
        lemma_same_columns::<T>(
            form,
            x + y,
            x,
            n_cols,
            q,
            q,
            c,
            nth_block(out, index),
            nth_block(out_x, index),
        );
    } else {
        let r = q - batch_size_x;
        let place = block_index(r, c, n_cols);
        lemma_at_bound(r, c, 0, batch_size_y, n_cols, BLOCK_BYTES as int);
        assert(q * n_cols == batch_size_x * n_cols + r * n_cols) by (nonlinear_arith)
            requires
                q == batch_size_x + r,
        ;
        assert(nth_block(joined, index) =~= nth_block(out_y, place));
        assert forall|k: int| 0 <= k < BLOCK_VALUES implies (x + y)[#[trigger] at(
            q,
            k,
            c,
            rows,
            n_cols,
        )] == y[at(r, k, c, rows, n_cols)] by {
            lemma_at_bound(r, k, c, batch_size_y, rows, n_cols);
            assert(q * rows * n_cols == batch_size_x * rows * n_cols + r * rows * n_cols)
                by (nonlinear_arith)
                requires
                    q == batch_size_x + r,
            ;
            assert(at(q, k, c, rows, n_cols) == x.len() + at(r, k, c, rows, n_cols));
        }
        lemma_same_columns::<T>(
            form,
            x + y,
            y,
            n_cols,
            q,
            r,
            c,
            nth_block(out, index),
            nth_block(out_y, place),
        );
    }
}

/// Two batches that are joined give the blocks of the first, and then those of the
/// second, down to the byte where each column has an element below zero.
pub proof fn law_joined_batches_join_blocks<T: Number>(
    form: spec_fn(T) -> T,
    x: Seq<u16>,
    y: Seq<u16>,
    n_cols: int,
    batch_size_x: int,
    batch_size_y: int,
    out_x: Seq<u8>,
    out_y: Seq<u8>,
    out: Seq<u8>,
)
    requires
        keeps_form(form),
        settles(form),
        halves_read_alike(form),
        0 <= n_cols,
        0 <= batch_size_x,
        0 <= batch_size_y,
        x.len() == batch_size_x * BLOCK_VALUES * n_cols,
        y.len() >= batch_size_y * BLOCK_VALUES * n_cols,
        are_column_blocks::<T>(x, n_cols, batch_size_x, out_x),
        are_column_blocks::<T>(y, n_cols, batch_size_y, out_y),
        are_column_blocks::<T>(x + y, n_cols, batch_size_x + batch_size_y, out),
    ensures
        out.len() == out_x.len() + out_y.len(),
        forall|q: int, c: int|
            0 <= q < batch_size_x + batch_size_y && 0 <= c < n_cols ==> are_same_block(
                nth_block(out, #[trigger] block_index(q, c, n_cols)),
                nth_block(out_x + out_y, block_index(q, c, n_cols)),
            ),
        (forall|q: int, c: int|
            0 <= q < batch_size_x + batch_size_y && 0 <= c < n_cols ==> #[trigger] column_dips(
                x + y,
                n_cols,
                q,
                c,
            )) ==> out == out_x + out_y,
{
    let both = batch_size_x + batch_size_y;
    let joined = out_x + out_y;
    assert(both * n_cols == batch_size_x * n_cols + batch_size_y * n_cols) by (nonlinear_arith)
        requires
            both == batch_size_x + batch_size_y,
    ;
    assert forall|q: int, c: int| 0 <= q < both && 0 <= c < n_cols implies are_same_block(
        nth_block(out, #[trigger] block_index(q, c, n_cols)),
        nth_block(joined, block_index(q, c, n_cols)),
    ) by {
        lemma_joined_block::<T>(
            form,
            x,
            y,
            n_cols,
            batch_size_x,
            batch_size_y,
            out_x,
            out_y,
            out,
            q,
            c,
        );
    }
    if forall|q: int, c: int|
        0 <= q < both && 0 <= c < n_cols ==> #[trigger] column_dips(x + y, n_cols, q, c) {
        assert forall|p: int| 0 <= p < out.len() implies out[p] == joined[p] by {
            let (q, c) = lemma_byte_of_block(out, n_cols, both, p);
            let index = block_index(q, c, n_cols);
            lemma_at_bound(q, c, 0, both, n_cols, BLOCK_BYTES as int);
            assert(column_dips(x + y, n_cols, q, c));
            lemma_joined_block::<T>(
                form,
                x,
                y,
                n_cols,
                batch_size_x,
                batch_size_y,
                out_x,
                out_y,
                out,
                q,
                c,
            );
            assert(joined[p] == nth_block(joined, index)[p % 144]);
        }
        assert(out =~= joined);
    }
}

} // verus!

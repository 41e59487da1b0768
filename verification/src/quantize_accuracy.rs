//! How close a block comes to the values that it stands for.
//!
//! The laws read every number through a [`Reading`] and speak of integers: of the
//! values that were quantised and of what a reader of the bytes takes from them.
use vstd::prelude::*;

use crate::layout::at;
use crate::matrix_accuracy::lemma_fold_spoils;
use crate::number::{folds_to, greater_step, is_half_finite, lesser_step, Number};
use crate::q4k::{pack_block, packed_block, packed_quants, packed_scales, SUB_BLOCKS};
use crate::quantize::{
    are_block_params, are_block_params_over, are_column_blocks, are_six_bit_quants, block_index,
    block_params, is_column, is_column_block, is_level, is_quant, is_quantized_block,
    is_six_bit_level, is_six_bit_quant, is_sub_block, is_sub_block_between, is_sub_block_high,
    is_sub_block_low, is_sub_block_scale, is_super_scale, nth_block, quantize_b_q4k,
    quantize_block_q4k, quantize_sub_block, sub_block, BlockParams, SubBlock,
};
use crate::reading::{
    is_fine, is_near, lemma_near_cancel, reads_constants, reads_halves, reads_integers, reads_order,
    reads_quotients, reads_sums, size, Reading,
};

verus! {

/// What the quantisation asks of a reading.
pub open spec fn reads_levels<T: Number>(m: Reading<T>) -> bool {
    &&& is_fine(m)
    &&& reads_constants(m)
    &&& reads_order(m)
    &&& reads_sums(m)
    &&& reads_quotients(m)
    &&& reads_integers(m)
}

/// All values are known and no larger than `most`, of which there is room for a
/// thousand.
pub open spec fn are_readable<T>(m: Reading<T>, values: Seq<T>, most: int) -> bool {
    &&& 2 <= most
    &&& 1000 * most <= m.top
    &&& forall|i: int|
        0 <= i < values.len() ==> (m.known)(#[trigger] values[i]) && size((m.value)(values[i]))
            <= most
}

/// A fifteenth of a range is off by little.
proof fn lemma_scale_bound(p: int, range: int, r: int, s: int)
    requires
        p >= 1000,
        range >= 0,
        is_near(p, r, range, 0),
        is_near(p, s * 15, r, 15),
    ensures
        p * size(15 * s - range) <= 3 * range + 15 * p,
        r >= 0,
        s >= -1,
        range <= 15 * s + 15 + range / 100,
{
    assert(size(r - range) <= range && p * size(15 * s - range) <= 3 * range + 15 * p)
        by (nonlinear_arith)
        requires
            p >= 1000,
            range >= 0,
            p * size(r - range) <= range,
            p * size(s * 15 - r) <= size(r) + p * 15,
    {
        let a = size(r - range);
        let b = size(s * 15 - r);
        assert(a <= range);
        assert(size(r) <= 2 * range);
        assert(size(15 * s - range) <= a + b);
        assert(p * size(15 * s - range) <= p * (a + b));
    }
    assert(r >= 0);
    assert(range <= 15 * s + 15 + range / 100) by (nonlinear_arith)
        requires
            p >= 1000,
            range >= 0,
            p * size(15 * s - range) <= 3 * range + 15 * p,
    {
        let a = range - 15 * s - 15;
        assert(p * (range - 15 * s) <= 3 * range + 15 * p);
        assert(p * a <= 3 * range);
        if a > range / 100 {
            assert(100 * a > range);
            assert(p * a >= 1000 * a);
        }
    }
}

/// A ratio of no more than `most` stays in bounds.
proof fn lemma_ratio_bound(p: int, u: int, s: int, d: int, x: int, most: int)
    requires
        p >= 1000,
        u >= p,
        s > 0,
        0 <= d <= most * s,
        0 <= most,
        is_near(p, x * s, d * u, s),
    ensures
        -1 <= x <= (2 * most + 1) * u,
        -s <= x * s <= 2 * (d * u) + s,
        p * size(x * s - d * u) <= d * u + p * s,
        0 <= d * u <= most * (s * u),
        0 < s <= s * u,
        p * s <= s * u,
{
    let e1 = x * s - d * u;
    let du = d * u;
    let su = s * u;
    let xs = x * s;
    assert(0 <= du <= most * su) by (nonlinear_arith)
        requires
            0 <= d <= most * s,
            u >= 0,
            du == d * u,
            su == s * u,
    ;
    assert(0 < s <= su && p * s <= su) by (nonlinear_arith)
        requires
            s > 0,
            u >= p,
            p >= 1000,
            su == s * u,
    ;
    assert(p * size(e1) <= du + p * s);
    assert(size(e1) <= du + s) by (nonlinear_arith)
        requires
            p * size(e1) <= du + p * s,
            p >= 1000,
            du >= 0,
    {
        if size(e1) > du + s {
            assert(p * size(e1) >= p * (du + s + 1));
            assert(p * (du + s + 1) == p * du + p * s + p);
            assert(p * du >= du);
        }
    }
    assert(xs == e1 + du);
    assert(-s <= xs) by (nonlinear_arith)
        requires
            p * size(e1) <= du + p * s,
            p >= 1000,
            du >= 0,
            xs == e1 + du,
    {
        if xs < -s {
            assert(-e1 > du + s);
            assert(p * (-e1) >= p * (du + s + 1));
            assert(p * (du + s + 1) == p * du + p * s + p);
            assert(p * du >= du);
        }
    }
    assert(-1 <= x <= (2 * most + 1) * u) by (nonlinear_arith)
        requires
            s > 0,
            xs == x * s,
            -s <= xs <= 2 * (most * su) + s,
            s <= su,
            su == s * u,
    {
        assert(2 * (most * su) + su == ((2 * most + 1) * u) * s);
    }
}

/// The difference from a rounded level, where the level is `q`, what it was rounded
/// from is `r`, half a unit is `h`, the ratio is `x`, the step is `s` and what was
/// divided is `d`.
#[verifier::rlimit(50)]
proof fn lemma_level_bound(
    p: int,
    u: int,
    h: int,
    s: int,
    d: int,
    x: int,
    r: int,
    q: int,
    most: int,
)
    requires
        p >= 1000,
        u >= p,
        2 * h == u,
        s > 0,
        0 <= d <= most * s,
        0 <= most <= 200,
        is_near(p, x * s, d * u, s),
        is_near(p, r, x + h, 0),
    ensures
        r >= 0,
        -1 <= x <= (2 * most + 1) * u,
        q * u <= r < (q + 1) * u ==> 2 * p * size(q * s - d) <= (p + 6 * most + 8) * s,
        q * u <= r ==> 2 * p * (q * s - d) <= (p + 6 * most + 8) * s,
{
    let e1 = x * s - d * u;
    let e2 = r - x - h;
    let du = d * u;
    let su = s * u;
    let xs = x * s;
    lemma_ratio_bound(p, u, s, d, x, most);
    assert(xs == e1 + du);
    assert(x + h > 0);
    assert(r >= 0) by (nonlinear_arith)
        requires
            p * size(r - (x + h)) <= size(x + h) + p * 0,
            x + h > 0,
            p >= 1000,
    ;
    let hs = h * s;
    assert(2 * hs == su) by (nonlinear_arith)
        requires
            hs == h * s,
            2 * h == u,
            su == s * u,
    ;
    let e2s = e2 * s;
    assert(p * size(e2s) <= xs + hs) by (nonlinear_arith)
        requires
            p * size(e2) <= x + h,
            e2s == e2 * s,
            s > 0,
            xs == x * s,
            hs == h * s,
    {
        assert(size(e2 * s) == size(e2) * s);
        assert(p * (size(e2) * s) == (p * size(e2)) * s);
        assert((p * size(e2)) * s <= (x + h) * s);
        assert((x + h) * s == x * s + h * s);
    }
    let rs = r * s;
    assert(rs == e2s + xs + hs) by (nonlinear_arith)
        requires
            rs == r * s,
            e2s == e2 * s,
            xs == x * s,
            hs == h * s,
            e2 == r - x - h,
    ;
    let excess = rs - hs - du;
    assert(excess == e2s + e1);
    assert(2 * p * size(excess) <= (6 * most + 8) * su) by (nonlinear_arith)
        requires
            excess == e2s + e1,
            p * size(e2s) <= xs + hs,
            p * size(e1) <= du + p * s,
            p >= 1000,
            xs <= 2 * du + s,
            2 * hs == su,
            p * s <= su,
            s <= su,
            0 <= du <= most * su,
    {
        assert(size(excess) <= size(e2s) + size(e1));
        assert(p * size(excess) <= p * (size(e2s) + size(e1)));
        assert(p * (size(e2s) + size(e1)) == p * size(e2s) + p * size(e1));
        assert(2 * (xs + hs) + 2 * (du + p * s) <= 6 * du + 5 * su);
        assert(6 * du <= 6 * (most * su));
        assert((6 * most + 8) * su == 6 * (most * su) + 8 * su);
    }
    let qs = q * s;
    let t = q * u - r;
    assert(qs * u - du == t * s + rs - du) by (nonlinear_arith)
        requires
            qs == q * s,
            t == q * u - r,
            rs == r * s,
    ;
    if q * u <= r {
        let ts = t * s;
        assert(ts <= 0) by (nonlinear_arith)
            requires
                ts == t * s,
                t <= 0,
                s > 0,
        ;
        assert(2 * p * (qs * u - du) <= p * su + (6 * most + 8) * su) by (nonlinear_arith)
            requires
                qs * u - du == ts + hs + excess,
                ts <= 0,
                2 * hs == su,
                2 * p * size(excess) <= (6 * most + 8) * su,
                p >= 1000,
        {
            assert(2 * p * (ts + hs + excess) == 2 * p * ts + p * (2 * hs) + 2 * p * excess);
            assert(2 * p * ts <= 0);
            assert(2 * p * excess <= 2 * p * size(excess));
        }
        assert(2 * p * (qs - d) <= (p + 6 * most + 8) * s) by (nonlinear_arith)
            requires
                2 * p * (qs * u - du) <= p * su + (6 * most + 8) * su,
                du == d * u,
                su == s * u,
                u > 0,
        {
            assert(2 * p * (qs * u - d * u) == (2 * p * (qs - d)) * u);
            assert(p * (s * u) + (6 * most + 8) * (s * u) == ((p + 6 * most + 8) * s) * u);
        }
        if r < (q + 1) * u {
            assert(t >= -u) by (nonlinear_arith)
                requires
                    t == q * u - r,
                    r < (q + 1) * u,
            ;
            assert(ts >= -su) by (nonlinear_arith)
                requires
                    ts == t * s,
                    t >= -u,
                    s > 0,
                    su == s * u,
            ;
            assert(2 * p * (du - qs * u) <= p * su + (6 * most + 8) * su) by (nonlinear_arith)
                requires
                    qs * u - du == ts + hs + excess,
                    ts >= -su,
                    2 * hs == su,
                    2 * p * size(excess) <= (6 * most + 8) * su,
                    p >= 1000,
            {
                assert(2 * p * (-ts - hs - excess) == 2 * p * (-ts) - p * (2 * hs) - 2 * p
                    * excess);
                assert(2 * p * (-ts) <= 2 * p * su);
                assert(-(2 * p * excess) <= 2 * p * size(excess));
            }
            assert(2 * p * (d - qs) <= (p + 6 * most + 8) * s) by (nonlinear_arith)
                requires
                    2 * p * (du - qs * u) <= p * su + (6 * most + 8) * su,
                    du == d * u,
                    su == s * u,
                    u > 0,
            {
                assert(2 * p * (d * u - qs * u) == (2 * p * (d - qs)) * u);
                assert(p * (s * u) + (6 * most + 8) * (s * u) == ((p + 6 * most + 8) * s) * u);
            }
        }
    }
}

/// The scale of a sub-block is not below zero.
proof fn lemma_scale_is_not_negative(p: int, range: int, r: int, s: int)
    requires
        p >= 1000,
        range > 0,
        is_near(p, r, range, 0),
        is_near(p, s * 15, r, 15),
    ensures
        s >= 0,
{
    assert(r > 0) by (nonlinear_arith)
        requires
            p * size(r - range) <= range,
            range > 0,
            p >= 1000,
    ;
    assert(s >= 0) by (nonlinear_arith)
        requires
            p * size(s * 15 - r) <= r + p * 15,
            r > 0,
            p >= 1000,
    {
        if s <= -1 {
            assert(size(s * 15 - r) >= 15 + r);
            assert(p * size(s * 15 - r) >= p * (15 + r));
            assert(p * (15 + r) == p * 15 + p * r);
            assert(p * r >= 1000 * r);
        }
    }
}

/// The smallest of some known values, taken from infinity on.
pub(crate) proof fn lemma_smallest<T: Number>(m: Reading<T>, start: T, values: Seq<T>, x: T)
    requires
        reads_order(m),
        call_ensures(T::infinity, (), start),
        values.len() > 0,
        forall|i: int| 0 <= i < values.len() ==> (m.known)(#[trigger] values[i]),
        folds_to(lesser_step::<T>(), start, values, x),
    ensures
        (m.known)(x),
        forall|i: int| 0 <= i < values.len() ==> (m.value)(x) <= (m.value)(#[trigger] values[i]),
        exists|i: int| 0 <= i < values.len() && (m.value)(x) == (m.value)(#[trigger] values[i]),
    decreases values.len(),
{
    let step = lesser_step::<T>();
    let front = values.drop_last();
    let n = values.len() - 1;
    let mid = choose|mid: T|
        folds_to(step, start, front, mid) && #[trigger] step(mid, values.last(), x);
    assert(call_ensures(T::lesser, (mid, values[n]), x));
    if n == 0 {
        assert(mid == start);
    } else {
        assert forall|i: int| 0 <= i < front.len() implies (m.known)(#[trigger] front[i]) by {
            assert(front[i] == values[i]);
        }
        lemma_smallest(m, start, front, mid);
        let w = choose|i: int|
            0 <= i < front.len() && (m.value)(mid) == (m.value)(#[trigger] front[i]);
        assert(values[w] == front[w]);
        assert forall|i: int| 0 <= i < values.len() implies (m.value)(x) <= (m.value)(
            #[trigger] values[i],
        ) by {
            if i < n {
                assert(front[i] == values[i]);
            }
        }
    }
}

/// The largest of some known values, taken from where `start` gives way to the
/// first of them or is known itself.
proof fn lemma_largest<T: Number>(m: Reading<T>, start: T, values: Seq<T>, x: T)
    requires
        reads_order(m),
        call_ensures(T::neg_infinity, (), start),
        values.len() > 0,
        forall|i: int| 0 <= i < values.len() ==> (m.known)(#[trigger] values[i]),
        folds_to(greater_step::<T>(), start, values, x),
    ensures
        (m.known)(x),
        forall|i: int| 0 <= i < values.len() ==> (m.value)(#[trigger] values[i]) <= (m.value)(x),
        exists|i: int| 0 <= i < values.len() && (m.value)(x) == (m.value)(#[trigger] values[i]),
    decreases values.len(),
{
    let step = greater_step::<T>();
    let front = values.drop_last();
    let n = values.len() - 1;
    let mid = choose|mid: T|
        folds_to(step, start, front, mid) && #[trigger] step(mid, values.last(), x);
    assert(call_ensures(T::greater, (mid, values[n]), x));
    if n == 0 {
        assert(mid == start);
    } else {
        assert forall|i: int| 0 <= i < front.len() implies (m.known)(#[trigger] front[i]) by {
            assert(front[i] == values[i]);
        }
        lemma_largest(m, start, front, mid);
        let w = choose|i: int|
            0 <= i < front.len() && (m.value)(mid) == (m.value)(#[trigger] front[i]);
        assert(values[w] == front[w]);
        assert forall|i: int| 0 <= i < values.len() implies (m.value)(#[trigger] values[i]) <= (
        m.value)(x) by {
            if i < n {
                assert(front[i] == values[i]);
            }
        }
    }
}

/// The largest of zero and some known values.
proof fn lemma_largest_from_zero<T: Number>(m: Reading<T>, zero: T, values: Seq<T>, x: T)
    requires
        reads_order(m),
        (m.known)(zero),
        (m.value)(zero) == 0,
        forall|i: int| 0 <= i < values.len() ==> (m.known)(#[trigger] values[i]),
        folds_to(greater_step::<T>(), zero, values, x),
    ensures
        (m.known)(x),
        0 <= (m.value)(x),
        forall|i: int| 0 <= i < values.len() ==> (m.value)(#[trigger] values[i]) <= (m.value)(x),
        (m.value)(x) == 0 || exists|i: int|
            0 <= i < values.len() && (m.value)(x) == (m.value)(#[trigger] values[i]),
    decreases values.len(),
{
    let step = greater_step::<T>();
    if values.len() > 0 {
        let front = values.drop_last();
        let n = values.len() - 1;
        let mid = choose|mid: T|
            folds_to(step, zero, front, mid) && #[trigger] step(mid, values.last(), x);
        assert(call_ensures(T::greater, (mid, values[n]), x));
        assert forall|i: int| 0 <= i < front.len() implies (m.known)(#[trigger] front[i]) by {
            assert(front[i] == values[i]);
        }
        lemma_largest_from_zero(m, zero, front, mid);
        if (m.value)(mid) != 0 {
            let w = choose|i: int|
                0 <= i < front.len() && (m.value)(mid) == (m.value)(#[trigger] front[i]);
            assert(values[w] == front[w]);
        }
        assert forall|i: int| 0 <= i < values.len() implies (m.value)(#[trigger] values[i]) <= (
        m.value)(x) by {
            if i < n {
                assert(front[i] == values[i]);
            }
        }
    }
}

/// A quotient is known where it is no more than `most`.
proof fn lemma_quotient_is_known(u: int, top: int, a: int, b: int, most: int)
    requires
        u > 0,
        b > 0,
        0 <= a <= most * b,
        0 <= most,
        most * u <= top,
    ensures
        size(a) * u <= top * b,
{
    assert(a * u <= top * b) by (nonlinear_arith)
        requires
            u > 0,
            b > 0,
            0 <= a <= most * b,
            most * u <= top,
    {
        assert(a * u <= (most * b) * u);
        assert((most * b) * u == (most * u) * b);
        assert((most * u) * b <= top * b);
    }
}

/// How a scale follows from the ends of a sub-block.
proof fn lemma_scale_reads<T: Number>(m: Reading<T>, low: T, high: T, scale: T)
    requires
        reads_levels(m),
        (m.known)(low),
        (m.known)(high),
        (m.value)(low) <= (m.value)(high),
        4 * ((m.value)(high) - (m.value)(low)) <= m.top,
        is_sub_block_scale(low, high, scale),
    ensures
        (m.known)(scale),
        0 <= (m.value)(scale),
        ({
            let s = (m.value)(scale);
            let range = (m.value)(high) - (m.value)(low);
            &&& m.precision * size(15 * s - range) <= 3 * range + 15 * m.precision
            &&& range <= 15 * s + 15 + range / 100
        }),
{
    let p = m.precision;
    let u = m.unit;
    let range = (m.value)(high) - (m.value)(low);
    let above = choose|above: bool|
        {
            &&& #[trigger] call_ensures(T::exceeds, (high, low), above)
            &&& if above {
                exists|range: T, levels: T|
                    {
                        &&& call_ensures(T::minus, (high, low), range)
                        &&& call_ensures(T::decimal, (15i32, 0i32), levels)
                        &&& #[trigger] call_ensures(T::over, (range, levels), scale)
                    }
            } else {
                call_ensures(T::decimal, (0i32, 0i32), scale)
            }
        };
    assert(above == (range > 0));
    if above {
        let (span, levels) = choose|range: T, levels: T|
            {
                &&& call_ensures(T::minus, (high, low), range)
                &&& call_ensures(T::decimal, (15i32, 0i32), levels)
                &&& #[trigger] call_ensures(T::over, (range, levels), scale)
            };
        let r = (m.value)(span);
        let s = (m.value)(scale);
        assert(is_near(p, r, range, 0));
        assert(0 <= r <= 2 * range) by (nonlinear_arith)
            requires
                p * size(r - range) <= range,
                range > 0,
                p >= 1000,
        ;
        assert((m.value)(levels) == 15 * u);
        assert(r * u <= m.top * (15 * u)) by (nonlinear_arith)
            requires
                0 <= r <= m.top,
                u > 0,
        ;
        assert(is_near(p, s * (15 * u), r * u, 15 * u));
        assert(s * (15 * u) == (s * 15) * u) by (nonlinear_arith);
        lemma_near_cancel(p, s * 15, r, 15, u);
        lemma_scale_bound(p, range, r, s);
        lemma_scale_is_not_negative(p, range, r, s);
    } else {
        assert(p * 0 == 0);
    }
}

/// How a quant follows from a value: the level is within half a step of it.
proof fn lemma_quant_reads<T: Number>(
    m: Reading<T>,
    value: T,
    low: T,
    high: T,
    scale: T,
    quant: u8,
)
    requires
        reads_levels(m),
        (m.known)(value),
        (m.known)(low),
        (m.known)(high),
        (m.known)(scale),
        (m.value)(low) <= (m.value)(value) <= (m.value)(high),
        4 * ((m.value)(high) - (m.value)(low)) <= m.top,
        0 <= (m.value)(scale),
        ({
            let s = (m.value)(scale);
            let range = (m.value)(high) - (m.value)(low);
            &&& m.precision * size(15 * s - range) <= 3 * range + 15 * m.precision
            &&& range <= 15 * s + 15 + range / 100
        }),
        is_quant(value, low, scale, quant),
    ensures
        quant <= 15,
        (m.value)(scale) == 0 ==> quant == 0,
        2 * m.precision * size(quant * (m.value)(scale) - ((m.value)(value) - (m.value)(low))) <= (
        m.precision + 300) * (m.value)(scale) + 30 * m.precision,
{
    let p = m.precision;
    let u = m.unit;
    let s = (m.value)(scale);
    let range = (m.value)(high) - (m.value)(low);
    let exact = (m.value)(value) - (m.value)(low);
    let (zero, positive) = choose|zero: T, positive: bool|
        {
            &&& call_ensures(T::decimal, (0i32, 0i32), zero)
            &&& #[trigger] call_ensures(T::exceeds, (scale, zero), positive)
            &&& if positive {
                exists|level: u8| #[trigger]
                    is_level(value, low, scale, level) && quant == if level < 15 {
                        level
                    } else {
                        15
                    }
            } else {
                quant == 0
            }
        };
    assert(0 * u == 0);
    assert(positive == (s > 0));
    if positive {
        let level = choose|level: u8| #[trigger]
            is_level(value, low, scale, level) && quant == if level < 15 {
                level
            } else {
                15
            };
        let (offset, ratio, half, rounded) = choose|offset: T, ratio: T, half: T, rounded: T|
            {
                &&& call_ensures(T::minus, (value, low), offset)
                &&& #[trigger] call_ensures(T::over, (offset, scale), ratio)
                &&& call_ensures(T::decimal, (5i32, -1i32), half)
                &&& #[trigger] call_ensures(T::plus, (ratio, half), rounded)
                &&& call_ensures(T::to_u8, (rounded,), level)
            };
        let d = (m.value)(offset);
        let x = (m.value)(ratio);
        let h = (m.value)(half);
        let r = (m.value)(rounded);
        assert(range <= 31 * s);
        assert(is_near(p, d, exact, 0));
        assert(0 <= d <= 32 * s) by (nonlinear_arith)
            requires
                p * size(d - exact) <= exact,
                0 <= exact <= 31 * s,
                p >= 1000,
        ;
        lemma_quotient_is_known(u, m.top, d, s, 32);
        assert(is_near(p, x * s, d * u, s));
        lemma_ratio_bound(p, u, s, d, x, 32);
        assert(x <= 65 * u);
        assert(size(x + h) <= m.top);
        assert(is_near(p, r, x + h, 0));
        lemma_level_bound(p, u, h, s, d, x, r, level as int, 32);
        lemma_level_bound(p, u, h, s, d, x, r, 16, 32);
        lemma_quant_error(p, u, s, range, exact, d, r, level as int);
    } else {
        assert(range <= 15);
        assert(2 * p * size(0 - exact) <= 30 * p) by (nonlinear_arith)
            requires
                0 <= exact <= 15,
                p >= 0,
        ;
        assert(quant * s == 0 && (p + 300) * s == 0) by (nonlinear_arith)
            requires
                s == 0,
        ;
    }
}

/// The bound on the level of a difference that is itself off by little.
proof fn lemma_quant_error(
    p: int,
    u: int,
    s: int,
    range: int,
    exact: int,
    d: int,
    r: int,
    level: int,
)
    requires
        p >= 1000,
        u > 0,
        s > 0,
        0 <= exact <= range <= 31 * s,
        p * size(15 * s - range) <= 3 * range + 15 * p,
        is_near(p, d, exact, 0),
        r >= 0,
        0 <= level <= 255,
        (level * u <= r < (level + 1) * u) || (level == 255 && r >= 255 * u),
        level * u <= r < (level + 1) * u ==> 2 * p * size(level * s - d) <= (p + 200) * s,
        16 * u <= r ==> 2 * p * (16 * s - d) <= (p + 200) * s,
    ensures
        2 * p * size((if level < 15 {
            level
        } else {
            15
        }) * s - exact) <= (p + 300) * s + 30 * p,
{
    assert(2 * p * size(d - exact) <= 62 * s) by (nonlinear_arith)
        requires
            p * size(d - exact) <= exact,
            exact <= 31 * s,
    ;
    if level <= 15 {
        let q = level * s;
        assert(2 * p * size(q - exact) <= (p + 300) * s) by (nonlinear_arith)
            requires
                2 * p * size(q - d) <= (p + 200) * s,
                2 * p * size(d - exact) <= 62 * s,
                p >= 1000,
                s > 0,
        {
            assert(size(q - exact) <= size(q - d) + size(d - exact));
            assert(2 * p * size(q - exact) <= 2 * p * (size(q - d) + size(d - exact)));
            assert(2 * p * (size(q - d) + size(d - exact)) == 2 * p * size(q - d) + 2 * p * size(
                d - exact,
            ));
            assert((p + 200) * s + 62 * s <= (p + 300) * s);
        }
    } else {
        assert(16 * u <= r) by (nonlinear_arith)
            requires
                level >= 16,
                level * u <= r || r >= 255 * u,
                u > 0,
        ;
        assert(2 * p * size(15 * s - exact) <= (p + 300) * s + 30 * p) by (nonlinear_arith)
            requires
                2 * p * (16 * s - d) <= (p + 200) * s,
                2 * p * size(d - exact) <= 62 * s,
                p * size(15 * s - range) <= 3 * range + 15 * p,
                exact <= range <= 31 * s,
                p >= 1000,
                s > 0,
        {
            let under = 15 * s - exact;
            assert(2 * p * under == 2 * p * (16 * s - d) - 2 * p * s + 2 * p * (d - exact));
            assert(2 * p * (d - exact) <= 2 * p * size(d - exact));
            assert(2 * p * under <= (p + 200) * s - 2 * p * s + 62 * s);
            assert((p + 200) * s - 2 * p * s + 62 * s == (262 - p) * s);
            assert((262 - p) * s <= 0);
            assert(under <= 0);
            assert(-under <= range - 15 * s);
            assert(p * (-under) <= p * (range - 15 * s));
            assert(p * (range - 15 * s) <= p * size(15 * s - range));
            assert(2 * (3 * range + 15 * p) <= 186 * s + 30 * p);
            assert((p + 300) * s >= 186 * s);
        }
    }
}

/// The offset of a sub-block reaches down to its lowest value and no further, its
/// scale is a fifteenth of the way from there to its highest value, and every value
/// is within half a scale of its quant. All is up to the precision, and without a
/// scale there is no quant.
pub open spec fn follows_values(
    p: int,
    values: Seq<int>,
    scale: int,
    offset: int,
    quants: Seq<u8>,
) -> bool {
    &&& 0 <= scale
    &&& 0 <= offset
    &&& forall|i: int| 0 <= i < values.len() ==> 0 <= #[trigger] values[i] + offset
    &&& offset == 0 || exists|i: int| 0 <= i < values.len() && #[trigger] values[i] == -offset
    &&& exists|j: int|
        {
            &&& 0 <= j < values.len()
            &&& forall|i: int| 0 <= i < values.len() ==> #[trigger] values[i] <= values[j]
            &&& p * size(15 * scale - (#[trigger] values[j] + offset)) <= 3 * (values[j] + offset)
                + 15 * p
        }
    &&& quants.len() == values.len()
    &&& forall|i: int|
        0 <= i < values.len() ==> #[trigger] quants[i] <= 15 && 2 * p * size(
            quants[i] * scale - (values[i] + offset),
        ) <= (p + 300) * scale + 30 * p && (scale == 0 ==> quants[i] == 0)
}

/// The values of some numbers.
pub open spec fn readings<T>(m: Reading<T>, numbers: Seq<T>) -> Seq<int> {
    Seq::new(numbers.len(), |i: int| (m.value)(numbers[i]))
}

/// How a sub-block follows from its values.
pub(crate) proof fn lemma_sub_block_reads<T: Number>(
    m: Reading<T>,
    values: Seq<T>,
    scale: T,
    offset: T,
    quants: Seq<u8>,
    most: int,
)
    requires
        reads_levels(m),
        values.len() > 0,
        are_readable(m, values, most),
        is_sub_block(values, scale, offset, quants),
    ensures
        (m.known)(scale),
        (m.known)(offset),
        (m.value)(scale) <= most,
        (m.value)(offset) <= most,
        follows_values(
            m.precision,
            readings(m, values),
            (m.value)(scale),
            (m.value)(offset),
            quants,
        ),
{
    let p = m.precision;
    let read = readings(m, values);
    let (low, high) = choose|low: T, high: T|
        {
            &&& #[trigger] is_sub_block_low(values, low)
            &&& #[trigger] is_sub_block_high(values, high)
            &&& is_sub_block_between(values, low, high, scale, offset, quants)
        };
    let (start, smallest, zero) = choose|start: T, smallest: T, zero: T|
        {
            &&& #[trigger] call_ensures(T::infinity, (), start)
            &&& folds_to(lesser_step::<T>(), start, values, smallest)
            &&& call_ensures(T::decimal, (0i32, 0i32), zero)
            &&& #[trigger] call_ensures(T::lesser, (smallest, zero), low)
        };
    let bottom = choose|start: T| #[trigger]
        call_ensures(T::neg_infinity, (), start) && folds_to(
            greater_step::<T>(),
            start,
            values,
            high,
        );
    lemma_smallest(m, start, values, smallest);
    lemma_largest(m, bottom, values, high);
    assert(0 * m.unit == 0);
    assert((m.value)(zero) == 0);
    let s = (m.value)(scale);
    let o = (m.value)(offset);
    let first = choose|i: int|
        0 <= i < values.len() && (m.value)(smallest) == (m.value)(#[trigger] values[i]);
    let last = choose|i: int|
        0 <= i < values.len() && (m.value)(high) == (m.value)(#[trigger] values[i]);
    assert(read[first] == (m.value)(smallest));
    assert(read[last] == (m.value)(high));
    assert(o == -(m.value)(low));
    assert((m.value)(low) <= (m.value)(smallest) <= (m.value)(high));
    lemma_scale_reads(m, low, high, scale);
    let range = (m.value)(high) - (m.value)(low);
    assert(15 * s <= 2 * range + 15) by (nonlinear_arith)
        requires
            p * size(15 * s - range) <= 3 * range + 15 * p,
            p >= 1000,
            range >= 0,
    ;
    assert forall|i: int| 0 <= i < values.len() implies 0 <= #[trigger] read[i] + o by {
        assert((m.value)(values[i]) >= (m.value)(smallest));
    }
    assert forall|i: int| 0 <= i < values.len() implies #[trigger] read[i] <= read[last] by {
        assert((m.value)(values[i]) <= (m.value)(high));
    }
    assert(read[last] + o == range);
    assert forall|i: int| 0 <= i < values.len() implies #[trigger] quants[i] <= 15 && 2 * p * size(
        quants[i] * s - (read[i] + o),
    ) <= (p + 300) * s + 30 * p && (s == 0 ==> quants[i] == 0) by {
        assert((m.known)(values[i]));
        lemma_quant_reads(m, values[i], low, high, scale, quants[i]);
    }
}

/// A sub-block follows from its values.
pub proof fn law_sub_block_follows_values<T: Number>(
    m: Reading<T>,
    values: &[T],
    sub: SubBlock<T>,
    most: int,
)
    requires
        reads_levels(m),
        values@.len() > 0,
        are_readable(m, values@, most),
        call_ensures(quantize_sub_block::<T>, (values,), sub),
    ensures
        follows_values(
            m.precision,
            readings(m, values@),
            (m.value)(sub.scale),
            (m.value)(sub.offset),
            sub.quants@,
        ),
{
    lemma_sub_block_reads(m, values@, sub.scale, sub.offset, sub.quants@, most);
}

/// A 63rd of the largest mark is off by little.
proof fn lemma_factor_bound(p: int, largest: int, f: int)
    requires
        p >= 1000,
        largest >= 0,
        is_near(p, f * 63, largest, 63),
    ensures
        p * size(63 * f - largest) <= largest + 63 * p,
        f >= -1,
        f > 0 ==> largest <= 127 * f,
        f <= 0 ==> largest <= 64,
        f == -1 ==> largest == 0,
        63 * f <= 2 * largest + 63,
{
    assert(f >= -1 && (f > 0 ==> largest <= 127 * f) && (f <= 0 ==> largest <= 64) && (f == -1
        ==> largest == 0) && 63 * f <= 2 * largest + 63) by (nonlinear_arith)
        requires
            p >= 1000,
            largest >= 0,
            p * size(f * 63 - largest) <= largest + p * 63,
    {
        assert(p * (largest - 63 * f) <= largest + 63 * p);
        assert(p * (63 * f - largest) <= largest + 63 * p);
        if f <= -2 {
            assert(p * (largest + 126) <= p * (largest - 63 * f));
            assert(p * (largest + 126) == p * largest + 126 * p);
            assert(p * largest >= largest);
        }
        if f > 0 && largest > 127 * f {
            let more = largest - 127 * f;
            assert(p * (more + 64 * f) <= largest + 63 * p);
            assert(p * (more + 64 * f) == p * more + p * (64 * f));
            assert(p * (64 * f) >= 64 * p * 1) by (nonlinear_arith)
                requires
                    p >= 1000,
                    f >= 1,
            ;
            assert(p * more >= 1000 * more);
            assert(p * (64 * f) == 63 * (p * f) + p * f);
            assert(p * f >= 1000 * f);
            assert(63 * (p * f) >= 63 * p);
        }
        if f <= 0 && largest > 64 {
            assert(p * largest <= p * (largest - 63 * f)) by (nonlinear_arith)
                requires
                    f <= 0,
                    p >= 1000,
            ;
            assert(p * largest >= p * 65 && p * (largest - 65) >= 1000 * (largest - 65));
            assert(p * largest == p * (largest - 65) + 65 * p);
        }
        if f == -1 && largest > 0 {
            assert(p * (largest + 63) == p * largest + 63 * p);
            assert(p * largest >= 1000 * largest);
        }
        if 63 * f > 2 * largest + 63 {
            let more = 63 * f - largest;
            assert(p * more >= p * (largest + 64));
            assert(p * (largest + 64) == p * largest + 64 * p);
            assert(p * largest >= largest);
        }
    }
}

/// The bound on a 6-bit level, capped at 63.
proof fn lemma_six_bit_error(
    p: int,
    u: int,
    f: int,
    largest: int,
    a: int,
    r: int,
    level: int,
)
    requires
        p >= 1000,
        u > 0,
        f > 0,
        0 <= a <= largest <= 127 * f,
        p * size(63 * f - largest) <= largest + 63 * p,
        r >= 0,
        r < 63 * u ==> level * u <= r < (level + 1) * u,
        r >= 63 * u ==> level == 63,
        level * u <= r < (level + 1) * u ==> 2 * p * size(level * f - a) <= (p + 770) * f,
        63 * u <= r ==> 2 * p * (63 * f - a) <= (p + 770) * f,
    ensures
        2 * p * size(level * f - a) <= (p + 770) * f + 128 * p,
{
    if r >= 63 * u {
        assert(2 * p * (a - 63 * f) <= (p + 770) * f + 128 * p) by (nonlinear_arith)
            requires
                0 <= a <= largest <= 127 * f,
                p * size(63 * f - largest) <= largest + 63 * p,
                p >= 1000,
                f > 0,
        {
            assert(p * (a - 63 * f) <= p * (largest - 63 * f));
            assert(p * (largest - 63 * f) <= p * size(63 * f - largest));
            assert(2 * (largest + 63 * p) <= 254 * f + 126 * p);
            assert((p + 770) * f >= 254 * f);
        }
    }
}

/// A 63rd of the largest of the marks is the factor, and every mark is within half
/// a factor of its level. All is up to the precision, and without a factor there is
/// no level.
pub open spec fn follows_marks(p: int, marks: Seq<int>, factor: int, levels: Seq<u8>) -> bool {
    &&& exists|largest: int|
        {
            &&& 0 <= largest
            &&& forall|j: int| 0 <= j < marks.len() ==> #[trigger] marks[j] <= largest
            &&& largest == 0 || marks.contains(largest)
            &&& p * #[trigger] size(63 * factor - largest) <= largest + 63 * p
        }
    &&& levels.len() == marks.len()
    &&& forall|j: int|
        0 <= j < marks.len() ==> #[trigger] levels[j] <= 63 && 2 * p * size(
            levels[j] * factor - marks[j],
        ) <= (p + 770) * factor + 128 * p && (factor <= 0 ==> levels[j] == 0)
}

/// How a 6-bit level follows from a mark.
proof fn lemma_six_bit_reads<T: Number>(
    m: Reading<T>,
    value: T,
    factor: T,
    largest: int,
    quant: u8,
)
    requires
        reads_levels(m),
        (m.known)(value),
        (m.known)(factor),
        0 <= (m.value)(value) <= largest,
        is_near(m.precision, (m.value)(factor) * 63, largest, 63),
        is_six_bit_quant(value, factor, quant),
    ensures
        quant <= 63,
        (m.value)(factor) <= 0 ==> quant == 0,
        2 * m.precision * size(quant * (m.value)(factor) - (m.value)(value)) <= (m.precision + 770)
            * (m.value)(factor) + 128 * m.precision,
{
    let p = m.precision;
    let u = m.unit;
    let f = (m.value)(factor);
    let a = (m.value)(value);
    lemma_factor_bound(p, largest, f);
    let (zero, positive) = choose|zero: T, positive: bool|
        {
            &&& call_ensures(T::decimal, (0i32, 0i32), zero)
            &&& #[trigger] call_ensures(T::exceeds, (factor, zero), positive)
            &&& if positive {
                is_six_bit_level(value, factor, quant)
            } else {
                quant == 0
            }
        };
    assert(0 * u == 0);
    assert(positive == (f > 0));
    if positive {
        let (ratio, half, rounded, limit, capped) = choose|
            ratio: T,
            half: T,
            rounded: T,
            limit: T,
            capped: T,
        |
            {
                &&& #[trigger] call_ensures(T::over, (value, factor), ratio)
                &&& call_ensures(T::decimal, (5i32, -1i32), half)
                &&& #[trigger] call_ensures(T::plus, (ratio, half), rounded)
                &&& call_ensures(T::decimal, (63i32, 0i32), limit)
                &&& #[trigger] call_ensures(T::lesser, (rounded, limit), capped)
                &&& call_ensures(T::to_u8, (capped,), quant)
            };
        let x = (m.value)(ratio);
        let h = (m.value)(half);
        let r = (m.value)(rounded);
        let c = (m.value)(capped);
        lemma_quotient_is_known(u, m.top, a, f, 127);
        assert(is_near(p, x * f, a * u, f));
        lemma_ratio_bound(p, u, f, a, x, 127);
        assert(x <= 255 * u);
        assert(size(x + h) <= m.top);
        assert(is_near(p, r, x + h, 0));
        lemma_level_bound(p, u, h, f, a, x, r, quant as int, 127);
        lemma_level_bound(p, u, h, f, a, x, r, 63, 127);
        assert((m.value)(limit) == 63 * u);
        assert(c == if r < 63 * u {
            r
        } else {
            63 * u
        });
        assert(quant * u <= c < (quant + 1) * u);
        assert(quant <= 63 && (r >= 63 * u ==> quant == 63)) by (nonlinear_arith)
            requires
                quant * u <= c < (quant + 1) * u,
                c <= 63 * u,
                r >= 63 * u ==> c == 63 * u,
                u > 0,
        ;
        lemma_six_bit_error(p, u, f, largest, a, r, quant as int);
    } else {
        assert(2 * p * size(quant * f - a) <= (p + 770) * f + 128 * p) by (nonlinear_arith)
            requires
                quant == 0,
                f == 0 || (f == -1 && a == 0),
                0 <= a <= 64,
                p >= 1000,
        ;
    }
}

/// How a factor and 6-bit levels follow from marks.
proof fn lemma_marks_read<T: Number>(
    m: Reading<T>,
    marks: Seq<T>,
    factor: T,
    quants: Seq<u8>,
    most: int,
)
    requires
        reads_levels(m),
        most <= m.top,
        marks.len() == SUB_BLOCKS,
        forall|j: int|
            0 <= j < marks.len() ==> (m.known)(#[trigger] marks[j]) && 0 <= (m.value)(marks[j])
                <= most,
        is_super_scale(marks, factor),
        are_six_bit_quants(marks, factor, quants),
    ensures
        (m.known)(factor),
        -1 <= (m.value)(factor),
        63 * (m.value)(factor) <= 2 * most + 63,
        follows_marks(m.precision, readings(m, marks), (m.value)(factor), quants),
{
    let p = m.precision;
    let u = m.unit;
    let f = (m.value)(factor);
    let read = readings(m, marks);
    let (zero, largest, levels) = choose|zero: T, largest: T, levels: T|
        {
            &&& #[trigger] call_ensures(T::decimal, (0i32, 0i32), zero)
            &&& folds_to(greater_step::<T>(), zero, marks, largest)
            &&& call_ensures(T::decimal, (63i32, 0i32), levels)
            &&& #[trigger] call_ensures(T::over, (largest, levels), factor)
        };
    assert(0 * u == 0);
    lemma_largest_from_zero(m, zero, marks, largest);
    let l = (m.value)(largest);
    assert(0 <= most) by {
        assert((m.known)(marks[0]));
    }
    assert(l <= most);
    assert((m.value)(levels) == 63 * u);
    assert(l * u <= m.top * (63 * u)) by (nonlinear_arith)
        requires
            0 <= l <= m.top,
            u > 0,
    ;
    assert(f * (63 * u) == (f * 63) * u) by (nonlinear_arith);
    lemma_near_cancel(p, f * 63, l, 63, u);
    lemma_factor_bound(p, l, f);
    if l != 0 {
        let w = choose|j: int| 0 <= j < marks.len() && l == (m.value)(#[trigger] marks[j]);
        assert(read[w] == l);
        assert(read.contains(l));
    }
    assert forall|j: int| 0 <= j < read.len() implies #[trigger] read[j] <= l by {
        assert((m.value)(marks[j]) <= l);
    }
    assert(p * size(63 * f - l) <= l + 63 * p);
    assert forall|j: int| 0 <= j < read.len() implies #[trigger] quants[j] <= 63 && 2 * p * size(
        quants[j] * f - read[j],
    ) <= (p + 770) * f + 128 * p && (f <= 0 ==> quants[j] == 0) by {
        assert((m.known)(marks[j]) && (m.value)(marks[j]) <= l);
        lemma_six_bit_reads(m, marks[j], factor, l, quants[j]);
    }
}

/// The scales, the offsets and the quants of eight sub-blocks follow from 256
/// values.
pub open spec fn sub_blocks_follow_values(
    p: int,
    values: Seq<int>,
    scales: Seq<int>,
    offsets: Seq<int>,
    quants: Seq<u8>,
) -> bool {
    &&& scales.len() == 8
    &&& offsets.len() == 8
    &&& forall|s: int|
        0 <= s < 8 ==> follows_values(
            p,
            values.subrange(32 * s, 32 * s + 32),
            #[trigger] scales[s],
            offsets[s],
            quants.subrange(32 * s, 32 * s + 32),
        )
}

/// How the parameters of a block follow from the scales and the offsets that they
/// come from.
#[verifier::rlimit(50)]
pub(crate) proof fn lemma_params_read_over<T: Number>(
    m: Reading<T>,
    values: Seq<T>,
    params: BlockParams<T>,
    scales: Seq<T>,
    offsets: Seq<T>,
    most: int,
)
    requires
        reads_levels(m),
        values.len() >= 256,
        are_readable(m, values.take(256), most),
        are_block_params_over(values, params, scales, offsets),
    ensures
        params.quants@.len() == 256,
        forall|s: int|
            0 <= s < 8 ==> (m.known)(#[trigger] scales[s]) && 0 <= (m.value)(scales[s]),
        forall|s: int|
            0 <= s < 8 ==> (m.known)(#[trigger] offsets[s]) && 0 <= (m.value)(offsets[s]),
        (m.known)(params.d),
        (m.known)(params.dmin),
        -1 <= (m.value)(params.d),
        -1 <= (m.value)(params.dmin),
        63 * (m.value)(params.d) <= 2 * most + 63,
        63 * (m.value)(params.dmin) <= 2 * most + 63,
        sub_blocks_follow_values(
            m.precision,
            readings(m, values.take(256)),
            readings(m, scales),
            readings(m, offsets),
            params.quants@,
        ),
        follows_marks(m.precision, readings(m, scales), (m.value)(params.d), params.scales@),
        follows_marks(m.precision, readings(m, offsets), (m.value)(params.dmin), params.mins@),
{
    let read = readings(m, values.take(256));
    let read_scales = readings(m, scales);
    let read_offsets = readings(m, offsets);
    assert forall|s: int| 0 <= s < 8 implies {
        &&& (m.known)(#[trigger] scales[s])
        &&& (m.known)(offsets[s])
        &&& 0 <= (m.value)(scales[s]) <= most
        &&& 0 <= (m.value)(offsets[s]) <= most
        &&& follows_values(
            m.precision,
            read.subrange(32 * s, 32 * s + 32),
            read_scales[s],
            read_offsets[s],
            params.quants@.subrange(32 * s, 32 * s + 32),
        )
    } by {
        let sub = sub_block(values, s);
        assert forall|i: int| 0 <= i < sub.len() implies (m.known)(#[trigger] sub[i]) && size(
            (m.value)(sub[i]),
        ) <= most by {
            assert(values.take(256)[s * 32 + i] == sub[i]);
        }
        lemma_sub_block_reads(m, sub, scales[s], offsets[s], sub_block(params.quants@, s), most);
        assert(readings(m, sub) =~= read.subrange(32 * s, 32 * s + 32));
        assert(sub_block(params.quants@, s) =~= params.quants@.subrange(32 * s, 32 * s + 32));
    }
    assert forall|s: int| 0 <= s < 8 implies (m.known)(#[trigger] offsets[s]) && 0 <= (m.value)(
        offsets[s],
    ) <= most by {
        assert((m.known)(scales[s]));
    }
    lemma_marks_read(m, scales, params.d, params.scales@, most);
    lemma_marks_read(m, offsets, params.dmin, params.mins@, most);
    assert forall|s: int| 0 <= s < 8 implies follows_values(
        m.precision,
        read.subrange(32 * s, 32 * s + 32),
        #[trigger] read_scales[s],
        read_offsets[s],
        params.quants@.subrange(32 * s, 32 * s + 32),
    ) by {
        assert((m.known)(scales[s]));
    }
}

/// The scales and the offsets that the parameters of a block come from.
proof fn lemma_params_read<T: Number>(
    m: Reading<T>,
    values: Seq<T>,
    params: BlockParams<T>,
    most: int,
) -> (marks: (Seq<int>, Seq<int>))
    requires
        reads_levels(m),
        values.len() >= 256,
        are_readable(m, values.take(256), most),
        are_block_params(values, params),
    ensures
        params.quants@.len() == 256,
        (m.known)(params.d),
        (m.known)(params.dmin),
        -1 <= (m.value)(params.d),
        -1 <= (m.value)(params.dmin),
        63 * (m.value)(params.d) <= 2 * most + 63,
        63 * (m.value)(params.dmin) <= 2 * most + 63,
        sub_blocks_follow_values(
            m.precision,
            readings(m, values.take(256)),
            marks.0,
            marks.1,
            params.quants@,
        ),
        follows_marks(m.precision, marks.0, (m.value)(params.d), params.scales@),
        follows_marks(m.precision, marks.1, (m.value)(params.dmin), params.mins@),
{
    let (scales, offsets) = choose|scales: Seq<T>, offsets: Seq<T>|
        are_block_params_over(values, params, scales, offsets);
    lemma_params_read_over(m, values, params, scales, offsets, most);
    (readings(m, scales), readings(m, offsets))
}

/// The parameters of a block follow from its values.
pub proof fn law_params_follow_values<T: Number>(
    m: Reading<T>,
    values: &[T],
    params: BlockParams<T>,
    most: int,
)
    requires
        reads_levels(m),
        values@.len() >= 256,
        are_readable(m, values@.take(256), most),
        call_ensures(block_params::<T>, (values,), params),
    ensures
        exists|scales: Seq<int>, offsets: Seq<int>|
            {
                &&& #[trigger] sub_blocks_follow_values(
                    m.precision,
                    readings(m, values@.take(256)),
                    scales,
                    offsets,
                    params.quants@,
                )
                &&& follows_marks(m.precision, scales, (m.value)(params.d), params.scales@)
                &&& follows_marks(m.precision, offsets, (m.value)(params.dmin), params.mins@)
            },
{
    let marks = lemma_params_read(m, values@, params, most);
}

/// What is off by one part in many is off by one part in fewer.
proof fn lemma_half_slack(precision: int, got: int, exact: int, extra: int)
    requires
        precision >= 2000,
        extra >= 0,
        is_near(precision, got, exact, extra),
    ensures
        2000 * size(got - exact) <= size(exact) + 2000 * extra,
{
    let off = size(got - exact);
    assert(2000 * off <= size(exact) + 2000 * extra) by (nonlinear_arith)
        requires
            precision * off <= size(exact) + precision * extra,
            precision >= 2000,
    {
        if off > extra {
            assert(2000 * (off - extra) <= precision * (off - extra));
        }
    }
}

/// Half a step, up to the precision, is half a step up to a thousandth.
proof fn lemma_step_slack(p: int, off: int, step: int, more: int, extra: int)
    requires
        p >= 1_000_000,
        0 <= more <= 1000,
        step >= -1,
        2 * p * off <= (p + more) * step + extra * p,
    ensures
        2000 * off <= 1001 * step + 1000 * extra + 1001,
{
    assert(2000 * off <= 1001 * step + 1000 * extra + 1001) by (nonlinear_arith)
        requires
            p >= 1_000_000,
            0 <= more <= 1000,
            step >= -1,
            2 * p * off <= (p + more) * step + extra * p,
    {
        assert(1000 * ((p + more) * step) <= p * (1001 * step + 1001)) by (nonlinear_arith)
            requires
                p >= 1_000_000,
                0 <= more <= 1000,
                step >= -1,
        {
            if step >= 0 {
                assert(1000 * more * step <= p * step);
            } else {
                assert(step == -1);
            }
        }
        assert(p * (2000 * off) <= p * (1001 * step + 1001) + 1000 * (extra * p));
        assert(p * (1001 * step + 1001) + 1000 * (extra * p) == p * (1001 * step + 1001 + 1000
            * extra));
    }
}

/// The product of a difference with a small factor.
proof fn lemma_small_factor(off: int, factor: int, most: int)
    requires
        0 <= factor <= most,
    ensures
        size(off * factor) <= most * size(off),
{
    assert(size(off * factor) <= most * size(off)) by (nonlinear_arith)
        requires
            0 <= factor <= most,
    ;
}

/// The bound on a restored value.
#[verifier::rlimit(50)]
proof fn lemma_restored_bound(
    d: int,
    read_d: int,
    dmin: int,
    read_dmin: int,
    w: int,
    sc: int,
    mn: int,
    q: int,
    s: int,
    o: int,
    v: int,
)
    requires
        d >= -1,
        dmin >= -1,
        w >= 0,
        0 <= sc <= 63,
        0 <= mn <= 63,
        0 <= q <= 15,
        2000 * size(read_d - d) <= size(d) + 2000 * w,
        2000 * size(read_dmin - dmin) <= size(dmin) + 2000 * w,
        2000 * size(sc * d - s) <= 1001 * d + 129001,
        2000 * size(q * s - (v + o)) <= 1001 * s + 31001,
        2000 * size(mn * dmin - o) <= 1001 * dmin + 129001,
    ensures
        2 * size(read_d * sc * q - read_dmin * mn - v) <= read_d * (sc + 18) + 2 * read_dmin + 3000
            * w + 3000,
{
    let t1 = (read_d - d) * (sc * q);
    let t2 = (sc * d - s) * q;
    let t5 = (dmin - read_dmin) * mn;
    assert(0 <= sc * q <= 945) by (nonlinear_arith)
        requires
            0 <= sc <= 63,
            0 <= q <= 15,
    ;
    lemma_small_factor(read_d - d, sc * q, 945);
    lemma_small_factor(sc * d - s, q, 15);
    lemma_small_factor(dmin - read_dmin, mn, 63);
    let off = read_d * sc * q - read_dmin * mn - v;
    assert(t1 == read_d * sc * q - sc * d * q) by (nonlinear_arith)
        requires
            t1 == (read_d - d) * (sc * q),
    ;
    assert(t2 == sc * d * q - q * s) by (nonlinear_arith)
        requires
            t2 == (sc * d - s) * q,
    ;
    assert(t5 == mn * dmin - read_dmin * mn) by (nonlinear_arith)
        requires
            t5 == (dmin - read_dmin) * mn,
    ;
    assert(off == t1 + t2 + (q * s - (v + o)) + (o - mn * dmin) + t5);
    let scd = sc * d;
    let scr = sc * read_d;
    lemma_small_factor(read_d - d, sc, 63);
    assert(scr - scd == (read_d - d) * sc) by (nonlinear_arith)
        requires
            scd == sc * d,
            scr == sc * read_d,
    ;
    assert(-63 <= scd <= 63 * size(d)) by (nonlinear_arith)
        requires
            scd == sc * d,
            0 <= sc <= 63,
            d >= -1,
    ;
    assert(read_d * (sc + 18) == scr + 18 * read_d) by (nonlinear_arith)
        requires
            scr == sc * read_d,
    ;
    let off_d = size(read_d - d);
    let off_dmin = size(read_dmin - dmin);
    let off_scale = size(scd - s);
    let off_quant = size(q * s - (v + o));
    let off_min = size(mn * dmin - o);
    assert(size(off) <= 945 * off_d + 15 * off_scale + off_quant + off_min + 63 * off_dmin);
    lemma_offs_add_up(
        d,
        read_d,
        dmin,
        read_dmin,
        w,
        scd,
        scr,
        s,
        off_d,
        off_dmin,
        off_scale,
        off_quant,
        off_min,
        size(off),
    );
}

/// What a restored value is off by in all, from what its parts are off by.
#[verifier::rlimit(50)]
proof fn lemma_offs_add_up(
    d: int,
    read_d: int,
    dmin: int,
    read_dmin: int,
    w: int,
    scd: int,
    scr: int,
    s: int,
    off_d: int,
    off_dmin: int,
    off_scale: int,
    off_quant: int,
    off_min: int,
    off: int,
)
    requires
        d >= -1,
        dmin >= -1,
        w >= 0,
        2000 * off_d <= d + 2 + 2000 * w,
        2000 * off_dmin <= dmin + 2 + 2000 * w,
        2000 * off_scale <= 1001 * d + 129001,
        2000 * off_quant <= 1001 * s + 31001,
        2000 * off_min <= 1001 * dmin + 129001,
        d <= read_d + off_d,
        dmin <= read_dmin + off_dmin,
        s <= scd + off_scale,
        scd <= scr + 63 * off_d,
        scd <= 63 * (d + 2),
        off <= 945 * off_d + 15 * off_scale + off_quant + off_min + 63 * off_dmin,
    ensures
        2 * off <= scr + 18 * read_d + 2 * read_dmin + 3000 * w + 3000,
{
    assert(2000 * s <= 2000 * scd + 1001 * d + 129001);
    assert(2000 * off <= 945 * (d + 2 + 2000 * w) + 15 * (1001 * d + 129001) + 1001 * s + 31001
        + 1001 * dmin + 129001 + 63 * (dmin + 2 + 2000 * w));
    assert(2000 * off <= 15960 * d + 1001 * s + 1064 * dmin + 2016000 * w + 2097100);
    assert(1001 * s <= 1001 * scd + 502 * d + 65100);
    assert(1001 * scd <= 1000 * scd + 63 * d + 126);
    assert(2000 * off <= 1000 * scd + 16525 * d + 1064 * dmin + 2016000 * w + 2162400);
    assert(2000 * d <= 2000 * read_d + d + 2 + 2000 * w);
    assert(2000 * dmin <= 2000 * read_dmin + dmin + 2 + 2000 * w);
    assert(2000 * scd <= 2000 * scr + 63 * (d + 2 + 2000 * w));
}

/// The bits of a byte that is put together of six bits and two, and of one that is
/// put together of four and four.
proof fn lemma_bits_of_byte(a: u8, b: u8)
    ensures
        ((a & 63) | ((b >> 4) << 6)) % 64 == a % 64,
        ((a & 63) | ((b >> 4) << 6)) / 64 == (b / 16) % 4,
        ((a & 0xF) | ((b & 0xF) << 4)) % 16 == a % 16,
        ((a & 0xF) | ((b & 0xF) << 4)) / 16 == b % 16,
        a % 16 + 16 * ((a / 16) % 4) == a % 64,
        b % 16 + 16 * ((b / 16) % 4) == b % 64,
{
    assert(((a & 63) | ((b >> 4) << 6)) % 64 == a % 64) by (bit_vector);
    assert(((a & 63) | ((b >> 4) << 6)) / 64 == (b / 16) % 4) by (bit_vector);
    assert(((a & 0xF) | ((b & 0xF) << 4)) % 16 == a % 16) by (bit_vector);
    assert(((a & 0xF) | ((b & 0xF) << 4)) / 16 == b % 16) by (bit_vector);
    assert(a % 16 + 16 * ((a / 16) % 4) == a % 64) by (bit_vector);
    assert(b % 16 + 16 * ((b / 16) % 4) == b % 64) by (bit_vector);
}

/// The scales that a reader of a block takes from its bytes.
pub open spec fn stored_scales(bytes: Seq<u8>) -> Seq<u8> {
    Seq::new(
        8,
        |j: int|
            if j < 4 {
                bytes[4 + j] % 64
            } else {
                (bytes[8 + j] % 16 + 16 * (bytes[j] / 64)) as u8
            },
    )
}

/// The minima that a reader of a block takes from its bytes.
pub open spec fn stored_mins(bytes: Seq<u8>) -> Seq<u8> {
    Seq::new(
        8,
        |j: int|
            if j < 4 {
                bytes[8 + j] % 64
            } else {
                (bytes[8 + j] / 16 + 16 * (bytes[4 + j] / 64)) as u8
            },
    )
}

/// The quants that a reader of a block takes from its bytes.
pub open spec fn stored_quants(bytes: Seq<u8>) -> Seq<u8> {
    Seq::new(
        256,
        |t: int|
            if t % 2 == 0 {
                bytes[16 + t / 2] % 16
            } else {
                bytes[16 + t / 2] / 16
            },
    )
}

/// The bits of the half that stands at `place`.
pub open spec fn stored_half(bytes: Seq<u8>, place: int) -> u16 {
    (bytes[place] + 256 * bytes[place + 1]) as u16
}

/// A reader of packed bytes takes from them what they were packed from: the factors,
/// the low six bits of the scales and the minima, and the low four of the quants.
pub proof fn law_packed_parts_are_stored(
    d: u16,
    dmin: u16,
    scales: Seq<u8>,
    mins: Seq<u8>,
    quants: Seq<u8>,
    bytes: Seq<u8>,
)
    requires
        scales.len() == 8,
        mins.len() == 8,
        quants.len() == 256,
        bytes == packed_block(d, dmin, scales, mins, quants),
    ensures
        bytes.len() == 144,
        stored_half(bytes, 0) == d,
        stored_half(bytes, 2) == dmin,
        forall|j: int| 0 <= j < 8 ==> #[trigger] stored_scales(bytes)[j] == scales[j] % 64,
        forall|j: int| 0 <= j < 8 ==> #[trigger] stored_mins(bytes)[j] == mins[j] % 64,
        forall|t: int| 0 <= t < 256 ==> #[trigger] stored_quants(bytes)[t] == quants[t] % 16,
{
    lemma_bytes_of_block(d, dmin, scales, mins, quants, bytes);
    assert forall|j: int| 0 <= j < 8 implies #[trigger] stored_scales(bytes)[j] == scales[j]
        % 64 by {
        lemma_scale_is_stored(scales, mins, bytes, j);
    }
    assert forall|j: int| 0 <= j < 8 implies #[trigger] stored_mins(bytes)[j] == mins[j] % 64 by {
        lemma_min_is_stored(scales, mins, bytes, j);
    }
    assert forall|t: int| 0 <= t < 256 implies #[trigger] stored_quants(bytes)[t] == quants[t]
        % 16 by {
        lemma_bits_of_byte(quants[2 * (t / 2)], quants[2 * (t / 2) + 1]);
        assert(bytes[16 + t / 2] == packed_quants(quants)[t / 2]);
    }
}

/// Where the parts of a block stand in its bytes.
proof fn lemma_bytes_of_block(
    d: u16,
    dmin: u16,
    scales: Seq<u8>,
    mins: Seq<u8>,
    quants: Seq<u8>,
    bytes: Seq<u8>,
)
    requires
        quants.len() == 256,
        bytes == packed_block(d, dmin, scales, mins, quants),
    ensures
        bytes.len() == 144,
        stored_half(bytes, 0) == d,
        stored_half(bytes, 2) == dmin,
        forall|p: int| 4 <= p < 16 ==> #[trigger] bytes[p] == packed_scales(scales, mins)[p - 4],
        forall|p: int| 16 <= p < 144 ==> #[trigger] bytes[p] == packed_quants(quants)[p - 16],
{
    assert(bytes[0] == (d % 256) as u8 && bytes[1] == (d / 256) as u8);
    assert(bytes[2] == (dmin % 256) as u8 && bytes[3] == (dmin / 256) as u8);
}

/// A scale is put together of the bytes that hold it.
proof fn lemma_scale_is_stored(scales: Seq<u8>, mins: Seq<u8>, bytes: Seq<u8>, j: int)
    requires
        0 <= j < 8,
        forall|p: int| 4 <= p < 16 ==> #[trigger] bytes[p] == packed_scales(scales, mins)[p - 4],
    ensures
        stored_scales(bytes)[j] == scales[j] % 64,
{
    let packed = packed_scales(scales, mins);
    if j < 4 {
        lemma_bits_of_byte(scales[j], scales[j + 4]);
        assert(bytes[4 + j] == packed[j]);
    } else {
        let first = scales[j - 4];
        let scale = scales[j];
        let min = mins[j];
        lemma_bits_of_byte(scale, min);
        lemma_bits_of_byte(first, scale);
        assert(bytes[8 + j] == packed[4 + j]);
        assert(bytes[j] == packed[j - 4]);
        assert(bytes[8 + j] % 16 == scale % 16);
        assert(bytes[j] / 64 == (scale / 16) % 4);
    }
}

/// A minimum is put together of the bytes that hold it.
proof fn lemma_min_is_stored(scales: Seq<u8>, mins: Seq<u8>, bytes: Seq<u8>, j: int)
    requires
        0 <= j < 8,
        forall|p: int| 4 <= p < 16 ==> #[trigger] bytes[p] == packed_scales(scales, mins)[p - 4],
    ensures
        stored_mins(bytes)[j] == mins[j] % 64,
{
    let packed = packed_scales(scales, mins);
    if j < 4 {
        lemma_bits_of_byte(mins[j], mins[j + 4]);
        assert(bytes[8 + j] == packed[4 + j]);
    } else {
        let first = mins[j - 4];
        let scale = scales[j];
        let min = mins[j];
        lemma_bits_of_byte(scale, min);
        lemma_bits_of_byte(first, min);
        assert(bytes[8 + j] == packed[4 + j]);
        assert(bytes[4 + j] == packed[j]);
        assert(bytes[8 + j] / 16 == min % 16);
        assert(bytes[4 + j] / 64 == (min / 16) % 4);
    }
}

/// Parts that fit are read back whole.
proof fn lemma_small_parts_are_stored(
    d: u16,
    dmin: u16,
    scales: Seq<u8>,
    mins: Seq<u8>,
    quants: Seq<u8>,
    bytes: Seq<u8>,
)
    requires
        scales.len() == 8,
        mins.len() == 8,
        quants.len() == 256,
        forall|j: int| 0 <= j < 8 ==> #[trigger] scales[j] < 64,
        forall|j: int| 0 <= j < 8 ==> #[trigger] mins[j] < 64,
        forall|t: int| 0 <= t < 256 ==> #[trigger] quants[t] < 16,
        bytes == packed_block(d, dmin, scales, mins, quants),
    ensures
        bytes.len() == 144,
        stored_half(bytes, 0) == d,
        stored_half(bytes, 2) == dmin,
        stored_scales(bytes) == scales,
        stored_mins(bytes) == mins,
        stored_quants(bytes) == quants,
{
    law_packed_parts_are_stored(d, dmin, scales, mins, quants, bytes);
    assert(stored_scales(bytes) =~= scales);
    assert(stored_mins(bytes) =~= mins);
    assert(stored_quants(bytes) =~= quants);
}

/// What the bytes of a block hold follows from its values.
#[verifier::rlimit(50)]
proof fn lemma_block_reads<T: Number>(
    m: Reading<T>,
    values: Seq<T>,
    bytes: Seq<u8>,
    d: T,
    dmin: T,
    most: int,
) -> (marks: (Seq<int>, Seq<int>, int, int))
    requires
        reads_levels(m),
        reads_halves(m),
        values.len() >= 256,
        are_readable(m, values.take(256), most),
        most <= 30 * m.half_top,
        is_quantized_block(values, bytes),
        call_ensures(T::from_half_bits, (stored_half(bytes, 0),), d),
        call_ensures(T::from_half_bits, (stored_half(bytes, 2),), dmin),
    ensures
        bytes.len() == 144,
        sub_blocks_follow_values(
            m.precision,
            readings(m, values.take(256)),
            marks.0,
            marks.1,
            stored_quants(bytes),
        ),
        follows_marks(m.precision, marks.0, marks.2, stored_scales(bytes)),
        follows_marks(m.precision, marks.1, marks.3, stored_mins(bytes)),
        is_near(m.half_precision, (m.value)(d), marks.2, m.half_step),
        is_near(m.half_precision, (m.value)(dmin), marks.3, m.half_step),
        -1 <= marks.2,
        -1 <= marks.3,
{
    let (params, bits, bits_min) = choose|params: BlockParams<T>, d: u16, dmin: u16|
        {
            &&& are_block_params(values, params)
            &&& #[trigger] call_ensures(T::to_half_bits, (params.d,), d)
            &&& #[trigger] call_ensures(T::to_half_bits, (params.dmin,), dmin)
            &&& bytes == packed_block(d, dmin, params.scales@, params.mins@, params.quants@)
        };
    let (scales, offsets) = lemma_params_read(m, values, params, most);
    assert forall|t: int| 0 <= t < 256 implies #[trigger] params.quants@[t] < 16 by {
        let s = t / 32;
        let read = readings(m, values.take(256)).subrange(32 * s, 32 * s + 32);
        let quants = params.quants@.subrange(32 * s, 32 * s + 32);
        assert(follows_values(m.precision, read, scales[s], offsets[s], quants));
        assert(quants[t % 32] == params.quants@[t]);
    }
    lemma_small_parts_are_stored(
        bits,
        bits_min,
        params.scales@,
        params.mins@,
        params.quants@,
        bytes,
    );
    (scales, offsets, (m.value)(params.d), (m.value)(params.dmin))
}

/// The bytes of a block hold what follows from its values: its factors up to half
/// precision, the 6-bit levels of its scales and offsets, and the quants.
pub proof fn law_block_follows_values<T: Number>(
    m: Reading<T>,
    values: Seq<T>,
    bytes: Seq<u8>,
    d: T,
    dmin: T,
    most: int,
)
    requires
        reads_levels(m),
        reads_halves(m),
        values.len() >= 256,
        are_readable(m, values.take(256), most),
        most <= 30 * m.half_top,
        is_quantized_block(values, bytes),
        call_ensures(T::from_half_bits, (stored_half(bytes, 0),), d),
        call_ensures(T::from_half_bits, (stored_half(bytes, 2),), dmin),
    ensures
        bytes.len() == 144,
        exists|scales: Seq<int>, offsets: Seq<int>, factor: int, factor_min: int|
            {
                &&& sub_blocks_follow_values(
                    m.precision,
                    readings(m, values.take(256)),
                    scales,
                    offsets,
                    stored_quants(bytes),
                )
                &&& #[trigger] follows_marks(m.precision, scales, factor, stored_scales(bytes))
                &&& #[trigger] follows_marks(m.precision, offsets, factor_min, stored_mins(bytes))
                &&& is_near(m.half_precision, (m.value)(d), factor, m.half_step)
                &&& is_near(m.half_precision, (m.value)(dmin), factor_min, m.half_step)
            },
{
    let marks = lemma_block_reads(m, values, bytes, d, dmin, most);
}

/// A value restored as the kernel does it, `d` times the scale and the quant less
/// `dmin` times the minimum, is close to the value that was quantised. It is off by
/// half a level of it, by half a factor for every one of up to fifteen levels and by
/// half a factor of the minima, up to the precision, the rounding of both factors to
/// half precision, and steps.
#[verifier::rlimit(50)]
pub proof fn law_block_restores_values<T: Number>(
    m: Reading<T>,
    values: Seq<T>,
    bytes: Seq<u8>,
    d: T,
    dmin: T,
    t: int,
    most: int,
)
    requires
        reads_levels(m),
        reads_halves(m),
        values.len() >= 256,
        are_readable(m, values.take(256), most),
        most <= 30 * m.half_top,
        is_quantized_block(values, bytes),
        call_ensures(T::from_half_bits, (stored_half(bytes, 0),), d),
        call_ensures(T::from_half_bits, (stored_half(bytes, 2),), dmin),
        0 <= t < 256,
    ensures
        ({
            let scale = stored_scales(bytes)[t / 32];
            let min = stored_mins(bytes)[t / 32];
            let quant = stored_quants(bytes)[t];
            let restored = (m.value)(d) * scale * quant - (m.value)(dmin) * min;
            2 * size(restored - (m.value)(values[t])) <= (m.value)(d) * (scale + 18) + 2 * (
            m.value)(dmin) + 3000 * m.half_step + 3000
        }),
{
    let (scales, offsets, factor, factor_min) = lemma_block_reads(m, values, bytes, d, dmin, most);
    let p = m.precision;
    let j = t / 32;
    let i = t % 32;
    let read = readings(m, values.take(256)).subrange(32 * j, 32 * j + 32);
    let quants = stored_quants(bytes).subrange(32 * j, 32 * j + 32);
    let sc = stored_scales(bytes)[j] as int;
    let mn = stored_mins(bytes)[j] as int;
    let q = stored_quants(bytes)[t] as int;
    let v = (m.value)(values[t]);
    assert(follows_values(p, read, scales[j], offsets[j], quants));
    assert(read[i] == v && quants[i] == q);
    lemma_half_slack(m.half_precision, (m.value)(d), factor, m.half_step);
    lemma_half_slack(m.half_precision, (m.value)(dmin), factor_min, m.half_step);
    lemma_step_slack(p, size(sc * factor - scales[j]), factor, 770, 128);
    lemma_step_slack(p, size(mn * factor_min - offsets[j]), factor_min, 770, 128);
    lemma_step_slack(p, size(q * scales[j] - (v + offsets[j])), scales[j], 300, 30);
    lemma_restored_bound(
        factor,
        (m.value)(d),
        factor_min,
        (m.value)(dmin),
        m.half_step,
        sc,
        mn,
        q,
        scales[j],
        offsets[j],
        v,
    );
}

/// How an element is restored from the block of its column.
pub(crate) proof fn lemma_column_restores<T: Number>(
    m: Reading<T>,
    b: Seq<u16>,
    n_cols: int,
    batch_size: int,
    out: Seq<u8>,
    batch: int,
    k: int,
    n: int,
    element: T,
    d: T,
    dmin: T,
)
    requires
        reads_levels(m),
        reads_halves(m),
        are_column_blocks::<T>(b, n_cols, batch_size, out),
        0 <= batch < batch_size,
        0 <= k < 256,
        0 <= n < n_cols,
        forall|l: int|
            0 <= l < 256 ==> is_half_finite(#[trigger] b[batch * 256 * n_cols + l * n_cols + n]),
        call_ensures(T::from_half_bits, (b[batch * 256 * n_cols + k * n_cols + n],), element),
        ({
            let start = 144 * (batch * n_cols + n);
            let bytes = out.subrange(start, start + 144);
            &&& call_ensures(T::from_half_bits, (stored_half(bytes, 0),), d)
            &&& call_ensures(T::from_half_bits, (stored_half(bytes, 2),), dmin)
        }),
    ensures
        ({
            let start = 144 * (batch * n_cols + n);
            let bytes = out.subrange(start, start + 144);
            let scale = stored_scales(bytes)[k / 32];
            let min = stored_mins(bytes)[k / 32];
            let quant = stored_quants(bytes)[k];
            let restored = (m.value)(d) * scale * quant - (m.value)(dmin) * min;
            2 * size(restored - (m.value)(element)) <= (m.value)(d) * (scale + 18) + 2 * (m.value)(
                dmin,
            ) + 3000 * m.half_step + 3000
        }),
{
    let index = block_index(batch, n, n_cols);
    let start = 144 * (batch * n_cols + n);
    let bytes = out.subrange(start, start + 144);
    assert(nth_block(out, index) =~= bytes);
    assert(is_column_block::<T>(b, n_cols, batch, n, nth_block(out, index)));
    let values = choose|values: Seq<T>| #[trigger]
        is_column(b, n_cols, batch, n, values) && is_quantized_block(values, bytes);
    assert(values.take(256) =~= values);
    assert forall|l: int| 0 <= l < 256 implies (m.known)(#[trigger] values[l]) && size(
        (m.value)(values[l]),
    ) <= m.half_top by {
        let place = at(batch, l, n, 256, n_cols);
        assert(place == batch * 256 * n_cols + l * n_cols + n);
        assert(is_half_finite(b[batch * 256 * n_cols + l * n_cols + n]));
        assert(call_ensures(T::from_half_bits, (b[place],), values[l]));
    }
    let place = at(batch, k, n, 256, n_cols);
    assert(place == batch * 256 * n_cols + k * n_cols + n);
    assert(call_ensures(T::from_half_bits, (b[place],), values[k]));
    assert(is_half_finite(b[batch * 256 * n_cols + k * n_cols + n]));
    assert((m.value)(values[k]) == (m.value)(element));
    law_block_restores_values(m, values, bytes, d, dmin, k, m.half_top);
}

/// An element of a batch of matrices of 256 rows is close to what is restored from
/// the block of its column, which stands at 144 bytes times the number of columns
/// before it.
pub proof fn law_columns_restore_elements<T: Number>(
    m: Reading<T>,
    b: &[u16],
    n_cols: usize,
    batch_size: usize,
    out: Vec<u8>,
    batch: int,
    k: int,
    n: int,
    element: T,
    d: T,
    dmin: T,
)
    requires
        reads_levels(m),
        reads_halves(m),
        batch_size * 256 * n_cols <= b@.len(),
        batch_size * n_cols * 144 <= usize::MAX,
        call_ensures(quantize_b_q4k::<T>, (b, n_cols, 256usize, batch_size), out),
        0 <= batch < batch_size,
        0 <= k < 256,
        0 <= n < n_cols,
        forall|l: int|
            0 <= l < 256 ==> is_half_finite(
                #[trigger] b@[batch * 256 * n_cols + l * n_cols + n],
            ),
        call_ensures(
            T::from_half_bits,
            (b@[batch * 256 * n_cols + k * n_cols + n],),
            element,
        ),
        ({
            let start = 144 * (batch * n_cols + n);
            let bytes = out@.subrange(start, start + 144);
            &&& call_ensures(T::from_half_bits, (stored_half(bytes, 0),), d)
            &&& call_ensures(T::from_half_bits, (stored_half(bytes, 2),), dmin)
        }),
    ensures
        out@.len() == batch_size * n_cols * 144,
        ({
            let start = 144 * (batch * n_cols + n);
            let bytes = out@.subrange(start, start + 144);
            let scale = stored_scales(bytes)[k / 32];
            let min = stored_mins(bytes)[k / 32];
            let quant = stored_quants(bytes)[k];
            let restored = (m.value)(d) * scale * quant - (m.value)(dmin) * min;
            2 * size(restored - (m.value)(element)) <= (m.value)(d) * (scale + 18) + 2 * (m.value)(
                dmin,
            ) + 3000 * m.half_step + 3000
        }),
{
    lemma_column_restores(
        m,
        b@,
        n_cols as int,
        batch_size as int,
        out@,
        batch,
        k,
        n,
        element,
        d,
        dmin,
    );
}

/// How the numbers beyond all others spread, `up` above and `down` below, and that
/// what is `void` has no level. In single precision these are the two infinities and
/// what is not a number.
pub open spec fn spreads_beyond<T: Number>(
    up: spec_fn(T) -> bool,
    down: spec_fn(T) -> bool,
    void: spec_fn(T) -> bool,
) -> bool {
    &&& forall|a: T, b: T, x: T| #[trigger]
        call_ensures(T::greater, (a, b), x) && (up(a) || up(b)) ==> up(x)
    &&& forall|a: T, b: T, x: T| #[trigger]
        call_ensures(T::lesser, (a, b), x) && (down(a) || down(b)) ==> down(x)
    &&& forall|a: T, x: T| #[trigger] call_ensures(T::negated, (a,), x) && down(a) ==> up(x)
    &&& forall|a: T, zero: T, low: T, high: T, r: bool|
        #![trigger call_ensures(T::lesser, (a, zero), low), call_ensures(T::exceeds, (high, low), r)]
        call_ensures(T::decimal, (0i32, 0i32), zero) && call_ensures(T::lesser, (a, zero), low)
            && call_ensures(T::exceeds, (high, low), r) && up(high) ==> r
    &&& forall|a: T, zero: T, low: T, high: T, x: T|
        #![trigger call_ensures(T::lesser, (a, zero), low), call_ensures(T::minus, (high, low), x)]
        call_ensures(T::decimal, (0i32, 0i32), zero) && call_ensures(T::lesser, (a, zero), low)
            && call_ensures(T::minus, (high, low), x) && up(high) ==> up(x)
    &&& forall|n: i32, a: T, c: T, x: T| #[trigger]
        call_ensures(T::over, (a, c), x) && #[trigger] call_ensures(T::decimal, (n, 0i32), c) && up(
            a,
        ) && 0 < n <= 63 ==> up(x)
    &&& forall|a: T, h: u16| #[trigger]
        call_ensures(T::to_half_bits, (a,), h) && up(a) ==> !is_half_finite(h)
    &&& forall|a: T, b: T, x: T| #[trigger]
        call_ensures(T::minus, (a, b), x) && void(a) ==> void(x)
    &&& forall|a: T, b: T, x: T| #[trigger]
        call_ensures(T::over, (a, b), x) && void(a) ==> void(x)
    &&& forall|a: T, b: T, x: T| #[trigger]
        call_ensures(T::plus, (a, b), x) && void(a) ==> void(x)
    &&& forall|a: T, r: u8| #[trigger] call_ensures(T::to_u8, (a,), r) && void(a) ==> r == 0
}

/// The scale or the offset of a sub-block is beyond all numbers where a value is, and
/// a value that is void has no level.
proof fn lemma_sub_block_beyond<T: Number>(
    up: spec_fn(T) -> bool,
    down: spec_fn(T) -> bool,
    void: spec_fn(T) -> bool,
    values: Seq<T>,
    scale: T,
    offset: T,
    quants: Seq<u8>,
    i: int,
)
    requires
        spreads_beyond(up, down, void),
        0 <= i < values.len(),
        is_sub_block(values, scale, offset, quants),
    ensures
        up(values[i]) ==> up(scale),
        down(values[i]) ==> up(offset),
        void(values[i]) ==> quants[i] == 0,
{
    let (low, high) = choose|low: T, high: T|
        {
            &&& #[trigger] is_sub_block_low(values, low)
            &&& #[trigger] is_sub_block_high(values, high)
            &&& is_sub_block_between(values, low, high, scale, offset, quants)
        };
    let (start, smallest, zero) = choose|start: T, smallest: T, zero: T|
        {
            &&& #[trigger] call_ensures(T::infinity, (), start)
            &&& folds_to(lesser_step::<T>(), start, values, smallest)
            &&& call_ensures(T::decimal, (0i32, 0i32), zero)
            &&& #[trigger] call_ensures(T::lesser, (smallest, zero), low)
        };
    if up(values[i]) {
        let bottom = choose|start: T| #[trigger]
            call_ensures(T::neg_infinity, (), start) && folds_to(
                greater_step::<T>(),
                start,
                values,
                high,
            );
        lemma_fold_spoils(|a: T| !up(a), greater_step::<T>(), up, bottom, values, i, high);
        let above = choose|above: bool|
            {
                &&& #[trigger] call_ensures(T::exceeds, (high, low), above)
                &&& if above {
                    exists|range: T, levels: T|
                        {
                            &&& call_ensures(T::minus, (high, low), range)
                            &&& call_ensures(T::decimal, (15i32, 0i32), levels)
                            &&& #[trigger] call_ensures(T::over, (range, levels), scale)
                        }
                } else {
                    call_ensures(T::decimal, (0i32, 0i32), scale)
                }
            };
        assert(above);
        let (range, levels) = choose|range: T, levels: T|
            {
                &&& call_ensures(T::minus, (high, low), range)
                &&& call_ensures(T::decimal, (15i32, 0i32), levels)
                &&& #[trigger] call_ensures(T::over, (range, levels), scale)
            };
        assert(up(range));
    }
    if down(values[i]) {
        lemma_fold_spoils(|a: T| !down(a), lesser_step::<T>(), down, start, values, i, smallest);
        assert(down(low));
    }
    if void(values[i]) {
        assert(is_quant(values[i], low, scale, quants[i]));
        let (zero, positive) = choose|zero: T, positive: bool|
            {
                &&& call_ensures(T::decimal, (0i32, 0i32), zero)
                &&& #[trigger] call_ensures(T::exceeds, (scale, zero), positive)
                &&& if positive {
                    exists|level: u8| #[trigger]
                        is_level(values[i], low, scale, level) && quants[i] == if level < 15 {
                            level
                        } else {
                            15
                        }
                } else {
                    quants[i] == 0
                }
            };
        if positive {
            let level = choose|level: u8| #[trigger]
                is_level(values[i], low, scale, level) && quants[i] == if level < 15 {
                    level
                } else {
                    15
                };
            let (difference, ratio, half, rounded) = choose|
                difference: T,
                ratio: T,
                half: T,
                rounded: T,
            |
                {
                    &&& call_ensures(T::minus, (values[i], low), difference)
                    &&& #[trigger] call_ensures(T::over, (difference, scale), ratio)
                    &&& call_ensures(T::decimal, (5i32, -1i32), half)
                    &&& #[trigger] call_ensures(T::plus, (ratio, half), rounded)
                    &&& call_ensures(T::to_u8, (rounded,), level)
                };
            assert(void(difference) && void(ratio) && void(rounded));
        }
    }
}

/// The factor of marks of which one is beyond all numbers is so too.
proof fn lemma_factor_beyond<T: Number>(
    up: spec_fn(T) -> bool,
    down: spec_fn(T) -> bool,
    void: spec_fn(T) -> bool,
    marks: Seq<T>,
    factor: T,
    j: int,
)
    requires
        spreads_beyond(up, down, void),
        0 <= j < marks.len(),
        up(marks[j]),
        is_super_scale(marks, factor),
    ensures
        up(factor),
{
    let (zero, largest, levels) = choose|zero: T, largest: T, levels: T|
        {
            &&& #[trigger] call_ensures(T::decimal, (0i32, 0i32), zero)
            &&& folds_to(greater_step::<T>(), zero, marks, largest)
            &&& call_ensures(T::decimal, (63i32, 0i32), levels)
            &&& #[trigger] call_ensures(T::over, (largest, levels), factor)
        };
    lemma_fold_spoils(|a: T| !up(a), greater_step::<T>(), up, zero, marks, j, largest);
}

/// A value beyond all numbers leaves the block without a finite factor, of the scales
/// if it lies above and of the minima if it lies below. A value that is void is stored
/// as the lowest level.
pub proof fn law_values_beyond_leave_no_factor<T: Number>(
    up: spec_fn(T) -> bool,
    down: spec_fn(T) -> bool,
    void: spec_fn(T) -> bool,
    values: Seq<T>,
    bytes: Seq<u8>,
    t: int,
)
    requires
        spreads_beyond(up, down, void),
        values.len() >= 256,
        is_quantized_block(values, bytes),
        0 <= t < 256,
    ensures
        up(values[t]) ==> !is_half_finite(stored_half(bytes, 0)),
        down(values[t]) ==> !is_half_finite(stored_half(bytes, 2)),
        void(values[t]) ==> stored_quants(bytes)[t] == 0,
{
    let (params, bits, bits_min) = choose|params: BlockParams<T>, d: u16, dmin: u16|
        {
            &&& are_block_params(values, params)
            &&& #[trigger] call_ensures(T::to_half_bits, (params.d,), d)
            &&& #[trigger] call_ensures(T::to_half_bits, (params.dmin,), dmin)
            &&& bytes == packed_block(d, dmin, params.scales@, params.mins@, params.quants@)
        };
    let (scales, offsets) = choose|scales: Seq<T>, offsets: Seq<T>|
        are_block_params_over(values, params, scales, offsets);
    let s = t / 32;
    let sub = sub_block(values, s);
    let quants = sub_block(params.quants@, s);
    assert(is_sub_block(sub, scales[s], offsets[s], quants));
    assert(sub[t % 32] == values[t]);
    assert(quants[t % 32] == params.quants@[t]);
    lemma_sub_block_beyond(up, down, void, sub, scales[s], offsets[s], quants, t % 32);
    if up(values[t]) {
        lemma_factor_beyond(up, down, void, scales, params.d, s);
    }
    if down(values[t]) {
        lemma_factor_beyond(up, down, void, offsets, params.dmin, s);
    }
    law_packed_parts_are_stored(
        bits,
        bits_min,
        params.scales@,
        params.mins@,
        params.quants@,
        bytes,
    );
    assert(stored_quants(bytes)[t] == params.quants@[t] % 16);
}

/// What [`pack_block`] writes at the front is read back as it was, and it leaves the
/// rest alone.
pub proof fn law_pack_block_stores_parts(
    d: u16,
    dmin: u16,
    scales: &[u8],
    mins: &[u8],
    quants: &[u8],
    block: &mut [u8],
)
    requires
        scales@.len() == 8,
        mins@.len() == 8,
        quants@.len() == 256,
        old(block)@.len() >= 144,
        call_ensures(pack_block, (d, dmin, scales, mins, quants, block), ()),
    ensures
        final(block)@.len() == old(block)@.len(),
        stored_half(final(block)@, 0) == d,
        stored_half(final(block)@, 2) == dmin,
        forall|j: int|
            0 <= j < 8 ==> #[trigger] stored_scales(final(block)@)[j] == scales@[j] % 64,
        forall|j: int| 0 <= j < 8 ==> #[trigger] stored_mins(final(block)@)[j] == mins@[j] % 64,
        forall|t: int|
            0 <= t < 256 ==> #[trigger] stored_quants(final(block)@)[t] == quants@[t] % 16,
        forall|p: int| 144 <= p < old(block)@.len() ==> final(block)@[p] == old(block)@[p],
{
    let bytes = packed_block(d, dmin, scales@, mins@, quants@);
    let after = final(block)@;
    law_packed_parts_are_stored(d, dmin, scales@, mins@, quants@, bytes);
    assert(forall|p: int| 0 <= p < 144 ==> after[p] == bytes[p]);
    assert(stored_scales(after) =~= stored_scales(bytes));
    assert(stored_mins(after) =~= stored_mins(bytes));
    assert(stored_quants(after) =~= stored_quants(bytes));
    assert forall|p: int| 144 <= p < old(block)@.len() implies after[p] == old(block)@[p] by {
        assert(old(block)@.skip(144)[p - 144] == old(block)@[p]);
    }
}

/// What [`quantize_block_q4k`] writes at the front restores the values as
/// [`law_block_restores_values`] has it, and it leaves the rest alone.
pub proof fn law_written_block_restores_values<T: Number>(
    m: Reading<T>,
    vals: &[T],
    block: &mut [u8],
    d: T,
    dmin: T,
    t: int,
    most: int,
)
    requires
        reads_levels(m),
        reads_halves(m),
        vals@.len() >= 256,
        old(block)@.len() >= 144,
        are_readable(m, vals@.take(256), most),
        most <= 30 * m.half_top,
        call_ensures(quantize_block_q4k::<T>, (vals, block), ()),
        call_ensures(T::from_half_bits, (stored_half(final(block)@, 0),), d),
        call_ensures(T::from_half_bits, (stored_half(final(block)@, 2),), dmin),
        0 <= t < 256,
    ensures
        ({
            let scale = stored_scales(final(block)@)[t / 32];
            let min = stored_mins(final(block)@)[t / 32];
            let quant = stored_quants(final(block)@)[t];
            let restored = (m.value)(d) * scale * quant - (m.value)(dmin) * min;
            2 * size(restored - (m.value)(vals@[t])) <= (m.value)(d) * (scale + 18) + 2 * (
            m.value)(dmin) + 3000 * m.half_step + 3000
        }),
        final(block)@.len() == old(block)@.len(),
        forall|p: int| 144 <= p < old(block)@.len() ==> final(block)@[p] == old(block)@[p],
{
    let after = final(block)@;
    let bytes = after.take(144);
    lemma_front_is_stored(after);
    law_block_restores_values(m, vals@, bytes, d, dmin, t, most);
    assert forall|p: int| 144 <= p < old(block)@.len() implies after[p] == old(block)@[p] by {
        assert(after.skip(144)[p - 144] == old(block)@.skip(144)[p - 144]);
    }
}

/// What [`quantize_block_q4k`] writes follows from the values as
/// [`law_block_follows_values`] has it.
pub proof fn law_written_block_follows_values<T: Number>(
    m: Reading<T>,
    vals: &[T],
    block: &mut [u8],
    d: T,
    dmin: T,
    most: int,
)
    requires
        reads_levels(m),
        reads_halves(m),
        vals@.len() >= 256,
        old(block)@.len() >= 144,
        are_readable(m, vals@.take(256), most),
        most <= 30 * m.half_top,
        call_ensures(quantize_block_q4k::<T>, (vals, block), ()),
        call_ensures(T::from_half_bits, (stored_half(final(block)@, 0),), d),
        call_ensures(T::from_half_bits, (stored_half(final(block)@, 2),), dmin),
    ensures
        exists|scales: Seq<int>, offsets: Seq<int>, factor: int, factor_min: int|
            {
                &&& sub_blocks_follow_values(
                    m.precision,
                    readings(m, vals@.take(256)),
                    scales,
                    offsets,
                    stored_quants(final(block)@),
                )
                &&& #[trigger] follows_marks(
                    m.precision,
                    scales,
                    factor,
                    stored_scales(final(block)@),
                )
                &&& #[trigger] follows_marks(
                    m.precision,
                    offsets,
                    factor_min,
                    stored_mins(final(block)@),
                )
                &&& is_near(m.half_precision, (m.value)(d), factor, m.half_step)
                &&& is_near(m.half_precision, (m.value)(dmin), factor_min, m.half_step)
            },
{
    let after = final(block)@;
    lemma_front_is_stored(after);
    law_block_follows_values(m, vals@, after.take(144), d, dmin, most);
}

/// What a reader takes from bytes stands in the first 144 of them.
proof fn lemma_front_is_stored(bytes: Seq<u8>)
    requires
        bytes.len() >= 144,
    ensures
        stored_half(bytes.take(144), 0) == stored_half(bytes, 0),
        stored_half(bytes.take(144), 2) == stored_half(bytes, 2),
        stored_scales(bytes.take(144)) == stored_scales(bytes),
        stored_mins(bytes.take(144)) == stored_mins(bytes),
        stored_quants(bytes.take(144)) == stored_quants(bytes),
{
    let front = bytes.take(144);
    assert(forall|p: int| 0 <= p < 144 ==> front[p] == bytes[p]);
    assert(stored_scales(front) =~= stored_scales(bytes));
    assert(stored_mins(front) =~= stored_mins(bytes));
    assert(stored_quants(front) =~= stored_quants(bytes));
}

} // verus!

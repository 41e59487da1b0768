//! Where the levels of a block turn from one to the next.
//!
//! What is computed without rounding decides between two levels: exactly half way, it
//! is the upper one.
use vstd::prelude::*;

use crate::number::{folds_to, lesser_step, Number};
use crate::quantize::{
    are_block_params_over, block_params, is_level, is_quant, is_six_bit_level, is_six_bit_quant,
    is_sub_block, is_sub_block_between, is_sub_block_high, is_sub_block_low, quantize_sub_block,
    sub_block, BlockParams, SubBlock,
};
use crate::quantize_accuracy::{
    are_readable, follows_marks, lemma_params_read_over, lemma_smallest, lemma_sub_block_reads,
    readings, reads_levels, sub_blocks_follow_values,
};
use crate::reading::{has_number, reads_exact, size, Reading};

verus! {

/// Where `mark` is a number, and so is how often `step` goes into it, both alone and
/// with one half, `level` is that ratio rounded to an integer, half way up, and no more
/// than `most`.
pub open spec fn rounds_half_up<T>(
    m: Reading<T>,
    mark: int,
    step: int,
    level: u8,
    most: int,
) -> bool {
    forall|ratio: int| #[trigger]
        has_number(m, ratio) && has_number(m, mark) && has_number(m, ratio + m.unit / 2) && ratio
            * step == mark * m.unit ==> {
            let sum = ratio + m.unit / 2;
            if sum >= most * m.unit {
                level == most
            } else {
                level * m.unit <= sum < (level + 1) * m.unit
            }
        }
}

/// A ratio of what is not below zero is not below zero.
proof fn lemma_ratio_sign(ratio: int, step: int, mark: int, unit: int)
    requires
        step > 0,
        unit > 0,
        mark >= 0,
        ratio * step == mark * unit,
    ensures
        ratio >= 0,
{
    assert(ratio >= 0) by (nonlinear_arith)
        requires
            step > 0,
            unit > 0,
            mark >= 0,
            ratio * step == mark * unit,
    ;
}

/// What is at a bound is not beyond it.
proof fn lemma_level_at_bound(level: int, bound: int, unit: int, value: int)
    requires
        unit > 0,
        level * unit <= value < (level + 1) * unit,
    ensures
        value < bound * unit ==> level < bound,
        value >= bound * unit ==> level >= bound,
        value == bound * unit ==> level == bound,
{
    assert((value < bound * unit ==> level < bound) && (value >= bound * unit ==> level >= bound)
        && (value == bound * unit ==> level == bound)) by (nonlinear_arith)
        requires
            unit > 0,
            level * unit <= value < (level + 1) * unit,
    ;
}

/// How the 6-bit level of a mark is rounded.
proof fn lemma_six_bit_rounds<T: Number>(m: Reading<T>, mark: T, factor: T, level: u8)
    requires
        reads_levels(m),
        reads_exact(m),
        (m.known)(mark),
        (m.known)(factor),
        (m.value)(mark) >= 0,
        (m.value)(factor) > 0,
        is_six_bit_quant(mark, factor, level),
    ensures
        rounds_half_up(m, (m.value)(mark), (m.value)(factor), level, 63),
{
    let u = m.unit;
    let (zero, positive) = choose|zero: T, positive: bool|
        {
            &&& call_ensures(T::decimal, (0i32, 0i32), zero)
            &&& #[trigger] call_ensures(T::exceeds, (factor, zero), positive)
            &&& if positive {
                is_six_bit_level(mark, factor, level)
            } else {
                level == 0
            }
        };
    assert(0 * u == 0);
    assert(positive);
    let (quotient, half, rounded, limit, capped) = choose|
        ratio: T,
        half: T,
        rounded: T,
        limit: T,
        capped: T,
    |
        {
            &&& #[trigger] call_ensures(T::over, (mark, factor), ratio)
            &&& call_ensures(T::decimal, (5i32, -1i32), half)
            &&& #[trigger] call_ensures(T::plus, (ratio, half), rounded)
            &&& call_ensures(T::decimal, (63i32, 0i32), limit)
            &&& #[trigger] call_ensures(T::lesser, (rounded, limit), capped)
            &&& call_ensures(T::to_u8, (capped,), level)
        };
    assert forall|ratio: int| #[trigger]
        has_number(m, ratio) && has_number(m, (m.value)(mark)) && has_number(m, ratio + u / 2)
            && ratio * (m.value)(factor) == (m.value)(mark) * u implies {
        let sum = ratio + u / 2;
        if sum >= 63 * u {
            level == 63
        } else {
            level * u <= sum < (level + 1) * u
        }
    } by {
        lemma_ratio_sign(ratio, (m.value)(factor), (m.value)(mark), u);
        let sum = ratio + u / 2;
        assert((m.value)(quotient) == ratio);
        assert((m.value)(half) == u / 2);
        assert((m.value)(rounded) == sum);
        assert((m.value)(limit) == 63 * u);
        let c = (m.value)(capped);
        assert(c == if sum < 63 * u {
            sum
        } else {
            63 * u
        });
        assert(level * u <= c < (level + 1) * u);
        lemma_level_at_bound(level as int, 63, u, c);
    }
}

/// How the 4-bit level of a value is rounded.
proof fn lemma_quant_rounds<T: Number>(m: Reading<T>, value: T, low: T, scale: T, quant: u8)
    requires
        reads_levels(m),
        reads_exact(m),
        (m.known)(value),
        (m.known)(low),
        (m.known)(scale),
        (m.value)(low) <= (m.value)(value),
        (m.value)(scale) > 0,
        is_quant(value, low, scale, quant),
    ensures
        rounds_half_up(m, (m.value)(value) - (m.value)(low), (m.value)(scale), quant, 15),
{
    let u = m.unit;
    let mark = (m.value)(value) - (m.value)(low);
    let (zero, positive) = choose|zero: T, positive: bool|
        {
            &&& call_ensures(T::decimal, (0i32, 0i32), zero)
            &&& #[trigger] call_ensures(T::exceeds, (scale, zero), positive)
            &&& if positive {
                exists|level: u8| #[trigger]
                    is_level(value, low, scale, level) && quant == if level < 15 {
                        level
                    } else {
                        15
                    }
            } else {
                quant == 0
            }
        };
    assert(0 * u == 0);
    assert(positive);
    let level = choose|level: u8| #[trigger]
        is_level(value, low, scale, level) && quant == if level < 15 {
            level
        } else {
            15
        };
    let (offset, quotient, half, rounded) = choose|offset: T, ratio: T, half: T, rounded: T|
        {
            &&& call_ensures(T::minus, (value, low), offset)
            &&& #[trigger] call_ensures(T::over, (offset, scale), ratio)
            &&& call_ensures(T::decimal, (5i32, -1i32), half)
            &&& #[trigger] call_ensures(T::plus, (ratio, half), rounded)
            &&& call_ensures(T::to_u8, (rounded,), level)
        };
    assert forall|ratio: int| #[trigger]
        has_number(m, ratio) && has_number(m, mark) && has_number(m, ratio + u / 2) && ratio * (
        m.value)(scale) == mark * u implies {
        let sum = ratio + u / 2;
        if sum >= 15 * u {
            quant == 15
        } else {
            quant * u <= sum < (quant + 1) * u
        }
    } by {
        lemma_ratio_sign(ratio, (m.value)(scale), mark, u);
        let sum = ratio + u / 2;
        assert((m.value)(offset) == mark);
        assert((m.value)(quotient) == ratio);
        assert((m.value)(half) == u / 2);
        assert((m.value)(rounded) == sum);
        if level == 255 && sum >= 255 * u {
            assert(sum >= 15 * u);
        } else {
            assert(level * u <= sum < (level + 1) * u);
            lemma_level_at_bound(level as int, 15, u, sum);
        }
    }
}

/// How the quants of a sub-block are rounded.
proof fn lemma_sub_block_rounds<T: Number>(
    m: Reading<T>,
    values: Seq<T>,
    scale: T,
    offset: T,
    quants: Seq<u8>,
    most: int,
    i: int,
)
    requires
        reads_levels(m),
        reads_exact(m),
        are_readable(m, values, most),
        is_sub_block(values, scale, offset, quants),
        0 <= i < values.len(),
        (m.value)(scale) > 0,
    ensures
        rounds_half_up(
            m,
            (m.value)(values[i]) + (m.value)(offset),
            (m.value)(scale),
            quants[i],
            15,
        ),
{
    let (low, high) = choose|low: T, high: T|
        {
            &&& #[trigger] is_sub_block_low(values, low)
            &&& #[trigger] is_sub_block_high(values, high)
            &&& is_sub_block_between(values, low, high, scale, offset, quants)
        };
    let (start, smallest, zero) = choose|start: T, smallest: T, zero: T|
        {
            &&& #[trigger] call_ensures(T::infinity, (), start)
            &&& folds_to(lesser_step::<T>(), start, values, smallest)
            &&& call_ensures(T::decimal, (0i32, 0i32), zero)
            &&& #[trigger] call_ensures(T::lesser, (smallest, zero), low)
        };
    lemma_smallest(m, start, values, smallest);
    lemma_sub_block_reads(m, values, scale, offset, quants, most);
    assert((m.known)(low) && (m.value)(offset) == -(m.value)(low));
    assert((m.known)(values[i]) && (m.value)(smallest) <= (m.value)(values[i]));
    assert(is_quant(values[i], low, scale, quants[i]));
    lemma_quant_rounds(m, values[i], low, scale, quants[i]);
}

/// Where nothing is rounded on the way to it, a value half way between two levels of
/// a sub-block counts as the upper one, and any other as the one next to it.
pub proof fn law_sub_block_rounds_half_up<T: Number>(
    m: Reading<T>,
    values: &[T],
    sub: SubBlock<T>,
    most: int,
    i: int,
)
    requires
        reads_levels(m),
        reads_exact(m),
        are_readable(m, values@, most),
        call_ensures(quantize_sub_block::<T>, (values,), sub),
        0 <= i < values@.len(),
        (m.value)(sub.scale) > 0,
    ensures
        rounds_half_up(
            m,
            (m.value)(values@[i]) + (m.value)(sub.offset),
            (m.value)(sub.scale),
            sub.quants@[i],
            15,
        ),
{
    lemma_sub_block_rounds(m, values@, sub.scale, sub.offset, sub.quants@, most, i);
}

/// The same of the quants of a block and of the levels of its scales and offsets.
pub proof fn law_params_round_half_up<T: Number>(
    m: Reading<T>,
    values: &[T],
    params: BlockParams<T>,
    most: int,
)
    requires
        reads_levels(m),
        reads_exact(m),
        values@.len() >= 256,
        are_readable(m, values@.take(256), most),
        call_ensures(block_params::<T>, (values,), params),
    ensures
        exists|scales: Seq<int>, offsets: Seq<int>|
            {
                &&& #[trigger] sub_blocks_follow_values(
                    m.precision,
                    readings(m, values@.take(256)),
                    scales,
                    offsets,
                    params.quants@,
                )
                &&& follows_marks(m.precision, scales, (m.value)(params.d), params.scales@)
                &&& follows_marks(m.precision, offsets, (m.value)(params.dmin), params.mins@)
                &&& forall|t: int|
                    0 <= t < 256 && scales[t / 32] > 0 ==> rounds_half_up(
                        m,
                        (m.value)(values@[t]) + offsets[t / 32],
                        scales[t / 32],
                        #[trigger] params.quants@[t],
                        15,
                    )
                &&& forall|s: int|
                    0 <= s < 8 && (m.value)(params.d) > 0 ==> rounds_half_up(
                        m,
                        scales[s],
                        (m.value)(params.d),
                        #[trigger] params.scales@[s],
                        63,
                    )
                &&& forall|s: int|
                    0 <= s < 8 && (m.value)(params.dmin) > 0 ==> rounds_half_up(
                        m,
                        offsets[s],
                        (m.value)(params.dmin),
                        #[trigger] params.mins@[s],
                        63,
                    )
            },
{
    let (scales, offsets) = choose|scales: Seq<T>, offsets: Seq<T>|
        are_block_params_over(values@, params, scales, offsets);
    lemma_params_read_over(m, values@, params, scales, offsets, most);
    let read_scales = readings(m, scales);
    let read_offsets = readings(m, offsets);
    assert forall|t: int| 0 <= t < 256 && read_scales[t / 32] > 0 implies rounds_half_up(
        m,
        (m.value)(values@[t]) + read_offsets[t / 32],
        read_scales[t / 32],
        #[trigger] params.quants@[t],
        15,
    ) by {
        let s = t / 32;
        let sub = sub_block(values@, s);
        let quants = sub_block(params.quants@, s);
        assert(is_sub_block(sub, scales[s], offsets[s], quants));
        assert forall|i: int| 0 <= i < sub.len() implies (m.known)(#[trigger] sub[i]) && size(
            (m.value)(sub[i]),
        ) <= most by {
            assert(values@.take(256)[s * 32 + i] == sub[i]);
        }
        assert(sub[t % 32] == values@[t] && quants[t % 32] == params.quants@[t]);
        lemma_sub_block_rounds(m, sub, scales[s], offsets[s], quants, most, t % 32);
    }
    assert forall|s: int| 0 <= s < 8 && (m.value)(params.d) > 0 implies rounds_half_up(
        m,
        read_scales[s],
        (m.value)(params.d),
        #[trigger] params.scales@[s],
        63,
    ) by {
        assert((m.known)(scales[s]));
        lemma_six_bit_rounds(m, scales[s], params.d, params.scales@[s]);
    }
    assert forall|s: int| 0 <= s < 8 && (m.value)(params.dmin) > 0 implies rounds_half_up(
        m,
        read_offsets[s],
        (m.value)(params.dmin),
        #[trigger] params.mins@[s],
        63,
    ) by {
        assert((m.known)(offsets[s]));
        lemma_six_bit_rounds(m, offsets[s], params.dmin, params.mins@[s]);
    }
}

} // verus!

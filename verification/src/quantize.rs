//! Quantisation of numbers to the Q4_K block format.
use vstd::prelude::*;

use crate::layout::{at, lemma_at_bound};
use crate::matrix::{dot_terms, is_widened};
use crate::number::{fold_greater, fold_lesser, folds_to, greater_step, lesser_step, Number};
use crate::q4k::{
    law_block_reads_back, pack_block, packed_block, read_half, read_min, read_quant, read_scale,
    BLOCK_BYTES, BLOCK_VALUES, SUB_BLOCKS, SUB_BLOCK_VALUES,
};

verus! {

/// `low` is the smallest of the values of a sub-block, or zero if they are all
/// above it.
pub open spec fn is_sub_block_low<T: Number>(values: Seq<T>, low: T) -> bool {
    exists|start: T, smallest: T, zero: T|
        {
            &&& #[trigger] call_ensures(T::infinity, (), start)
            &&& folds_to(lesser_step::<T>(), start, values, smallest)
            &&& call_ensures(T::decimal, (0i32, 0i32), zero)
            &&& #[trigger] call_ensures(T::lesser, (smallest, zero), low)
        }
}

/// `high` is the largest of the values of a sub-block.
pub open spec fn is_sub_block_high<T: Number>(values: Seq<T>, high: T) -> bool {
    exists|start: T| #[trigger]
        call_ensures(T::neg_infinity, (), start) && folds_to(
            greater_step::<T>(),
            start,
            values,
            high,
        )
}

/// `scale` is a fifteenth of the way from `low` to `high`, or zero if `high` is
/// not above `low`.
pub open spec fn is_sub_block_scale<T: Number>(low: T, high: T, scale: T) -> bool {
    exists|above: bool|
        {
            &&& #[trigger] call_ensures(T::exceeds, (high, low), above)
            &&& if above {
                exists|range: T, levels: T|
                    {
                        &&& call_ensures(T::minus, (high, low), range)
                        &&& call_ensures(T::decimal, (15i32, 0i32), levels)
                        &&& #[trigger] call_ensures(T::over, (range, levels), scale)
                    }
            } else {
                call_ensures(T::decimal, (0i32, 0i32), scale)
            }
        }
}

/// `level` is the number of the level next to `value`, before it is cut off.
pub open spec fn is_level<T: Number>(value: T, low: T, scale: T, level: u8) -> bool {
    exists|offset: T, ratio: T, half: T, rounded: T|
        {
            &&& call_ensures(T::minus, (value, low), offset)
            &&& #[trigger] call_ensures(T::over, (offset, scale), ratio)
            &&& call_ensures(T::decimal, (5i32, -1i32), half)
            &&& #[trigger] call_ensures(T::plus, (ratio, half), rounded)
            &&& call_ensures(T::to_u8, (rounded,), level)
        }
}

/// `quant` is the 4-bit level of `value` above `low`, in steps of `scale`.
pub open spec fn is_quant<T: Number>(value: T, low: T, scale: T, quant: u8) -> bool {
    exists|zero: T, positive: bool|
        {
            &&& call_ensures(T::decimal, (0i32, 0i32), zero)
            &&& #[trigger] call_ensures(T::exceeds, (scale, zero), positive)
            &&& if positive {
                exists|level: u8| #[trigger]
                    is_level(value, low, scale, level) && quant == if level < 15 {
                        level
                    } else {
                        15
                    }
            } else {
                quant == 0
            }
        }
}

/// `scale`, `offset` and `quants` describe a sub-block whose levels are spread
/// from `low` to `high`: `offset` is how far `low` lies below zero.
pub open spec fn is_sub_block_between<T: Number>(
    values: Seq<T>,
    low: T,
    high: T,
    scale: T,
    offset: T,
    quants: Seq<u8>,
) -> bool {
    &&& is_sub_block_scale(low, high, scale)
    &&& call_ensures(T::negated, (low,), offset)
    &&& quants.len() == values.len()
    &&& forall|i: int|
        0 <= i < values.len() ==> is_quant(values[i], low, scale, #[trigger] quants[i])
}

/// `scale`, `offset` and `quants` describe a sub-block whose levels are spread
/// over its values and zero.
pub open spec fn is_sub_block<T: Number>(
    values: Seq<T>,
    scale: T,
    offset: T,
    quants: Seq<u8>,
) -> bool {
    exists|low: T, high: T|
        {
            &&& #[trigger] is_sub_block_low(values, low)
            &&& #[trigger] is_sub_block_high(values, high)
            &&& is_sub_block_between(values, low, high, scale, offset, quants)
        }
}

/// The opposite of the smaller of a number and zero is not below zero. Single
/// precision has this, also for what is not a number.
pub open spec fn clamps_at_zero<T: Number>() -> bool {
    forall|a: T, zero: T, low: T, offset: T, other_zero: T, below: bool|
        #![trigger call_ensures(T::lesser, (a, zero), low), call_ensures(T::negated, (low,), offset), call_ensures(T::below, (offset, other_zero), below)]
        call_ensures(T::decimal, (0i32, 0i32), zero) && call_ensures(T::lesser, (a, zero), low)
            && call_ensures(T::negated, (low,), offset) && call_ensures(
            T::decimal,
            (0i32, 0i32),
            other_zero,
        ) && call_ensures(T::below, (offset, other_zero), below) ==> !below
}

/// The offset of a sub-block is never below zero.
pub proof fn law_offset_is_not_below_zero<T: Number>(
    values: Seq<T>,
    scale: T,
    offset: T,
    quants: Seq<u8>,
    zero: T,
    below: bool,
)
    requires
        clamps_at_zero::<T>(),
        is_sub_block(values, scale, offset, quants),
        call_ensures(T::decimal, (0i32, 0i32), zero),
        call_ensures(T::below, (offset, zero), below),
    ensures
        !below,
{
}

/// A sub-block: its scale, how far its lowest level lies below zero, and a 4-bit
/// level for each value.
pub struct SubBlock<T> {
    pub scale: T,
    pub offset: T,
    pub quants: Vec<u8>,
}

/// The 4-bit level of `value` above `low`, in steps of `scale`.
fn quantize_value<T: Number>(value: T, low: T, scale: T) -> (quant: u8)
    ensures
        is_quant(value, low, scale, quant),
{
    if scale.exceeds(T::decimal(0, 0)) {
        let offset = value.minus(low);
        let ratio = offset.over(scale);
        let half = T::decimal(5, -1);
        let rounded = ratio.plus(half);
        let level: u8 = rounded.to_u8();
        assert(is_level(value, low, scale, level));
        if level < 15 {
            level
        } else {
            15
        }
    } else {
        0
    }
}

/// Spreads sixteen levels over the values of a sub-block and zero.
pub fn quantize_sub_block<T: Number>(values: &[T]) -> (sub: SubBlock<T>)
    ensures
        is_sub_block(values@, sub.scale, sub.offset, sub.quants@),
{
    let smallest = fold_lesser(T::infinity(), values);
    let high = fold_greater(T::neg_infinity(), values);
    let low = smallest.lesser(T::decimal(0, 0));
    let scale = if high.exceeds(low) {
        high.minus(low).over(T::decimal(15, 0))
    } else {
        T::decimal(0, 0)
    };
    let offset = low.negated();
    let mut quants: Vec<u8> = Vec::new();
    let mut i: usize = 0;
    while i < values.len()
        invariant
            i <= values@.len(),
            quants@.len() == i,
            forall|q: int|
                0 <= q < i ==> is_quant(values@[q], low, scale, #[trigger] quants@[q]),
        decreases values@.len() - i,
    {
        quants.push(quantize_value(values[i], low, scale));
        i = i + 1;
    }
    assert(is_sub_block_low(values@, low) && is_sub_block_high(values@, high));
    SubBlock { scale, offset, quants }
}

/// `factor` is one sixty-third of the largest of `values` and zero.
pub open spec fn is_super_scale<T: Number>(values: Seq<T>, factor: T) -> bool {
    exists|zero: T, largest: T, levels: T|
        {
            &&& #[trigger] call_ensures(T::decimal, (0i32, 0i32), zero)
            &&& folds_to(greater_step::<T>(), zero, values, largest)
            &&& call_ensures(T::decimal, (63i32, 0i32), levels)
            &&& #[trigger] call_ensures(T::over, (largest, levels), factor)
        }
}

/// `level` is the number of the step of `factor` next to `value`, at most 63.
pub open spec fn is_six_bit_level<T: Number>(value: T, factor: T, level: u8) -> bool {
    exists|ratio: T, half: T, rounded: T, limit: T, capped: T|
        {
            &&& #[trigger] call_ensures(T::over, (value, factor), ratio)
            &&& call_ensures(T::decimal, (5i32, -1i32), half)
            &&& #[trigger] call_ensures(T::plus, (ratio, half), rounded)
            &&& call_ensures(T::decimal, (63i32, 0i32), limit)
            &&& #[trigger] call_ensures(T::lesser, (rounded, limit), capped)
            &&& call_ensures(T::to_u8, (capped,), level)
        }
}

/// `quant` is the 6-bit level of `value` in steps of `factor`.
pub open spec fn is_six_bit_quant<T: Number>(value: T, factor: T, quant: u8) -> bool {
    exists|zero: T, positive: bool|
        {
            &&& call_ensures(T::decimal, (0i32, 0i32), zero)
            &&& #[trigger] call_ensures(T::exceeds, (factor, zero), positive)
            &&& if positive {
                is_six_bit_level(value, factor, quant)
            } else {
                quant == 0
            }
        }
}

/// `quants` are the 6-bit levels of `values` in steps of `factor`.
pub open spec fn are_six_bit_quants<T: Number>(
    values: Seq<T>,
    factor: T,
    quants: Seq<u8>,
) -> bool {
    &&& quants.len() == values.len()
    &&& forall|s: int|
        0 <= s < values.len() ==> is_six_bit_quant(values[s], factor, #[trigger] quants[s])
}

/// What a block holds, before it is packed.
pub struct BlockParams<T> {
    pub d: T,
    pub dmin: T,
    pub scales: Vec<u8>,
    pub mins: Vec<u8>,
    pub quants: Vec<u8>,
}

/// The values of sub-block `s`.
pub open spec fn sub_block<E>(items: Seq<E>, s: int) -> Seq<E> {
    items.subrange(s * SUB_BLOCK_VALUES, (s + 1) * SUB_BLOCK_VALUES)
}

/// `params` describe the first 256 of `values`, where the eight sub-blocks have
/// the given scales and offsets.
pub open spec fn are_block_params_over<T: Number>(
    values: Seq<T>,
    params: BlockParams<T>,
    scales: Seq<T>,
    offsets: Seq<T>,
) -> bool {
    &&& scales.len() == SUB_BLOCKS
    &&& offsets.len() == SUB_BLOCKS
    &&& params.quants@.len() == BLOCK_VALUES
    &&& forall|s: int|
        0 <= s < SUB_BLOCKS ==> is_sub_block(
            sub_block(values, s),
            #[trigger] scales[s],
            offsets[s],
            sub_block(params.quants@, s),
        )
    &&& is_super_scale(scales, params.d)
    &&& is_super_scale(offsets, params.dmin)
    &&& are_six_bit_quants(scales, params.d, params.scales@)
    &&& are_six_bit_quants(offsets, params.dmin, params.mins@)
}

/// `params` describe the first 256 of `values`.
pub open spec fn are_block_params<T: Number>(values: Seq<T>, params: BlockParams<T>) -> bool {
    exists|scales: Seq<T>, offsets: Seq<T>|
        are_block_params_over(values, params, scales, offsets)
}

/// `bytes` are the block of the first 256 of `values`.
pub open spec fn is_quantized_block<T: Number>(values: Seq<T>, bytes: Seq<u8>) -> bool {
    exists|params: BlockParams<T>, d: u16, dmin: u16|
        {
            &&& are_block_params(values, params)
            &&& #[trigger] call_ensures(T::to_half_bits, (params.d,), d)
            &&& #[trigger] call_ensures(T::to_half_bits, (params.dmin,), dmin)
            &&& bytes == packed_block(d, dmin, params.scales@, params.mins@, params.quants@)
        }
}

/// One sixty-third of the largest of `values` and zero.
fn super_scale<T: Number>(values: &[T]) -> (factor: T)
    ensures
        is_super_scale(values@, factor),
{
    fold_greater(T::decimal(0, 0), values).over(T::decimal(63, 0))
}

/// The 6-bit level of `value` in steps of `factor`.
fn six_bit_quant<T: Number>(value: T, factor: T) -> (quant: u8)
    ensures
        is_six_bit_quant(value, factor, quant),
{
    if factor.exceeds(T::decimal(0, 0)) {
        let ratio = value.over(factor);
        let half = T::decimal(5, -1);
        let rounded = ratio.plus(half);
        let limit = T::decimal(63, 0);
        let capped = rounded.lesser(limit);
        let quant: u8 = capped.to_u8();
        assert(is_six_bit_level(value, factor, quant));
        quant
    } else {
        0
    }
}

/// The 6-bit levels of `values` in steps of `factor`.
fn six_bit_quants<T: Number>(values: &[T], factor: T) -> (quants: Vec<u8>)
    ensures
        are_six_bit_quants(values@, factor, quants@),
{
    let mut quants: Vec<u8> = Vec::new();
    let mut s: usize = 0;
    while s < values.len()
        invariant
            s <= values@.len(),
            quants@.len() == s,
            forall|q: int|
                0 <= q < s ==> is_six_bit_quant(values@[q], factor, #[trigger] quants@[q]),
        decreases values@.len() - s,
    {
        quants.push(six_bit_quant(values[s], factor));
        s = s + 1;
    }
    quants
}

/// What the block of the first 256 of `values` holds.
pub fn block_params<T: Number>(values: &[T]) -> (params: BlockParams<T>)
    requires
        values@.len() >= BLOCK_VALUES,
    ensures
        are_block_params(values@, params),
{
    let mut scales: Vec<T> = Vec::new();
    let mut offsets: Vec<T> = Vec::new();
    let mut quants: Vec<u8> = Vec::new();
    let mut s: usize = 0;
    while s < SUB_BLOCKS
        invariant
            s <= SUB_BLOCKS,
            values@.len() >= BLOCK_VALUES,
            scales@.len() == s,
            offsets@.len() == s,
            quants@.len() == s * SUB_BLOCK_VALUES,
            forall|q: int|
                0 <= q < s ==> is_sub_block(
                    sub_block(values@, q),
                    #[trigger] scales@[q],
                    offsets@[q],
                    sub_block(quants@, q),
                ),
        decreases SUB_BLOCKS - s,
    {
        let mut sub = quantize_sub_block(
            vstd::slice::slice_subrange(values, s * SUB_BLOCK_VALUES, (s + 1) * SUB_BLOCK_VALUES),
        );
        let ghost earlier = quants@;
        let ghost added = sub.quants@;
        scales.push(sub.scale);
        offsets.push(sub.offset);
        quants.append(&mut sub.quants);
        proof {
            assert(quants@ =~= earlier + added);
            assert(sub_block(quants@, s as int) =~= added);
            assert forall|q: int| 0 <= q < s implies sub_block(quants@, q) == sub_block(
                earlier,
                q,
            ) by {
                assert(sub_block(quants@, q) =~= sub_block(earlier, q));
            }
        }
        s = s + 1;
    }
    let d = super_scale(scales.as_slice());
    let dmin = super_scale(offsets.as_slice());
    let params = BlockParams {
        d,
        dmin,
        scales: six_bit_quants(scales.as_slice(), d),
        mins: six_bit_quants(offsets.as_slice(), dmin),
        quants,
    };
    assert(are_block_params_over(values@, params, scales@, offsets@));
    params
}

/// Writes the block of the first 256 of `vals` at the front of `block`.
pub fn quantize_block_q4k<T: Number>(vals: &[T], block: &mut [u8])
    requires
        vals@.len() >= BLOCK_VALUES,
        old(block)@.len() >= BLOCK_BYTES,
    ensures
        final(block)@.len() == old(block)@.len(),
        is_quantized_block(vals@, final(block)@.take(BLOCK_BYTES as int)),
        final(block)@.skip(BLOCK_BYTES as int) == old(block)@.skip(BLOCK_BYTES as int),
{
    let params = block_params(vals);
    let d: u16 = params.d.to_half_bits();
    let dmin: u16 = params.dmin.to_half_bits();
    let ghost before = block@;
    pack_block(
        d,
        dmin,
        params.scales.as_slice(),
        params.mins.as_slice(),
        params.quants.as_slice(),
        block,
    );
    proof {
        let bytes = packed_block(d, dmin, params.scales@, params.mins@, params.quants@);
        assert(block@.take(144) =~= bytes);
        assert(block@.skip(144) =~= before.skip(144));
    }
}

/// Every quant of a block takes four bits.
pub proof fn lemma_quants_are_small<T: Number>(values: Seq<T>, params: BlockParams<T>)
    requires
        are_block_params(values, params),
    ensures
        forall|t: int| 0 <= t < BLOCK_VALUES ==> #[trigger] params.quants@[t] < 16,
{
    let (scales, offsets) = choose|scales: Seq<T>, offsets: Seq<T>|
        are_block_params_over(values, params, scales, offsets);
    assert forall|t: int| 0 <= t < BLOCK_VALUES implies #[trigger] params.quants@[t] < 16 by {
        let s = t / 32;
        let subs = sub_block(params.quants@, s);
        assert(is_sub_block(sub_block(values, s), scales[s], offsets[s], subs));
        assert(subs[t % 32] == params.quants@[t]);
        assert(subs[t % 32] < 16);
    }
}

/// A level that was capped at 63 takes six bits. Single precision has this, also
/// for what is not a number.
pub open spec fn caps_levels<T: Number>() -> bool {
    forall|value: T, limit: T, capped: T, level: u8| #[trigger]
        call_ensures(T::lesser, (value, limit), capped) && #[trigger] call_ensures(
            T::to_u8,
            (capped,),
            level,
        ) && call_ensures(T::decimal, (63i32, 0i32), limit) ==> level < 64
}

/// A reader of a quantised block finds all that it was made of: the factors, the
/// 6-bit scale and minimum of every sub-block and the 4-bit level of every value.
pub proof fn law_capped_block_reads_back<T: Number>(values: Seq<T>, bytes: Seq<u8>)
    requires
        caps_levels::<T>(),
        is_quantized_block(values, bytes),
    ensures
        bytes.len() == BLOCK_BYTES,
        exists|params: BlockParams<T>, d: u16, dmin: u16|
            {
                &&& are_block_params(values, params)
                &&& #[trigger] call_ensures(T::to_half_bits, (params.d,), d)
                &&& #[trigger] call_ensures(T::to_half_bits, (params.dmin,), dmin)
                &&& read_half(bytes, 0) == d
                &&& read_half(bytes, 2) == dmin
                &&& forall|j: int|
                    0 <= j < SUB_BLOCKS ==> #[trigger] read_scale(bytes, j) == params.scales@[j]
                &&& forall|j: int|
                    0 <= j < SUB_BLOCKS ==> #[trigger] read_min(bytes, j) == params.mins@[j]
                &&& forall|t: int|
                    0 <= t < BLOCK_VALUES ==> #[trigger] read_quant(bytes, t)
                        == params.quants@[t]
            },
{
    law_quantized_block_reads_back(values, bytes);
    let (params, d, dmin) = choose|params: BlockParams<T>, d: u16, dmin: u16|
        {
            &&& are_block_params(values, params)
            &&& #[trigger] call_ensures(T::to_half_bits, (params.d,), d)
            &&& #[trigger] call_ensures(T::to_half_bits, (params.dmin,), dmin)
            &&& read_half(bytes, 0) == d
            &&& read_half(bytes, 2) == dmin
            &&& forall|j: int|
                0 <= j < SUB_BLOCKS && params.scales@[j] < 64 ==> #[trigger] read_scale(bytes, j)
                    == params.scales@[j]
            &&& forall|j: int|
                0 <= j < SUB_BLOCKS && params.mins@[j] < 64 ==> #[trigger] read_min(bytes, j)
                    == params.mins@[j]
            &&& forall|t: int|
                0 <= t < BLOCK_VALUES ==> #[trigger] read_quant(bytes, t) == params.quants@[t]
        };
    let (scales, offsets) = choose|scales: Seq<T>, offsets: Seq<T>|
        are_block_params_over(values, params, scales, offsets);
    assert forall|j: int| 0 <= j < SUB_BLOCKS implies #[trigger] params.scales@[j] < 64 by {
        lemma_six_bit_quant_is_small(scales[j], params.d, params.scales@[j]);
    }
    assert forall|j: int| 0 <= j < SUB_BLOCKS implies #[trigger] params.mins@[j] < 64 by {
        lemma_six_bit_quant_is_small(offsets[j], params.dmin, params.mins@[j]);
    }
}

/// A 6-bit level takes six bits.
proof fn lemma_six_bit_quant_is_small<T: Number>(value: T, factor: T, quant: u8)
    requires
        caps_levels::<T>(),
        is_six_bit_quant(value, factor, quant),
    ensures
        quant < 64,
{
}

/// A reader of a quantised block finds the factors, the 4-bit level of every
/// value, and the scale and minimum of every sub-block that take six bits.
pub proof fn law_quantized_block_reads_back<T: Number>(values: Seq<T>, bytes: Seq<u8>)
    requires
        is_quantized_block(values, bytes),
    ensures
        bytes.len() == BLOCK_BYTES,
        exists|params: BlockParams<T>, d: u16, dmin: u16|
            {
                &&& are_block_params(values, params)
                &&& #[trigger] call_ensures(T::to_half_bits, (params.d,), d)
                &&& #[trigger] call_ensures(T::to_half_bits, (params.dmin,), dmin)
                &&& read_half(bytes, 0) == d
                &&& read_half(bytes, 2) == dmin
                &&& forall|j: int|
                    0 <= j < SUB_BLOCKS && params.scales@[j] < 64 ==> #[trigger] read_scale(
                        bytes,
                        j,
                    ) == params.scales@[j]
                &&& forall|j: int|
                    0 <= j < SUB_BLOCKS && params.mins@[j] < 64 ==> #[trigger] read_min(bytes, j)
                        == params.mins@[j]
                &&& forall|t: int|
                    0 <= t < BLOCK_VALUES ==> #[trigger] read_quant(bytes, t)
                        == params.quants@[t]
            },
{
    let (params, d, dmin) = choose|params: BlockParams<T>, d: u16, dmin: u16|
        {
            &&& are_block_params(values, params)
            &&& #[trigger] call_ensures(T::to_half_bits, (params.d,), d)
            &&& #[trigger] call_ensures(T::to_half_bits, (params.dmin,), dmin)
            &&& bytes == packed_block(d, dmin, params.scales@, params.mins@, params.quants@)
        };
    lemma_quants_are_small(values, params);
    law_block_reads_back(d, dmin, params.scales@, params.mins@, params.quants@);
}

/// `values` are column `n` of a matrix of 256 rows and `n_cols` columns.
pub open spec fn is_column<T: Number>(
    b: Seq<u16>,
    n_cols: int,
    batch: int,
    n: int,
    values: Seq<T>,
) -> bool {
    &&& values.len() == BLOCK_VALUES
    &&& forall|k: int|
        0 <= k < BLOCK_VALUES ==> call_ensures(
            T::from_half_bits,
            (b[at(batch, k, n, BLOCK_VALUES as int, n_cols)],),
            #[trigger] values[k],
        )
}

/// `bytes` are the block of column `n` of a matrix of 256 rows and `n_cols`
/// columns.
pub open spec fn is_column_block<T: Number>(
    b: Seq<u16>,
    n_cols: int,
    batch: int,
    n: int,
    bytes: Seq<u8>,
) -> bool {
    exists|values: Seq<T>| #[trigger]
        is_column(b, n_cols, batch, n, values) && is_quantized_block(values, bytes)
}

/// The number of the block of column `n`.
pub open spec fn block_index(batch: int, n: int, n_cols: int) -> int {
    batch * n_cols + n
}

/// The bytes of block number `index`.
pub open spec fn nth_block(bytes: Seq<u8>, index: int) -> Seq<u8> {
    bytes.subrange(index * BLOCK_BYTES, (index + 1) * BLOCK_BYTES)
}

/// `out` holds one block for each column of a batch of matrices of 256 rows and
/// `n_cols` columns, in order.
pub open spec fn are_column_blocks<T: Number>(
    b: Seq<u16>,
    n_cols: int,
    batch_size: int,
    out: Seq<u8>,
) -> bool {
    &&& out.len() == batch_size * n_cols * BLOCK_BYTES
    &&& forall|batch: int, n: int|
        0 <= batch < batch_size && 0 <= n < n_cols ==> is_column_block::<T>(
            b,
            n_cols,
            batch,
            n,
            #[trigger] nth_block(out, block_index(batch, n, n_cols)),
        )
}

/// Column `n` of a matrix of 256 rows and `n_cols` columns.
fn column<T: Number>(
    b: &[u16],
    n_cols: usize,
    batch: usize,
    n: usize,
    batch_size: usize,
) -> (values: Vec<T>)
    requires
        batch < batch_size,
        n < n_cols,
        batch_size * BLOCK_VALUES * n_cols <= b@.len(),
    ensures
        is_column(b@, n_cols as int, batch as int, n as int, values@),
{
    let len: usize = b.len();
    let mut values: Vec<T> = Vec::new();
    let mut k: usize = 0;
    while k < BLOCK_VALUES
        invariant
            k <= BLOCK_VALUES,
            batch < batch_size,
            n < n_cols,
            batch_size * BLOCK_VALUES * n_cols <= len == b@.len(),
            values@.len() == k,
            forall|q: int|
                0 <= q < k ==> call_ensures(
                    T::from_half_bits,
                    (b@[at(batch as int, q, n as int, BLOCK_VALUES as int, n_cols as int)],),
                    #[trigger] values@[q],
                ),
        decreases BLOCK_VALUES - k,
    {
        proof {
            lemma_at_bound(
                batch as int,
                k as int,
                n as int,
                batch_size as int,
                BLOCK_VALUES as int,
                n_cols as int,
            );
        }
        values.push(T::from_half_bits(b[batch * BLOCK_VALUES * n_cols + k * n_cols + n]));
        k = k + 1;
    }
    values
}

/// Quantises each column of a batch of matrices to one block.
///
/// `b_f16` holds `k_rows` rows of `n_cols` elements for each batch, and a column
/// must fill a block.
pub fn quantize_b_q4k<T: Number>(
    b_f16: &[u16],
    n_cols: usize,
    k_rows: usize,
    batch_size: usize,
) -> (out: Vec<u8>)
    requires
        k_rows == BLOCK_VALUES,
        batch_size * k_rows * n_cols <= b_f16@.len(),
        batch_size * n_cols * BLOCK_BYTES <= usize::MAX,
    ensures
        are_column_blocks::<T>(b_f16@, n_cols as int, batch_size as int, out@),
{
    proof {
        assert(0 <= batch_size * n_cols <= batch_size * n_cols * 144) by (nonlinear_arith);
    }
    let blocks: usize = batch_size * n_cols;
    let mut out: Vec<u8> = vec![0u8; blocks * BLOCK_BYTES];
    let mut batch: usize = 0;
    while batch < batch_size
        invariant
            batch <= batch_size,
            batch_size * BLOCK_VALUES * n_cols <= b_f16@.len(),
            blocks == batch_size * n_cols,
            blocks * BLOCK_BYTES <= usize::MAX,
            out@.len() == blocks * BLOCK_BYTES,
            forall|q: int, c: int|
                0 <= q < batch && 0 <= c < n_cols ==> is_column_block::<T>(
                    b_f16@,
                    n_cols as int,
                    q,
                    c,
                    #[trigger] nth_block(out@, block_index(q, c, n_cols as int)),
                ),
        decreases batch_size - batch,
    {
        let mut n: usize = 0;
        while n < n_cols
            invariant
                batch < batch_size,
                n <= n_cols,
                batch_size * BLOCK_VALUES * n_cols <= b_f16@.len(),
                blocks == batch_size * n_cols,
                blocks * BLOCK_BYTES <= usize::MAX,
                out@.len() == blocks * BLOCK_BYTES,
                forall|q: int, c: int|
                    (0 <= q < batch && 0 <= c < n_cols || q == batch && 0 <= c < n)
                        ==> is_column_block::<T>(
                        b_f16@,
                        n_cols as int,
                        q,
                        c,
                        #[trigger] nth_block(out@, block_index(q, c, n_cols as int)),
                    ),
            decreases n_cols - n,
        {
            let vals: Vec<T> = column(b_f16, n_cols, batch, n, batch_size);
            proof {
                lemma_block_order(batch as int, n as int, n_cols as int, batch_size as int);
            }
            let block_idx: usize = batch * n_cols + n;
            let ghost earlier = out@;
            let (_, rest) = out.as_mut_slice().split_at_mut(block_idx * BLOCK_BYTES);
            quantize_block_q4k(vals.as_slice(), rest);
            let ghost tail = rest@;
            proof {
                let start = block_idx * BLOCK_BYTES;
                assert(out@ == earlier.take(start) + tail);
                assert(nth_block(out@, block_idx as int) =~= tail.take(144));
                assert forall|q: int, c: int|
                    (0 <= q < batch && 0 <= c < n_cols || q == batch && 0 <= c < n + 1) implies
                    is_column_block::<T>(
                    b_f16@,
                    n_cols as int,
                    q,
                    c,
                    #[trigger] nth_block(out@, block_index(q, c, n_cols as int)),
                ) by {
                    lemma_block_order(q, c, n_cols as int, batch_size as int);
                    if q == batch && c == n {
                        assert(is_column(b_f16@, n_cols as int, q, c, vals@));
                    } else {
                        lemma_block_before(q, c, batch as int, n as int, n_cols as int);
                        assert(nth_block(out@, block_index(q, c, n_cols as int)) =~= nth_block(
                            earlier,
                            block_index(q, c, n_cols as int),
                        ));
                    }
                }
            }
            n = n + 1;
        }
        batch = batch + 1;
    }
    out
}

/// Every column has a block among those of the batch.
proof fn lemma_block_order(batch: int, n: int, n_cols: int, batch_size: int)
    requires
        0 <= batch < batch_size,
        0 <= n < n_cols,
    ensures
        0 <= batch * n_cols,
        0 <= block_index(batch, n, n_cols) < batch_size * n_cols,
{
    assert(0 <= batch * n_cols && batch * n_cols + n < batch_size * n_cols) by (nonlinear_arith)
        requires
            0 <= batch < batch_size,
            0 <= n < n_cols,
    ;
}

/// The blocks of earlier columns come earlier.
proof fn lemma_block_before(batch1: int, n1: int, batch2: int, n2: int, n_cols: int)
    requires
        0 <= n1 < n_cols,
        0 <= n2 < n_cols,
        batch1 < batch2 || batch1 == batch2 && n1 < n2,
    ensures
        block_index(batch1, n1, n_cols) < block_index(batch2, n2, n_cols),
{
    assert(batch1 < batch2 ==> batch1 * n_cols + n_cols <= batch2 * n_cols) by (nonlinear_arith)
        requires
            0 <= n_cols,
    ;
}

/// The block of a column holds the numbers that the column brings to the
/// reference product: value `l` of the block and the second factor of term `l`
/// stand for the same half-precision element.
pub proof fn law_blocks_hold_the_factors<T: Number>(
    a: Seq<T>,
    b: Seq<u16>,
    bf: Seq<T>,
    values: Seq<T>,
    m: int,
    n: int,
    batch_size: int,
    batch: int,
    i: int,
    j: int,
    l: int,
)
    requires
        is_widened(b, bf),
        batch_size * BLOCK_VALUES * n <= b.len(),
        is_column(b, n, batch, j, values),
        0 <= batch < batch_size,
        0 <= j < n,
        0 <= l < BLOCK_VALUES,
    ensures
        exists|bits: u16|
            {
                &&& #[trigger] call_ensures(T::from_half_bits, (bits,), values[l])
                &&& call_ensures(
                    T::from_half_bits,
                    (bits,),
                    dot_terms(a, bf, m, n, BLOCK_VALUES as int, batch, i, j)[l].1,
                )
            },
{
    let p = at(batch, l, j, BLOCK_VALUES as int, n);
    lemma_at_bound(batch, l, j, batch_size, BLOCK_VALUES as int, n);
    assert(call_ensures(T::from_half_bits, (b[p],), bf[p]));
    assert(call_ensures(T::from_half_bits, (b[p],), values[l]));
}

} // verus!

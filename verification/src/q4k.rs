//! The Q4_K block format: 256 quantised values in 144 bytes.
//!
//! A block holds two half-precision factors `d` and `dmin`, then eight pairs of
//! a 6-bit scale and a 6-bit minimum packed into 12 bytes, then 256 4-bit
//! quants, two to a byte. A reader restores a value of sub-block `j` as
//! `d * scale[j] * quant - dmin * min[j]`.
use vstd::prelude::*;

verus! {

/// How many values one block holds.
pub const BLOCK_VALUES: usize = 256;

/// How many bytes one block takes.
pub const BLOCK_BYTES: usize = 144;

/// How many sub-blocks one block has.
pub const SUB_BLOCKS: usize = 8;

/// How many values one sub-block holds.
pub const SUB_BLOCK_VALUES: usize = 32;

/// The two bytes of a half-precision number, the low one first.
pub open spec fn half_bytes(bits: u16) -> Seq<u8> {
    seq![(bits % 256) as u8, (bits / 256) as u8]
}

/// The 12 bytes that hold eight 6-bit scales and eight 6-bit minima.
///
/// The first four of each take the low six bits of a byte. Of the other four,
/// the low four bits share a byte, and the two high bits go on top of the first
/// four.
pub open spec fn packed_scales(scales: Seq<u8>, mins: Seq<u8>) -> Seq<u8> {
    Seq::new(
        12,
        |t: int|
            if t < 4 {
                (scales[t] & 63) | ((scales[t + 4] >> 4) << 6)
            } else if t < 8 {
                (mins[t - 4] & 63) | ((mins[t] >> 4) << 6)
            } else {
                (scales[t - 4] & 0xF) | ((mins[t - 4] & 0xF) << 4)
            },
    )
}

/// The bytes that hold 4-bit quants, two to a byte, the first one low.
pub open spec fn packed_quants(quants: Seq<u8>) -> Seq<u8> {
    Seq::new(
        (quants.len() / 2) as nat,
        |t: int| (quants[2 * t] & 0xF) | ((quants[2 * t + 1] & 0xF) << 4),
    )
}

/// The bytes of a block.
pub open spec fn packed_block(
    d: u16,
    dmin: u16,
    scales: Seq<u8>,
    mins: Seq<u8>,
    quants: Seq<u8>,
) -> Seq<u8> {
    half_bytes(d) + half_bytes(dmin) + packed_scales(scales, mins) + packed_quants(quants)
}

/// The half-precision number whose two bytes stand at `place`.
pub open spec fn read_half(block: Seq<u8>, place: int) -> int {
    block[place] + 256 * block[place + 1]
}

/// The scale of sub-block `j`, as a reader takes it from a block.
pub open spec fn read_scale(block: Seq<u8>, j: int) -> u8 {
    if j < 4 {
        block[4 + j] & 63
    } else {
        (block[4 + j + 4] & 0xF) | ((block[4 + j - 4] >> 6) << 4)
    }
}

/// The minimum of sub-block `j`, as a reader takes it from a block.
pub open spec fn read_min(block: Seq<u8>, j: int) -> u8 {
    if j < 4 {
        block[4 + j + 4] & 63
    } else {
        (block[4 + j + 4] >> 4) | ((block[4 + j] >> 6) << 4)
    }
}

/// The quant of value `t`, as a reader takes it from a block.
pub open spec fn read_quant(block: Seq<u8>, t: int) -> u8 {
    if t % 2 == 0 {
        block[16 + t / 2] & 0xF
    } else {
        block[16 + t / 2] >> 4
    }
}

/// Writes one block at the front of `block`.
pub fn pack_block(
    d: u16,
    dmin: u16,
    scales: &[u8],
    mins: &[u8],
    quants: &[u8],
    block: &mut [u8],
)
    requires
        scales@.len() == SUB_BLOCKS,
        mins@.len() == SUB_BLOCKS,
        quants@.len() == BLOCK_VALUES,
        old(block)@.len() >= BLOCK_BYTES,
    ensures
        final(block)@ == packed_block(d, dmin, scales@, mins@, quants@) + old(block)@.skip(
            BLOCK_BYTES as int,
        ),
{
    let len: usize = block.len();
    let ghost before = block@;
    block[0] = (d % 256) as u8;
    block[1] = (d / 256) as u8;
    block[2] = (dmin % 256) as u8;
    block[3] = (dmin / 256) as u8;

    let ghost bytes = packed_scales(scales@, mins@);
    let mut j: usize = 0;
    while j < 4
        invariant
            j <= 4,
            scales@.len() == 8,
            mins@.len() == 8,
            block@.len() == len == before.len(),
            len >= 144,
            bytes == packed_scales(scales@, mins@),
            block@.take(4) =~= half_bytes(d) + half_bytes(dmin),
            forall|p: int| 4 <= p < 16 && p % 4 < j ==> #[trigger] block@[p] == bytes[p - 4],
            forall|p: int| 16 <= p < len ==> block@[p] == before[p],
        decreases 4 - j,
    {
        block[4 + j] = (scales[j] & 63) | ((scales[j + 4] >> 4) << 6);
        block[8 + j] = (mins[j] & 63) | ((mins[j + 4] >> 4) << 6);
        block[12 + j] = (scales[j + 4] & 0xF) | ((mins[j + 4] & 0xF) << 4);
        j = j + 1;
    }

    let ghost nibbles = packed_quants(quants@);
    let mut t: usize = 0;
    while t < 128
        invariant
            t <= 128,
            quants@.len() == 256,
            block@.len() == len == before.len(),
            len >= 144,
            nibbles == packed_quants(quants@),
            block@.take(4) =~= half_bytes(d) + half_bytes(dmin),
            bytes.len() == 12,
            forall|p: int| 4 <= p < 16 ==> #[trigger] block@[p] == bytes[p - 4],
            forall|p: int| 16 <= p < 16 + t ==> #[trigger] block@[p] == nibbles[p - 16],
            forall|p: int| 144 <= p < len ==> block@[p] == before[p],
        decreases 128 - t,
    {
        block[16 + t] = (quants[2 * t] & 0xF) | ((quants[2 * t + 1] & 0xF) << 4);
        t = t + 1;
    }
    proof {
        let whole = packed_block(d, dmin, scales@, mins@, quants@);
        assert forall|p: int| 0 <= p < 4 implies block@[p] == whole[p] by {
            assert(block@[p] == block@.take(4)[p]);
        }
        assert(block@ =~= whole + before.skip(144));
    }
}

/// A reader gets back what a block was packed from: the factors, every scale and
/// minimum of six bits and every quant of four.
pub proof fn law_block_reads_back(
    d: u16,
    dmin: u16,
    scales: Seq<u8>,
    mins: Seq<u8>,
    quants: Seq<u8>,
)
    requires
        scales.len() == SUB_BLOCKS,
        mins.len() == SUB_BLOCKS,
        quants.len() == BLOCK_VALUES,
    ensures
        packed_block(d, dmin, scales, mins, quants).len() == BLOCK_BYTES,
        read_half(packed_block(d, dmin, scales, mins, quants), 0) == d,
        read_half(packed_block(d, dmin, scales, mins, quants), 2) == dmin,
        forall|j: int|
            0 <= j < SUB_BLOCKS && scales[j] < 64 ==> #[trigger] read_scale(
                packed_block(d, dmin, scales, mins, quants),
                j,
            ) == scales[j],
        forall|j: int|
            0 <= j < SUB_BLOCKS && mins[j] < 64 ==> #[trigger] read_min(
                packed_block(d, dmin, scales, mins, quants),
                j,
            ) == mins[j],
        forall|t: int|
            0 <= t < BLOCK_VALUES && quants[t] < 16 ==> #[trigger] read_quant(
                packed_block(d, dmin, scales, mins, quants),
                t,
            ) == quants[t],
{
    let block = packed_block(d, dmin, scales, mins, quants);
    let bytes = packed_scales(scales, mins);
    let nibbles = packed_quants(quants);
    assert forall|p: int| 4 <= p < 16 implies #[trigger] block[p] == bytes[p - 4] by {}
    assert forall|p: int| 16 <= p < 144 implies #[trigger] block[p] == nibbles[p - 16] by {}
    assert forall|j: int| 0 <= j < SUB_BLOCKS && scales[j] < 64 implies #[trigger] read_scale(
        block,
        j,
    ) == scales[j] by {
        if j < 4 {
            lemma_low_six_bits(scales[j], scales[j + 4]);
        } else {
            lemma_high_two_bits(scales[j - 4], scales[j]);
            lemma_nibbles(scales[j], mins[j]);
            lemma_split_six_bits(scales[j]);
        }
    }
    assert forall|j: int| 0 <= j < SUB_BLOCKS && mins[j] < 64 implies #[trigger] read_min(block, j)
        == mins[j] by {
        if j < 4 {
            lemma_low_six_bits(mins[j], mins[j + 4]);
        } else {
            lemma_high_two_bits(mins[j - 4], mins[j]);
            lemma_nibbles(scales[j], mins[j]);
            lemma_split_six_bits(mins[j]);
        }
    }
    assert forall|t: int| 0 <= t < BLOCK_VALUES && quants[t] < 16 implies #[trigger] read_quant(
        block,
        t,
    ) == quants[t] by {
        let low = quants[2 * (t / 2)];
        let high = quants[2 * (t / 2) + 1];
        lemma_nibbles(low, high);
        lemma_small_nibble(quants[t]);
    }
}

/// The low six bits of a byte come through under two bits of another.
proof fn lemma_low_six_bits(low: u8, high: u8)
    by (bit_vector)
    requires
        low < 64,
    ensures
        ((low & 63) | ((high >> 4) << 6)) & 63 == low,
{
}

/// Two bits of another byte come through above six low bits.
proof fn lemma_high_two_bits(low: u8, high: u8)
    by (bit_vector)
    requires
        high < 64,
    ensures
        ((low & 63) | ((high >> 4) << 6)) >> 6 == high >> 4,
{
}

/// Both halves of a byte come through.
proof fn lemma_nibbles(low: u8, high: u8)
    by (bit_vector)
    ensures
        ((low & 0xF) | ((high & 0xF) << 4)) & 0xF == low & 0xF,
        ((low & 0xF) | ((high & 0xF) << 4)) >> 4 == high & 0xF,
{
}

/// Six bits are four low bits and two high bits.
proof fn lemma_split_six_bits(value: u8)
    by (bit_vector)
    requires
        value < 64,
    ensures
        (value & 0xF) | ((value >> 4) << 4) == value,
{
}

/// Four bits are not cut off by a mask of four bits.
proof fn lemma_small_nibble(value: u8)
    by (bit_vector)
    requires
        value < 16,
    ensures
        value & 0xF == value,
{
}

} // verus!

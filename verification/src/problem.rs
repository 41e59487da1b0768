//! The fixed problem: its dimensions, the sizes of its buffers and its data.
use vstd::arithmetic::power2::{
    lemma2_to64, lemma_pow2_pos, lemma_pow2_strictly_increases, lemma_pow2_unfold, pow2,
};
use vstd::prelude::*;

use crate::matrix::{
    cell_seed_fits, generate_data, is_generated, is_reference_product, reference_gemm,
};
use crate::number::Number;
use crate::quantize::{are_column_blocks, quantize_b_q4k};

verus! {

/// How many products one launch computes.
pub const BATCH_SIZE: usize = 36;

/// How many rows the first operand's transpose has.
pub const M: usize = 256;

/// How many columns the second operand has.
pub const N: usize = 32;

/// How many terms each element of the product sums up: the values of one block.
pub const K: usize = 256;

/// `result` is the smallest power of two that is no smaller than `x`.
pub open spec fn is_next_power_of_two(x: nat, result: nat) -> bool {
    &&& exists|e: nat| result == #[trigger] pow2(e)
    &&& x <= result
    &&& forall|e: nat| x <= #[trigger] pow2(e) ==> result <= pow2(e)
}

/// The smallest power of two that is no smaller than `x`.
pub fn next_power_of_two(x: usize) -> (result: usize)
    requires
        x <= usize::MAX / 2 + 1,
    ensures
        is_next_power_of_two(x as nat, result as nat),
{
    let mut result: usize = 1;
    let ghost mut exponent: nat = 0;
    proof {
        lemma2_to64();
        assert forall|e: nat| x <= #[trigger] pow2(e) implies result <= pow2(e) by {
            lemma_pow2_pos(e);
        }
    }
    while result < x
        invariant
            x <= usize::MAX / 2 + 1,
            result == pow2(exponent),
            1 <= result,
            forall|e: nat| x <= #[trigger] pow2(e) ==> result <= pow2(e),
        decreases 2 * x - result,
    {
        proof {
            lemma_pow2_unfold(exponent + 1);
            assert forall|e: nat| x <= #[trigger] pow2(e) implies 2 * result <= pow2(e) by {
                if e <= exponent {
                    if e < exponent {
                        lemma_pow2_strictly_increases(e, exponent);
                    }
                } else if e > exponent + 1 {
                    lemma_pow2_strictly_increases(exponent + 1, e);
                }
            }
            exponent = exponent + 1;
        }
        result = result * 2;
    }
    result
}

/// A power of two is its own next power of two.
pub proof fn law_power_of_two_is_kept(exponent: nat, result: nat)
    requires
        is_next_power_of_two(pow2(exponent), result),
    ensures
        result == pow2(exponent),
{
}

/// The next power of two is a power of two, no smaller than the number and less than
/// twice as large.
pub proof fn law_next_power_of_two_is_close(x: usize, result: usize)
    requires
        call_ensures(next_power_of_two, (x,), result),
    ensures
        exists|e: nat| result == #[trigger] pow2(e),
        x <= result,
        x >= 1 ==> result < 2 * x,
        x == 0 ==> result == 1,
{
    let e = choose|e: nat| result == #[trigger] pow2(e);
    lemma2_to64();
    if e > 0 {
        lemma_pow2_unfold(e);
        let half = pow2((e - 1) as nat);
        lemma_pow2_pos((e - 1) as nat);
        assert(half < result);
        assert(x > half);
    }
}

/// How many elements the buffer of the first operand holds.
pub fn at_size() -> (size: usize)
    ensures
        size == BATCH_SIZE * K * M,
{
    let m_max: usize = if M < 64 { 64 } else { M };
    let k_max: usize = if K < 32 { 32 } else { K };
    proof {
        lemma2_to64();
    }
    BATCH_SIZE * next_power_of_two(k_max) * next_power_of_two(m_max)
}

/// How many elements the buffer of the products holds: each product is stored
/// with at least 64 columns.
pub fn c_size() -> (size: usize)
    ensures
        size == BATCH_SIZE * M * 64,
{
    let m_max: usize = if M < 64 { 64 } else { M };
    let n_max: usize = if N < 64 { 64 } else { N };
    proof {
        lemma2_to64();
    }
    BATCH_SIZE * next_power_of_two(m_max) * next_power_of_two(n_max)
}

/// The data of the fixed problem.
pub struct TestData {
    /// The first operand, `M` rows of `K` in the generated pattern.
    pub a: Vec<u16>,
    /// The second operand, `K` rows of `N`.
    pub b: Vec<u16>,
    /// The expected products.
    pub c_ref: Vec<u16>,
    /// The second operand, one block for each column.
    pub b_q4k: Vec<u8>,
}

/// The small indices of the fixed problem give small seeds.
proof fn lemma_seed_fits(i: usize, j: usize, batch: usize)
    requires
        i < 256,
        j < 256,
        batch < 256,
    ensures
        cell_seed_fits(i, j, batch),
{
    assert(i ^ j < 256) by (bit_vector)
        requires
            i < 256,
            j < 256,
    ;
}

/// Generates the operands, multiplies them and quantises the second one.
pub fn prepare<T: Number>() -> (data: TestData)
    ensures
        data.a@.len() == BATCH_SIZE * K * M,
        is_generated::<T>(data.a@, K, M, BATCH_SIZE, K, M),
        data.b@.len() == BATCH_SIZE * K * N,
        is_generated::<T>(data.b@, N, K, BATCH_SIZE, N, K),
        data.c_ref@.len() == BATCH_SIZE * M * 64,
        is_reference_product::<T>(
            data.a@,
            data.b@,
            data.c_ref@,
            M as int,
            N as int,
            K as int,
            BATCH_SIZE as int,
        ),
        forall|p: int|
            BATCH_SIZE * M * N <= p < data.c_ref@.len() ==> #[trigger] data.c_ref@[p] == 0,
        are_column_blocks::<T>(data.b@, N as int, BATCH_SIZE as int, data.b_q4k@),
{
    let mut a: Vec<u16> = vec![0u16; at_size()];
    let mut b: Vec<u16> = vec![0u16; BATCH_SIZE * K * N];
    let mut c_ref: Vec<u16> = vec![0u16; c_size()];
    proof {
        assert forall|batch: usize, i: usize, j: usize|
            batch < 36 && i < 256 && j < 256 implies #[trigger] cell_seed_fits(i, j, batch) by {
            lemma_seed_fits(i, j, batch);
        }
    }
    generate_data::<T>(a.as_mut_slice(), K, M, BATCH_SIZE, K, M);
    generate_data::<T>(b.as_mut_slice(), N, K, BATCH_SIZE, N, K);
    reference_gemm::<T>(a.as_slice(), b.as_slice(), c_ref.as_mut_slice(), M, N, K, BATCH_SIZE);
    let b_q4k: Vec<u8> = quantize_b_q4k::<T>(b.as_slice(), N, K, BATCH_SIZE);
    TestData { a, b, c_ref, b_q4k }
}

} // verus!

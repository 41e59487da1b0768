//! What the data of the fixed problem hold.
//!
//! The laws read every number through a [`Reading`] and speak of integers.
use vstd::arithmetic::div_mod::lemma_fundamental_div_mod;
use vstd::prelude::*;

use crate::matrix_accuracy::{
    element_products, element_sizes, half_value, is_small, law_generated_elements,
    law_product_elements, reads_parts, total,
};
use crate::number::{is_half_finite, Number};
use crate::problem::{at_size, c_size, prepare, TestData};
use crate::quantize_accuracy::{
    lemma_column_restores, reads_levels, stored_half, stored_mins, stored_quants, stored_scales,
};
use crate::reading::{
    is_fine, is_near, reads_constants, reads_halves, reads_products, reads_sums, size, Reading,
};

verus! {

/// A small integer that differs from one below 256 in magnitude by a multiple of
/// 256, and has its sign, is that integer.
proof fn lemma_small_seed(seed: int, n: int)
    requires
        -256 < seed < 256,
        is_small(n),
        (seed - n) % 256 == 0,
        n > 0 ==> seed > 0,
        n < 0 ==> seed < 0,
    ensures
        n == seed,
{
    lemma_fundamental_div_mod(seed - n, 256);
}

/// The exclusive or of two small indices is small.
proof fn lemma_small_xor(i: usize, j: usize)
    requires
        i < 256,
        j < 256,
    ensures
        i ^ j < 256,
{
    assert(i ^ j < 256) by (bit_vector)
        requires
            i < 256,
            j < 256,
    ;
}

/// The buffers hold 36 matrices of 256 by 256, and 36 of 256 by 64.
pub proof fn law_buffers_hold_the_batch(a: usize, c: usize)
    requires
        call_ensures(at_size, (), a),
        call_ensures(c_size, (), c),
    ensures
        a == 36 * 256 * 256,
        c == 36 * 256 * 64,
{
}

/// Every element of both operands is a 256th part of the exclusive or of its row and
/// its column, shifted by its batch and by 128. There are 36 matrices of 256 rows in
/// each, of 256 columns in the first and of 32 in the second.
pub proof fn law_prepared_operands<T: Number>(
    m: Reading<T>,
    data: TestData,
    batch: usize,
    i: usize,
    j: usize,
    element_a: T,
    element_b: T,
)
    requires
        reads_constants(m),
        reads_parts(m),
        call_ensures(prepare::<T>, (), data),
        batch < 36,
        i < 256,
        j < 256,
        call_ensures(T::from_half_bits, (data.a@[65536 * batch + 256 * i + j],), element_a),
        j < 32 ==> call_ensures(
            T::from_half_bits,
            (data.b@[8192 * batch + 32 * i + j],),
            element_b,
        ),
    ensures
        data.a@.len() == 36 * 256 * 256,
        data.b@.len() == 36 * 256 * 32,
        256 * (m.value)(element_a) == ((i ^ j) + batch - 128) * m.unit,
        j < 32 ==> 256 * (m.value)(element_b) == ((i ^ j) + batch - 128) * m.unit,
{
    lemma_small_xor(i, j);
    let seed = (i ^ j) + batch - 128;
    law_generated_elements(m, data.a@, 256, 256, 36, 256, 256, batch, i, j, element_a);
    let n = choose|n: int|
        {
            &&& #[trigger] is_small(n)
            &&& 256 * (m.value)(element_a) == n * m.unit
            &&& (seed - n) % 256 == 0
            &&& n > 0 ==> seed > 0
            &&& n < 0 ==> seed < 0
        };
    lemma_small_seed(seed, n);
    if j < 32 {
        law_generated_elements(m, data.b@, 32, 256, 36, 32, 256, batch, i, j, element_b);
        let k = choose|n: int|
            {
                &&& #[trigger] is_small(n)
                &&& 256 * (m.value)(element_b) == n * m.unit
                &&& (seed - n) % 256 == 0
                &&& n > 0 ==> seed > 0
                &&& n < 0 ==> seed < 0
            };
        lemma_small_seed(seed, k);
    }
}

/// The expected products are those of the operands, and what follows them is zero.
pub proof fn law_prepared_products<T: Number>(
    m: Reading<T>,
    data: TestData,
    batch: int,
    i: int,
    j: int,
    element: T,
    sum: int,
    sizes: int,
)
    requires
        is_fine(m),
        reads_constants(m),
        reads_sums(m),
        reads_products(m),
        reads_halves(m),
        call_ensures(prepare::<T>, (), data),
        0 <= batch < 36,
        0 <= i < 256,
        0 <= j < 32,
        forall|l: int|
            0 <= l < 256 ==> is_half_finite(#[trigger] data.a@[65536 * batch + 256 * l + i]),
        forall|l: int|
            0 <= l < 256 ==> is_half_finite(#[trigger] data.b@[8192 * batch + 32 * l + j]),
        sum == total(
            256,
            |l: int|
                half_value(m, data.a@[65536 * batch + 256 * l + i]) * half_value(
                    m,
                    data.b@[8192 * batch + 32 * l + j],
                ),
        ),
        sizes == total(
            256,
            |l: int|
                size(
                    half_value(m, data.a@[65536 * batch + 256 * l + i]) * half_value(
                        m,
                        data.b@[8192 * batch + 32 * l + j],
                    ),
                ),
        ),
        4 * sizes <= m.top * m.unit,
        m.precision * size(sum) + 2048 * sizes + 512 * (m.precision * m.unit) <= m.precision * (
        m.half_top * m.unit),
        call_ensures(
            T::from_half_bits,
            (data.c_ref@[8192 * batch + 256 * j + i],),
            element,
        ),
    ensures
        data.c_ref@.len() == 36 * 256 * 64,
        forall|p: int|
            36 * 256 * 32 <= p < data.c_ref@.len() ==> #[trigger] data.c_ref@[p] == 0,
        exists|exact: int|
            {
                &&& #[trigger] is_near(m.half_precision, (m.value)(element), exact, m.half_step)
                &&& m.precision * size(exact * m.unit - sum) <= 2048 * sizes + 512 * (m.precision
                    * m.unit)
            },
{
    let a = data.a@;
    let b = data.b@;
    let short_sizes = |l: int|
        size(
            half_value(m, a[65536 * batch + 256 * l + i]) * half_value(
                m,
                b[8192 * batch + 32 * l + j],
            ),
        );
    let short_products = |l: int|
        half_value(m, a[65536 * batch + 256 * l + i]) * half_value(
            m,
            b[8192 * batch + 32 * l + j],
        );
    assert(short_sizes =~= element_sizes(m, a, b, 256, 32, 256, batch, i, j));
    assert(short_products =~= element_products(m, a, b, 256, 32, 256, batch, i, j));
    assert forall|l: int| 0 <= l < 256 implies is_half_finite(
        #[trigger] a[batch * 256 * 256 + l * 256 + i],
    ) by {
        assert(is_half_finite(a[65536 * batch + 256 * l + i]));
    }
    assert forall|l: int| 0 <= l < 256 implies is_half_finite(
        #[trigger] b[batch * 32 * 256 + l * 32 + j],
    ) by {
        assert(is_half_finite(b[8192 * batch + 32 * l + j]));
    }
    law_product_elements(
        m,
        a,
        b,
        data.c_ref@,
        256,
        32,
        256,
        36,
        batch,
        i,
        j,
        element,
        sum,
        sizes,
    );
}

/// Every element of the second operand is close to what is restored from the block
/// of its column.
pub proof fn law_prepared_blocks<T: Number>(
    m: Reading<T>,
    data: TestData,
    batch: int,
    k: int,
    n: int,
    element: T,
    d: T,
    dmin: T,
)
    requires
        reads_levels(m),
        reads_halves(m),
        call_ensures(prepare::<T>, (), data),
        0 <= batch < 36,
        0 <= k < 256,
        0 <= n < 32,
        forall|l: int|
            0 <= l < 256 ==> is_half_finite(#[trigger] data.b@[8192 * batch + 32 * l + n]),
        call_ensures(T::from_half_bits, (data.b@[8192 * batch + 32 * k + n],), element),
        ({
            let start = 144 * (32 * batch + n);
            let bytes = data.b_q4k@.subrange(start, start + 144);
            &&& call_ensures(T::from_half_bits, (stored_half(bytes, 0),), d)
            &&& call_ensures(T::from_half_bits, (stored_half(bytes, 2),), dmin)
        }),
    ensures
        data.b_q4k@.len() == 36 * 32 * 144,
        ({
            let start = 144 * (32 * batch + n);
            let bytes = data.b_q4k@.subrange(start, start + 144);
            let scale = stored_scales(bytes)[k / 32];
            let min = stored_mins(bytes)[k / 32];
            let quant = stored_quants(bytes)[k];
            let restored = (m.value)(d) * scale * quant - (m.value)(dmin) * min;
            2 * size(restored - (m.value)(element)) <= (m.value)(d) * (scale + 18) + 2 * (m.value)(
                dmin,
            ) + 3000 * m.half_step + 3000
        }),
{
    let b = data.b@;
    assert forall|l: int| 0 <= l < 256 implies is_half_finite(
        #[trigger] b[batch * 256 * 32 + l * 32 + n],
    ) by {
        assert(is_half_finite(b[8192 * batch + 32 * l + n]));
    }
    lemma_column_restores(m, b, 32, 36, data.b_q4k@, batch, k, n, element, d, dmin);
}

} // verus!

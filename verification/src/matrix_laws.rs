//! What two calls of the functions on matrices have to do with each other.
//!
//! The operations of a [`Number`] are relations, so that equal inputs lead to equal
//! outputs only where the operations that a function uses give one result. Each law
//! asks that of the operations it is about, in a way that single precision meets:
//! on numbers that never fail to be one, or up to the bits of what is unknown.
use vstd::arithmetic::mul::lemma_mul_inequality;
use vstd::prelude::*;

use crate::layout::{
    at, lemma_at_bound, lemma_at_covers, lemma_next_matrix, lemma_swap_factors,
};
use crate::matrix::{
    cell_seed, compared_pairs, dot_terms, is_cell, is_dot_product, is_generated,
    is_mean_squared_error, is_product_element, is_reference_product, is_widened, product_step,
    squared_error_step,
};
use crate::number::{
    agree, folds_to, halves_agree, is_half_finite, lemma_folds_stay_related, Number,
};

verus! {

/// An integer, its 256th part and zero have one value each, and so have their
/// halves. Single precision has this: none of them fails to be a number.
pub open spec fn parts_are_fixed<T: Number>() -> bool {
    &&& forall|n: i32, a: T, b: T| #[trigger]
        call_ensures(T::from_i32, (n,), a) && #[trigger] call_ensures(T::from_i32, (n,), b) ==> a
            == b
    &&& forall|m: i32, a: T, b: T| #[trigger]
        call_ensures(T::decimal, (m, 0i32), a) && #[trigger] call_ensures(T::decimal, (m, 0i32), b)
            ==> a == b
    &&& forall|n: i32, a: T, c: T, x: T, y: T|
        #![trigger call_ensures(T::from_i32, (n,), a), call_ensures(T::over, (a, c), x), call_ensures(T::over, (a, c), y)]
        call_ensures(T::from_i32, (n,), a) && call_ensures(T::decimal, (256i32, 0i32), c)
            && call_ensures(T::over, (a, c), x) && call_ensures(T::over, (a, c), y) ==> x == y
    &&& forall|n: i32, a: T, c: T, x: T, p: u16, q: u16|
        #![trigger call_ensures(T::from_i32, (n,), a), call_ensures(T::over, (a, c), x), call_ensures(T::to_half_bits, (x,), p), call_ensures(T::to_half_bits, (x,), q)]
        call_ensures(T::from_i32, (n,), a) && call_ensures(T::decimal, (256i32, 0i32), c)
            && call_ensures(T::over, (a, c), x) && call_ensures(T::to_half_bits, (x,), p)
            && call_ensures(T::to_half_bits, (x,), q) ==> p == q
    &&& forall|a: T, p: u16, q: u16|
        #![trigger call_ensures(T::to_half_bits, (a,), p), call_ensures(T::to_half_bits, (a,), q)]
        call_ensures(T::decimal, (0i32, 0i32), a) && call_ensures(T::to_half_bits, (a,), p)
            && call_ensures(T::to_half_bits, (a,), q) ==> p == q
}

/// An element of a generated matrix has one value, which its transpose shares.
proof fn lemma_cell_is_symmetric<T: Number>(
    i: usize,
    j: usize,
    batch: usize,
    m: usize,
    n: usize,
    bits1: u16,
    bits2: u16,
)
    requires
        parts_are_fixed::<T>(),
        is_cell::<T>(i, j, batch, m, n, bits1),
        is_cell::<T>(j, i, batch, n, m, bits2),
    ensures
        bits1 == bits2,
{
    assert(i ^ j == j ^ i) by (bit_vector);
    assert(cell_seed(i, j, batch) == cell_seed(j, i, batch));
}

/// An element of a generated matrix has one value.
proof fn lemma_cell_is_fixed<T: Number>(
    i: usize,
    j: usize,
    batch: usize,
    m: usize,
    n: usize,
    bits1: u16,
    bits2: u16,
)
    requires
        parts_are_fixed::<T>(),
        is_cell::<T>(i, j, batch, m, n, bits1),
        is_cell::<T>(i, j, batch, m, n, bits2),
    ensures
        bits1 == bits2,
{
}

/// The generated data is the same each time, whatever the storage held before,
/// and a longer batch only extends it.
pub proof fn law_longer_batch_extends_data<T: Number>(
    out1: Seq<u16>,
    out2: Seq<u16>,
    m: usize,
    n: usize,
    batch_size1: usize,
    batch_size2: usize,
    m_ceil: usize,
    n_ceil: usize,
)
    requires
        parts_are_fixed::<T>(),
        batch_size1 <= batch_size2,
        batch_size1 * n_ceil * m_ceil <= out1.len(),
        batch_size2 * n_ceil * m_ceil <= out2.len(),
        is_generated::<T>(out1, m, n, batch_size1, m_ceil, n_ceil),
        is_generated::<T>(out2, m, n, batch_size2, m_ceil, n_ceil),
    ensures
        out1.take(batch_size1 * n_ceil * m_ceil) == out2.take(batch_size1 * n_ceil * m_ceil),
{
    let rows = n_ceil as int;
    let cols = m_ceil as int;
    let total = batch_size1 * n_ceil * m_ceil;
    lemma_mul_inequality(batch_size1 as int, batch_size2 as int, rows);
    lemma_mul_inequality(batch_size1 * rows, batch_size2 * rows, cols);
    assert(0 <= total) by (nonlinear_arith)
        requires
            total == batch_size1 * n_ceil * m_ceil,
    ;
    assert forall|p: int| 0 <= p < total implies out1[p] == out2[p] by {
        lemma_at_covers(p, batch_size1 as int, rows, cols);
        let batch = (p / cols / rows) as usize;
        let i = ((p / cols) % rows) as usize;
        let j = (p % cols) as usize;
        assert(at(batch as int, i as int, j as int, rows, cols) == p);
        lemma_cell_is_fixed::<T>(
            i,
            j,
            batch,
            m,
            n,
            out1[at(batch as int, i as int, j as int, rows, cols)],
            out2[at(batch as int, i as int, j as int, rows, cols)],
        );
    }
    assert(out1.take(total) =~= out2.take(total));
}

/// Exchanging the dimensions transposes the generated data.
pub proof fn law_exchanged_sizes_transpose_data<T: Number>(
    out1: Seq<u16>,
    out2: Seq<u16>,
    m: usize,
    n: usize,
    batch_size: usize,
    m_ceil: usize,
    n_ceil: usize,
    batch: usize,
    i: usize,
    j: usize,
)
    requires
        parts_are_fixed::<T>(),
        is_generated::<T>(out1, m, n, batch_size, m_ceil, n_ceil),
        is_generated::<T>(out2, n, m, batch_size, n_ceil, m_ceil),
        batch < batch_size,
        i < n_ceil,
        j < m_ceil,
    ensures
        out2[at(batch as int, j as int, i as int, m_ceil as int, n_ceil as int)] == out1[at(
            batch as int,
            i as int,
            j as int,
            n_ceil as int,
            m_ceil as int,
        )],
{
    lemma_cell_is_symmetric::<T>(
        i,
        j,
        batch,
        m,
        n,
        out1[at(batch as int, i as int, j as int, n_ceil as int, m_ceil as int)],
        out2[at(batch as int, j as int, i as int, m_ceil as int, n_ceil as int)],
    );
}

/// Products and sums of agreeing numbers agree, and so do their halves. Single
/// precision has this.
pub open spec fn sums_agree<T: Number>(unknown: spec_fn(T) -> bool) -> bool {
    &&& forall|x: u16, a: T, b: T| #[trigger]
        call_ensures(T::from_half_bits, (x,), a) && #[trigger] call_ensures(
            T::from_half_bits,
            (x,),
            b,
        ) ==> agree(unknown, a, b)
    &&& forall|a: T, b: T| #[trigger]
        call_ensures(T::decimal, (0i32, 0i32), a) && #[trigger] call_ensures(
            T::decimal,
            (0i32, 0i32),
            b,
        ) ==> agree(unknown, a, b)
    &&& forall|a: T, b: T, c: T, d: T, x: T, y: T| #[trigger]
        call_ensures(T::times, (a, b), x) && #[trigger] call_ensures(T::times, (c, d), y) && agree(
            unknown,
            a,
            c,
        ) && agree(unknown, b, d) ==> agree(unknown, x, y)
    &&& forall|a: T, b: T, c: T, d: T, x: T, y: T| #[trigger]
        call_ensures(T::plus, (a, b), x) && #[trigger] call_ensures(T::plus, (c, d), y) && agree(
            unknown,
            a,
            c,
        ) && agree(unknown, b, d) ==> agree(unknown, x, y)
    &&& forall|a: T, b: T, x: u16, y: u16| #[trigger]
        call_ensures(T::to_half_bits, (a,), x) && #[trigger] call_ensures(T::to_half_bits, (b,), y)
            && agree(unknown, a, b) ==> halves_agree(x, y)
}

/// The order of the factors makes no difference to a product. Single precision has
/// this.
pub open spec fn times_commutes<T: Number>(unknown: spec_fn(T) -> bool) -> bool {
    forall|a: T, b: T, c: T, d: T, x: T, y: T| #[trigger]
        call_ensures(T::times, (a, b), x) && #[trigger] call_ensures(T::times, (c, d), y) && agree(
            unknown,
            a,
            d,
        ) && agree(unknown, b, c) ==> agree(unknown, x, y)
}

/// Elements that sum up agreeing products agree.
proof fn lemma_elements_agree<T: Number>(
    unknown: spec_fn(T) -> bool,
    paired: spec_fn((T, T), (T, T)) -> bool,
    k: int,
    a1: Seq<T>,
    b1: Seq<T>,
    m1: int,
    n1: int,
    batch1: int,
    i1: int,
    j1: int,
    bits1: u16,
    a2: Seq<T>,
    b2: Seq<T>,
    m2: int,
    n2: int,
    batch2: int,
    i2: int,
    j2: int,
    bits2: u16,
)
    requires
        sums_agree(unknown),
        0 <= k,
        forall|e: (T, T), f: (T, T), x: T, y: T| #[trigger]
            call_ensures(T::times, (e.0, e.1), x) && #[trigger] call_ensures(T::times, (f.0, f.1), y)
                && paired(e, f) ==> agree(unknown, x, y),
        forall|l: int|
            0 <= l < k ==> paired(
                #[trigger] dot_terms(a1, b1, m1, n1, k, batch1, i1, j1)[l],
                dot_terms(a2, b2, m2, n2, k, batch2, i2, j2)[l],
            ),
        is_product_element(a1, b1, m1, n1, k, batch1, i1, j1, bits1),
        is_product_element(a2, b2, m2, n2, k, batch2, i2, j2, bits2),
    ensures
        halves_agree(bits1, bits2),
{
    let step = product_step::<T>();
    let related = |a: T, b: T| agree(unknown, a, b);
    let terms1 = dot_terms(a1, b1, m1, n1, k, batch1, i1, j1);
    let terms2 = dot_terms(a2, b2, m2, n2, k, batch2, i2, j2);
    let value1 = choose|value: T|
        is_dot_product(a1, b1, m1, n1, k, batch1, i1, j1, value) && #[trigger] call_ensures(
            T::to_half_bits,
            (value,),
            bits1,
        );
    let value2 = choose|value: T|
        is_dot_product(a2, b2, m2, n2, k, batch2, i2, j2, value) && #[trigger] call_ensures(
            T::to_half_bits,
            (value,),
            bits2,
        );
    let zero1 = choose|zero: T| #[trigger]
        call_ensures(T::decimal, (0i32, 0i32), zero) && folds_to(step, zero, terms1, value1);
    let zero2 = choose|zero: T| #[trigger]
        call_ensures(T::decimal, (0i32, 0i32), zero) && folds_to(step, zero, terms2, value2);
    assert forall|a: T, b: T, e: (T, T), f: (T, T), p: T, q: T| #[trigger]
        step(a, e, p) && #[trigger] step(b, f, q) && related(a, b) && paired(
            e,
            f,
        ) implies related(p, q) by {
        let x = choose|product: T|
            call_ensures(T::times, (e.0, e.1), product) && #[trigger] call_ensures(
                T::plus,
                (a, product),
                p,
            );
        let y = choose|product: T|
            call_ensures(T::times, (f.0, f.1), product) && #[trigger] call_ensures(
                T::plus,
                (b, product),
                q,
            );
        assert(agree(unknown, x, y));
    }
    lemma_folds_stay_related(
        step,
        related,
        paired,
        zero1,
        zero2,
        terms1,
        terms2,
        value1,
        value2,
    );
}

/// Exchanging the operands transposes each product, with no difference in
/// rounding.
pub proof fn law_exchanged_operands_transpose_product<T: Number>(
    unknown: spec_fn(T) -> bool,
    a: Seq<u16>,
    b: Seq<u16>,
    c1: Seq<u16>,
    c2: Seq<u16>,
    m: int,
    n: int,
    k: int,
    batch_size: int,
    batch: int,
    i: int,
    j: int,
)
    requires
        sums_agree(unknown),
        times_commutes(unknown),
        0 <= k,
        batch_size * m * k <= a.len(),
        batch_size * n * k <= b.len(),
        c1.len() == batch_size * m * n,
        c2.len() == batch_size * m * n,
        is_reference_product::<T>(a, b, c1, m, n, k, batch_size),
        is_reference_product::<T>(b, a, c2, n, m, k, batch_size),
        0 <= batch < batch_size,
        0 <= i < m,
        0 <= j < n,
    ensures
        halves_agree(c2[at(batch, i, j, m, n)], c1[at(batch, j, i, n, m)]),
{
    lemma_at_bound(batch, j, i, batch_size, n, m);
    lemma_at_bound(batch, i, j, batch_size, m, n);
    lemma_swap_factors(batch_size, m, n);
    let (af1, bf1) = choose_operands::<T>(a, b, c1, m, n, k, batch_size);
    let (bf2, af2) = choose_operands::<T>(b, a, c2, n, m, k, batch_size);
    let bits1 = c1[at(batch, j, i, n, m)];
    let bits2 = c2[at(batch, i, j, m, n)];
    assert(is_product_element(af1, bf1, m, n, k, batch, i, j, bits1));
    assert(is_product_element(bf2, af2, n, m, k, batch, j, i, bits2));
    let crossed = |e: (T, T), f: (T, T)| agree(unknown, e.0, f.1) && agree(unknown, e.1, f.0);
    let terms1 = dot_terms(af1, bf1, m, n, k, batch, i, j);
    let terms2 = dot_terms(bf2, af2, n, m, k, batch, j, i);
    assert forall|l: int| 0 <= l < k implies crossed(#[trigger] terms1[l], terms2[l]) by {
        lemma_at_bound(batch, l, i, batch_size, k, m);
        lemma_at_bound(batch, l, j, batch_size, k, n);
        lemma_swap_factors(batch_size, m, k);
        lemma_swap_factors(batch_size, n, k);
        let p = at(batch, l, i, k, m);
        let q = at(batch, l, j, k, n);
        assert(call_ensures(T::from_half_bits, (a[p],), af1[p]));
        assert(call_ensures(T::from_half_bits, (a[p],), af2[p]));
        assert(call_ensures(T::from_half_bits, (b[q],), bf1[q]));
        assert(call_ensures(T::from_half_bits, (b[q],), bf2[q]));
    }
    lemma_elements_agree(
        unknown,
        crossed,
        k,
        af1,
        bf1,
        m,
        n,
        batch,
        i,
        j,
        bits1,
        bf2,
        af2,
        n,
        m,
        batch,
        j,
        i,
        bits2,
    );
}

/// The operands of a reference product as numbers.
spec fn choose_operands<T: Number>(
    a: Seq<u16>,
    b: Seq<u16>,
    c: Seq<u16>,
    m: int,
    n: int,
    k: int,
    batch_size: int,
) -> (Seq<T>, Seq<T>) {
    choose|af: Seq<T>, bf: Seq<T>|
        {
            &&& #[trigger] is_widened(a, af)
            &&& #[trigger] is_widened(b, bf)
            &&& forall|batch: int, i: int, j: int|
                #![trigger c[at(batch, j, i, n, m)]]
                0 <= batch < batch_size && 0 <= i < m && 0 <= j < n && at(batch, j, i, n, m)
                    < c.len() ==> is_product_element(
                    af,
                    bf,
                    m,
                    n,
                    k,
                    batch,
                    i,
                    j,
                    c[at(batch, j, i, n, m)],
                )
        }
}

/// The position of an element counted from where its batch starts.
proof fn lemma_at_within_batch(batch: int, row: int, col: int, rows: int, cols: int)
    ensures
        at(batch, row, col, rows, cols) - batch * rows * cols == at(0, row, col, rows, cols),
{
    assert(0 * rows * cols == 0) by (nonlinear_arith);
}

/// Each product depends on its own matrices alone: it is the product that these
/// two have when they stand alone.
pub proof fn law_batches_are_independent<T: Number>(
    unknown: spec_fn(T) -> bool,
    a: Seq<u16>,
    b: Seq<u16>,
    c: Seq<u16>,
    c_alone: Seq<u16>,
    m: int,
    n: int,
    k: int,
    batch_size: int,
    batch: int,
)
    requires
        sums_agree(unknown),
        0 <= m,
        0 <= n,
        0 <= k,
        0 <= batch < batch_size,
        a.len() == batch_size * m * k,
        b.len() == batch_size * n * k,
        c.len() == batch_size * m * n,
        c_alone.len() == m * n,
        is_reference_product::<T>(a, b, c, m, n, k, batch_size),
        is_reference_product::<T>(
            a.subrange(batch * m * k, (batch + 1) * m * k),
            b.subrange(batch * n * k, (batch + 1) * n * k),
            c_alone,
            m,
            n,
            k,
            1,
        ),
    ensures
        (batch + 1) * m * n <= c.len(),
        forall|q: int|
            0 <= q < m * n ==> halves_agree(c[batch * m * n + q], #[trigger] c_alone[q]),
{
    lemma_batch_range(batch, batch_size, m, k);
    lemma_batch_range(batch, batch_size, n, k);
    lemma_batch_range(batch, batch_size, m, n);
    let a_alone = a.subrange(batch * m * k, (batch + 1) * m * k);
    let b_alone = b.subrange(batch * n * k, (batch + 1) * n * k);
    let (af, bf) = choose_operands::<T>(a, b, c, m, n, k, batch_size);
    let (af_alone, bf_alone) = choose_operands::<T>(a_alone, b_alone, c_alone, m, n, k, 1);
    let straight = |e: (T, T), f: (T, T)| agree(unknown, e.0, f.0) && agree(unknown, e.1, f.1);
    lemma_next_matrix(batch, m, n);
    assert forall|q: int| 0 <= q < m * n implies halves_agree(
        c[batch * m * n + q],
        #[trigger] c_alone[q],
    ) by {
        assert(1 * n * m == m * n) by (nonlinear_arith);
        lemma_at_covers(q, 1, n, m);
        let j = (q / m) % n;
        let i = q % m;
        assert(at(0, j, i, n, m) == q);
        lemma_at_bound(batch, j, i, batch_size, n, m);
        lemma_at_within_batch(batch, j, i, n, m);
        lemma_swap_factors(batch, m, n);
        lemma_swap_factors(batch_size, m, n);
        let p = at(batch, j, i, n, m);
        assert(p == batch * m * n + q);
        assert(is_product_element(af, bf, m, n, k, batch, i, j, c[p]));
        assert(is_product_element(af_alone, bf_alone, m, n, k, 0, i, j, c_alone[at(0, j, i, n, m)]));
        let terms = dot_terms(af, bf, m, n, k, batch, i, j);
        let terms_alone = dot_terms(af_alone, bf_alone, m, n, k, 0, i, j);
        assert forall|l: int| 0 <= l < k implies straight(#[trigger] terms[l], terms_alone[l]) by {
            lemma_factors_agree(unknown, a, af, af_alone, m, k, batch, batch_size, l, i);
            lemma_factors_agree(unknown, b, bf, bf_alone, n, k, batch, batch_size, l, j);
        }
        lemma_elements_agree(
            unknown,
            straight,
            k,
            af,
            bf,
            m,
            n,
            batch,
            i,
            j,
            c[p],
            af_alone,
            bf_alone,
            m,
            n,
            0,
            i,
            j,
            c_alone[q],
        );
    }
}

/// A matrix of a batch lies within it.
proof fn lemma_batch_range(batch: int, batch_size: int, rows: int, cols: int)
    requires
        0 <= batch < batch_size,
        0 <= rows,
        0 <= cols,
    ensures
        0 <= batch * rows * cols,
        (batch + 1) * rows * cols == batch * rows * cols + rows * cols,
        (batch + 1) * rows * cols <= batch_size * rows * cols,
{
    lemma_next_matrix(batch, rows, cols);
    lemma_mul_inequality(batch + 1, batch_size, rows);
    lemma_mul_inequality((batch + 1) * rows, batch_size * rows, cols);
    assert(0 <= batch * rows * cols) by (nonlinear_arith)
        requires
            0 <= batch,
            0 <= rows,
            0 <= cols,
    ;
}

/// A factor of a product is the same in the batch as alone.
proof fn lemma_factors_agree<T: Number>(
    unknown: spec_fn(T) -> bool,
    bits: Seq<u16>,
    values: Seq<T>,
    values_alone: Seq<T>,
    cols: int,
    k: int,
    batch: int,
    batch_size: int,
    l: int,
    col: int,
)
    requires
        sums_agree(unknown),
        0 <= batch < batch_size,
        0 <= l < k,
        0 <= col < cols,
        bits.len() == batch_size * cols * k,
        is_widened(bits, values),
        is_widened(bits.subrange(batch * cols * k, (batch + 1) * cols * k), values_alone),
    ensures
        agree(
            unknown,
            values[at(batch, l, col, k, cols)],
            values_alone[at(0, l, col, k, cols)],
        ),
{
    let p = at(batch, l, col, k, cols);
    let q = at(0, l, col, k, cols);
    lemma_batch_range(batch, batch_size, cols, k);
    lemma_at_bound(batch, l, col, batch_size, k, cols);
    lemma_at_bound(0, l, col, 1, k, cols);
    lemma_at_within_batch(batch, l, col, k, cols);
    lemma_swap_factors(batch, cols, k);
    lemma_swap_factors(batch_size, cols, k);
    assert(1 * k * cols == cols * k) by (nonlinear_arith);
    let alone = bits.subrange(batch * cols * k, (batch + 1) * cols * k);
    assert(alone[q] == bits[p]);
    assert(call_ensures(T::from_half_bits, (bits[p],), values[p]));
    assert(call_ensures(T::from_half_bits, (alone[q],), values_alone[q]));
}

/// Both differences of two numbers have one square, and the sums and quotients of
/// what agrees agree. Single precision has this.
pub open spec fn squares_agree<T: Number>(unknown: spec_fn(T) -> bool) -> bool {
    &&& forall|x: u16, a: T, b: T| #[trigger]
        call_ensures(T::from_half_bits, (x,), a) && #[trigger] call_ensures(
            T::from_half_bits,
            (x,),
            b,
        ) ==> agree(unknown, a, b)
    &&& forall|a: T, b: T| #[trigger]
        call_ensures(T::decimal, (0i32, 0i32), a) && #[trigger] call_ensures(
            T::decimal,
            (0i32, 0i32),
            b,
        ) ==> agree(unknown, a, b)
    &&& forall|n: usize, a: T, b: T| #[trigger]
        call_ensures(T::from_usize, (n,), a) && #[trigger] call_ensures(T::from_usize, (n,), b)
            ==> agree(unknown, a, b)
    &&& forall|a: T, b: T, left1: T, right1: T, c: T, d: T, left2: T, right2: T, x: T, y: T|
        #![trigger call_ensures(T::minus, (a, b), left1), call_ensures(T::minus, (a, b), right1), call_ensures(T::minus, (c, d), left2), call_ensures(T::minus, (c, d), right2), call_ensures(T::times, (left1, right1), x), call_ensures(T::times, (left2, right2), y)]
        agree(unknown, a, d) && agree(unknown, b, c) && call_ensures(T::minus, (a, b), left1)
            && call_ensures(T::minus, (a, b), right1) && call_ensures(T::minus, (c, d), left2)
            && call_ensures(T::minus, (c, d), right2) && call_ensures(
            T::times,
            (left1, right1),
            x,
        ) && call_ensures(T::times, (left2, right2), y) ==> agree(unknown, x, y)
    &&& forall|a: T, b: T, c: T, d: T, x: T, y: T| #[trigger]
        call_ensures(T::plus, (a, b), x) && #[trigger] call_ensures(T::plus, (c, d), y) && agree(
            unknown,
            a,
            c,
        ) && agree(unknown, b, d) ==> agree(unknown, x, y)
    &&& forall|a: T, b: T, c: T, d: T, x: T, y: T| #[trigger]
        call_ensures(T::over, (a, b), x) && #[trigger] call_ensures(T::over, (c, d), y) && agree(
            unknown,
            a,
            c,
        ) && agree(unknown, b, d) ==> agree(unknown, x, y)
}

/// Two steps over exchanged halves lead from agreeing sums to agreeing ones.
proof fn lemma_squared_error_steps_agree<T: Number>(
    unknown: spec_fn(T) -> bool,
    before1: T,
    before2: T,
    pair1: (u16, u16),
    pair2: (u16, u16),
    after1: T,
    after2: T,
)
    requires
        squares_agree(unknown),
        squared_error_step::<T>()(before1, pair1, after1),
        squared_error_step::<T>()(before2, pair2, after2),
        agree(unknown, before1, before2),
        pair1.0 == pair2.1,
        pair1.1 == pair2.0,
    ensures
        agree(unknown, after1, after2),
{
    let (r1, x1, left1, right1, square1) = choose|rv: T, xv: T, left: T, right: T, square: T|
        {
            &&& #[trigger] call_ensures(T::from_half_bits, (pair1.0,), rv)
            &&& #[trigger] call_ensures(T::from_half_bits, (pair1.1,), xv)
            &&& #[trigger] call_ensures(T::minus, (rv, xv), left)
            &&& #[trigger] call_ensures(T::minus, (rv, xv), right)
            &&& call_ensures(T::times, (left, right), square)
            &&& #[trigger] call_ensures(T::plus, (before1, square), after1)
        };
    let (r2, x2, left2, right2, square2) = choose|rv: T, xv: T, left: T, right: T, square: T|
        {
            &&& #[trigger] call_ensures(T::from_half_bits, (pair2.0,), rv)
            &&& #[trigger] call_ensures(T::from_half_bits, (pair2.1,), xv)
            &&& #[trigger] call_ensures(T::minus, (rv, xv), left)
            &&& #[trigger] call_ensures(T::minus, (rv, xv), right)
            &&& call_ensures(T::times, (left, right), square)
            &&& #[trigger] call_ensures(T::plus, (before2, square), after2)
        };
    assert(agree(unknown, r1, x2) && agree(unknown, x1, r2));
    assert(agree(unknown, square1, square2));
}

/// Without padding, the error is the same whichever of the two is the reference.
pub proof fn law_unpadded_error_is_symmetric<T: Number>(
    unknown: spec_fn(T) -> bool,
    x: Seq<u16>,
    r: Seq<u16>,
    m: int,
    n: int,
    batch_size: int,
    count: usize,
    error1: T,
    error2: T,
)
    requires
        squares_agree(unknown),
        0 <= m,
        0 <= n,
        0 <= batch_size,
        is_mean_squared_error(compared_pairs(x, r, m, n, batch_size, m, n), count, error1),
        is_mean_squared_error(compared_pairs(r, x, m, n, batch_size, m, n), count, error2),
    ensures
        agree(unknown, error1, error2),
{
    let step = squared_error_step::<T>();
    let related = |a: T, b: T| agree(unknown, a, b);
    let crossed = |e: (u16, u16), f: (u16, u16)| e.0 == f.1 && e.1 == f.0;
    let pairs1 = compared_pairs(x, r, m, n, batch_size, m, n);
    let pairs2 = compared_pairs(r, x, m, n, batch_size, m, n);
    assert(0 <= batch_size * m * n) by (nonlinear_arith)
        requires
            0 <= m,
            0 <= n,
            0 <= batch_size,
    ;
    assert forall|p: int| 0 <= p < pairs1.len() implies crossed(
        #[trigger] pairs1[p],
        pairs2[p],
    ) by {
        lemma_at_covers(p, batch_size, m, n);
    }
    let (zero1, sum1, number1) = choose|zero: T, sum: T, number: T|
        {
            &&& #[trigger] call_ensures(T::decimal, (0i32, 0i32), zero)
            &&& folds_to(step, zero, pairs1, sum)
            &&& call_ensures(T::from_usize, (count,), number)
            &&& #[trigger] call_ensures(T::over, (sum, number), error1)
        };
    let (zero2, sum2, number2) = choose|zero: T, sum: T, number: T|
        {
            &&& #[trigger] call_ensures(T::decimal, (0i32, 0i32), zero)
            &&& folds_to(step, zero, pairs2, sum)
            &&& call_ensures(T::from_usize, (count,), number)
            &&& #[trigger] call_ensures(T::over, (sum, number), error2)
        };
    assert forall|a: T, b: T, e: (u16, u16), f: (u16, u16), p: T, q: T| #[trigger]
        step(a, e, p) && #[trigger] step(b, f, q) && related(a, b) && crossed(
            e,
            f,
        ) implies related(p, q) by {
        lemma_squared_error_steps_agree(unknown, a, b, e, f, p, q);
    }
    lemma_folds_stay_related(step, related, crossed, zero1, zero2, pairs1, pairs2, sum1, sum2);
    assert(agree(unknown, number1, number2));
}

/// The squares of differences of finite halves, their sums and their means are all
/// risen, and what is risen is known. In single precision, a number is risen if it
/// is positive, infinity included, or the positive zero.
pub open spec fn squares_rise<T: Number>(
    unknown: spec_fn(T) -> bool,
    risen: spec_fn(T) -> bool,
) -> bool {
    &&& forall|a: T| #[trigger] risen(a) ==> !unknown(a)
    &&& forall|a: T| #[trigger] call_ensures(T::decimal, (0i32, 0i32), a) ==> risen(a)
    &&& forall|p: u16, q: u16, a: T, b: T, left: T, right: T, x: T|
        #![trigger call_ensures(T::from_half_bits, (p,), a), call_ensures(T::from_half_bits, (q,), b), call_ensures(T::minus, (a, b), left), call_ensures(T::minus, (a, b), right), call_ensures(T::times, (left, right), x)]
        is_half_finite(p) && is_half_finite(q) && call_ensures(T::from_half_bits, (p,), a)
            && call_ensures(T::from_half_bits, (q,), b) && call_ensures(T::minus, (a, b), left)
            && call_ensures(T::minus, (a, b), right) && call_ensures(T::times, (left, right), x)
            ==> risen(x)
    &&& forall|a: T, b: T, x: T| #[trigger]
        call_ensures(T::plus, (a, b), x) && risen(a) && risen(b) ==> risen(x)
    &&& forall|n: usize, a: T, c: T, x: T| #[trigger]
        call_ensures(T::over, (a, c), x) && #[trigger] call_ensures(T::from_usize, (n,), c) && n
            > 0 && risen(a) ==> risen(x)
}

/// The sum of squared differences of finite halves is risen.
proof fn lemma_error_sum_rises<T: Number>(
    unknown: spec_fn(T) -> bool,
    risen: spec_fn(T) -> bool,
    pairs: Seq<(u16, u16)>,
    zero: T,
    sum: T,
)
    requires
        squares_rise(unknown, risen),
        call_ensures(T::decimal, (0i32, 0i32), zero),
        forall|p: int|
            0 <= p < pairs.len() ==> is_half_finite(#[trigger] pairs[p].0) && is_half_finite(
                pairs[p].1,
            ),
        folds_to(squared_error_step::<T>(), zero, pairs, sum),
    ensures
        risen(sum),
    decreases pairs.len(),
{
    if pairs.len() > 0 {
        let step = squared_error_step::<T>();
        let front = pairs.drop_last();
        let pair = pairs.last();
        let before = choose|before: T|
            folds_to(step, zero, front, before) && #[trigger] step(before, pair, sum);
        assert forall|p: int| 0 <= p < front.len() implies is_half_finite(#[trigger] front[p].0)
            && is_half_finite(front[p].1) by {
            assert(front[p] == pairs[p]);
        }
        lemma_error_sum_rises(unknown, risen, front, zero, before);
        assert(is_half_finite(pairs[pairs.len() - 1].0));
        let (rv, xv, left, right, square) = choose|rv: T, xv: T, left: T, right: T, square: T|
            {
                &&& #[trigger] call_ensures(T::from_half_bits, (pair.0,), rv)
                &&& #[trigger] call_ensures(T::from_half_bits, (pair.1,), xv)
                &&& #[trigger] call_ensures(T::minus, (rv, xv), left)
                &&& #[trigger] call_ensures(T::minus, (rv, xv), right)
                &&& call_ensures(T::times, (left, right), square)
                &&& #[trigger] call_ensures(T::plus, (before, square), sum)
            };
        assert(risen(square));
    }
}

/// Without padding, the error between finite numbers is one number, whichever of
/// the two is the reference.
pub proof fn law_unpadded_error_of_finite_numbers_is_symmetric<T: Number>(
    unknown: spec_fn(T) -> bool,
    risen: spec_fn(T) -> bool,
    x: Seq<u16>,
    r: Seq<u16>,
    m: int,
    n: int,
    batch_size: int,
    count: usize,
    error1: T,
    error2: T,
)
    requires
        squares_agree(unknown),
        squares_rise(unknown, risen),
        0 <= m,
        0 <= n,
        0 <= batch_size,
        0 < count,
        batch_size * m * n <= x.len(),
        batch_size * m * n <= r.len(),
        forall|p: int| 0 <= p < batch_size * m * n ==> is_half_finite(#[trigger] x[p]),
        forall|p: int| 0 <= p < batch_size * m * n ==> is_half_finite(#[trigger] r[p]),
        is_mean_squared_error(compared_pairs(x, r, m, n, batch_size, m, n), count, error1),
        is_mean_squared_error(compared_pairs(r, x, m, n, batch_size, m, n), count, error2),
    ensures
        error1 == error2,
{
    law_unpadded_error_is_symmetric(
        unknown,
        x,
        r,
        m,
        n,
        batch_size,
        count,
        error1,
        error2,
    );
    let pairs = compared_pairs(x, r, m, n, batch_size, m, n);
    assert forall|p: int| 0 <= p < pairs.len() implies is_half_finite(#[trigger] pairs[p].0)
        && is_half_finite(pairs[p].1) by {
        lemma_at_covers(p, batch_size, m, n);
    }
    let (zero, sum, number) = choose|zero: T, sum: T, number: T|
        {
            &&& #[trigger] call_ensures(T::decimal, (0i32, 0i32), zero)
            &&& folds_to(squared_error_step::<T>(), zero, pairs, sum)
            &&& call_ensures(T::from_usize, (count,), number)
            &&& #[trigger] call_ensures(T::over, (sum, number), error1)
        };
    lemma_error_sum_rises(unknown, risen, pairs, zero, sum);
    assert(risen(error1));
}

} // verus!

//! What the generated matrices hold, and how close products and errors come to
//! those of arithmetic.
//!
//! The laws read every number through a [`Reading`] and speak of integers.
use vstd::arithmetic::mul::lemma_mul_inequality;
use vstd::prelude::*;

use crate::layout::{at, lemma_at_bound, lemma_swap_factors};
use crate::matrix::{
    cell_seed, compare_ref, compared_pairs, dot_terms, generate_data, is_cell, is_cell_value,
    is_dot_product, is_generated, is_mean_squared_error, is_product_element, is_reference_product,
    is_widened, product_step, reference_gemm, remainder_toward_zero, squared_error_step,
};
use crate::number::{folds_to, is_half_finite, Number};
use crate::reading::{
    is_fine, is_near, reads_constants, reads_halves, reads_integers, reads_products,
    reads_quotients, reads_sums, size, Reading,
};

verus! {

/// A 256th part of a small integer is exact, and so is its half.
pub open spec fn reads_parts<T: Number>(m: Reading<T>) -> bool {
    &&& forall|n: i32, a: T, c: T, x: T|
        #![trigger call_ensures(T::from_i32, (n,), a), call_ensures(T::over, (a, c), x)]
        call_ensures(T::from_i32, (n,), a) && call_ensures(T::decimal, (256i32, 0i32), c)
            && call_ensures(T::over, (a, c), x) && -256 < n < 256 ==> (m.known)(x) && 256 * (
        m.value)(x) == n * m.unit
    &&& forall|x: T, n: int, h: u16, b: T|
        #![trigger call_ensures(T::to_half_bits, (x,), h), call_ensures(T::from_half_bits, (h,), b), is_small(n)]
        call_ensures(T::to_half_bits, (x,), h) && call_ensures(T::from_half_bits, (h,), b) && (
        m.known)(x) && is_small(n) && 256 * (m.value)(x) == n * m.unit ==> (m.value)(b) == (
        m.value)(x)
}

/// The integer is below 256 in magnitude.
pub open spec fn is_small(n: int) -> bool {
    -256 < n < 256
}

/// An element of the generated data is a 256th part of an integer below 256. The
/// integer is that of the exclusive or of the row and the column, shifted by the
/// batch and by 128, less a multiple of 256 that leaves it its sign. An element of
/// the padding is zero.
pub proof fn law_generated_elements<T: Number>(
    m: Reading<T>,
    out: Seq<u16>,
    width: usize,
    height: usize,
    batch_size: usize,
    m_ceil: usize,
    n_ceil: usize,
    batch: usize,
    i: usize,
    j: usize,
    element: T,
)
    requires
        reads_constants(m),
        reads_parts(m),
        is_generated::<T>(out, width, height, batch_size, m_ceil, n_ceil),
        batch < batch_size,
        i < n_ceil,
        j < m_ceil,
        batch < 0x3fff_ffff,
        i ^ j < 0x3fff_ffff,
        call_ensures(
            T::from_half_bits,
            (out[batch * n_ceil * m_ceil + i * m_ceil + j],),
            element,
        ),
    ensures
        i >= height || j >= width ==> (m.value)(element) == 0,
        i < height && j < width ==> exists|n: int|
            {
                &&& #[trigger] is_small(n)
                &&& 256 * (m.value)(element) == n * m.unit
                &&& ((i ^ j) + batch - 128 - n) % 256 == 0
                &&& n > 0 ==> (i ^ j) + batch - 128 > 0
                &&& n < 0 ==> (i ^ j) + batch - 128 < 0
            },
{
    let place = at(batch as int, i as int, j as int, n_ceil as int, m_ceil as int);
    assert(place == batch * n_ceil * m_ceil + i * m_ceil + j);
    let bits = out[place];
    assert(is_cell::<T>(i, j, batch, width, height, bits));
    let value = choose|value: T|
        is_cell_value(i, j, batch, width, height, value) && #[trigger] call_ensures(
            T::to_half_bits,
            (value,),
            bits,
        );
    if i < height && j < width {
        let seed = cell_seed(i, j, batch);
        assert(seed == (i ^ j) + batch - 128);
        let n = remainder_toward_zero(seed, 256);
        let (numerator, denominator) = choose|numerator: T, denominator: T|
            {
                &&& call_ensures(
                    T::from_i32,
                    (remainder_toward_zero(cell_seed(i, j, batch), 256) as i32,),
                    numerator,
                )
                &&& call_ensures(T::decimal, (256i32, 0i32), denominator)
                &&& #[trigger] call_ensures(T::over, (numerator, denominator), value)
            };
        assert(is_small(n));
        assert(256 * (m.value)(value) == n * m.unit);
    } else {
        assert(0 * m.unit == 0);
        assert(is_small(0));
    }
}

/// The sum of the first `count` terms.
pub open spec fn total(count: nat, term: spec_fn(int) -> int) -> int
    decreases count,
{
    if count == 0 {
        0
    } else {
        total((count - 1) as nat, term) + term(count - 1)
    }
}

/// The value of a half.
pub open spec fn half_value<T: Number>(m: Reading<T>, bits: u16) -> int {
    (m.value)(choose|a: T| call_ensures(T::from_half_bits, (bits,), a))
}

/// A half that was read has the value of the half.
proof fn lemma_half_value<T: Number>(m: Reading<T>, bits: u16, a: T)
    requires
        reads_halves(m),
        is_half_finite(bits),
        call_ensures(T::from_half_bits, (bits,), a),
    ensures
        (m.known)(a),
        (m.value)(a) == half_value(m, bits),
        size(half_value(m, bits)) <= m.half_top,
{
    let b = choose|a: T| call_ensures(T::from_half_bits, (bits,), a);
    assert(call_ensures(T::from_half_bits, (bits,), b));
}

/// Sums of equal terms are equal.
pub(crate) proof fn lemma_same_total(count: nat, f: spec_fn(int) -> int, g: spec_fn(int) -> int)
    requires
        forall|l: int| 0 <= l < count ==> #[trigger] f(l) == g(l),
    ensures
        total(count, f) == total(count, g),
    decreases count,
{
    if count > 0 {
        lemma_same_total((count - 1) as nat, f, g);
    }
}

/// What a running sum is off by: `sum` terms so far that are `all` in magnitude were
/// added up to `acc`, then a term `exact` of magnitude `part`, found as `got`, led to
/// `next`. All but the number of terms is in the same fine steps.
pub(crate) proof fn lemma_sum_step(
    p: int,
    u: int,
    l: int,
    all: int,
    sum: int,
    acc: int,
    part: int,
    exact: int,
    got: int,
    next: int,
)
    requires
        u >= 0,
        0 <= l,
        8 * (l + 1) <= p,
        size(sum) <= all,
        size(exact) <= part,
        p * size(acc - sum) <= 8 * l * all + 2 * l * (p * u),
        p * size(got - exact) <= 5 * part + p * u,
        p * size(next - (acc + got)) <= size(acc + got),
    ensures
        p * size(next - (sum + exact)) <= 8 * (l + 1) * (all + part) + 2 * (l + 1) * (p * u),
        size(acc + got) <= 2 * (all + part) + (2 * l + 1) * u,
{
    let pu = p * u;
    let la = l * all;
    assert(size(acc - sum) <= all + 2 * (l * u)) by (nonlinear_arith)
        requires
            p * size(acc - sum) <= 8 * l * all + 2 * l * (p * u),
            8 * (l + 1) <= p,
            0 <= l,
            all >= 0,
            u >= 0,
    {
        let off = size(acc - sum);
        assert(8 * l * all <= p * all) by (nonlinear_arith)
            requires
                8 * (l + 1) <= p,
                all >= 0,
                0 <= l,
        ;
        assert(2 * l * (p * u) == p * (2 * (l * u))) by (nonlinear_arith);
        assert(p * off <= p * (all + 2 * (l * u))) by (nonlinear_arith)
            requires
                p * off <= 8 * l * all + 2 * l * (p * u),
                8 * l * all <= p * all,
                2 * l * (p * u) == p * (2 * (l * u)),
        ;
        assert(off <= all + 2 * (l * u)) by (nonlinear_arith)
            requires
                p * off <= p * (all + 2 * (l * u)),
                p > 0,
        ;
    }
    assert(size(got - exact) <= part + u) by (nonlinear_arith)
        requires
            p * size(got - exact) <= 5 * part + p * u,
            p >= 8,
            part >= 0,
            u >= 0,
    {
        let off = size(got - exact);
        if off > part + u {
            assert(p * off >= p * (part + u + 1));
            assert(p * (part + u + 1) == p * part + p * u + p);
            assert(p * part >= 8 * part);
        }
    }
    let lu = l * u;
    assert((2 * l + 1) * u == 2 * lu + u) by (nonlinear_arith)
        requires
            lu == l * u,
    ;
    assert(size(acc + got) <= 2 * (all + part) + 2 * lu + u);
    let off1 = size(acc - sum);
    let off2 = size(got - exact);
    let off3 = size(next - (acc + got));
    assert(size(next - (sum + exact)) <= off1 + off2 + off3);
    assert(p * size(next - (sum + exact)) <= p * off1 + p * off2 + p * off3) by (nonlinear_arith)
        requires
            size(next - (sum + exact)) <= off1 + off2 + off3,
            p >= 8,
    ;
    assert(8 * (l + 1) * (all + part) >= 8 * l * all + 8 * all + 8 * part) by (nonlinear_arith)
        requires
            0 <= l,
            part >= 0,
    ;
    assert(2 * (l + 1) * (p * u) == 2 * l * (p * u) + 2 * pu) by (nonlinear_arith)
        requires
            pu == p * u,
    ;
    lemma_mul_inequality(2 * l + 1, p, u);
}

/// Multiplying by the number of steps of one keeps what a number is off by.
proof fn lemma_scaled_near(p: int, got: int, exact: int, u: int)
    requires
        u > 0,
        is_near(p, got, exact, 0),
    ensures
        p * size(got * u - exact * u) <= size(exact * u),
{
    assert(size(got * u - exact * u) == size(got - exact) * u) by (nonlinear_arith)
        requires
            u > 0,
    ;
    assert(size(exact * u) == size(exact) * u) by (nonlinear_arith)
        requires
            u > 0,
    ;
    assert(p * (size(got - exact) * u) <= size(exact) * u) by (nonlinear_arith)
        requires
            p * size(got - exact) <= size(exact) + p * 0,
            u > 0,
    ;
}

/// A sum whose size is bounded in fine steps is known.
proof fn lemma_sum_is_known(top: int, u: int, sum: int)
    requires
        u > 0,
        size(sum * u) <= top * u,
    ensures
        size(sum) <= top,
{
    assert(size(sum) <= top) by (nonlinear_arith)
        requires
            u > 0,
            size(sum * u) <= top * u,
    ;
}

/// The products of some pairs of numbers.
spec fn pair_products<T>(m: Reading<T>, terms: Seq<(T, T)>) -> spec_fn(int) -> int {
    |l: int| (m.value)(terms[l].0) * (m.value)(terms[l].1)
}

/// The magnitudes of the products of some pairs of numbers.
spec fn pair_sizes<T>(m: Reading<T>, terms: Seq<(T, T)>) -> spec_fn(int) -> int {
    |l: int| size((m.value)(terms[l].0) * (m.value)(terms[l].1))
}

/// A sum is no larger than that of the magnitudes.
proof fn lemma_total_size(count: nat, f: spec_fn(int) -> int, g: spec_fn(int) -> int)
    requires
        forall|l: int| 0 <= l < count ==> size(#[trigger] f(l)) <= g(l),
    ensures
        size(total(count, f)) <= total(count, g),
    decreases count,
{
    if count > 0 {
        lemma_total_size((count - 1) as nat, f, g);
        assert(size(f(count - 1)) <= g(count - 1));
    }
}

/// What a running sum of products is off by.
#[verifier::rlimit(50)]
proof fn lemma_products_read<T: Number>(
    m: Reading<T>,
    zero: T,
    terms: Seq<(T, T)>,
    acc: T,
)
    requires
        is_fine(m),
        reads_sums(m),
        reads_products(m),
        (m.known)(zero),
        (m.value)(zero) == 0,
        8 * terms.len() <= m.precision,
        forall|l: int|
            #![trigger terms[l]]
            0 <= l < terms.len() ==> {
                &&& (m.known)(terms[l].0)
                &&& (m.known)(terms[l].1)
                &&& size((m.value)(terms[l].0)) <= m.half_top
                &&& size((m.value)(terms[l].1)) <= m.half_top
            },
        4 * total(terms.len(), pair_sizes(m, terms)) <= m.top * m.unit,
        folds_to(product_step::<T>(), zero, terms, acc),
    ensures
        (m.known)(acc),
        m.precision * size(
            (m.value)(acc) * m.unit - total(terms.len(), pair_products(m, terms)),
        ) <= 8 * terms.len() * total(terms.len(), pair_sizes(m, terms)) + 2 * terms.len() * (
        m.precision * m.unit),
    decreases terms.len(),
{
    let p = m.precision;
    let u = m.unit;
    if terms.len() == 0 {
        assert(0 * u == 0);
        assert(p * 0 == 0);
    } else {
        let n = terms.len() - 1;
        let step = product_step::<T>();
        let front = terms.drop_last();
        let pair = terms.last();
        let mid = choose|mid: T|
            folds_to(step, zero, front, mid) && #[trigger] step(mid, pair, acc);
        let product = choose|product: T|
            call_ensures(T::times, (pair.0, pair.1), product) && #[trigger] call_ensures(
                T::plus,
                (mid, product),
                acc,
            );
        lemma_same_total(n as nat, pair_sizes(m, front), pair_sizes(m, terms));
        lemma_same_total(n as nat, pair_products(m, front), pair_products(m, terms));
        lemma_total_size(n as nat, pair_products(m, terms), pair_sizes(m, terms));
        assert forall|l: int|
            #![trigger front[l]]
            0 <= l < front.len() implies {
            &&& (m.known)(front[l].0)
            &&& (m.known)(front[l].1)
            &&& size((m.value)(front[l].0)) <= m.half_top
            &&& size((m.value)(front[l].1)) <= m.half_top
        } by {
            assert(front[l] == terms[l]);
        }
        assert(terms[n] == pair);
        let a = (m.value)(pair.0);
        let b = (m.value)(pair.1);
        let all = total(n as nat, pair_sizes(m, terms));
        let sum = total(n as nat, pair_products(m, terms));
        let part = size(a * b);
        assert(total(terms.len(), pair_sizes(m, terms)) == all + part);
        assert(total(terms.len(), pair_products(m, terms)) == sum + a * b);
        lemma_products_read(m, zero, front, mid);
        let x = (m.value)(product);
        let before = (m.value)(mid);
        let after = (m.value)(acc);
        assert(is_near(p, x * u, a * b, u));
        assert(p * size(x * u - a * b) <= 5 * part + p * u);
        // The sum of both is bounded before it is known to be one.
        assert((before + x) * u == before * u + x * u) by (nonlinear_arith);
        lemma_sum_step(p, u, n, all, sum, before * u, part, a * b, x * u, before * u + x * u);
        assert((2 * n + 1) * u <= p * u) by {
            lemma_mul_inequality(2 * n + 1, p, u);
        }
        assert(4 * (p * u) <= m.top * u) by {
            lemma_mul_inequality(4 * p, m.top, u);
            assert((4 * p) * u == 4 * (p * u)) by (nonlinear_arith);
        }
        lemma_sum_is_known(m.top, u, before + x);
        assert(is_near(p, after, before + x, 0));
        lemma_scaled_near(p, after, before + x, u);
        lemma_sum_step(p, u, n, all, sum, before * u, part, a * b, x * u, after * u);
    }
}

/// What an element of a product is off by, before it is rounded to a half.
proof fn lemma_element_reads<T: Number>(
    m: Reading<T>,
    a: Seq<T>,
    b: Seq<T>,
    rows: int,
    cols: int,
    k: int,
    batch: int,
    i: int,
    j: int,
    value: T,
)
    requires
        is_fine(m),
        reads_constants(m),
        reads_sums(m),
        reads_products(m),
        0 <= k,
        8 * k <= m.precision,
        ({
            let terms = dot_terms(a, b, rows, cols, k, batch, i, j);
            &&& forall|l: int|
                #![trigger terms[l]]
                0 <= l < k ==> {
                    &&& (m.known)(terms[l].0)
                    &&& (m.known)(terms[l].1)
                    &&& size((m.value)(terms[l].0)) <= m.half_top
                    &&& size((m.value)(terms[l].1)) <= m.half_top
                }
            &&& 4 * total(k as nat, pair_sizes(m, terms)) <= m.top * m.unit
        }),
        is_dot_product(a, b, rows, cols, k, batch, i, j, value),
    ensures
        (m.known)(value),
        ({
            let terms = dot_terms(a, b, rows, cols, k, batch, i, j);
            m.precision * size(
                (m.value)(value) * m.unit - total(k as nat, pair_products(m, terms)),
            ) <= 8 * k * total(k as nat, pair_sizes(m, terms)) + 2 * k * (m.precision * m.unit)
        }),
{
    let p = m.precision;
    let u = m.unit;
    let terms = dot_terms(a, b, rows, cols, k, batch, i, j);
    let zero = choose|zero: T| #[trigger]
        call_ensures(T::decimal, (0i32, 0i32), zero) && folds_to(
            product_step::<T>(),
            zero,
            terms,
            value,
        );
    assert(0 * u == 0);
    lemma_products_read(m, zero, terms, value);
}

/// The products that an element of the reference product sums up.
pub open spec fn element_products<T: Number>(
    m: Reading<T>,
    a: Seq<u16>,
    b: Seq<u16>,
    rows: int,
    cols: int,
    k: int,
    batch: int,
    i: int,
    j: int,
) -> spec_fn(int) -> int {
    |l: int|
        half_value(m, a[batch * rows * k + l * rows + i]) * half_value(
            m,
            b[batch * cols * k + l * cols + j],
        )
}

/// The magnitudes of the products that an element of the reference product sums up.
pub open spec fn element_sizes<T: Number>(
    m: Reading<T>,
    a: Seq<u16>,
    b: Seq<u16>,
    rows: int,
    cols: int,
    k: int,
    batch: int,
    i: int,
    j: int,
) -> spec_fn(int) -> int {
    |l: int|
        size(
            half_value(m, a[batch * rows * k + l * rows + i]) * half_value(
                m,
                b[batch * cols * k + l * cols + j],
            ),
        )
}

/// The number that an element of the reference product was rounded from.
#[verifier::rlimit(50)]
proof fn lemma_element_exact<T: Number>(
    m: Reading<T>,
    a: Seq<u16>,
    b: Seq<u16>,
    c: Seq<u16>,
    rows: int,
    cols: int,
    k: int,
    batch_size: int,
    batch: int,
    i: int,
    j: int,
) -> (value: T)
    requires
        is_fine(m),
        reads_constants(m),
        reads_sums(m),
        reads_products(m),
        reads_halves(m),
        0 <= k,
        8 * k <= m.precision,
        batch_size * rows * k <= a.len(),
        batch_size * cols * k <= b.len(),
        is_reference_product::<T>(a, b, c, rows, cols, k, batch_size),
        0 <= batch < batch_size,
        0 <= i < rows,
        0 <= j < cols,
        batch * rows * cols + j * rows + i < c.len(),
        forall|l: int|
            0 <= l < k ==> is_half_finite(#[trigger] a[batch * rows * k + l * rows + i]),
        forall|l: int|
            0 <= l < k ==> is_half_finite(#[trigger] b[batch * cols * k + l * cols + j]),
        4 * total(k as nat, element_sizes(m, a, b, rows, cols, k, batch, i, j)) <= m.top * m.unit,
    ensures
        (m.known)(value),
        call_ensures(
            T::to_half_bits,
            (value,),
            c[batch * rows * cols + j * rows + i],
        ),
        m.precision * size(
            (m.value)(value) * m.unit - total(
                k as nat,
                element_products(m, a, b, rows, cols, k, batch, i, j),
            ),
        ) <= 8 * k * total(k as nat, element_sizes(m, a, b, rows, cols, k, batch, i, j)) + 2 * k * (
        m.precision * m.unit),
{
    let (af, bf) = choose|af: Seq<T>, bf: Seq<T>|
        {
            &&& #[trigger] is_widened(a, af)
            &&& #[trigger] is_widened(b, bf)
            &&& forall|batch: int, i: int, j: int|
                #![trigger c[at(batch, j, i, cols, rows)]]
                0 <= batch < batch_size && 0 <= i < rows && 0 <= j < cols && at(
                    batch,
                    j,
                    i,
                    cols,
                    rows,
                ) < c.len() ==> is_product_element(
                    af,
                    bf,
                    rows,
                    cols,
                    k,
                    batch,
                    i,
                    j,
                    c[at(batch, j, i, cols, rows)],
                )
        };
    let place = at(batch, j, i, cols, rows);
    lemma_swap_factors(batch, rows, cols);
    assert(place == batch * rows * cols + j * rows + i);
    let bits = c[place];
    assert(is_product_element(af, bf, rows, cols, k, batch, i, j, bits));
    let value = choose|value: T|
        is_dot_product(af, bf, rows, cols, k, batch, i, j, value) && #[trigger] call_ensures(
            T::to_half_bits,
            (value,),
            bits,
        );
    let terms = dot_terms(af, bf, rows, cols, k, batch, i, j);
    let products = element_products(m, a, b, rows, cols, k, batch, i, j);
    let sizes = element_sizes(m, a, b, rows, cols, k, batch, i, j);
    assert forall|l: int|
        #![trigger terms[l]]
        0 <= l < k implies {
        &&& (m.known)(terms[l].0)
        &&& (m.known)(terms[l].1)
        &&& size((m.value)(terms[l].0)) <= m.half_top
        &&& size((m.value)(terms[l].1)) <= m.half_top
        &&& (m.value)(terms[l].0) == half_value(m, a[batch * rows * k + l * rows + i])
        &&& (m.value)(terms[l].1) == half_value(m, b[batch * cols * k + l * cols + j])
    } by {
        lemma_swap_factors(batch, rows, k);
        lemma_swap_factors(batch, cols, k);
        lemma_swap_factors(batch_size, rows, k);
        lemma_swap_factors(batch_size, cols, k);
        lemma_at_bound(batch, l, i, batch_size, k, rows);
        lemma_at_bound(batch, l, j, batch_size, k, cols);
        let pa = at(batch, l, i, k, rows);
        let pb = at(batch, l, j, k, cols);
        assert(pa == batch * rows * k + l * rows + i);
        assert(pb == batch * cols * k + l * cols + j);
        assert(is_half_finite(a[batch * rows * k + l * rows + i]));
        assert(is_half_finite(b[batch * cols * k + l * cols + j]));
        assert(call_ensures(T::from_half_bits, (a[pa],), af[pa]));
        assert(call_ensures(T::from_half_bits, (b[pb],), bf[pb]));
        lemma_half_value(m, a[pa], af[pa]);
        lemma_half_value(m, b[pb], bf[pb]);
    }
    assert forall|l: int| 0 <= l < k implies #[trigger] pair_products(m, terms)(l) == products(
        l,
    ) by {
        assert((m.known)(terms[l].0));
    }
    assert forall|l: int| 0 <= l < k implies #[trigger] pair_sizes(m, terms)(l) == sizes(l) by {
        assert((m.known)(terms[l].0));
    }
    lemma_same_total(k as nat, pair_products(m, terms), products);
    lemma_same_total(k as nat, pair_sizes(m, terms), sizes);
    lemma_element_reads(m, af, bf, rows, cols, k, batch, i, j, value);
    value
}

/// An element of the reference product is the sum of the products of a column of the
/// first operand and a column of the second, whose rows stand one after the other in
/// both. It is off by the precision of each step, and as a half by that of halves.
pub proof fn law_product_elements<T: Number>(
    m: Reading<T>,
    a: Seq<u16>,
    b: Seq<u16>,
    c: Seq<u16>,
    rows: int,
    cols: int,
    k: int,
    batch_size: int,
    batch: int,
    i: int,
    j: int,
    element: T,
    sum: int,
    sizes: int,
)
    requires
        is_fine(m),
        reads_constants(m),
        reads_sums(m),
        reads_products(m),
        reads_halves(m),
        0 <= k,
        8 * k <= m.precision,
        batch_size * rows * k <= a.len(),
        batch_size * cols * k <= b.len(),
        is_reference_product::<T>(a, b, c, rows, cols, k, batch_size),
        0 <= batch < batch_size,
        0 <= i < rows,
        0 <= j < cols,
        batch * rows * cols + j * rows + i < c.len(),
        forall|l: int|
            0 <= l < k ==> is_half_finite(#[trigger] a[batch * rows * k + l * rows + i]),
        forall|l: int|
            0 <= l < k ==> is_half_finite(#[trigger] b[batch * cols * k + l * cols + j]),
        sum == total(k as nat, element_products(m, a, b, rows, cols, k, batch, i, j)),
        sizes == total(k as nat, element_sizes(m, a, b, rows, cols, k, batch, i, j)),
        4 * sizes <= m.top * m.unit,
        m.precision * size(sum) + 8 * k * sizes + 2 * k * (m.precision * m.unit) <= m.precision * (
        m.half_top * m.unit),
        call_ensures(
            T::from_half_bits,
            (c[batch * rows * cols + j * rows + i],),
            element,
        ),
    ensures
        exists|exact: int|
            {
                &&& #[trigger] is_near(m.half_precision, (m.value)(element), exact, m.half_step)
                &&& m.precision * size(exact * m.unit - sum) <= 8 * k * sizes + 2 * k * (m.precision
                    * m.unit)
            },
{
    let p = m.precision;
    let u = m.unit;
    let value = lemma_element_exact(m, a, b, c, rows, cols, k, batch_size, batch, i, j);
    let v = (m.value)(value);
    assert(size(v * u) <= m.half_top * u) by (nonlinear_arith)
        requires
            p * size(v * u - sum) + p * size(sum) <= p * (m.half_top * u),
            p > 0,
    {
        assert(p * size(v * u) <= p * size(v * u - sum) + p * size(sum));
    }
    lemma_sum_is_known(m.half_top, u, v);
    assert(is_near(m.half_precision, (m.value)(element), v, m.half_step));
}

/// An element of the reference product whose sum is far beyond the range of halves
/// is not finite.
pub proof fn law_large_product_has_no_half<T: Number>(
    m: Reading<T>,
    a: Seq<u16>,
    b: Seq<u16>,
    c: Seq<u16>,
    rows: int,
    cols: int,
    k: int,
    batch_size: int,
    batch: int,
    i: int,
    j: int,
    sum: int,
    sizes: int,
)
    requires
        is_fine(m),
        reads_constants(m),
        reads_sums(m),
        reads_products(m),
        reads_halves(m),
        0 <= k,
        8 * k <= m.precision,
        batch_size * rows * k <= a.len(),
        batch_size * cols * k <= b.len(),
        is_reference_product::<T>(a, b, c, rows, cols, k, batch_size),
        0 <= batch < batch_size,
        0 <= i < rows,
        0 <= j < cols,
        batch * rows * cols + j * rows + i < c.len(),
        forall|l: int|
            0 <= l < k ==> is_half_finite(#[trigger] a[batch * rows * k + l * rows + i]),
        forall|l: int|
            0 <= l < k ==> is_half_finite(#[trigger] b[batch * cols * k + l * cols + j]),
        sum == total(k as nat, element_products(m, a, b, rows, cols, k, batch, i, j)),
        sizes == total(k as nat, element_sizes(m, a, b, rows, cols, k, batch, i, j)),
        4 * sizes <= m.top * m.unit,
        m.precision * size(sum) >= 8 * k * sizes + 2 * k * (m.precision * m.unit) + 2 * (
        m.precision * (m.half_top * m.unit)),
    ensures
        !is_half_finite(c[batch * rows * cols + j * rows + i]),
{
    let p = m.precision;
    let u = m.unit;
    let value = lemma_element_exact(m, a, b, c, rows, cols, k, batch_size, batch, i, j);
    let v = (m.value)(value);
    assert(size(v) >= 2 * m.half_top) by (nonlinear_arith)
        requires
            p * size(sum) - p * size(v * u - sum) >= 2 * (p * (m.half_top * u)),
            p > 0,
            u > 0,
    {
        assert(p * size(v * u) >= p * size(sum) - p * size(v * u - sum));
        assert(2 * (p * (m.half_top * u)) == p * ((2 * m.half_top) * u));
        assert(size(v * u) >= (2 * m.half_top) * u);
        assert(size(v * u) == size(v) * u);
    }
}

/// What the product of two differences is off from the square of the exact one.
#[verifier::rlimit(50)]
proof fn lemma_square_bound(p: int, u: int, d: int, left: int, right: int, x: int)
    requires
        p >= 1000,
        u > 0,
        is_near(p, left, d, 0),
        is_near(p, right, d, 0),
        is_near(p, x, left * right, u),
    ensures
        p * size(x - d * d) <= 5 * (d * d) + p * u,
{
    let a = size(left - d);
    let b = size(right - d);
    let s = size(d);
    let square = d * d;
    let product = left * right;
    assert(square == s * s) by (nonlinear_arith)
        requires
            square == d * d,
            s == size(d),
    ;
    assert(p * a <= s && p * b <= s);
    assert(0 <= a <= s && 0 <= b <= s) by (nonlinear_arith)
        requires
            p * a <= s,
            p * b <= s,
            p >= 1000,
            0 <= a,
            0 <= b,
    ;
    let e = left - d;
    let f = right - d;
    assert(product - square == d * e + d * f + e * f) by (nonlinear_arith)
        requires
            product == left * right,
            square == d * d,
            e == left - d,
            f == right - d,
    ;
    assert(size(d * e) == s * a && size(d * f) == s * b && size(e * f) == a * b)
        by (nonlinear_arith)
        requires
            s == size(d),
            a == size(e),
            b == size(f),
    ;
    assert(p * (s * a) <= square && p * (s * b) <= square && p * (a * b) <= square)
        by (nonlinear_arith)
        requires
            p * a <= s,
            p * b <= s,
            0 <= a <= s,
            0 <= b <= s,
            square == s * s,
            p >= 1000,
    {
        assert(p * (s * a) == s * (p * a));
        assert(s * (p * a) <= s * s);
        assert(p * (s * b) == s * (p * b));
        assert(s * (p * b) <= s * s);
        assert(p * (a * b) == (p * a) * b);
        assert((p * a) * b <= s * b);
        assert(s * b <= s * s);
    }
    let off = size(product - square);
    assert(off <= s * a + s * b + a * b);
    assert(p * off <= 3 * square) by (nonlinear_arith)
        requires
            off <= s * a + s * b + a * b,
            p * (s * a) <= square,
            p * (s * b) <= square,
            p * (a * b) <= square,
            p >= 1000,
    {
        assert(p * off <= p * (s * a + s * b + a * b));
        assert(p * (s * a + s * b + a * b) == p * (s * a) + p * (s * b) + p * (a * b));
    }
    assert(off <= square) by (nonlinear_arith)
        requires
            p * off <= 3 * square,
            p >= 1000,
            square >= 0,
            off >= 0,
    ;
    assert(square >= 0) by (nonlinear_arith)
        requires
            square == s * s,
    ;
    assert(size(product) <= 2 * square);
    let got = size(x - product);
    assert(p * size(x - square) <= p * got + p * off) by (nonlinear_arith)
        requires
            size(x - square) <= got + off,
            p >= 1000,
    ;
}

/// The square of the difference of a pair of halves.
pub open spec fn squared_difference<T: Number>(m: Reading<T>, r: u16, x: u16) -> int {
    (half_value(m, r) - half_value(m, x)) * (half_value(m, r) - half_value(m, x))
}

/// What a running sum of squared differences is off by.
#[verifier::rlimit(50)]
proof fn lemma_squares_read<T: Number>(
    m: Reading<T>,
    zero: T,
    pairs: Seq<(u16, u16)>,
    acc: T,
)
    requires
        is_fine(m),
        reads_sums(m),
        reads_products(m),
        reads_halves(m),
        (m.known)(zero),
        (m.value)(zero) == 0,
        8 * pairs.len() <= m.precision,
        forall|l: int|
            #![trigger pairs[l]]
            0 <= l < pairs.len() ==> is_half_finite(pairs[l].0) && is_half_finite(pairs[l].1),
        16 * (m.half_top * m.half_top) <= m.top * m.unit,
        4 * total(pairs.len(), |l: int| squared_difference(m, pairs[l].0, pairs[l].1)) <= m.top
            * m.unit,
        folds_to(squared_error_step::<T>(), zero, pairs, acc),
    ensures
        (m.known)(acc),
        0 <= total(pairs.len(), |l: int| squared_difference(m, pairs[l].0, pairs[l].1)),
        m.precision * size(
            (m.value)(acc) * m.unit - total(
                pairs.len(),
                |l: int| squared_difference(m, pairs[l].0, pairs[l].1),
            ),
        ) <= 8 * pairs.len() * total(
            pairs.len(),
            |l: int| squared_difference(m, pairs[l].0, pairs[l].1),
        ) + 2 * pairs.len() * (m.precision * m.unit),
    decreases pairs.len(),
{
    let p = m.precision;
    let u = m.unit;
    let squares = |l: int| squared_difference(m, pairs[l].0, pairs[l].1);
    if pairs.len() == 0 {
        assert(0 * u == 0);
        assert(p * 0 == 0);
    } else {
        let n = pairs.len() - 1;
        let step = squared_error_step::<T>();
        let front = pairs.drop_last();
        let pair = pairs.last();
        let mid = choose|mid: T|
            folds_to(step, zero, front, mid) && #[trigger] step(mid, pair, acc);
        let (rv, xv, left, right, square) = choose|rv: T, xv: T, left: T, right: T, square: T|
            {
                &&& #[trigger] call_ensures(T::from_half_bits, (pair.0,), rv)
                &&& #[trigger] call_ensures(T::from_half_bits, (pair.1,), xv)
                &&& #[trigger] call_ensures(T::minus, (rv, xv), left)
                &&& #[trigger] call_ensures(T::minus, (rv, xv), right)
                &&& call_ensures(T::times, (left, right), square)
                &&& #[trigger] call_ensures(T::plus, (mid, square), acc)
            };
        let front_squares = |l: int| squared_difference(m, front[l].0, front[l].1);
        assert(pairs[n] == pair);
        assert forall|l: int| 0 <= l < n implies #[trigger] front_squares(l) == squares(l) by {
            assert(front[l] == pairs[l]);
        }
        lemma_same_total(n as nat, front_squares, squares);
        assert forall|l: int|
            #![trigger front[l]]
            0 <= l < front.len() implies is_half_finite(front[l].0) && is_half_finite(
            front[l].1,
        ) by {
            assert(front[l] == pairs[l]);
        }
        lemma_half_value(m, pair.0, rv);
        lemma_half_value(m, pair.1, xv);
        let d = half_value(m, pair.0) - half_value(m, pair.1);
        let part = d * d;
        assert(part == squared_difference(m, pair.0, pair.1));
        assert(0 <= part) by (nonlinear_arith)
            requires
                part == d * d,
        ;
        let all = total(n as nat, squares);
        assert(total(pairs.len(), squares) == all + part);
        lemma_squares_read(m, zero, front, mid);
        let l = (m.value)(left);
        let r = (m.value)(right);
        let x = (m.value)(square);
        let before = (m.value)(mid);
        let after = (m.value)(acc);
        assert(is_near(p, l, d, 0) && is_near(p, r, d, 0));
        lemma_difference_bound(p, d, l, m.half_top);
        lemma_difference_bound(p, d, r, m.half_top);
        lemma_product_bound(l, r, 4 * m.half_top);
        assert((4 * m.half_top) * (4 * m.half_top) == 16 * (m.half_top * m.half_top))
            by (nonlinear_arith);
        assert(is_near(p, x * u, l * r, u));
        lemma_square_bound(p, u, d, l, r, x * u);
        assert((before + x) * u == before * u + x * u) by (nonlinear_arith);
        lemma_sum_step(p, u, n, all, all, before * u, part, part, x * u, before * u + x * u);
        assert((2 * n + 1) * u <= p * u) by {
            lemma_mul_inequality(2 * n + 1, p, u);
        }
        assert(2 * (p * u) <= m.top * u) by {
            lemma_mul_inequality(2 * p, m.top, u);
            assert((2 * p) * u == 2 * (p * u)) by (nonlinear_arith);
        }
        lemma_sum_is_known(m.top, u, before + x);
        assert(is_near(p, after, before + x, 0));
        lemma_scaled_near(p, after, before + x, u);
        lemma_sum_step(p, u, n, all, all, before * u, part, part, x * u, after * u);
    }
}

/// A difference of halves is small, and so is what is found for it.
proof fn lemma_difference_bound(p: int, d: int, found: int, most: int)
    requires
        p >= 1000,
        size(d) <= 2 * most,
        is_near(p, found, d, 0),
    ensures
        size(found) <= 4 * most,
{
    assert(size(found - d) <= size(d)) by (nonlinear_arith)
        requires
            p * size(found - d) <= size(d),
            p >= 1000,
    ;
}

/// The product of two bounded integers.
proof fn lemma_product_bound(a: int, b: int, most: int)
    requires
        size(a) <= most,
        size(b) <= most,
    ensures
        size(a * b) <= most * most,
{
    assert(size(a * b) <= most * most) by (nonlinear_arith)
        requires
            size(a) <= most,
            size(b) <= most,
    {
        assert(size(a * b) == size(a) * size(b));
        assert(size(a) * size(b) <= most * size(b));
        assert(most * size(b) <= most * most);
    }
}

/// What a mean is off by, where `sum` of `count` parts was divided by `number`.
#[verifier::rlimit(50)]
proof fn lemma_mean_bound(p: int, u: int, n: int, sum: int, number: int, mean: int)
    requires
        p >= 1000,
        u > 0,
        n > 0,
        is_near(p, number, n * u, 0),
        is_near(p, mean * number, sum * u, number),
        number > 0,
    ensures
        p * size(mean * n - sum) <= 8 * size(sum) + 3 * (p * n),
{
    let nu = n * u;
    assert(nu > 0) by (nonlinear_arith)
        requires
            nu == n * u,
            n > 0,
            u > 0,
    ;
    let s = size(sum);
    let su = s * u;
    assert(size(sum * u) == su) by (nonlinear_arith)
        requires
            su == s * u,
            s == size(sum),
            u > 0,
    ;
    let off = number - nu;
    assert(p * size(off) <= nu);
    assert(2 * number >= nu && number <= 2 * nu) by (nonlinear_arith)
        requires
            p * size(off) <= nu,
            off == number - nu,
            p >= 1000,
            nu > 0,
    ;
    let g = mean * number;
    let e = g - sum * u;
    assert(p * size(e) <= su + p * number);
    assert(size(g) <= 2 * su + number) by (nonlinear_arith)
        requires
            p * size(e) <= su + p * number,
            e == g - sum * u,
            size(sum * u) == su,
            p >= 1000,
            number > 0,
    {
        assert(su >= 0);
        if size(e) > su + number {
            assert(p * size(e) >= p * (su + number + 1));
            assert(p * (su + number + 1) == p * su + p * number + p);
            assert(p * su >= su);
        }
    }
    let mo = mean * off;
    assert(mean * nu == g - mo) by (nonlinear_arith)
        requires
            mo == mean * off,
            off == number - nu,
            g == mean * number,
    ;
    assert(p * size(mo) <= 2 * size(g)) by (nonlinear_arith)
        requires
            p * size(off) <= nu,
            nu <= 2 * number,
            mo == mean * off,
            g == mean * number,
            number > 0,
            p >= 1000,
    {
        assert(size(mo) == size(mean) * size(off));
        assert(size(g) == size(mean) * number);
        assert(p * (size(mean) * size(off)) == size(mean) * (p * size(off)));
        assert(size(mean) * (p * size(off)) <= size(mean) * (2 * number));
    }
    assert(p * size(mean * nu - sum * u) <= 5 * su + p * number + 2 * number) by (nonlinear_arith)
        requires
            mean * nu == g - mo,
            e == g - sum * u,
            p * size(e) <= su + p * number,
            p * size(mo) <= 2 * size(g),
            size(g) <= 2 * su + number,
            p >= 1000,
    {
        assert(size(mean * nu - sum * u) <= size(e) + size(mo));
        assert(p * size(mean * nu - sum * u) <= p * size(e) + p * size(mo));
    }
    let mn = mean * n;
    assert(mean * nu - sum * u == (mn - sum) * u) by (nonlinear_arith)
        requires
            mn == mean * n,
            nu == n * u,
    ;
    assert(size((mn - sum) * u) == size(mn - sum) * u) by (nonlinear_arith)
        requires
            u > 0,
    ;
    assert(p * size(mn - sum) <= 8 * s + 3 * (p * n)) by (nonlinear_arith)
        requires
            p * (size(mn - sum) * u) <= 5 * su + p * number + 2 * number,
            su == s * u,
            number <= 2 * nu,
            nu == n * u,
            p >= 1000,
            u > 0,
            n > 0,
            s >= 0,
    {
        assert(p * number <= p * (2 * nu));
        assert(p * (2 * nu) == (2 * (p * n)) * u);
        assert(4 * nu == (4 * n) * u);
        assert(p * n >= 4 * n);
        assert((p * n) * u >= (4 * n) * u);
        assert((p * size(mn - sum)) * u <= (5 * s) * u + (3 * (p * n)) * u);
        assert((5 * s) * u + (3 * (p * n)) * u == (5 * s + 3 * (p * n)) * u);
        assert(p * size(mn - sum) <= 5 * s + 3 * (p * n));
    }
}

/// What the reading has to offer for the errors of so many pairs.
pub open spec fn reads_errors<T: Number>(m: Reading<T>, count: int) -> bool {
    &&& is_fine(m)
    &&& reads_constants(m)
    &&& reads_sums(m)
    &&& reads_products(m)
    &&& reads_quotients(m)
    &&& reads_integers(m)
    &&& reads_halves(m)
    &&& 16 * (m.half_top * m.half_top) <= m.top * m.unit
    &&& 8 * count <= m.precision
    &&& count * m.unit <= m.top
}

/// What a mean squared error is off by: `mean` is that of `count` squares of the
/// given sum.
pub open spec fn is_mean_of_squares<T>(m: Reading<T>, mean: int, count: int, squares: int) -> bool {
    m.precision * size(mean * count * m.unit - squares) <= (8 * count + 16) * squares + 6 * count * (
    m.precision * m.unit)
}

/// How a mean squared error follows from the pairs.
#[verifier::rlimit(50)]
pub(crate) proof fn lemma_error_reads<T: Number>(
    m: Reading<T>,
    pairs: Seq<(u16, u16)>,
    count: usize,
    result: T,
)
    requires
        reads_errors(m, count as int),
        count > 0,
        count == pairs.len(),
        forall|l: int|
            #![trigger pairs[l]]
            0 <= l < pairs.len() ==> is_half_finite(pairs[l].0) && is_half_finite(pairs[l].1),
        8 * total(pairs.len(), |l: int| squared_difference(m, pairs[l].0, pairs[l].1)) <= m.top
            * m.unit,
        is_mean_squared_error(pairs, count, result),
    ensures
        (m.known)(result),
        0 <= total(pairs.len(), |l: int| squared_difference(m, pairs[l].0, pairs[l].1)),
        is_mean_of_squares(
            m,
            (m.value)(result),
            count as int,
            total(pairs.len(), |l: int| squared_difference(m, pairs[l].0, pairs[l].1)),
        ),
{
    let p = m.precision;
    let u = m.unit;
    let n = count as int;
    let squares = total(pairs.len(), |l: int| squared_difference(m, pairs[l].0, pairs[l].1));
    let (zero, sum, number) = choose|zero: T, sum: T, number: T|
        {
            &&& #[trigger] call_ensures(T::decimal, (0i32, 0i32), zero)
            &&& folds_to(squared_error_step::<T>(), zero, pairs, sum)
            &&& call_ensures(T::from_usize, (count,), number)
            &&& #[trigger] call_ensures(T::over, (sum, number), result)
        };
    assert(0 * u == 0);
    lemma_squares_read(m, zero, pairs, sum);
    let s = (m.value)(sum);
    let c = (m.value)(number);
    let mean = (m.value)(result);
    let nu = n * u;
    assert(nu >= u) by (nonlinear_arith)
        requires
            nu == n * u,
            n >= 1,
            u > 0,
    ;
    assert(is_near(p, c, nu, 0));
    assert(2 * c >= nu) by (nonlinear_arith)
        requires
            p * size(c - nu) <= nu,
            p >= 1000,
            nu > 0,
    ;
    assert(size(s * u - squares) <= squares + 2 * nu) by (nonlinear_arith)
        requires
            p * size(s * u - squares) <= 8 * n * squares + 2 * n * (p * u),
            8 * n <= p,
            squares >= 0,
            nu == n * u,
            n >= 1,
            u > 0,
    {
        let off = size(s * u - squares);
        assert(8 * n * squares <= p * squares) by (nonlinear_arith)
            requires
                8 * n <= p,
                squares >= 0,
        ;
        assert(2 * n * (p * u) == p * (2 * nu)) by (nonlinear_arith)
            requires
                nu == n * u,
        ;
        assert(off <= squares + 2 * nu) by (nonlinear_arith)
            requires
                p * off <= p * squares + p * (2 * nu),
                p > 0,
        ;
    }
    assert(8 * nu <= p * u) by {
        lemma_mul_inequality(8 * n, p, u);
        assert((8 * n) * u == 8 * (n * u)) by (nonlinear_arith);
    }
    let tu = m.top * u;
    assert(100 * (p * u) <= tu) by {
        lemma_mul_inequality(100 * p, m.top, u);
        assert((100 * p) * u == 100 * (p * u)) by (nonlinear_arith);
    }
    assert(size(s * u) == size(s) * u) by (nonlinear_arith)
        requires
            u > 0,
    ;
    assert(2 * (size(s) * u) <= tu);
    assert(tu <= 2 * (m.top * c)) by (nonlinear_arith)
        requires
            tu == m.top * u,
            u <= 2 * c,
            m.top >= 0,
    ;
    assert(is_near(p, mean * c, s * u, c));
    lemma_mean_bound(p, u, n, s, c, mean);
    let mn = mean * n;
    let off = size(mn - s);
    assert(p * (off * u) <= 8 * (size(s) * u) + 3 * (p * nu)) by (nonlinear_arith)
        requires
            p * off <= 8 * size(s) + 3 * (p * n),
            nu == n * u,
            u > 0,
    {
        assert((p * off) * u <= (8 * size(s) + 3 * (p * n)) * u);
        assert((p * off) * u == p * (off * u));
        assert((8 * size(s) + 3 * (p * n)) * u == 8 * (size(s) * u) + 3 * (p * (n * u)));
    }
    assert(mn * u - s * u == (mn - s) * u) by (nonlinear_arith);
    assert(size((mn - s) * u) == off * u) by (nonlinear_arith)
        requires
            off == size(mn - s),
            u > 0,
    ;
    let whole = size(mn * u - squares);
    assert(p * whole <= p * (off * u) + p * size(s * u - squares)) by (nonlinear_arith)
        requires
            whole <= off * u + size(s * u - squares),
            p > 0,
    ;
    assert(2 * n * (p * u) == 2 * (p * nu)) by (nonlinear_arith)
        requires
            nu == n * u,
    ;
    assert(6 * n * (p * u) == 6 * (p * nu)) by (nonlinear_arith)
        requires
            nu == n * u,
    ;
    assert((8 * n + 16) * squares == 8 * n * squares + 16 * squares) by (nonlinear_arith);
    assert(16 * nu <= p * nu) by (nonlinear_arith)
        requires
            p >= 1000,
            nu > 0,
    ;
}

/// The error between two batches of matrices is the mean of the squares of the
/// differences of all pairs of elements in the same row and column, up to the
/// precision of each step. The first batch may be stored with more rows and
/// columns.
pub proof fn law_error_is_mean_of_squares<T: Number>(
    m: Reading<T>,
    x: &[u16],
    r: &[u16],
    rows: usize,
    cols: usize,
    batch_size: usize,
    row_ceil: usize,
    col_ceil: usize,
    result: T,
)
    requires
        reads_errors(m, batch_size * rows * cols),
        0 < batch_size * rows * cols <= usize::MAX,
        call_ensures(
            compare_ref::<T>,
            (x, r, rows, cols, batch_size, row_ceil, col_ceil),
            result,
        ),
        forall|q: int|
            0 <= q < batch_size * rows * cols ==> is_half_finite(#[trigger] r@[q])
                && is_half_finite(
                x@[q / (cols as int) / (rows as int) * row_ceil * col_ceil + (q / (cols as int)) % (
                rows as int) * col_ceil + q % (cols as int)],
            ),
        8 * total(
            (batch_size * rows * cols) as nat,
            |q: int|
                squared_difference(
                    m,
                    r@[q],
                    x@[q / (cols as int) / (rows as int) * row_ceil * col_ceil + (q / (
                    cols as int)) % (rows as int) * col_ceil + q % (cols as int)],
                ),
        ) <= m.top * m.unit,
    ensures
        is_mean_of_squares(
            m,
            (m.value)(result),
            batch_size * rows * cols,
            total(
                (batch_size * rows * cols) as nat,
                |q: int|
                    squared_difference(
                        m,
                        r@[q],
                        x@[q / (cols as int) / (rows as int) * row_ceil * col_ceil + (q / (
                        cols as int)) % (rows as int) * col_ceil + q % (cols as int)],
                    ),
            ),
        ),
{
    let count = batch_size * rows * cols;
    let pairs = compared_pairs(
        x@,
        r@,
        rows as int,
        cols as int,
        batch_size as int,
        row_ceil as int,
        col_ceil as int,
    );
    let squares = |q: int|
        squared_difference(
            m,
            r@[q],
            x@[q / (cols as int) / (rows as int) * row_ceil * col_ceil + (q / (cols as int)) % (
            rows as int) * col_ceil + q % (cols as int)],
        );
    let found = |l: int| squared_difference(m, pairs[l].0, pairs[l].1);
    assert(rows * cols * batch_size == count) by (nonlinear_arith)
        requires
            count == batch_size * rows * cols,
    ;
    assert forall|q: int| 0 <= q < count implies #[trigger] found(q) == squares(q) by {}
    lemma_same_total(count as nat, found, squares);
    assert forall|l: int|
        #![trigger pairs[l]]
        0 <= l < pairs.len() implies is_half_finite(pairs[l].0) && is_half_finite(pairs[l].1) by {
        assert(is_half_finite(r@[l]));
    }
    lemma_error_reads(m, pairs, count as usize, result);
}

/// What is not known stays so: it is read from halves that are not finite, and comes
/// of every sum, difference, product and quotient in which it takes part. In single
/// precision this holds of infinities and of what is not a number taken together.
pub open spec fn spreads_unknown<T: Number>(m: Reading<T>) -> bool {
    &&& forall|h: u16, a: T| #[trigger]
        call_ensures(T::from_half_bits, (h,), a) && !is_half_finite(h) ==> !(m.known)(a)
    &&& forall|a: T, h: u16| #[trigger]
        call_ensures(T::to_half_bits, (a,), h) && !(m.known)(a) ==> !is_half_finite(h)
    &&& forall|a: T, b: T, x: T| #[trigger]
        call_ensures(T::plus, (a, b), x) && (!(m.known)(a) || !(m.known)(b)) ==> !(m.known)(x)
    &&& forall|a: T, b: T, x: T| #[trigger]
        call_ensures(T::minus, (a, b), x) && (!(m.known)(a) || !(m.known)(b)) ==> !(m.known)(x)
    &&& forall|a: T, b: T, x: T| #[trigger]
        call_ensures(T::times, (a, b), x) && (!(m.known)(a) || !(m.known)(b)) ==> !(m.known)(x)
    &&& forall|a: T, b: T, x: T| #[trigger]
        call_ensures(T::over, (a, b), x) && !(m.known)(a) && (m.known)(b) ==> !(m.known)(x)
    &&& forall|n: usize, a: T| #[trigger] call_ensures(T::from_usize, (n,), a) ==> (m.known)(a)
    &&& forall|a: T| #[trigger] call_ensures(T::decimal, (4i32, 0i32), a) ==> (m.known)(a)
}

/// A fold ends in what is not known where one of its steps leads there.
pub(crate) proof fn lemma_fold_spoils<T, E>(
    known: spec_fn(T) -> bool,
    step: spec_fn(T, E, T) -> bool,
    bad: spec_fn(E) -> bool,
    init: T,
    items: Seq<E>,
    i: int,
    x: T,
)
    requires
        0 <= i < items.len(),
        bad(items[i]),
        forall|a: T, e: E, b: T| #[trigger] step(a, e, b) && (!known(a) || bad(e)) ==> !known(b),
        folds_to(step, init, items, x),
    ensures
        !known(x),
    decreases items.len(),
{
    let front = items.drop_last();
    let mid = choose|mid: T|
        folds_to(step, init, front, mid) && #[trigger] step(mid, items.last(), x);
    if i < items.len() - 1 {
        assert(front[i] == items[i]);
        lemma_fold_spoils(known, step, bad, init, front, i, mid);
    }
}

/// A pair of which either is not finite leaves the error without a value.
pub(crate) proof fn lemma_pair_spoils_error<T: Number>(
    m: Reading<T>,
    pairs: Seq<(u16, u16)>,
    count: usize,
    result: T,
    q: int,
)
    requires
        spreads_unknown(m),
        0 <= q < pairs.len(),
        !is_half_finite(pairs[q].0) || !is_half_finite(pairs[q].1),
        is_mean_squared_error(pairs, count, result),
    ensures
        !(m.known)(result),
{
    let (zero, sum, number) = choose|zero: T, sum: T, number: T|
        {
            &&& #[trigger] call_ensures(T::decimal, (0i32, 0i32), zero)
            &&& folds_to(squared_error_step::<T>(), zero, pairs, sum)
            &&& call_ensures(T::from_usize, (count,), number)
            &&& #[trigger] call_ensures(T::over, (sum, number), result)
        };
    let bad = |pair: (u16, u16)| !is_half_finite(pair.0) || !is_half_finite(pair.1);
    let step = squared_error_step::<T>();
    assert(bad(pairs[q]));
    assert forall|a: T, e: (u16, u16), b: T| #[trigger] step(a, e, b) && (!(m.known)(a) || bad(
        e,
    )) implies !(m.known)(b) by {
        let (rv, xv, left, right, square) = choose|rv: T, xv: T, left: T, right: T, square: T|
            {
                &&& #[trigger] call_ensures(T::from_half_bits, (e.0,), rv)
                &&& #[trigger] call_ensures(T::from_half_bits, (e.1,), xv)
                &&& #[trigger] call_ensures(T::minus, (rv, xv), left)
                &&& #[trigger] call_ensures(T::minus, (rv, xv), right)
                &&& call_ensures(T::times, (left, right), square)
                &&& #[trigger] call_ensures(T::plus, (a, square), b)
            };
        if bad(e) {
            assert(!(m.known)(left));
            assert(!(m.known)(square));
        }
    }
    lemma_fold_spoils(m.known, step, bad, zero, pairs, q, sum);
}

/// An element that is not finite in either of two batches leaves their error without
/// a value, whatever the other elements are.
pub proof fn law_unknown_element_spoils_error<T: Number>(
    m: Reading<T>,
    x: &[u16],
    r: &[u16],
    rows: usize,
    cols: usize,
    batch_size: usize,
    row_ceil: usize,
    col_ceil: usize,
    result: T,
    q: int,
)
    requires
        spreads_unknown(m),
        call_ensures(
            compare_ref::<T>,
            (x, r, rows, cols, batch_size, row_ceil, col_ceil),
            result,
        ),
        0 <= q < batch_size * rows * cols,
        !is_half_finite(r@[q]) || !is_half_finite(
            x@[q / (cols as int) / (rows as int) * row_ceil * col_ceil + (q / (cols as int)) % (
            rows as int) * col_ceil + q % (cols as int)],
        ),
    ensures
        !(m.known)(result),
{
    let pairs = compared_pairs(
        x@,
        r@,
        rows as int,
        cols as int,
        batch_size as int,
        row_ceil as int,
        col_ceil as int,
    );
    lemma_pair_spoils_error(m, pairs, (rows * cols * batch_size) as usize, result, q);
}

/// A factor that is not finite leaves the elements of the product that it takes part
/// in without a value.
pub proof fn law_unknown_factor_spoils_element<T: Number>(
    m: Reading<T>,
    a: Seq<u16>,
    b: Seq<u16>,
    c: Seq<u16>,
    rows: int,
    cols: int,
    k: int,
    batch_size: int,
    batch: int,
    i: int,
    j: int,
    l: int,
)
    requires
        spreads_unknown(m),
        batch_size * rows * k <= a.len(),
        batch_size * cols * k <= b.len(),
        is_reference_product::<T>(a, b, c, rows, cols, k, batch_size),
        0 <= batch < batch_size,
        0 <= i < rows,
        0 <= j < cols,
        0 <= l < k,
        batch * rows * cols + j * rows + i < c.len(),
        !is_half_finite(a[batch * rows * k + l * rows + i]) || !is_half_finite(
            b[batch * cols * k + l * cols + j],
        ),
    ensures
        !is_half_finite(c[batch * rows * cols + j * rows + i]),
{
    let (af, bf) = choose|af: Seq<T>, bf: Seq<T>|
        {
            &&& #[trigger] is_widened(a, af)
            &&& #[trigger] is_widened(b, bf)
            &&& forall|batch: int, i: int, j: int|
                #![trigger c[at(batch, j, i, cols, rows)]]
                0 <= batch < batch_size && 0 <= i < rows && 0 <= j < cols && at(
                    batch,
                    j,
                    i,
                    cols,
                    rows,
                ) < c.len() ==> is_product_element(
                    af,
                    bf,
                    rows,
                    cols,
                    k,
                    batch,
                    i,
                    j,
                    c[at(batch, j, i, cols, rows)],
                )
        };
    let place = at(batch, j, i, cols, rows);
    lemma_swap_factors(batch, rows, cols);
    let bits = c[place];
    assert(is_product_element(af, bf, rows, cols, k, batch, i, j, bits));
    let value = choose|value: T|
        is_dot_product(af, bf, rows, cols, k, batch, i, j, value) && #[trigger] call_ensures(
            T::to_half_bits,
            (value,),
            bits,
        );
    let terms = dot_terms(af, bf, rows, cols, k, batch, i, j);
    let step = product_step::<T>();
    let zero = choose|zero: T| #[trigger]
        call_ensures(T::decimal, (0i32, 0i32), zero) && folds_to(step, zero, terms, value);
    lemma_swap_factors(batch, rows, k);
    lemma_swap_factors(batch, cols, k);
    lemma_swap_factors(batch_size, rows, k);
    lemma_swap_factors(batch_size, cols, k);
    lemma_at_bound(batch, l, i, batch_size, k, rows);
    lemma_at_bound(batch, l, j, batch_size, k, cols);
    let pa = at(batch, l, i, k, rows);
    let pb = at(batch, l, j, k, cols);
    assert(call_ensures(T::from_half_bits, (a[pa],), af[pa]));
    assert(call_ensures(T::from_half_bits, (b[pb],), bf[pb]));
    let bad = |pair: (T, T)| !(m.known)(pair.0) || !(m.known)(pair.1);
    assert(bad(terms[l]));
    lemma_fold_spoils(m.known, step, bad, zero, terms, l, value);
}

/// What [`generate_data`] writes are elements as [`law_generated_elements`] has them,
/// and behind the last matrix it writes nothing.
pub proof fn law_generate_data_writes_elements<T: Number>(
    m: Reading<T>,
    out: &mut [u16],
    width: usize,
    height: usize,
    batch_size: usize,
    m_ceil: usize,
    n_ceil: usize,
    batch: usize,
    i: usize,
    j: usize,
    element: T,
)
    requires
        reads_constants(m),
        reads_parts(m),
        call_ensures(generate_data::<T>, (out, width, height, batch_size, m_ceil, n_ceil), ()),
        batch < batch_size,
        i < n_ceil,
        j < m_ceil,
        batch < 0x3fff_ffff,
        i ^ j < 0x3fff_ffff,
        call_ensures(
            T::from_half_bits,
            (final(out)@[batch * n_ceil * m_ceil + i * m_ceil + j],),
            element,
        ),
    ensures
        i >= height || j >= width ==> (m.value)(element) == 0,
        i < height && j < width ==> exists|n: int|
            {
                &&& #[trigger] is_small(n)
                &&& 256 * (m.value)(element) == n * m.unit
                &&& ((i ^ j) + batch - 128 - n) % 256 == 0
                &&& n > 0 ==> (i ^ j) + batch - 128 > 0
                &&& n < 0 ==> (i ^ j) + batch - 128 < 0
            },
        final(out)@.len() == old(out)@.len(),
        forall|p: int|
            batch_size * n_ceil * m_ceil <= p < old(out)@.len() ==> final(out)@[p] == old(out)@[p],
{
    law_generated_elements(
        m,
        final(out)@,
        width,
        height,
        batch_size,
        m_ceil,
        n_ceil,
        batch,
        i,
        j,
        element,
    );
}

/// What [`reference_gemm`] writes are sums of products as [`law_product_elements`] has
/// them, where they are in the range of halves. Behind the last product it writes
/// nothing.
pub proof fn law_reference_gemm_sums_products<T: Number>(
    m: Reading<T>,
    a: &[u16],
    b: &[u16],
    c: &mut [u16],
    rows: usize,
    cols: usize,
    k: usize,
    batch_size: usize,
    batch: int,
    i: int,
    j: int,
    element: T,
    sum: int,
    sizes: int,
)
    requires
        is_fine(m),
        reads_constants(m),
        reads_sums(m),
        reads_products(m),
        reads_halves(m),
        8 * k <= m.precision,
        batch_size * rows * k <= a@.len(),
        batch_size * cols * k <= b@.len(),
        call_ensures(reference_gemm::<T>, (a, b, c, rows, cols, k, batch_size), ()),
        0 <= batch < batch_size,
        0 <= i < rows,
        0 <= j < cols,
        batch * rows * cols + j * rows + i < old(c)@.len(),
        forall|l: int|
            0 <= l < k ==> is_half_finite(#[trigger] a@[batch * rows * k + l * rows + i]),
        forall|l: int|
            0 <= l < k ==> is_half_finite(#[trigger] b@[batch * cols * k + l * cols + j]),
        sum == total(
            k as nat,
            element_products(m, a@, b@, rows as int, cols as int, k as int, batch, i, j),
        ),
        sizes == total(
            k as nat,
            element_sizes(m, a@, b@, rows as int, cols as int, k as int, batch, i, j),
        ),
        4 * sizes <= m.top * m.unit,
        call_ensures(
            T::from_half_bits,
            (final(c)@[batch * rows * cols + j * rows + i],),
            element,
        ),
    ensures
        m.precision * size(sum) + 8 * k * sizes + 2 * k * (m.precision * m.unit) <= m.precision * (
        m.half_top * m.unit) ==> exists|exact: int|
            {
                &&& #[trigger] is_near(m.half_precision, (m.value)(element), exact, m.half_step)
                &&& m.precision * size(exact * m.unit - sum) <= 8 * k * sizes + 2 * k * (m.precision
                    * m.unit)
            },
        m.precision * size(sum) >= 8 * k * sizes + 2 * k * (m.precision * m.unit) + 2 * (
        m.precision * (m.half_top * m.unit)) ==> !is_half_finite(
            final(c)@[batch * rows * cols + j * rows + i],
        ),
        final(c)@.len() == old(c)@.len(),
        forall|p: int|
            batch_size * rows * cols <= p < old(c)@.len() ==> final(c)@[p] == old(c)@[p],
{
    let (r, s, t, n) = (rows as int, cols as int, k as int, batch_size as int);
    if m.precision * size(sum) + 8 * k * sizes + 2 * k * (m.precision * m.unit) <= m.precision * (
    m.half_top * m.unit) {
        law_product_elements(m, a@, b@, final(c)@, r, s, t, n, batch, i, j, element, sum, sizes);
    }
    if m.precision * size(sum) >= 8 * k * sizes + 2 * k * (m.precision * m.unit) + 2 * (m.precision
        * (m.half_top * m.unit)) {
        law_large_product_has_no_half(m, a@, b@, final(c)@, r, s, t, n, batch, i, j, sum, sizes);
    }
}

/// Where one of the factors of an element is not finite, [`reference_gemm`] writes no
/// finite half.
pub proof fn law_reference_gemm_passes_unknown_on<T: Number>(
    m: Reading<T>,
    a: &[u16],
    b: &[u16],
    c: &mut [u16],
    rows: usize,
    cols: usize,
    k: usize,
    batch_size: usize,
    batch: int,
    i: int,
    j: int,
    l: int,
)
    requires
        spreads_unknown(m),
        batch_size * rows * k <= a@.len(),
        batch_size * cols * k <= b@.len(),
        call_ensures(reference_gemm::<T>, (a, b, c, rows, cols, k, batch_size), ()),
        0 <= batch < batch_size,
        0 <= i < rows,
        0 <= j < cols,
        0 <= l < k,
        batch * rows * cols + j * rows + i < old(c)@.len(),
        !is_half_finite(a@[batch * rows * k + l * rows + i]) || !is_half_finite(
            b@[batch * cols * k + l * cols + j],
        ),
    ensures
        !is_half_finite(final(c)@[batch * rows * cols + j * rows + i]),
{
    let (r, s, t, n) = (rows as int, cols as int, k as int, batch_size as int);
    law_unknown_factor_spoils_element(m, a@, b@, final(c)@, r, s, t, n, batch, i, j, l);
}

} // verus!

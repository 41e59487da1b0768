//! Test matrices in half precision, the reference product and the distance of
//! a computed product from it.
//!
//! A half-precision element is held as its bits; see [`Number`].
use vstd::prelude::*;

use crate::layout::{
    at, lemma_at_bound, lemma_at_injective, lemma_at_split, lemma_next_matrix, lemma_next_row,
    lemma_swap_factors,
};
use crate::number::{folds_to, lemma_folds_to_push, Number};

verus! {

/// The remainder of a division that rounds toward zero: it has the sign of `a`.
pub open spec fn remainder_toward_zero(a: int, b: int) -> int {
    if a >= 0 {
        a % b
    } else {
        -((-a) % b)
    }
}

/// What the element in row `i` and column `j` of a generated matrix is derived
/// from. Wide indices are cut down to 32 bits.
pub open spec fn cell_seed(i: usize, j: usize, batch: usize) -> int {
    ((i ^ j) as i32) + (batch as i32) - 128
}

/// The arithmetic of the seed stays within 32 bits.
pub open spec fn cell_seed_fits(i: usize, j: usize, batch: usize) -> bool {
    i32::MIN <= cell_seed(i, j, batch) && cell_seed(i, j, batch) + 128 <= i32::MAX
}

/// `value` is the element in row `i` and column `j` of a generated matrix: a
/// multiple of 1/256 inside the `n` rows and `m` columns that are filled, and
/// zero in the padding.
pub open spec fn is_cell_value<T: Number>(
    i: usize,
    j: usize,
    batch: usize,
    m: usize,
    n: usize,
    value: T,
) -> bool {
    if i < n && j < m {
        exists|numerator: T, denominator: T|
            {
                &&& call_ensures(
                    T::from_i32,
                    (remainder_toward_zero(cell_seed(i, j, batch), 256) as i32,),
                    numerator,
                )
                &&& call_ensures(T::decimal, (256i32, 0i32), denominator)
                &&& #[trigger] call_ensures(T::over, (numerator, denominator), value)
            }
    } else {
        call_ensures(T::decimal, (0i32, 0i32), value)
    }
}

/// `bits` hold the element in row `i` and column `j` of a generated matrix.
pub open spec fn is_cell<T: Number>(
    i: usize,
    j: usize,
    batch: usize,
    m: usize,
    n: usize,
    bits: u16,
) -> bool {
    exists|value: T|
        is_cell_value(i, j, batch, m, n, value) && #[trigger] call_ensures(
            T::to_half_bits,
            (value,),
            bits,
        )
}

/// The element in row `i` and column `j` of a generated matrix.
fn cell<T: Number>(i: usize, j: usize, batch: usize, m: usize, n: usize) -> (bits: u16)
    requires
        i < n && j < m ==> cell_seed_fits(i, j, batch),
    ensures
        is_cell::<T>(i, j, batch, m, n, bits),
{
    let value: T = if i < n && j < m {
        let seed: i32 = (i ^ j) as i32 + batch as i32 - 128;
        let remainder: i32 = seed % 256;
        assert(remainder == remainder_toward_zero(seed as int, 256));
        T::from_i32(remainder).over(T::decimal(256, 0))
    } else {
        T::decimal(0, 0)
    };
    value.to_half_bits()
}

/// `out` starts with `batch_size` generated matrices of `n_ceil` rows and `m_ceil`
/// columns, of which the first `n` rows and `m` columns are filled.
pub open spec fn is_generated<T: Number>(
    out: Seq<u16>,
    m: usize,
    n: usize,
    batch_size: usize,
    m_ceil: usize,
    n_ceil: usize,
) -> bool {
    forall|batch: usize, i: usize, j: usize|
        batch < batch_size && i < n_ceil && j < m_ceil ==> is_cell::<T>(
            i,
            j,
            batch,
            m,
            n,
            #[trigger] out[at(batch as int, i as int, j as int, n_ceil as int, m_ceil as int)],
        )
}

/// The elements of the generated matrices that stand before position `end` are
/// in place.
spec fn generated_below<T: Number>(
    out: Seq<u16>,
    m: usize,
    n: usize,
    batch_size: usize,
    m_ceil: usize,
    n_ceil: usize,
    end: int,
) -> bool {
    forall|batch: usize, i: usize, j: usize|
        #![trigger out[at(batch as int, i as int, j as int, n_ceil as int, m_ceil as int)]]
        batch < batch_size && i < n_ceil && j < m_ceil && at(
            batch as int,
            i as int,
            j as int,
            n_ceil as int,
            m_ceil as int,
        ) < end ==> is_cell::<T>(
            i,
            j,
            batch,
            m,
            n,
            out[at(batch as int, i as int, j as int, n_ceil as int, m_ceil as int)],
        )
}

/// Fills `out` with `batch_size` matrices of `n_ceil` rows and `m_ceil` columns
/// each. The first `n` rows and `m` columns hold a fixed pattern, the rest of
/// each matrix is zero; what lies behind the last matrix is left as it is.
pub fn generate_data<T: Number>(
    out: &mut [u16],
    m: usize,
    n: usize,
    batch_size: usize,
    m_ceil: usize,
    n_ceil: usize,
)
    requires
        batch_size * n_ceil * m_ceil <= old(out)@.len(),
        forall|batch: usize, i: usize, j: usize|
            batch < batch_size && i < n && i < n_ceil && j < m && j < m_ceil
                ==> #[trigger] cell_seed_fits(i, j, batch),
    ensures
        final(out)@.len() == old(out)@.len(),
        is_generated::<T>(final(out)@, m, n, batch_size, m_ceil, n_ceil),
        forall|p: int|
            batch_size * n_ceil * m_ceil <= p < old(out)@.len() ==> final(out)@[p] == old(
                out,
            )@[p],
{
    let len: usize = out.len();
    let ghost before = out@;
    let ghost total = batch_size * n_ceil * m_ceil;
    let mut batch: usize = 0;
    while batch < batch_size
        invariant
            batch <= batch_size,
            out@.len() == len == before.len(),
            total == batch_size * n_ceil * m_ceil <= len,
            forall|b: usize, i: usize, j: usize|
                b < batch_size && i < n && i < n_ceil && j < m && j < m_ceil
                    ==> #[trigger] cell_seed_fits(i, j, b),
            generated_below::<T>(
                out@,
                m,
                n,
                batch_size,
                m_ceil,
                n_ceil,
                batch * n_ceil * m_ceil,
            ),
            forall|p: int| total <= p < len ==> out@[p] == before[p],
        decreases batch_size - batch,
    {
        let mut i: usize = 0;
        while i < n_ceil
            invariant
                batch < batch_size,
                i <= n_ceil,
                out@.len() == len == before.len(),
                total == batch_size * n_ceil * m_ceil <= len,
                forall|b: usize, i: usize, j: usize|
                    b < batch_size && i < n && i < n_ceil && j < m && j < m_ceil
                        ==> #[trigger] cell_seed_fits(i, j, b),
                generated_below::<T>(
                    out@,
                    m,
                    n,
                    batch_size,
                    m_ceil,
                    n_ceil,
                    batch * n_ceil * m_ceil + i * m_ceil,
                ),
                forall|p: int| total <= p < len ==> out@[p] == before[p],
            decreases n_ceil - i,
        {
            let mut j: usize = 0;
            while j < m_ceil
                invariant
                    batch < batch_size,
                    i < n_ceil,
                    j <= m_ceil,
                    out@.len() == len == before.len(),
                    total == batch_size * n_ceil * m_ceil <= len,
                    forall|b: usize, i: usize, j: usize|
                        b < batch_size && i < n && i < n_ceil && j < m && j < m_ceil
                            ==> #[trigger] cell_seed_fits(i, j, b),
                    generated_below::<T>(
                        out@,
                        m,
                        n,
                        batch_size,
                        m_ceil,
                        n_ceil,
                        at(batch as int, i as int, j as int, n_ceil as int, m_ceil as int),
                    ),
                    forall|p: int| total <= p < len ==> out@[p] == before[p],
                decreases m_ceil - j,
            {
                proof {
                    lemma_at_bound(
                        batch as int,
                        i as int,
                        j as int,
                        batch_size as int,
                        n_ceil as int,
                        m_ceil as int,
                    );
                }
                let place: usize = batch * n_ceil * m_ceil + i * m_ceil + j;
                let ghost earlier = out@;
                out[place] = cell::<T>(i, j, batch, m, n);
                proof {
                    assert forall|b: usize, r: usize, c: usize|
                        #![trigger out@[at(b as int, r as int, c as int, n_ceil as int, m_ceil as int)]]
                        b < batch_size && r < n_ceil && c < m_ceil && at(
                            b as int,
                            r as int,
                            c as int,
                            n_ceil as int,
                            m_ceil as int,
                        ) < place + 1 implies is_cell::<T>(
                        r,
                        c,
                        b,
                        m,
                        n,
                        out@[at(b as int, r as int, c as int, n_ceil as int, m_ceil as int)],
                    ) by {
                        let p = at(b as int, r as int, c as int, n_ceil as int, m_ceil as int);
                        lemma_at_bound(
                            b as int,
                            r as int,
                            c as int,
                            batch_size as int,
                            n_ceil as int,
                            m_ceil as int,
                        );
                        if p == place {
                            lemma_at_injective(
                                b as int,
                                r as int,
                                c as int,
                                batch as int,
                                i as int,
                                j as int,
                                n_ceil as int,
                                m_ceil as int,
                            );
                        } else {
                            assert(out@[p] == earlier[p]);
                        }
                    }
                }
                j = j + 1;
            }
            proof {
                lemma_next_row(i as int, m_ceil as int);
            }
            i = i + 1;
        }
        proof {
            lemma_next_matrix(batch as int, n_ceil as int, m_ceil as int);
        }
        batch = batch + 1;
    }
    assert forall|batch: usize, i: usize, j: usize|
        batch < batch_size && i < n_ceil && j < m_ceil implies is_cell::<T>(
        i,
        j,
        batch,
        m,
        n,
        #[trigger] out@[at(batch as int, i as int, j as int, n_ceil as int, m_ceil as int)],
    ) by {
        lemma_at_bound(
            batch as int,
            i as int,
            j as int,
            batch_size as int,
            n_ceil as int,
            m_ceil as int,
        );
    }
}

/// `values` are the numbers that the half-precision `bits` stand for.
pub open spec fn is_widened<T: Number>(bits: Seq<u16>, values: Seq<T>) -> bool {
    &&& values.len() == bits.len()
    &&& forall|p: int|
        0 <= p < bits.len() ==> call_ensures(T::from_half_bits, (bits[p],), #[trigger] values[p])
}

/// The numbers that the half-precision `bits` stand for.
fn widen<T: Number>(bits: &[u16]) -> (values: Vec<T>)
    ensures
        is_widened(bits@, values@),
{
    let mut values: Vec<T> = Vec::new();
    let mut p: usize = 0;
    while p < bits.len()
        invariant
            p <= bits@.len(),
            is_widened(bits@.take(p as int), values@),
        decreases bits@.len() - p,
    {
        values.push(T::from_half_bits(bits[p]));
        p = p + 1;
    }
    assert(bits@.take(p as int) =~= bits@);
    values
}

/// The step that adds the product of a pair of numbers.
pub open spec fn product_step<T: Number>() -> spec_fn(T, (T, T), T) -> bool {
    |before: T, pair: (T, T), after: T|
        exists|product: T|
            call_ensures(T::times, (pair.0, pair.1), product) && #[trigger] call_ensures(
                T::plus,
                (before, product),
                after,
            )
}

/// The pairs that meet in row `i` and column `j` of the product: column `i` of
/// the first operand, which holds `k` rows of `m`, and column `j` of the second,
/// which holds `k` rows of `n`.
pub open spec fn dot_terms<T>(
    a: Seq<T>,
    b: Seq<T>,
    m: int,
    n: int,
    k: int,
    batch: int,
    i: int,
    j: int,
) -> Seq<(T, T)> {
    Seq::new(k as nat, |l: int| (a[at(batch, l, i, k, m)], b[at(batch, l, j, k, n)]))
}

/// `value` is the element in row `i` and column `j` of the product, summed up
/// from zero in the order of the terms.
pub open spec fn is_dot_product<T: Number>(
    a: Seq<T>,
    b: Seq<T>,
    m: int,
    n: int,
    k: int,
    batch: int,
    i: int,
    j: int,
    value: T,
) -> bool {
    exists|zero: T| #[trigger]
        call_ensures(T::decimal, (0i32, 0i32), zero) && folds_to(
            product_step::<T>(),
            zero,
            dot_terms(a, b, m, n, k, batch, i, j),
            value,
        )
}

/// `bits` hold the element in row `i` and column `j` of the product, rounded to
/// half precision.
pub open spec fn is_product_element<T: Number>(
    a: Seq<T>,
    b: Seq<T>,
    m: int,
    n: int,
    k: int,
    batch: int,
    i: int,
    j: int,
    bits: u16,
) -> bool {
    exists|value: T|
        is_dot_product(a, b, m, n, k, batch, i, j, value) && #[trigger] call_ensures(
            T::to_half_bits,
            (value,),
            bits,
        )
}

/// The sizes of the three operands, and the places where the last matrix of
/// each starts, can be computed.
pub open spec fn product_sizes_fit(m: int, n: int, k: int, batch_size: int) -> bool {
    &&& batch_size * m <= usize::MAX
    &&& batch_size * m * n <= usize::MAX
    &&& batch_size > 0 ==> {
        &&& (batch_size - 1) * m * k <= usize::MAX
        &&& (batch_size - 1) * n <= usize::MAX
        &&& (batch_size - 1) * n * k <= usize::MAX
    }
}

/// The start of a matrix lies no further than that of the last one.
proof fn lemma_start_bound(batch: int, batch_size: int, rows: int, cols: int)
    requires
        0 <= batch < batch_size,
        0 <= rows,
        0 <= cols,
    ensures
        0 <= batch * rows <= (batch_size - 1) * rows,
        0 <= batch * rows * cols <= (batch_size - 1) * rows * cols,
        batch * rows <= batch_size * rows,
        batch * rows * cols <= batch_size * rows * cols,
{
    assert(0 <= batch * rows <= (batch_size - 1) * rows <= batch_size * rows) by (nonlinear_arith)
        requires
            0 <= batch < batch_size,
            0 <= rows,
    ;
    let here = batch * rows;
    let last = (batch_size - 1) * rows;
    let all = batch_size * rows;
    assert(0 <= here * cols <= last * cols <= all * cols) by (nonlinear_arith)
        requires
            0 <= here <= last <= all,
            0 <= cols,
    ;
}

/// One element of the product, with the operands of the batch starting at
/// `start_a` and `start_b`.
fn dot_product<T: Number>(
    a: &Vec<T>,
    b: &Vec<T>,
    m: usize,
    n: usize,
    k: usize,
    start_a: usize,
    start_b: usize,
    i: usize,
    j: usize,
    Ghost(batch): Ghost<int>,
    Ghost(batch_size): Ghost<int>,
) -> (value: T)
    requires
        0 <= batch < batch_size,
        i < m,
        j < n,
        start_a == batch * m * k,
        start_b == batch * n * k,
        batch_size * m * k <= a@.len(),
        batch_size * n * k <= b@.len(),
    ensures
        is_dot_product(a@, b@, m as int, n as int, k as int, batch, i as int, j as int, value),
{
    let ghost terms = dot_terms(
        a@,
        b@,
        m as int,
        n as int,
        k as int,
        batch,
        i as int,
        j as int,
    );
    let zero = T::decimal(0, 0);
    let mut value = zero;
    let mut l: usize = 0;
    assert(terms.take(0) =~= Seq::empty());
    while l < k
        invariant
            0 <= batch < batch_size,
            i < m,
            j < n,
            l <= k,
            start_a == batch * m * k,
            start_b == batch * n * k,
            batch_size * m * k <= a@.len(),
            batch_size * n * k <= b@.len(),
            terms == dot_terms(
                a@,
                b@,
                m as int,
                n as int,
                k as int,
                batch,
                i as int,
                j as int,
            ),
            folds_to(product_step::<T>(), zero, terms.take(l as int), value),
        decreases k - l,
    {
        proof {
            lemma_at_bound(batch, l as int, i as int, batch_size, k as int, m as int);
            lemma_at_bound(batch, l as int, j as int, batch_size, k as int, n as int);
            lemma_swap_factors(batch, k as int, m as int);
            lemma_swap_factors(batch, k as int, n as int);
            lemma_swap_factors(batch_size, k as int, m as int);
            lemma_swap_factors(batch_size, k as int, n as int);
            assert(a.len() == a@.len() && b.len() == b@.len());
        }
        let ghost before = value;
        value = value.plus(a[l * m + i + start_a].times(b[l * n + j + start_b]));
        proof {
            lemma_folds_to_push(
                product_step::<T>(),
                zero,
                terms.take(l as int),
                before,
                terms[l as int],
                value,
            );
            assert(terms.take(l as int).push(terms[l as int]) =~= terms.take(l + 1));
        }
        l = l + 1;
    }
    assert(terms.take(l as int) =~= terms);
    value
}

/// One product of the batch, column by column, written to the place where the
/// batch starts.
fn multiply_one<T: Number>(
    a: &Vec<T>,
    b: &Vec<T>,
    c: &mut Vec<T>,
    m: usize,
    n: usize,
    k: usize,
    batch: usize,
    batch_size: usize,
)
    requires
        batch < batch_size,
        product_sizes_fit(m as int, n as int, k as int, batch_size as int),
        n > 0 ==> batch_size * m * k <= a@.len(),
        m > 0 ==> batch_size * n * k <= b@.len(),
        old(c)@.len() == batch_size * m * n,
        forall|q: int, i: int, j: int|
            #![trigger old(c)@[at(q, j, i, n as int, m as int)]]
            0 <= q < batch && 0 <= i < m && 0 <= j < n ==> is_dot_product(
                a@,
                b@,
                m as int,
                n as int,
                k as int,
                q,
                i,
                j,
                old(c)@[at(q, j, i, n as int, m as int)],
            ),
    ensures
        final(c)@.len() == old(c)@.len(),
        forall|q: int, i: int, j: int|
            #![trigger final(c)@[at(q, j, i, n as int, m as int)]]
            0 <= q <= batch && 0 <= i < m && 0 <= j < n ==> is_dot_product(
                a@,
                b@,
                m as int,
                n as int,
                k as int,
                q,
                i,
                j,
                final(c)@[at(q, j, i, n as int, m as int)],
            ),
{
    proof {
        lemma_start_bound(batch as int, batch_size as int, m as int, k as int);
        lemma_start_bound(batch as int, batch_size as int, n as int, k as int);
        lemma_start_bound(batch as int, batch_size as int, m as int, n as int);
    }
    let start_a: usize = batch * m * k;
    let start_b: usize = batch * n * k;
    let start_c: usize = batch * m * n;
    let mut i: usize = 0;
    while i < m
        invariant
            batch < batch_size,
            i <= m,
            start_a == batch * m * k,
            start_b == batch * n * k,
            start_c == batch * m * n,
            n > 0 ==> batch_size * m * k <= a@.len(),
            m > 0 ==> batch_size * n * k <= b@.len(),
            c@.len() == batch_size * m * n,
            forall|q: int, r: int, j: int|
                #![trigger c@[at(q, j, r, n as int, m as int)]]
                (0 <= q < batch && 0 <= r < m || q == batch && 0 <= r < i) && 0 <= j < n
                    ==> is_dot_product(
                    a@,
                    b@,
                    m as int,
                    n as int,
                    k as int,
                    q,
                    r,
                    j,
                    c@[at(q, j, r, n as int, m as int)],
                ),
        decreases m - i,
    {
        let mut j: usize = 0;
        while j < n
            invariant
                batch < batch_size,
                i < m,
                j <= n,
                start_a == batch * m * k,
                start_b == batch * n * k,
                start_c == batch * m * n,
                n > 0 ==> batch_size * m * k <= a@.len(),
                m > 0 ==> batch_size * n * k <= b@.len(),
                c@.len() == batch_size * m * n,
                forall|q: int, r: int, s: int|
                    #![trigger c@[at(q, s, r, n as int, m as int)]]
                    (0 <= q < batch && 0 <= r < m && 0 <= s < n || q == batch && 0 <= r < i && 0
                        <= s < n || q == batch && r == i && 0 <= s < j) ==> is_dot_product(
                        a@,
                        b@,
                        m as int,
                        n as int,
                        k as int,
                        q,
                        r,
                        s,
                        c@[at(q, s, r, n as int, m as int)],
                    ),
            decreases n - j,
        {
            proof {
                lemma_at_bound(
                    batch as int,
                    j as int,
                    i as int,
                    batch_size as int,
                    n as int,
                    m as int,
                );
                lemma_swap_factors(batch as int, m as int, n as int);
                lemma_swap_factors(batch_size as int, m as int, n as int);
                assert(c.len() == c@.len());
            }
            let value = dot_product(
                a,
                b,
                m,
                n,
                k,
                start_a,
                start_b,
                i,
                j,
                Ghost(batch as int),
                Ghost(batch_size as int),
            );
            let place: usize = j * m + i + start_c;
            let ghost earlier = c@;
            c[place] = value;
            proof {
                assert forall|q: int, r: int, s: int|
                    #![trigger c@[at(q, s, r, n as int, m as int)]]
                    (0 <= q < batch && 0 <= r < m && 0 <= s < n || q == batch && 0 <= r < i && 0
                        <= s < n || q == batch && r == i && 0 <= s < j + 1) implies is_dot_product(
                    a@,
                    b@,
                    m as int,
                    n as int,
                    k as int,
                    q,
                    r,
                    s,
                    c@[at(q, s, r, n as int, m as int)],
                ) by {
                    let p = at(q, s, r, n as int, m as int);
                    lemma_at_bound(q, s, r, batch_size as int, n as int, m as int);
                    if p == place {
                        lemma_at_injective(
                            q,
                            s,
                            r,
                            batch as int,
                            j as int,
                            i as int,
                            n as int,
                            m as int,
                        );
                    } else {
                        assert(c@[p] == earlier[p]);
                    }
                }
            }
            j = j + 1;
        }
        i = i + 1;
    }
}

/// The elements of `c` are those of the products of the matrices in `a` and `b`,
/// as far as `c` reaches.
pub open spec fn is_reference_product<T: Number>(
    a: Seq<u16>,
    b: Seq<u16>,
    c: Seq<u16>,
    m: int,
    n: int,
    k: int,
    batch_size: int,
) -> bool {
    exists|af: Seq<T>, bf: Seq<T>|
        {
            &&& #[trigger] is_widened(a, af)
            &&& #[trigger] is_widened(b, bf)
            &&& forall|batch: int, i: int, j: int|
                #![trigger c[at(batch, j, i, n, m)]]
                0 <= batch < batch_size && 0 <= i < m && 0 <= j < n && at(batch, j, i, n, m)
                    < c.len() ==> is_product_element(
                    af,
                    bf,
                    m,
                    n,
                    k,
                    batch,
                    i,
                    j,
                    c[at(batch, j, i, n, m)],
                )
        }
}

/// The products of `batch_size` pairs of matrices, summed up in single precision.
///
/// Each matrix of `a` holds `k` rows of `m` elements, each of `b` holds `k` rows
/// of `n`, and each product goes to `c` as `n` rows of `m`: the transpose of the
/// first operand times the second, column by column. What does not fit in `c` is
/// dropped, and what lies in `c` behind the last product is left as it is.
pub fn reference_gemm<T: Number>(
    a: &[u16],
    b: &[u16],
    c: &mut [u16],
    m: usize,
    n: usize,
    k: usize,
    batch_size: usize,
)
    requires
        product_sizes_fit(m as int, n as int, k as int, batch_size as int),
        n > 0 ==> batch_size * m * k <= a@.len(),
        m > 0 ==> batch_size * n * k <= b@.len(),
    ensures
        final(c)@.len() == old(c)@.len(),
        is_reference_product::<T>(
            a@,
            b@,
            final(c)@,
            m as int,
            n as int,
            k as int,
            batch_size as int,
        ),
        forall|p: int|
            batch_size * m * n <= p < old(c)@.len() ==> final(c)@[p] == old(c)@[p],
{
    let af: Vec<T> = widen(a);
    let bf: Vec<T> = widen(b);
    proof {
        assert(0 <= batch_size * m * n) by (nonlinear_arith);
    }
    let total: usize = batch_size * m * n;
    let mut cf: Vec<T> = Vec::new();
    let mut filled: usize = 0;
    while filled < total
        invariant
            filled <= total,
            cf@.len() == filled,
        decreases total - filled,
    {
        cf.push(T::decimal(0, 0));
        filled = filled + 1;
    }

    let mut batch: usize = 0;
    while batch < batch_size
        invariant
            batch <= batch_size,
            product_sizes_fit(m as int, n as int, k as int, batch_size as int),
            n > 0 ==> batch_size * m * k <= af@.len(),
            m > 0 ==> batch_size * n * k <= bf@.len(),
            cf@.len() == total == batch_size * m * n,
            forall|q: int, i: int, j: int|
                #![trigger cf@[at(q, j, i, n as int, m as int)]]
                0 <= q < batch && 0 <= i < m && 0 <= j < n ==> is_dot_product(
                    af@,
                    bf@,
                    m as int,
                    n as int,
                    k as int,
                    q,
                    i,
                    j,
                    cf@[at(q, j, i, n as int, m as int)],
                ),
        decreases batch_size - batch,
    {
        multiply_one(&af, &bf, &mut cf, m, n, k, batch, batch_size);
        batch = batch + 1;
    }

    let len: usize = c.len();
    let ghost before = c@;
    let mut p: usize = 0;
    while p < len && p < total
        invariant
            p <= len,
            p <= total,
            c@.len() == len == before.len(),
            cf@.len() == total,
            forall|q: int|
                0 <= q < p ==> call_ensures(T::to_half_bits, (cf@[q],), #[trigger] c@[q]),
            forall|q: int| p <= q < len ==> c@[q] == before[q],
        decreases total - p,
    {
        c[p] = cf[p].to_half_bits();
        p = p + 1;
    }
    proof {
        assert forall|batch: int, i: int, j: int|
            #![trigger c@[at(batch, j, i, n as int, m as int)]]
            0 <= batch < batch_size && 0 <= i < m && 0 <= j < n && at(
                batch,
                j,
                i,
                n as int,
                m as int,
            ) < c@.len() implies is_product_element(
            af@,
            bf@,
            m as int,
            n as int,
            k as int,
            batch,
            i,
            j,
            c@[at(batch, j, i, n as int, m as int)],
        ) by {
            lemma_at_bound(batch, j, i, batch_size as int, n as int, m as int);
            lemma_swap_factors(batch_size as int, m as int, n as int);
            let value = cf@[at(batch, j, i, n as int, m as int)];
            assert(is_dot_product(
                af@,
                bf@,
                m as int,
                n as int,
                k as int,
                batch,
                i,
                j,
                value,
            ));
        }
        assert(is_widened(a@, af@) && is_widened(b@, bf@));
    }
}

/// The step that adds the squared difference of two half-precision elements.
pub open spec fn squared_error_step<T: Number>() -> spec_fn(T, (u16, u16), T) -> bool {
    |before: T, pair: (u16, u16), after: T|
        exists|rv: T, xv: T, left: T, right: T, square: T|
            {
                &&& #[trigger] call_ensures(T::from_half_bits, (pair.0,), rv)
                &&& #[trigger] call_ensures(T::from_half_bits, (pair.1,), xv)
                &&& #[trigger] call_ensures(T::minus, (rv, xv), left)
                &&& #[trigger] call_ensures(T::minus, (rv, xv), right)
                &&& call_ensures(T::times, (left, right), square)
                &&& #[trigger] call_ensures(T::plus, (before, square), after)
            }
}

/// The elements that are compared, in order: those of `r`, which holds `m` rows
/// of `n` for each batch, each with its counterpart in `x`, which holds `m_ceil`
/// rows of `n_ceil`.
pub open spec fn compared_pairs(
    x: Seq<u16>,
    r: Seq<u16>,
    m: int,
    n: int,
    batch_size: int,
    m_ceil: int,
    n_ceil: int,
) -> Seq<(u16, u16)> {
    Seq::new(
        (batch_size * m * n) as nat,
        |p: int| (r[p], x[at(p / n / m, (p / n) % m, p % n, m_ceil, n_ceil)]),
    )
}

/// Every element of the reference is compared once, with the element in the same
/// row and column of the same batch.
pub proof fn law_compared_pair(
    x: Seq<u16>,
    r: Seq<u16>,
    m: int,
    n: int,
    batch_size: int,
    m_ceil: int,
    n_ceil: int,
    batch: int,
    row: int,
    col: int,
)
    requires
        0 <= batch < batch_size,
        0 <= row < m,
        0 <= col < n,
    ensures
        compared_pairs(x, r, m, n, batch_size, m_ceil, n_ceil).len() == batch_size * m * n,
        0 <= at(batch, row, col, m, n) < batch_size * m * n,
        compared_pairs(x, r, m, n, batch_size, m_ceil, n_ceil)[at(batch, row, col, m, n)] == (
            r[at(batch, row, col, m, n)],
            x[at(batch, row, col, m_ceil, n_ceil)],
        ),
{
    lemma_at_bound(batch, row, col, batch_size, m, n);
    lemma_at_split(batch, row, col, m, n);
}

/// `result` is the sum of the squared differences, taken from zero in the order
/// of the pairs, divided by their number.
pub open spec fn is_mean_squared_error<T: Number>(
    pairs: Seq<(u16, u16)>,
    count: usize,
    result: T,
) -> bool {
    exists|zero: T, sum: T, number: T|
        {
            &&& #[trigger] call_ensures(T::decimal, (0i32, 0i32), zero)
            &&& folds_to(squared_error_step::<T>(), zero, pairs, sum)
            &&& call_ensures(T::from_usize, (count,), number)
            &&& #[trigger] call_ensures(T::over, (sum, number), result)
        }
}

/// Every element that is compared is there, and its position can be computed.
pub open spec fn comparison_fits(
    x_len: int,
    r_len: int,
    m: int,
    n: int,
    batch_size: int,
    m_ceil: int,
    n_ceil: int,
) -> bool {
    &&& m * n <= usize::MAX
    &&& m * n * batch_size <= usize::MAX
    &&& batch_size * m * n <= r_len
    &&& m > 0 && n > 0 && batch_size > 0 ==> {
        &&& (batch_size - 1) * n_ceil <= usize::MAX
        &&& at(batch_size - 1, m - 1, n - 1, m_ceil, n_ceil) < x_len
    }
}

/// The position of an element lies no further than that of the last one.
proof fn lemma_at_monotonic(
    batch: int,
    row: int,
    col: int,
    last_batch: int,
    last_row: int,
    last_col: int,
    rows: int,
    cols: int,
)
    requires
        0 <= batch <= last_batch,
        0 <= row <= last_row,
        0 <= col <= last_col,
        0 <= rows,
        0 <= cols,
    ensures
        0 <= batch * cols <= last_batch * cols,
        0 <= batch * rows * cols,
        0 <= row * cols,
        at(batch, row, col, rows, cols) <= at(last_batch, last_row, last_col, rows, cols),
{
    lemma_start_bound(batch, last_batch + 1, rows, cols);
    lemma_start_bound(batch, last_batch + 1, cols, rows);
    assert(0 <= row * cols <= last_row * cols) by (nonlinear_arith)
        requires
            0 <= row <= last_row,
            0 <= cols,
    ;
}

/// The mean squared difference between the products in `x` and the reference in
/// `r`. `r` holds `m` rows of `n` elements for each batch; `x` holds `m_ceil` rows
/// of `n_ceil`, of which the leading ones are compared.
pub fn compare_ref<T: Number>(
    x: &[u16],
    r: &[u16],
    m: usize,
    n: usize,
    batch_size: usize,
    m_ceil: usize,
    n_ceil: usize,
) -> (result: T)
    requires
        comparison_fits(
            x@.len() as int,
            r@.len() as int,
            m as int,
            n as int,
            batch_size as int,
            m_ceil as int,
            n_ceil as int,
        ),
    ensures
        is_mean_squared_error(
            compared_pairs(
                x@,
                r@,
                m as int,
                n as int,
                batch_size as int,
                m_ceil as int,
                n_ceil as int,
            ),
            (m * n * batch_size) as usize,
            result,
        ),
{
    let x_len: usize = x.len();
    let r_len: usize = r.len();
    let ghost pairs = compared_pairs(
        x@,
        r@,
        m as int,
        n as int,
        batch_size as int,
        m_ceil as int,
        n_ceil as int,
    );
    let zero = T::decimal(0, 0);
    let mut sum = zero;
    let mut batch: usize = 0;
    proof {
        assert(pairs.take(0) =~= Seq::empty());
        assert(0 * m * n == 0) by (nonlinear_arith);
    }
    while batch < batch_size
        invariant
            batch <= batch_size,
            x_len == x@.len(),
            r_len == r@.len(),
            comparison_fits(
                x_len as int,
                r_len as int,
                m as int,
                n as int,
                batch_size as int,
                m_ceil as int,
                n_ceil as int,
            ),
            pairs == compared_pairs(
                x@,
                r@,
                m as int,
                n as int,
                batch_size as int,
                m_ceil as int,
                n_ceil as int,
            ),
            folds_to(squared_error_step::<T>(), zero, pairs.take(batch * m * n), sum),
        decreases batch_size - batch,
    {
        let mut j: usize = 0;
        while j < m
            invariant
                batch < batch_size,
                j <= m,
                x_len == x@.len(),
                r_len == r@.len(),
                comparison_fits(
                    x_len as int,
                    r_len as int,
                    m as int,
                    n as int,
                    batch_size as int,
                    m_ceil as int,
                    n_ceil as int,
                ),
                pairs == compared_pairs(
                    x@,
                    r@,
                    m as int,
                    n as int,
                    batch_size as int,
                    m_ceil as int,
                    n_ceil as int,
                ),
                folds_to(
                    squared_error_step::<T>(),
                    zero,
                    pairs.take(batch * m * n + j * n),
                    sum,
                ),
            decreases m - j,
        {
            let mut i: usize = 0;
            while i < n
                invariant
                    batch < batch_size,
                    j < m,
                    i <= n,
                    x_len == x@.len(),
                    r_len == r@.len(),
                    comparison_fits(
                        x_len as int,
                        r_len as int,
                        m as int,
                        n as int,
                        batch_size as int,
                        m_ceil as int,
                        n_ceil as int,
                    ),
                    pairs == compared_pairs(
                        x@,
                        r@,
                        m as int,
                        n as int,
                        batch_size as int,
                        m_ceil as int,
                        n_ceil as int,
                    ),
                    folds_to(
                        squared_error_step::<T>(),
                        zero,
                        pairs.take(at(batch as int, j as int, i as int, m as int, n as int)),
                        sum,
                    ),
                decreases n - i,
            {
                let ghost p = at(batch as int, j as int, i as int, m as int, n as int);
                proof {
                    lemma_at_bound(
                        batch as int,
                        j as int,
                        i as int,
                        batch_size as int,
                        m as int,
                        n as int,
                    );
                    lemma_at_split(batch as int, j as int, i as int, m as int, n as int);
                    lemma_swap_factors(batch as int, n as int, m as int);
                    lemma_start_bound(batch as int, batch_size as int, n as int, m as int);
                    lemma_at_monotonic(
                        batch as int,
                        j as int,
                        i as int,
                        batch_size - 1,
                        m - 1,
                        n - 1,
                        m_ceil as int,
                        n_ceil as int,
                    );
                    lemma_swap_factors(batch as int, n_ceil as int, m_ceil as int);
                    assert(batch * n <= batch * n * m) by (nonlinear_arith)
                        requires
                            0 <= batch,
                            0 <= n,
                            0 < m,
                    ;
                }
                let rv = T::from_half_bits(r[batch * n * m + j * n + i]);
                let xv = T::from_half_bits(x[batch * n_ceil * m_ceil + j * n_ceil + i]);
                let ghost before = sum;
                let left = rv.minus(xv);
                let right = rv.minus(xv);
                let square = left.times(right);
                sum = sum.plus(square);
                proof {
                    assert(pairs[p] == (r@[p], x@[at(
                        batch as int,
                        j as int,
                        i as int,
                        m_ceil as int,
                        n_ceil as int,
                    )]));
                    assert({
                        &&& call_ensures(T::from_half_bits, (pairs[p].0,), rv)
                        &&& call_ensures(T::from_half_bits, (pairs[p].1,), xv)
                        &&& call_ensures(T::minus, (rv, xv), left)
                        &&& call_ensures(T::minus, (rv, xv), right)
                        &&& call_ensures(T::times, (left, right), square)
                        &&& call_ensures(T::plus, (before, square), sum)
                    });
                    lemma_folds_to_push(
                        squared_error_step::<T>(),
                        zero,
                        pairs.take(p),
                        before,
                        pairs[p],
                        sum,
                    );
                    assert(pairs.take(p).push(pairs[p]) =~= pairs.take(p + 1));
                }
                i = i + 1;
            }
            proof {
                lemma_next_row(j as int, n as int);
            }
            j = j + 1;
        }
        proof {
            lemma_next_matrix(batch as int, m as int, n as int);
        }
        batch = batch + 1;
    }
    proof {
        assert(0 <= batch_size * m * n) by (nonlinear_arith);
        assert(pairs.take(batch_size * m * n) =~= pairs);
    }
    let number = T::from_usize(m * n * batch_size);
    sum.over(number)
}

} // verus!

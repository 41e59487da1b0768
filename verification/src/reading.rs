//! What the numbers of a [`Number`] type stand for.
//!
//! A [`Reading`] gives every known number a value, as an integer in fine steps. The
//! spec functions here say how close the operations come to those of arithmetic;
//! the laws on what the library computes ask for them. Single precision meets all of
//! them: its known numbers are the finite ones, its step is `2^-149`, of which every
//! finite number is a multiple, and it rounds to 24 bits, to half precision to 11.
use vstd::prelude::*;

use crate::number::{is_half_finite, Number};

verus! {

/// How the numbers of a type are read.
#[verifier::reject_recursive_types(T)]
pub struct Reading<T> {
    /// The value of a known number, in steps.
    pub value: spec_fn(T) -> int,
    /// Whether the number has a value.
    pub known: spec_fn(T) -> bool,
    /// How many steps make one.
    pub unit: int,
    /// Results up to this many steps are known.
    pub top: int,
    /// A result is off by at most one part in so many.
    pub precision: int,
    /// Numbers up to this many steps have a half.
    pub half_top: int,
    /// A half is off by at most one part in so many.
    pub half_precision: int,
    /// Or by at most so many steps.
    pub half_step: int,
}

/// The magnitude of an integer.
pub open spec fn size(x: int) -> int {
    if x < 0 {
        -x
    } else {
        x
    }
}

/// `got` is off from `exact` by one part in `precision` of it and by `extra`, at
/// most.
pub open spec fn is_near(precision: int, got: int, exact: int, extra: int) -> bool {
    precision * size(got - exact) <= size(exact) + precision * extra
}

/// The steps are fine and the range is wide.
pub open spec fn is_fine<T>(m: Reading<T>) -> bool {
    &&& m.precision >= 1_000_000
    &&& m.unit >= m.precision
    &&& m.half_precision >= 2000
    &&& m.half_step >= 0
    &&& m.half_top >= 1000 * m.unit
    &&& m.top >= 1000 * m.half_top
}

/// Small integers and one half are exact.
pub open spec fn reads_constants<T: Number>(m: Reading<T>) -> bool {
    &&& forall|n: i32, a: T| #[trigger]
        call_ensures(T::decimal, (n, 0i32), a) && -1000 <= n <= 1000 ==> (m.known)(a) && (m.value)(a)
            == n * m.unit
    &&& forall|a: T| #[trigger]
        call_ensures(T::decimal, (5i32, -1i32), a) ==> (m.known)(a) && 2 * (m.value)(a) == m.unit
    &&& forall|n: i32, a: T| #[trigger]
        call_ensures(T::from_i32, (n,), a) && -1000 <= n <= 1000 ==> (m.known)(a) && (m.value)(a)
            == n * m.unit
}

/// Comparisons, the smaller and the larger of two numbers and the opposite are
/// exact.
pub open spec fn reads_order<T: Number>(m: Reading<T>) -> bool {
    &&& forall|a: T, b: T, r: bool| #[trigger]
        call_ensures(T::exceeds, (a, b), r) && (m.known)(a) && (m.known)(b) ==> r == ((m.value)(a)
            > (m.value)(b))
    &&& forall|a: T, b: T, r: bool| #[trigger]
        call_ensures(T::below, (a, b), r) && (m.known)(a) && (m.known)(b) ==> r == ((m.value)(a)
            < (m.value)(b))
    &&& forall|a: T, b: T, x: T| #[trigger]
        call_ensures(T::lesser, (a, b), x) && (m.known)(a) && (m.known)(b) ==> {
            &&& (m.known)(x)
            &&& (m.value)(x) == if (m.value)(a) < (m.value)(b) {
                (m.value)(a)
            } else {
                (m.value)(b)
            }
        }
    &&& forall|a: T, b: T, x: T| #[trigger]
        call_ensures(T::greater, (a, b), x) && (m.known)(a) && (m.known)(b) ==> {
            &&& (m.known)(x)
            &&& (m.value)(x) == if (m.value)(a) > (m.value)(b) {
                (m.value)(a)
            } else {
                (m.value)(b)
            }
        }
    &&& forall|a: T, b: T, x: T| #[trigger]
        call_ensures(T::lesser, (a, b), x) && call_ensures(T::infinity, (), a) && (m.known)(b)
            ==> (m.known)(x) && (m.value)(x) == (m.value)(b)
    &&& forall|a: T, b: T, x: T| #[trigger]
        call_ensures(T::greater, (a, b), x) && call_ensures(T::neg_infinity, (), a) && (m.known)(b)
            ==> (m.known)(x) && (m.value)(x) == (m.value)(b)
    &&& forall|a: T, x: T| #[trigger]
        call_ensures(T::negated, (a,), x) && (m.known)(a) ==> (m.known)(x) && (m.value)(x) == -(
        m.value)(a)
}

/// Sums and differences are off by the precision.
pub open spec fn reads_sums<T: Number>(m: Reading<T>) -> bool {
    &&& forall|a: T, b: T, x: T| #[trigger]
        call_ensures(T::plus, (a, b), x) && (m.known)(a) && (m.known)(b) && size(
            (m.value)(a) + (m.value)(b),
        ) <= m.top ==> (m.known)(x) && is_near(
            m.precision,
            (m.value)(x),
            (m.value)(a) + (m.value)(b),
            0,
        )
    &&& forall|a: T, b: T, x: T| #[trigger]
        call_ensures(T::minus, (a, b), x) && (m.known)(a) && (m.known)(b) && size(
            (m.value)(a) - (m.value)(b),
        ) <= m.top ==> (m.known)(x) && is_near(
            m.precision,
            (m.value)(x),
            (m.value)(a) - (m.value)(b),
            0,
        )
}

/// Products are off by the precision or by a step.
pub open spec fn reads_products<T: Number>(m: Reading<T>) -> bool {
    forall|a: T, b: T, x: T| #[trigger]
        call_ensures(T::times, (a, b), x) && (m.known)(a) && (m.known)(b) && size(
            (m.value)(a) * (m.value)(b),
        ) <= m.top * m.unit ==> (m.known)(x) && is_near(
            m.precision,
            (m.value)(x) * m.unit,
            (m.value)(a) * (m.value)(b),
            m.unit,
        )
}

/// Quotients are off by the precision or by a step.
pub open spec fn reads_quotients<T: Number>(m: Reading<T>) -> bool {
    forall|a: T, b: T, x: T| #[trigger]
        call_ensures(T::over, (a, b), x) && (m.known)(a) && (m.known)(b) && (m.value)(b) > 0 && size(
            (m.value)(a),
        ) * m.unit <= m.top * (m.value)(b) ==> (m.known)(x) && is_near(
            m.precision,
            (m.value)(x) * (m.value)(b),
            (m.value)(a) * m.unit,
            (m.value)(b),
        )
}

/// An integer is cut off toward zero, and kept within its bounds.
pub open spec fn reads_integers<T: Number>(m: Reading<T>) -> bool {
    &&& forall|a: T, r: u8| #[trigger]
        call_ensures(T::to_u8, (a,), r) && (m.known)(a) && (m.value)(a) >= 0 ==> {
            ||| r * m.unit <= (m.value)(a) < (r + 1) * m.unit
            ||| r == 255 && (m.value)(a) >= 255 * m.unit
        }
    &&& forall|a: T, r: i32| #[trigger]
        call_ensures(T::to_i32, (a,), r) && (m.known)(a) && 0 <= (m.value)(a) < i32::MAX * m.unit
            ==> r * m.unit <= (m.value)(a) < (r + 1) * m.unit
    &&& forall|a: T, r: i32| #[trigger]
        call_ensures(T::to_i32, (a,), r) && (m.known)(a) && i32::MIN * m.unit < (m.value)(a) <= 0
            ==> (r - 1) * m.unit < (m.value)(a) <= r * m.unit
    &&& forall|n: u64, a: T| #[trigger]
        call_ensures(T::from_u64, (n,), a) && n * m.unit <= m.top ==> (m.known)(a) && is_near(
            m.precision,
            (m.value)(a),
            n * m.unit,
            0,
        )
    &&& forall|n: usize, a: T| #[trigger]
        call_ensures(T::from_usize, (n,), a) && n * m.unit <= m.top ==> (m.known)(a) && is_near(
            m.precision,
            (m.value)(a),
            n * m.unit,
            0,
        )
}

/// A half has one value, and that of a number is off by the precision of halves or
/// by a step of theirs. What is too large for a half has none that is finite.
pub open spec fn reads_halves<T: Number>(m: Reading<T>) -> bool {
    &&& forall|h: u16, a: T| #[trigger]
        call_ensures(T::from_half_bits, (h,), a) && is_half_finite(h) ==> (m.known)(a) && size(
            (m.value)(a),
        ) <= m.half_top
    &&& forall|h: u16, a: T, b: T| #[trigger]
        call_ensures(T::from_half_bits, (h,), a) && #[trigger] call_ensures(
            T::from_half_bits,
            (h,),
            b,
        ) && is_half_finite(h) ==> (m.value)(a) == (m.value)(b)
    &&& forall|a: T, h: u16, b: T| #[trigger]
        call_ensures(T::to_half_bits, (a,), h) && #[trigger] call_ensures(T::from_half_bits, (h,), b)
            && (m.known)(a) && size((m.value)(a)) <= m.half_top ==> {
            &&& is_half_finite(h)
            &&& is_near(m.half_precision, (m.value)(b), (m.value)(a), m.half_step)
        }
    &&& forall|a: T, h: u16| #[trigger]
        call_ensures(T::to_half_bits, (a,), h) && (m.known)(a) && size((m.value)(a)) >= 2
            * m.half_top ==> !is_half_finite(h)
}

/// Some number has the value.
pub open spec fn has_number<T>(m: Reading<T>, value: int) -> bool {
    exists|a: T| #[trigger] (m.known)(a) && (m.value)(a) == value
}

/// Sums, differences and quotients are exact where some number has their value.
pub open spec fn reads_exact<T: Number>(m: Reading<T>) -> bool {
    &&& forall|a: T, b: T, x: T| #[trigger]
        call_ensures(T::plus, (a, b), x) && (m.known)(a) && (m.known)(b) && has_number(
            m,
            (m.value)(a) + (m.value)(b),
        ) ==> (m.known)(x) && (m.value)(x) == (m.value)(a) + (m.value)(b)
    &&& forall|a: T, b: T, x: T| #[trigger]
        call_ensures(T::minus, (a, b), x) && (m.known)(a) && (m.known)(b) && has_number(
            m,
            (m.value)(a) - (m.value)(b),
        ) ==> (m.known)(x) && (m.value)(x) == (m.value)(a) - (m.value)(b)
    &&& forall|a: T, b: T, x: T, value: int| #[trigger]
        call_ensures(T::over, (a, b), x) && #[trigger] has_number(m, value) && (m.known)(a) && (
        m.known)(b) && (m.value)(b) > 0 && value * (m.value)(b) == (m.value)(a) * m.unit ==> (
        m.known)(x) && (m.value)(x) == value
}

/// A factor cancels.
pub proof fn lemma_near_cancel(precision: int, got: int, exact: int, extra: int, factor: int)
    requires
        factor > 0,
        is_near(precision, got * factor, exact * factor, extra * factor),
    ensures
        is_near(precision, got, exact, extra),
{
    assert(size(got * factor - exact * factor) == size(got - exact) * factor) by (nonlinear_arith)
        requires
            factor > 0,
    ;
    assert(size(exact * factor) == size(exact) * factor) by (nonlinear_arith)
        requires
            factor > 0,
    ;
    let left = precision * size(got - exact);
    let right = size(exact) + precision * extra;
    assert(precision * (size(got - exact) * factor) == left * factor) by (nonlinear_arith)
        requires
            left == precision * size(got - exact),
    ;
    assert(size(exact) * factor + precision * (extra * factor) == right * factor)
        by (nonlinear_arith)
        requires
            right == size(exact) + precision * extra,
    ;
    assert(left <= right) by (nonlinear_arith)
        requires
            left * factor <= right * factor,
            factor > 0,
    ;
}

} // verus!

//! The arithmetic that the library computes with.
//!
//! The numbers themselves are single-precision floats, which are no part of
//! this library: a caller brings them as a type that has [`Number`]. The trait
//! promises nothing of its operations. A contract says instead which operations
//! were carried out, on which arguments and in which order: `call_ensures` of
//! an operation holds of the arguments and the result of every call of it.
use vstd::prelude::*;

verus! {

/// Single-precision arithmetic, and half-precision storage as raw bits.
pub trait Number: Copy {
    /// The number nearest to `mantissa * 10^exponent`.
    fn decimal(mantissa: i32, exponent: i32) -> Self;

    /// Positive infinity.
    fn infinity() -> Self;

    /// Negative infinity.
    fn neg_infinity() -> Self;

    /// The greatest finite number.
    fn greatest() -> Self;

    /// The number nearest to `value`.
    fn from_i32(value: i32) -> Self;

    /// The number nearest to `value`.
    fn from_u64(value: u64) -> Self;

    /// The number nearest to `value`.
    fn from_usize(value: usize) -> Self;

    /// The number that the half-precision bits stand for.
    fn from_half_bits(bits: u16) -> Self;

    /// The bits of the nearest half-precision number.
    fn to_half_bits(self) -> u16;

    /// The number rounded toward zero, cut off at the ends of `u8`.
    fn to_u8(self) -> u8;

    /// The number rounded toward zero, cut off at the ends of `i32`.
    fn to_i32(self) -> i32;

    /// The number that `text` writes in decimal, if it writes one.
    fn parse(text: &str) -> Option<Self>;

    /// The sum of the two numbers.
    fn plus(self, other: Self) -> Self;

    /// The difference of the two numbers.
    fn minus(self, other: Self) -> Self;

    /// The product of the two numbers.
    fn times(self, other: Self) -> Self;

    /// The quotient of the two numbers.
    fn over(self, other: Self) -> Self;

    /// The number with its sign changed.
    fn negated(self) -> Self;

    /// The smaller of the two numbers.
    fn lesser(self, other: Self) -> Self;

    /// The larger of the two numbers.
    fn greater(self, other: Self) -> Self;

    /// Whether the number is larger than `other`.
    fn exceeds(self, other: Self) -> bool;

    /// Whether the number is smaller than `other`.
    fn below(self, other: Self) -> bool;
}

/// Both are one number, or both are unknown. In single precision, what is unknown
/// is what is not a number: nothing says which bits it has.
pub open spec fn agree<T>(unknown: spec_fn(T) -> bool, a: T, b: T) -> bool {
    a == b || (unknown(a) && unknown(b))
}

/// The bits of a half-precision infinity.
pub const HALF_INFINITY: u16 = 0x7c00;

/// The sign bit of a half-precision number.
pub const HALF_SIGN: u16 = 0x8000;

/// The bits are those of a finite half-precision number.
pub open spec fn is_half_finite(bits: u16) -> bool {
    bits % HALF_SIGN < HALF_INFINITY
}

/// The bits are those of what is not a half-precision number.
pub open spec fn is_half_unknown(bits: u16) -> bool {
    bits % HALF_SIGN > HALF_INFINITY
}

/// The bits are those of a half-precision zero of either sign.
pub open spec fn is_half_zero(bits: u16) -> bool {
    bits % HALF_SIGN == 0
}

/// The bits are those of a half-precision number below zero.
pub open spec fn is_half_negative(bits: u16) -> bool {
    HALF_SIGN < bits <= HALF_SIGN + HALF_INFINITY
}

/// Both halves have the same bits, or neither is a number.
pub open spec fn halves_agree(x: u16, y: u16) -> bool {
    x == y || (is_half_unknown(x) && is_half_unknown(y))
}

/// `result` comes from `init` by one `step` for each of the `items`, in order.
///
/// A step relates the value before it, the item and the value after it.
pub open spec fn folds_to<A, E>(
    step: spec_fn(A, E, A) -> bool,
    init: A,
    items: Seq<E>,
    result: A,
) -> bool
    decreases items.len(),
{
    if items.len() == 0 {
        result == init
    } else {
        exists|before: A|
            folds_to(step, init, items.drop_last(), before) && #[trigger] step(
                before,
                items.last(),
                result,
            )
    }
}

/// The step that takes the smaller of two numbers.
pub open spec fn lesser_step<T: Number>() -> spec_fn(T, T, T) -> bool {
    |before: T, item: T, after: T| call_ensures(T::lesser, (before, item), after)
}

/// The step that takes the larger of two numbers.
pub open spec fn greater_step<T: Number>() -> spec_fn(T, T, T) -> bool {
    |before: T, item: T, after: T| call_ensures(T::greater, (before, item), after)
}

/// The step that adds a number.
pub open spec fn sum_step<T: Number>() -> spec_fn(T, T, T) -> bool {
    |before: T, item: T, after: T| call_ensures(T::plus, (before, item), after)
}

/// A fold over no items stays where it starts.
pub proof fn lemma_folds_to_empty<A, E>(step: spec_fn(A, E, A) -> bool, init: A, items: Seq<E>)
    requires
        items.len() == 0,
    ensures
        folds_to(step, init, items, init),
{
}

/// A fold goes on with one more item.
pub proof fn lemma_folds_to_push<A, E>(
    step: spec_fn(A, E, A) -> bool,
    init: A,
    items: Seq<E>,
    before: A,
    item: E,
    after: A,
)
    requires
        folds_to(step, init, items, before),
        step(before, item, after),
    ensures
        folds_to(step, init, items.push(item), after),
{
    let longer = items.push(item);
    assert(longer.drop_last() =~= items);
    assert(longer.last() == item);
    assert(folds_to(step, init, longer.drop_last(), before) && step(before, longer.last(), after));
}

/// Two folds end in related values where they start in such, and each pair of
/// steps leads from related values to related ones.
pub proof fn lemma_folds_stay_related<A, E>(
    step: spec_fn(A, E, A) -> bool,
    related: spec_fn(A, A) -> bool,
    paired: spec_fn(E, E) -> bool,
    init1: A,
    init2: A,
    items1: Seq<E>,
    items2: Seq<E>,
    x: A,
    y: A,
)
    requires
        related(init1, init2),
        items1.len() == items2.len(),
        forall|i: int| 0 <= i < items1.len() ==> paired(#[trigger] items1[i], items2[i]),
        forall|a: A, b: A, e: E, f: E, p: A, q: A| #[trigger]
            step(a, e, p) && #[trigger] step(b, f, q) && related(a, b) && paired(e, f) ==> related(
                p,
                q,
            ),
        folds_to(step, init1, items1, x),
        folds_to(step, init2, items2, y),
    ensures
        related(x, y),
    decreases items1.len(),
{
    if items1.len() > 0 {
        let front1 = items1.drop_last();
        let front2 = items2.drop_last();
        let before1 = choose|before: A|
            folds_to(step, init1, front1, before) && #[trigger] step(before, items1.last(), x);
        let before2 = choose|before: A|
            folds_to(step, init2, front2, before) && #[trigger] step(before, items2.last(), y);
        assert forall|i: int| 0 <= i < front1.len() implies paired(
            #[trigger] front1[i],
            front2[i],
        ) by {
            assert(front1[i] == items1[i]);
        }
        lemma_folds_stay_related(
            step,
            related,
            paired,
            init1,
            init2,
            front1,
            front2,
            before1,
            before2,
        );
        assert(paired(items1[items1.len() - 1], items2.last()));
    }
}

/// The least of `items` and `init`, taken from the left.
pub(crate) fn fold_lesser<T: Number>(init: T, items: &[T]) -> (result: T)
    ensures
        folds_to(lesser_step::<T>(), init, items@, result),
{
    let mut result = init;
    let mut k: usize = 0;
    proof {
        lemma_folds_to_empty(lesser_step::<T>(), init, items@.take(0));
    }
    while k < items.len()
        invariant
            k <= items@.len(),
            folds_to(lesser_step::<T>(), init, items@.take(k as int), result),
        decreases items@.len() - k,
    {
        let ghost before = result;
        result = result.lesser(items[k]);
        proof {
            lemma_folds_to_push(
                lesser_step::<T>(),
                init,
                items@.take(k as int),
                before,
                items@[k as int],
                result,
            );
            assert(items@.take(k as int).push(items@[k as int]) =~= items@.take(k + 1));
        }
        k = k + 1;
    }
    assert(items@.take(k as int) =~= items@);
    result
}

/// The greatest of `items` and `init`, taken from the left.
pub(crate) fn fold_greater<T: Number>(init: T, items: &[T]) -> (result: T)
    ensures
        folds_to(greater_step::<T>(), init, items@, result),
{
    let mut result = init;
    let mut k: usize = 0;
    proof {
        lemma_folds_to_empty(greater_step::<T>(), init, items@.take(0));
    }
    while k < items.len()
        invariant
            k <= items@.len(),
            folds_to(greater_step::<T>(), init, items@.take(k as int), result),
        decreases items@.len() - k,
    {
        let ghost before = result;
        result = result.greater(items[k]);
        proof {
            lemma_folds_to_push(
                greater_step::<T>(),
                init,
                items@.take(k as int),
                before,
                items@[k as int],
                result,
            );
            assert(items@.take(k as int).push(items@[k as int]) =~= items@.take(k + 1));
        }
        k = k + 1;
    }
    assert(items@.take(k as int) =~= items@);
    result
}

} // verus!

//! The arithmetic that tensor elements support.
//!
//! Tensors, layers and models are written over any type that implements
//! [`Scalar`].  The trait carries no contract: nothing is assumed about what an
//! operation returns, not even that it returns the same value twice.  Contracts
//! relate values by the relations below, each of which says that one value is a
//! result that the operation gave (or could give) for the others.  What is proved
//! therefore is which operations are applied to which elements, and in which
//! order.

use vstd::prelude::*;

verus! {

/// Element arithmetic, with the meaning of the operations of IEEE single precision.
pub trait Scalar: Copy {
    /// `self + other`.
    fn plus(self, other: Self) -> Self;

    /// `self - other`.
    fn minus(self, other: Self) -> Self;

    /// `self * other`.
    fn times(self, other: Self) -> Self;

    /// `self / other`.
    fn over(self, other: Self) -> Self;

    /// The larger of the two; the other one where one is not a number.
    fn larger(self, other: Self) -> Self;

    /// `self` raised to an integer power.
    fn power(self, exponent: i32) -> Self;

    /// The square root.
    fn root(self) -> Self;

    /// `1 / self`.
    fn reciprocal(self) -> Self;

    /// The exponential function.
    fn exponential(self) -> Self;

    /// The natural logarithm.
    fn logarithm(self) -> Self;

    /// The hyperbolic tangent.
    fn hyperbolic_tangent(self) -> Self;

    /// The sine.
    fn sine(self) -> Self;

    /// The cosine.
    fn cosine(self) -> Self;

    /// `self` raised to any power.
    fn raised_to(self, exponent: Self) -> Self;

    /// `-self`.
    fn opposite(self) -> Self;

    /// The fractional part.
    fn fraction(self) -> Self;

    /// `self < other`.
    fn below(self, other: Self) -> bool;

    /// `self == other`.
    fn same(self, other: Self) -> bool;

    /// Neither infinite nor not-a-number.
    fn finite(self) -> bool;

    /// The element nearest to a count.
    fn of_count(count: usize) -> Self;

    /// The element with a given single-precision bit pattern.
    fn of_bits(bits: u32) -> Self;

    /// The single-precision bit pattern.
    fn bits(self) -> u32;

    /// Negative infinity.
    fn lowest() -> Self;

    /// The element cast to a count: truncated, and clamped to the range of counts.
    fn count(self) -> usize;

    /// A key by which elements are totally ordered.
    fn rank(self) -> i32;

    /// The element as it is printed.
    fn shown(self) -> String;
}

/// `r` is a result of `a + b`.
pub open spec fn sum<T: Scalar>(a: T, b: T, r: T) -> bool {
    call_ensures(T::plus, (a, b), r)
}

/// `r` is a result of `a - b`.
pub open spec fn difference<T: Scalar>(a: T, b: T, r: T) -> bool {
    call_ensures(T::minus, (a, b), r)
}

/// `r` is a result of `a * b`.
pub open spec fn product<T: Scalar>(a: T, b: T, r: T) -> bool {
    call_ensures(T::times, (a, b), r)
}

/// `r` is a result of `a / b`.
pub open spec fn quotient<T: Scalar>(a: T, b: T, r: T) -> bool {
    call_ensures(T::over, (a, b), r)
}

/// `r` is a result of taking the larger of `a` and `b`.
pub open spec fn maximum<T: Scalar>(a: T, b: T, r: T) -> bool {
    call_ensures(T::larger, (a, b), r)
}

/// `r` is a result of `a` raised to `exponent`.
pub open spec fn raised<T: Scalar>(a: T, exponent: i32, r: T) -> bool {
    call_ensures(T::power, (a, exponent), r)
}

/// `r` is a result of the square root of `a`.
pub open spec fn rooted<T: Scalar>(a: T, r: T) -> bool {
    call_ensures(T::root, (a,), r)
}

/// `r` is a result of `1 / a`.
pub open spec fn inverted<T: Scalar>(a: T, r: T) -> bool {
    call_ensures(T::reciprocal, (a,), r)
}

/// `r` is a result of the exponential of `a`.
pub open spec fn exponentiated<T: Scalar>(a: T, r: T) -> bool {
    call_ensures(T::exponential, (a,), r)
}

/// `r` is a result of the natural logarithm of `a`.
pub open spec fn logged<T: Scalar>(a: T, r: T) -> bool {
    call_ensures(T::logarithm, (a,), r)
}

/// `r` is a result of the hyperbolic tangent of `a`.
pub open spec fn squashed<T: Scalar>(a: T, r: T) -> bool {
    call_ensures(T::hyperbolic_tangent, (a,), r)
}

/// `r` is a result of the sine of `a`.
pub open spec fn sined<T: Scalar>(a: T, r: T) -> bool {
    call_ensures(T::sine, (a,), r)
}

/// `r` is a result of the cosine of `a`.
pub open spec fn cosined<T: Scalar>(a: T, r: T) -> bool {
    call_ensures(T::cosine, (a,), r)
}

/// `r` is a result of `a` raised to the power of `b`.
pub open spec fn powered<T: Scalar>(a: T, b: T, r: T) -> bool {
    call_ensures(T::raised_to, (a, b), r)
}

/// `r` is a result of `-a`.
pub open spec fn negated<T: Scalar>(a: T, r: T) -> bool {
    call_ensures(T::opposite, (a,), r)
}

/// `r` is the bit pattern given for `a`.
pub open spec fn encoded<T: Scalar>(a: T, r: u32) -> bool {
    call_ensures(T::bits, (a,), r)
}

/// `r` is a result of the fractional part of `a`.
pub open spec fn fractional<T: Scalar>(a: T, r: T) -> bool {
    call_ensures(T::fraction, (a,), r)
}

/// `r` is an answer to `a < b`.
pub open spec fn less<T: Scalar>(a: T, b: T, r: bool) -> bool {
    call_ensures(T::below, (a, b), r)
}

/// `r` is an answer to `a == b`.
pub open spec fn equals<T: Scalar>(a: T, b: T, r: bool) -> bool {
    call_ensures(T::same, (a, b), r)
}

/// `r` is an answer to whether `a` is finite.
pub open spec fn is_finite<T: Scalar>(a: T, r: bool) -> bool {
    call_ensures(T::finite, (a,), r)
}

/// `r` is the element given for the count `n`.
pub open spec fn counted<T: Scalar>(n: usize, r: T) -> bool {
    call_ensures(T::of_count, (n,), r)
}

/// `r` is the element given for a bit pattern.
pub open spec fn decoded<T: Scalar>(bits: u32, r: T) -> bool {
    call_ensures(T::of_bits, (bits,), r)
}

/// `r` is the element given for negative infinity.
pub open spec fn bottom<T: Scalar>(r: T) -> bool {
    call_ensures(T::lowest, (), r)
}

/// `r` is the count given for `a`.
pub open spec fn truncated<T: Scalar>(a: T, r: usize) -> bool {
    call_ensures(T::count, (a,), r)
}

/// `r` is the order key given for `a`.
pub open spec fn ranked<T: Scalar>(a: T, r: i32) -> bool {
    call_ensures(T::rank, (a,), r)
}

/// `r` is the text given for `a`.
pub open spec fn displayed<T: Scalar>(a: T, r: Seq<char>) -> bool {
    exists|text: String| #[trigger] call_ensures(T::shown, (a,), text) && text@ == r
}

/// `r` is the element given for zero.
pub open spec fn zero<T: Scalar>(r: T) -> bool {
    counted(0, r)
}

/// `r` is the element given for one.
pub open spec fn one<T: Scalar>(r: T) -> bool {
    counted(1, r)
}

/// `r` is the element given for the fraction `n / d`.
pub open spec fn ratio<T: Scalar>(n: usize, d: usize, r: T) -> bool {
    exists|a: T, b: T| counted(n, a) && counted(d, b) && #[trigger] quotient(a, b, r)
}

/// Every element was given for zero.
pub open spec fn all_zero<T: Scalar>(values: Seq<T>) -> bool {
    forall|i: int| 0 <= i < values.len() ==> zero(#[trigger] values[i])
}

/// The element nearest to the fraction `n / d`.
pub fn ratio_of<T: Scalar>(n: usize, d: usize) -> (r: T)
    ensures
        ratio(n, d, r),
{
    let a = T::of_count(n);
    let b = T::of_count(d);
    let r = a.over(b);
    assert(counted(n, a) && counted(d, b) && quotient(a, b, r));
    r
}

/// A copy of a vector of elements.
pub fn copied<T: Copy>(values: &Vec<T>) -> (r: Vec<T>)
    ensures
        r@ == values@,
{
    let mut r: Vec<T> = Vec::with_capacity(values.len());
    let mut i: usize = 0;
    while i < values.len()
        invariant
            i <= values.len(),
            r@ == values@.take(i as int),
        decreases values.len() - i,
    {
        r.push(values[i]);
        proof {
            assert(values@.take(i + 1) =~= values@.take(i as int).push(values@[i as int]));
        }
        i = i + 1;
    }
    assert(values@.take(i as int) =~= values@);
    r
}

/// Appends elements.
pub fn extend<T: Copy>(values: &mut Vec<T>, more: &Vec<T>)
    ensures
        final(values)@ == old(values)@ + more@,
        final(values).len() == old(values)@.len() + more@.len(),
{
    let ghost start = values@;
    let mut i: usize = 0;
    assert(values@ =~= start + more@.take(0));
    while i < more.len()
        invariant
            i <= more.len(),
            values@ == start + more@.take(i as int),
        decreases more.len() - i,
    {
        values.push(more[i]);
        assert(more@.take(i + 1) =~= more@.take(i as int).push(more@[i as int]));
        i = i + 1;
        assert(values@ =~= start + more@.take(i as int));
    }
    assert(more@.take(i as int) =~= more@);
}

/// `len` copies of one element.
pub fn filled<T: Copy>(value: T, len: usize) -> (r: Vec<T>)
    ensures
        r@ == Seq::new(len as nat, |i: int| value),
{
    let mut r: Vec<T> = Vec::with_capacity(len);
    let mut i: usize = 0;
    while i < len
        invariant
            i <= len,
            r@ == Seq::new(i as nat, |j: int| value),
        decreases len - i,
    {
        r.push(value);
        i = i + 1;
        assert(r@ =~= Seq::new(i as nat, |j: int| value));
    }
    r
}

/// `total` is what adding the products of the pairs in order, starting from
/// `start`, gives.
pub open spec fn dotted<T: Scalar>(start: T, pairs: Seq<(T, T)>, total: T) -> bool
    decreases pairs.len(),
{
    if pairs.len() == 0 {
        total == start
    } else {
        exists|before: T, part: T|
            {
                &&& dotted(start, pairs.drop_last(), before)
                &&& product(pairs.last().0, pairs.last().1, part)
                &&& #[trigger] sum(before, part, total)
            }
    }
}

/// `total` is what adding the terms in order, starting from `start`, gives.
pub open spec fn added<T: Scalar>(start: T, terms: Seq<T>, total: T) -> bool
    decreases terms.len(),
{
    if terms.len() == 0 {
        total == start
    } else {
        exists|before: T|
            added(start, terms.drop_last(), before) && #[trigger] sum(before, terms.last(), total)
    }
}

/// `result` is what taking the larger value over the terms in order, starting from
/// `start`, gives.
pub open spec fn highest<T: Scalar>(start: T, terms: Seq<T>, result: T) -> bool
    decreases terms.len(),
{
    if terms.len() == 0 {
        result == start
    } else {
        exists|before: T|
            highest(start, terms.drop_last(), before) && #[trigger] maximum(
                before,
                terms.last(),
                result,
            )
    }
}

pub proof fn lemma_dotted_push<T: Scalar>(
    start: T,
    pairs: Seq<(T, T)>,
    before: T,
    a: T,
    b: T,
    part: T,
    total: T,
)
    requires
        dotted(start, pairs, before),
        product(a, b, part),
        sum(before, part, total),
    ensures
        dotted(start, pairs.push((a, b)), total),
{
    assert(pairs.push((a, b)).drop_last() =~= pairs);
}

pub proof fn lemma_added_push<T: Scalar>(start: T, terms: Seq<T>, before: T, term: T, total: T)
    requires
        added(start, terms, before),
        sum(before, term, total),
    ensures
        added(start, terms.push(term), total),
{
    assert(terms.push(term).drop_last() =~= terms);
    assert(sum(before, terms.push(term).last(), total));
}

pub proof fn lemma_highest_push<T: Scalar>(start: T, terms: Seq<T>, before: T, term: T, result: T)
    requires
        highest(start, terms, before),
        maximum(before, term, result),
    ensures
        highest(start, terms.push(term), result),
{
    assert(terms.push(term).drop_last() =~= terms);
    assert(maximum(before, terms.push(term).last(), result));
}

} // verus!

//! What the operations compute where elements are read as real numbers.
//!
//! A [`Reading`] gives every element a real number.  It is exact where every operation on
//! elements gives what it gives on the numbers.  The laws of the modules below are stated
//! of exact readings, over the relations that the contracts of the library promise.  They
//! say what is computed in terms of the numbers alone.

pub mod attention;
pub mod attentive;
pub mod channels;
pub mod ends;
pub mod feed_forward;
pub mod gradients;
pub mod inputs;
pub mod language;
pub mod loss;
pub mod norm_gradients;
pub mod normalization;
pub mod operations;
pub mod optimizer;
pub mod packing;
pub mod per_layer;
pub mod prompts;
pub mod sampling;
pub mod scales;
pub mod sight;
pub mod sums;
pub mod training;

use crate::exact::sums::{lemma_sigma_equal, sigma};
use crate::forward::{averaged, dot_product, summed};
use crate::scalar::{
    added, bottom, cosined, counted, decoded, difference, dotted, equals, exponentiated,
    fractional, inverted, less, logged, maximum, negated, powered, product, quotient, raised,
    ranked, ratio, rooted, sined, squashed, sum, truncated, Scalar,
};
use vstd::prelude::*;

verus! {

/// The numbers that elements stand for, and the functions behind the operations.
#[verifier::reject_recursive_types(T)]
pub struct Reading<T> {
    /// The number of an element.
    pub number: spec_fn(T) -> real,
    /// The number of a bit pattern.
    pub pattern: spec_fn(u32) -> real,
    pub exp: spec_fn(real) -> real,
    pub sin: spec_fn(real) -> real,
    pub cos: spec_fn(real) -> real,
}

/// The larger of two numbers.
pub open spec fn larger(a: real, b: real) -> real {
    if a < b {
        b
    } else {
        a
    }
}

/// A count as a number.
pub open spec fn natural(n: nat) -> real {
    n as real
}

/// A number raised to a power.
pub open spec fn power(x: real, n: nat) -> real
    decreases n,
{
    if n == 0 {
        1 as real
    } else {
        power(x, (n - 1) as nat) * x
    }
}

impl<T> Reading<T> {
    /// The number of an element.
    pub open spec fn of(self, a: T) -> real {
        (self.number)(a)
    }

    /// The numbers of elements.
    pub open spec fn all(self, values: Seq<T>) -> Seq<real> {
        Seq::new(values.len(), |i: int| self.of(values[i]))
    }

    /// The exponential of a number.
    pub open spec fn e(self, x: real) -> real {
        (self.exp)(x)
    }

    /// The sine of a number.
    pub open spec fn sine(self, x: real) -> real {
        (self.sin)(x)
    }

    /// The cosine of a number.
    pub open spec fn cosine(self, x: real) -> real {
        (self.cos)(x)
    }

    /// The exponential turns sums into products, is positive, and grows.
    #[verifier::opaque]
    pub open spec fn grows(self) -> bool {
        &&& self.e(0 as real) == 1 as real
        &&& forall|x: real, y: real| #![trigger self.e(x), self.e(y)] self.e(x + y) == self.e(x)
            * self.e(y)
        &&& forall|x: real| #[trigger] self.e(x) > 0 as real
        &&& forall|x: real, y: real| x < y ==> #[trigger] self.e(x) < #[trigger] self.e(y)
    }

    /// The sine and the cosine of differences are those of turned points.
    #[verifier::opaque]
    pub open spec fn turns(self) -> bool {
        &&& self.cosine(0 as real) == 1 as real
        &&& self.sine(0 as real) == 0 as real
        &&& forall|x: real, y: real|
            #![trigger self.cosine(x), self.cosine(y)]
            self.cosine(x - y) == self.cosine(x) * self.cosine(y) + self.sine(x) * self.sine(y)
        &&& forall|x: real, y: real|
            #![trigger self.sine(x), self.sine(y)]
            self.sine(x - y) == self.sine(x) * self.cosine(y) - self.cosine(x) * self.sine(y)
    }

    pub proof fn lemma_e(self, x: real, y: real)
        requires
            self.grows(),
        ensures
            self.e(x + y) == self.e(x) * self.e(y),
            self.e(x) > 0 as real,
            self.e(y) > 0 as real,
            self.e(0 as real) == 1 as real,
            x < y <==> self.e(x) < self.e(y),
            x == y <==> self.e(x) == self.e(y),
    {
        reveal(Reading::grows);
    }

    pub proof fn lemma_e_less(self, x: real, y: real)
        requires
            self.grows(),
        ensures
            self.e(x - y) * self.e(y) == self.e(x),
            self.e(x - y) > 0 as real,
            self.e(y) > 0 as real,
    {
        self.lemma_e(x - y, y);
        assert(x - y + y == x);
    }

    pub proof fn lemma_turn(self, x: real, y: real)
        requires
            self.turns(),
        ensures
            self.cosine(x - y) == self.cosine(x) * self.cosine(y) + self.sine(x) * self.sine(y),
            self.sine(x - y) == self.sine(x) * self.cosine(y) - self.cosine(x) * self.sine(y),
            self.cosine(x) * self.cosine(x) + self.sine(x) * self.sine(x) == 1 as real,
    {
        reveal(Reading::turns);
        assert(self.cosine(x - x) == self.cosine(x) * self.cosine(x) + self.sine(x) * self.sine(x));
        assert(x - x == 0 as real);
    }
}

impl<T: Scalar> Reading<T> {
    /// The four operations, counts and signs are those of the numbers.
    pub open spec fn calculates(self) -> bool {
        &&& forall|a: T, b: T, r: T| #[trigger] sum(a, b, r) ==> self.of(r) == self.of(a) + self.of(b)
        &&& forall|a: T, b: T, r: T|
            #[trigger] difference(a, b, r) ==> self.of(r) == self.of(a) - self.of(b)
        &&& forall|a: T, b: T, r: T|
            #[trigger] product(a, b, r) ==> self.of(r) == self.of(a) * self.of(b)
        &&& forall|a: T, b: T, r: T|
            #[trigger] quotient(a, b, r) && self.of(b) != 0 as real ==> self.of(r) * self.of(b)
                == self.of(a)
        &&& forall|a: T, r: T|
            #[trigger] inverted(a, r) && self.of(a) != 0 as real ==> self.of(r) * self.of(a)
                == 1 as real
        &&& forall|a: T, r: T| #[trigger] negated(a, r) ==> self.of(r) == -self.of(a)
        &&& forall|n: usize, r: T| #[trigger] counted(n, r) ==> self.of(r) == n as real
        &&& forall|bits: u32, r: T| #[trigger] decoded(bits, r) ==> self.of(r) == (self.pattern)(bits)
    }

    /// Powers and roots are those of the numbers.
    pub open spec fn extracts(self) -> bool {
        &&& forall|a: T, n: i32, r: T|
            #[trigger] raised(a, n, r) && n >= 0 ==> self.of(r) == power(self.of(a), n as nat)
        &&& forall|a: T, n: i32, r: T|
            #[trigger] raised(a, n, r) && n < 0 && self.of(a) != 0 as real ==> self.of(r) * power(
                self.of(a),
                (-n) as nat,
            ) == 1 as real
        &&& forall|a: T, r: T|
            #[trigger] rooted(a, r) && self.of(a) >= 0 as real ==> self.of(r) >= 0 as real && self.of(
                r,
            ) * self.of(r) == self.of(a)
    }

    /// The exponential and what comes of it.
    pub open spec fn exponentiates(self) -> bool {
        &&& self.grows()
        &&& forall|a: T, r: T| #[trigger] exponentiated(a, r) ==> self.of(r) == self.e(self.of(a))
        &&& forall|a: T, r: T|
            #[trigger] logged(a, r) && self.of(a) > 0 as real ==> self.e(self.of(r)) == self.of(a)
        &&& forall|a: T, r: T| #[trigger] squashed(a, r) ==> self.of(r) == self.tangent(self.of(a))
        &&& forall|a: T, b: T, r: T|
            #[trigger] powered(a, b, r) && self.of(a) > 0 as real ==> exists|log: real|
                #[trigger] self.e(log) == self.of(a) && self.of(r) == self.e(self.of(b) * log)
    }

    /// The hyperbolic tangent of a number.
    pub open spec fn tangent(self, x: real) -> real {
        (self.e(x + x) - 1 as real) / (self.e(x + x) + 1 as real)
    }

    /// The sine and the cosine.
    pub open spec fn rotates(self) -> bool {
        &&& self.turns()
        &&& forall|a: T, r: T| #[trigger] sined(a, r) ==> self.of(r) == self.sine(self.of(a))
        &&& forall|a: T, r: T| #[trigger] cosined(a, r) ==> self.of(r) == self.cosine(self.of(a))
    }

    /// Comparisons are those of the numbers.  Negative infinity is no number; the larger of
    /// it and another element is the other.
    pub open spec fn compares(self) -> bool {
        &&& forall|a: T, b: T, r: bool| #[trigger] less(a, b, r) ==> r == (self.of(a) < self.of(b))
        &&& forall|a: T, b: T, r: bool|
            #[trigger] equals(a, b, r) ==> r == (self.of(a) == self.of(b))
        &&& forall|a: T, b: T, r: T| #[trigger] maximum(a, b, r) ==> if bottom(a) {
            r == b
        } else if bottom(b) {
            r == a
        } else {
            self.of(r) == larger(self.of(a), self.of(b))
        }
        &&& forall|a: T, b: T, i: i32, j: i32|
            #[trigger] ranked(a, i) && #[trigger] ranked(b, j) ==> (i < j <==> self.of(a) < self.of(
                b,
            ))
    }

    /// Fractional parts are cut off, and counts are those of the numbers as far as there are
    /// counts.
    pub open spec fn counts(self) -> bool {
        &&& forall|a: T, r: T|
            #[trigger] fractional(a, r) && self.of(a) >= 0 as real ==> exists|whole: nat|
                self.of(a) == #[trigger] natural(whole) + self.of(r) && 0 as real <= self.of(r)
                    < 1 as real
        &&& forall|a: T, n: usize|
            #[trigger] truncated(a, n) && self.of(a) >= 0 as real ==> if self.of(a)
                < usize::MAX as real {
                n as real <= self.of(a) < n as real + 1 as real
            } else {
                n == usize::MAX
            }
    }

    /// Every operation is that of the numbers.
    pub open spec fn exact(self) -> bool {
        &&& self.calculates()
        &&& self.extracts()
        &&& self.exponentiates()
        &&& self.rotates()
        &&& self.compares()
        &&& self.counts()
    }

    /// Elements added up in order are their sum.
    pub proof fn lemma_added(self, start: T, terms: Seq<T>, r: T)
        requires
            self.calculates(),
            added(start, terms, r),
        ensures
            self.of(r) == self.of(start) + sigma(terms.len(), |i: int| self.of(terms[i])),
        decreases terms.len(),
    {
        if terms.len() > 0 {
            let rest = terms.drop_last();
            let before = choose|before: T|
                added(start, terms.drop_last(), before) && #[trigger] sum(before, terms.last(), r);
            self.lemma_added(start, rest, before);
            lemma_sigma_equal(rest.len(), |i: int| self.of(rest[i]), |i: int| self.of(terms[i]));
        }
    }

    pub proof fn lemma_summed(self, terms: Seq<T>, r: T)
        requires
            self.calculates(),
            summed(terms, r),
        ensures
            self.of(r) == sigma(terms.len(), |i: int| self.of(terms[i])),
    {
        let z = choose|z: T| crate::scalar::zero(z) && #[trigger] added(z, terms, r);
        self.lemma_added(z, terms, r);
    }

    pub proof fn lemma_averaged(self, terms: Seq<T>, count: usize, r: T)
        requires
            self.calculates(),
            averaged(terms, count, r),
            count > 0,
        ensures
            self.of(r) * count as real == sigma(terms.len(), |i: int| self.of(terms[i])),
    {
        let (z, total, divisor) = choose|z: T, total: T, divisor: T|
            {
                &&& crate::scalar::zero(z)
                &&& #[trigger] added(z, terms, total)
                &&& counted(count, divisor)
                &&& #[trigger] quotient(total, divisor, r)
            };
        self.lemma_added(z, terms, total);
    }

    /// Products added up in order are their sum.
    pub proof fn lemma_dotted(self, start: T, pairs: Seq<(T, T)>, r: T)
        requires
            self.calculates(),
            dotted(start, pairs, r),
        ensures
            self.of(r) == self.of(start) + sigma(
                pairs.len(),
                |i: int| self.of(pairs[i].0) * self.of(pairs[i].1),
            ),
        decreases pairs.len(),
    {
        if pairs.len() > 0 {
            let rest = pairs.drop_last();
            let (before, part) = choose|before: T, part: T|
                {
                    &&& dotted(start, pairs.drop_last(), before)
                    &&& product(pairs.last().0, pairs.last().1, part)
                    &&& #[trigger] sum(before, part, r)
                };
            self.lemma_dotted(start, rest, before);
            lemma_sigma_equal(
                rest.len(),
                |i: int| self.of(rest[i].0) * self.of(rest[i].1),
                |i: int| self.of(pairs[i].0) * self.of(pairs[i].1),
            );
        }
    }

    pub proof fn lemma_dot_product(self, pairs: Seq<(T, T)>, r: T)
        requires
            self.calculates(),
            dot_product(pairs, r),
        ensures
            self.of(r) == sigma(pairs.len(), |i: int| self.of(pairs[i].0) * self.of(pairs[i].1)),
    {
        let z = choose|z: T| crate::scalar::zero(z) && #[trigger] dotted(z, pairs, r);
        self.lemma_dotted(z, pairs, r);
    }

    pub proof fn lemma_ratio(self, n: usize, d: usize, r: T)
        requires
            self.calculates(),
            ratio(n, d, r),
            d > 0,
        ensures
            self.of(r) * d as real == n as real,
    {
    }
}

} // verus!

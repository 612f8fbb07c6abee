//! What each thread of a cross-entropy, and of its gradient, computes.

use crate::cuda::norm_kernels::divided;
use crate::forward::{averaged, normalizer, row_of, shifted_exponential, summed};
use crate::index::{lemma_flat, lemma_unflat};
use crate::scalar::{
    added, bottom, counted, decoded, difference, exponentiated, lemma_added_push, less, logged,
    product, quotient, sum, truncated, zero, Scalar,
};
use vstd::prelude::*;

verus! {

/// The bits of what is not a number.
pub const NAN: u32 = 0x7FC0_0000;

/// `r` is what keeping the higher of two values, over the terms in order from `start`
/// on, gives.
pub open spec fn climbed<T: Scalar>(start: T, terms: Seq<T>, r: T) -> bool
    decreases terms.len(),
{
    if terms.len() == 0 {
        r == start
    } else {
        exists|before: T, higher: bool|
            {
                &&& climbed(start, terms.drop_last(), before)
                &&& #[trigger] less(before, terms.last(), higher)
                &&& r == if higher {
                    terms.last()
                } else {
                    before
                }
            }
    }
}

pub proof fn lemma_climbed_push<T: Scalar>(
    start: T,
    terms: Seq<T>,
    before: T,
    term: T,
    higher: bool,
)
    requires
        climbed(start, terms, before),
        less(before, term, higher),
    ensures
        climbed(
            start,
            terms.push(term),
            if higher {
                term
            } else {
                before
            },
        ),
{
    assert(terms.push(term).drop_last() =~= terms);
    assert(less(before, terms.push(term).last(), higher));
}

/// `r` is the highest of the values, from negative infinity on.
pub open spec fn summit<T: Scalar>(values: Seq<T>, r: T) -> bool {
    exists|low: T| #[trigger] bottom(low) && climbed(low, values, r)
}

/// The highest element of a row.
fn row_summit<T: Scalar>(logits: &[T], row: usize, classes: usize, Ghost(rows): Ghost<int>) -> (r: T)
    requires
        row < rows,
        logits@.len() == rows * classes,
        logits@.len() <= usize::MAX,
    ensures
        summit(row_of(logits@, row as int, classes as int), r),
{
    let ghost terms = row_of(logits@, row as int, classes as int);
    let mut top = T::lowest();
    let ghost low = top;
    let mut class: usize = 0;
    assert(terms.take(0) =~= Seq::<T>::empty());
    while class < classes
        invariant
            class <= classes,
            row < rows,
            logits@.len() == rows * classes,
            logits@.len() <= usize::MAX,
            terms == row_of(logits@, row as int, classes as int),
            climbed(low, terms.take(class as int), top),
        decreases classes - class,
    {
        proof {
            lemma_flat(row as int, rows, class as int, classes as int);
        }
        let candidate = logits[row * classes + class];
        let higher = top.below(candidate);
        proof {
            lemma_climbed_push(low, terms.take(class as int), top, candidate, higher);
            assert(terms.take(class + 1) =~= terms.take(class as int).push(candidate));
        }
        if higher {
            top = candidate;
        }
        class = class + 1;
    }
    assert(terms.take(class as int) =~= terms);
    assert(bottom(low));
    top
}

/// The sum of the exponentials of a row less `top`.
fn row_norm<T: Scalar>(
    logits: &[T],
    row: usize,
    classes: usize,
    top: T,
    Ghost(rows): Ghost<int>,
) -> (r: T)
    requires
        row < rows,
        logits@.len() == rows * classes,
        logits@.len() <= usize::MAX,
    ensures
        normalizer(row_of(logits@, row as int, classes as int), top, r),
{
    let ghost values = row_of(logits@, row as int, classes as int);
    let mut total = T::of_count(0);
    let ghost start = total;
    let ghost mut terms: Seq<T> = seq![];
    let mut class: usize = 0;
    while class < classes
        invariant
            class <= classes,
            row < rows,
            logits@.len() == rows * classes,
            logits@.len() <= usize::MAX,
            values == row_of(logits@, row as int, classes as int),
            terms.len() == class,
            forall|i: int|
                0 <= i < class ==> shifted_exponential(values[i], top, #[trigger] terms[i]),
            added(start, terms, total),
        decreases classes - class,
    {
        proof {
            lemma_flat(row as int, rows, class as int, classes as int);
        }
        let value = logits[row * classes + class];
        let gap = value.minus(top);
        let weight = gap.exponential();
        let next = total.plus(weight);
        proof {
            assert(difference(value, top, gap) && exponentiated(gap, weight));
            assert(shifted_exponential(values[class as int], top, weight));
            lemma_added_push(start, terms, total, weight, next);
            terms = terms.push(weight);
        }
        total = next;
        class = class + 1;
    }
    assert(zero(start) && added(start, terms, total));
    assert(summed(terms, total));
    total
}

/// `r` is the negated log-probability of a class in a row.
pub open spec fn class_loss<T: Scalar>(logits: Seq<T>, target: int, r: T) -> bool {
    exists|top: T, norm: T, log: T, upper: T|
        {
            &&& summit(logits, top)
            &&& #[trigger] normalizer(logits, top, norm)
            &&& #[trigger] logged(norm, log)
            &&& sum(log, top, upper)
            &&& #[trigger] difference(upper, logits[target], r)
        }
}

/// The label names a class, and `r` is the loss of its row.
pub open spec fn label_loss<T: Scalar>(logits: Seq<T>, label: T, classes: usize, r: T) -> bool {
    exists|target: usize| #[trigger]
        truncated(label, target) && target < classes && class_loss(logits, target as int, r)
}

/// The label names no class.
pub open spec fn stray<T: Scalar>(label: T, classes: usize) -> bool {
    exists|target: usize| #[trigger] truncated(label, target) && target >= classes
}

/// `r` is the mean loss of the rows, or what is not a number where a label names no
/// class.
pub open spec fn device_loss<T: Scalar>(
    logits: Seq<T>,
    targets: Seq<T>,
    batch: usize,
    classes: usize,
    r: T,
) -> bool {
    ||| {
        &&& exists|b: int| 0 <= b < batch && stray(#[trigger] targets[b], classes)
        &&& decoded(NAN, r)
    }
    ||| exists|losses: Seq<T>|
        {
            &&& losses.len() == batch
            &&& forall|b: int|
                0 <= b < batch ==> label_loss(
                    row_of(logits, b, classes as int),
                    targets[b],
                    classes,
                    #[trigger] losses[b],
                )
            &&& #[trigger] averaged(losses, batch, r)
        }
}

/// What the one thread of a cross-entropy computes.
pub fn cross_entropy_forward<T: Scalar>(
    batch: usize,
    classes: usize,
    logits: &[T],
    targets: &[T],
) -> (r: T)
    requires
        logits@.len() == batch * classes,
        targets@.len() == batch,
        logits@.len() <= usize::MAX,
    ensures
        device_loss(logits@, targets@, batch, classes, r),
{
    let mut loss = T::of_count(0);
    let ghost start = loss;
    let ghost mut losses: Seq<T> = seq![];
    let mut row: usize = 0;
    while row < batch
        invariant
            row <= batch,
            logits@.len() == batch * classes,
            targets@.len() == batch,
            logits@.len() <= usize::MAX,
            losses.len() == row,
            forall|b: int|
                0 <= b < row ==> label_loss(
                    row_of(logits@, b, classes as int),
                    targets@[b],
                    classes,
                    #[trigger] losses[b],
                ),
            added(start, losses, loss),
        decreases batch - row,
    {
        let ghost values = row_of(logits@, row as int, classes as int);
        let top = row_summit(logits, row, classes, Ghost(batch as int));
        let norm = row_norm(logits, row, classes, top, Ghost(batch as int));
        let target: usize = targets[row].count();
        assert(truncated(targets@[row as int], target));
        if target >= classes {
            assert(stray(targets@[row as int], classes));
            return T::of_bits(NAN);
        }
        proof {
            lemma_flat(row as int, batch as int, target as int, classes as int);
        }
        let log = norm.logarithm();
        let upper = log.plus(top);
        let cost = upper.minus(logits[row * classes + target]);
        let next = loss.plus(cost);
        proof {
            assert(logged(norm, log));
            assert(sum(log, top, upper));
            assert(difference(upper, values[target as int], cost));
            assert(class_loss(values, target as int, cost));
            assert(label_loss(values, targets@[row as int], classes, cost));
            lemma_added_push(start, losses, loss, cost, next);
            losses = losses.push(cost);
        }
        loss = next;
        row = row + 1;
    }
    let divisor = T::of_count(batch);
    let r = loss.over(divisor);
    assert(zero(start) && added(start, losses, loss) && counted(batch, divisor) && quotient(
        loss,
        divisor,
        r,
    ));
    assert(averaged(losses, batch, r));
    r
}

/// `r` is the gradient of one logit: the difference between its probability and whether
/// it is the target, times the outer gradient divided by the number of rows.
pub open spec fn class_gradient<T: Scalar>(
    logits: Seq<T>,
    class: int,
    target: int,
    outer: T,
    batch: usize,
    r: T,
) -> bool {
    exists|top: T, norm: T, weight: T, probability: T, scale: T, hit: T, gap: T|
        {
            &&& summit(logits, top)
            &&& #[trigger] normalizer(logits, top, norm)
            &&& shifted_exponential(logits[class], top, weight)
            &&& #[trigger] quotient(weight, norm, probability)
            &&& #[trigger] divided(outer, batch, scale)
            &&& counted(
                if class == target {
                    1
                } else {
                    0
                },
                hit,
            )
            &&& #[trigger] difference(probability, hit, gap)
            &&& #[trigger] product(scale, gap, r)
        }
}

/// `r` is one element of the gradient of the logits, or what is not a number where the
/// label of its row names no class.
pub open spec fn device_gradient<T: Scalar>(
    logits: Seq<T>,
    targets: Seq<T>,
    outer: T,
    batch: usize,
    classes: usize,
    raw: int,
    r: T,
) -> bool {
    let row = raw / classes as int;
    exists|target: usize| #[trigger]
        truncated(targets[row], target) && if target >= classes {
            decoded(NAN, r)
        } else {
            class_gradient(
                row_of(logits, row, classes as int),
                raw % classes as int,
                target as int,
                outer,
                batch,
                r,
            )
        }
}

/// What the thread of a logit computes of its gradient.
pub fn cross_entropy_backward<T: Scalar>(
    raw: usize,
    batch: usize,
    classes: usize,
    logits: &[T],
    targets: &[T],
    outer_gradient: &[T],
) -> (r: T)
    requires
        raw < batch * classes,
        logits@.len() == batch * classes,
        targets@.len() == batch,
        outer_gradient@.len() > 0,
        logits@.len() <= usize::MAX,
    ensures
        device_gradient(
            logits@,
            targets@,
            outer_gradient@[0],
            batch,
            classes,
            raw as int,
            r,
        ),
{
    proof {
        lemma_unflat(raw as int, batch as int, classes as int);
    }
    let row: usize = raw / classes;
    let class: usize = raw % classes;
    let ghost values = row_of(logits@, row as int, classes as int);
    let top = row_summit(logits, row, classes, Ghost(batch as int));
    let norm = row_norm(logits, row, classes, top, Ghost(batch as int));
    let target: usize = targets[row].count();
    assert(truncated(targets@[row as int], target));
    if target >= classes {
        return T::of_bits(NAN);
    }
    let logit = logits[raw];
    assert(logit == values[class as int]);
    let gap = logit.minus(top);
    let weight = gap.exponential();
    assert(difference(logit, top, gap) && exponentiated(gap, weight));
    let probability = weight.over(norm);
    let outer = outer_gradient[0];
    let rows = T::of_count(batch);
    let scale = outer.over(rows);
    assert(counted(batch, rows) && quotient(outer, rows, scale));
    let hit = T::of_count(
        if class == target {
            1
        } else {
            0
        },
    );
    let miss = probability.minus(hit);
    let r = scale.times(miss);
    assert(class_gradient(values, class as int, target as int, outer, batch, r)) by {
        assert(shifted_exponential(values[class as int], top, weight));
        assert(quotient(weight, norm, probability));
        assert(divided(outer, batch, scale));
        assert(difference(probability, hit, miss));
        assert(product(scale, miss, r));
    }
    r
}

} // verus!

//! Drawing the next token from logits.

use crate::error::{Error, Failure, Result};
use crate::models::attention::weighted;
use crate::random::{draw, drawn};
use crate::scalar::{
    added, difference, equals, is_finite, lemma_added_push, less, one, product, quotient, ranked,
    ratio, ratio_of, sum, zero, Scalar,
};
use vstd::multiset::*;
use vstd::prelude::*;
use vstd::seq_lib::*;

verus! {

/// How tokens are generated.
#[derive(Clone, Debug)]
pub struct GenerationConfig<T> {
    pub max_new_tokens: usize,
    pub temperature: T,
    pub top_k: usize,
    pub top_p: T,
    pub eos_token_ids: Vec<u32>,
    pub seed: u64,
}

/// The state that stands in for a generator of zero, and the default seed.
pub const SEED: u64 = 0x4d59_5df4_d0f3_3173;

impl<T: Scalar> Default for GenerationConfig<T> {
    fn default() -> (r: GenerationConfig<T>)
        ensures
            r.max_new_tokens == 128,
            one(r.temperature),
            r.top_k == 64,
            ratio(95, 100, r.top_p),
            r.eos_token_ids@ == seq![1u32, 50, 106],
            r.seed == SEED,
    {
        let eos_token_ids: Vec<u32> = vec![1, 50, 106];
        assert(eos_token_ids@ =~= seq![1u32, 50, 106]);
        GenerationConfig {
            max_new_tokens: 128,
            temperature: T::of_count(1),
            top_k: 64,
            top_p: ratio_of(95, 100),
            eos_token_ids,
            seed: SEED,
        }
    }
}

/// `r` is an answer to `a <= b`.
pub open spec fn at_most<T: Scalar>(a: T, b: T, r: bool) -> bool {
    exists|strictly: bool| #[trigger]
        less(a, b, strictly) && if strictly {
            r
        } else {
            equals(a, b, r)
        }
}

fn up_to<T: Scalar>(a: T, b: T) -> (r: bool)
    ensures
        at_most(a, b, r),
{
    let strictly = a.below(b);
    assert(less(a, b, strictly));
    if strictly {
        true
    } else {
        a.same(b)
    }
}

/// `r` is an answer to whether a value is not above zero.
pub open spec fn unlit<T: Scalar>(value: T, r: bool) -> bool {
    exists|nothing: T| zero(nothing) && #[trigger] at_most(value, nothing, r)
}

/// `r` is an answer to whether a value is a probability.
pub open spec fn probable<T: Scalar>(value: T, r: bool) -> bool {
    exists|nothing: T, low: bool|
        {
            &&& zero(nothing)
            &&& #[trigger] at_most(nothing, value, low)
            &&& if low {
                exists|all: T| one(all) && #[trigger] at_most(value, all, r)
            } else {
                !r
            }
        }
}

/// `r` is an answer to whether a draw cannot be made.
pub open spec fn senseless<T: Scalar>(logits: Seq<T>, temperature: T, top_p: T, r: bool) -> bool {
    if logits.len() == 0 {
        r
    } else {
        exists|cold: bool| #[trigger]
            unlit(temperature, cold) && if cold {
                r
            } else {
                probable(top_p, !r)
            }
    }
}

fn is_senseless<T: Scalar>(logits: &Vec<T>, temperature: T, top_p: T) -> (r: bool)
    ensures
        senseless(logits@, temperature, top_p, r),
{
    if logits.len() == 0 {
        return true;
    }
    let nothing = T::of_count(0);
    let cold = up_to(temperature, nothing);
    assert(at_most(temperature, nothing, cold));
    assert(unlit(temperature, cold));
    if cold {
        return true;
    }
    let nothing = T::of_count(0);
    let low = up_to(nothing, top_p);
    assert(at_most(nothing, top_p, low));
    if !low {
        assert(probable(top_p, false));
        return true;
    }
    let all = T::of_count(1);
    let high = up_to(top_p, all);
    assert(at_most(top_p, all, high));
    assert(probable(top_p, high));
    !high
}

/// The finite logits, with their positions, divided by the temperature.
pub open spec fn scaled<T: Scalar>(logits: Seq<T>, temperature: T, found: Seq<(usize, T)>) -> bool
    decreases logits.len(),
{
    if logits.len() == 0 {
        found.len() == 0
    } else {
        exists|finite: bool| #[trigger]
            is_finite(logits.last(), finite) && if finite {
                &&& found.len() > 0
                &&& found.last().0 == logits.len() - 1
                &&& quotient(logits.last(), temperature, found.last().1)
                &&& scaled(logits.drop_last(), temperature, found.drop_last())
            } else {
                scaled(logits.drop_last(), temperature, found)
            }
    }
}

fn scale<T: Scalar>(logits: &Vec<T>, temperature: T) -> (r: Vec<(usize, T)>)
    ensures
        scaled(logits@, temperature, r@),
{
    let mut r: Vec<(usize, T)> = Vec::new();
    let mut i: usize = 0;
    while i < logits.len()
        invariant
            i <= logits.len(),
            scaled(logits@.take(i as int), temperature, r@),
        decreases logits.len() - i,
    {
        let ghost before = r@;
        let ghost some = logits@.take(i + 1);
        let logit = logits[i];
        let finite = logit.finite();
        assert(some.last() == logit);
        assert(some.drop_last() =~= logits@.take(i as int));
        assert(is_finite(some.last(), finite));
        if finite {
            let value = logit.over(temperature);
            r.push((i, value));
            assert(r@.drop_last() =~= before);
            assert(quotient(some.last(), temperature, r@.last().1));
        }
        assert(scaled(some, temperature, r@));
        i = i + 1;
    }
    assert(logits@.take(i as int) =~= logits@);
    r
}

/// Every candidate stands for a finite logit.
proof fn lemma_scaled<T: Scalar>(logits: Seq<T>, temperature: T, found: Seq<(usize, T)>, i: int)
    requires
        scaled(logits, temperature, found),
        0 <= i < found.len(),
    ensures
        found[i].0 < logits.len(),
        is_finite(logits[found[i].0 as int], true),
    decreases logits.len(),
{
    let finite = choose|finite: bool| #[trigger]
        is_finite(logits.last(), finite) && if finite {
            &&& found.len() > 0
            &&& found.last().0 == logits.len() - 1
            &&& quotient(logits.last(), temperature, found.last().1)
            &&& scaled(logits.drop_last(), temperature, found.drop_last())
        } else {
            scaled(logits.drop_last(), temperature, found)
        };
    if finite {
        if i < found.len() - 1 {
            lemma_scaled(logits.drop_last(), temperature, found.drop_last(), i);
            assert(found.drop_last()[i] == found[i]);
        }
    } else {
        lemma_scaled(logits.drop_last(), temperature, found, i);
    }
}

/// The third parts do not increase.
pub open spec fn descending<T>(items: Seq<(usize, T, i32)>) -> bool {
    forall|i: int, j: int| 0 <= i <= j < items.len() ==> items[i].2 >= items[j].2
}

/// Merges two descending sequences into one.
fn merge<T: Copy>(left: &Vec<(usize, T, i32)>, right: &Vec<(usize, T, i32)>) -> (r: Vec<
    (usize, T, i32),
>)
    requires
        descending(left@),
        descending(right@),
    ensures
        descending(r@),
        r@.to_multiset() == left@.to_multiset().add(right@.to_multiset()),
        r@.len() == left@.len() + right@.len(),
{
    broadcast use group_multiset_axioms;

    let mut r: Vec<(usize, T, i32)> = Vec::new();
    let mut i: usize = 0;
    let mut j: usize = 0;
    proof {
        assert(left@.take(0) =~= seq![]);
        assert(right@.take(0) =~= seq![]);
        assert(r@ =~= seq![]);
        assert(r@.to_multiset() =~= left@.take(0).to_multiset().add(right@.take(0).to_multiset()))
            by {
            broadcast use group_to_multiset_ensures;

            assert(r@.to_multiset().len() == 0);
        }
    }
    while i < left.len() || j < right.len()
        invariant
            i <= left.len(),
            j <= right.len(),
            descending(left@),
            descending(right@),
            descending(r@),
            r@.len() == i + j,
            forall|k: int, l: int|
                0 <= k < r@.len() && i <= l < left@.len() ==> r@[k].2 >= left@[l].2,
            forall|k: int, l: int|
                0 <= k < r@.len() && j <= l < right@.len() ==> r@[k].2 >= right@[l].2,
            r@.to_multiset() == left@.take(i as int).to_multiset().add(
                right@.take(j as int).to_multiset(),
            ),
        decreases left.len() - i + right.len() - j,
    {
        let ghost before = r@;
        let first = j >= right.len() || (i < left.len() && left[i].2 >= right[j].2);
        proof {
            to_multiset_build(before, if first {
                left@[i as int]
            } else {
                right@[j as int]
            });
        }
        if first {
            r.push(left[i]);
            proof {
                to_multiset_build(left@.take(i as int), left@[i as int]);
                assert(left@.take(i + 1) =~= left@.take(i as int).push(left@[i as int]));
            }
            i = i + 1;
        } else {
            r.push(right[j]);
            proof {
                to_multiset_build(right@.take(j as int), right@[j as int]);
                assert(right@.take(j + 1) =~= right@.take(j as int).push(right@[j as int]));
            }
            j = j + 1;
        }
        assert(r@.to_multiset() =~= left@.take(i as int).to_multiset().add(
            right@.take(j as int).to_multiset(),
        ));
    }
    assert(left@.take(i as int) =~= left@);
    assert(right@.take(j as int) =~= right@);
    r
}

/// The items from one position to another.
fn part<T: Copy>(items: &Vec<(usize, T, i32)>, from: usize, to: usize) -> (r: Vec<(usize, T, i32)>)
    requires
        from <= to <= items.len(),
    ensures
        r@ == items@.subrange(from as int, to as int),
{
    let mut r: Vec<(usize, T, i32)> = Vec::with_capacity(to - from);
    let mut i: usize = from;
    while i < to
        invariant
            from <= i <= to <= items.len(),
            r@ == items@.subrange(from as int, i as int),
        decreases to - i,
    {
        r.push(items[i]);
        assert(items@.subrange(from as int, i + 1) =~= items@.subrange(
            from as int,
            i as int,
        ).push(items@[i as int]));
        i = i + 1;
    }
    r
}

/// Sorts by the third part, the largest first.
fn sort<T: Copy>(items: Vec<(usize, T, i32)>) -> (r: Vec<(usize, T, i32)>)
    ensures
        descending(r@),
        r@.to_multiset() == items@.to_multiset(),
        r@.len() == items@.len(),
    decreases items@.len(),
{
    if items.len() <= 1 {
        return items;
    }
    let middle: usize = items.len() / 2;
    let left = part(&items, 0, middle);
    let right = part(&items, middle, items.len());
    proof {
        assert(items@ =~= left@ + right@);
        lemma_multiset_commutative(left@, right@);
    }
    let left = sort(left);
    let right = sort(right);
    merge(&left, &right)
}

/// A candidate with the key that it is ordered by.
pub open spec fn keyed<T: Scalar>(found: Seq<(usize, T)>, items: Seq<(usize, T, i32)>) -> bool {
    &&& items.len() == found.len()
    &&& forall|i: int|
        0 <= i < items.len() ==> (#[trigger] items[i]).0 == found[i].0 && items[i].1 == found[i].1
            && ranked(found[i].1, items[i].2)
}

/// `best` are the candidates, the highest first.  Where candidates are equally high
/// their order is open.
pub open spec fn arranged<T: Scalar>(found: Seq<(usize, T)>, best: Seq<(usize, T, i32)>) -> bool {
    &&& descending(best)
    &&& exists|items: Seq<(usize, T, i32)>| #[trigger]
        keyed(found, items) && best.to_multiset() == items.to_multiset()
}

fn arrange<T: Scalar>(found: &Vec<(usize, T)>) -> (r: Vec<(usize, T, i32)>)
    ensures
        arranged(found@, r@),
        r@.len() == found@.len(),
{
    let mut items: Vec<(usize, T, i32)> = Vec::with_capacity(found.len());
    let mut i: usize = 0;
    while i < found.len()
        invariant
            i <= found.len(),
            keyed(found@.take(i as int), items@),
        decreases found.len() - i,
    {
        let (index, value) = found[i];
        items.push((index, value, value.rank()));
        i = i + 1;
    }
    assert(found@.take(i as int) =~= found@);
    assert(keyed(found@, items@));
    sort(items)
}

/// The number of candidates that stay.
pub open spec fn cut(top_k: usize, len: nat) -> nat {
    if top_k == 0 {
        if len == 0 {
            0
        } else {
            1
        }
    } else if top_k < len {
        top_k as nat
    } else {
        len
    }
}

/// The weights of candidates, against the first of them, and their sum.
pub open spec fn spread<T: Scalar>(best: Seq<(usize, T, i32)>, weights: Seq<T>, total: T) -> bool {
    &&& weights.len() == best.len()
    &&& forall|i: int|
        0 <= i < weights.len() ==> weighted(best[i].1, best[0].1, #[trigger] weights[i])
    &&& exists|start: T| #[trigger] zero(start) && added(start, weights, total)
}

fn spread_out<T: Scalar>(best: &Vec<(usize, T, i32)>) -> (r: (Vec<T>, T))
    requires
        best@.len() > 0,
    ensures
        spread(best@, r.0@, r.1),
{
    let top = best[0].1;
    let mut weights: Vec<T> = Vec::with_capacity(best.len());
    let mut total = T::of_count(0);
    let ghost start = total;
    let mut i: usize = 0;
    while i < best.len()
        invariant
            i <= best.len(),
            best@.len() > 0,
            top == best@[0].1,
            weights@.len() == i,
            forall|j: int| 0 <= j < i ==> weighted(best@[j].1, top, #[trigger] weights@[j]),
            added(start, weights@, total),
        decreases best.len() - i,
    {
        let gap = best[i].1.minus(top);
        let weight = gap.exponential();
        let next = total.plus(weight);
        assert(difference(best@[i as int].1, top, gap));
        proof {
            lemma_added_push(start, weights@, total, weight, next);
        }
        weights.push(weight);
        total = next;
        i = i + 1;
    }
    assert(zero(start));
    (weights, total)
}

/// `r` is an answer to whether a sum of weights cannot be divided by.
pub open spec fn useless<T: Scalar>(total: T, r: bool) -> bool {
    exists|nothing: T, vanished: bool|
        {
            &&& zero(nothing)
            &&& #[trigger] equals(total, nothing, vanished)
            &&& if vanished {
                r
            } else {
                is_finite(total, !r)
            }
        }
}

/// Every probability is a weight as a part of the sum.
pub open spec fn normal<T: Scalar>(weights: Seq<T>, total: T, probabilities: Seq<T>) -> bool {
    &&& probabilities.len() == weights.len()
    &&& forall|i: int|
        0 <= i < probabilities.len() ==> quotient(weights[i], total, #[trigger] probabilities[i])
}

/// `sums` are the running sums of the probabilities.
pub open spec fn running<T: Scalar>(probabilities: Seq<T>, sums: Seq<T>) -> bool {
    &&& sums.len() <= probabilities.len()
    &&& forall|i: int|
        0 <= i < sums.len() ==> if i == 0 {
            exists|start: T| #[trigger] zero(start) && sum(start, probabilities[0], sums[0])
        } else {
            sum(sums[i - 1], probabilities[i], #[trigger] sums[i])
        }
}

/// The first `keep` candidates reach the probability `top_p`, and no fewer do; or they
/// are all.
pub open spec fn nucleus<T: Scalar>(probabilities: Seq<T>, top_p: T, keep: nat) -> bool {
    exists|sums: Seq<T>|
        {
            &&& #[trigger] running(probabilities, sums)
            &&& sums.len() == keep
            &&& keep >= 1
            &&& forall|i: int| 0 <= i < keep - 1 ==> at_most(top_p, #[trigger] sums[i], false)
            &&& if keep < probabilities.len() {
                at_most(top_p, sums.last(), true)
            } else {
                true
            }
        }
}

fn nucleus_size<T: Scalar>(probabilities: &Vec<T>, top_p: T) -> (r: usize)
    requires
        probabilities@.len() > 0,
    ensures
        r <= probabilities@.len(),
        nucleus(probabilities@, top_p, r as nat),
{
    let start = T::of_count(0);
    let mut cumulative = start;
    let mut keep: usize = 0;
    let ghost mut sums: Seq<T> = seq![];
    while keep < probabilities.len()
        invariant
            keep <= probabilities.len(),
            zero(start),
            running(probabilities@, sums),
            sums.len() == keep,
            cumulative == if keep == 0 {
                start
            } else {
                sums.last()
            },
            forall|i: int| 0 <= i < keep ==> at_most(top_p, #[trigger] sums[i], false),
        decreases probabilities.len() - keep,
    {
        let next = cumulative.plus(probabilities[keep]);
        let ghost before = sums;
        proof {
            sums = sums.push(next);
            assert(sum(cumulative, probabilities@[keep as int], next));
            assert forall|i: int| 0 <= i < sums.len() implies if i == 0 {
                exists|start: T| #[trigger] zero(start) && sum(start, probabilities@[0], sums[0])
            } else {
                sum(sums[i - 1], probabilities@[i], #[trigger] sums[i])
            } by {
                if i < keep {
                    assert(sums[i] == before[i]);
                    if i > 0 {
                        assert(sum(before[i - 1], probabilities@[i], before[i]));
                    } else {
                        assert(before.len() > 0);
                    }
                }
            }
            assert(running(probabilities@, sums));
        }
        cumulative = next;
        keep = keep + 1;
        let reached = up_to(top_p, cumulative);
        if reached {
            assert(at_most(top_p, sums.last(), true));
            assert forall|i: int| 0 <= i < keep - 1 implies at_most(
                top_p,
                #[trigger] sums[i],
                false,
            ) by {
                assert(sums[i] == before[i]);
            }
            return keep;
        }
        assert forall|i: int| 0 <= i < keep implies at_most(top_p, #[trigger] sums[i], false) by {
            if i < keep - 1 {
                assert(sums[i] == before[i]);
            }
        }
    }
    keep
}

/// The candidates that stay, and the probability that they have together.
pub open spec fn narrowed<T: Scalar>(probabilities: Seq<T>, top_p: T, keep: nat, mass: T) -> bool {
    exists|all: T, strict: bool|
        {
            &&& one(all)
            &&& #[trigger] less(top_p, all, strict)
            &&& if strict {
                &&& keep <= probabilities.len()
                &&& nucleus(probabilities, top_p, keep)
                &&& exists|start: T| #[trigger]
                    zero(start) && added(start, probabilities.take(keep as int), mass)
            } else {
                &&& keep == probabilities.len()
                &&& one(mass)
            }
        }
}

fn narrow<T: Scalar>(probabilities: &Vec<T>, top_p: T) -> (r: (usize, T))
    requires
        probabilities@.len() > 0,
    ensures
        1 <= r.0 <= probabilities@.len(),
        narrowed(probabilities@, top_p, r.0 as nat, r.1),
{
    let all = T::of_count(1);
    let strict = top_p.below(all);
    assert(less(top_p, all, strict));
    if !strict {
        return (probabilities.len(), T::of_count(1));
    }
    let keep: usize = nucleus_size(probabilities, top_p);
    let ghost some = probabilities@.take(keep as int);
    let mut mass = T::of_count(0);
    let ghost start = mass;
    let mut i: usize = 0;
    assert(some.take(0) =~= Seq::<T>::empty());
    while i < keep
        invariant
            i <= keep <= probabilities@.len(),
            some == probabilities@.take(keep as int),
            added(start, some.take(i as int), mass),
        decreases keep - i,
    {
        let next = mass.plus(probabilities[i]);
        proof {
            lemma_added_push(start, some.take(i as int), mass, some[i as int], next);
            assert(some.take(i + 1) =~= some.take(i as int).push(some[i as int]));
        }
        mass = next;
        i = i + 1;
    }
    assert(some.take(i as int) =~= some);
    assert(zero(start));
    (keep, mass)
}

/// The state that a draw leaves the generator in.
pub open spec fn stirred(random: u64) -> u64 {
    drawn(
        if random == 0 {
            SEED
        } else {
            random
        },
    )
}

/// `r` is where a draw falls: the upper bits of the generator as a part of `mass`.
pub open spec fn cast<T: Scalar>(random: u64, mass: T, r: T) -> bool {
    exists|unit: T| ratio((random >> 40) as usize, 16777216, unit) && #[trigger] product(unit, mass, r)
}

/// Going down the candidates from `threshold`, the one at `picked` is met first; the
/// last one where none is met.
pub open spec fn met<T: Scalar>(probabilities: Seq<T>, threshold: T, picked: int) -> bool {
    exists|left: Seq<T>|
        {
            &&& #[trigger] descends(probabilities, threshold, left)
            &&& {
                ||| left.len() - 1 == picked < probabilities.len() && at_most(
                    left.last(),
                    probabilities[picked],
                    true,
                )
                ||| left.len() - 1 == probabilities.len() && picked == probabilities.len() - 1
            }
        }
}

/// A candidate is not met where what is left of a threshold is above its probability,
/// which is then taken off.
#[verifier::opaque]
pub open spec fn passes<T: Scalar>(left: T, probability: T, next: T) -> bool {
    &&& at_most(left, probability, false)
    &&& difference(left, probability, next)
}

/// `left` is what is left of a threshold after each candidate that was not met.
pub open spec fn descends<T: Scalar>(probabilities: Seq<T>, threshold: T, left: Seq<T>) -> bool {
    &&& 1 <= left.len() <= probabilities.len() + 1
    &&& left[0] == threshold
    &&& forall|i: int|
        0 < i < left.len() ==> passes(left[i - 1], probabilities[i - 1], #[trigger] left[i])
}

/// One more candidate that was not met.
proof fn lemma_descends<T: Scalar>(probabilities: Seq<T>, threshold: T, left: Seq<T>, next: T)
    requires
        descends(probabilities, threshold, left),
        left.len() <= probabilities.len(),
        passes(left.last(), probabilities[left.len() - 1], next),
    ensures
        descends(probabilities, threshold, left.push(next)),
{
    let more = left.push(next);
    assert(more[0] == left[0]);
    assert forall|k: int| 0 < k < more.len() implies passes(
        more[k - 1],
        probabilities[k - 1],
        #[trigger] more[k],
    ) by {
        assert(more[k - 1] == left[k - 1]);
        if k < left.len() {
            assert(more[k] == left[k]);
        }
    }
}

fn meet<T: Scalar>(probabilities: &Vec<T>, len: usize, threshold: T) -> (r: usize)
    requires
        1 <= len <= probabilities@.len(),
    ensures
        r < len,
        met(probabilities@.take(len as int), threshold, r as int),
{
    let ghost some = probabilities@.take(len as int);
    let mut rest = threshold;
    let ghost mut left: Seq<T> = seq![threshold];
    let mut i: usize = 0;
    while i < len
        invariant
            i <= len <= probabilities@.len(),
            some == probabilities@.take(len as int),
            left.len() == i + 1,
            rest == left.last(),
            descends(some, threshold, left),
        decreases len - i,
    {
        if up_to(rest, probabilities[i]) {
            return i;
        }
        let next = rest.minus(probabilities[i]);
        proof {
            reveal(passes);
            lemma_descends(some, threshold, left, next);
            left = left.push(next);
        }
        rest = next;
        i = i + 1;
    }
    len - 1
}

/// A draw, step by step.
pub struct Drawing<T> {
    pub found: Seq<(usize, T)>,
    pub best: Seq<(usize, T, i32)>,
    pub weights: Seq<T>,
    pub total: T,
    pub probabilities: Seq<T>,
    pub keep: nat,
    pub mass: T,
    pub threshold: T,
    pub picked: int,
}

/// The candidates of a draw.
pub open spec fn considers<T: Scalar>(
    logits: Seq<T>,
    temperature: T,
    top_k: usize,
    drawing: Drawing<T>,
) -> bool {
    &&& scaled(logits, temperature, drawing.found)
    &&& arranged(drawing.found, drawing.best)
    &&& drawing.best.len() == drawing.found.len() > 0
    &&& spread(
        drawing.best.take(cut(top_k, drawing.best.len()) as int),
        drawing.weights,
        drawing.total,
    )
}

/// A draw among its candidates.
pub open spec fn decides<T: Scalar>(top_p: T, random: u64, drawing: Drawing<T>) -> bool {
    &&& normal(drawing.weights, drawing.total, drawing.probabilities)
    &&& narrowed(drawing.probabilities, top_p, drawing.keep, drawing.mass)
    &&& 1 <= drawing.keep <= drawing.probabilities.len()
    &&& cast(random, drawing.mass, drawing.threshold)
    &&& met(
        drawing.probabilities.take(drawing.keep as int),
        drawing.threshold,
        drawing.picked,
    )
    &&& 0 <= drawing.picked < drawing.keep
}

/// The outcome of a draw, and the state of the generator after it.
pub open spec fn samples<T: Scalar>(
    logits: Seq<T>,
    config: GenerationConfig<T>,
    random: u64,
    after: u64,
    drawing: Drawing<T>,
    r: Result<u32>,
) -> bool {
    ||| {
        &&& senseless(logits, config.temperature, config.top_p, true)
        &&& r matches Err(error) && error@ == Failure::Execution("invalid sampling input"@)
        &&& after == random
    }
    ||| {
        &&& senseless(logits, config.temperature, config.top_p, false)
        &&& scaled(logits, config.temperature, drawing.found)
        &&& drawing.found.len() == 0
        &&& r matches Err(error) && error@ == Failure::Execution("all logits are non-finite"@)
        &&& after == random
    }
    ||| {
        &&& senseless(logits, config.temperature, config.top_p, false)
        &&& considers(logits, config.temperature, config.top_k, drawing)
        &&& useless(drawing.total, true)
        &&& r matches Err(error) && error@ == Failure::Execution(
            "sampling probability normalization failed"@,
        )
        &&& after == random
    }
    ||| {
        &&& senseless(logits, config.temperature, config.top_p, false)
        &&& considers(logits, config.temperature, config.top_k, drawing)
        &&& useless(drawing.total, false)
        &&& after == stirred(random)
        &&& decides(config.top_p, after, drawing)
        &&& match r {
            Ok(token) => token == drawing.best[drawing.picked].0,
            Err(error) => {
                &&& drawing.best[drawing.picked].0 > u32::MAX
                &&& error@ == Failure::Execution("token id overflow"@)
            },
        }
    }
}

/// A token that is drawn has a finite logit, and is one of the `top_k` highest, of
/// which there is always at least one.
pub proof fn drawn_token_is_among_the_best<T: Scalar>(
    logits: Seq<T>,
    config: GenerationConfig<T>,
    random: u64,
    after: u64,
    drawing: Drawing<T>,
    token: u32,
)
    requires
        samples(logits, config, random, after, drawing, Ok(token)),
    ensures
        token < logits.len(),
        is_finite(logits[token as int], true),
        0 <= drawing.picked < cut(config.top_k, drawing.best.len()),
        config.top_k <= 1 ==> drawing.picked == 0,
        token == drawing.best[drawing.picked].0,
        forall|i: int|
            drawing.picked <= i < drawing.best.len() ==> (#[trigger] drawing.best[i]).2
                <= drawing.best[drawing.picked].2,
{
    let best = drawing.best;
    let found = drawing.found;
    let items = choose|items: Seq<(usize, T, i32)>| #[trigger]
        keyed(found, items) && best.to_multiset() == items.to_multiset();
    let chosen = best[drawing.picked];
    assert(best.contains(chosen));
    to_multiset_contains(best, chosen);
    to_multiset_contains(items, chosen);
    let i = choose|i: int| 0 <= i < items.len() && items[i] == chosen;
    lemma_scaled(logits, config.temperature, found, i);
}

/// Draws one token by temperature, the highest `top_k` and the nucleus `top_p`.
pub fn sample_token<T: Scalar>(
    logits: &Vec<T>,
    config: &GenerationConfig<T>,
    random: &mut u64,
) -> (r: Result<u32>)
    ensures
        exists|drawing: Drawing<T>| #[trigger]
            samples(logits@, *config, *old(random), *final(random), drawing, r),
{
    let ghost before = *random;
    let ghost mut drawing: Drawing<T> = arbitrary();
    if is_senseless(logits, config.temperature, config.top_p) {
        let error = Error::execution("invalid sampling input");
        let r: Result<u32> = Err(error);
        assert(samples(logits@, *config, before, *random, drawing, r));
        return r;
    }
    let found = scale(logits, config.temperature);
    proof {
        drawing.found = found@;
    }
    if found.len() == 0 {
        let r: Result<u32> = Err(Error::execution("all logits are non-finite"));
        assert(samples(logits@, *config, before, *random, drawing, r));
        return r;
    }
    let best = arrange(&found);
    let len: usize = if config.top_k == 0 {
        1
    } else if config.top_k < best.len() {
        config.top_k
    } else {
        best.len()
    };
    assert(len == cut(config.top_k, best@.len()));
    let top = part(&best, 0, len);
    assert(top@ =~= best@.take(len as int));
    let (weights, total) = spread_out(&top);
    proof {
        drawing.best = best@;
        drawing.weights = weights@;
        drawing.total = total;
    }
    let nothing = T::of_count(0);
    let vanished = total.same(nothing);
    assert(equals(total, nothing, vanished));
    let hopeless = vanished || !total.finite();
    assert(useless(total, hopeless));
    if hopeless {
        let r: Result<u32> = Err(Error::execution("sampling probability normalization failed"));
        assert(samples(logits@, *config, before, *random, drawing, r));
        return r;
    }
    let mut probabilities: Vec<T> = Vec::with_capacity(weights.len());
    let mut i: usize = 0;
    while i < weights.len()
        invariant
            i <= weights.len(),
            probabilities@.len() == i,
            forall|j: int|
                0 <= j < i ==> quotient(weights@[j], total, #[trigger] probabilities@[j]),
        decreases weights.len() - i,
    {
        probabilities.push(weights[i].over(total));
        i = i + 1;
    }
    let (keep, mass) = narrow(&probabilities, config.top_p);
    if *random == 0 {
        *random = SEED;
    }
    *random = draw(*random);
    let bits: u64 = *random >> 40;
    proof {
        let state = *random;
        assert(state >> 40 <= 0xFF_FFFF) by (bit_vector);
    }
    let unit: T = ratio_of(bits as usize, 16777216);
    let threshold = unit.times(mass);
    assert(product(unit, mass, threshold));
    let picked: usize = meet(&probabilities, keep, threshold);
    proof {
        drawing.probabilities = probabilities@;
        drawing.keep = keep as nat;
        drawing.mass = mass;
        drawing.threshold = threshold;
        drawing.picked = picked as int;
        assert(decides(config.top_p, *random, drawing));
    }
    let index: usize = best[picked].0;
    let r: Result<u32> = if index <= 0xFFFF_FFFF {
        Ok(index as u32)
    } else {
        Err(Error::execution("token id overflow"))
    };
    assert(samples(logits@, *config, before, *random, drawing, r));
    r
}

} // verus!

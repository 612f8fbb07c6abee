//! What each thread of the kernels that pick the best tokens computes.

use crate::cuda::model_kernels::{at_least, is_at_least};
use crate::scalar::{bottom, equals, less, one, product, quotient, truncated, zero, Scalar};
use vstd::prelude::*;

verus! {

/// The tokens that are picked at most.
pub const MOST_PICKS: usize = 64;

/// The tokens that a block looks at.
pub const BLOCK_TOKENS: usize = 256;

/// A token and its score.
#[derive(Clone, Copy)]
pub struct Pick<T> {
    pub score: T,
    pub id: u32,
}

/// `r` is the score of a token, lowered where the token was seen and repetition is
/// penalized.
pub open spec fn penalized<T: Scalar>(score: T, seen: u8, penalty: T, r: T) -> bool {
    if seen == 0 {
        r == score
    } else {
        exists|unit: T, active: bool|
            {
                &&& one(unit)
                &&& #[trigger] less(unit, penalty, active)
                &&& if active {
                    lowered(score, penalty, r)
                } else {
                    r == score
                }
            }
    }
}

/// `r` is a score moved down: divided where it is at least zero, and multiplied
/// elsewhere.
pub open spec fn lowered<T: Scalar>(score: T, penalty: T, r: T) -> bool {
    exists|nothing: T, positive: bool|
        {
            &&& zero(nothing)
            &&& #[trigger] at_least(score, nothing, positive)
            &&& if positive {
                quotient(score, penalty, r)
            } else {
                product(score, penalty, r)
            }
        }
}

/// The score of a token, lowered where the token was seen and repetition is penalized.
fn penalize<T: Scalar>(score: T, seen: u8, penalty: T) -> (r: T)
    ensures
        penalized(score, seen, penalty, r),
{
    if seen == 0 {
        return score;
    }
    let unit = T::of_count(1);
    let active = unit.below(penalty);
    assert(one(unit) && less(unit, penalty, active));
    if active {
        let nothing = T::of_count(0);
        let positive = is_at_least(score, nothing);
        assert(zero(nothing) && at_least(score, nothing, positive));
        let r = if positive {
            score.over(penalty)
        } else {
            score.times(penalty)
        };
        assert(lowered(score, penalty, r));
        r
    } else {
        score
    }
}

/// `after` is `before` with a pick put behind the last that it is not better than, and
/// without the last.
pub open spec fn inserted<T: Scalar>(
    before: Seq<Pick<T>>,
    pick: Pick<T>,
    p: int,
    after: Seq<Pick<T>>,
) -> bool {
    &&& 0 <= p < before.len()
    &&& after == before.take(p).push(pick) + before.subrange(p, before.len() - 1)
    &&& forall|j: int|
        p <= j < before.len() - 1 ==> less((#[trigger] before[j]).score, pick.score, true)
    &&& p > 0 ==> less(before[p - 1].score, pick.score, false)
}

/// `after` is `before` once a pick was held against it.
pub open spec fn challenged<T: Scalar>(
    before: Seq<Pick<T>>,
    pick: Pick<T>,
    after: Seq<Pick<T>>,
) -> bool {
    exists|better: bool|
        {
            &&& #[trigger] less(before.last().score, pick.score, better)
            &&& if better {
                exists|p: int| #[trigger] inserted(before, pick, p, after)
            } else {
                after == before
            }
        }
}

/// Holds a pick against the best so far.
fn challenge<T: Scalar>(best: &mut Vec<Pick<T>>, pick: Pick<T>)
    requires
        old(best)@.len() > 0,
    ensures
        challenged(old(best)@, pick, final(best)@),
        final(best)@.len() == old(best)@.len(),
{
    let ghost before = best@;
    let n: usize = best.len();
    let better = best[n - 1].score.below(pick.score);
    assert(less(before.last().score, pick.score, better));
    if !better {
        return;
    }
    let mut position: usize = n - 1;
    while position > 0 && best[position - 1].score.below(pick.score)
        invariant
            n == best@.len(),
            n == before.len(),
            n > 0,
            position <= n - 1,
            forall|j: int| 0 <= j <= position ==> #[trigger] best@[j] == before[j],
            forall|j: int| position < j < n ==> #[trigger] best@[j] == before[j - 1],
            forall|j: int|
                position <= j < n - 1 ==> less((#[trigger] before[j]).score, pick.score, true),
        ensures
            position > 0 ==> less(before[position - 1].score, pick.score, false),
        decreases position,
    {
        let moved = best[position - 1];
        assert(moved == before[position - 1]);
        best.set(position, moved);
        position = position - 1;
    }
    best.set(position, pick);
    assert(best@ =~= before.take(position as int).push(pick) + before.subrange(
        position as int,
        before.len() - 1,
    ));
    assert(inserted(before, pick, position as int, best@));
}

/// One token looked at: its score is lowered where it was seen, and held against the best
/// so far unless it is not a number.
pub open spec fn looked_at<T: Scalar>(
    logit: T,
    seen: u8,
    penalty: T,
    id: u32,
    before: Seq<Pick<T>>,
    after: Seq<Pick<T>>,
) -> bool {
    exists|score: T, number: bool|
        {
            &&& penalized(logit, seen, penalty, score)
            &&& #[trigger] equals(score, score, number)
            &&& if number {
                challenged(before, Pick { score, id }, after)
            } else {
                after == before
            }
        }
}

/// The best before anything was looked at.
pub open spec fn unpicked<T: Scalar>(k: nat, best: Seq<Pick<T>>) -> bool {
    &&& best.len() == k
    &&& exists|low: T|
        #[trigger] bottom(low) && forall|j: int|
            0 <= j < k ==> #[trigger] best[j] == (Pick { score: low, id: 0 })
}

/// `best` are the best of the tokens from `start` up to `end`, looked at in order.
pub open spec fn scanned<T: Scalar>(
    logits: Seq<T>,
    seen: Seq<u8>,
    penalty: T,
    k: nat,
    start: int,
    end: int,
    best: Seq<Pick<T>>,
) -> bool {
    exists|states: Seq<Seq<Pick<T>>>|
        #[trigger] scan_states(logits, seen, penalty, k, start, end, states) && states[end - start]
            == best
}

/// The best after each token.
pub open spec fn scan_states<T: Scalar>(
    logits: Seq<T>,
    seen: Seq<u8>,
    penalty: T,
    k: nat,
    start: int,
    end: int,
    states: Seq<Seq<Pick<T>>>,
) -> bool {
    &&& states.len() == end - start + 1
    &&& unpicked(k, states[0])
    &&& forall|i: int|
        #![trigger states[i]]
        0 <= i < end - start ==> looked_at(
            logits[start + i],
            seen[start + i],
            penalty,
            (start + i) as u32,
            states[i],
            states[i + 1],
        )
}

/// The end of what a block looks at.
pub open spec fn block_end(block: int, len: int) -> int {
    if (block + 1) * BLOCK_TOKENS <= len {
        (block + 1) * BLOCK_TOKENS
    } else {
        len
    }
}

/// Nothing picked yet.
fn blank<T: Scalar>(k: usize) -> (r: Vec<Pick<T>>)
    ensures
        unpicked(k as nat, r@),
{
    let low = T::lowest();
    assert(bottom(low));
    let mut r: Vec<Pick<T>> = Vec::new();
    let mut i: usize = 0;
    while i < k
        invariant
            i <= k,
            r@.len() == i,
            forall|j: int| 0 <= j < i ==> #[trigger] r@[j] == (Pick { score: low, id: 0 }),
        decreases k - i,
    {
        r.push(Pick { score: low, id: 0 });
        i = i + 1;
    }
    r
}

/// The best tokens of those that one block looks at, in order.
pub fn topk_stage1<T: Scalar>(
    block: usize,
    top_k: usize,
    penalty: T,
    logits: &[T],
    seen: &[u8],
) -> (r: Vec<Pick<T>>)
    requires
        0 < top_k <= MOST_PICKS,
        block * BLOCK_TOKENS <= logits@.len(),
        logits@.len() <= u32::MAX,
        (block + 1) * BLOCK_TOKENS <= usize::MAX,
        seen@.len() == logits@.len(),
    ensures
        r@.len() == top_k,
        scanned(
            logits@,
            seen@,
            penalty,
            top_k as nat,
            block * BLOCK_TOKENS,
            block_end(block as int, logits@.len() as int),
            r@,
        ),
{
    let start: usize = block * BLOCK_TOKENS;
    let end: usize = if start + BLOCK_TOKENS <= logits.len() {
        start + BLOCK_TOKENS
    } else {
        logits.len()
    };
    let mut best: Vec<Pick<T>> = blank(top_k);
    let ghost mut states: Seq<Seq<Pick<T>>> = seq![best@];
    let mut index: usize = start;
    while index < end
        invariant
            start <= index <= end,
            end <= logits@.len() <= u32::MAX,
            seen@.len() == logits@.len(),
            best@.len() == top_k,
            top_k > 0,
            states.last() == best@,
            scan_states(
                logits@,
                seen@,
                penalty,
                top_k as nat,
                start as int,
                index as int,
                states,
            ),
        decreases end - index,
    {
        let ghost before = best@;
        let score = penalize(logits[index], seen[index], penalty);
        let number = score.same(score);
        assert(equals(score, score, number));
        if number {
            challenge(&mut best, Pick { score, id: index as u32 });
        }
        proof {
            assert(looked_at(
                logits@[index as int],
                seen@[index as int],
                penalty,
                index as u32,
                before,
                best@,
            ));
            let next = states.push(best@);
            assert forall|i: int|
                #![trigger next[i]]
                0 <= i < index + 1 - start implies looked_at(
                logits@[start + i],
                seen@[start + i],
                penalty,
                (start + i) as u32,
                next[i],
                next[i + 1],
            ) by {
                if i < index - start {
                    assert(next[i] == states[i] && next[i + 1] == states[i + 1]);
                }
            }
            states = next;
        }
        index = index + 1;
    }
    proof {
        assert(scan_states(
            logits@,
            seen@,
            penalty,
            top_k as nat,
            start as int,
            end as int,
            states,
        ));
        assert(states[end - start] == best@);
    }
    best
}

/// The number that an element names a token by.
pub open spec fn named<T: Scalar>(element: T, id: u32) -> bool {
    exists|count: usize|
        #[trigger] truncated(element, count) && id == if count <= u32::MAX {
            count as u32
        } else {
            u32::MAX
        }
}

/// The best after each of the picks of all blocks.
pub open spec fn merge_states<T: Scalar>(
    scores: Seq<T>,
    ids: Seq<T>,
    k: nat,
    n: int,
    states: Seq<Seq<Pick<T>>>,
) -> bool {
    &&& states.len() == n + 1
    &&& unpicked(k, states[0])
    &&& forall|i: int|
        #![trigger states[i]]
        0 <= i < n ==> merged_in(scores[i], ids[i], states[i], states[i + 1])
}

/// One pick of a block held against the best so far.
pub open spec fn merged_in<T: Scalar>(
    score: T,
    name: T,
    before: Seq<Pick<T>>,
    after: Seq<Pick<T>>,
) -> bool {
    exists|id: u32| #[trigger] named(name, id) && challenged(before, Pick { score, id }, after)
}

/// `best` are the best of the picks of all blocks.
pub open spec fn merged<T: Scalar>(scores: Seq<T>, ids: Seq<T>, k: nat, best: Seq<Pick<T>>) -> bool {
    exists|states: Seq<Seq<Pick<T>>>|
        #[trigger] merge_states(scores, ids, k, scores.len() as int, states) && states.last()
            == best
}

/// The best tokens of the picks of all blocks.
pub fn topk_stage2<T: Scalar>(top_k: usize, scores: &[T], ids: &[T]) -> (r: Vec<Pick<T>>)
    requires
        0 < top_k <= MOST_PICKS,
        ids@.len() == scores@.len(),
    ensures
        r@.len() == top_k,
        merged(scores@, ids@, top_k as nat, r@),
{
    let mut best: Vec<Pick<T>> = blank(top_k);
    let ghost mut states: Seq<Seq<Pick<T>>> = seq![best@];
    let mut index: usize = 0;
    while index < scores.len()
        invariant
            index <= scores@.len(),
            ids@.len() == scores@.len(),
            best@.len() == top_k,
            top_k > 0,
            states.last() == best@,
            merge_states(scores@, ids@, top_k as nat, index as int, states),
        decreases scores@.len() - index,
    {
        let ghost before = best@;
        let score = scores[index];
        let count: usize = ids[index].count();
        let id: u32 = if count <= 0xffff_ffff {
            count as u32
        } else {
            0xffff_ffff
        };
        assert(truncated(ids@[index as int], count));
        assert(named(ids@[index as int], id));
        challenge(&mut best, Pick { score, id });
        proof {
            assert(merged_in(score, ids@[index as int], before, best@));
            let next = states.push(best@);
            assert forall|i: int|
                #![trigger next[i]]
                0 <= i < index + 1 implies merged_in(scores@[i], ids@[i], next[i], next[i + 1]) by {
                if i < index {
                    assert(next[i] == states[i] && next[i + 1] == states[i + 1]);
                }
            }
            states = next;
        }
        index = index + 1;
    }
    best
}

/// Every token is looked at by one block: block `i / 256` for token `i`.
pub proof fn blocks_look_at_every_token(index: int, len: int)
    requires
        0 <= index < len,
    ensures
        ({
            let block = index / BLOCK_TOKENS as int;
            block * BLOCK_TOKENS <= index < block_end(block, len)
        }),
{
}

/// The picks stay in order: where every comparison agrees with one key, and the best so
/// far fall by it, they still do once a pick was held against them.
pub proof fn picks_stay_in_order<T: Scalar>(
    before: Seq<Pick<T>>,
    pick: Pick<T>,
    after: Seq<Pick<T>>,
    key: spec_fn(T) -> int,
)
    requires
        before.len() > 0,
        forall|a: T, b: T, r: bool| #[trigger] less(a, b, r) ==> r == (key(a) < key(b)),
        forall|i: int, j: int|
            0 <= i <= j < before.len() ==> key((#[trigger] before[i]).score) >= key(
                (#[trigger] before[j]).score,
            ),
        challenged(before, pick, after),
    ensures
        after.len() == before.len(),
        forall|i: int, j: int|
            0 <= i <= j < after.len() ==> key((#[trigger] after[i]).score) >= key(
                (#[trigger] after[j]).score,
            ),
        forall|i: int|
            0 <= i < after.len() ==> key((#[trigger] after[i]).score) >= key(before[i].score),
{
    let better = choose|better: bool| #[trigger] less(before.last().score, pick.score, better) && if better {
        exists|p: int| #[trigger] inserted(before, pick, p, after)
    } else {
        after == before
    };
    if better {
        let p = choose|p: int| #[trigger] inserted(before, pick, p, after);
        assert forall|j: int| 0 <= j < after.len() implies #[trigger] after[j] == if j < p {
            before[j]
        } else if j == p {
            pick
        } else {
            before[j - 1]
        } by {}
        if p < before.len() - 1 {
            assert(less(before[p].score, pick.score, true));
        }
    }
}

} // verus!

//! The two stages that pick tokens: together they pick the best of all.

use crate::cuda::sampling_kernels::{
    block_end, challenged, inserted, looked_at, merge_states, merged, merged_in, named, penalized,
    picks_stay_in_order, scan_states, scanned, unpicked, Pick, BLOCK_TOKENS,
};
use crate::scalar::{bottom, equals, less, Scalar};
use vstd::prelude::*;

verus! {

/// How scores compare: every comparison agrees with a key, and the lowest score has the
/// key `floor`.
#[verifier::reject_recursive_types(T)]
pub struct Order<T> {
    pub key: spec_fn(T) -> int,
    pub floor: int,
}

impl<T: Scalar> Order<T> {
    /// The comparisons agree with the key.
    pub open spec fn holds(self) -> bool {
        &&& forall|a: T, b: T, r: bool| #[trigger]
            less(a, b, r) ==> r == ((self.key)(a) < (self.key)(b))
        &&& forall|low: T| #[trigger] bottom(low) ==> (self.key)(low) == self.floor
    }

    /// The key of a pick.
    pub open spec fn of(self, pick: Pick<T>) -> int {
        (self.key)(pick.score)
    }

    /// The pick stands above the lowest score.
    pub open spec fn counts(self, pick: Pick<T>) -> bool {
        self.of(pick) > self.floor
    }
}

/// The picks of which no two that stand above the lowest score name one token.
pub open spec fn offers_differ<T: Scalar>(order: Order<T>, offers: Seq<Pick<T>>) -> bool {
    forall|i: int, j: int|
        0 <= i < j < offers.len() && order.counts(#[trigger] offers[i]) && order.counts(
            #[trigger] offers[j],
        ) ==> offers[i].id != offers[j].id
}

/// A pick is among the first `n`.
pub open spec fn among<T>(best: Seq<Pick<T>>, n: int, pick: Pick<T>) -> bool {
    exists|j: int| 0 <= j < n && #[trigger] best[j] == pick
}

/// The first `n` of `best` are offers, in order and without repetition; nothing follows
/// them; and an offer that is not among them is no better than the last of a full list.
pub open spec fn tops<T: Scalar>(
    order: Order<T>,
    offers: Seq<Pick<T>>,
    best: Seq<Pick<T>>,
    n: int,
) -> bool {
    &&& 0 <= n <= best.len()
    &&& forall|i: int, j: int|
        0 <= i <= j < best.len() ==> order.of(#[trigger] best[i]) >= order.of(#[trigger] best[j])
    &&& forall|j: int| 0 <= j < n ==> order.counts(#[trigger] best[j]) && offers.contains(best[j])
    &&& forall|j: int| n <= j < best.len() ==> order.of(#[trigger] best[j]) == order.floor
    &&& forall|i: int, j: int|
        0 <= i < j < n ==> (#[trigger] best[i]).id != (#[trigger] best[j]).id
    &&& forall|i: int|
        0 <= i < offers.len() && order.counts(#[trigger] offers[i]) ==> among(best, n, offers[i]) || (n
            == best.len() && order.of(best.last()) >= order.of(offers[i]))
}

/// Nothing offered, nothing picked.
proof fn lemma_tops_nothing<T: Scalar>(order: Order<T>, best: Seq<Pick<T>>, k: nat)
    requires
        order.holds(),
        unpicked(k, best),
    ensures
        tops(order, seq![], best, 0),
{
    let low = choose|low: T|
        #[trigger] bottom(low) && forall|j: int|
            0 <= j < k ==> #[trigger] best[j] == (Pick { score: low, id: 0 });
    assert forall|j: int| 0 <= j < best.len() implies order.of(#[trigger] best[j])
        == order.floor by {
        assert(best[j] == (Pick { score: low, id: 0 }));
    }
}

/// One more offer held against the best.
proof fn lemma_tops_push<T: Scalar>(
    order: Order<T>,
    offers: Seq<Pick<T>>,
    pick: Pick<T>,
    before: Seq<Pick<T>>,
    after: Seq<Pick<T>>,
    n: int,
) -> (m: int)
    requires
        order.holds(),
        before.len() > 0,
        offers_differ(order, offers.push(pick)),
        tops(order, offers, before, n),
        challenged(before, pick, after),
    ensures
        after.len() == before.len(),
        tops(order, offers.push(pick), after, m),
{
    let all = offers.push(pick);
    let k = before.len() as int;
    picks_stay_in_order(before, pick, after, order.key);
    let better = choose|better: bool| #[trigger]
        less(before.last().score, pick.score, better) && if better {
            exists|p: int| #[trigger] inserted(before, pick, p, after)
        } else {
            after == before
        };
    assert forall|j: int| 0 <= j < n implies all.contains(#[trigger] before[j]) by {
        let i = choose|i: int| 0 <= i < offers.len() && offers[i] == before[j];
        assert(all[i] == before[j]);
    }
    if !better {
        assert forall|i: int| 0 <= i < all.len() && order.counts(#[trigger] all[i]) implies among(
            after,
            n,
            all[i],
        ) || (n == after.len() && order.of(after.last()) >= order.of(all[i])) by {
            if i < offers.len() {
                assert(all[i] == offers[i]);
            } else {
                assert(all[i] == pick);
                assert(order.of(before[k - 1]) >= order.of(pick));
            }
        }
        n
    } else {
        let p = choose|p: int| #[trigger] inserted(before, pick, p, after);
        assert forall|j: int| 0 <= j < k implies #[trigger] after[j] == if j < p {
            before[j]
        } else if j == p {
            pick
        } else {
            before[j - 1]
        } by {}
        assert(order.of(before[k - 1]) >= order.floor) by {
            if k - 1 < n {
                assert(order.counts(before[k - 1]));
            }
        }
        assert(order.counts(pick));
        if p > 0 {
            assert(order.of(before[p - 1]) >= order.of(pick));
        }
        assert(p <= n);
        let m = if n < k {
            n + 1
        } else {
            k
        };
        assert(all[offers.len() as int] == pick);
        assert forall|j: int| 0 <= j < n implies (#[trigger] before[j]).id != pick.id by {
            let i = choose|i: int| 0 <= i < offers.len() && offers[i] == before[j];
            assert(all[i] == before[j]);
        }
        assert forall|j: int| 0 <= j < m implies order.counts(#[trigger] after[j]) && all.contains(
            after[j],
        ) by {
            if j == p {
                assert(after[j] == all[offers.len() as int]);
            } else if j < p {
                assert(after[j] == before[j]);
            } else {
                assert(after[j] == before[j - 1]);
            }
        }
        assert forall|j: int| m <= j < after.len() implies order.of(#[trigger] after[j])
            == order.floor by {
            assert(after[j] == before[j - 1]);
        }
        assert forall|i: int, j: int| 0 <= i < j < m implies (#[trigger] after[i]).id != (
        #[trigger] after[j]).id by {
            let a = if i < p {
                i
            } else {
                i - 1
            };
            let b = if j < p {
                j
            } else {
                j - 1
            };
            if i == p {
                assert(after[j] == before[b]);
            } else if j == p {
                assert(after[i] == before[a]);
            } else {
                assert(after[i] == before[a] && after[j] == before[b]);
            }
        }
        assert forall|i: int| 0 <= i < all.len() && order.counts(#[trigger] all[i]) implies among(
            after,
            m,
            all[i],
        ) || (m == after.len() && order.of(after.last()) >= order.of(all[i])) by {
            if i == offers.len() {
                assert(after[p] == all[i]);
            } else {
                assert(all[i] == offers[i]);
                if among(before, n, offers[i]) {
                    let j = choose|j: int| 0 <= j < n && #[trigger] before[j] == offers[i];
                    if j < p {
                        assert(after[j] == all[i]);
                    } else if j < k - 1 {
                        assert(after[j + 1] == all[i]);
                    } else {
                        assert(order.of(after[k - 1]) >= order.of(before[k - 1]));
                    }
                } else {
                    assert(order.of(after[k - 1]) >= order.of(before[k - 1]));
                }
            }
        }
        m
    }
}

/// Offers held against the best one after the other.
proof fn lemma_tops_all<T: Scalar>(
    order: Order<T>,
    offers: Seq<Pick<T>>,
    states: Seq<Seq<Pick<T>>>,
    k: nat,
    i: int,
) -> (n: int)
    requires
        order.holds(),
        k > 0,
        0 <= i <= offers.len(),
        states.len() == offers.len() + 1,
        unpicked(k, states[0]),
        offers_differ(order, offers),
        forall|j: int|
            0 <= j < offers.len() ==> challenged(#[trigger] states[j], offers[j], states[j + 1]),
    ensures
        states[i].len() == k,
        tops(order, offers.take(i), states[i], n),
    decreases i,
{
    if i == 0 {
        assert(offers.take(0) =~= seq![]);
        lemma_tops_nothing(order, states[0], k);
        0
    } else {
        let n = lemma_tops_all(order, offers, states, k, i - 1);
        assert(challenged(states[i - 1], offers[i - 1], states[i - 1 + 1]));
        assert(offers.take(i - 1).push(offers[i - 1]) =~= offers.take(i));
        lemma_tops_push(
            order,
            offers.take(i - 1),
            offers[i - 1],
            states[i - 1],
            states[i],
            n,
        )
    }
}

/// The tokens and what they are worth: their scores, lowered where they were seen.
pub struct Tokens<T> {
    pub logits: Seq<T>,
    pub seen: Seq<u8>,
    pub penalty: T,
    pub worth: Seq<T>,
}

impl<T: Scalar> Tokens<T> {
    /// What a token is worth is determined, a number, and above the lowest score.
    pub open spec fn valued(self, order: Order<T>) -> bool {
        &&& self.logits.len() <= u32::MAX
        &&& self.seen.len() == self.logits.len()
        &&& self.worth.len() == self.logits.len()
        &&& forall|i: int, r: T|
            0 <= i < self.logits.len() && #[trigger] penalized(
                self.logits[i],
                self.seen[i],
                self.penalty,
                r,
            ) ==> r == self.worth[i]
        &&& forall|i: int, r: bool|
            0 <= i < self.logits.len() && #[trigger] equals(self.worth[i], self.worth[i], r) ==> r
        &&& forall|i: int|
            0 <= i < self.worth.len() ==> (order.key)(#[trigger] self.worth[i]) > order.floor
    }

    /// A token as a pick.
    pub open spec fn pick(self, i: int) -> Pick<T> {
        Pick { score: self.worth[i], id: i as u32 }
    }

    /// The tokens of a range, as picks.
    pub open spec fn picks(self, start: int, end: int) -> Seq<Pick<T>> {
        Seq::new((end - start) as nat, |i: int| self.pick(start + i))
    }

    /// The number of blocks that look at the tokens.
    pub open spec fn blocks(self) -> int {
        (self.logits.len() + BLOCK_TOKENS - 1) / BLOCK_TOKENS as int
    }

    /// Where a block starts and ends.
    pub open spec fn start(self, block: int) -> int {
        block * BLOCK_TOKENS
    }

    pub open spec fn end(self, block: int) -> int {
        block_end(block, self.logits.len() as int)
    }

    /// `lists` are what the blocks picked.
    pub open spec fn first_stage(self, k: nat, lists: Seq<Seq<Pick<T>>>) -> bool {
        &&& lists.len() == self.blocks()
        &&& forall|b: int|
            0 <= b < lists.len() ==> scanned(
                self.logits,
                self.seen,
                self.penalty,
                k,
                self.start(b),
                self.end(b),
                #[trigger] lists[b],
            ) && lists[b].len() == k
    }
}

/// The scores and names behind one another are those of the lists.
pub open spec fn laid_out<T: Scalar>(
    lists: Seq<Seq<Pick<T>>>,
    k: nat,
    scores: Seq<T>,
    ids: Seq<T>,
) -> bool {
    &&& scores.len() == lists.len() * k
    &&& ids.len() == scores.len()
    &&& forall|i: int|
        0 <= i < scores.len() ==> #[trigger] scores[i] == lists[i / k as int][i % k as int].score
    &&& forall|i: int, r: u32|
        0 <= i < ids.len() && #[trigger] named(ids[i], r) ==> r == lists[i / k as int][i
            % k as int].id
}

/// The tokens of a block differ.
proof fn lemma_picks_differ<T: Scalar>(tokens: Tokens<T>, order: Order<T>, start: int, end: int)
    requires
        tokens.valued(order),
        0 <= start <= end <= tokens.logits.len(),
    ensures
        offers_differ(order, tokens.picks(start, end)),
{
}

/// What a block picks are the best of its tokens.
proof fn lemma_block_tops<T: Scalar>(
    tokens: Tokens<T>,
    order: Order<T>,
    k: nat,
    start: int,
    end: int,
    best: Seq<Pick<T>>,
) -> (n: int)
    requires
        order.holds(),
        tokens.valued(order),
        k > 0,
        0 <= start <= end <= tokens.logits.len(),
        scanned(tokens.logits, tokens.seen, tokens.penalty, k, start, end, best),
    ensures
        best.len() == k,
        tops(order, tokens.picks(start, end), best, n),
{
    let states = choose|states: Seq<Seq<Pick<T>>>| #[trigger]
        scan_states(tokens.logits, tokens.seen, tokens.penalty, k, start, end, states)
            && states[end - start] == best;
    let offers = tokens.picks(start, end);
    lemma_picks_differ(tokens, order, start, end);
    assert forall|j: int| 0 <= j < offers.len() implies challenged(
        #[trigger] states[j],
        offers[j],
        states[j + 1],
    ) by {
        assert(looked_at(
            tokens.logits[start + j],
            tokens.seen[start + j],
            tokens.penalty,
            (start + j) as u32,
            states[j],
            states[j + 1],
        ));
        let (score, number) = choose|score: T, number: bool|
            {
                &&& penalized(
                    tokens.logits[start + j],
                    tokens.seen[start + j],
                    tokens.penalty,
                    score,
                )
                &&& #[trigger] equals(score, score, number)
                &&& if number {
                    challenged(
                        states[j],
                        Pick { score, id: (start + j) as u32 },
                        states[j + 1],
                    )
                } else {
                    states[j + 1] == states[j]
                }
            };
        assert(score == tokens.worth[start + j]);
        assert(number);
        assert(offers[j] == (Pick { score, id: (start + j) as u32 }));
    }
    let n = lemma_tops_all(order, offers, states, k, offers.len() as int);
    assert(offers.take(offers.len() as int) =~= offers);
    n
}

/// A full list whose picks are all among another is that list.
proof fn lemma_full_lists<T: Scalar>(
    one: Seq<Pick<T>>,
    other: Seq<Pick<T>>,
    n: int,
)
    requires
        0 <= n <= other.len(),
        one.len() == other.len(),
        forall|i: int, j: int|
            0 <= i < j < one.len() ==> (#[trigger] one[i]).id != (#[trigger] one[j]).id,
        forall|i: int| 0 <= i < one.len() ==> among(other, n, #[trigger] one[i]),
    ensures
        n == other.len(),
        forall|j: int| 0 <= j < n ==> one.contains(#[trigger] other[j]),
{
    broadcast use vstd::seq_lib::seq_to_set_is_finite;

    let rest = other.take(n);
    assert(one.no_duplicates());
    one.unique_seq_to_set();
    rest.lemma_cardinality_of_set();
    assert(one.to_set().subset_of(rest.to_set())) by {
        assert forall|pick: Pick<T>| one.to_set().contains(pick) implies rest.to_set().contains(
            pick,
        ) by {
            let i = choose|i: int| 0 <= i < one.len() && one[i] == pick;
            assert(among(other, n, one[i]));
            let j = choose|j: int| 0 <= j < n && #[trigger] other[j] == one[i];
            assert(rest[j] == pick);
        }
    }
    vstd::set_lib::lemma_len_subset(one.to_set(), rest.to_set());
    vstd::set_lib::lemma_subset_equality(one.to_set(), rest.to_set());
    assert forall|j: int| 0 <= j < n implies one.contains(#[trigger] other[j]) by {
        assert(rest[j] == other[j]);
        assert(rest.to_set().contains(other[j]));
        assert(one.to_set().contains(other[j]));
    }
}

/// The picks of all blocks, behind one another.
pub open spec fn row<T>(lists: Seq<Seq<Pick<T>>>, k: nat) -> Seq<Pick<T>> {
    Seq::new(lists.len() * k, |i: int| lists[i / k as int][i % k as int])
}

/// Where a pick stands in the row.
proof fn lemma_in_row<T>(lists: Seq<Seq<Pick<T>>>, k: nat, b: int, j: int)
    requires
        k > 0,
        0 <= b < lists.len(),
        0 <= j < k,
    ensures
        0 <= b * k + j < lists.len() * k,
        row(lists, k)[b * k + j] == lists[b][j],
{
    let (n, w) = (lists.len() as int, k as int);
    assert(0 <= b * w + j < n * w) by (nonlinear_arith)
        requires
            0 <= b < n,
            0 <= j < w,
    ;
    assert((b * w + j) / w == b && (b * w + j) % w == j) by (nonlinear_arith)
        requires
            0 <= j < w,
            0 <= b,
    ;
}

/// Where a pick of the row comes from.
proof fn lemma_of_row(lists: int, k: int, i: int)
    requires
        k > 0,
        0 <= i < lists * k,
    ensures
        0 <= i / k < lists,
        0 <= i % k < k,
        i == i / k * k + i % k,
{
    vstd::arithmetic::div_mod::lemma_fundamental_div_mod(i, k);
    assert(0 <= i / k < lists) by (nonlinear_arith)
        requires
            k > 0,
            0 <= i < lists * k,
    ;
    assert(k * (i / k) == i / k * k) by (nonlinear_arith);
}

/// The extent of a block.
proof fn lemma_block<T: Scalar>(tokens: Tokens<T>, b: int)
    requires
        0 <= b < tokens.blocks(),
    ensures
        0 <= tokens.start(b) <= tokens.end(b) <= tokens.logits.len(),
        tokens.end(b) <= tokens.start(b + 1),
{
}

/// A pick that counts stands for a token of its block.
proof fn lemma_counted_pick<T: Scalar>(
    tokens: Tokens<T>,
    order: Order<T>,
    start: int,
    end: int,
    best: Seq<Pick<T>>,
    n: int,
    j: int,
) -> (t: int)
    requires
        0 <= start <= end <= tokens.logits.len(),
        tops(order, tokens.picks(start, end), best, n),
        0 <= j < best.len(),
        order.counts(best[j]),
    ensures
        j < n,
        start <= t < end,
        best[j] == tokens.pick(t),
{
    assert(j < n);
    let offers = tokens.picks(start, end);
    let i = choose|i: int| 0 <= i < offers.len() && offers[i] == best[j];
    start + i
}

/// The picks of all blocks differ.
proof fn lemma_row_differs<T: Scalar>(
    tokens: Tokens<T>,
    order: Order<T>,
    k: nat,
    lists: Seq<Seq<Pick<T>>>,
)
    requires
        order.holds(),
        tokens.valued(order),
        k > 0,
        tokens.first_stage(k, lists),
    ensures
        offers_differ(order, row(lists, k)),
{
    let offers = row(lists, k);
    assert forall|i: int, j: int|
        0 <= i < j < offers.len() && order.counts(#[trigger] offers[i]) && order.counts(
            #[trigger] offers[j],
        ) implies offers[i].id != offers[j].id by {
        let w = k as int;
        lemma_of_row(lists.len() as int, w, i);
        lemma_of_row(lists.len() as int, w, j);
        let (a, b) = (i / w, j / w);
        lemma_block(tokens, a);
        lemma_block(tokens, b);
        let n = lemma_block_tops(tokens, order, k, tokens.start(a), tokens.end(a), lists[a]);
        let m = lemma_block_tops(tokens, order, k, tokens.start(b), tokens.end(b), lists[b]);
        let s = lemma_counted_pick(
            tokens,
            order,
            tokens.start(a),
            tokens.end(a),
            lists[a],
            n,
            i % w,
        );
        let t = lemma_counted_pick(
            tokens,
            order,
            tokens.start(b),
            tokens.end(b),
            lists[b],
            m,
            j % w,
        );
        if a == b {
            assert(i % w < j % w);
            assert(lists[a][i % w].id != lists[a][j % w].id) by {
                let t2 = lemma_counted_pick(
                    tokens,
                    order,
                    tokens.start(a),
                    tokens.end(a),
                    lists[a],
                    n,
                    j % w,
                );
            }
        } else {
            assert(a < b) by (nonlinear_arith)
                requires
                    i < j,
                    a != b,
                    a == i / w,
                    b == j / w,
                    w > 0,
                    0 <= i,
            ;
            assert(tokens.start(a + 1) <= tokens.start(b));
        }
    }
}

/// What the second stage picks are the best of the picks of all blocks.
proof fn lemma_merge_tops<T: Scalar>(
    order: Order<T>,
    k: nat,
    lists: Seq<Seq<Pick<T>>>,
    scores: Seq<T>,
    ids: Seq<T>,
    best: Seq<Pick<T>>,
) -> (n: int)
    requires
        order.holds(),
        k > 0,
        offers_differ(order, row(lists, k)),
        laid_out(lists, k, scores, ids),
        merged(scores, ids, k, best),
    ensures
        best.len() == k,
        tops(order, row(lists, k), best, n),
{
    let offers = row(lists, k);
    let states = choose|states: Seq<Seq<Pick<T>>>| #[trigger]
        merge_states(scores, ids, k, scores.len() as int, states) && states.last() == best;
    assert forall|j: int| 0 <= j < offers.len() implies challenged(
        #[trigger] states[j],
        offers[j],
        states[j + 1],
    ) by {
        assert(merged_in(scores[j], ids[j], states[j], states[j + 1]));
        let id = choose|id: u32| #[trigger]
            named(ids[j], id) && challenged(
                states[j],
                Pick { score: scores[j], id },
                states[j + 1],
            );
        assert(offers[j] == (Pick { score: scores[j], id }));
    }
    let n = lemma_tops_all(order, offers, states, k, offers.len() as int);
    assert(offers.take(offers.len() as int) =~= offers);
    n
}

/// A token is among the best, or no better than the last of a full list.
proof fn lemma_token_placed<T: Scalar>(
    tokens: Tokens<T>,
    order: Order<T>,
    k: nat,
    lists: Seq<Seq<Pick<T>>>,
    best: Seq<Pick<T>>,
    n: int,
    t: int,
)
    requires
        order.holds(),
        tokens.valued(order),
        k > 0,
        best.len() == k,
        tokens.first_stage(k, lists),
        tops(order, row(lists, k), best, n),
        0 <= t < tokens.logits.len(),
    ensures
        among(best, n, tokens.pick(t)) || (n == best.len() && order.of(best.last()) >= order.of(
            tokens.pick(t),
        )),
{
    let b = t / BLOCK_TOKENS as int;
    let list = lists[b];
    let offers = row(lists, k);
    lemma_block(tokens, b);
    let m = lemma_block_tops(tokens, order, k, tokens.start(b), tokens.end(b), list);
    let mine = tokens.picks(tokens.start(b), tokens.end(b));
    assert(mine[t - tokens.start(b)] == tokens.pick(t));
    assert(order.counts(tokens.pick(t)));
    if among(list, m, tokens.pick(t)) {
        let j = choose|j: int| 0 <= j < m && #[trigger] list[j] == tokens.pick(t);
        lemma_in_row(lists, k, b, j);
        assert(offers[b * k + j] == tokens.pick(t));
    } else {
        assert(m == list.len() && order.of(list.last()) >= order.of(tokens.pick(t)));
        if forall|i: int| 0 <= i < list.len() ==> among(best, n, #[trigger] list[i]) {
            lemma_full_lists(list, best, n);
            assert(list.contains(best[n - 1]));
            let i = choose|i: int| 0 <= i < list.len() && list[i] == best[n - 1];
            assert(order.of(list[i]) >= order.of(list[list.len() - 1]));
        } else {
            let i = choose|i: int|
                0 <= i < list.len() && !among(best, n, #[trigger] list[i]);
            lemma_in_row(lists, k, b, i);
            assert(order.counts(list[i]));
            assert(offers[b * k + i] == list[i]);
            assert(order.of(list[i]) >= order.of(list[list.len() - 1]));
        }
    }
}

/// As many picks count as there are tokens, or as the list holds.
proof fn lemma_filled<T: Scalar>(
    tokens: Tokens<T>,
    order: Order<T>,
    best: Seq<Pick<T>>,
    n: int,
)
    requires
        tokens.valued(order),
        tops(order, tokens.picks(0, tokens.logits.len() as int), best, n),
    ensures
        n <= tokens.logits.len(),
        n < best.len() ==> n == tokens.logits.len(),
{
    broadcast use vstd::seq_lib::seq_to_set_is_finite;

    let all = tokens.picks(0, tokens.logits.len() as int);
    let some = best.take(n);
    assert(some.no_duplicates());
    some.unique_seq_to_set();
    assert(all.no_duplicates()) by {
        assert forall|i: int, j: int| 0 <= i < all.len() && 0 <= j < all.len() && i != j implies all[i]
            != all[j] by {
            assert(all[i].id == i && all[j].id == j);
        }
    }
    all.unique_seq_to_set();
    assert(some.to_set().subset_of(all.to_set())) by {
        assert forall|pick: Pick<T>| some.to_set().contains(pick) implies all.to_set().contains(
            pick,
        ) by {
            let j = choose|j: int| 0 <= j < some.len() && some[j] == pick;
            assert(best[j] == pick);
        }
    }
    vstd::set_lib::lemma_len_subset(some.to_set(), all.to_set());
    if n < best.len() {
        assert(all.to_set().subset_of(some.to_set())) by {
            assert forall|pick: Pick<T>| all.to_set().contains(pick) implies some.to_set().contains(
                pick,
            ) by {
                let i = choose|i: int| 0 <= i < all.len() && all[i] == pick;
                assert(order.counts(all[i]));
                let j = choose|j: int| 0 <= j < n && #[trigger] best[j] == all[i];
                assert(some[j] == pick);
            }
        }
        vstd::set_lib::lemma_len_subset(all.to_set(), some.to_set());
    }
}

/// The two stages together pick the best of all tokens: as many as are asked for or as
/// there are, from the best down, none twice, each with what it is worth; and no token
/// that is not picked is better than one that is.  This is stated for scores that are
/// numbers above the lowest and whose comparisons agree with a key.
pub proof fn two_stages_pick_the_best<T: Scalar>(
    tokens: Tokens<T>,
    order: Order<T>,
    k: nat,
    lists: Seq<Seq<Pick<T>>>,
    scores: Seq<T>,
    ids: Seq<T>,
    best: Seq<Pick<T>>,
) -> (n: int)
    requires
        order.holds(),
        tokens.valued(order),
        k > 0,
        tokens.first_stage(k, lists),
        laid_out(lists, k, scores, ids),
        merged(scores, ids, k, best),
    ensures
        best.len() == k,
        n == if k <= tokens.logits.len() {
            k as int
        } else {
            tokens.logits.len() as int
        },
        tops(order, tokens.picks(0, tokens.logits.len() as int), best, n),
{
    lemma_row_differs(tokens, order, k, lists);
    let n = lemma_merge_tops(order, k, lists, scores, ids, best);
    let all = tokens.picks(0, tokens.logits.len() as int);
    let offers = row(lists, k);
    assert forall|j: int| 0 <= j < n implies order.counts(#[trigger] best[j]) && all.contains(
        best[j],
    ) by {
        let i = choose|i: int| 0 <= i < offers.len() && offers[i] == best[j];
        let w = k as int;
        lemma_of_row(lists.len() as int, w, i);
        let b = i / w;
        lemma_block(tokens, b);
        let m = lemma_block_tops(tokens, order, k, tokens.start(b), tokens.end(b), lists[b]);
        let t = lemma_counted_pick(
            tokens,
            order,
            tokens.start(b),
            tokens.end(b),
            lists[b],
            m,
            i % w,
        );
        assert(all[t] == best[j]);
    }
    assert forall|i: int| 0 <= i < all.len() && order.counts(#[trigger] all[i]) implies among(
        best,
        n,
        all[i],
    ) || (n == best.len() && order.of(best.last()) >= order.of(all[i])) by {
        lemma_token_placed(tokens, order, k, lists, best, n, i);
        assert(all[i] == tokens.pick(i));
    }
    assert(tops(order, all, best, n));
    lemma_filled(tokens, order, best, n);
    n
}

} // verus!

//! Grouped-query attention, causal and optionally within a sliding window.

use crate::error::{Error, Failure, Result};
use crate::index::{lemma_flat, lemma_unflat};
use crate::scalar::{
    added, bottom, difference, dotted, exponentiated, extend, highest, lemma_added_push,
    lemma_dotted_push, lemma_highest_push, quotient, zero, Scalar,
};
use vstd::prelude::*;

verus! {

/// The sizes of an attention: `q_len` queries on `heads` heads against `kv_len` keys
/// and values on `kv_heads` heads.
pub struct Attention {
    pub q_len: nat,
    pub kv_len: nat,
    pub heads: nat,
    pub kv_heads: nat,
    pub head_dim: nat,
    pub window: Option<nat>,
}

impl Attention {
    /// Every group of heads shares a key head, and the queries are the last positions.
    pub open spec fn wf(self) -> bool {
        &&& self.heads > 0
        &&& self.kv_heads > 0
        &&& self.heads % self.kv_heads == 0
        &&& self.q_len <= self.kv_len
        &&& self.window != Some(0nat)
    }

    /// The sizes agree with the data, and can be counted.
    pub open spec fn fits(self, query: nat, key: nat, value: nat) -> bool {
        &&& self.wf()
        &&& self.q_len * self.heads <= usize::MAX
        &&& self.kv_len * self.kv_heads <= usize::MAX
        &&& query == self.q_len * self.heads * self.head_dim
        &&& key == self.kv_len * self.kv_heads * self.head_dim
        &&& value == key
    }

    /// The position that a query stands at.
    pub open spec fn position(self, q: int) -> int {
        self.kv_len - self.q_len + q
    }

    /// The first position that a query attends to.
    pub open spec fn first(self, q: int) -> int {
        match self.window {
            Some(window) => if self.position(q) + 1 > window {
                self.position(q) + 1 - window
            } else {
                0
            },
            None => 0,
        }
    }

    /// The number of positions that a query attends to.
    pub open spec fn span(self, q: int) -> nat {
        (self.position(q) + 1 - self.first(q)) as nat
    }

    /// The key head that a head attends on.
    pub open spec fn shared(self, head: int) -> int {
        head / (self.heads as int / self.kv_heads as int)
    }

    /// Where the query of a head starts.
    pub open spec fn query_at(self, q: int, head: int) -> int {
        (q * self.heads + head) * self.head_dim
    }

    /// Where the key, or the value, at a position starts for a head.
    pub open spec fn key_at(self, position: int, head: int) -> int {
        (position * self.kv_heads + self.shared(head)) * self.head_dim
    }
}

/// The elements of a query and a key, paired.
pub open spec fn matched<T>(a: Attention, query: Seq<T>, key: Seq<T>, q: int, head: int, p: int) -> Seq<
    (T, T),
> {
    Seq::new(
        a.head_dim,
        |d: int| (query[a.query_at(q, head) + d], key[a.key_at(p, head) + d]),
    )
}

/// `scores` are the products of a query with the keys that it attends to.
pub open spec fn scored<T: Scalar>(
    a: Attention,
    query: Seq<T>,
    key: Seq<T>,
    q: int,
    head: int,
    scores: Seq<T>,
) -> bool {
    &&& scores.len() == a.span(q)
    &&& forall|i: int|
        0 <= i < scores.len() ==> score_of(a, query, key, q, head, i, #[trigger] scores[i])
}

/// `score` is the product of a query with one key that it attends to.
pub open spec fn score_of<T: Scalar>(
    a: Attention,
    query: Seq<T>,
    key: Seq<T>,
    q: int,
    head: int,
    i: int,
    score: T,
) -> bool {
    exists|start: T|
        #[trigger] zero(start) && dotted(
            start,
            matched(a, query, key, q, head, a.first(q) + i),
            score,
        )
}

/// `r` is the exponential of `score` above `top`.
pub open spec fn weighted<T: Scalar>(score: T, top: T, r: T) -> bool {
    exists|gap: T| #[trigger] difference(score, top, gap) && exponentiated(gap, r)
}

/// `weights` are the exponentials of the scores above the largest, and `total` is
/// their sum.
pub open spec fn weighs<T: Scalar>(scores: Seq<T>, top: T, weights: Seq<T>, total: T) -> bool {
    &&& exists|low: T| #[trigger] bottom(low) && highest(low, scores, top)
    &&& weights.len() == scores.len()
    &&& forall|i: int|
        0 <= i < weights.len() ==> weighted(scores[i], top, #[trigger] weights[i])
    &&& exists|start: T| #[trigger] zero(start) && added(start, weights, total)
}

/// `shares` are the weights as parts of their sum.
pub open spec fn shared_out<T: Scalar>(weights: Seq<T>, total: T, shares: Seq<T>) -> bool {
    &&& shares.len() == weights.len()
    &&& forall|i: int|
        0 <= i < shares.len() ==> quotient(weights[i], total, #[trigger] shares[i])
}

/// The shares of a query paired with one dimension of the values.
pub open spec fn mixed<T>(
    a: Attention,
    value: Seq<T>,
    q: int,
    head: int,
    d: int,
    shares: Seq<T>,
) -> Seq<(T, T)> {
    Seq::new(
        shares.len(),
        |i: int| (shares[i], value[a.key_at(a.first(q) + i, head) + d]),
    )
}

/// What a query attends to, step by step.
#[verifier::ext_equal]
pub struct Focus<T> {
    pub scores: Seq<T>,
    pub top: T,
    pub weights: Seq<T>,
    pub total: T,
    pub shares: Seq<T>,
}

/// `focus` is a way in which a query on a head attends to the keys.
pub open spec fn focuses<T: Scalar>(
    a: Attention,
    query: Seq<T>,
    key: Seq<T>,
    q: int,
    head: int,
    focus: Focus<T>,
) -> bool {
    &&& scored(a, query, key, q, head, focus.scores)
    &&& weighs(focus.scores, focus.top, focus.weights, focus.total)
    &&& shared_out(focus.weights, focus.total, focus.shares)
}

/// `r` is one dimension of the values mixed by the shares.
pub open spec fn mixes<T: Scalar>(
    a: Attention,
    value: Seq<T>,
    q: int,
    head: int,
    d: int,
    shares: Seq<T>,
    r: T,
) -> bool {
    exists|start: T|
        #[trigger] zero(start) && dotted(start, mixed(a, value, q, head, d, shares), r)
}

/// `out` is the output of one query on one head.
pub open spec fn attends<T: Scalar>(
    a: Attention,
    query: Seq<T>,
    key: Seq<T>,
    value: Seq<T>,
    q: int,
    head: int,
    out: Seq<T>,
) -> bool {
    &&& out.len() == a.head_dim
    &&& exists|focus: Focus<T>|
        {
            &&& #[trigger] focuses(a, query, key, q, head, focus)
            &&& forall|d: int|
                0 <= d < out.len() ==> mixes(a, value, q, head, d, focus.shares, #[trigger] out[d])
        }
}

/// The output of one query on one head, in the output of all.
pub open spec fn portion<T>(a: Attention, output: Seq<T>, q: int, head: int) -> Seq<T> {
    output.subrange(a.query_at(q, head), a.query_at(q, head) + a.head_dim)
}

/// Both keys hold the same at the positions that a query attends to.
pub open spec fn agree<T>(a: Attention, one: Seq<T>, other: Seq<T>, q: int, head: int) -> bool {
    forall|p: int, d: int|
        #![trigger one[a.key_at(p, head) + d]]
        #![trigger other[a.key_at(p, head) + d]]
        a.first(q) <= p <= a.position(q) && 0 <= d < a.head_dim ==> one[a.key_at(p, head) + d]
            == other[a.key_at(p, head) + d]
}

/// Attention is causal and local: the output of a query depends on the keys and values
/// from the first position of its window up to its own position, and on no others.
pub proof fn attention_is_causal<T: Scalar>(
    a: Attention,
    query: Seq<T>,
    key: Seq<T>,
    value: Seq<T>,
    other_key: Seq<T>,
    other_value: Seq<T>,
    q: int,
    head: int,
    out: Seq<T>,
)
    requires
        a.wf(),
        0 <= q < a.q_len,
        agree(a, key, other_key, q, head),
        agree(a, value, other_value, q, head),
        attends(a, query, key, value, q, head, out),
    ensures
        attends(a, query, other_key, other_value, q, head, out),
        a.position(q) < a.kv_len,
        a.span(q) >= 1,
        a.window matches Some(window) ==> a.span(q) <= window,
{
    let focus = choose|focus: Focus<T>|
        {
            &&& #[trigger] focuses(a, query, key, q, head, focus)
            &&& forall|d: int|
                0 <= d < out.len() ==> mixes(a, value, q, head, d, focus.shares, #[trigger] out[d])
        };
    assert forall|i: int| 0 <= i < focus.scores.len() implies score_of(
        a,
        query,
        other_key,
        q,
        head,
        i,
        #[trigger] focus.scores[i],
    ) by {
        assert(score_of(a, query, key, q, head, i, focus.scores[i]));
        assert(matched(a, query, key, q, head, a.first(q) + i) =~= matched(
            a,
            query,
            other_key,
            q,
            head,
            a.first(q) + i,
        ));
    }
    assert(focuses(a, query, other_key, q, head, focus));
    assert forall|d: int| 0 <= d < out.len() implies mixes(
        a,
        other_value,
        q,
        head,
        d,
        focus.shares,
        #[trigger] out[d],
    ) by {
        assert(mixes(a, value, q, head, d, focus.shares, out[d]));
        assert(mixed(a, value, q, head, d, focus.shares) =~= mixed(
            a,
            other_value,
            q,
            head,
            d,
            focus.shares,
        ));
    }
}

/// The product of a query row and a key row.
fn row_product<T: Scalar>(
    query: &Vec<T>,
    key: &Vec<T>,
    query_at: usize,
    key_at: usize,
    len: usize,
    Ghost(pairs): Ghost<Seq<(T, T)>>,
) -> (r: T)
    requires
        query_at + len <= query.len(),
        key_at + len <= key.len(),
        pairs == Seq::new(
            len as nat,
            |d: int| (query@[query_at as int + d], key@[key_at as int + d]),
        ),
    ensures
        exists|start: T| #[trigger] zero(start) && dotted(start, pairs, r),
{
    let mut total = T::of_count(0);
    let ghost start = total;
    let mut d: usize = 0;
    assert(pairs.take(0) =~= Seq::<(T, T)>::empty());
    while d < len
        invariant
            d <= len,
            query_at + len <= query.len(),
            key_at + len <= key.len(),
            pairs == Seq::new(
                len as nat,
                |d: int| (query@[query_at as int + d], key@[key_at as int + d]),
            ),
            dotted(start, pairs.take(d as int), total),
        decreases len - d,
    {
        let left = query[query_at + d];
        let right = key[key_at + d];
        let part = left.times(right);
        let next = total.plus(part);
        proof {
            lemma_dotted_push(start, pairs.take(d as int), total, left, right, part, next);
            assert(pairs.take(d + 1) =~= pairs.take(d as int).push((left, right)));
        }
        total = next;
        d = d + 1;
    }
    assert(pairs.take(d as int) =~= pairs);
    assert(zero(start));
    total
}

/// Rows lie within the data.
proof fn lemma_rows(a: Attention, query: int, key: int, q: int, head: int, p: int)
    requires
        a.wf(),
        query == a.q_len * a.heads * a.head_dim,
        key == a.kv_len * a.kv_heads * a.head_dim,
        0 <= q < a.q_len,
        0 <= head < a.heads,
        0 <= p < a.kv_len,
    ensures
        0 <= q * a.heads + head < a.q_len * a.heads,
        0 <= a.shared(head) < a.kv_heads,
        0 <= p * a.kv_heads + a.shared(head) < a.kv_len * a.kv_heads,
        0 <= a.query_at(q, head),
        a.query_at(q, head) + a.head_dim <= query,
        0 <= a.key_at(p, head),
        a.key_at(p, head) + a.head_dim <= key,
{
    let heads = a.heads as int;
    let kv_heads = a.kv_heads as int;
    let dim = a.head_dim as int;
    let group = heads / kv_heads;
    vstd::arithmetic::div_mod::lemma_fundamental_div_mod(heads, kv_heads);
    assert(heads == kv_heads * group);
    assert(group > 0) by (nonlinear_arith)
        requires
            heads == kv_heads * group,
            heads > 0,
            kv_heads > 0,
    ;
    assert(kv_heads * group == group * kv_heads) by (nonlinear_arith);
    assert(group * kv_heads == kv_heads * group) by (nonlinear_arith);
    lemma_unflat(head, kv_heads, group);
    lemma_flat(q, a.q_len as int, head, heads);
    lemma_flat(p, a.kv_len as int, a.shared(head), kv_heads);
    let rows = a.q_len * heads;
    let row = q * heads + head;
    assert(0 <= row * dim && row * dim + dim <= rows * dim) by (nonlinear_arith)
        requires
            0 <= row < rows,
            0 <= dim,
    ;
    let lines = a.kv_len * kv_heads;
    let line = p * kv_heads + a.shared(head);
    assert(0 <= line * dim && line * dim + dim <= lines * dim) by (nonlinear_arith)
        requires
            0 <= line < lines,
            0 <= dim,
    ;
}

/// The largest score, the weights and their sum.
fn weigh<T: Scalar>(scores: &Vec<T>) -> (r: (T, Vec<T>, T))
    ensures
        weighs(scores@, r.0, r.1@, r.2),
{
    let mut top = T::lowest();
    let ghost low = top;
    let mut i: usize = 0;
    assert(scores@.take(0) =~= Seq::<T>::empty());
    while i < scores.len()
        invariant
            i <= scores.len(),
            highest(low, scores@.take(i as int), top),
        decreases scores.len() - i,
    {
        let next = top.larger(scores[i]);
        proof {
            lemma_highest_push(low, scores@.take(i as int), top, scores@[i as int], next);
            assert(scores@.take(i + 1) =~= scores@.take(i as int).push(scores@[i as int]));
        }
        top = next;
        i = i + 1;
    }
    assert(scores@.take(i as int) =~= scores@);
    let mut weights: Vec<T> = Vec::with_capacity(scores.len());
    let mut total = T::of_count(0);
    let ghost start = total;
    let mut i: usize = 0;
    while i < scores.len()
        invariant
            i <= scores.len(),
            weights@.len() == i,
            forall|j: int|
                0 <= j < i ==> weighted(scores@[j], top, #[trigger] weights@[j]),
            added(start, weights@, total),
        decreases scores.len() - i,
    {
        let gap = scores[i].minus(top);
        let weight = gap.exponential();
        let next = total.plus(weight);
        assert(difference(scores@[i as int], top, gap));
        proof {
            lemma_added_push(start, weights@, total, weight, next);
        }
        weights.push(weight);
        total = next;
        i = i + 1;
    }
    assert(bottom(low));
    assert(zero(start));
    (top, weights, total)
}

/// One dimension of the values mixed by the shares.
fn mix<T: Scalar>(
    value: &Vec<T>,
    shares: &Vec<T>,
    first: usize,
    kv_heads: usize,
    head_dim: usize,
    kv_head: usize,
    d: usize,
    Ghost(pairs): Ghost<Seq<(T, T)>>,
) -> (r: T)
    requires
        d < head_dim,
        kv_head < kv_heads,
        (first + shares@.len()) * kv_heads * head_dim <= value.len(),
        pairs == Seq::new(
            shares@.len(),
            |i: int|
                (shares@[i], value@[((first + i) * kv_heads + kv_head) * head_dim + d]),
        ),
    ensures
        exists|start: T| #[trigger] zero(start) && dotted(start, pairs, r),
{
    let mut total = T::of_count(0);
    let ghost start = total;
    let mut i: usize = 0;
    assert(pairs.take(0) =~= Seq::<(T, T)>::empty());
    while i < shares.len()
        invariant
            i <= shares.len(),
            d < head_dim,
            kv_head < kv_heads,
            (first + shares@.len()) * kv_heads * head_dim <= value.len(),
            pairs == Seq::new(
                shares@.len(),
                |i: int|
                    (shares@[i], value@[((first + i) * kv_heads + kv_head) * head_dim + d]),
            ),
            dotted(start, pairs.take(i as int), total),
        decreases shares.len() - i,
    {
        proof {
            let positions = first + shares@.len();
            lemma_flat(first + i, positions, kv_head as int, kv_heads as int);
            lemma_flat(
                (first + i) * kv_heads + kv_head,
                positions * kv_heads,
                d as int,
                head_dim as int,
            );
            assert(first + i < value.len());
        }
        let share = shares[i];
        let element = value[((first + i) * kv_heads + kv_head) * head_dim + d];
        let part = share.times(element);
        let next = total.plus(part);
        proof {
            lemma_dotted_push(start, pairs.take(i as int), total, share, element, part, next);
            assert(pairs.take(i + 1) =~= pairs.take(i as int).push((share, element)));
        }
        total = next;
        i = i + 1;
    }
    assert(pairs.take(i as int) =~= pairs);
    assert(zero(start));
    total
}

/// The output of one query on one head.
fn attend<T: Scalar>(
    query: &Vec<T>,
    key: &Vec<T>,
    value: &Vec<T>,
    q: usize,
    head: usize,
    first: usize,
    position: usize,
    heads: usize,
    kv_heads: usize,
    head_dim: usize,
    Ghost(a): Ghost<Attention>,
) -> (r: Vec<T>)
    requires
        a.fits(query@.len(), key@.len(), value@.len()),
        a.heads == heads,
        a.kv_heads == kv_heads,
        a.head_dim == head_dim,
        q < a.q_len,
        head < heads,
        first == a.first(q as int),
        position == a.position(q as int),
        query@.len() == query.len(),
        key@.len() == key.len(),
        value@.len() == value.len(),
    ensures
        attends(a, query@, key@, value@, q as int, head as int, r@),
{
    proof {
        lemma_rows(
            a,
            query@.len() as int,
            key@.len() as int,
            q as int,
            head as int,
            position as int,
        );
        vstd::arithmetic::div_mod::lemma_fundamental_div_mod(heads as int, kv_heads as int);
        assert(heads / kv_heads > 0) by (nonlinear_arith)
            requires
                heads == kv_heads * (heads / kv_heads),
                heads > 0,
                kv_heads > 0,
        ;
    }
    let group: usize = heads / kv_heads;
    let kv_head: usize = head / group;
    let query_at: usize = (q * heads + head) * head_dim;
    let mut scores: Vec<T> = Vec::new();
    let mut p: usize = first;
    while p <= position
        invariant
            first <= p <= position + 1,
            position < a.kv_len,
            a.kv_len * kv_heads <= usize::MAX,
            a.wf(),
            a.fits(query@.len(), key@.len(), value@.len()),
            a.heads == heads,
            a.kv_heads == kv_heads,
            a.head_dim == head_dim,
            q < a.q_len,
            head < heads,
            first == a.first(q as int),
            position == a.position(q as int),
            kv_head == a.shared(head as int),
            query_at == a.query_at(q as int, head as int),
            query@.len() == query.len(),
            key@.len() == key.len(),
            scores@.len() == p - first,
            forall|i: int|
                0 <= i < scores@.len() ==> score_of(
                    a,
                    query@,
                    key@,
                    q as int,
                    head as int,
                    i,
                    #[trigger] scores@[i],
                ),
        decreases position + 1 - p,
    {
        proof {
            lemma_rows(
                a,
                query@.len() as int,
                key@.len() as int,
                q as int,
                head as int,
                p as int,
            );
            assert(p <= p * kv_heads) by (nonlinear_arith)
                requires
                    kv_heads > 0,
            ;
        }
        let key_at: usize = (p * kv_heads + kv_head) * head_dim;
        let ghost pairs = matched(a, query@, key@, q as int, head as int, p as int);
        assert(pairs =~= Seq::new(
            head_dim as nat,
            |d: int| (query@[query_at as int + d], key@[key_at as int + d]),
        ));
        let score = row_product(query, key, query_at, key_at, head_dim, Ghost(pairs));
        assert(score_of(a, query@, key@, q as int, head as int, p - first, score));
        scores.push(score);
        assert(p < a.kv_len <= a.kv_len * kv_heads) by (nonlinear_arith)
            requires
                kv_heads > 0,
                p < a.kv_len,
        ;
        p = p + 1;
    }
    let (top, weights, total) = weigh(&scores);
    let mut shares: Vec<T> = Vec::with_capacity(weights.len());
    let mut i: usize = 0;
    while i < weights.len()
        invariant
            i <= weights.len(),
            shares@.len() == i,
            forall|j: int|
                0 <= j < i ==> quotient(weights@[j], total, #[trigger] shares@[j]),
        decreases weights.len() - i,
    {
        shares.push(weights[i].over(total));
        i = i + 1;
    }
    let ghost focus = Focus {
        scores: scores@,
        top,
        weights: weights@,
        total,
        shares: shares@,
    };
    assert(focuses(a, query@, key@, q as int, head as int, focus));
    let mut out: Vec<T> = Vec::with_capacity(head_dim);
    let mut d: usize = 0;
    proof {
        assert(first + shares@.len() == position + 1 <= a.kv_len);
        let some = (first + shares@.len()) as int;
        assert(some * kv_heads * head_dim <= a.kv_len * kv_heads * head_dim) by (nonlinear_arith)
            requires
                0 <= some <= a.kv_len,
                0 <= kv_heads,
                0 <= head_dim,
        ;
    }
    while d < head_dim
        invariant
            d <= head_dim,
            a.kv_heads == kv_heads,
            a.head_dim == head_dim,
            kv_head == a.shared(head as int),
            kv_head < kv_heads,
            first == a.first(q as int),
            focus.shares == shares@,
            (first + shares@.len()) * kv_heads * head_dim <= value.len(),
            out@.len() == d,
            forall|j: int|
                0 <= j < d ==> mixes(
                    a,
                    value@,
                    q as int,
                    head as int,
                    j,
                    focus.shares,
                    #[trigger] out@[j],
                ),
        decreases head_dim - d,
    {
        let ghost pairs = mixed(a, value@, q as int, head as int, d as int, shares@);
        assert(pairs =~= Seq::new(
            shares@.len(),
            |i: int|
                (shares@[i], value@[((first + i) * kv_heads + kv_head) * head_dim + d]),
        ));
        let element = mix(value, &shares, first, kv_heads, head_dim, kv_head, d, Ghost(pairs));
        assert(mixes(a, value@, q as int, head as int, d as int, focus.shares, element));
        out.push(element);
        d = d + 1;
    }
    out
}

/// The sizes as numbers.
pub open spec fn sizes(
    q_len: usize,
    kv_len: usize,
    heads: usize,
    kv_heads: usize,
    head_dim: usize,
    window: Option<usize>,
) -> Attention {
    Attention {
        q_len: q_len as nat,
        kv_len: kv_len as nat,
        heads: heads as nat,
        kv_heads: kv_heads as nat,
        head_dim: head_dim as nat,
        window: match window {
            Some(window) => Some(window as nat),
            None => None,
        },
    }
}

/// Whether a count is the product of three, of which the first two can be multiplied.
fn spans(len: usize, a: usize, b: usize, c: usize) -> (r: bool)
    ensures
        r == (a * b <= usize::MAX && len == a * b * c),
{
    match a.checked_mul(b) {
        Some(rows) => match rows.checked_mul(c) {
            Some(total) => len == total,
            None => false,
        },
        None => false,
    }
}

/// Causal attention of grouped heads.  The layouts are `[q, heads, dim]` for the
/// queries and `[kv, kv_heads, dim]` for the keys and the values.
pub fn grouped_query_attention<T: Scalar>(
    query: &Vec<T>,
    key: &Vec<T>,
    value: &Vec<T>,
    q_len: usize,
    kv_len: usize,
    heads: usize,
    kv_heads: usize,
    head_dim: usize,
    sliding_window: Option<usize>,
) -> (r: Result<Vec<T>>)
    ensures
        ({
            let a = sizes(q_len, kv_len, heads, kv_heads, head_dim, sliding_window);
            match r {
                Ok(output) => {
                    &&& a.fits(query@.len(), key@.len(), value@.len())
                    &&& output@.len() == query@.len()
                    &&& forall|q: int, head: int|
                        0 <= q < q_len && 0 <= head < heads ==> attends(
                            a,
                            query@,
                            key@,
                            value@,
                            q,
                            head,
                            #[trigger] portion(a, output@, q, head),
                        )
                },
                Err(error) => {
                    &&& !a.fits(query@.len(), key@.len(), value@.len())
                    &&& error@ == Failure::InvalidShape("invalid grouped-query attention shape"@)
                },
            }
        }),
{
    let ghost a = sizes(q_len, kv_len, heads, kv_heads, head_dim, sliding_window);
    let blind = match sliding_window {
        Some(window) => window == 0,
        None => false,
    };
    if heads == 0 || kv_heads == 0 || heads % kv_heads != 0 || q_len > kv_len || !spans(
        query.len(),
        q_len,
        heads,
        head_dim,
    ) || !spans(key.len(), kv_len, kv_heads, head_dim) || value.len() != key.len() || blind {
        return Err(Error::shape("invalid grouped-query attention shape"));
    }
    assert(a.fits(query@.len(), key@.len(), value@.len()));
    let mut output: Vec<T> = Vec::with_capacity(query.len());
    let mut q: usize = 0;
    assert(0 * heads * head_dim == 0) by (nonlinear_arith);
    while q < q_len
        invariant
            q <= q_len,
            a == sizes(q_len, kv_len, heads, kv_heads, head_dim, sliding_window),
            a.fits(query@.len(), key@.len(), value@.len()),
            output@.len() == q * heads * head_dim,
            forall|i: int, head: int|
                0 <= i < q && 0 <= head < heads ==> attends(
                    a,
                    query@,
                    key@,
                    value@,
                    i,
                    head,
                    #[trigger] portion(a, output@, i, head),
                ),
        decreases q_len - q,
    {
        let position: usize = kv_len - q_len + q;
        let first: usize = match sliding_window {
            Some(window) => if position >= window {
                position - window + 1
            } else {
                0
            },
            None => 0,
        };
        assert(first == a.first(q as int));
        let mut head: usize = 0;
        assert((q * heads + 0) * head_dim == q * heads * head_dim);
        while head < heads
            invariant
                head <= heads,
                q < q_len,
                a == sizes(q_len, kv_len, heads, kv_heads, head_dim, sliding_window),
                a.fits(query@.len(), key@.len(), value@.len()),
                first == a.first(q as int),
                position == a.position(q as int),
                output@.len() == (q * heads + head) * head_dim,
                forall|i: int, h: int|
                    (0 <= i < q && 0 <= h < heads) || (i == q && 0 <= h < head) ==> attends(
                        a,
                        query@,
                        key@,
                        value@,
                        i,
                        h,
                        #[trigger] portion(a, output@, i, h),
                    ),
            decreases heads - head,
        {
            let ghost before = output@;
            let out = attend(
                query,
                key,
                value,
                q,
                head,
                first,
                position,
                heads,
                kv_heads,
                head_dim,
                Ghost(a),
            );
            extend(&mut output, &out);
            proof {
                let row = (q * heads + head) as int;
                assert(row * head_dim + head_dim == (row + 1) * head_dim) by (nonlinear_arith);
                assert(portion(a, output@, q as int, head as int) =~= out@);
                assert forall|i: int, h: int|
                    (0 <= i < q && 0 <= h < heads) || (i == q && 0 <= h < head) implies attends(
                    a,
                    query@,
                    key@,
                    value@,
                    i,
                    h,
                    #[trigger] portion(a, output@, i, h),
                ) by {
                    let other = i * heads + h;
                    assert(0 <= other && other + 1 <= row) by (nonlinear_arith)
                        requires
                            row == q * heads + head,
                            other == i * heads + h,
                            (0 <= i < q && 0 <= h < heads) || (i == q && 0 <= h < head),
                    ;
                    assert(0 <= other * head_dim && other * head_dim + head_dim <= row * head_dim)
                        by (nonlinear_arith)
                        requires
                            0 <= other,
                            other + 1 <= row,
                            0 <= head_dim,
                    ;
                    assert(portion(a, output@, i, h) =~= portion(a, before, i, h));
                }
            }
            head = head + 1;
        }
        assert(q * heads + heads == (q + 1) * heads) by (nonlinear_arith);
        q = q + 1;
    }
    Ok(output)
}

/// Two attentions show a query the same keys and values.
spec fn shows_alike<T>(
    a: Attention,
    b: Attention,
    q: int,
    p: int,
    head: int,
    query: (Seq<T>, Seq<T>),
    key: (Seq<T>, Seq<T>),
    value: (Seq<T>, Seq<T>),
) -> bool {
    &&& a.head_dim == b.head_dim
    &&& a.first(q) == b.first(p)
    &&& a.span(q) == b.span(p)
    &&& forall|i: int|
        0 <= i < a.span(q) ==> #[trigger] matched(a, query.0, key.0, q, head, a.first(q) + i)
            == matched(b, query.1, key.1, p, head, b.first(p) + i)
    &&& forall|i: int, d: int|
        0 <= i < a.span(q) && 0 <= d < a.head_dim ==> #[trigger] value.0[a.key_at(
            a.first(q) + i,
            head,
        ) + d] == value.1[b.key_at(b.first(p) + i, head) + d]
}

/// What a query gives depends on what it is shown.
proof fn lemma_attends_alike<T: Scalar>(
    a: Attention,
    b: Attention,
    q: int,
    p: int,
    head: int,
    query: (Seq<T>, Seq<T>),
    key: (Seq<T>, Seq<T>),
    value: (Seq<T>, Seq<T>),
    out: Seq<T>,
)
    requires
        shows_alike(a, b, q, p, head, query, key, value),
        attends(a, query.0, key.0, value.0, q, head, out),
    ensures
        attends(b, query.1, key.1, value.1, p, head, out),
{
    let focus = choose|focus: Focus<T>|
        {
            &&& #[trigger] focuses(a, query.0, key.0, q, head, focus)
            &&& forall|d: int|
                0 <= d < out.len() ==> mixes(
                    a,
                    value.0,
                    q,
                    head,
                    d,
                    focus.shares,
                    #[trigger] out[d],
                )
        };
    assert forall|i: int| 0 <= i < focus.scores.len() implies score_of(
        b,
        query.1,
        key.1,
        p,
        head,
        i,
        #[trigger] focus.scores[i],
    ) by {
        assert(score_of(a, query.0, key.0, q, head, i, focus.scores[i]));
        assert(matched(a, query.0, key.0, q, head, a.first(q) + i) == matched(
            b,
            query.1,
            key.1,
            p,
            head,
            b.first(p) + i,
        ));
    }
    assert(focuses(b, query.1, key.1, p, head, focus));
    assert forall|d: int| 0 <= d < out.len() implies mixes(
        b,
        value.1,
        p,
        head,
        d,
        focus.shares,
        #[trigger] out[d],
    ) by {
        assert(mixes(a, value.0, q, head, d, focus.shares, out[d]));
        assert(mixed(a, value.0, q, head, d, focus.shares) =~= mixed(
            b,
            value.1,
            p,
            head,
            d,
            focus.shares,
        )) by {
            assert forall|i: int| 0 <= i < focus.shares.len() implies #[trigger] value.0[a.key_at(
                a.first(q) + i,
                head,
            ) + d] == value.1[b.key_at(b.first(p) + i, head) + d] by {
                assert(i < a.span(q));
            }
        }
    }
}

/// A window that is as wide as the keys leaves nothing out: attention within it is
/// attention without one.
pub proof fn wide_windows_leave_nothing_out<T: Scalar>(
    a: Attention,
    query: Seq<T>,
    key: Seq<T>,
    value: Seq<T>,
    q: int,
    head: int,
    out: Seq<T>,
)
    requires
        a.wf(),
        0 <= q < a.q_len,
        a.window matches Some(window) && window >= a.kv_len,
    ensures
        attends(a, query, key, value, q, head, out) == attends(
            (Attention { window: None, ..a }),
            query,
            key,
            value,
            q,
            head,
            out,
        ),
{
    let b = Attention { window: None, ..a };
    assert(a.first(q) == 0 && b.first(q) == 0);
    assert forall|i: int| 0 <= i < a.span(q) implies #[trigger] matched(
        a,
        query,
        key,
        q,
        head,
        a.first(q) + i,
    ) == matched(b, query, key, q, head, b.first(q) + i) by {
        assert(matched(a, query, key, q, head, a.first(q) + i) =~= matched(
            b,
            query,
            key,
            q,
            head,
            b.first(q) + i,
        ));
    }
    assert(shows_alike(a, b, q, q, head, (query, query), (key, key), (value, value)));
    assert(shows_alike(b, a, q, q, head, (query, query), (key, key), (value, value))) by {
        assert forall|i: int| 0 <= i < b.span(q) implies #[trigger] matched(
            b,
            query,
            key,
            q,
            head,
            b.first(q) + i,
        ) == matched(a, query, key, q, head, a.first(q) + i) by {
            assert(matched(a, query, key, q, head, a.first(q) + i) == matched(
                b,
                query,
                key,
                q,
                head,
                b.first(q) + i,
            ));
        }
    }
    if attends(a, query, key, value, q, head, out) {
        lemma_attends_alike(a, b, q, q, head, (query, query), (key, key), (value, value), out);
    }
    if attends(b, query, key, value, q, head, out) {
        lemma_attends_alike(b, a, q, q, head, (query, query), (key, key), (value, value), out);
    }
}

/// The attention of the last query alone, over the keys up to its own.
pub open spec fn alone(a: Attention, q: int) -> Attention {
    Attention { q_len: 1, kv_len: (a.position(q) + 1) as nat, ..a }
}

/// The queries at one position.
pub open spec fn query_row<T>(a: Attention, query: Seq<T>, q: int) -> Seq<T> {
    query.subrange(q * a.heads * a.head_dim, (q + 1) * a.heads * a.head_dim)
}

/// The keys, or the values, up to the position of a query.
pub open spec fn keys_up_to<T>(a: Attention, key: Seq<T>, q: int) -> Seq<T> {
    key.take((a.position(q) + 1) * a.kv_heads * a.head_dim)
}

/// What a query gives among others, it gives alone: decoding a token after the others is
/// the same as decoding it with them.
pub proof fn queries_attend_alone<T: Scalar>(
    a: Attention,
    query: Seq<T>,
    key: Seq<T>,
    value: Seq<T>,
    q: int,
    head: int,
    out: Seq<T>,
)
    requires
        a.fits(query.len(), key.len(), value.len()),
        0 <= q < a.q_len,
        0 <= head < a.heads,
    ensures
        attends(a, query, key, value, q, head, out) == attends(
            alone(a, q),
            query_row(a, query, q),
            keys_up_to(a, key, q),
            keys_up_to(a, value, q),
            0,
            head,
            out,
        ),
{
    let b = alone(a, q);
    let row = query_row(a, query, q);
    let keys = keys_up_to(a, key, q);
    let values = keys_up_to(a, value, q);
    assert(a.first(q) == b.first(0) && a.span(q) == b.span(0));
    lemma_row_bounds(a, q, head);
    assert forall|i: int, d: int|
        0 <= i < a.span(q) && 0 <= d < a.head_dim implies #[trigger] keys[b.key_at(
        b.first(0) + i,
        head,
    ) + d] == key[a.key_at(a.first(q) + i, head) + d] && values[b.key_at(
        b.first(0) + i,
        head,
    ) + d] == value[a.key_at(a.first(q) + i, head) + d] by {
        lemma_key_bounds(a, q, head, a.first(q) + i, d);
    }
    assert forall|i: int| 0 <= i < a.span(q) implies matched(
        a,
        query,
        key,
        q,
        head,
        a.first(q) + i,
    ) == #[trigger] matched(b, row, keys, 0, head, b.first(0) + i) by {
        assert forall|d: int| 0 <= d < a.head_dim implies #[trigger] matched(
            a,
            query,
            key,
            q,
            head,
            a.first(q) + i,
        )[d] == matched(b, row, keys, 0, head, b.first(0) + i)[d] by {
            assert(keys[b.key_at(b.first(0) + i, head) + d] == key[a.key_at(a.first(q) + i, head)
                + d]);
            assert(row[b.query_at(0, head) + d] == query[a.query_at(q, head) + d]);
        }
        assert(matched(a, query, key, q, head, a.first(q) + i) =~= matched(
            b,
            row,
            keys,
            0,
            head,
            b.first(0) + i,
        ));
    }
    assert(shows_alike(a, b, q, 0, head, (query, row), (key, keys), (value, values))) by {
        assert forall|i: int, d: int| 0 <= i < a.span(q) && 0 <= d < a.head_dim implies #[trigger]
            value[a.key_at(a.first(q) + i, head) + d] == values[b.key_at(b.first(0) + i, head) + d] by {
            lemma_key_bounds(a, q, head, a.first(q) + i, d);
        }
        assert forall|i: int| 0 <= i < a.span(q) implies #[trigger] matched(
            a,
            query,
            key,
            q,
            head,
            a.first(q) + i,
        ) == matched(b, row, keys, 0, head, b.first(0) + i) by {
            assert(matched(b, row, keys, 0, head, b.first(0) + i) == matched(
                a,
                query,
                key,
                q,
                head,
                a.first(q) + i,
            ));
        }
    }
    assert(shows_alike(b, a, 0, q, head, (row, query), (keys, key), (values, value))) by {
        assert forall|i: int, d: int| 0 <= i < b.span(0) && 0 <= d < b.head_dim implies #[trigger]
            values[b.key_at(b.first(0) + i, head) + d] == value[a.key_at(a.first(q) + i, head) + d] by {
            lemma_key_bounds(a, q, head, a.first(q) + i, d);
        }
    }
    if attends(a, query, key, value, q, head, out) {
        lemma_attends_alike(a, b, q, 0, head, (query, row), (key, keys), (value, values), out);
    }
    if attends(b, row, keys, values, 0, head, out) {
        lemma_attends_alike(b, a, 0, q, head, (row, query), (keys, key), (values, value), out);
    }
}

/// Where the queries of a position stand.
proof fn lemma_row_bounds(a: Attention, q: int, head: int)
    requires
        0 <= q < a.q_len,
        0 <= head < a.heads,
    ensures
        a.query_at(q, head) == q * a.heads * a.head_dim + head * a.head_dim,
        alone(a, q).query_at(0, head) == head * a.head_dim,
        0 <= head * a.head_dim,
        head * a.head_dim + a.head_dim <= a.heads * a.head_dim,
        0 <= q * a.heads * a.head_dim,
        (q + 1) * a.heads * a.head_dim == q * a.heads * a.head_dim + a.heads * a.head_dim,
        (q + 1) * a.heads * a.head_dim <= a.q_len * a.heads * a.head_dim,
{
    let (n, h, w, l) = (a.q_len as int, a.heads as int, a.head_dim as int, q);
    assert((l * h + head) * w == l * h * w + head * w) by (nonlinear_arith);
    assert((0 * h + head) * w == head * w) by (nonlinear_arith);
    assert(0 <= head * w && head * w + w <= h * w && 0 <= l * h * w) by (nonlinear_arith)
        requires
            0 <= head < h,
            0 <= w,
            0 <= l,
    ;
    assert((l + 1) * h * w == l * h * w + h * w) by (nonlinear_arith);
    assert((l + 1) * h * w <= n * h * w) by (nonlinear_arith)
        requires
            l + 1 <= n,
            0 <= h,
            0 <= w,
    ;
}

/// A key that a query attends to stands among the keys up to its own.
proof fn lemma_key_bounds(a: Attention, q: int, head: int, p: int, d: int)
    requires
        a.wf(),
        0 <= q < a.q_len,
        0 <= head < a.heads,
        0 <= p <= a.position(q),
        0 <= d < a.head_dim,
    ensures
        alone(a, q).key_at(p, head) == a.key_at(p, head),
        0 <= a.key_at(p, head) + d < (a.position(q) + 1) * a.kv_heads * a.head_dim,
        (a.position(q) + 1) * a.kv_heads * a.head_dim <= a.kv_len * a.kv_heads * a.head_dim,
{
    let b = alone(a, q);
    lemma_rows(
        b,
        (b.q_len * b.heads * b.head_dim) as int,
        (b.kv_len * b.kv_heads * b.head_dim) as int,
        0,
        head,
        p,
    );
    let (k, w, top) = (a.kv_heads as int, a.head_dim as int, a.position(q) + 1);
    let all = a.kv_len as int;
    assert(top * k * w <= all * k * w) by (nonlinear_arith)
        requires
            top <= all,
            0 <= k,
            0 <= w,
    ;
}

} // verus!

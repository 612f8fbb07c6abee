//! What each thread of the attention kernels of a language model computes.
//!
//! Keys and values stand in a ring of rows, one row for each position.

use crate::cuda::loss_kernels::{climbed, lemma_climbed_push, summit};
use crate::forward::{dot_product, summed};
use crate::index::lemma_flat;
use crate::models::attention::weighted;
use crate::scalar::{
    added, bottom, difference, dotted, exponentiated, lemma_added_push, lemma_dotted_push,
    quotient, zero, Scalar,
};
use vstd::prelude::*;

verus! {

/// The heads of an attention: those of the queries, those of the keys and values, and
/// the size of each.
#[derive(Clone, Copy, Debug, PartialEq, Eq, Structural)]
pub struct Heads {
    pub heads: usize,
    pub kv_heads: usize,
    pub head_dim: usize,
}

/// The ring in which keys and values stand: the row of the first position that is kept,
/// and the number of rows.
#[derive(Clone, Copy, Debug, PartialEq, Eq, Structural)]
pub struct Ring {
    pub start: usize,
    pub capacity: usize,
}

impl Heads {
    /// Every key head serves the same number of heads.
    pub open spec fn wf(self) -> bool {
        &&& self.heads > 0
        &&& self.kv_heads > 0
        &&& self.heads % self.kv_heads == 0
    }

    /// The key head of a head.
    pub open spec fn shared(self, head: int) -> int {
        head / (self.heads as int / self.kv_heads as int)
    }

    /// The elements of one position of the keys.
    pub open spec fn row(self) -> int {
        self.kv_heads * self.head_dim
    }
}

impl Ring {
    /// The row of a position, counted from the first that is kept.
    pub open spec fn slot(self, position: int) -> int {
        (self.start + position) % self.capacity as int
    }

    /// The row of a position can be counted.
    pub open spec fn holds(self, sequence: int) -> bool {
        &&& self.capacity > 0
        &&& self.start + sequence <= usize::MAX
    }
}

/// Where the key, or the value, of a position starts.
pub open spec fn key_start(h: Heads, ring: Ring, kv_head: int, position: int) -> int {
    (ring.slot(position) * h.kv_heads + kv_head) * h.head_dim
}

/// The elements of a query and of the key at a position, paired.
pub open spec fn paired<T>(
    h: Heads,
    ring: Ring,
    query: Seq<T>,
    at: int,
    keys: Seq<T>,
    kv_head: int,
    position: int,
) -> Seq<(T, T)> {
    Seq::new(
        h.head_dim as nat,
        |d: int| (query[at + d], keys[key_start(h, ring, kv_head, position) + d]),
    )
}

/// `scores` are the products of a query with the keys at the positions from `first` on.
pub open spec fn scores_of<T: Scalar>(
    h: Heads,
    ring: Ring,
    query: Seq<T>,
    at: int,
    keys: Seq<T>,
    kv_head: int,
    first: int,
    scores: Seq<T>,
) -> bool {
    forall|i: int|
        0 <= i < scores.len() ==> dot_product(
            paired(h, ring, query, at, keys, kv_head, first + i),
            #[trigger] scores[i],
        )
}

/// `weights` are the exponentials of the scores above `top`.
pub open spec fn weights_of<T: Scalar>(scores: Seq<T>, top: T, weights: Seq<T>) -> bool {
    &&& weights.len() == scores.len()
    &&& forall|i: int|
        0 <= i < weights.len() ==> weighted(scores[i], top, #[trigger] weights[i])
}

/// The weights paired with one dimension of the values at the positions from `first` on.
pub open spec fn blends<T>(
    h: Heads,
    ring: Ring,
    values: Seq<T>,
    kv_head: int,
    first: int,
    d: int,
    weights: Seq<T>,
) -> Seq<(T, T)> {
    Seq::new(
        weights.len(),
        |i: int| (weights[i], values[key_start(h, ring, kv_head, first + i) + d]),
    )
}

/// The first position that is attended to: of the last `window`, or of all.
pub open spec fn first_visible(sequence: int, window: int) -> int {
    if window == 0 || sequence <= window {
        0
    } else {
        sequence - window
    }
}

/// The first position that is attended to.
pub fn first_position(sequence: usize, window: usize) -> (r: usize)
    ensures
        r == first_visible(sequence as int, window as int),
        r <= sequence,
{
    if window == 0 || sequence <= window {
        0
    } else {
        sequence - window
    }
}

/// What attention reads: a query, and the keys and values of the positions before
/// `sequence`.
pub open spec fn readable(
    h: Heads,
    ring: Ring,
    sequence: int,
    query: nat,
    at: int,
    kv_head: int,
    keys: nat,
    values: nat,
) -> bool {
    &&& h.wf()
    &&& ring.holds(sequence)
    &&& 0 <= kv_head < h.kv_heads
    &&& 0 <= at
    &&& at + h.head_dim <= query <= usize::MAX
    &&& ring.capacity * h.kv_heads * h.head_dim <= keys <= usize::MAX
    &&& values == keys
}

/// The key at a position lies in the cache.
proof fn lemma_key_inside(h: Heads, ring: Ring, kv_head: int, position: int, keys: int)
    requires
        h.wf(),
        ring.capacity > 0,
        0 <= kv_head < h.kv_heads,
        ring.capacity * h.kv_heads * h.head_dim <= keys,
    ensures
        0 <= ring.slot(position) < ring.capacity,
        0 <= ring.slot(position) * h.kv_heads,
        ring.slot(position) * h.kv_heads + kv_head < ring.capacity * h.kv_heads,
        0 <= key_start(h, ring, kv_head, position),
        key_start(h, ring, kv_head, position) + h.head_dim <= keys,
        h.head_dim > 0 ==> ring.slot(position) * h.kv_heads + kv_head <= keys,
{
    let slot = ring.slot(position);
    assert(0 <= slot < ring.capacity) by (nonlinear_arith)
        requires
            slot == (ring.start + position) % (ring.capacity as int),
            ring.capacity > 0,
    ;
    lemma_flat(slot, ring.capacity as int, kv_head, h.kv_heads as int);
    let row = slot * h.kv_heads + kv_head;
    let rows = ring.capacity * h.kv_heads;
    assert(0 <= row * h.head_dim && row * h.head_dim + h.head_dim <= rows * h.head_dim)
        by (nonlinear_arith)
        requires
            0 <= row < rows,
    ;
    if h.head_dim > 0 {
        assert(row <= row * h.head_dim) by (nonlinear_arith)
            requires
                0 <= row,
                h.head_dim >= 1,
        ;
    }
}

/// The product of a query with the key at a position.
fn score<T: Scalar>(
    h: Heads,
    ring: Ring,
    query: &[T],
    at: usize,
    keys: &[T],
    kv_head: usize,
    position: usize,
    Ghost(sequence): Ghost<int>,
) -> (r: T)
    requires
        position < sequence,
        readable(
            h,
            ring,
            sequence,
            query@.len(),
            at as int,
            kv_head as int,
            keys@.len(),
            keys@.len(),
        ),
    ensures
        dot_product(
            paired(h, ring, query@, at as int, keys@, kv_head as int, position as int),
            r,
        ),
{
    let ghost pairs = paired(h, ring, query@, at as int, keys@, kv_head as int, position as int);
    proof {
        lemma_key_inside(h, ring, kv_head as int, position as int, keys@.len() as int);
    }
    let first = T::of_count(0);
    let mut total = first;
    let mut inner: usize = 0;
    assert(pairs.take(0) =~= Seq::<(T, T)>::empty());
    while inner < h.head_dim
        invariant
            inner <= h.head_dim,
            position < sequence,
            readable(
                h,
                ring,
                sequence,
                query@.len(),
                at as int,
                kv_head as int,
                keys@.len(),
                keys@.len(),
            ),
            0 <= ring.slot(position as int) < ring.capacity,
            0 <= ring.slot(position as int) * h.kv_heads,
            ring.slot(position as int) * h.kv_heads + kv_head < ring.capacity * h.kv_heads,
            0 <= key_start(h, ring, kv_head as int, position as int),
            key_start(h, ring, kv_head as int, position as int) + h.head_dim <= keys@.len(),
            h.head_dim > 0 ==> ring.slot(position as int) * h.kv_heads + kv_head <= keys@.len(),
            pairs == paired(h, ring, query@, at as int, keys@, kv_head as int, position as int),
            dotted(first, pairs.take(inner as int), total),
        decreases h.head_dim - inner,
    {
        let physical: usize = (ring.start + position) % ring.capacity;
        assert(physical == ring.slot(position as int));
        let row: usize = physical * h.kv_heads + kv_head;
        let left = query[at + inner];
        let right = keys[row * h.head_dim + inner];
        let part = left.times(right);
        let next = total.plus(part);
        proof {
            lemma_dotted_push(first, pairs.take(inner as int), total, left, right, part, next);
            assert(pairs.take(inner + 1) =~= pairs.take(inner as int).push((left, right)));
        }
        total = next;
        inner = inner + 1;
    }
    assert(pairs.take(h.head_dim as int) =~= pairs);
    assert(zero(first));
    total
}

/// The scores of a query, and the highest of them.
fn scores<T: Scalar>(
    h: Heads,
    ring: Ring,
    query: &[T],
    at: usize,
    keys: &[T],
    kv_head: usize,
    first: usize,
    sequence: usize,
) -> (r: (Vec<T>, T))
    requires
        first <= sequence,
        readable(
            h,
            ring,
            sequence as int,
            query@.len(),
            at as int,
            kv_head as int,
            keys@.len(),
            keys@.len(),
        ),
    ensures
        r.0@.len() == sequence - first,
        scores_of(h, ring, query@, at as int, keys@, kv_head as int, first as int, r.0@),
        summit(r.0@, r.1),
{
    let low = T::lowest();
    let mut top = low;
    let mut found: Vec<T> = Vec::new();
    let mut position: usize = first;
    while position < sequence
        invariant
            first <= position <= sequence,
            readable(
                h,
                ring,
                sequence as int,
                query@.len(),
                at as int,
                kv_head as int,
                keys@.len(),
                keys@.len(),
            ),
            found@.len() == position - first,
            scores_of(h, ring, query@, at as int, keys@, kv_head as int, first as int, found@),
            climbed(low, found@, top),
        decreases sequence - position,
    {
        let value = score(
            h,
            ring,
            query,
            at,
            keys,
            kv_head,
            position,
            Ghost(sequence as int),
        );
        let higher = top.below(value);
        proof {
            lemma_climbed_push(low, found@, top, value, higher);
        }
        let ghost before = found@;
        found.push(value);
        assert forall|i: int| 0 <= i < found@.len() implies dot_product(
            paired(h, ring, query@, at as int, keys@, kv_head as int, first + i),
            #[trigger] found@[i],
        ) by {
            if i < before.len() {
                assert(found@[i] == before[i]);
            }
        }
        if higher {
            top = value;
        }
        position = position + 1;
    }
    assert(bottom(low));
    (found, top)
}

/// `r` are the weights of a query and their sum: its scores, the highest of them, the
/// exponentials above it.
pub open spec fn probable<T: Scalar>(
    h: Heads,
    ring: Ring,
    query: Seq<T>,
    at: int,
    keys: Seq<T>,
    kv_head: int,
    first: int,
    sequence: int,
    weights: Seq<T>,
    total: T,
) -> bool {
    exists|scores: Seq<T>, top: T|
        {
            &&& scores.len() == sequence - first
            &&& scores_of(h, ring, query, at, keys, kv_head, first, scores)
            &&& #[trigger] summit(scores, top)
            &&& weights_of(scores, top, weights)
            &&& summed(weights, total)
        }
}

/// The weights of a query, computed once for all dimensions of a head, and their sum.
pub fn block_probabilities<T: Scalar>(
    h: Heads,
    ring: Ring,
    query: &[T],
    at: usize,
    keys: &[T],
    kv_head: usize,
    first: usize,
    sequence: usize,
) -> (r: (Vec<T>, T))
    requires
        first <= sequence,
        readable(
            h,
            ring,
            sequence as int,
            query@.len(),
            at as int,
            kv_head as int,
            keys@.len(),
            keys@.len(),
        ),
    ensures
        r.0@.len() == sequence - first,
        probable(
            h,
            ring,
            query@,
            at as int,
            keys@,
            kv_head as int,
            first as int,
            sequence as int,
            r.0@,
            r.1,
        ),
{
    let (found, top) = scores(h, ring, query, at, keys, kv_head, first, sequence);
    let nothing = T::of_count(0);
    let mut total = nothing;
    let mut weights: Vec<T> = Vec::new();
    let mut k: usize = 0;
    while k < found.len()
        invariant
            k <= found.len(),
            weights@.len() == k,
            forall|i: int| 0 <= i < k ==> weighted(found@[i], top, #[trigger] weights@[i]),
            added(nothing, weights@, total),
        decreases found.len() - k,
    {
        let gap = found[k].minus(top);
        let weight = gap.exponential();
        assert(difference(found@[k as int], top, gap) && exponentiated(gap, weight));
        let next = total.plus(weight);
        proof {
            lemma_added_push(nothing, weights@, total, weight, next);
        }
        weights.push(weight);
        total = next;
        k = k + 1;
    }
    assert(zero(nothing));
    assert(summed(weights@, total));
    assert(summit(found@, top));
    (weights, total)
}

/// `r` is one dimension of the values, blended by weights, as a part of their sum.
pub open spec fn blended_out<T: Scalar>(
    h: Heads,
    ring: Ring,
    values: Seq<T>,
    kv_head: int,
    first: int,
    d: int,
    weights: Seq<T>,
    total: T,
    r: T,
) -> bool {
    exists|mix: T|
        {
            &&& dot_product(blends(h, ring, values, kv_head, first, d, weights), mix)
            &&& #[trigger] quotient(mix, total, r)
        }
}

/// One dimension of the values, blended by the weights of a query.
pub fn block_output<T: Scalar>(
    h: Heads,
    ring: Ring,
    values: &[T],
    kv_head: usize,
    first: usize,
    d: usize,
    weights: &Vec<T>,
    total: T,
) -> (r: T)
    requires
        h.wf(),
        ring.holds(first + weights@.len()),
        kv_head < h.kv_heads,
        d < h.head_dim,
        ring.capacity * h.kv_heads * h.head_dim <= values@.len() <= usize::MAX,
    ensures
        blended_out(
            h,
            ring,
            values@,
            kv_head as int,
            first as int,
            d as int,
            weights@,
            total,
            r,
        ),
{
    let ghost pairs = blends(
        h,
        ring,
        values@,
        kv_head as int,
        first as int,
        d as int,
        weights@,
    );
    let nothing = T::of_count(0);
    let mut mix = nothing;
    let mut k: usize = 0;
    assert(pairs.take(0) =~= Seq::<(T, T)>::empty());
    while k < weights.len()
        invariant
            k <= weights.len(),
            h.wf(),
            ring.holds(first + weights@.len()),
            kv_head < h.kv_heads,
            d < h.head_dim,
            ring.capacity * h.kv_heads * h.head_dim <= values@.len() <= usize::MAX,
            pairs == blends(
                h,
                ring,
                values@,
                kv_head as int,
                first as int,
                d as int,
                weights@,
            ),
            dotted(nothing, pairs.take(k as int), mix),
        decreases weights.len() - k,
    {
        proof {
            lemma_key_inside(h, ring, kv_head as int, first + k, values@.len() as int);
        }
        let physical: usize = (ring.start + (first + k)) % ring.capacity;
        assert(physical == ring.slot(first + k));
        let row: usize = physical * h.kv_heads + kv_head;
        let value = values[row * h.head_dim + d];
        let weight = weights[k];
        let part = weight.times(value);
        let next = mix.plus(part);
        proof {
            lemma_dotted_push(nothing, pairs.take(k as int), mix, weight, value, part, next);
            assert(pairs.take(k + 1) =~= pairs.take(k as int).push((weight, value)));
        }
        mix = next;
        k = k + 1;
    }
    assert(pairs.take(weights@.len() as int) =~= pairs);
    assert(zero(nothing));
    assert(dot_product(pairs, mix));
    let r = mix.over(total);
    assert(quotient(mix, total, r));
    r
}

/// The positions whose weights a block keeps at most.
pub const BLOCK_POSITIONS: usize = 4096;

/// `r` is one element of what a query attends to.  The scores that are weighed are those
/// that the highest was taken of.
pub open spec fn attended_once<T: Scalar>(
    h: Heads,
    ring: Ring,
    sequence: int,
    window: int,
    query: Seq<T>,
    at: int,
    head: int,
    keys: Seq<T>,
    values: Seq<T>,
    d: int,
    r: T,
) -> bool {
    let first = first_visible(sequence, window);
    let kv_head = h.shared(head);
    exists|weights: Seq<T>, total: T|
        {
            &&& #[trigger] probable(
                h,
                ring,
                query,
                at,
                keys,
                kv_head,
                first,
                sequence,
                weights,
                total,
            )
            &&& blended_out(h, ring, values, kv_head, first, d, weights, total, r)
        }
}

/// `r` is one element of what a query attends to.  The scores are computed twice: for the
/// highest, and to be weighed.
pub open spec fn attended_twice<T: Scalar>(
    h: Heads,
    ring: Ring,
    sequence: int,
    window: int,
    query: Seq<T>,
    at: int,
    head: int,
    keys: Seq<T>,
    values: Seq<T>,
    d: int,
    r: T,
) -> bool {
    let first = first_visible(sequence, window);
    let kv_head = h.shared(head);
    exists|scores: Seq<T>, top: T, again: Seq<T>, weights: Seq<T>, total: T|
        {
            &&& scores.len() == sequence - first
            &&& scores_of(h, ring, query, at, keys, kv_head, first, scores)
            &&& #[trigger] summit(scores, top)
            &&& again.len() == sequence - first
            &&& scores_of(h, ring, query, at, keys, kv_head, first, again)
            &&& #[trigger] weights_of(again, top, weights)
            &&& #[trigger] summed(weights, total)
            &&& blended_out(h, ring, values, kv_head, first, d, weights, total, r)
        }
}

/// A head has a key head.
proof fn lemma_shared(h: Heads, head: int)
    requires
        h.wf(),
        0 <= head < h.heads,
    ensures
        0 <= h.shared(head) < h.kv_heads,
        h.heads / h.kv_heads > 0,
{
    let group = h.heads as int / h.kv_heads as int;
    vstd::arithmetic::div_mod::lemma_fundamental_div_mod(h.heads as int, h.kv_heads as int);
    assert(h.heads as int == h.kv_heads * group);
    assert(group > 0) by (nonlinear_arith)
        requires
            h.heads as int == h.kv_heads * group,
            h.heads > 0,
            h.kv_heads > 0,
    ;
    crate::index::lemma_unflat(head, h.kv_heads as int, group);
}

/// The query of one head lies in the queries.
proof fn lemma_query_inside(h: Heads, head: int, query: int)
    requires
        0 <= head < h.heads,
        h.heads * h.head_dim <= query,
    ensures
        0 <= head * h.head_dim,
        head * h.head_dim + h.head_dim <= query,
{
    assert(0 <= head * h.head_dim && head * h.head_dim + h.head_dim <= h.heads * h.head_dim)
        by (nonlinear_arith)
        requires
            0 <= head < h.heads,
    ;
}

/// One element of the attention of one query per head.
pub fn gqa_decode<T: Scalar>(
    raw: usize,
    h: Heads,
    ring: Ring,
    sequence: usize,
    window: usize,
    query: &[T],
    keys: &[T],
    values: &[T],
) -> (r: T)
    requires
        raw < h.heads * h.head_dim,
        h.heads * h.head_dim <= query@.len() <= usize::MAX,
        h.wf(),
        ring.holds(sequence as int),
        ring.capacity * h.kv_heads * h.head_dim <= keys@.len() <= usize::MAX,
        values@.len() == keys@.len(),
    ensures
        attended_twice(
            h,
            ring,
            sequence as int,
            window as int,
            query@,
            raw as int / h.head_dim as int * h.head_dim,
            raw as int / h.head_dim as int,
            keys@,
            values@,
            raw as int % h.head_dim as int,
            r,
        ),
{
    proof {
        crate::index::lemma_unflat(raw as int, h.heads as int, h.head_dim as int);
    }
    let head: usize = raw / h.head_dim;
    let d: usize = raw % h.head_dim;
    proof {
        lemma_shared(h, head as int);
        lemma_query_inside(h, head as int, query@.len() as int);
    }
    let kv_head: usize = head / (h.heads / h.kv_heads);
    let at: usize = head * h.head_dim;
    let first: usize = first_position(sequence, window);
    let (found, top) = scores(h, ring, query, at, keys, kv_head, first, sequence);
    let nothing = T::of_count(0);
    let mut total = nothing;
    let mut again: Vec<T> = Vec::new();
    let mut weights: Vec<T> = Vec::new();
    let mut position: usize = first;
    while position < sequence
        invariant
            first <= position <= sequence,
            readable(
                h,
                ring,
                sequence as int,
                query@.len(),
                at as int,
                kv_head as int,
                keys@.len(),
                keys@.len(),
            ),
            again@.len() == position - first,
            weights@.len() == position - first,
            scores_of(h, ring, query@, at as int, keys@, kv_head as int, first as int, again@),
            forall|i: int|
                0 <= i < weights@.len() ==> weighted(again@[i], top, #[trigger] weights@[i]),
            added(nothing, weights@, total),
        decreases sequence - position,
    {
        let value = score(
            h,
            ring,
            query,
            at,
            keys,
            kv_head,
            position,
            Ghost(sequence as int),
        );
        let gap = value.minus(top);
        let weight = gap.exponential();
        assert(difference(value, top, gap) && exponentiated(gap, weight));
        let next = total.plus(weight);
        proof {
            lemma_added_push(nothing, weights@, total, weight, next);
        }
        let ghost before = again@;
        again.push(value);
        weights.push(weight);
        assert forall|i: int| 0 <= i < again@.len() implies dot_product(
            paired(h, ring, query@, at as int, keys@, kv_head as int, first + i),
            #[trigger] again@[i],
        ) by {
            if i < before.len() {
                assert(again@[i] == before[i]);
            }
        }
        total = next;
        position = position + 1;
    }
    assert(zero(nothing));
    let r = block_output(h, ring, values, kv_head, first, d, &weights, total);
    assert(summit(found@, top) && weights_of(again@, top, weights@) && summed(weights@, total));
    r
}

/// The positions that a ring of rows keeps of all that were seen, and where the first of
/// them stands.
pub open spec fn kept(seen: int, capacity: int) -> (int, int) {
    (
        if seen < capacity {
            seen
        } else {
            capacity
        },
        if seen > capacity {
            seen % capacity
        } else {
            0
        },
    )
}

/// The positions that a ring keeps, and where the first of them stands.
pub fn kept_positions(seen: usize, capacity: usize) -> (r: (usize, usize))
    requires
        capacity > 0,
    ensures
        kept(seen as int, capacity as int) == (r.0 as int, r.1 as int),
        r.0 <= capacity,
        r.1 < capacity,
{
    let sequence: usize = if seen < capacity {
        seen
    } else {
        capacity
    };
    let start: usize = if seen > capacity {
        seen % capacity
    } else {
        0
    };
    (sequence, start)
}

/// A ring forgets only what is too old: the row read for the position `p` of those kept
/// is the row that the position was written to, counted from the very first.
pub proof fn ring_keeps_the_last(seen: int, capacity: int, p: int)
    requires
        capacity > 0,
        0 <= seen,
        ({
            let (sequence, start) = kept(seen, capacity);
            0 <= p < sequence
        }),
    ensures
        ({
            let (sequence, start) = kept(seen, capacity);
            &&& (start + p) % capacity == (seen - sequence + p) % capacity
            &&& 0 <= seen - sequence + p < seen
        }),
{
    let (sequence, start) = kept(seen, capacity);
    if seen > capacity {
        let q = seen / capacity;
        vstd::arithmetic::div_mod::lemma_fundamental_div_mod(seen, capacity);
        assert(seen - capacity + p == start + p + capacity * (q - 1)) by (nonlinear_arith)
            requires
                seen == capacity * q + start,
        ;
        vstd::arithmetic::div_mod::lemma_mod_multiples_vanish(q - 1, start + p, capacity);
        assert(capacity * (q - 1) + (start + p) == seen - sequence + p);
    }
}

/// Two positions of those kept stand in different rows.
pub proof fn ring_rows_are_distinct(seen: int, capacity: int, p: int, q: int)
    requires
        capacity > 0,
        0 <= seen,
        ({
            let (sequence, start) = kept(seen, capacity);
            0 <= p < q < sequence
        }),
    ensures
        ({
            let (sequence, start) = kept(seen, capacity);
            (start + p) % capacity != (start + q) % capacity
        }),
{
    let (sequence, start) = kept(seen, capacity);
    let (a, b) = ((start + p) / capacity, (start + q) / capacity);
    vstd::arithmetic::div_mod::lemma_fundamental_div_mod(start + p, capacity);
    vstd::arithmetic::div_mod::lemma_fundamental_div_mod(start + q, capacity);
    if (start + p) % capacity == (start + q) % capacity {
        assert(q - p == capacity * (b - a)) by (nonlinear_arith)
            requires
                start + p == capacity * a + (start + p) % capacity,
                start + q == capacity * b + (start + q) % capacity,
                (start + p) % capacity == (start + q) % capacity,
        ;
        assert(b - a >= 1 || b - a <= 0);
        assert(false) by (nonlinear_arith)
            requires
                q - p == capacity * (b - a),
                0 < q - p < capacity,
                capacity > 0,
        ;
    }
}

/// One element of the attention of one query per head, at the position of the decoder's
/// state.
pub fn gqa_decode_state<T: Scalar>(
    raw: usize,
    h: Heads,
    window: usize,
    capacity: usize,
    state: &[usize],
    query: &[T],
    keys: &[T],
    values: &[T],
) -> (r: T)
    requires
        state@.len() == 2,
        state@[1] < usize::MAX,
        0 < capacity,
        capacity + capacity <= usize::MAX,
        raw < h.heads * h.head_dim,
        h.heads * h.head_dim <= query@.len() <= usize::MAX,
        h.wf(),
        capacity * h.kv_heads * h.head_dim <= keys@.len() <= usize::MAX,
        values@.len() == keys@.len(),
    ensures
        ({
            let (sequence, start) = kept(state@[1] + 1, capacity as int);
            attended_twice(
                h,
                (Ring { start: start as usize, capacity }),
                sequence,
                window as int,
                query@,
                raw as int / h.head_dim as int * h.head_dim,
                raw as int / h.head_dim as int,
                keys@,
                values@,
                raw as int % h.head_dim as int,
                r,
            )
        }),
{
    let (sequence, start) = kept_positions(state[1] + 1, capacity);
    let ring = Ring { start, capacity };
    gqa_decode(raw, h, ring, sequence, window, query, keys, values)
}

/// What the threads of a block share: the weights of a head, and their sum.
pub struct Shared<T> {
    pub weights: Vec<T>,
    pub total: T,
    pub first: usize,
    pub kv_head: usize,
}

/// What the first thread of a block prepares for the others: the weights of one query on
/// one head.  There is nothing for a block without a head.
pub fn gqa_block_prepare<T: Scalar>(
    head: usize,
    row: usize,
    h: Heads,
    ring: Ring,
    sequence: usize,
    window: usize,
    query: &[T],
    keys: &[T],
) -> (r: Option<Shared<T>>)
    requires
        h.wf(),
        ring.holds(sequence as int),
        sequence - first_visible(sequence as int, window as int) <= BLOCK_POSITIONS,
        (row + 1) * h.heads * h.head_dim <= query@.len() <= usize::MAX,
        (row + 1) * h.heads <= usize::MAX,
        ring.capacity * h.kv_heads * h.head_dim <= keys@.len() <= usize::MAX,
    ensures
        match r {
            Some(shared) => {
                &&& head < h.heads
                &&& shared.first == first_visible(sequence as int, window as int)
                &&& shared.kv_head == h.shared(head as int)
                &&& shared.kv_head < h.kv_heads
                &&& shared.weights@.len() == sequence - shared.first
                &&& probable(
                    h,
                    ring,
                    query@,
                    (row * h.heads + head) * h.head_dim,
                    keys@,
                    shared.kv_head as int,
                    shared.first as int,
                    sequence as int,
                    shared.weights@,
                    shared.total,
                )
            },
            None => head >= h.heads,
        },
{
    if head >= h.heads {
        return None;
    }
    proof {
        lemma_shared(h, head as int);
        lemma_flat(row as int, row + 1, head as int, h.heads as int);
        let at = row * h.heads + head;
        let n = (row + 1) * h.heads;
        assert(0 <= at * h.head_dim && at * h.head_dim + h.head_dim <= n * h.head_dim)
            by (nonlinear_arith)
            requires
                0 <= at < n,
        ;
    }
    let kv_head: usize = head / (h.heads / h.kv_heads);
    let first: usize = first_position(sequence, window);
    let at: usize = (row * h.heads + head) * h.head_dim;
    let (weights, total) = block_probabilities(
        h,
        ring,
        query,
        at,
        keys,
        kv_head,
        first,
        sequence,
    );
    Some(Shared { weights, total, first, kv_head })
}

/// One element of the attention of one query per head, by blocks that share the weights
/// of their head.
pub fn gqa_decode_block<T: Scalar>(
    head: usize,
    d: usize,
    h: Heads,
    ring: Ring,
    sequence: usize,
    window: usize,
    query: &[T],
    keys: &[T],
    values: &[T],
) -> (r: Option<T>)
    requires
        d < h.head_dim,
        h.wf(),
        ring.holds(sequence as int),
        sequence - first_visible(sequence as int, window as int) <= BLOCK_POSITIONS,
        h.heads * h.head_dim <= query@.len() <= usize::MAX,
        ring.capacity * h.kv_heads * h.head_dim <= keys@.len() <= usize::MAX,
        values@.len() == keys@.len(),
    ensures
        match r {
            Some(value) => {
                &&& head < h.heads
                &&& attended_once(
                    h,
                    ring,
                    sequence as int,
                    window as int,
                    query@,
                    head * h.head_dim,
                    head as int,
                    keys@,
                    values@,
                    d as int,
                    value,
                )
            },
            None => head >= h.heads,
        },
{
    proof {
        assert((0 + 1) * h.heads * h.head_dim == h.heads * h.head_dim) by (nonlinear_arith);
        assert((0 * h.heads + head) * h.head_dim == head * h.head_dim) by (nonlinear_arith);
        assert((0 + 1) * h.heads == h.heads) by (nonlinear_arith);
    }
    match gqa_block_prepare(head, 0, h, ring, sequence, window, query, keys) {
        Some(shared) => Some(
            block_output(
                h,
                ring,
                values,
                shared.kv_head,
                shared.first,
                d,
                &shared.weights,
                shared.total,
            ),
        ),
        None => None,
    }
}

/// One element of the attention of one query per head, by blocks, at the position of the
/// decoder's state.
pub fn gqa_decode_block_state<T: Scalar>(
    head: usize,
    d: usize,
    h: Heads,
    window: usize,
    capacity: usize,
    state: &[usize],
    query: &[T],
    keys: &[T],
    values: &[T],
) -> (r: Option<T>)
    requires
        state@.len() == 2,
        state@[1] < usize::MAX,
        0 < capacity,
        capacity + capacity <= usize::MAX,
        ({
            let (sequence, start) = kept(state@[1] + 1, capacity as int);
            sequence - first_visible(sequence, window as int) <= BLOCK_POSITIONS
        }),
        d < h.head_dim,
        h.wf(),
        h.heads * h.head_dim <= query@.len() <= usize::MAX,
        capacity * h.kv_heads * h.head_dim <= keys@.len() <= usize::MAX,
        values@.len() == keys@.len(),
    ensures
        ({
            let (sequence, start) = kept(state@[1] + 1, capacity as int);
            match r {
                Some(value) => {
                    &&& head < h.heads
                    &&& attended_once(
                        h,
                        (Ring { start: start as usize, capacity }),
                        sequence,
                        window as int,
                        query@,
                        head * h.head_dim,
                        head as int,
                        keys@,
                        values@,
                        d as int,
                        value,
                    )
                },
                None => head >= h.heads,
            }
        }),
{
    let (sequence, start) = kept_positions(state[1] + 1, capacity);
    let ring = Ring { start, capacity };
    gqa_decode_block(head, d, h, ring, sequence, window, query, keys, values)
}

/// One element of the causal attention of a whole prompt, whose keys and values stand in
/// order.  There is nothing for a block behind the last row.
pub fn gqa_prefill_block<T: Scalar>(
    block: usize,
    d: usize,
    rows: usize,
    h: Heads,
    window: usize,
    query: &[T],
    keys: &[T],
    values: &[T],
) -> (r: Option<T>)
    requires
        d < h.head_dim,
        h.wf(),
        rows < usize::MAX,
        rows * h.heads <= usize::MAX,
        rows * h.heads * h.head_dim <= query@.len() <= usize::MAX,
        rows * h.kv_heads * h.head_dim <= keys@.len() <= usize::MAX,
        values@.len() == keys@.len(),
        block < rows * h.heads ==> ({
            let visible = block as int / h.heads as int + 1;
            visible - first_visible(visible, window as int) <= BLOCK_POSITIONS
        }),
    ensures
        match r {
            Some(value) => {
                &&& block < rows * h.heads
                &&& attended_once(
                    h,
                    (Ring { start: 0, capacity: rows }),
                    block as int / h.heads as int + 1,
                    window as int,
                    query@,
                    block * h.head_dim,
                    block as int % h.heads as int,
                    keys@,
                    values@,
                    d as int,
                    value,
                )
            },
            None => block >= rows * h.heads,
        },
{
    let row: usize = block / h.heads;
    let head: usize = block % h.heads;
    proof {
        vstd::arithmetic::div_mod::lemma_fundamental_div_mod(block as int, h.heads as int);
        assert(h.heads * row == row * h.heads) by (nonlinear_arith);
    }
    if row >= rows {
        proof {
            assert(rows * h.heads <= row * h.heads) by (nonlinear_arith)
                requires
                    row >= rows,
            ;
        }
        return None;
    }
    proof {
        lemma_flat(row as int, rows as int, head as int, h.heads as int);
        assert((row + 1) * h.heads <= rows * h.heads) by (nonlinear_arith)
            requires
                row < rows,
        ;
        assert((row + 1) * h.heads * h.head_dim <= rows * h.heads * h.head_dim) by (nonlinear_arith)
            requires
                (row + 1) * h.heads <= rows * h.heads,
        ;
    }
    let ring = Ring { start: 0, capacity: rows };
    match gqa_block_prepare(head, row, h, ring, row + 1, window, query, keys) {
        Some(shared) => Some(
            block_output(
                h,
                ring,
                values,
                shared.kv_head,
                shared.first,
                d,
                &shared.weights,
                shared.total,
            ),
        ),
        None => None,
    }
}

} // verus!

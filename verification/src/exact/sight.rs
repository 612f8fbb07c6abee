//! Which positions and heads see which.

use crate::cuda::attention_kernels::{
    first_visible, kept, key_start, ring_keeps_the_last, Heads, Ring,
};
use crate::cuda::model_kernels::ring_place;
use crate::exact::attention::{any_attended, devices_average_by_softmax, softmax, Sight};
use crate::exact::sums::{lemma_sigma_equal, sigma};
use crate::exact::Reading;
use crate::gemma4_cuda::effects::attended_causally;
use crate::models::attention::Attention;
use crate::scalar::Scalar;
use vstd::prelude::*;

verus! {

/// A query sees what came before it, as far back as its window reaches: on a device the
/// positions of a sequence that its end is no farther from than the window is wide, and all
/// of them where there is no window.
pub proof fn windows_show_the_last(sequence: int, window: int, p: int)
    requires
        sequence > 0,
        window >= 0,
    ensures
        first_visible(sequence, window) <= p < sequence <==> 0 <= p < sequence && (window == 0
            || sequence - p <= window),
{
}

/// On the host a query at the end of a sequence sees what it sees on a device.
pub proof fn windows_agree(a: Attention, q: int, p: int)
    requires
        a.wf(),
        0 <= q < a.q_len,
    ensures
        a.first(q) <= p <= a.position(q) <==> 0 <= p <= a.position(q) && (match a.window {
            Some(window) => a.position(q) - p < window,
            None => true,
        }),
        a.position(q) == a.kv_len - (a.q_len - q),
        a.first(q) == first_visible(
            a.position(q) + 1,
            match a.window {
                Some(window) => window as int,
                None => 0,
            },
        ),
{
}

proof fn lemma_group(heads: int, kv_heads: int, head: int, kv_head: int)
    requires
        0 < kv_heads,
        0 < heads,
        heads % kv_heads == 0,
        0 <= head < heads,
    ensures
        0 <= head / (heads / kv_heads) < kv_heads,
        heads / kv_heads > 0,
        head / (heads / kv_heads) == kv_head <==> kv_head * (heads / kv_heads) <= head < (kv_head
            + 1) * (heads / kv_heads),
        kv_heads * (heads / kv_heads) == heads,
{
    let g = heads / kv_heads;
    vstd::arithmetic::div_mod::lemma_fundamental_div_mod(heads, kv_heads);
    assert(g > 0) by (nonlinear_arith)
        requires
            heads == kv_heads * g,
            heads > 0,
            kv_heads > 0,
    ;
    let k = head / g;
    vstd::arithmetic::div_mod::lemma_fundamental_div_mod(head, g);
    assert(head == g * k + head % g && 0 <= head % g < g);
    assert(k * g <= head < (k + 1) * g) by (nonlinear_arith)
        requires
            head == g * k + head % g,
            0 <= head % g < g,
    ;
    assert(0 <= k < kv_heads) by (nonlinear_arith)
        requires
            k * g <= head < (k + 1) * g,
            0 <= head < kv_heads * g,
            g > 0,
    ;
    if kv_head * g <= head < (kv_head + 1) * g {
        assert(k == kv_head) by (nonlinear_arith)
            requires
                k * g <= head < (k + 1) * g,
                kv_head * g <= head < (kv_head + 1) * g,
                g > 0,
        ;
    }
}

/// Heads share key heads in groups of one size: as many heads in a row as there are for each
/// key head, on the host and on a device.
pub proof fn heads_share_in_groups(h: Heads, a: Attention, head: int, kv_head: int, size: int)
    requires
        h.wf(),
        a.heads == h.heads,
        a.kv_heads == h.kv_heads,
        0 <= head < h.heads,
        size * h.kv_heads == h.heads,
    ensures
        0 <= h.shared(head) < h.kv_heads,
        h.shared(head) == kv_head <==> kv_head * size <= head < (kv_head + 1) * size,
        a.shared(head) == h.shared(head),
{
    lemma_group(h.heads as int, h.kv_heads as int, head, kv_head);
    let (g, n) = (h.heads as int / h.kv_heads as int, h.kv_heads as int);
    assert(size == g) by (nonlinear_arith)
        requires
            size * n == n * g,
            n > 0,
    ;
}

/// A key that is read for a position is the one that was written for it, as long as the ring
/// has not come round to it again.
pub proof fn reads_find_what_was_written(h: Heads, seen: int, capacity: usize, kv_head: int, p: int)
    requires
        capacity > 0,
        0 <= seen,
        0 <= p < seen,
        seen - p <= capacity,
    ensures
        ({
            let (sequence, start) = kept(seen, capacity as int);
            &&& 0 <= p - (seen - sequence) < sequence
            &&& key_start(
                h,
                (Ring { start: start as usize, capacity }),
                kv_head,
                p - (seen - sequence),
            ) == ring_place(
                p,
                capacity as int,
                h.kv_heads * h.head_dim,
                kv_head * h.head_dim,
            )
        }),
{
    let (sequence, start) = kept(seen, capacity as int);
    let j = p - (seen - sequence);
    ring_keeps_the_last(seen, capacity as int, j);
    assert(0 <= start < capacity) by {
        if seen > capacity {
            vstd::arithmetic::div_mod::lemma_mod_bound(seen, capacity as int);
        }
    }
    let (row, n, d) = (p % capacity as int, h.kv_heads as int, h.head_dim as int);
    assert((start as usize + j) % capacity as int == row);
    assert((row * n + kv_head) * d == row * (n * d) + kv_head * d) by (nonlinear_arith);
}

/// Every row of a prompt averages the values of the rows up to its own that are within the
/// window, weighted by the softmax of the products of its query with their keys.
pub proof fn prompts_average_by_softmax<T: Scalar>(
    reading: Reading<T>,
    h: Heads,
    rows: usize,
    window: usize,
    query: Seq<T>,
    keys: Seq<T>,
    values: Seq<T>,
    out: Seq<T>,
    row: int,
    head: int,
    d: int,
) -> (sight: Sight)
    requires
        reading.exact(),
        h.wf(),
        attended_causally(h, rows, window, query, keys, values, out),
        0 <= row < rows,
        0 <= head < h.heads,
        0 <= d < h.head_dim,
    ensures
        ({
            let first = if window == 0 || row < window {
                0
            } else {
                row + 1 - window
            };
            let at = |p: int| (p * h.kv_heads + h.shared(head)) * h.head_dim;
            &&& sight.scores.len() == row + 1 - first
            &&& forall|i: int|
                0 <= i < sight.scores.len() ==> #[trigger] sight.scores[i] == sigma(
                    h.head_dim as nat,
                    |k: int|
                        reading.of(query[(row * h.heads + head) * h.head_dim + k]) * reading.of(
                            keys[at(first + i) + k],
                        ),
                )
            &&& softmax(reading, sight.scores, sight.shares)
            &&& reading.of(out[(row * h.heads + head) * h.head_dim + d]) == sigma(
                sight.shares.len(),
                |i: int| sight.shares[i] * reading.of(values[at(first + i) + d]),
            )
        }),
{
    let (n, size) = (h.heads as int, h.head_dim as int);
    let group = row * n + head;
    let i = group * size + d;
    crate::index::lemma_flat(row, rows as int, head, n);
    crate::index::lemma_flat_inverse(row, head, n);
    crate::index::lemma_flat(group, rows * n, d, size);
    crate::index::lemma_flat_inverse(group, d, size);
    assert(i / size == group && i % size == d);
    assert(group / n == row && group % n == head);
    let ring = Ring { start: 0, capacity: rows };
    assert(out.len() == rows * n * size);
    assert(any_attended(
        h,
        ring,
        row + 1,
        window as int,
        query,
        group * size,
        head,
        keys,
        values,
        d,
        out[i],
    ));
    let sight = devices_average_by_softmax(
        reading,
        h,
        ring,
        row + 1,
        window as int,
        query,
        group * size,
        head,
        keys,
        values,
        d,
        out[i],
    );
    let first = first_visible(row + 1, window as int);
    let kv_head = h.shared(head);
    let at = |p: int| (p * h.kv_heads + h.shared(head)) * h.head_dim;
    assert forall|p: int| 0 <= p <= row implies #[trigger] key_start(h, ring, kv_head, p) == at(
        p,
    ) by {
        vstd::arithmetic::div_mod::lemma_small_mod(p as nat, rows as nat);
        assert(ring.slot(p) == p);
    }
    assert forall|i: int| 0 <= i < sight.scores.len() implies #[trigger] sight.scores[i] == sigma(
        h.head_dim as nat,
        |k: int| reading.of(query[group * size + k]) * reading.of(keys[at(first + i) + k]),
    ) by {
        assert(key_start(h, ring, kv_head, first + i) == at(first + i));
        lemma_sigma_equal(
            h.head_dim as nat,
            |k: int|
                reading.of(query[group * size + k]) * reading.of(
                    keys[key_start(h, ring, kv_head, first + i) + k],
                ),
            |k: int| reading.of(query[group * size + k]) * reading.of(keys[at(first + i) + k]),
        );
    }
    let before = |i: int|
        sight.shares[i] * reading.of(values[key_start(h, ring, kv_head, first + i) + d]);
    let wanted = |i: int| sight.shares[i] * reading.of(values[at(first + i) + d]);
    assert forall|i: int| 0 <= i < sight.shares.len() implies #[trigger] before(i) == wanted(i) by {
        assert(key_start(h, ring, kv_head, first + i) == at(first + i));
    }
    lemma_sigma_equal(sight.shares.len(), before, wanted);
    sight
}

} // verus!

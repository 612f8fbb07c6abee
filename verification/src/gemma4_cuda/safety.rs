//! What the launches of a Gemma model can rely on.

use crate::cuda::attention_kernels::{Heads, Ring};
use crate::cuda::launch::{model_grid, row_grid, Grid};
use crate::cuda::model_kernels::Rotation;
use crate::error::Failure;
use crate::gemma4_cuda::attend::head_blocks;
use crate::gemma4_cuda::cache::{
    is_sliding, layer_entry, tabulates, Gemma4CudaCacheTable, Gemma4CudaKvCache,
};
use crate::gemma4_cuda::elements::{joining, Join};
use crate::gemma4_cuda::layers::{plan_fits, widths_fit};
use crate::gemma4_cuda::ple::{packed_width, source_rows, Source};
use crate::gemma4_cuda::pick::{all_in_blocks, best, captured, picked, picks, token_blocks};
use crate::gemma4_cuda::prompt::{head_width, layer_prefix, prompt_fits, rope_of, rows_fit};
use crate::gemma4_cuda::tape::{Factor, Launch, Order, Side, Tape, MOST_ROWS};
use crate::gemma4_cuda::weights::{number_of, small, usable_shape, whole, Gemma4CudaState, LayerPlan};
use crate::models::gemma4::{aliases, Gemma4TextConfig};
use crate::scalar::Scalar;
use vstd::prelude::*;

verus! {

/// The buffers that a launch reads.
pub open spec fn inputs<T>(launch: Launch<T>) -> Seq<usize> {
    match launch {
        Launch::Shorten { input, .. } => seq![input],
        Launch::RmsNorm { input, .. } => seq![input],
        Launch::RmsNormShort { input, .. } => seq![input],
        Launch::RmsNormUnit { input, .. } => seq![input],
        Launch::Rope { input, .. } => seq![input],
        Launch::RopeState { input, .. } => seq![input],
        Launch::Attend { query, key, value, .. } => seq![query, key, value],
        Launch::AttendCache { query, .. } => seq![query],
        Launch::AttendState { query, .. } => seq![query],
        Launch::AttendPrompt { query, .. } => seq![query],
        Launch::CacheWrite { input, .. } => seq![input],
        Launch::CacheWriteState { input, .. } => seq![input],
        Launch::Linear { input, .. } => seq![input],
        Launch::Slice { input, .. } => seq![input],
        Launch::SliceRows { input, .. } => seq![input],
        Launch::Gelu { input, .. } => seq![input],
        Launch::GeluMul { gate, up, .. } => seq![gate, up],
        Launch::Add { left, right, .. } => seq![left, right],
        Launch::Mul { left, right, .. } => seq![left, right],
        Launch::Scale { input, .. } => seq![input],
        Launch::ScaleByWeight { input, .. } => seq![input],
        Launch::PickBlocks { logits, .. } => seq![logits],
        Launch::PickBest { block_scores, block_ids, .. } => seq![block_scores, block_ids],
        _ => seq![],
    }
}

/// The buffers that a launch writes.
pub open spec fn outputs<T>(launch: Launch<T>) -> Seq<usize> {
    match launch {
        Launch::WeightRange { out, .. } => seq![out],
        Launch::WeightRowState { out, .. } => seq![out],
        Launch::WeightRows { out, .. } => seq![out],
        Launch::Shorten { out, .. } => seq![out],
        Launch::RmsNorm { out, .. } => seq![out],
        Launch::RmsNormShort { out, .. } => seq![out],
        Launch::RmsNormUnit { out, .. } => seq![out],
        Launch::Rope { out, .. } => seq![out],
        Launch::RopeState { out, .. } => seq![out],
        Launch::Attend { out, .. } => seq![out],
        Launch::AttendCache { out, .. } => seq![out],
        Launch::AttendState { out, .. } => seq![out],
        Launch::AttendPrompt { out, .. } => seq![out],
        Launch::Linear { out, .. } => seq![out],
        Launch::Slice { out, .. } => seq![out],
        Launch::SliceRows { out, .. } => seq![out],
        Launch::Gelu { out, .. } => seq![out],
        Launch::GeluMul { out, .. } => seq![out],
        Launch::Add { out, .. } => seq![out],
        Launch::Mul { out, .. } => seq![out],
        Launch::Scale { out, .. } => seq![out],
        Launch::ScaleByWeight { out, .. } => seq![out],
        Launch::PickBlocks { scores, ids, .. } => seq![scores, ids],
        Launch::PickBest { scores, ids, .. } => seq![scores, ids],
        _ => seq![],
    }
}

/// The launch is laid out over so many elements.
pub open spec fn per_element(grid: Option<Grid>, len: usize) -> bool {
    grid matches Some(found) && model_grid(len as nat) == std::result::Result::<Grid, Failure>::Ok(
        found,
    )
}

/// The launch has a block for each of so many rows.
pub open spec fn per_row(grid: Option<Grid>, rows: int) -> bool {
    grid matches Some(found) && row_grid(rows as nat) == std::result::Result::<Grid, Failure>::Ok(
        found,
    )
}

/// Buffers hold as many rows of their widths.
pub open spec fn in_rows(a: usize, a_width: usize, b: usize, b_width: usize, rows: int) -> bool {
    a == rows * a_width && b == rows * b_width
}

/// Buffers hold equally many rows of their widths.
pub open spec fn both_in_rows(a: usize, a_width: usize, b: usize, b_width: usize) -> bool {
    exists|rows: int| #[trigger] in_rows(a, a_width, b, b_width, rows)
}

/// A vector that scales rows of `hidden` elements.
pub open spec fn scales_rows<T>(s: Gemma4CudaState<T>, weight: usize, hidden: usize) -> bool {
    &&& weight < s.weights@.len()
    &&& s.weights@[weight as int].shape@ == seq![hidden]
    &&& hidden > 0
}

/// The buffers of a launch have the lengths that its kernel asks for, and so have the
/// weights and the caches.
pub open spec fn served<T>(
    s: Gemma4CudaState<T>,
    table: Gemma4CudaCacheTable,
    lens: Seq<usize>,
    order: Order<T>,
) -> bool {
    match order.launch {
        Launch::WeightRange { weight, offset, out, .. } => {
            &&& weight < s.weights@.len()
            &&& offset + lens[out as int] <= s.weights@[weight as int].len
            &&& per_element(order.grid, lens[out as int])
        },
        Launch::WeightRowState { weight, width, out, .. } => {
            &&& weight < s.weights@.len()
            &&& s.weights@[weight as int].shape@.len() == 2
            &&& s.weights@[weight as int].shape@[1] == width
            &&& lens[out as int] == width
            &&& per_element(order.grid, width)
        },
        Launch::WeightRows { weight, width, out, .. } => {
            &&& weight < s.weights@.len()
            &&& s.weights@[weight as int].shape@.len() == 2
            &&& s.weights@[weight as int].shape@[1] == width
            &&& per_element(order.grid, lens[out as int])
        },
        Launch::Shorten { input, out } => {
            &&& lens[input as int] == lens[out as int]
            &&& per_element(order.grid, lens[out as int])
        },
        Launch::RmsNorm { input, weight, hidden, out, .. } => {
            &&& scales_rows(s, weight, hidden)
            &&& lens[input as int] == lens[out as int]
            &&& lens[out as int] % hidden == 0
            &&& per_row(order.grid, (lens[out as int] / hidden) as int)
        },
        Launch::RmsNormShort { input, weight, hidden, out, .. } => {
            &&& scales_rows(s, weight, hidden)
            &&& lens[input as int] == lens[out as int]
            &&& lens[out as int] % hidden == 0
            &&& per_row(order.grid, (lens[out as int] / hidden) as int)
        },
        Launch::RmsNormUnit { input, hidden, out, .. } => {
            &&& hidden > 0
            &&& lens[input as int] == lens[out as int]
            &&& lens[out as int] % hidden == 0
            &&& per_row(order.grid, (lens[out as int] / hidden) as int)
        },
        Launch::Rope { input, rotation, out, .. } => {
            &&& turns(lens[input as int], rotation)
            &&& lens[input as int] == lens[out as int]
            &&& per_element(order.grid, lens[out as int])
        },
        Launch::RopeState { input, rotation, out, .. } => {
            &&& turns(lens[input as int], rotation)
            &&& lens[input as int] == lens[out as int]
            &&& per_element(order.grid, lens[out as int])
        },
        Launch::AttendState { query, layer, heads, capacity, out, .. } => {
            &&& lens[query as int] == heads.heads * heads.head_dim
            &&& lens[out as int] == lens[query as int]
            &&& heads.heads % heads.kv_heads == 0
            &&& layer < table.layers@.len()
            &&& table.layers@[layer as int] matches Some(cache) && capacity == cache.capacity
                && cache.elements() == capacity * heads.kv_heads * heads.head_dim
        },
        Launch::AttendPrompt { query, layer, rows, heads, out, .. } => {
            &&& lens[query as int] == rows * heads.heads * heads.head_dim
            &&& lens[out as int] == lens[query as int]
            &&& heads.heads % heads.kv_heads == 0
            &&& 0 < rows <= MOST_ROWS
            &&& layer < table.layers@.len()
            &&& table.layers@[layer as int] matches Some(cache) && rows * heads.kv_heads
                * heads.head_dim <= cache.elements()
        },
        Launch::CacheWrite { layer, offset, input, .. } => {
            &&& layer < table.layers@.len()
            &&& table.layers@[layer as int] matches Some(cache) && offset + lens[input as int]
                <= cache.elements()
            &&& per_element(order.grid, lens[input as int])
        },
        Launch::CacheWriteState { layer, width, capacity, input, .. } => {
            &&& layer < table.layers@.len()
            &&& table.layers@[layer as int] matches Some(cache) && width == cache.width()
                && capacity == cache.capacity
            &&& lens[input as int] == width
            &&& per_element(order.grid, width)
        },
        Launch::Linear { input, weight, rows, outputs, inputs, out } => {
            &&& weight < s.weights@.len()
            &&& lens[input as int] == rows * inputs
            &&& s.weights@[weight as int].len == outputs * inputs
            &&& lens[out as int] == rows * outputs
        },
        Launch::Slice { input, offset, out } => {
            &&& offset + lens[out as int] <= lens[input as int]
            &&& per_element(order.grid, lens[out as int])
        },
        Launch::SliceRows { input, input_width, offset, output_width, out } => {
            &&& offset + output_width <= input_width
            &&& both_in_rows(lens[input as int], input_width, lens[out as int], output_width)
            &&& per_element(order.grid, lens[out as int])
        },
        Launch::Gelu { input, out } => {
            &&& lens[input as int] == lens[out as int]
            &&& per_element(order.grid, lens[out as int])
        },
        Launch::GeluMul { gate, up, out } => {
            &&& lens[gate as int] == lens[out as int]
            &&& lens[up as int] == lens[out as int]
            &&& per_element(order.grid, lens[out as int])
        },
        Launch::Add { left, right, out } => {
            &&& lens[left as int] == lens[out as int]
            &&& lens[right as int] == lens[out as int]
            &&& per_element(order.grid, lens[out as int])
        },
        Launch::Mul { left, right, out } => {
            &&& lens[left as int] == lens[out as int]
            &&& lens[right as int] == lens[out as int]
            &&& per_element(order.grid, lens[out as int])
        },
        Launch::Scale { input, out, .. } => {
            &&& lens[input as int] == lens[out as int]
            &&& per_element(order.grid, lens[out as int])
        },
        Launch::ScaleByWeight { input, weight, out } => {
            &&& weight < s.weights@.len()
            &&& s.weights@[weight as int].len == 1
            &&& lens[input as int] == lens[out as int]
            &&& per_element(order.grid, lens[out as int])
        },
        Launch::PickBlocks { scores, ids, .. } => lens[scores as int] == lens[ids as int],
        Launch::PickBest { picks, block_scores, block_ids, scores, ids } => {
            &&& lens[block_scores as int] == lens[block_ids as int]
            &&& lens[scores as int] == picks
            &&& lens[ids as int] == picks
        },
        _ => true,
    }
}

/// Whole heads are turned.
pub open spec fn turns(len: usize, rotation: Rotation) -> bool {
    &&& rotation.heads != 0
    &&& rotation.head_dim != 0
    &&& len as int % (rotation.heads * rotation.head_dim) == 0
}

/// One of the first `n` launches writes the buffer.
pub open spec fn written<T>(log: Seq<Order<T>>, n: int, buffer: usize) -> bool {
    exists|k: int| 0 <= k < n && #[trigger] outputs(log[k].launch).contains(buffer)
}

/// A launch reads what was written before and writes what was not, and it is served.
pub open spec fn in_place<T>(
    s: Gemma4CudaState<T>,
    table: Gemma4CudaCacheTable,
    lens: Seq<usize>,
    log: Seq<Order<T>>,
    k: int,
) -> bool {
    let launch = log[k].launch;
    &&& forall|j: int|
        0 <= j < inputs(launch).len() ==> {
            let buffer = #[trigger] inputs(launch)[j];
            buffer < lens.len() && written(log, k, buffer)
        }
    &&& forall|j: int|
        0 <= j < outputs(launch).len() ==> {
            let buffer = #[trigger] outputs(launch)[j];
            buffer < lens.len() && !written(log, k, buffer)
        }
    &&& outputs(launch).no_duplicates()
    &&& served(s, table, lens, log[k])
}

/// Every launch is in place.
#[verifier::opaque]
pub open spec fn safe<T>(s: Gemma4CudaState<T>, table: Gemma4CudaCacheTable, t: Tape<T>) -> bool {
    forall|k: int| 0 <= k < t.log.len() ==> #[trigger] in_place(s, table, t.lens, t.log, k)
}

/// The buffers of a tape can be numbered.
pub open spec fn numbered<T>(t: Tape<T>) -> bool {
    t.lens.len() <= usize::MAX
}

/// Where its buffers can be numbered, every launch is in place.
pub open spec fn sound<T>(s: Gemma4CudaState<T>, table: Gemma4CudaCacheTable, t: Tape<T>) -> bool {
    numbered(t) ==> safe(s, table, t)
}

/// Unless recording stopped, the buffer was written.
pub open spec fn holds<T>(t: Tape<T>, buffer: usize) -> bool {
    numbered(t) && !t.stopped() ==> buffer < t.lens.len() && written(
        t.log,
        t.log.len() as int,
        buffer,
    )
}

/// Unless recording stopped, the buffer has a length.
pub open spec fn spans<T>(t: Tape<T>, buffer: usize, len: int) -> bool {
    numbered(t) && !t.stopped() ==> buffer < t.lens.len() && t.lens[buffer as int] == len
}

/// The second tape goes on from the first, and writes none of its buffers.
pub open spec fn follows<T>(before: Tape<T>, after: Tape<T>) -> bool {
    &&& before.lens.len() <= after.lens.len()
    &&& forall|b: int| 0 <= b < before.lens.len() ==> #[trigger] after.lens[b] == before.lens[b]
    &&& before.log.len() <= after.log.len()
    &&& forall|k: int| 0 <= k < before.log.len() ==> #[trigger] after.log[k] == before.log[k]
    &&& before.stopped() ==> after.stopped()
    &&& numbered(after) ==> forall|k: int, b: usize|
        before.log.len() <= k < after.log.len() && #[trigger] outputs(
            after.log[k].launch,
        ).contains(b) ==> b >= before.lens.len()
}

/// Recording went on soundly, to a buffer that was written.
pub open spec fn went<T>(
    s: Gemma4CudaState<T>,
    table: Gemma4CudaCacheTable,
    before: Tape<T>,
    plan: (Tape<T>, usize),
) -> bool {
    &&& follows(before, plan.0)
    &&& sound(s, table, plan.0)
    &&& holds(plan.0, plan.1)
}

pub proof fn lemma_follows<T>(a: Tape<T>, b: Tape<T>, c: Tape<T>)
    requires
        follows(a, b),
        follows(b, c),
    ensures
        follows(a, c),
{
    assert forall|k: int| 0 <= k < a.log.len() implies #[trigger] c.log[k] == a.log[k] by {
        assert(b.log[k] == a.log[k]);
    }
    assert forall|k: int| 0 <= k < a.lens.len() implies #[trigger] c.lens[k] == a.lens[k] by {
        assert(b.lens[k] == a.lens[k]);
    }
    if numbered(c) {
        assert forall|k: int, n: usize|
            a.log.len() <= k < c.log.len() && #[trigger] outputs(c.log[k].launch).contains(
                n,
            ) implies n >= a.lens.len() by {
            if k < b.log.len() {
                assert(c.log[k] == b.log[k]);
                assert(outputs(b.log[k].launch).contains(n));
            }
        }
    }
}

/// What was written stays written.
pub proof fn lemma_stays<T>(before: Tape<T>, after: Tape<T>, buffer: usize)
    requires
        follows(before, after),
        holds(before, buffer),
    ensures
        holds(after, buffer),
{
    if numbered(after) && !after.stopped() {
        let k = choose|k: int|
            0 <= k < before.log.len() && #[trigger] outputs(before.log[k].launch).contains(buffer);
        assert(after.log[k] == before.log[k]);
        assert(outputs(after.log[k].launch).contains(buffer));
    }
}

/// A launch stays in place when there are more buffers.
proof fn lemma_in_place_stays<T>(
    s: Gemma4CudaState<T>,
    table: Gemma4CudaCacheTable,
    before: Seq<usize>,
    after: Seq<usize>,
    log: Seq<Order<T>>,
    k: int,
)
    requires
        before.len() <= after.len(),
        forall|b: int| 0 <= b < before.len() ==> #[trigger] after[b] == before[b],
        in_place(s, table, before, log, k),
    ensures
        in_place(s, table, after, log, k),
{
    let launch = log[k].launch;
    let (r, w) = (inputs(launch), outputs(launch));
    assert forall|j: int| 0 <= j < r.len() implies after[(#[trigger] r[j]) as int]
        == before[r[j] as int] && r[j] < after.len() by {}
    assert forall|j: int| 0 <= j < w.len() implies after[(#[trigger] w[j]) as int]
        == before[w[j] as int] && w[j] < after.len() by {}
    assert(r.len() > 0 ==> after[r[0] as int] == before[r[0] as int]);
    assert(r.len() > 1 ==> after[r[1] as int] == before[r[1] as int]);
    assert(r.len() > 2 ==> after[r[2] as int] == before[r[2] as int]);
    assert(w.len() > 0 ==> after[w[0] as int] == before[w[0] as int]);
    assert(w.len() > 1 ==> after[w[1] as int] == before[w[1] as int]);
    assert(served(s, table, after, log[k]));
}

/// Buffers that no launch names change nothing.
proof fn lemma_more_buffers<T>(
    s: Gemma4CudaState<T>,
    table: Gemma4CudaCacheTable,
    before: Tape<T>,
    after: Tape<T>,
)
    requires
        safe(s, table, before),
        follows(before, after),
        after.log == before.log,
    ensures
        safe(s, table, after),
{
    reveal(safe);
    assert forall|k: int| 0 <= k < after.log.len() implies #[trigger] in_place(
        s,
        table,
        after.lens,
        after.log,
        k,
    ) by {
        assert(in_place(s, table, before.lens, before.log, k));
        lemma_in_place_stays(s, table, before.lens, after.lens, after.log, k);
    }
}

/// A buffer that is not there yet was not written.
proof fn lemma_unwritten<T>(
    s: Gemma4CudaState<T>,
    table: Gemma4CudaCacheTable,
    t: Tape<T>,
    buffer: usize,
)
    requires
        safe(s, table, t),
        buffer >= t.lens.len(),
    ensures
        !written(t.log, t.log.len() as int, buffer),
{
    reveal(safe);
    if written(t.log, t.log.len() as int, buffer) {
        let k = choose|k: int|
            0 <= k < t.log.len() && #[trigger] outputs(t.log[k].launch).contains(buffer);
        assert(in_place(s, table, t.lens, t.log, k));
        let w = outputs(t.log[k].launch);
        let j = choose|j: int| 0 <= j < w.len() && w[j] == buffer;
        assert(outputs(t.log[k].launch)[j] < t.lens.len());
    }
}

/// One launch more is in place where it reads what was written, writes what was not, and
/// is served.
proof fn lemma_ordered<T>(
    s: Gemma4CudaState<T>,
    table: Gemma4CudaCacheTable,
    t: Tape<T>,
    launch: Launch<T>,
    grid: Option<Grid>,
)
    requires
        safe(s, table, t),
        forall|j: int|
            0 <= j < inputs(launch).len() ==> {
                let buffer = #[trigger] inputs(launch)[j];
                buffer < t.lens.len() && written(t.log, t.log.len() as int, buffer)
            },
        forall|j: int|
            0 <= j < outputs(launch).len() ==> {
                let buffer = #[trigger] outputs(launch)[j];
                buffer < t.lens.len() && !written(t.log, t.log.len() as int, buffer)
            },
        outputs(launch).no_duplicates(),
        served(s, table, t.lens, (Order { launch, grid })),
    ensures
        safe(s, table, t.ordered(launch, grid)),
        forall|j: int|
            0 <= j < outputs(launch).len() ==> {
                let after = t.ordered(launch, grid);
                written(after.log, after.log.len() as int, #[trigger] outputs(launch)[j])
            },
{
    reveal(safe);
    let after = t.ordered(launch, grid);
    let n = t.log.len() as int;
    assert(after.log[n] == (Order { launch, grid }));
    assert forall|b: usize, k: int| 0 <= k <= n implies #[trigger] written(after.log, k, b)
        == written(t.log, k, b) by {
        if written(after.log, k, b) {
            let j = choose|j: int|
                0 <= j < k && #[trigger] outputs(after.log[j].launch).contains(b);
            assert(t.log[j] == after.log[j]);
            assert(outputs(t.log[j].launch).contains(b));
        }
        if written(t.log, k, b) {
            let j = choose|j: int| 0 <= j < k && #[trigger] outputs(t.log[j].launch).contains(b);
            assert(t.log[j] == after.log[j]);
            assert(outputs(after.log[j].launch).contains(b));
        }
    }
    assert forall|k: int| 0 <= k < after.log.len() implies #[trigger] in_place(
        s,
        table,
        after.lens,
        after.log,
        k,
    ) by {
        if k < n {
            assert(after.log[k] == t.log[k]);
            assert(in_place(s, table, t.lens, t.log, k));
        }
    }
    assert forall|j: int| 0 <= j < outputs(launch).len() implies written(
        after.log,
        after.log.len() as int,
        #[trigger] outputs(launch)[j],
    ) by {
        assert(outputs(after.log[n].launch).contains(outputs(launch)[j]));
    }
}

/// Every buffer of a list was written.
pub open spec fn all_hold<T>(t: Tape<T>, buffers: Seq<usize>) -> bool {
    forall|j: int| 0 <= j < buffers.len() ==> holds(t, #[trigger] buffers[j])
}

/// A buffer filled by one launch.
proof fn lemma_filled<T>(
    s: Gemma4CudaState<T>,
    table: Gemma4CudaCacheTable,
    t: Tape<T>,
    len: usize,
    launch: Launch<T>,
    grid: std::result::Result<Grid, Failure>,
)
    requires
        sound(s, table, t),
        !t.stopped(),
        all_hold(t, inputs(launch)),
        outputs(launch) == seq![t.next()],
        numbered(t) ==> (grid matches Ok(found) ==> served(
            s,
            table,
            t.lens.push(len),
            (Order { launch, grid: Some(found) }),
        )),
    ensures
        went(s, table, t, t.filled(len, launch, grid)),
        spans(t.filled(len, launch, grid).0, t.next(), len as int),
{
    let made = t.with_buffer(len);
    let (after, out) = t.filled(len, launch, grid);
    if numbered(after) {
        assert(numbered(t));
        assert(follows(t, made));
        lemma_more_buffers(s, table, t, made);
        lemma_unwritten(s, table, t, out);
        if let Ok(found) = grid {
            let w = outputs(launch);
            assert(w.no_duplicates());
            assert forall|j: int| 0 <= j < inputs(launch).len() implies {
                let buffer = #[trigger] inputs(launch)[j];
                buffer < made.lens.len() && written(made.log, made.log.len() as int, buffer)
            } by {
                assert(holds(t, inputs(launch)[j]));
            }
            assert forall|j: int| 0 <= j < outputs(launch).len() implies {
                let buffer = #[trigger] outputs(launch)[j];
                buffer < made.lens.len() && !written(made.log, made.log.len() as int, buffer)
            } by {
                assert(w[j] == out);
            }
            lemma_ordered(s, table, made, launch, Some(found));
            assert(written(after.log, after.log.len() as int, outputs(launch)[0]));
            assert forall|k: int, b: usize|
                t.log.len() <= k < after.log.len() && #[trigger] outputs(
                    after.log[k].launch,
                ).contains(b) implies b >= t.lens.len() by {
                assert(after.log[k].launch == launch);
                let j = choose|j: int| 0 <= j < w.len() && w[j] == b;
                assert(w[j] == out);
            }
        } else {
            lemma_more_buffers(s, table, t, after);
        }
    }
}

/// A launch that fills no buffer.
proof fn lemma_launched<T>(
    s: Gemma4CudaState<T>,
    table: Gemma4CudaCacheTable,
    t: Tape<T>,
    launch: Launch<T>,
    grid: std::result::Result<Grid, Failure>,
)
    requires
        sound(s, table, t),
        all_hold(t, inputs(launch)),
        t.stopped() ==> grid is Err || inputs(launch).len() == 0,
        outputs(launch).len() == 0,
        numbered(t) ==> (grid matches Ok(found) ==> served(
            s,
            table,
            t.lens,
            (Order { launch, grid: Some(found) }),
        )),
    ensures
        follows(t, t.launched(launch, grid)),
        sound(s, table, t.launched(launch, grid)),
{
    let after = t.launched(launch, grid);
    if numbered(t) {
        if let Ok(found) = grid {
            assert forall|j: int| 0 <= j < inputs(launch).len() implies {
                let buffer = #[trigger] inputs(launch)[j];
                buffer < t.lens.len() && written(t.log, t.log.len() as int, buffer)
            } by {
                assert(holds(t, inputs(launch)[j]));
            }
            assert(outputs(launch).no_duplicates());
            lemma_ordered(s, table, t, launch, Some(found));
            assert forall|k: int, b: usize|
                t.log.len() <= k < after.log.len() && #[trigger] outputs(
                    after.log[k].launch,
                ).contains(b) implies b >= t.lens.len() by {
                assert(after.log[k].launch == launch);
            }
        } else {
            assert(follows(t, after));
            lemma_more_buffers(s, table, t, after);
        }
    }
}

/// Recording that stops.
proof fn lemma_stop<T>(
    s: Gemma4CudaState<T>,
    table: Gemma4CudaCacheTable,
    t: Tape<T>,
    after: Tape<T>,
)
    requires
        sound(s, table, t),
        after.lens == t.lens,
        after.log == t.log,
        after.stopped(),
    ensures
        follows(t, after),
        sound(s, table, after),
{
    if numbered(t) {
        lemma_more_buffers(s, table, t, after);
    }
}

/// The number that a name has is that of a weight.
proof fn lemma_number(names: Seq<String>, name: Seq<char>)
    requires
        names.len() <= usize::MAX,
    ensures
        number_of(names, name) matches Some(i) ==> i < names.len(),
    decreases names.len(),
{
    if names.len() > 0 && names.last()@ != name {
        lemma_number(names.drop_last(), name);
    }
}

proof fn lemma_weight_number<T>(s: Gemma4CudaState<T>, suffix: Seq<char>)
    requires
        usable(s),
    ensures
        s.weight_number(suffix) matches Some(i) ==> i < s.weights@.len(),
{
    let names = aliases(suffix);
    lemma_number(s.names@, names[0]);
    lemma_number(s.names@, names[1]);
    lemma_number(s.names@, names[2]);
    lemma_number(s.names@, names[3]);
}

/// The weights are sound, and can be numbered.
pub open spec fn usable<T>(s: Gemma4CudaState<T>) -> bool {
    s.wf() && s.names@.len() <= usize::MAX
}

proof fn lemma_shortened<T: Copy>(
    s: Gemma4CudaState<T>,
    table: Gemma4CudaCacheTable,
    t: Tape<T>,
    input: usize,
)
    requires
        sound(s, table, t),
        holds(t, input),
    ensures
        went(s, table, t, s.shortened(t, input)),
{
    if !t.stopped() {
        let len = t.lens[input as int];
        let launch = Launch::<T>::Shorten { input, out: t.next() };
        assert(inputs(launch) =~= seq![input]);
        lemma_filled(s, table, t, len, launch, model_grid(len as nat));
    }
}

proof fn lemma_normed_by<T: Copy>(
    s: Gemma4CudaState<T>,
    table: Gemma4CudaCacheTable,
    t: Tape<T>,
    input: usize,
    weight: usize,
    label: Option<Seq<char>>,
    epsilon: T,
    short: bool,
)
    requires
        usable(s),
        sound(s, table, t),
        holds(t, input),
        !t.stopped(),
        weight < s.weights@.len(),
    ensures
        went(s, table, t, s.normed_by(t, input, weight, label, epsilon, short)),
{
    let shape = s.weights@[weight as int].shape@;
    let len = t.lens[input as int];
    let plan = s.normed_by(t, input, weight, label, epsilon, short);
    assert(usable_shape(shape));
    if shape.len() != 1 || len % shape[0] != 0 {
        lemma_stop(s, table, t, plan.0);
    } else {
        let (hidden, out) = (shape[0], t.next());
        let launch = if short {
            Launch::RmsNormShort { input, weight, hidden, epsilon, out }
        } else {
            Launch::RmsNorm { input, weight, hidden, epsilon, out }
        };
        assert(inputs(launch) =~= seq![input]);
        assert(shape =~= seq![hidden]);
        lemma_filled(s, table, t, len, launch, row_grid((len / hidden) as nat));
    }
}

proof fn lemma_normed<T: Copy>(
    s: Gemma4CudaState<T>,
    table: Gemma4CudaCacheTable,
    t: Tape<T>,
    input: usize,
    name: Seq<char>,
    epsilon: T,
    short: bool,
)
    requires
        usable(s),
        sound(s, table, t),
        holds(t, input),
    ensures
        went(s, table, t, s.normed(t, input, name, epsilon, short)),
{
    if !t.stopped() {
        lemma_weight_number(s, name);
        match s.weight_number(name) {
            None => {
                lemma_stop(s, table, t, s.normed(t, input, name, epsilon, short).0);
            },
            Some(weight) => {
                lemma_normed_by(s, table, t, input, weight, Some(name), epsilon, short);
            },
        }
    }
}

proof fn lemma_normed_at<T: Copy>(
    s: Gemma4CudaState<T>,
    table: Gemma4CudaCacheTable,
    t: Tape<T>,
    input: usize,
    weight: usize,
    epsilon: T,
    short: bool,
)
    requires
        usable(s),
        sound(s, table, t),
        holds(t, input),
    ensures
        went(s, table, t, s.normed_at(t, input, weight, epsilon, short)),
{
    if !t.stopped() {
        if weight >= s.weights@.len() {
            lemma_stop(s, table, t, s.normed_at(t, input, weight, epsilon, short).0);
        } else {
            lemma_normed_by(s, table, t, input, weight, None, epsilon, short);
        }
    }
}

proof fn lemma_normed_unit<T: Copy>(
    s: Gemma4CudaState<T>,
    table: Gemma4CudaCacheTable,
    t: Tape<T>,
    input: usize,
    hidden: usize,
    epsilon: T,
)
    requires
        sound(s, table, t),
        holds(t, input),
    ensures
        went(s, table, t, s.normed_unit(t, input, hidden, epsilon)),
        numbered(t) && !t.stopped() ==> spans(
            s.normed_unit(t, input, hidden, epsilon).0,
            s.normed_unit(t, input, hidden, epsilon).1,
            t.lens[input as int] as int,
        ),
{
    if !t.stopped() {
        let len = t.lens[input as int];
        if hidden == 0 || len % hidden != 0 {
            lemma_stop(s, table, t, s.normed_unit(t, input, hidden, epsilon).0);
        } else {
            let launch = Launch::RmsNormUnit { input, hidden, epsilon, out: t.next() };
            assert(inputs(launch) =~= seq![input]);
            lemma_filled(s, table, t, len, launch, row_grid((len / hidden) as nat));
        }
    }
}

proof fn lemma_rotated<T: Copy>(
    s: Gemma4CudaState<T>,
    table: Gemma4CudaCacheTable,
    t: Tape<T>,
    input: usize,
    rotation: Rotation,
    position: usize,
    theta: T,
    factor: T,
)
    requires
        sound(s, table, t),
        holds(t, input),
    ensures
        went(s, table, t, s.rotated(t, input, rotation, position, theta, factor)),
        numbered(t) && !t.stopped() ==> spans(
            s.rotated(t, input, rotation, position, theta, factor).0,
            s.rotated(t, input, rotation, position, theta, factor).1,
            t.lens[input as int] as int,
        ),
{
    if !t.stopped() {
        let len = t.lens[input as int];
        if !Gemma4CudaState::<T>::whole_heads(len, rotation) {
            lemma_stop(s, table, t, s.rotated(t, input, rotation, position, theta, factor).0);
        } else {
            let launch = Launch::Rope { input, rotation, position, theta, factor, out: t.next() };
            assert(inputs(launch) =~= seq![input]);
            lemma_filled(s, table, t, len, launch, model_grid(len as nat));
        }
    }
}

proof fn lemma_rotated_state<T: Copy>(
    s: Gemma4CudaState<T>,
    table: Gemma4CudaCacheTable,
    t: Tape<T>,
    input: usize,
    rotation: Rotation,
    theta: T,
    factor: T,
)
    requires
        sound(s, table, t),
        holds(t, input),
    ensures
        went(s, table, t, s.rotated_state(t, input, rotation, theta, factor)),
{
    if !t.stopped() {
        let len = t.lens[input as int];
        if !Gemma4CudaState::<T>::whole_heads(len, rotation) {
            lemma_stop(s, table, t, s.rotated_state(t, input, rotation, theta, factor).0);
        } else {
            let launch = Launch::RopeState { input, rotation, theta, factor, out: t.next() };
            assert(inputs(launch) =~= seq![input]);
            lemma_filled(s, table, t, len, launch, model_grid(len as nat));
        }
    }
}

/// Recording that stops after a buffer was made.
proof fn lemma_abandoned<T>(
    s: Gemma4CudaState<T>,
    table: Gemma4CudaCacheTable,
    t: Tape<T>,
    len: usize,
    after: Tape<T>,
)
    requires
        sound(s, table, t),
        after.lens == t.lens.push(len),
        after.log == t.log,
        after.stopped(),
    ensures
        follows(t, after),
        sound(s, table, after),
{
    if numbered(after) {
        lemma_more_buffers(s, table, t, after);
    }
}

proof fn lemma_multiplied<T: Copy>(
    s: Gemma4CudaState<T>,
    table: Gemma4CudaCacheTable,
    t: Tape<T>,
    input: usize,
    weight: usize,
    rows: usize,
    outs: usize,
    ins: usize,
)
    requires
        sound(s, table, t),
        holds(t, input),
        !t.stopped(),
        weight < s.weights@.len(),
        rows * outs <= usize::MAX,
    ensures
        went(s, table, t, s.multiplied(t, input, weight, rows, outs, ins)),
        spans(
            s.multiplied(t, input, weight, rows, outs, ins).0,
            s.multiplied(t, input, weight, rows, outs, ins).1,
            rows * outs,
        ),
{
    let out = t.next();
    let len = (rows * outs) as usize;
    let made = t.with_buffer(len);
    let plan = s.multiplied(t, input, weight, rows, outs, ins);
    if plan.0.stopped() {
        lemma_abandoned(s, table, t, len, plan.0);
    } else {
        let launch = Launch::<T>::Linear {
            input,
            weight,
            rows,
            outputs: outs,
            inputs: ins,
            out,
        };
        let w = outputs(launch);
        if numbered(plan.0) {
            lemma_more_buffers(s, table, t, made);
            lemma_unwritten(s, table, t, out);
            assert(w.no_duplicates());
            assert(made.lens[input as int] == t.lens[input as int]);
            lemma_ordered(s, table, made, launch, None);
            assert(written(plan.0.log, plan.0.log.len() as int, w[0]));
            assert forall|k: int, b: usize|
                t.log.len() <= k < plan.0.log.len() && #[trigger] outputs(
                    plan.0.log[k].launch,
                ).contains(b) implies b >= t.lens.len() by {
                assert(plan.0.log[k].launch == launch);
                let j = choose|j: int| 0 <= j < w.len() && w[j] == b;
                assert(w[j] == out);
            }
        }
    }
}

/// As many rows as a prompt has can be counted in a matrix.
proof fn lemma_rows_count(rows: usize, width: usize)
    requires
        rows <= MOST_ROWS,
        small(width),
    ensures
        rows * width <= usize::MAX,
{
    assert(rows * width <= width * MOST_ROWS) by (nonlinear_arith)
        requires
            rows <= MOST_ROWS,
    ;
}

proof fn lemma_projected_by<T: Copy>(
    s: Gemma4CudaState<T>,
    table: Gemma4CudaCacheTable,
    t: Tape<T>,
    input: usize,
    rows: usize,
    weight: usize,
    label: Option<Seq<char>>,
)
    requires
        usable(s),
        sound(s, table, t),
        holds(t, input),
        !t.stopped(),
        weight < s.weights@.len(),
        rows <= MOST_ROWS,
    ensures
        went(s, table, t, s.projected_by(t, input, rows, weight, label)),
{
    let shape = s.weights@[weight as int].shape@;
    let len = t.lens[input as int];
    assert(usable_shape(shape));
    if shape.len() != 2 || len != rows * shape[1] {
        lemma_stop(s, table, t, s.projected_by(t, input, rows, weight, label).0);
    } else {
        assert(small(shape[0]));
        lemma_rows_count(rows, shape[0]);
        lemma_multiplied(s, table, t, input, weight, rows, shape[0], shape[1]);
    }
}

proof fn lemma_projected<T: Copy>(
    s: Gemma4CudaState<T>,
    table: Gemma4CudaCacheTable,
    t: Tape<T>,
    input: usize,
    rows: usize,
    name: Seq<char>,
)
    requires
        usable(s),
        sound(s, table, t),
        holds(t, input),
        rows <= MOST_ROWS,
    ensures
        went(s, table, t, s.projected(t, input, rows, name)),
{
    if !t.stopped() {
        lemma_weight_number(s, name);
        match s.weight_number(name) {
            None => {
                lemma_stop(s, table, t, s.projected(t, input, rows, name).0);
            },
            Some(weight) => {
                lemma_projected_by(s, table, t, input, rows, weight, Some(name));
            },
        }
    }
}

proof fn lemma_projected_at<T: Copy>(
    s: Gemma4CudaState<T>,
    table: Gemma4CudaCacheTable,
    t: Tape<T>,
    input: usize,
    rows: usize,
    weight: usize,
)
    requires
        usable(s),
        sound(s, table, t),
        holds(t, input),
        rows <= MOST_ROWS,
    ensures
        went(s, table, t, s.projected_at(t, input, rows, weight)),
{
    if !t.stopped() {
        if weight >= s.weights@.len() {
            lemma_stop(s, table, t, s.projected_at(t, input, rows, weight).0);
        } else {
            lemma_projected_by(s, table, t, input, rows, weight, None);
        }
    }
}

proof fn lemma_mapped_at<T: Copy>(
    s: Gemma4CudaState<T>,
    table: Gemma4CudaCacheTable,
    t: Tape<T>,
    input: usize,
    rows: usize,
    weight: usize,
)
    requires
        usable(s),
        sound(s, table, t),
        holds(t, input),
        rows <= MOST_ROWS,
    ensures
        went(s, table, t, s.mapped_at(t, input, rows, weight)),
{
    if !t.stopped() {
        let (a, short) = s.shortened(t, input);
        lemma_shortened(s, table, t, input);
        lemma_projected_at(s, table, a, short, rows, weight);
        lemma_follows(t, a, s.mapped_at(t, input, rows, weight).0);
    }
}

proof fn lemma_mapped<T: Copy>(
    s: Gemma4CudaState<T>,
    table: Gemma4CudaCacheTable,
    t: Tape<T>,
    input: usize,
    rows: usize,
    name: Seq<char>,
)
    requires
        usable(s),
        sound(s, table, t),
        holds(t, input),
        rows <= MOST_ROWS,
    ensures
        went(s, table, t, s.mapped(t, input, rows, name)),
{
    let plan = s.mapped(t, input, rows, name);
    if !t.stopped() {
        lemma_weight_number(s, name);
        match s.weight_number(name) {
            None => {
                lemma_stop(s, table, t, plan.0);
            },
            Some(weight) => {
                let shape = s.weights@[weight as int].shape@;
                if shape.len() != 2 || t.lens[input as int] != rows * shape[1] {
                    lemma_stop(s, table, t, plan.0);
                } else {
                    let (a, short) = s.shortened(t, input);
                    lemma_shortened(s, table, t, input);
                    lemma_projected(s, table, a, short, rows, name);
                    lemma_follows(t, a, plan.0);
                }
            },
        }
    }
}

proof fn lemma_joined<T: Copy>(
    s: Gemma4CudaState<T>,
    table: Gemma4CudaCacheTable,
    t: Tape<T>,
    join: Join,
    left: usize,
    right: usize,
)
    requires
        sound(s, table, t),
        holds(t, left),
        holds(t, right),
    ensures
        went(s, table, t, s.joined(t, join, left, right)),
{
    if !t.stopped() {
        let len = t.lens[left as int];
        if len != t.lens[right as int] {
            lemma_stop(s, table, t, s.joined(t, join, left, right).0);
        } else {
            let launch = joining::<T>(join, left, right, t.next());
            assert(inputs(launch) =~= seq![left, right]);
            assert(outputs(launch) =~= seq![t.next()]);
            lemma_filled(s, table, t, len, launch, model_grid(len as nat));
        }
    }
}

proof fn lemma_scaled<T: Copy>(
    s: Gemma4CudaState<T>,
    table: Gemma4CudaCacheTable,
    t: Tape<T>,
    input: usize,
    factor: Factor,
)
    requires
        sound(s, table, t),
        holds(t, input),
    ensures
        went(s, table, t, s.scaled(t, input, factor)),
{
    if !t.stopped() {
        let len = t.lens[input as int];
        let launch = Launch::<T>::Scale { input, factor, out: t.next() };
        assert(inputs(launch) =~= seq![input]);
        lemma_filled(s, table, t, len, launch, model_grid(len as nat));
    }
}

proof fn lemma_scaled_at<T: Copy>(
    s: Gemma4CudaState<T>,
    table: Gemma4CudaCacheTable,
    t: Tape<T>,
    input: usize,
    weight: usize,
)
    requires
        sound(s, table, t),
        holds(t, input),
    ensures
        went(s, table, t, s.scaled_at(t, input, weight)),
{
    if !t.stopped() {
        let len = t.lens[input as int];
        if weight >= s.weights@.len() || s.weights@[weight as int].len != 1 {
            lemma_stop(s, table, t, s.scaled_at(t, input, weight).0);
        } else {
            let launch = Launch::<T>::ScaleByWeight { input, weight, out: t.next() };
            assert(inputs(launch) =~= seq![input]);
            lemma_filled(s, table, t, len, launch, model_grid(len as nat));
        }
    }
}

proof fn lemma_bent<T: Copy>(
    s: Gemma4CudaState<T>,
    table: Gemma4CudaCacheTable,
    t: Tape<T>,
    input: usize,
)
    requires
        sound(s, table, t),
        holds(t, input),
    ensures
        went(s, table, t, s.bent(t, input)),
{
    if !t.stopped() {
        let len = t.lens[input as int];
        let launch = Launch::<T>::Gelu { input, out: t.next() };
        assert(inputs(launch) =~= seq![input]);
        lemma_filled(s, table, t, len, launch, model_grid(len as nat));
    }
}

proof fn lemma_sliced<T: Copy>(
    s: Gemma4CudaState<T>,
    table: Gemma4CudaCacheTable,
    t: Tape<T>,
    input: usize,
    offset: int,
    len: usize,
)
    requires
        sound(s, table, t),
        holds(t, input),
        0 <= offset,
    ensures
        went(s, table, t, s.sliced(t, input, offset, len)),
{
    if !t.stopped() {
        if offset + len > t.lens[input as int] {
            lemma_stop(s, table, t, s.sliced(t, input, offset, len).0);
        } else {
            let launch = Launch::<T>::Slice { input, offset: offset as usize, out: t.next() };
            assert(inputs(launch) =~= seq![input]);
            lemma_filled(s, table, t, len, launch, model_grid(len as nat));
        }
    }
}

proof fn lemma_rows_sliced<T: Copy>(
    s: Gemma4CudaState<T>,
    table: Gemma4CudaCacheTable,
    t: Tape<T>,
    input: usize,
    rows: usize,
    input_width: usize,
    offset: usize,
    output_width: usize,
)
    requires
        sound(s, table, t),
        holds(t, input),
    ensures
        went(s, table, t, s.rows_sliced(t, input, rows, input_width, offset, output_width)),
        spans(
            s.rows_sliced(t, input, rows, input_width, offset, output_width).0,
            s.rows_sliced(t, input, rows, input_width, offset, output_width).1,
            rows * output_width,
        ),
{
    if !t.stopped() {
        let plan = s.rows_sliced(t, input, rows, input_width, offset, output_width);
        if rows == 0 || t.lens[input as int] != rows * input_width || offset + output_width
            > input_width {
            lemma_stop(s, table, t, plan.0);
        } else {
            assert(rows * output_width <= rows * input_width) by (nonlinear_arith)
                requires
                    output_width <= input_width,
            ;
            let len = (rows * output_width) as usize;
            let launch = Launch::<T>::SliceRows {
                input,
                input_width,
                offset,
                output_width,
                out: t.next(),
            };
            assert(inputs(launch) =~= seq![input]);
            let more = t.lens.push(len);
            if numbered(t) {
                assert(in_rows(
                    more[input as int],
                    input_width,
                    more[t.next() as int],
                    output_width,
                    rows as int,
                ));
                assert(both_in_rows(
                    more[input as int],
                    input_width,
                    more[t.next() as int],
                    output_width,
                ));
            }
            lemma_filled(s, table, t, len, launch, model_grid(len as nat));
        }
    }
}

/// A row of a table stands within it.
proof fn lemma_row_within(row: int, rows: usize, width: usize, len: usize)
    requires
        0 <= row < rows,
        len == rows * width,
    ensures
        0 <= row * width,
        row * width + width <= len,
{
    assert(0 <= row * width && row * width + width <= rows * width) by (nonlinear_arith)
        requires
            0 <= row < rows,
            0 <= width,
    ;
}

proof fn lemma_embedded_state<T: Copy>(
    s: Gemma4CudaState<T>,
    table: Gemma4CudaCacheTable,
    t: Tape<T>,
    hidden: usize,
)
    requires
        usable(s),
        sound(s, table, t),
    ensures
        went(s, table, t, s.embedded_state(t, hidden)),
{
    let name = "embed_tokens.weight"@;
    if !t.stopped() {
        lemma_weight_number(s, name);
        let plan = s.embedded_state(t, hidden);
        match s.weight_number(name) {
            None => {
                lemma_stop(s, table, t, plan.0);
            },
            Some(weight) => {
                if !s.table_of(weight, hidden) {
                    lemma_stop(s, table, t, plan.0);
                } else {
                    let launch = Launch::<T>::WeightRowState {
                        weight,
                        width: hidden,
                        factor: Factor::Root(hidden),
                        out: t.next(),
                    };
                    lemma_filled(s, table, t, hidden, launch, model_grid(hidden as nat));
                }
            },
        }
    }
}

proof fn lemma_embedded_rows<T: Copy>(
    s: Gemma4CudaState<T>,
    table: Gemma4CudaCacheTable,
    t: Tape<T>,
    tokens: Seq<u32>,
    hidden: usize,
)
    requires
        usable(s),
        sound(s, table, t),
    ensures
        went(s, table, t, s.embedded_rows(t, tokens, hidden)),
{
    let name = "embed_tokens.weight"@;
    if !t.stopped() {
        lemma_weight_number(s, name);
        let plan = s.embedded_rows(t, tokens, hidden);
        match s.weight_number(name) {
            None => {
                lemma_stop(s, table, t, plan.0);
            },
            Some(weight) => {
                if plan.0.stopped() && plan.0.lens == t.lens {
                    lemma_stop(s, table, t, plan.0);
                } else {
                    let len = (tokens.len() * hidden) as usize;
                    let launch = Launch::<T>::WeightRows {
                        weight,
                        width: hidden,
                        factor: Factor::Root(hidden),
                        out: t.next(),
                    };
                    lemma_filled(s, table, t, len, launch, model_grid(len as nat));
                }
            },
        }
    }
}

/// Three buffers were written.
pub open spec fn went_three<T>(
    s: Gemma4CudaState<T>,
    table: Gemma4CudaCacheTable,
    before: Tape<T>,
    plan: (Tape<T>, (usize, usize, usize)),
) -> bool {
    &&& follows(before, plan.0)
    &&& sound(s, table, plan.0)
    &&& holds(plan.0, plan.1.0)
    &&& holds(plan.0, plan.1.1)
    &&& holds(plan.0, plan.1.2)
}

/// A length stays.
proof fn lemma_spans_stays<T>(before: Tape<T>, after: Tape<T>, buffer: usize, len: int)
    requires
        follows(before, after),
        spans(before, buffer, len),
    ensures
        spans(after, buffer, len),
{
}

proof fn lemma_split_qkv<T: Copy>(
    s: Gemma4CudaState<T>,
    table: Gemma4CudaCacheTable,
    t: Tape<T>,
    fused: usize,
    rows: usize,
    widths: (usize, usize, usize),
    mismatch: Failure,
)
    requires
        sound(s, table, t),
        holds(t, fused),
        widths.0 + widths.1 + widths.2 <= usize::MAX,
    ensures
        went_three(s, table, t, s.split_qkv(t, fused, rows, widths, mismatch)),
        spans(
            s.split_qkv(t, fused, rows, widths, mismatch).0,
            s.split_qkv(t, fused, rows, widths, mismatch).1.1,
            rows * widths.1,
        ),
        spans(
            s.split_qkv(t, fused, rows, widths, mismatch).0,
            s.split_qkv(t, fused, rows, widths, mismatch).1.2,
            rows * widths.2,
        ),
{
    let width = widths.0 + widths.1 + widths.2;
    let plan = s.split_qkv(t, fused, rows, widths, mismatch);
    if !t.stopped() {
        if t.lens[fused as int] != rows * width {
            lemma_stop(s, table, t, plan.0);
        } else {
            let w = width as usize;
            let (a, query) = s.rows_sliced(t, fused, rows, w, 0, widths.0);
            lemma_rows_sliced(s, table, t, fused, rows, w, 0, widths.0);
            lemma_stays(t, a, fused);
            let (b, key) = s.rows_sliced(a, fused, rows, w, widths.0, widths.1);
            lemma_rows_sliced(s, table, a, fused, rows, w, widths.0, widths.1);
            lemma_follows(t, a, b);
            lemma_stays(t, b, fused);
            let second = (widths.0 + widths.1) as usize;
            let (c, value) = s.rows_sliced(b, fused, rows, w, second, widths.2);
            lemma_rows_sliced(s, table, b, fused, rows, w, second, widths.2);
            lemma_follows(a, b, c);
            lemma_follows(t, b, c);
            lemma_stays(a, c, query);
            lemma_stays(b, c, key);
            lemma_spans_stays(b, c, key, rows * widths.1);
        }
    }
}

proof fn lemma_projected_qkv_at<T: Copy>(
    s: Gemma4CudaState<T>,
    table: Gemma4CudaCacheTable,
    t: Tape<T>,
    input: usize,
    rows: usize,
    weight: usize,
    widths: (usize, usize, usize),
)
    requires
        usable(s),
        sound(s, table, t),
        holds(t, input),
        rows <= MOST_ROWS,
        widths.0 + widths.1 + widths.2 <= usize::MAX,
    ensures
        went_three(s, table, t, s.projected_qkv_at(t, input, rows, weight, widths)),
{
    if !t.stopped() {
        let (a, fused) = s.projected_at(t, input, rows, weight);
        lemma_projected_at(s, table, t, input, rows, weight);
        let mismatch = Failure::InvalidShape("decode-plan fused QKV output mismatch"@);
        lemma_split_qkv(s, table, a, fused, rows, widths, mismatch);
        lemma_follows(t, a, s.projected_qkv_at(t, input, rows, weight, widths).0);
    }
}

proof fn lemma_projected_qkv<T: Copy>(
    s: Gemma4CudaState<T>,
    table: Gemma4CudaCacheTable,
    t: Tape<T>,
    input: usize,
    rows: usize,
    prefix: Seq<char>,
    widths: (usize, usize, usize),
)
    requires
        usable(s),
        sound(s, table, t),
        holds(t, input),
        rows <= MOST_ROWS,
        widths.0 + widths.1 + widths.2 <= usize::MAX,
    ensures
        went_three(s, table, t, s.projected_qkv(t, input, rows, prefix, widths)),
        spans(
            s.projected_qkv(t, input, rows, prefix, widths).0,
            s.projected_qkv(t, input, rows, prefix, widths).1.1,
            rows * widths.1,
        ),
        spans(
            s.projected_qkv(t, input, rows, prefix, widths).0,
            s.projected_qkv(t, input, rows, prefix, widths).1.2,
            rows * widths.2,
        ),
{
    let name = prefix + ".self_attn.qkv_proj.weight"@;
    if !t.stopped() {
        let (a, fused) = s.projected(t, input, rows, name);
        lemma_projected(s, table, t, input, rows, name);
        let mismatch = Failure::InvalidShape(name + " output has an unexpected extent"@);
        lemma_split_qkv(s, table, a, fused, rows, widths, mismatch);
        lemma_follows(t, a, s.projected_qkv(t, input, rows, prefix, widths).0);
    }
}

/// The layer has this cache.
pub open spec fn cached(table: Gemma4CudaCacheTable, layer: usize, cache: Gemma4CudaKvCache) -> bool {
    layer < table.layers@.len() && table.layers@[layer as int] == Some(cache)
}

proof fn lemma_appended_state<T: Copy>(
    s: Gemma4CudaState<T>,
    table: Gemma4CudaCacheTable,
    t: Tape<T>,
    layer: usize,
    cache: Gemma4CudaKvCache,
    key: usize,
    value: usize,
)
    requires
        sound(s, table, t),
        holds(t, key),
        holds(t, value),
        cached(table, layer, cache),
    ensures
        follows(t, s.appended_state(t, layer, cache, key, value)),
        sound(s, table, s.appended_state(t, layer, cache, key, value)),
{
    let width = cache.width();
    let after = s.appended_state(t, layer, cache, key, value);
    if !t.stopped() {
        if t.lens[key as int] != width || t.lens[value as int] != width {
            lemma_stop(s, table, t, after);
        } else {
            let grid = model_grid(width as nat);
            let (w, capacity) = (width as usize, cache.capacity);
            let first = Launch::<T>::CacheWriteState {
                layer,
                side: Side::Key,
                width: w,
                capacity,
                input: key,
            };
            let second = Launch::<T>::CacheWriteState {
                layer,
                side: Side::Value,
                width: w,
                capacity,
                input: value,
            };
            assert(inputs(first) =~= seq![key]);
            assert(inputs(second) =~= seq![value]);
            lemma_launched(s, table, t, first, grid);
            let middle = t.launched(first, grid);
            lemma_stays(t, middle, value);
            lemma_launched(s, table, middle, second, grid);
            lemma_follows(t, middle, after);
        }
    }
}

proof fn lemma_attended_state<T: Copy>(
    s: Gemma4CudaState<T>,
    table: Gemma4CudaCacheTable,
    t: Tape<T>,
    query: usize,
    layer: usize,
    cache: Gemma4CudaKvCache,
    heads: usize,
    head_dim: usize,
    window: usize,
)
    requires
        sound(s, table, t),
        holds(t, query),
        cached(table, layer, cache),
    ensures
        went(s, table, t, s.attended_state(t, query, layer, cache, heads, head_dim, window)),
{
    let plan = s.attended_state(t, query, layer, cache, heads, head_dim, window);
    let len = t.lens[query as int];
    let h = Heads { heads, kv_heads: cache.kv_heads, head_dim };
    let ring = Ring { start: 0, capacity: cache.capacity };
    let block = cache.capacity <= MOST_ROWS;
    if !t.stopped() {
        if !Gemma4CudaState::<T>::attention_agrees(
            len,
            cache.elements(),
            cache.elements(),
            h,
            ring,
        ) {
            lemma_stop(s, table, t, plan.0);
        } else {
            let launch = Launch::<T>::AttendState {
                query,
                layer,
                heads: h,
                window,
                capacity: cache.capacity,
                block,
                out: t.next(),
            };
            assert(inputs(launch) =~= seq![query]);
            let grid = if block {
                Ok(head_blocks(heads))
            } else {
                model_grid(len as nat)
            };
            lemma_filled(s, table, t, len, launch, grid);
        }
    }
}

proof fn lemma_ple_rows<T: Copy>(
    s: Gemma4CudaState<T>,
    table: Gemma4CudaCacheTable,
    t: Tape<T>,
    source: Source,
    config: Gemma4TextConfig<T>,
)
    requires
        usable(s),
        sound(s, table, t),
    ensures
        went(s, table, t, s.ple_rows(t, source, config)),
{
    let name = "embed_tokens_per_layer.weight"@;
    let plan = s.ple_rows(t, source, config);
    if !t.stopped() {
        lemma_weight_number(s, name);
        if plan.0.stopped() && plan.0.lens == t.lens {
            lemma_stop(s, table, t, plan.0);
        } else {
            let weight = s.weight_number(name)->Some_0;
            let shape = s.weights@[weight as int].shape@;
            let packed = packed_width(config) as usize;
            let factor = Factor::Root(config.hidden_size_per_layer_input);
            let out = t.next();
            assert(s.ple_table(weight, config));
            assert(whole(s.weights@[weight as int]));
            match source {
                Source::One(token) => {
                    let offset = (token * packed) as usize;
                    lemma_row_within(
                        token as int,
                        shape[0],
                        packed,
                        s.weights@[weight as int].len,
                    );
                    let launch = Launch::<T>::WeightRange { weight, offset, factor, out };
                    lemma_filled(s, table, t, packed, launch, model_grid(packed as nat));
                },
                Source::State => {
                    let launch = Launch::<T>::WeightRowState { weight, width: packed, factor, out };
                    lemma_filled(s, table, t, packed, launch, model_grid(packed as nat));
                },
                Source::Prompt(tokens) => {
                    let len = (tokens.len() * packed) as usize;
                    let launch = Launch::<T>::WeightRows { weight, width: packed, factor, out };
                    lemma_filled(s, table, t, len, launch, model_grid(len as nat));
                },
            }
        }
    }
}

proof fn lemma_packed<T: Copy>(
    s: Gemma4CudaState<T>,
    table: Gemma4CudaCacheTable,
    t: Tape<T>,
    source: Source,
    embedding: usize,
    config: Gemma4TextConfig<T>,
)
    requires
        usable(s),
        sound(s, table, t),
        holds(t, embedding),
        source_rows(source) <= MOST_ROWS,
    ensures
        follows(t, s.packed(t, source, embedding, config).0),
        sound(s, table, s.packed(t, source, embedding, config).0),
        s.packed(t, source, embedding, config).1 matches Some(buffer) ==> holds(
            s.packed(t, source, embedding, config).0,
            buffer,
        ),
{
    let rows = source_rows(source) as usize;
    if !(t.stopped() || config.hidden_size_per_layer_input == 0) {
        let (a, taken) = s.ple_rows(t, source, config);
        lemma_ple_rows(s, table, t, source, config);
        lemma_stays(t, a, embedding);
        let (b, context) = s.mapped(a, embedding, rows, "per_layer_model_projection.weight"@);
        lemma_mapped(s, table, a, embedding, rows, "per_layer_model_projection.weight"@);
        let factor = Factor::InverseRoot(config.hidden_size);
        let (c, scaled) = s.scaled(b, context, factor);
        lemma_scaled(s, table, b, context, factor);
        let name = "per_layer_projection_norm.weight"@;
        let (d, normed) = s.normed(c, scaled, name, config.rms_norm_eps, false);
        lemma_normed(s, table, c, scaled, name, config.rms_norm_eps, false);
        lemma_follows(a, b, c);
        lemma_follows(a, c, d);
        lemma_stays(a, d, taken);
        let (e, combined) = s.joined(d, Join::Add, normed, taken);
        lemma_joined(s, table, d, Join::Add, normed, taken);
        let (f, out) = s.scaled(e, combined, Factor::HalfRoot);
        lemma_scaled(s, table, e, combined, Factor::HalfRoot);
        lemma_follows(t, a, d);
        lemma_follows(t, d, e);
        lemma_follows(t, e, f);
    }
}

proof fn lemma_layer_range<T: Copy>(
    s: Gemma4CudaState<T>,
    table: Gemma4CudaCacheTable,
    t: Tape<T>,
    packed: usize,
    rows: Option<usize>,
    layer: usize,
    config: Gemma4TextConfig<T>,
)
    requires
        sound(s, table, t),
        holds(t, packed),
    ensures
        went(s, table, t, s.layer_range(t, packed, rows, layer, config)),
{
    let dimension = config.hidden_size_per_layer_input;
    match rows {
        None => {
            assert(0 <= layer * dimension) by (nonlinear_arith)
                requires
                    0 <= layer,
                    0 <= dimension,
            ;
            lemma_sliced(s, table, t, packed, layer * dimension, dimension);
        },
        Some(rows) => {
            lemma_rows_sliced(
                s,
                table,
                t,
                packed,
                rows,
                packed_width(config) as usize,
                (layer * dimension) as usize,
                dimension,
            );
        },
    }
}

proof fn lemma_ple_applied<T: Copy>(
    s: Gemma4CudaState<T>,
    table: Gemma4CudaCacheTable,
    t: Tape<T>,
    hidden: usize,
    packed: usize,
    rows: Option<usize>,
    layer: usize,
    config: Gemma4TextConfig<T>,
)
    requires
        usable(s),
        sound(s, table, t),
        holds(t, hidden),
        holds(t, packed),
        rows matches Some(n) ==> n <= MOST_ROWS,
    ensures
        went(s, table, t, s.ple_applied(t, hidden, packed, rows, layer, config)),
{
    let n = match rows {
        Some(rows) => rows,
        None => 1,
    };
    let plan = s.ple_applied(t, hidden, packed, rows, layer, config);
    if !t.stopped() {
        let (a, part) = s.layer_range(t, packed, rows, layer, config);
        lemma_layer_range(s, table, t, packed, rows, layer, config);
        lemma_stays(t, a, hidden);
        if !a.stopped() {
            if layer >= s.decode_plan@.len() || s.decode_plan@[layer as int].ple_gate is None {
                lemma_stop(s, table, a, plan.0);
                lemma_follows(t, a, plan.0);
            } else {
                let p = s.decode_plan@[layer as int];
                let gate_weight = p.ple_gate->Some_0;
                let (b, gate) = s.mapped_at(a, hidden, n, gate_weight);
                lemma_mapped_at(s, table, a, hidden, n, gate_weight);
                let (c, bent) = s.bent(b, gate);
                lemma_bent(s, table, b, gate);
                lemma_follows(a, b, c);
                lemma_stays(a, c, part);
                let (d, gated) = s.joined(c, Join::Mul, bent, part);
                lemma_joined(s, table, c, Join::Mul, bent, part);
                lemma_follows(a, c, d);
                lemma_follows(t, a, d);
                lemma_stays(t, d, hidden);
                if !d.stopped() {
                    match p.ple_projection {
                        None => {
                            lemma_stop(s, table, d, plan.0);
                            lemma_follows(t, d, plan.0);
                        },
                        Some(projection) => {
                            let (e, projected) = s.mapped_at(d, gated, n, projection);
                            lemma_mapped_at(s, table, d, gated, n, projection);
                            lemma_follows(t, d, e);
                            if !e.stopped() {
                                match p.ple_norm {
                                    None => {
                                        lemma_stop(s, table, e, plan.0);
                                        lemma_follows(t, e, plan.0);
                                    },
                                    Some(norm) => {
                                        let epsilon = config.rms_norm_eps;
                                        let (f, last) = s.normed_at(
                                            e,
                                            projected,
                                            norm,
                                            epsilon,
                                            false,
                                        );
                                        lemma_normed_at(
                                            s,
                                            table,
                                            e,
                                            projected,
                                            norm,
                                            epsilon,
                                            false,
                                        );
                                        lemma_follows(t, e, f);
                                        lemma_stays(t, f, hidden);
                                        lemma_joined(s, table, f, Join::Add, hidden, last);
                                        lemma_follows(t, f, plan.0);
                                    },
                                }
                            }
                        },
                    }
                }
            }
        }
    }
}

proof fn lemma_fed_forward<T: Copy>(
    s: Gemma4CudaState<T>,
    table: Gemma4CudaCacheTable,
    t: Tape<T>,
    hidden: usize,
    rows: usize,
    layer: usize,
    epsilon: T,
)
    requires
        usable(s),
        sound(s, table, t),
        holds(t, hidden),
        rows <= MOST_ROWS,
    ensures
        went(s, table, t, s.fed_forward(t, hidden, rows, layer, epsilon)),
{
    let plan = s.fed_forward(t, hidden, rows, layer, epsilon);
    if !t.stopped() {
        if layer >= s.decode_plan@.len() {
            lemma_stop(s, table, t, plan.0);
        } else {
            let p = s.decode_plan@[layer as int];
            let (a, normalized) = s.normed_at(t, hidden, p.pre_feedforward_norm, epsilon, true);
            lemma_normed_at(s, table, t, hidden, p.pre_feedforward_norm, epsilon, true);
            let (b, gate) = s.projected_at(a, normalized, rows, p.gate_projection);
            lemma_projected_at(s, table, a, normalized, rows, p.gate_projection);
            lemma_stays(a, b, normalized);
            let (c, up) = s.projected_at(b, normalized, rows, p.up_projection);
            lemma_projected_at(s, table, b, normalized, rows, p.up_projection);
            lemma_stays(b, c, gate);
            let (d, activated) = s.joined(c, Join::GeluMul, gate, up);
            lemma_joined(s, table, c, Join::GeluMul, gate, up);
            let (e, down) = s.mapped_at(d, activated, rows, p.down_projection);
            lemma_mapped_at(s, table, d, activated, rows, p.down_projection);
            let (f, last) = s.normed_at(e, down, p.post_feedforward_norm, epsilon, false);
            lemma_normed_at(s, table, e, down, p.post_feedforward_norm, epsilon, false);
            lemma_follows(t, a, b);
            lemma_follows(t, b, c);
            lemma_follows(t, c, d);
            lemma_follows(t, d, e);
            lemma_follows(t, e, f);
            lemma_stays(t, f, hidden);
            lemma_joined(s, table, f, Join::Add, hidden, last);
            lemma_follows(t, f, plan.0);
        }
    }
}

proof fn lemma_queried<T: Copy>(
    s: Gemma4CudaState<T>,
    table: Gemma4CudaCacheTable,
    t: Tape<T>,
    normalized: usize,
    plan: LayerPlan<T>,
    heads: usize,
    kv_heads: usize,
)
    requires
        usable(s),
        sound(s, table, t),
        holds(t, normalized),
        widths_fit(heads, kv_heads, plan.head_dim),
    ensures
        ({
            let (after, (query, key, value)) = s.queried(t, normalized, plan, heads, kv_heads);
            &&& follows(t, after)
            &&& sound(s, table, after)
            &&& holds(after, query)
            &&& plan.fused_qkv ==> holds(after, key) && holds(after, value)
        }),
{
    if !t.stopped() {
        if plan.fused_qkv {
            lemma_widths(heads, kv_heads, plan.head_dim);
            lemma_projected_qkv_at(
                s,
                table,
                t,
                normalized,
                1,
                plan.query_projection,
                (
                    (heads * plan.head_dim) as usize,
                    (kv_heads * plan.head_dim) as usize,
                    (kv_heads * plan.head_dim) as usize,
                ),
            );
        } else {
            lemma_projected_at(s, table, t, normalized, 1, plan.query_projection);
        }
    }
}

/// The widths of queries, keys and values can be counted.
proof fn lemma_widths(heads: usize, kv_heads: usize, head_dim: usize)
    requires
        widths_fit(heads, kv_heads, head_dim),
    ensures
        0 <= heads * head_dim <= usize::MAX,
        0 <= kv_heads * head_dim <= usize::MAX,
{
    assert(0 <= heads * head_dim && 0 <= kv_heads * head_dim) by (nonlinear_arith)
        requires
            0 <= heads,
            0 <= kv_heads,
            0 <= head_dim,
    ;
}

proof fn lemma_remembered<T: Copy>(
    s: Gemma4CudaState<T>,
    table: Gemma4CudaCacheTable,
    t: Tape<T>,
    key: usize,
    value: usize,
    plan: LayerPlan<T>,
    layer: usize,
    cache: Gemma4CudaKvCache,
    epsilon: T,
)
    requires
        usable(s),
        sound(s, table, t),
        holds(t, key),
        holds(t, value),
        cached(table, layer, cache),
    ensures
        follows(t, s.remembered(t, key, value, plan, layer, cache, epsilon)),
        sound(s, table, s.remembered(t, key, value, plan, layer, cache, epsilon)),
{
    if !t.stopped() {
        let norm = plan.key_norm->Some_0;
        let (a, normed) = s.normed_at(t, key, norm, epsilon, false);
        lemma_normed_at(s, table, t, key, norm, epsilon, false);
        let rotation = Rotation {
            heads: cache.kv_heads,
            head_dim: plan.head_dim,
            rotary_dim: plan.rotary_dim,
        };
        let (theta, factor) = (plan.rope_theta, plan.rope_factor);
        let (b, turned) = s.rotated_state(a, normed, rotation, theta, factor);
        lemma_rotated_state(s, table, a, normed, rotation, theta, factor);
        lemma_follows(t, a, b);
        lemma_stays(t, b, value);
        let (c, unit) = s.normed_unit(b, value, plan.head_dim, epsilon);
        lemma_normed_unit(s, table, b, value, plan.head_dim, epsilon);
        lemma_stays(b, c, turned);
        lemma_follows(t, b, c);
        lemma_appended_state(s, table, c, layer, cache, turned, unit);
        lemma_follows(t, c, s.remembered(t, key, value, plan, layer, cache, epsilon));
    }
}

proof fn lemma_attentive<T: Copy>(
    s: Gemma4CudaState<T>,
    table: Gemma4CudaCacheTable,
    t: Tape<T>,
    hidden: usize,
    layer: usize,
    config: Gemma4TextConfig<T>,
)
    requires
        usable(s),
        s.fits_table(config.num_attention_heads, table),
        sound(s, table, t),
        holds(t, hidden),
    ensures
        went(s, table, t, s.attentive(t, hidden, layer, config, table)),
{
    let out = s.attentive(t, hidden, layer, config, table);
    if !t.stopped() {
        if layer >= s.decode_plan@.len() {
            lemma_stop(s, table, t, out.0);
        } else {
            let plan = s.decode_plan@[layer as int];
            let heads = config.num_attention_heads;
            let epsilon = config.rms_norm_eps;
            assert(plan_fits(plan, layer as int, heads, table));
            assert(table.entry_wf(layer as int));
            let cache = table.layers@[plan.source as int]->Some_0;
            assert(cached(table, plan.source, cache));
            let (a, normalized) = s.normed_at(t, hidden, plan.input_norm, epsilon, true);
            lemma_normed_at(s, table, t, hidden, plan.input_norm, epsilon, true);
            let (b, (query, key, value)) = s.queried(a, normalized, plan, heads, cache.kv_heads);
            lemma_queried(s, table, a, normalized, plan, heads, cache.kv_heads);
            let (c, normed) = s.normed_at(b, query, plan.query_norm, epsilon, false);
            lemma_normed_at(s, table, b, query, plan.query_norm, epsilon, false);
            let rotation = Rotation {
                heads,
                head_dim: plan.head_dim,
                rotary_dim: plan.rotary_dim,
            };
            let (theta, factor) = (plan.rope_theta, plan.rope_factor);
            let (d, turned) = s.rotated_state(c, normed, rotation, theta, factor);
            lemma_rotated_state(s, table, c, normed, rotation, theta, factor);
            lemma_follows(b, c, d);
            let e = if plan.fused_qkv {
                s.remembered(d, key, value, plan, layer, cache, epsilon)
            } else {
                d
            };
            if plan.fused_qkv {
                lemma_stays(b, d, key);
                lemma_stays(b, d, value);
                lemma_remembered(s, table, d, key, value, plan, layer, cache, epsilon);
            }
            lemma_stays(d, e, turned);
            let window = if plan.sliding {
                config.sliding_window
            } else {
                0
            };
            let (f, attended) = s.attended_state(
                e,
                turned,
                plan.source,
                cache,
                heads,
                plan.head_dim,
                window,
            );
            lemma_attended_state(
                s,
                table,
                e,
                turned,
                plan.source,
                cache,
                heads,
                plan.head_dim,
                window,
            );
            let (g, projected) = s.mapped_at(f, attended, 1, plan.output_projection);
            lemma_mapped_at(s, table, f, attended, 1, plan.output_projection);
            let (h, last) = s.normed_at(g, projected, plan.post_attention_norm, epsilon, false);
            lemma_normed_at(s, table, g, projected, plan.post_attention_norm, epsilon, false);
            lemma_follows(t, a, b);
            lemma_follows(t, b, d);
            lemma_follows(t, d, e);
            lemma_follows(t, e, f);
            lemma_follows(t, f, g);
            lemma_follows(t, g, h);
            lemma_stays(t, h, hidden);
            lemma_joined(s, table, h, Join::Add, hidden, last);
            lemma_follows(t, h, out.0);
        }
    }
}

proof fn lemma_finished<T: Copy>(
    s: Gemma4CudaState<T>,
    table: Gemma4CudaCacheTable,
    t: Tape<T>,
    hidden: usize,
    layer: usize,
)
    requires
        sound(s, table, t),
        holds(t, hidden),
    ensures
        went(s, table, t, s.finished(t, hidden, layer)),
{
    if !t.stopped() {
        if layer >= s.decode_plan@.len() {
            lemma_stop(s, table, t, s.finished(t, hidden, layer).0);
        } else {
            lemma_scaled_at(s, table, t, hidden, s.decode_plan@[layer as int].layer_scalar);
        }
    }
}

proof fn lemma_layer_run<T: Copy>(
    s: Gemma4CudaState<T>,
    table: Gemma4CudaCacheTable,
    t: Tape<T>,
    hidden: usize,
    packed: Option<usize>,
    layer: usize,
    config: Gemma4TextConfig<T>,
)
    requires
        usable(s),
        s.fits_table(config.num_attention_heads, table),
        sound(s, table, t),
        holds(t, hidden),
        packed matches Some(buffer) ==> holds(t, buffer),
    ensures
        went(s, table, t, s.layer_run(t, hidden, packed, layer, config, table)),
{
    reveal(Gemma4CudaState::layer_run);
    if !t.stopped() {
        let (a, attended) = s.attentive(t, hidden, layer, config, table);
        lemma_attentive(s, table, t, hidden, layer, config);
        let (b, fed) = s.fed_forward(a, attended, 1, layer, config.rms_norm_eps);
        lemma_fed_forward(s, table, a, attended, 1, layer, config.rms_norm_eps);
        lemma_follows(t, a, b);
        let out = s.layer_run(t, hidden, packed, layer, config, table);
        match packed {
            Some(buffer) => {
                let (c, mixed) = s.ple_applied(b, fed, buffer, None, layer, config);
                lemma_stays(t, b, buffer);
                lemma_ple_applied(s, table, b, fed, buffer, None, layer, config);
                lemma_follows(t, b, c);
                lemma_finished(s, table, c, mixed, layer);
                lemma_follows(t, c, out.0);
            },
            None => {
                lemma_finished(s, table, b, fed, layer);
                lemma_follows(t, b, out.0);
            },
        }
    }
}

proof fn lemma_layers_run<T: Copy>(
    s: Gemma4CudaState<T>,
    table: Gemma4CudaCacheTable,
    t: Tape<T>,
    hidden: usize,
    packed: Option<usize>,
    layer: usize,
    config: Gemma4TextConfig<T>,
)
    requires
        usable(s),
        s.fits_table(config.num_attention_heads, table),
        sound(s, table, t),
        holds(t, hidden),
        packed matches Some(buffer) ==> holds(t, buffer),
    ensures
        went(s, table, t, s.layers_run(t, hidden, packed, layer, config, table)),
    decreases config.num_hidden_layers - layer,
{
    if !(t.stopped() || layer >= config.num_hidden_layers) {
        let (a, next) = s.layer_run(t, hidden, packed, layer, config, table);
        lemma_layer_run(s, table, t, hidden, packed, layer, config);
        if let Some(buffer) = packed {
            lemma_stays(t, a, buffer);
        }
        lemma_layers_run(s, table, a, next, packed, (layer + 1) as usize, config);
        lemma_follows(t, a, s.layers_run(t, hidden, packed, layer, config, table).0);
    }
}

proof fn lemma_forwarded<T: Copy>(
    s: Gemma4CudaState<T>,
    table: Gemma4CudaCacheTable,
    t: Tape<T>,
    config: Gemma4TextConfig<T>,
)
    requires
        usable(s),
        s.fits_table(config.num_attention_heads, table),
        sound(s, table, t),
    ensures
        went(s, table, t, s.forwarded(t, config, table)),
{
    if !t.stopped() {
        let (a, embedding) = s.embedded_state(t, config.hidden_size);
        lemma_embedded_state(s, table, t, config.hidden_size);
        let (b, packed) = s.packed(a, Source::State, embedding, config);
        lemma_packed(s, table, a, Source::State, embedding, config);
        lemma_stays(a, b, embedding);
        lemma_follows(t, a, b);
        lemma_layers_run(s, table, b, embedding, packed, 0, config);
        lemma_follows(t, b, s.forwarded(t, config, table).0);
    }
}

proof fn lemma_headed<T: Copy>(
    s: Gemma4CudaState<T>,
    table: Gemma4CudaCacheTable,
    t: Tape<T>,
    hidden: usize,
    config: Gemma4TextConfig<T>,
)
    requires
        usable(s),
        sound(s, table, t),
        holds(t, hidden),
    ensures
        went(s, table, t, s.headed(t, hidden, config)),
        spans(s.headed(t, hidden, config).0, s.headed(t, hidden, config).1, config.vocab_size as int),
{
    let name = "embed_tokens.weight"@;
    let plan = s.headed(t, hidden, config);
    if !t.stopped() {
        let (a, normed) = s.normed(t, hidden, "norm.weight"@, config.rms_norm_eps, false);
        lemma_normed(s, table, t, hidden, "norm.weight"@, config.rms_norm_eps, false);
        if !a.stopped() {
            lemma_weight_number(s, name);
            match s.weight_number(name) {
                None => {
                    lemma_stop(s, table, a, plan.0);
                    lemma_follows(t, a, plan.0);
                },
                Some(weight) => {
                    let (b, short) = s.shortened(a, normed);
                    lemma_shortened(s, table, a, normed);
                    lemma_follows(t, a, b);
                    if !b.stopped() {
                        lemma_multiplied(
                            s,
                            table,
                            b,
                            short,
                            weight,
                            1,
                            config.vocab_size,
                            config.hidden_size,
                        );
                        lemma_follows(t, b, plan.0);
                    }
                },
            }
        }
    }
}

/// Decoding a token launches safely: every launch reads buffers that were written before
/// it and writes buffers of its own, and buffers, weights and caches have the lengths that
/// its kernel asks for.
pub proof fn decoding_is_safe<T: Copy>(
    s: Gemma4CudaState<T>,
    table: Gemma4CudaCacheTable,
    t: Tape<T>,
    token: u32,
    config: Gemma4TextConfig<T>,
)
    requires
        usable(s),
        s.fits_table(config.num_attention_heads, table),
        sound(s, table, t),
    ensures
        went(s, table, t, s.scored(t, token, config, table)),
        spans(
            s.scored(t, token, config, table).0,
            s.scored(t, token, config, table).1,
            config.vocab_size as int,
        ),
{
    let (forwarded, hidden) = s.token_forwarded(t, token, config, table);
    if !t.stopped() {
        if token >= config.vocab_size {
            lemma_stop(s, table, t, forwarded);
        } else {
            let launch = Launch::<T>::SetState { token: token as usize, position: table.position };
            let set = s.state_set(t, token, table.position);
            lemma_launched(s, table, t, launch, model_grid(1));
            lemma_forwarded(s, table, set, config);
            lemma_follows(t, set, forwarded);
        }
    }
    lemma_headed(s, table, forwarded, hidden, config);
    lemma_follows(t, forwarded, s.scored(t, token, config, table).0);
}

proof fn lemma_attended_prompt<T: Copy>(
    s: Gemma4CudaState<T>,
    table: Gemma4CudaCacheTable,
    t: Tape<T>,
    query: usize,
    layer: usize,
    cache: Gemma4CudaKvCache,
    rows: usize,
    heads: usize,
    head_dim: usize,
    window: usize,
)
    requires
        sound(s, table, t),
        holds(t, query),
        cached(table, layer, cache),
    ensures
        went(
            s,
            table,
            t,
            s.attended_prompt(t, query, layer, cache, rows, heads, head_dim, window),
        ),
{
    let plan = s.attended_prompt(t, query, layer, cache, rows, heads, head_dim, window);
    let len = t.lens[query as int];
    let h = Heads { heads, kv_heads: cache.kv_heads, head_dim };
    if !t.stopped() {
        if plan.0.stopped() {
            lemma_stop(s, table, t, plan.0);
        } else {
            let launch = Launch::<T>::AttendPrompt {
                query,
                layer,
                rows,
                heads: h,
                window,
                out: t.next(),
            };
            assert(inputs(launch) =~= seq![query]);
            let grid = Ok(Grid::Blocks { blocks: (rows * heads) as u32, threads: 256 });
            lemma_filled(s, table, t, len, launch, grid);
        }
    }
}

proof fn lemma_prompt_queried<T: Scalar>(
    s: Gemma4CudaState<T>,
    table: Gemma4CudaCacheTable,
    t: Tape<T>,
    normalized: usize,
    rows: usize,
    prefix: Seq<char>,
    own: bool,
    widths: (usize, usize, usize),
)
    requires
        usable(s),
        sound(s, table, t),
        holds(t, normalized),
        rows <= MOST_ROWS,
        widths.0 + widths.1 + widths.2 <= usize::MAX,
    ensures
        ({
            let (after, (query, key, value)) = s.prompt_queried(
                t,
                normalized,
                rows,
                prefix,
                own,
                widths,
            );
            &&& follows(t, after)
            &&& sound(s, table, after)
            &&& holds(after, query)
            &&& own ==> {
                &&& holds(after, key)
                &&& holds(after, value)
                &&& spans(after, key, rows * widths.1)
                &&& spans(after, value, rows * widths.2)
            }
        }),
{
    if !t.stopped() {
        if own {
            lemma_projected_qkv(s, table, t, normalized, rows, prefix, widths);
        } else {
            lemma_projected(
                s,
                table,
                t,
                normalized,
                rows,
                prefix + ".self_attn.q_proj.weight"@,
            );
        }
    }
}

/// A norm keeps the length of what it norms.
proof fn lemma_normed_spans<T: Copy>(
    s: Gemma4CudaState<T>,
    table: Gemma4CudaCacheTable,
    t: Tape<T>,
    input: usize,
    name: Seq<char>,
    epsilon: T,
    len: int,
)
    requires
        usable(s),
        sound(s, table, t),
        holds(t, input),
        spans(t, input, len),
    ensures
        spans(
            s.normed(t, input, name, epsilon, false).0,
            s.normed(t, input, name, epsilon, false).1,
            len,
        ),
{
}

proof fn lemma_prompt_remembered<T: Scalar>(
    s: Gemma4CudaState<T>,
    table: Gemma4CudaCacheTable,
    t: Tape<T>,
    key: usize,
    value: usize,
    rows: usize,
    layer: usize,
    cache: Gemma4CudaKvCache,
    rotation: Rotation,
    theta: T,
    factor: T,
    epsilon: T,
)
    requires
        usable(s),
        sound(s, table, t),
        holds(t, key),
        holds(t, value),
        cached(table, layer, cache),
        cache.head_dim == rotation.head_dim,
        cache.wf(),
        spans(t, key, rows * (cache.kv_heads * rotation.head_dim)),
        spans(t, value, rows * (cache.kv_heads * rotation.head_dim)),
    ensures
        ({
            let after = s.prompt_remembered(
                t,
                key,
                value,
                rows,
                layer,
                cache,
                rotation,
                theta,
                factor,
                epsilon,
            );
            &&& follows(t, after)
            &&& sound(s, table, after)
        }),
{
    let after = s.prompt_remembered(
        t,
        key,
        value,
        rows,
        layer,
        cache,
        rotation,
        theta,
        factor,
        epsilon,
    );
    let len = rows * (cache.kv_heads * rotation.head_dim);
    if !t.stopped() {
        let name = layer_prefix(layer) + ".self_attn.k_norm.weight"@;
        let (a, normed) = s.normed(t, key, name, epsilon, false);
        lemma_normed(s, table, t, key, name, epsilon, false);
        lemma_normed_spans(s, table, t, key, name, epsilon, len);
        let (b, turned) = s.rotated(a, normed, rotation, 0, theta, factor);
        lemma_rotated(s, table, a, normed, rotation, 0, theta, factor);
        lemma_follows(t, a, b);
        lemma_stays(t, b, value);
        lemma_spans_stays(t, b, value, len);
        let (c, unit) = s.normed_unit(b, value, rotation.head_dim, epsilon);
        lemma_normed_unit(s, table, b, value, rotation.head_dim, epsilon);
        lemma_stays(b, c, turned);
        lemma_follows(t, b, c);
        if !c.stopped() {
            assert(!a.stopped() && !b.stopped());
            if cache.len != 0 || cache.start != 0 || rows > cache.capacity {
                lemma_stop(s, table, c, after);
                lemma_follows(t, c, after);
            } else {
                lemma_prompt_within(rows, cache);
                let first = Launch::<T>::CacheWrite {
                    layer,
                    side: Side::Key,
                    offset: 0,
                    input: turned,
                };
                let second = Launch::<T>::CacheWrite {
                    layer,
                    side: Side::Value,
                    offset: 0,
                    input: unit,
                };
                let grid = model_grid(len as nat);
                assert(inputs(first) =~= seq![turned]);
                assert(inputs(second) =~= seq![unit]);
                if numbered(c) {
                    assert(numbered(b) && numbered(a) && numbered(t));
                    assert(c.lens[turned as int] == len);
                    assert(c.lens[unit as int] == len);
                }
                lemma_launched(s, table, c, first, grid);
                let d = c.launched(first, grid);
                lemma_stays(c, d, unit);
                lemma_launched(s, table, d, second, grid);
                lemma_follows(c, d, after);
                lemma_follows(t, c, after);
            }
        }
    }
}

/// The rows of a prompt stand within a cache that has as many.
proof fn lemma_prompt_within(rows: usize, cache: Gemma4CudaKvCache)
    requires
        rows <= cache.capacity,
    ensures
        0 <= rows * (cache.kv_heads * cache.head_dim) <= cache.elements(),
{
    let width = cache.kv_heads * cache.head_dim;
    assert(0 <= width) by (nonlinear_arith)
        requires
            width == cache.kv_heads * cache.head_dim,
    ;
    assert(0 <= rows * width <= cache.capacity * width) by (nonlinear_arith)
        requires
            0 <= width,
            0 <= rows <= cache.capacity,
    ;
    assert(cache.capacity * width == cache.elements()) by (nonlinear_arith)
        requires
            width == cache.kv_heads * cache.head_dim,
            cache.elements() == cache.capacity * cache.kv_heads * cache.head_dim,
    ;
}

/// The heads of a layer that has a cache of its own are as wide as the cache.
pub open spec fn wide_enough<T>(config: Gemma4TextConfig<T>, table: Gemma4CudaCacheTable) -> bool {
    config.layer_types matches Some(kinds) ==> forall|layer: int|
        0 <= layer < table.layers@.len() ==> ((#[trigger] table.layers@[layer]) matches Some(cache)
            ==> cache.head_dim == head_width(config, is_sliding(kinds@[layer]@)))
}

/// The widths of queries, keys and values of a prompt can be counted.
proof fn lemma_rows_widths(heads: usize, kv_heads: usize, head_dim: usize)
    requires
        rows_fit(heads, kv_heads, head_dim),
    ensures
        widths_fit(heads, kv_heads, head_dim),
        0 <= heads * head_dim <= usize::MAX,
        0 <= kv_heads * head_dim <= usize::MAX,
{
    let width = heads * head_dim + kv_heads * head_dim + kv_heads * head_dim;
    assert(0 <= heads * head_dim && 0 <= kv_heads * head_dim) by (nonlinear_arith)
        requires
            0 <= heads,
            0 <= kv_heads,
            0 <= head_dim,
    ;
    assert(width <= width * MOST_ROWS);
}

proof fn lemma_prompt_prepared<T: Scalar>(
    s: Gemma4CudaState<T>,
    table: Gemma4CudaCacheTable,
    t: Tape<T>,
    hidden: usize,
    rows: usize,
    layer: usize,
    config: Gemma4TextConfig<T>,
    source: usize,
    cache: Gemma4CudaKvCache,
    rotary_dim: usize,
)
    requires
        usable(s),
        prompt_fits(config, table),
        wide_enough(config, table),
        sound(s, table, t),
        holds(t, hidden),
        rows <= MOST_ROWS,
        cached(table, source, cache),
    ensures
        went(
            s,
            table,
            t,
            s.prompt_prepared(t, hidden, rows, layer, config, source, cache, rotary_dim),
        ),
{
    let prefix = layer_prefix(layer);
    let epsilon = config.rms_norm_eps;
    let heads = config.num_attention_heads;
    let out = s.prompt_prepared(t, hidden, rows, layer, config, source, cache, rotary_dim);
    if !t.stopped() {
        let name = prefix + ".input_layernorm.weight"@;
        let (a, normalized) = s.normed(t, hidden, name, epsilon, true);
        lemma_normed(s, table, t, hidden, name, epsilon, true);
        if !a.stopped() {
            if config.layer_types is None || rope_of(
                config,
                config.layer_types->Some_0@[layer as int]@,
            ) is None {
                lemma_stop(s, table, a, out.0);
                lemma_follows(t, a, out.0);
            } else {
                let kind = config.layer_types->Some_0@[layer as int]@;
                let head_dim = head_width(config, is_sliding(kind));
                let rope = rope_of(config, kind)->Some_0;
                assert(table.layers@[source as int] == Some(cache));
                assert(rows_fit(heads, cache.kv_heads, head_dim));
                lemma_rows_widths(heads, cache.kv_heads, head_dim);
                let widths = (
                    (heads * head_dim) as usize,
                    (cache.kv_heads * head_dim) as usize,
                    (cache.kv_heads * head_dim) as usize,
                );
                let own = source == layer;
                let (b, (query, key, value)) = s.prompt_queried(
                    a,
                    normalized,
                    rows,
                    prefix,
                    own,
                    widths,
                );
                lemma_prompt_queried(s, table, a, normalized, rows, prefix, own, widths);
                let norm = prefix + ".self_attn.q_norm.weight"@;
                let (c, normed) = s.normed(b, query, norm, epsilon, false);
                lemma_normed(s, table, b, query, norm, epsilon, false);
                let rotation = Rotation { heads, head_dim, rotary_dim };
                let (theta, factor) = (rope.rope_theta, rope.factor);
                let (d, turned) = s.rotated(c, normed, rotation, 0, theta, factor);
                lemma_rotated(s, table, c, normed, rotation, 0, theta, factor);
                lemma_follows(t, a, b);
                lemma_follows(b, c, d);
                lemma_follows(t, b, d);
                if own {
                    lemma_stays(b, d, key);
                    lemma_stays(b, d, value);
                    let len = rows * (cache.kv_heads * head_dim);
                    lemma_spans_stays(b, d, key, len);
                    lemma_spans_stays(b, d, value, len);
                    let turning = Rotation { heads: cache.kv_heads, head_dim, rotary_dim };
                    lemma_prompt_remembered(
                        s,
                        table,
                        d,
                        key,
                        value,
                        rows,
                        layer,
                        cache,
                        turning,
                        theta,
                        factor,
                        epsilon,
                    );
                    lemma_stays(d, out.0, turned);
                    lemma_follows(t, d, out.0);
                }
            }
        }
    }
}

proof fn lemma_prompt_concluded<T: Scalar>(
    s: Gemma4CudaState<T>,
    table: Gemma4CudaCacheTable,
    t: Tape<T>,
    hidden: usize,
    query: usize,
    rows: usize,
    layer: usize,
    config: Gemma4TextConfig<T>,
    source: usize,
    cache: Gemma4CudaKvCache,
)
    requires
        usable(s),
        sound(s, table, t),
        holds(t, hidden),
        holds(t, query),
        rows <= MOST_ROWS,
        cached(table, source, cache),
    ensures
        went(
            s,
            table,
            t,
            s.prompt_concluded(t, hidden, query, rows, layer, config, source, cache),
        ),
{
    let prefix = layer_prefix(layer);
    let sliding = is_sliding(config.layer_types->Some_0@[layer as int]@);
    if !t.stopped() {
        let (heads, head_dim) = (config.num_attention_heads, head_width(config, sliding));
        let window = if sliding {
            config.sliding_window
        } else {
            0
        };
        let (a, attended) = s.attended_prompt(
            t,
            query,
            source,
            cache,
            rows,
            heads,
            head_dim,
            window,
        );
        lemma_attended_prompt(
            s,
            table,
            t,
            query,
            source,
            cache,
            rows,
            heads,
            head_dim,
            window,
        );
        let name = prefix + ".self_attn.o_proj.weight"@;
        let (b, projected) = s.mapped(a, attended, rows, name);
        lemma_mapped(s, table, a, attended, rows, name);
        let norm = prefix + ".post_attention_layernorm.weight"@;
        let (c, last) = s.normed(b, projected, norm, config.rms_norm_eps, false);
        lemma_normed(s, table, b, projected, norm, config.rms_norm_eps, false);
        lemma_follows(t, a, b);
        lemma_follows(t, b, c);
        lemma_stays(t, c, hidden);
        lemma_joined(s, table, c, Join::Add, hidden, last);
        lemma_follows(
            t,
            c,
            s.prompt_concluded(t, hidden, query, rows, layer, config, source, cache).0,
        );
    }
}

proof fn lemma_prompt_layer<T: Scalar>(
    s: Gemma4CudaState<T>,
    table: Gemma4CudaCacheTable,
    t: Tape<T>,
    hidden: usize,
    packed: Option<usize>,
    rows: usize,
    layer: usize,
    config: Gemma4TextConfig<T>,
    source: usize,
    cache: Gemma4CudaKvCache,
    rotary_dim: usize,
)
    requires
        usable(s),
        prompt_fits(config, table),
        wide_enough(config, table),
        sound(s, table, t),
        holds(t, hidden),
        packed matches Some(buffer) ==> holds(t, buffer),
        rows <= MOST_ROWS,
        cached(table, source, cache),
    ensures
        went(
            s,
            table,
            t,
            s.prompt_layer(t, hidden, packed, rows, layer, config, source, cache, rotary_dim),
        ),
{
    reveal(Gemma4CudaState::prompt_layer);
    if !t.stopped() {
        let out = s.prompt_layer(
            t,
            hidden,
            packed,
            rows,
            layer,
            config,
            source,
            cache,
            rotary_dim,
        );
        let (a, query) = s.prompt_prepared(
            t,
            hidden,
            rows,
            layer,
            config,
            source,
            cache,
            rotary_dim,
        );
        lemma_prompt_prepared(
            s,
            table,
            t,
            hidden,
            rows,
            layer,
            config,
            source,
            cache,
            rotary_dim,
        );
        lemma_stays(t, a, hidden);
        let (b, attended) = s.prompt_concluded(
            a,
            hidden,
            query,
            rows,
            layer,
            config,
            source,
            cache,
        );
        lemma_prompt_concluded(s, table, a, hidden, query, rows, layer, config, source, cache);
        lemma_follows(t, a, b);
        let (c, fed) = s.fed_forward(b, attended, rows, layer, config.rms_norm_eps);
        lemma_fed_forward(s, table, b, attended, rows, layer, config.rms_norm_eps);
        lemma_follows(t, b, c);
        match packed {
            Some(buffer) => {
                let (d, mixed) = s.ple_applied(c, fed, buffer, Some(rows), layer, config);
                lemma_stays(t, c, buffer);
                lemma_ple_applied(s, table, c, fed, buffer, Some(rows), layer, config);
                lemma_follows(t, c, d);
                lemma_finished(s, table, d, mixed, layer);
                lemma_follows(t, d, out.0);
            },
            None => {
                lemma_finished(s, table, c, fed, layer);
                lemma_follows(t, c, out.0);
            },
        }
    }
}

proof fn lemma_prompt_layers<T: Scalar>(
    s: Gemma4CudaState<T>,
    table: Gemma4CudaCacheTable,
    t: Tape<T>,
    hidden: usize,
    packed: Option<usize>,
    rows: usize,
    layer: usize,
    config: Gemma4TextConfig<T>,
    rotaries: Seq<usize>,
)
    requires
        usable(s),
        prompt_fits(config, table),
        wide_enough(config, table),
        sound(s, table, t),
        holds(t, hidden),
        packed matches Some(buffer) ==> holds(t, buffer),
        rows <= MOST_ROWS,
    ensures
        went(
            s,
            table,
            t,
            s.prompt_layers(t, hidden, packed, rows, layer, config, table, rotaries),
        ),
    decreases config.num_hidden_layers - layer,
{
    if !(t.stopped() || layer >= config.num_hidden_layers) {
        let source = table.sources@[layer as int];
        assert(table.entry_wf(layer as int));
        let cache = table.layers@[source as int]->Some_0;
        let rotary_dim = rotaries[layer as int];
        let (a, next) = s.prompt_layer(
            t,
            hidden,
            packed,
            rows,
            layer,
            config,
            source,
            cache,
            rotary_dim,
        );
        lemma_prompt_layer(
            s,
            table,
            t,
            hidden,
            packed,
            rows,
            layer,
            config,
            source,
            cache,
            rotary_dim,
        );
        if let Some(buffer) = packed {
            lemma_stays(t, a, buffer);
        }
        let more = (layer + 1) as usize;
        lemma_prompt_layers(s, table, a, next, packed, rows, more, config, rotaries);
        lemma_follows(
            t,
            a,
            s.prompt_layers(t, hidden, packed, rows, layer, config, table, rotaries).0,
        );
    }
}

/// Reading a whole prompt launches safely too.
pub proof fn prompts_are_safe<T: Scalar>(
    s: Gemma4CudaState<T>,
    table: Gemma4CudaCacheTable,
    t: Tape<T>,
    tokens: Seq<u32>,
    config: Gemma4TextConfig<T>,
    rotaries: Seq<usize>,
)
    requires
        usable(s),
        prompt_fits(config, table),
        wide_enough(config, table),
        sound(s, table, t),
    ensures
        went(s, table, t, s.prompt_scored(t, tokens, config, table, rotaries)),
{
    let (forwarded, hidden) = s.prompt_forwarded(t, tokens, config, table, rotaries);
    if !t.stopped() {
        if forwarded.stopped() && forwarded.lens == t.lens && forwarded.log == t.log {
            lemma_stop(s, table, t, forwarded);
        } else {
            let rows = tokens.len() as usize;
            let (a, embedding) = s.embedded_rows(t, tokens, config.hidden_size);
            lemma_embedded_rows(s, table, t, tokens, config.hidden_size);
            let source = Source::Prompt(tokens);
            let (b, packed) = s.packed(a, source, embedding, config);
            lemma_packed(s, table, a, source, embedding, config);
            lemma_stays(a, b, embedding);
            lemma_follows(t, a, b);
            lemma_prompt_layers(s, table, b, embedding, packed, rows, 0, config, rotaries);
            lemma_follows(t, b, forwarded);
        }
    }
    let offset = (tokens.len() - 1) * config.hidden_size;
    let (sliced, last) = s.sliced(forwarded, hidden, offset, config.hidden_size);
    if tokens.len() > 0 {
        assert(0 <= offset) by (nonlinear_arith)
            requires
                offset == (tokens.len() - 1) * config.hidden_size,
                tokens.len() > 0,
        ;
        lemma_sliced(s, table, forwarded, hidden, offset, config.hidden_size);
    } else {
        assert(forwarded.stopped());
    }
    lemma_headed(s, table, sliced, last, config);
    lemma_follows(t, forwarded, sliced);
    lemma_follows(t, sliced, s.prompt_scored(t, tokens, config, table, rotaries).0);
}

/// Two buffers that no launch names.
proof fn lemma_two_buffers<T>(
    s: Gemma4CudaState<T>,
    table: Gemma4CudaCacheTable,
    t: Tape<T>,
    len: usize,
)
    requires
        sound(s, table, t),
    ensures
        follows(t, t.with_buffer(len).with_buffer(len)),
        sound(s, table, t.with_buffer(len).with_buffer(len)),
{
    let made = t.with_buffer(len).with_buffer(len);
    if numbered(made) {
        lemma_more_buffers(s, table, t, made);
    }
}

/// A launch that fills the two buffers behind those of a tape, which may have more since.
proof fn lemma_fills_two<T>(
    s: Gemma4CudaState<T>,
    table: Gemma4CudaCacheTable,
    before: Tape<T>,
    t: Tape<T>,
    launch: Launch<T>,
    grid: Option<Grid>,
)
    requires
        sound(s, table, before),
        sound(s, table, t),
        !t.stopped(),
        before.lens.len() + 2 <= t.lens.len(),
        before.log.len() <= t.log.len(),
        forall|k: int| 0 <= k < before.log.len() ==> #[trigger] t.log[k] == before.log[k],
        numbered(t) ==> forall|k: int, b: usize|
            before.log.len() <= k < t.log.len() && #[trigger] outputs(t.log[k].launch).contains(
                b,
            ) ==> b >= before.lens.len() + 2,
        all_hold(t, inputs(launch)),
        numbered(t) ==> {
            &&& outputs(launch).len() == 2
            &&& outputs(launch)[0] == before.lens.len()
            &&& outputs(launch)[1] == before.lens.len() + 1
        },
        served(s, table, t.lens, (Order { launch, grid })),
    ensures
        sound(s, table, t.ordered(launch, grid)),
        holds(t.ordered(launch, grid), outputs(launch)[0]),
        holds(t.ordered(launch, grid), outputs(launch)[1]),
{
    if numbered(t) {
        let w = outputs(launch);
        assert forall|j: int| 0 <= j < w.len() implies {
            let buffer = #[trigger] outputs(launch)[j];
            buffer < t.lens.len() && !written(t.log, t.log.len() as int, buffer)
        } by {
            let buffer = w[j];
            lemma_unwritten(s, table, before, buffer);
            if written(t.log, t.log.len() as int, buffer) {
                let k = choose|k: int|
                    0 <= k < t.log.len() && #[trigger] outputs(t.log[k].launch).contains(buffer);
                if k < before.log.len() {
                    assert(t.log[k] == before.log[k]);
                    assert(outputs(before.log[k].launch).contains(buffer));
                }
            }
        }
        assert(w.no_duplicates());
        assert forall|j: int| 0 <= j < inputs(launch).len() implies {
            let buffer = #[trigger] inputs(launch)[j];
            buffer < t.lens.len() && written(t.log, t.log.len() as int, buffer)
        } by {
            assert(holds(t, inputs(launch)[j]));
        }
        lemma_ordered(s, table, t, launch, grid);
        let after = t.ordered(launch, grid);
        assert(written(after.log, after.log.len() as int, outputs(launch)[0]));
        assert(written(after.log, after.log.len() as int, outputs(launch)[1]));
    }
}

/// The best of each block.
proof fn lemma_picks<T>(
    s: Gemma4CudaState<T>,
    table: Gemma4CudaCacheTable,
    t: Tape<T>,
    logits: usize,
    tokens: usize,
    count: usize,
    penalty: T,
)
    requires
        sound(s, table, t),
        !t.stopped(),
        holds(t, logits),
    ensures
        ({
            let (after, (scores, ids)) = picks(t, logits, tokens, count, penalty);
            &&& follows(t, after)
            &&& sound(s, table, after)
            &&& holds(after, scores)
            &&& holds(after, ids)
            &&& !after.stopped()
            &&& numbered(after) ==> after.lens[scores as int] == after.lens[ids as int]
        }),
{
    let len = (token_blocks(tokens) * count) as usize;
    let made = t.with_buffer(len).with_buffer(len);
    let launch = Launch::PickBlocks {
        logits,
        picks: count,
        penalty,
        scores: t.next(),
        ids: t.with_buffer(len).next(),
    };
    let grid = Some(
        Grid::Blocks {
            blocks: (token_blocks(tokens) as nat % 0x1_0000_0000) as u32,
            threads: 256,
        },
    );
    let after = picks(t, logits, tokens, count, penalty).0;
    if numbered(after) {
        lemma_two_buffers(s, table, t, len);
        lemma_stays(t, made, logits);
        assert(inputs(launch) =~= seq![logits]);
        lemma_fills_two(s, table, t, made, launch, grid);
        assert forall|k: int, b: usize|
            t.log.len() <= k < after.log.len() && #[trigger] outputs(
                after.log[k].launch,
            ).contains(b) implies b >= t.lens.len() by {
            assert(after.log[k].launch == launch);
        }
    }
}

/// Decoding a token to its best successors launches safely too.
pub proof fn picking_is_safe<T: Copy>(
    s: Gemma4CudaState<T>,
    table: Gemma4CudaCacheTable,
    t: Tape<T>,
    token: u32,
    config: Gemma4TextConfig<T>,
    count: usize,
    penalty: T,
)
    requires
        usable(s),
        s.fits_table(config.num_attention_heads, table),
        sound(s, table, t),
    ensures
        ({
            let (after, best) = picked(s, t, token, config, table, count, penalty);
            &&& sound(s, table, after)
            &&& holds(after, best.scores)
            &&& holds(after, best.ids)
        }),
{
    let (a, logits) = s.scored(t, token, config, table);
    decoding_is_safe(s, table, t, token, config);
    if !a.stopped() {
        let (b, blocks) = picks(a, logits, config.vocab_size, count, penalty);
        lemma_picks(s, table, a, logits, config.vocab_size, count, penalty);
        let c = b.with_buffer(count).with_buffer(count);
        lemma_two_buffers(s, table, b, count);
        lemma_best(s, table, b, c, count, blocks, b.next(), b.with_buffer(count).next());
    }
}

/// The best of all blocks, into the two buffers behind those of a tape.
proof fn lemma_best<T>(
    s: Gemma4CudaState<T>,
    table: Gemma4CudaCacheTable,
    before: Tape<T>,
    t: Tape<T>,
    count: usize,
    blocks: (usize, usize),
    scores: usize,
    ids: usize,
)
    requires
        sound(s, table, before),
        sound(s, table, t),
        !t.stopped(),
        before.lens.len() + 2 <= t.lens.len(),
        before.log.len() <= t.log.len(),
        forall|k: int| 0 <= k < before.log.len() ==> #[trigger] t.log[k] == before.log[k],
        numbered(t) ==> forall|k: int, b: usize|
            before.log.len() <= k < t.log.len() && #[trigger] outputs(t.log[k].launch).contains(
                b,
            ) ==> b >= before.lens.len() + 2,
        holds(t, blocks.0),
        holds(t, blocks.1),
        numbered(t) ==> {
            &&& scores == before.lens.len()
            &&& ids == before.lens.len() + 1
            &&& t.lens[scores as int] == count
            &&& t.lens[ids as int] == count
            &&& t.lens[blocks.0 as int] == t.lens[blocks.1 as int]
        },
    ensures
        sound(s, table, best(t, count, blocks, scores, ids)),
        holds(best(t, count, blocks, scores, ids), scores),
        holds(best(t, count, blocks, scores, ids), ids),
{
    let launch = Launch::<T>::PickBest {
        picks: count,
        block_scores: blocks.0,
        block_ids: blocks.1,
        scores,
        ids,
    };
    assert(inputs(launch) =~= seq![blocks.0, blocks.1]);
    if numbered(t) {
        if let Ok(grid) = model_grid(1) {
            lemma_fills_two(s, table, before, t, launch, Some(grid));
        }
    }
}

/// What is captured to be replayed for every token launches safely too.
pub proof fn captures_are_safe<T: Copy>(
    s: Gemma4CudaState<T>,
    table: Gemma4CudaCacheTable,
    t: Tape<T>,
    config: Gemma4TextConfig<T>,
    count: usize,
    penalty: T,
)
    requires
        usable(s),
        s.fits_table(config.num_attention_heads, table),
        sound(s, table, t),
        !t.stopped(),
    ensures
        ({
            let (after, best) = captured(s, t, config, table, count, penalty);
            &&& sound(s, table, after)
            &&& holds(after, best.scores)
            &&& holds(after, best.ids)
        }),
{
    if !all_in_blocks(table.layers@) {
        lemma_stop(s, table, t, captured(s, t, config, table, count, penalty).0);
    } else {
        let a = t.with_buffer(count).with_buffer(count);
        lemma_two_buffers(s, table, t, count);
        let (b, hidden) = s.forwarded(a, config, table);
        lemma_forwarded(s, table, a, config);
        let (c, logits) = s.headed(b, hidden, config);
        lemma_headed(s, table, b, hidden, config);
        lemma_follows(a, b, c);
        if !c.stopped() {
            let (d, blocks) = picks(c, logits, config.vocab_size, count, penalty);
            lemma_picks(s, table, c, logits, config.vocab_size, count, penalty);
            lemma_follows(a, c, d);
            assert forall|k: int| 0 <= k < t.log.len() implies #[trigger] d.log[k]
                == t.log[k] by {
                assert(a.log[k] == t.log[k]);
            }
            let (scores, ids) = (t.next(), t.with_buffer(count).next());
            if numbered(d) {
                assert(d.lens[scores as int] == a.lens[scores as int]);
                assert(d.lens[ids as int] == a.lens[ids as int]);
            }
            lemma_best(s, table, t, d, count, blocks, scores, ids);
        }
    }
}

/// An empty tape, from which recording starts, is sound.
pub proof fn new_tapes_are_sound<T>(s: Gemma4CudaState<T>, table: Gemma4CudaCacheTable, seen: bool)
    ensures
        sound(s, table, (Tape::<T> { lens: seq![], log: seq![], seen, failure: None })),
{
    reveal(safe);
}

/// The caches that are made for a configuration are as wide as the heads of their layers.
pub proof fn new_caches_are_wide_enough<T>(
    config: Gemma4TextConfig<T>,
    max_sequence: usize,
    table: Gemma4CudaCacheTable,
)
    requires
        config.layer_types matches Some(kinds) && tabulates(
            config,
            kinds@,
            max_sequence,
            kinds@.len() as int,
            table.layers@,
            table.sources@,
        ),
    ensures
        wide_enough(config, table),
{
    let kinds = config.layer_types->Some_0;
    assert forall|layer: int| 0 <= layer < table.layers@.len() implies ((
    #[trigger] table.layers@[layer]) matches Some(cache) ==> cache.head_dim == head_width(
        config,
        is_sliding(kinds@[layer]@),
    )) by {
        assert(layer_entry(config, kinds@, max_sequence, layer) is Ok);
    }
}

} // verus!

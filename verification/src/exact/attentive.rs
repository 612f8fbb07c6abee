//! What a device holds after the attention part of a layer, when tokens are decoded.

use crate::cuda::attention_kernels::{kept, Heads, Ring};
use crate::cuda::command::added_up;
use crate::cuda::model_kernels::{ring_place, Rotation};
use crate::exact::feed_forward::{
    lemma_last_launch, lemma_linear, lemma_peel, multiplies, norms_divide_by_the_mean_square,
    performs_exactly, records, rms_rows, rounds, row_products,
};
use crate::exact::per_layer::{lemma_recorded_lens, prefix};
use crate::exact::Reading;
use crate::gemma4_cuda::cache::{Gemma4CudaCacheTable, Gemma4CudaKvCache};
use crate::gemma4_cuda::effects::{
    acts, attended, fills, filled_by, overwritten, rms_normed, rounded, roped, unit_normed, Board,
};
use crate::gemma4_cuda::elements::Join;
use crate::gemma4_cuda::tape::{Launch, Order, Side, Tape, MOST_ROWS};
use crate::gemma4_cuda::weights::{Gemma4CudaState, LayerPlan};
use crate::models::gemma4::Gemma4TextConfig;
use crate::scalar::{sum, Scalar};
use vstd::prelude::*;

verus! {

/// Everything but one buffer of elements is as it was.
pub open spec fn only_fills<T>(before: Board<T>, out: usize, after: Board<T>) -> bool {
    &&& after.wide.len() == before.wide.len()
    &&& forall|k: int|
        0 <= k < before.wide.len() && k != out ==> #[trigger] after.wide[k] == before.wide[k]
    &&& after.short == before.short
    &&& after.weights == before.weights
    &&& after.keys == before.keys
    &&& after.values == before.values
    &&& after.position == before.position
}

/// A launch that fills one buffer of elements.
pub proof fn lemma_fill<T: Scalar>(
    lens: Seq<usize>,
    before: Board<T>,
    launch: Launch<T>,
    out: usize,
    after: Board<T>,
)
    requires
        acts(lens, before, launch, after),
        filled_by(launch) == Some(out),
        out < before.wide.len(),
    ensures
        only_fills(before, out, after),
        after.wide[out as int].len() == lens[out as int],
        fills(before, launch, after.wide[out as int]),
{
}

/// One launch more was recorded, which fills no buffer.
pub open spec fn notes<T>(t: Tape<T>, launch: Launch<T>, u: Tape<T>) -> bool {
    &&& !u.stopped()
    &&& u.lens == t.lens
    &&& u.log.len() == t.log.len() + 1
    &&& u.log.drop_last() == t.log
    &&& u.log.last().launch == launch
}

pub proof fn lemma_peel_note<T: Scalar>(
    reading: Reading<T>,
    lens: Seq<usize>,
    start: Board<T>,
    t: Tape<T>,
    launch: Launch<T>,
    u: Tape<T>,
    n: nat,
    after: Board<T>,
) -> (middle: Board<T>)
    requires
        notes(t, launch, u),
        n <= t.log.len(),
        performs_exactly(reading, lens, start, u.log.skip(n as int), after),
    ensures
        performs_exactly(reading, lens, start, t.log.skip(n as int), middle),
        acts(lens, middle, launch, after),
{
    let log = u.log.skip(n as int);
    assert(log.drop_last() =~= u.log.drop_last().skip(n as int));
    assert(log.last() == u.log.last());
    lemma_last_launch(reading, lens, start, log, after)
}

impl<T: Copy> Gemma4CudaState<T> {
    pub proof fn lemma_rows_recorded(
        self,
        t: Tape<T>,
        input: usize,
        rows: usize,
        input_width: usize,
        offset: usize,
        output_width: usize,
    )
        requires
            !self.rows_sliced(t, input, rows, input_width, offset, output_width).0.stopped(),
        ensures
            !t.stopped(),
            self.rows_sliced(t, input, rows, input_width, offset, output_width).0.lens.last() == (
            rows * output_width) as usize,
            ({
                let (u, out) = self.rows_sliced(t, input, rows, input_width, offset, output_width);
                records(
                    t,
                    Launch::SliceRows { input, input_width, offset, output_width, out },
                    u,
                    out,
                )
            }),
    {
        let (u, out) = self.rows_sliced(t, input, rows, input_width, offset, output_width);
        assert(u.lens == t.lens.push((rows * output_width) as usize));
        assert(u.log == t.log.push(u.log.last()));
        assert(u.lens.drop_last() =~= t.lens);
        assert(u.log.drop_last() =~= t.log);
    }

    pub proof fn lemma_rotation_recorded(
        self,
        t: Tape<T>,
        input: usize,
        rotation: Rotation,
        theta: T,
        factor: T,
    )
        requires
            !self.rotated_state(t, input, rotation, theta, factor).0.stopped(),
        ensures
            !t.stopped(),
            self.rotated_state(t, input, rotation, theta, factor).0.lens.last()
                == t.lens[input as int],
            ({
                let (u, out) = self.rotated_state(t, input, rotation, theta, factor);
                records(t, Launch::RopeState { input, rotation, theta, factor, out }, u, out)
            }),
    {
        let (u, out) = self.rotated_state(t, input, rotation, theta, factor);
        assert(u.lens == t.lens.push(t.lens[input as int]));
        assert(u.log == t.log.push(u.log.last()));
        assert(u.lens.drop_last() =~= t.lens);
        assert(u.log.drop_last() =~= t.log);
    }

    pub proof fn lemma_unit_recorded(self, t: Tape<T>, input: usize, hidden: usize, epsilon: T)
        requires
            !self.normed_unit(t, input, hidden, epsilon).0.stopped(),
        ensures
            !t.stopped(),
            self.normed_unit(t, input, hidden, epsilon).0.lens.last() == t.lens[input as int],
            ({
                let (u, out) = self.normed_unit(t, input, hidden, epsilon);
                records(t, Launch::RmsNormUnit { input, hidden, epsilon, out }, u, out)
            }),
    {
        let (u, out) = self.normed_unit(t, input, hidden, epsilon);
        assert(u.lens == t.lens.push(t.lens[input as int]));
        assert(u.log == t.log.push(u.log.last()));
        assert(u.lens.drop_last() =~= t.lens);
        assert(u.log.drop_last() =~= t.log);
    }

    pub proof fn lemma_attention_recorded(
        self,
        t: Tape<T>,
        query: usize,
        layer: usize,
        cache: Gemma4CudaKvCache,
        heads: usize,
        head_dim: usize,
        window: usize,
    )
        requires
            !self.attended_state(t, query, layer, cache, heads, head_dim, window).0.stopped(),
        ensures
            !t.stopped(),
            self.attended_state(t, query, layer, cache, heads, head_dim, window).0.lens.last()
                == t.lens[query as int],
            ({
                let (u, out) = self.attended_state(
                    t,
                    query,
                    layer,
                    cache,
                    heads,
                    head_dim,
                    window,
                );
                records(
                    t,
                    Launch::AttendState {
                        query,
                        layer,
                        heads: Heads { heads, kv_heads: cache.kv_heads, head_dim },
                        window,
                        capacity: cache.capacity,
                        block: cache.capacity <= MOST_ROWS,
                        out,
                    },
                    u,
                    out,
                )
            }),
    {
        let (u, out) = self.attended_state(t, query, layer, cache, heads, head_dim, window);
        assert(u.lens == t.lens.push(t.lens[query as int]));
        assert(u.log == t.log.push(u.log.last()));
        assert(u.lens.drop_last() =~= t.lens);
        assert(u.log.drop_last() =~= t.log);
    }
}

/// What is computed after a query was made.
pub struct Answer<T> {
    pub mixed: Seq<T>,
    pub mixed_short: Seq<u16>,
    pub projected: Seq<T>,
    pub normed: Seq<T>,
}

/// `out` comes of `hidden` and a query: `hidden`, moved by the normalized output projection of
/// what the query finds in a cache at the position of the decoder's state.
pub open spec fn answers<T: Scalar>(
    reading: Reading<T>,
    state: Gemma4CudaState<T>,
    plan: LayerPlan<T>,
    cache: Gemma4CudaKvCache,
    heads: usize,
    window: usize,
    epsilon: real,
    board: Board<T>,
    query: Seq<T>,
    hidden: Seq<T>,
    answer: Answer<T>,
    out: Seq<T>,
) -> bool {
    let shape = |weight: usize| state.weights@[weight as int].shape@;
    let (sequence, first) = kept(board.position + 1, cache.capacity as int);
    &&& attended(
        Heads { heads, kv_heads: cache.kv_heads, head_dim: plan.head_dim },
        (Ring { start: first as usize, capacity: cache.capacity }),
        sequence,
        window,
        cache.capacity <= MOST_ROWS,
        query,
        board.keys[plan.source as int],
        board.values[plan.source as int],
        answer.mixed,
    )
    &&& rounds(answer.mixed, answer.mixed_short)
    &&& row_products(
        reading,
        answer.mixed_short,
        board.weights[plan.output_projection as int],
        1,
        shape(plan.output_projection)[0] as int,
        shape(plan.output_projection)[1] as int,
        answer.projected,
    )
    &&& rms_rows(
        reading,
        answer.projected,
        board.weights[plan.post_attention_norm as int],
        shape(plan.post_attention_norm)[0] as int,
        epsilon,
        answer.normed,
    )
    &&& out.len() == hidden.len() == answer.normed.len()
    &&& forall|i: int|
        0 <= i < out.len() ==> reading.of(#[trigger] out[i]) == reading.of(hidden[i]) + reading.of(
            answer.normed[i],
        )
}

/// Launches lead from board to board.
pub open spec fn chained<T: Scalar>(
    reading: Reading<T>,
    lens: Seq<usize>,
    boards: Seq<Board<T>>,
    launches: Seq<Launch<T>>,
) -> bool {
    &&& boards.len() == launches.len() + 1
    &&& forall|k: int|
        0 <= k < launches.len() ==> acts(lens, boards[k], #[trigger] launches[k], boards[k + 1])
            && multiplies(reading, boards[k], launches[k], boards[k + 1])
}

/// The launches that follow a query.
pub open spec fn answering<T: Scalar>(
    state: Gemma4CudaState<T>,
    plan: LayerPlan<T>,
    cache: Gemma4CudaKvCache,
    heads: usize,
    window: usize,
    epsilon: T,
    first: usize,
    hidden: usize,
    query: usize,
) -> Seq<Launch<T>> {
    let shape = |weight: usize| state.weights@[weight as int].shape@;
    seq![
        Launch::AttendState {
            query,
            layer: plan.source,
            heads: Heads { heads, kv_heads: cache.kv_heads, head_dim: plan.head_dim },
            window,
            capacity: cache.capacity,
            block: cache.capacity <= MOST_ROWS,
            out: first,
        },
        Launch::Shorten { input: first, out: (first + 1) as usize },
        Launch::Linear {
            input: (first + 1) as usize,
            weight: plan.output_projection,
            rows: 1,
            outputs: shape(plan.output_projection)[0],
            inputs: shape(plan.output_projection)[1],
            out: (first + 2) as usize,
        },
        Launch::RmsNorm {
            input: (first + 2) as usize,
            weight: plan.post_attention_norm,
            hidden: shape(plan.post_attention_norm)[0],
            epsilon,
            out: (first + 3) as usize,
        },
        Launch::Add { left: hidden, right: (first + 3) as usize, out: (first + 4) as usize },
    ]
}

/// The launches that follow a query, one after the other, and what was there before.
proof fn lemma_answer_peeled<T: Scalar>(
    reading: Reading<T>,
    state: Gemma4CudaState<T>,
    plan: LayerPlan<T>,
    cache: Gemma4CudaKvCache,
    heads: usize,
    window: usize,
    epsilon: T,
    t: Tape<T>,
    hidden: usize,
    query: usize,
    n: nat,
    start: Board<T>,
    after: Board<T>,
) -> (boards: Seq<Board<T>>)
    requires
        n <= t.log.len(),
        t.lens.len() + 5 <= usize::MAX,
        !state.concluded(t, hidden, query, plan, cache, heads, window, epsilon).0.stopped(),
        performs_exactly(
            reading,
            state.concluded(t, hidden, query, plan, cache, heads, window, epsilon).0.lens,
            start,
            state.concluded(t, hidden, query, plan, cache, heads, window, epsilon).0.log.skip(
                n as int,
            ),
            after,
        ),
    ensures
        ({
            let (u, out) = state.concluded(
                t,
                hidden,
                query,
                plan,
                cache,
                heads,
                window,
                epsilon,
            );
            let m = t.lens.len() as int;
            let shape = |weight: usize| state.weights@[weight as int].shape@;
            &&& out == m + 4
            &&& prefix(t.lens, u.lens)
            &&& u.lens.len() == m + 5
            &&& u.lens[m] == u.lens[m + 1]
            &&& u.lens[m + 4] == u.lens[m + 3]
            &&& u.lens[m + 2] as int % shape(plan.post_attention_norm)[0] as int == 0
            &&& shape(plan.post_attention_norm).len() == 1
            &&& plan.post_attention_norm < state.weights@.len()
            &&& chained(
                reading,
                u.lens,
                boards,
                answering(
                    state,
                    plan,
                    cache,
                    heads,
                    window,
                    epsilon,
                    t.lens.len() as usize,
                    hidden,
                    query,
                ),
            )
            &&& boards[5] == after
            &&& performs_exactly(reading, u.lens, start, t.log.skip(n as int), boards[0])
        }),
{
    let shape = |weight: usize| state.weights@[weight as int].shape@;
    let (u1, mixed) = state.attended_state(
        t,
        query,
        plan.source,
        cache,
        heads,
        plan.head_dim,
        window,
    );
    let (u2, short) = state.shortened(u1, mixed);
    let (u3, projected) = state.mapped_at(u1, mixed, 1, plan.output_projection);
    let (u4, normed) = state.normed_at(u3, projected, plan.post_attention_norm, epsilon, false);
    let (u5, out) = state.joined(u4, Join::Add, hidden, normed);
    state.lemma_join_recorded(u4, Join::Add, hidden, normed);
    state.lemma_norm_recorded(u3, projected, plan.post_attention_norm, epsilon, false);
    assert(!u1.stopped());
    assert(state.projected_at(u2, short, 1, plan.output_projection) == (u3, projected));
    state.lemma_projection_recorded(u2, short, 1, plan.output_projection);
    state.lemma_short_recorded(u1, mixed);
    state.lemma_attention_recorded(t, query, plan.source, cache, heads, plan.head_dim, window);
    let lens = u5.lens;
    let m = t.lens.len();
    assert(mixed == m && short == m + 1 && projected == m + 2 && normed == m + 3 && out == m + 4);
    let launches = answering(
        state,
        plan,
        cache,
        heads,
        window,
        epsilon,
        m as usize,
        hidden,
        query,
    );
    lemma_recorded_lens(u4, launches[4], u5, out, lens);
    lemma_recorded_lens(u3, launches[3], u4, normed, lens);
    lemma_recorded_lens(u2, launches[2], u3, projected, lens);
    lemma_recorded_lens(u1, launches[1], u2, short, lens);
    lemma_recorded_lens(t, launches[0], u1, mixed, lens);
    let b4 = lemma_peel(reading, lens, start, u4, launches[4], u5, out, n, after);
    let b3 = lemma_peel(reading, lens, start, u3, launches[3], u4, normed, n, b4);
    let b2 = lemma_peel(reading, lens, start, u2, launches[2], u3, projected, n, b3);
    let b1 = lemma_peel(reading, lens, start, u1, launches[1], u2, short, n, b2);
    let b0 = lemma_peel(reading, lens, start, t, launches[0], u1, mixed, n, b1);
    seq![b0, b1, b2, b3, b4, after]
}

/// What follows a query answers it.
proof fn lemma_answered<T: Scalar>(
    reading: Reading<T>,
    state: Gemma4CudaState<T>,
    plan: LayerPlan<T>,
    cache: Gemma4CudaKvCache,
    heads: usize,
    window: usize,
    epsilon: T,
    lens: Seq<usize>,
    first: usize,
    hidden: usize,
    query: usize,
    boards: Seq<Board<T>>,
) -> (answer: Answer<T>)
    requires
        reading.exact(),
        reading.of(epsilon) > 0 as real,
        state.wf(),
        hidden < first,
        query < first,
        first + 5 <= usize::MAX,
        lens.len() == first + 5,
        lens[first as int] == lens[first + 1],
        lens[first + 4] == lens[first + 3],
        plan.post_attention_norm < state.weights@.len(),
        state.weights@[plan.post_attention_norm as int].shape@.len() == 1,
        lens[first + 2] as int % state.weights@[plan.post_attention_norm as int].shape@[0] as int
            == 0,
        chained(
            reading,
            lens,
            boards,
            answering(state, plan, cache, heads, window, epsilon, first, hidden, query),
        ),
        boards[0].wide.len() >= first + 5,
        boards[0].short.len() >= first + 5,
    ensures
        answers(
            reading,
            state,
            plan,
            cache,
            heads,
            window,
            reading.of(epsilon),
            boards[0],
            boards[0].wide[query as int],
            boards[0].wide[hidden as int],
            answer,
            boards[5].wide[first + 4],
        ),
        boards[5].keys == boards[0].keys,
        boards[5].values == boards[0].values,
{
    let shape = |weight: usize| state.weights@[weight as int].shape@;
    let launches = answering(state, plan, cache, heads, window, epsilon, first, hidden, query);
    let (b0, b1, b2, b3, b4, after) = (
        boards[0],
        boards[1],
        boards[2],
        boards[3],
        boards[4],
        boards[5],
    );
    let (l1, l2, l3, l4, l5) = (launches[0], launches[1], launches[2], launches[3], launches[4]);
    let mixed = first;
    let short = (first + 1) as usize;
    let projected = (first + 2) as usize;
    let normed = (first + 3) as usize;
    let out = (first + 4) as usize;
    let x = b0.wide[hidden as int];
    let weights = b0.weights;
    lemma_fill(lens, b0, l1, mixed, b1);
    let mix = b1.wide[mixed as int];
    assert(b1.wide[hidden as int] == x);
    assert(acts(lens, b1, l2, b2));
    let squeezed = b2.short[short as int];
    assert(b2.wide == b1.wide && b2.weights == weights && b2.keys == b0.keys && b2.values
        == b0.values);
    assert(rounds(mix, squeezed));
    assert(acts(lens, b2, l3, b3) && multiplies(reading, b2, l3, b3));
    lemma_linear(
        reading,
        lens,
        b2,
        short,
        plan.output_projection,
        1,
        shape(plan.output_projection)[0],
        shape(plan.output_projection)[1],
        projected,
        b3,
    );
    lemma_fill(lens, b2, l3, projected, b3);
    let outs = b3.wide[projected as int];
    assert(b3.wide[hidden as int] == x);
    assert(acts(lens, b3, l4, b4));
    lemma_fill(lens, b3, l4, normed, b4);
    let scaled = b4.wide[normed as int];
    assert(crate::gemma4_cuda::weights::usable_shape(shape(plan.post_attention_norm)));
    norms_divide_by_the_mean_square(
        reading,
        outs,
        weights[plan.post_attention_norm as int],
        shape(plan.post_attention_norm)[0],
        epsilon,
        scaled,
    );
    assert(acts(lens, b4, l5, after));
    lemma_fill(lens, b4, l5, out, after);
    let result = after.wide[out as int];
    assert(b4.wide[hidden as int] == x);
    assert(added_up(x, scaled, result));
    assert forall|i: int| 0 <= i < result.len() implies reading.of(#[trigger] result[i])
        == reading.of(x[i]) + reading.of(scaled[i]) by {
        assert(sum(x[i], scaled[i], result[i]));
    }
    Answer { mixed: mix, mixed_short: squeezed, projected: outs, normed: scaled }
}

impl<T: Copy> Gemma4CudaState<T> {
    /// What follows a query.
    pub open spec fn concluded(
        self,
        t: Tape<T>,
        hidden: usize,
        query: usize,
        plan: LayerPlan<T>,
        cache: Gemma4CudaKvCache,
        heads: usize,
        window: usize,
        epsilon: T,
    ) -> (Tape<T>, usize) {
        let (t, attended) = self.attended_state(
            t,
            query,
            plan.source,
            cache,
            heads,
            plan.head_dim,
            window,
        );
        let (t, projected) = self.mapped_at(t, attended, 1, plan.output_projection);
        let (t, projected) = self.normed_at(
            t,
            projected,
            plan.post_attention_norm,
            epsilon,
            false,
        );
        self.joined(t, Join::Add, hidden, projected)
    }
}

/// What a query, and a key and a value where the layer has its own, are made of.
pub struct Question<T> {
    pub normed: Seq<T>,
    pub normed_short: Seq<u16>,
    /// The product with the query projection.
    pub product: Seq<T>,
    pub query: Seq<T>,
    pub query_normed: Seq<T>,
    pub query_turned: Seq<T>,
    pub key: Seq<T>,
    pub key_normed: Seq<T>,
    pub key_turned: Seq<T>,
    pub value: Seq<T>,
    pub value_normed: Seq<T>,
}

/// The query comes of the hidden row: normalized, multiplied by the query projection,
/// normalized by head, and turned by the position of the decoder's state.
pub open spec fn asks<T: Scalar>(
    reading: Reading<T>,
    state: Gemma4CudaState<T>,
    plan: LayerPlan<T>,
    heads: usize,
    epsilon: real,
    board: Board<T>,
    hidden: Seq<T>,
    question: Question<T>,
) -> bool {
    let shape = |weight: usize| state.weights@[weight as int].shape@;
    &&& rms_rows(
        reading,
        hidden,
        board.weights[plan.input_norm as int],
        shape(plan.input_norm)[0] as int,
        epsilon,
        question.normed,
    )
    &&& rounds(question.normed, question.normed_short)
    &&& row_products(
        reading,
        question.normed_short,
        board.weights[plan.query_projection as int],
        1,
        shape(plan.query_projection)[0] as int,
        shape(plan.query_projection)[1] as int,
        question.product,
    )
    &&& rms_rows(
        reading,
        question.query,
        board.weights[plan.query_norm as int],
        shape(plan.query_norm)[0] as int,
        epsilon,
        question.query_normed,
    )
    &&& roped(
        question.query_normed,
        Rotation { heads, head_dim: plan.head_dim, rotary_dim: plan.rotary_dim },
        board.position,
        plan.rope_theta,
        plan.rope_factor,
        question.query_turned,
    )
}

/// After the attention part of a layer that attends to the cache of another, a device holds, in
/// the buffer that was recorded, the hidden row, moved by the normalized output projection of
/// what the layer's query finds in that cache.
pub proof fn borrowed_attention_answers_its_query<T: Scalar>(
    reading: Reading<T>,
    state: Gemma4CudaState<T>,
    t: Tape<T>,
    hidden: usize,
    layer: usize,
    config: Gemma4TextConfig<T>,
    table: Gemma4CudaCacheTable,
    start: Board<T>,
    after: Board<T>,
) -> (r: (Question<T>, Answer<T>))
    requires
        reading.exact(),
        reading.of(config.rms_norm_eps) > 0 as real,
        state.wf(),
        hidden < t.lens.len(),
        t.lens.len() + 9 <= usize::MAX,
        layer < state.decode_plan@.len(),
        !state.decode_plan@[layer as int].fused_qkv,
        !state.attentive(t, hidden, layer, config, table).0.stopped(),
        start.wide.len() >= t.lens.len() + 9,
        start.short.len() >= t.lens.len() + 9,
        start.wide[hidden as int].len() == t.lens[hidden as int],
        performs_exactly(
            reading,
            state.attentive(t, hidden, layer, config, table).0.lens,
            start,
            state.attentive(t, hidden, layer, config, table).0.log.skip(t.log.len() as int),
            after,
        ),
    ensures
        ({
            let plan = state.decode_plan@[layer as int];
            let cache = table.layers@[plan.source as int]->Some_0;
            let heads = config.num_attention_heads;
            let window = if plan.sliding {
                config.sliding_window
            } else {
                0
            };
            let epsilon = reading.of(config.rms_norm_eps);
            let x = start.wide[hidden as int];
            &&& asks(reading, state, plan, heads, epsilon, start, x, r.0)
            &&& r.0.query == r.0.product
            &&& answers(
                reading,
                state,
                plan,
                cache,
                heads,
                window,
                epsilon,
                start,
                r.0.query_turned,
                x,
                r.1,
                after.wide[state.attentive(t, hidden, layer, config, table).1 as int],
            )
            &&& after.keys == start.keys
            &&& after.values == start.values
        }),
{
    let plan = state.decode_plan@[layer as int];
    let cache = table.layers@[plan.source as int]->Some_0;
    let heads = config.num_attention_heads;
    let epsilon = config.rms_norm_eps;
    let window = if plan.sliding {
        config.sliding_window
    } else {
        0
    };
    let shape = |weight: usize| state.weights@[weight as int].shape@;
    let rotation = Rotation { heads, head_dim: plan.head_dim, rotary_dim: plan.rotary_dim };
    assert(!t.stopped());
    let (u1, normalized) = state.normed_at(t, hidden, plan.input_norm, epsilon, true);
    let (u2, query) = state.projected_at(u1, normalized, 1, plan.query_projection);
    let (u3, scaled) = state.normed_at(u2, query, plan.query_norm, epsilon, false);
    let (u4, turned) = state.rotated_state(u3, scaled, rotation, plan.rope_theta, plan.rope_factor);
    assert(state.attentive(t, hidden, layer, config, table) == state.concluded(
        u4,
        hidden,
        turned,
        plan,
        cache,
        heads,
        window,
        epsilon,
    )) by {
        if u1.stopped() {
            assert(u2 == u1);
        }
    }
    let (u9, out) = state.concluded(u4, hidden, turned, plan, cache, heads, window, epsilon);
    lemma_conclusion_runs(state, u4, hidden, turned, plan, cache, heads, window, epsilon);
    state.lemma_rotation_recorded(u3, scaled, rotation, plan.rope_theta, plan.rope_factor);
    state.lemma_norm_recorded(u2, query, plan.query_norm, epsilon, false);
    state.lemma_projection_recorded(u1, normalized, 1, plan.query_projection);
    state.lemma_norm_recorded(t, hidden, plan.input_norm, epsilon, true);
    let n = t.log.len();
    let l = t.lens.len();
    assert(u4.lens.len() == l + 4 && u4.log.len() == n + 4);
    let boards = lemma_answer_peeled(
        reading,
        state,
        plan,
        cache,
        heads,
        window,
        epsilon,
        u4,
        hidden,
        turned,
        n,
        start,
        after,
    );
    let b4 = boards[0];
    let lens = u9.lens;
    let l4 = Launch::RopeState {
        input: scaled,
        rotation,
        theta: plan.rope_theta,
        factor: plan.rope_factor,
        out: turned,
    };
    let l3 = Launch::RmsNorm {
        input: query,
        weight: plan.query_norm,
        hidden: shape(plan.query_norm)[0],
        epsilon,
        out: scaled,
    };
    let l2 = Launch::Linear {
        input: normalized,
        weight: plan.query_projection,
        rows: 1,
        outputs: shape(plan.query_projection)[0],
        inputs: shape(plan.query_projection)[1],
        out: query,
    };
    let l1 = Launch::RmsNormShort {
        input: hidden,
        weight: plan.input_norm,
        hidden: shape(plan.input_norm)[0],
        epsilon,
        out: normalized,
    };
    lemma_recorded_lens(u3, l4, u4, turned, lens);
    lemma_recorded_lens(u2, l3, u3, scaled, lens);
    lemma_recorded_lens(u1, l2, u2, query, lens);
    lemma_recorded_lens(t, l1, u1, normalized, lens);
    assert(normalized == l && query == l + 1 && scaled == l + 2 && turned == l + 3);
    let b3 = lemma_peel(reading, lens, start, u3, l4, u4, turned, n, b4);
    let b2 = lemma_peel(reading, lens, start, u2, l3, u3, scaled, n, b3);
    let b1 = lemma_peel(reading, lens, start, u1, l2, u2, query, n, b2);
    let b0 = lemma_peel(reading, lens, start, t, l1, u1, normalized, n, b1);
    assert(t.log.skip(n as int) =~= Seq::<Order<T>>::empty());
    assert(b0 == start);
    let x = start.wide[hidden as int];
    let weights = start.weights;
    let first = b1.short[normalized as int];
    assert(b1.wide == start.wide && b1.weights == weights && b1.keys == start.keys && b1.values
        == start.values && b1.position == start.position);
    let values = choose|values: Seq<T>|
        {
            &&& #[trigger] rms_normed(
                start.wide[hidden as int],
                start.weights[plan.input_norm as int],
                shape(plan.input_norm)[0],
                epsilon,
                values,
            )
            &&& forall|i: int|
                0 <= i < first.len() ==> rounded(values[i], #[trigger] first[i])
        };
    assert(crate::gemma4_cuda::weights::usable_shape(shape(plan.input_norm)));
    assert(crate::gemma4_cuda::weights::usable_shape(shape(plan.query_norm)));
    norms_divide_by_the_mean_square(
        reading,
        x,
        weights[plan.input_norm as int],
        shape(plan.input_norm)[0],
        epsilon,
        values,
    );
    assert(rounds(values, first));
    lemma_linear(
        reading,
        lens,
        b1,
        normalized,
        plan.query_projection,
        1,
        shape(plan.query_projection)[0],
        shape(plan.query_projection)[1],
        query,
        b2,
    );
    lemma_fill(lens, b1, l2, query, b2);
    let asked = b2.wide[query as int];
    lemma_fill(lens, b2, l3, scaled, b3);
    let steady = b3.wide[scaled as int];
    norms_divide_by_the_mean_square(
        reading,
        asked,
        weights[plan.query_norm as int],
        shape(plan.query_norm)[0],
        epsilon,
        steady,
    );
    lemma_fill(lens, b3, l4, turned, b4);
    let faced = b4.wide[turned as int];
    assert(b4.wide[hidden as int] == x);
    let answer = lemma_answered(
        reading,
        state,
        plan,
        cache,
        heads,
        window,
        epsilon,
        lens,
        u4.lens.len() as usize,
        hidden,
        turned,
        boards,
    );
    let question = Question {
        normed: values,
        normed_short: first,
        product: asked,
        query: asked,
        query_normed: steady,
        query_turned: faced,
        key: seq![],
        key_normed: seq![],
        key_turned: seq![],
        value: seq![],
        value_normed: seq![],
    };
    (question, answer)
}

/// What follows a query is recorded only where the query was.
proof fn lemma_conclusion_runs<T: Scalar>(
    state: Gemma4CudaState<T>,
    t: Tape<T>,
    hidden: usize,
    query: usize,
    plan: LayerPlan<T>,
    cache: Gemma4CudaKvCache,
    heads: usize,
    window: usize,
    epsilon: T,
)
    requires
        !state.concluded(t, hidden, query, plan, cache, heads, window, epsilon).0.stopped(),
    ensures
        !t.stopped(),
{
    let (u1, mixed) = state.attended_state(
        t,
        query,
        plan.source,
        cache,
        heads,
        plan.head_dim,
        window,
    );
    let (u3, projected) = state.mapped_at(u1, mixed, 1, plan.output_projection);
    let (u4, normed) = state.normed_at(u3, projected, plan.post_attention_norm, epsilon, false);
    state.lemma_join_recorded(u4, Join::Add, hidden, normed);
    state.lemma_norm_recorded(u3, projected, plan.post_attention_norm, epsilon, false);
}

/// The key and the value of a token come of the product too: the key normalized by head and
/// turned by the position of the decoder's state, the value normalized by head.
pub open spec fn tells<T: Scalar>(
    reading: Reading<T>,
    state: Gemma4CudaState<T>,
    plan: LayerPlan<T>,
    cache: Gemma4CudaKvCache,
    epsilon: T,
    board: Board<T>,
    question: Question<T>,
) -> bool {
    let shape = |weight: usize| state.weights@[weight as int].shape@;
    let key_norm = plan.key_norm->Some_0;
    &&& rms_rows(
        reading,
        question.key,
        board.weights[key_norm as int],
        shape(key_norm)[0] as int,
        reading.of(epsilon),
        question.key_normed,
    )
    &&& roped(
        question.key_normed,
        Rotation {
            heads: cache.kv_heads,
            head_dim: plan.head_dim,
            rotary_dim: plan.rotary_dim,
        },
        board.position,
        plan.rope_theta,
        plan.rope_factor,
        question.key_turned,
    )
    &&& unit_normed(question.value, plan.head_dim, epsilon, question.value_normed)
}

/// The product is cut into the query, the key and the value.
pub open spec fn cuts<T>(
    question: Question<T>,
    heads: usize,
    kv_heads: usize,
    head_dim: usize,
) -> bool {
    let (a, b) = (heads * head_dim, kv_heads * head_dim);
    &&& question.query.len() == a
    &&& question.key.len() == b
    &&& question.value.len() == b
    &&& forall|i: int| 0 <= i < a ==> #[trigger] question.query[i] == question.product[i]
    &&& forall|i: int| 0 <= i < b ==> #[trigger] question.key[i] == question.product[a + i]
    &&& forall|i: int| 0 <= i < b ==> #[trigger] question.value[i] == question.product[a + b + i]
}

/// What writing a key and a value to a cache records.
proof fn lemma_append_recorded<T: Scalar>(
    state: Gemma4CudaState<T>,
    t: Tape<T>,
    layer: usize,
    cache: Gemma4CudaKvCache,
    key: usize,
    value: usize,
) -> (middle: Tape<T>)
    requires
        !state.appended_state(t, layer, cache, key, value).stopped(),
        0 <= cache.width() <= usize::MAX,
    ensures
        !t.stopped(),
        t.lens[key as int] == cache.width(),
        t.lens[value as int] == cache.width(),
        notes(
            t,
            Launch::CacheWriteState {
                layer,
                side: Side::Key,
                width: cache.width() as usize,
                capacity: cache.capacity,
                input: key,
            },
            middle,
        ),
        notes(
            middle,
            Launch::CacheWriteState {
                layer,
                side: Side::Value,
                width: cache.width() as usize,
                capacity: cache.capacity,
                input: value,
            },
            state.appended_state(t, layer, cache, key, value),
        ),
{
    let u = state.appended_state(t, layer, cache, key, value);
    let grid = crate::cuda::launch::model_grid(cache.width() as nat);
    let middle = t.launched(
        Launch::CacheWriteState {
            layer,
            side: Side::Key,
            width: cache.width() as usize,
            capacity: cache.capacity,
            input: key,
        },
        grid,
    );
    assert(middle.log == t.log.push(middle.log.last()));
    assert(u.log == middle.log.push(u.log.last()));
    assert(middle.log.drop_last() =~= t.log);
    assert(u.log.drop_last() =~= middle.log);
    middle
}

/// After the attention part of a layer with a cache of its own, the cache holds the token's key
/// and value in the place of its position, and a device holds, in the buffer that was recorded,
/// the hidden row, moved by the normalized output projection of what the layer's query finds in
/// the cache.
#[verifier::rlimit(80)]
#[verifier::spinoff_prover]
pub proof fn own_attention_answers_its_query<T: Scalar>(
    reading: Reading<T>,
    state: Gemma4CudaState<T>,
    t: Tape<T>,
    hidden: usize,
    layer: usize,
    config: Gemma4TextConfig<T>,
    table: Gemma4CudaCacheTable,
    start: Board<T>,
    after: Board<T>,
) -> (r: (Question<T>, Answer<T>, Board<T>))
    requires
        reading.exact(),
        reading.of(config.rms_norm_eps) > 0 as real,
        state.wf(),
        hidden < t.lens.len(),
        t.lens.len() + 15 <= usize::MAX,
        layer < state.decode_plan@.len(),
        state.decode_plan@[layer as int].fused_qkv,
        crate::gemma4_cuda::layers::plan_fits(
            state.decode_plan@[layer as int],
            layer as int,
            config.num_attention_heads,
            table,
        ),
        table.layers@[layer as int]->Some_0.head_dim == state.decode_plan@[layer as int].head_dim,
        layer < start.keys.len(),
        layer < start.values.len(),
        !state.attentive(t, hidden, layer, config, table).0.stopped(),
        start.wide.len() >= t.lens.len() + 15,
        start.short.len() >= t.lens.len() + 15,
        start.wide[hidden as int].len() == t.lens[hidden as int],
        performs_exactly(
            reading,
            state.attentive(t, hidden, layer, config, table).0.lens,
            start,
            state.attentive(t, hidden, layer, config, table).0.log.skip(t.log.len() as int),
            after,
        ),
    ensures
        ({
            let plan = state.decode_plan@[layer as int];
            let cache = table.layers@[layer as int]->Some_0;
            let heads = config.num_attention_heads;
            let window = if plan.sliding {
                config.sliding_window
            } else {
                0
            };
            let epsilon = reading.of(config.rms_norm_eps);
            let x = start.wide[hidden as int];
            let at = ring_place(
                start.position as int,
                cache.capacity as int,
                cache.width(),
                0,
            );
            &&& asks(reading, state, plan, heads, epsilon, start, x, r.0)
            &&& cuts(r.0, heads, cache.kv_heads, plan.head_dim)
            &&& tells(reading, state, plan, cache, config.rms_norm_eps, start, r.0)
            &&& r.2.keys == start.keys.update(
                layer as int,
                overwritten(start.keys[layer as int], at, r.0.key_turned),
            )
            &&& r.2.values == start.values.update(
                layer as int,
                overwritten(start.values[layer as int], at, r.0.value_normed),
            )
            &&& r.2.position == start.position
            &&& r.2.weights == start.weights
            &&& answers(
                reading,
                state,
                plan,
                cache,
                heads,
                window,
                epsilon,
                r.2,
                r.0.query_turned,
                x,
                r.1,
                after.wide[state.attentive(t, hidden, layer, config, table).1 as int],
            )
            &&& after.keys == r.2.keys
            &&& after.values == r.2.values
        }),
{
    let plan = state.decode_plan@[layer as int];
    let cache = table.layers@[layer as int]->Some_0;
    assert(plan.source == layer);
    let heads = config.num_attention_heads;
    let epsilon = config.rms_norm_eps;
    let window = if plan.sliding {
        config.sliding_window
    } else {
        0
    };
    let shape = |weight: usize| state.weights@[weight as int].shape@;
    let rotation = Rotation { heads, head_dim: plan.head_dim, rotary_dim: plan.rotary_dim };
    let key_rotation = Rotation {
        heads: cache.kv_heads,
        head_dim: plan.head_dim,
        rotary_dim: plan.rotary_dim,
    };
    let key_norm = plan.key_norm->Some_0;
    let (a, b) = (heads * plan.head_dim, cache.kv_heads * plan.head_dim);
    vstd::arithmetic::mul::lemma_mul_nonnegative(heads as int, plan.head_dim as int);
    vstd::arithmetic::mul::lemma_mul_nonnegative(cache.kv_heads as int, plan.head_dim as int);
    let (wa, wb) = (a as usize, b as usize);
    let wide = (wa + wb + wb) as usize;
    assert(!t.stopped());
    let (u1, normalized) = state.normed_at(t, hidden, plan.input_norm, epsilon, true);
    let (u2, fused) = state.projected_at(u1, normalized, 1, plan.query_projection);
    let (u3, query) = state.rows_sliced(u2, fused, 1, wide, 0, wa);
    let (u4, key) = state.rows_sliced(u3, fused, 1, wide, wa, wb);
    let (u5, value) = state.rows_sliced(u4, fused, 1, wide, (wa + wb) as usize, wb);
    let (u6, steady) = state.normed_at(u5, query, plan.query_norm, epsilon, false);
    let (u7, turned) = state.rotated_state(u6, steady, rotation, plan.rope_theta, plan.rope_factor);
    let (u8, key_steady) = state.normed_at(u7, key, key_norm, epsilon, false);
    let (u9, key_turned) = state.rotated_state(
        u8,
        key_steady,
        key_rotation,
        plan.rope_theta,
        plan.rope_factor,
    );
    let (u10, value_steady) = state.normed_unit(u9, value, plan.head_dim, epsilon);
    let u12 = state.appended_state(u10, layer, cache, key_turned, value_steady);
    let (u17, out) = state.attentive(t, hidden, layer, config, table);
    lemma_fused_plan(state, t, hidden, layer, config, table, u12, turned);
    lemma_conclusion_runs(state, u12, hidden, turned, plan, cache, heads, window, epsilon);
    let u11 = lemma_append_recorded(state, u10, layer, cache, key_turned, value_steady);
    state.lemma_unit_recorded(u9, value, plan.head_dim, epsilon);
    state.lemma_rotation_recorded(
        u8,
        key_steady,
        key_rotation,
        plan.rope_theta,
        plan.rope_factor,
    );
    state.lemma_norm_recorded(u7, key, key_norm, epsilon, false);
    state.lemma_rotation_recorded(u6, steady, rotation, plan.rope_theta, plan.rope_factor);
    state.lemma_norm_recorded(u5, query, plan.query_norm, epsilon, false);
    state.lemma_rows_recorded(u4, fused, 1, wide, (wa + wb) as usize, wb);
    state.lemma_rows_recorded(u3, fused, 1, wide, wa, wb);
    state.lemma_rows_recorded(u2, fused, 1, wide, 0, wa);
    state.lemma_projection_recorded(u1, normalized, 1, plan.query_projection);
    state.lemma_norm_recorded(t, hidden, plan.input_norm, epsilon, true);
    let n = t.log.len();
    let l = t.lens.len();
    let boards = lemma_answer_peeled(
        reading,
        state,
        plan,
        cache,
        heads,
        window,
        epsilon,
        u12,
        hidden,
        turned,
        n,
        start,
        after,
    );
    let lens = u17.lens;
    let b12 = boards[0];
    let write = |side: Side, input: usize|
        Launch::<T>::CacheWriteState {
            layer,
            side,
            width: cache.width() as usize,
            capacity: cache.capacity,
            input,
        };
    let l10 = Launch::RmsNormUnit {
        input: value,
        hidden: plan.head_dim,
        epsilon,
        out: value_steady,
    };
    let l9 = Launch::RopeState {
        input: key_steady,
        rotation: key_rotation,
        theta: plan.rope_theta,
        factor: plan.rope_factor,
        out: key_turned,
    };
    let l8 = Launch::RmsNorm {
        input: key,
        weight: key_norm,
        hidden: shape(key_norm)[0],
        epsilon,
        out: key_steady,
    };
    let l7 = Launch::RopeState {
        input: steady,
        rotation,
        theta: plan.rope_theta,
        factor: plan.rope_factor,
        out: turned,
    };
    let l6 = Launch::RmsNorm {
        input: query,
        weight: plan.query_norm,
        hidden: shape(plan.query_norm)[0],
        epsilon,
        out: steady,
    };
    let l5 = Launch::SliceRows {
        input: fused,
        input_width: wide,
        offset: (wa + wb) as usize,
        output_width: wb,
        out: value,
    };
    let l4 = Launch::SliceRows {
        input: fused,
        input_width: wide,
        offset: wa,
        output_width: wb,
        out: key,
    };
    let l3 = Launch::SliceRows {
        input: fused,
        input_width: wide,
        offset: 0,
        output_width: wa,
        out: query,
    };
    let l2 = Launch::Linear {
        input: normalized,
        weight: plan.query_projection,
        rows: 1,
        outputs: shape(plan.query_projection)[0],
        inputs: shape(plan.query_projection)[1],
        out: fused,
    };
    let l1 = Launch::RmsNormShort {
        input: hidden,
        weight: plan.input_norm,
        hidden: shape(plan.input_norm)[0],
        epsilon,
        out: normalized,
    };
    assert(prefix(u10.lens, lens));
    lemma_recorded_lens(u9, l10, u10, value_steady, lens);
    lemma_recorded_lens(u8, l9, u9, key_turned, lens);
    lemma_recorded_lens(u7, l8, u8, key_steady, lens);
    lemma_recorded_lens(u6, l7, u7, turned, lens);
    lemma_recorded_lens(u5, l6, u6, steady, lens);
    lemma_recorded_lens(u4, l5, u5, value, lens);
    lemma_recorded_lens(u3, l4, u4, key, lens);
    lemma_recorded_lens(u2, l3, u3, query, lens);
    lemma_recorded_lens(u1, l2, u2, fused, lens);
    lemma_recorded_lens(t, l1, u1, normalized, lens);
    assert(normalized == l && fused == l + 1 && query == l + 2 && key == l + 3 && value == l + 4
        && steady == l + 5 && turned == l + 6 && key_steady == l + 7 && key_turned == l + 8
        && value_steady == l + 9);
    let b11 = lemma_peel_note(
        reading,
        lens,
        start,
        u11,
        write(Side::Value, value_steady),
        u12,
        n,
        b12,
    );
    let b10 = lemma_peel_note(
        reading,
        lens,
        start,
        u10,
        write(Side::Key, key_turned),
        u11,
        n,
        b11,
    );
    let b9 = lemma_peel(reading, lens, start, u9, l10, u10, value_steady, n, b10);
    let b8 = lemma_peel(reading, lens, start, u8, l9, u9, key_turned, n, b9);
    let b7 = lemma_peel(reading, lens, start, u7, l8, u8, key_steady, n, b8);
    let b6 = lemma_peel(reading, lens, start, u6, l7, u7, turned, n, b7);
    let b5 = lemma_peel(reading, lens, start, u5, l6, u6, steady, n, b6);
    let b4 = lemma_peel(reading, lens, start, u4, l5, u5, value, n, b5);
    let b3 = lemma_peel(reading, lens, start, u3, l4, u4, key, n, b4);
    let b2 = lemma_peel(reading, lens, start, u2, l3, u3, query, n, b3);
    let b1 = lemma_peel(reading, lens, start, u1, l2, u2, fused, n, b2);
    let b0 = lemma_peel(reading, lens, start, t, l1, u1, normalized, n, b1);
    assert(t.log.skip(n as int) =~= Seq::<Order<T>>::empty());
    assert(b0 == start);
    let x = start.wide[hidden as int];
    let weights = start.weights;
    let first = b1.short[normalized as int];
    assert(b1.wide == start.wide && b1.weights == weights && b1.keys == start.keys && b1.values
        == start.values && b1.position == start.position);
    let values = choose|values: Seq<T>|
        {
            &&& #[trigger] rms_normed(
                start.wide[hidden as int],
                start.weights[plan.input_norm as int],
                shape(plan.input_norm)[0],
                epsilon,
                values,
            )
            &&& forall|i: int|
                0 <= i < first.len() ==> rounded(values[i], #[trigger] first[i])
        };
    assert(crate::gemma4_cuda::weights::usable_shape(shape(plan.input_norm)));
    assert(crate::gemma4_cuda::weights::usable_shape(shape(plan.query_norm)));
    assert(crate::gemma4_cuda::weights::usable_shape(shape(key_norm)));
    norms_divide_by_the_mean_square(
        reading,
        x,
        weights[plan.input_norm as int],
        shape(plan.input_norm)[0],
        epsilon,
        values,
    );
    assert(rounds(values, first));
    lemma_linear(
        reading,
        lens,
        b1,
        normalized,
        plan.query_projection,
        1,
        shape(plan.query_projection)[0],
        shape(plan.query_projection)[1],
        fused,
        b2,
    );
    lemma_fill(lens, b1, l2, fused, b2);
    let product = b2.wide[fused as int];
    lemma_fill(lens, b2, l3, query, b3);
    lemma_fill(lens, b3, l4, key, b4);
    lemma_fill(lens, b4, l5, value, b5);
    let asked = b3.wide[query as int];
    let keyed = b4.wide[key as int];
    let valued = b5.wide[value as int];
    assert(b3.wide[fused as int] == product && b4.wide[fused as int] == product);
    lemma_cut(product, 0, wide as int, asked, wa as int);
    lemma_cut(product, wa as int, wide as int, keyed, wb as int);
    lemma_cut(product, wa + wb, wide as int, valued, wb as int);
    lemma_fill(lens, b5, l6, steady, b6);
    assert(b5.wide[query as int] == asked && b5.wide[key as int] == keyed);
    let query_normed = b6.wide[steady as int];
    norms_divide_by_the_mean_square(
        reading,
        asked,
        weights[plan.query_norm as int],
        shape(plan.query_norm)[0],
        epsilon,
        query_normed,
    );
    lemma_fill(lens, b6, l7, turned, b7);
    let query_turned = b7.wide[turned as int];
    assert(b7.wide[key as int] == keyed && b7.wide[value as int] == valued);
    lemma_fill(lens, b7, l8, key_steady, b8);
    let key_normed = b8.wide[key_steady as int];
    norms_divide_by_the_mean_square(
        reading,
        keyed,
        weights[key_norm as int],
        shape(key_norm)[0],
        epsilon,
        key_normed,
    );
    lemma_fill(lens, b8, l9, key_turned, b9);
    let keys = b9.wide[key_turned as int];
    assert(b9.wide[value as int] == valued);
    lemma_fill(lens, b9, l10, value_steady, b10);
    let rows = b10.wide[value_steady as int];
    assert(b10.wide[key_turned as int] == keys && b10.wide[turned as int] == query_turned
        && b10.wide[hidden as int] == x && b10.position == start.position && b10.keys == start.keys
        && b10.values == start.values && b10.weights == weights);
    assert(b11.wide == b10.wide && b11.values == start.values && b11.position == start.position
        && b11.weights == weights && b11.short == b10.short);
    assert(b12.wide == b10.wide && b12.keys == b11.keys && b12.position == start.position
        && b12.weights == weights && b12.short == b10.short);
    assert(cache.width() == b);
    let answer = lemma_answered(
        reading,
        state,
        plan,
        cache,
        heads,
        window,
        epsilon,
        lens,
        u12.lens.len() as usize,
        hidden,
        turned,
        boards,
    );
    let question = Question {
        normed: values,
        normed_short: first,
        product,
        query: asked,
        query_normed,
        query_turned,
        key: keyed,
        key_normed,
        key_turned: keys,
        value: valued,
        value_normed: rows,
    };
    (question, answer, b12)
}

/// The plan of a layer with a cache of its own, step by step.
proof fn lemma_fused_plan<T: Scalar>(
    state: Gemma4CudaState<T>,
    t: Tape<T>,
    hidden: usize,
    layer: usize,
    config: Gemma4TextConfig<T>,
    table: Gemma4CudaCacheTable,
    remembered: Tape<T>,
    turned: usize,
)
    requires
        !t.stopped(),
        layer < state.decode_plan@.len(),
        state.decode_plan@[layer as int].fused_qkv,
        crate::gemma4_cuda::layers::plan_fits(
            state.decode_plan@[layer as int],
            layer as int,
            config.num_attention_heads,
            table,
        ),
        !state.attentive(t, hidden, layer, config, table).0.stopped(),
        ({
            let plan = state.decode_plan@[layer as int];
            let cache = table.layers@[layer as int]->Some_0;
            let heads = config.num_attention_heads;
            let epsilon = config.rms_norm_eps;
            let (wa, wb) = (
                (heads * plan.head_dim) as usize,
                (cache.kv_heads * plan.head_dim) as usize,
            );
            let wide = (wa + wb + wb) as usize;
            let (u1, normalized) = state.normed_at(t, hidden, plan.input_norm, epsilon, true);
            let (u2, fused) = state.projected_at(u1, normalized, 1, plan.query_projection);
            let (u3, query) = state.rows_sliced(u2, fused, 1, wide, 0, wa);
            let (u4, key) = state.rows_sliced(u3, fused, 1, wide, wa, wb);
            let (u5, value) = state.rows_sliced(u4, fused, 1, wide, (wa + wb) as usize, wb);
            let (u6, steady) = state.normed_at(u5, query, plan.query_norm, epsilon, false);
            let (u7, query_turned) = state.rotated_state(
                u6,
                steady,
                Rotation { heads, head_dim: plan.head_dim, rotary_dim: plan.rotary_dim },
                plan.rope_theta,
                plan.rope_factor,
            );
            let (u8, key_steady) = state.normed_at(
                u7,
                key,
                plan.key_norm->Some_0,
                epsilon,
                false,
            );
            let (u9, key_turned) = state.rotated_state(
                u8,
                key_steady,
                Rotation {
                    heads: cache.kv_heads,
                    head_dim: plan.head_dim,
                    rotary_dim: plan.rotary_dim,
                },
                plan.rope_theta,
                plan.rope_factor,
            );
            let (u10, value_steady) = state.normed_unit(u9, value, plan.head_dim, epsilon);
            &&& remembered == state.appended_state(u10, layer, cache, key_turned, value_steady)
            &&& turned == query_turned
        }),
    ensures
        ({
            let plan = state.decode_plan@[layer as int];
            let cache = table.layers@[layer as int]->Some_0;
            state.attentive(t, hidden, layer, config, table) == state.concluded(
                remembered,
                hidden,
                turned,
                plan,
                cache,
                config.num_attention_heads,
                if plan.sliding {
                    config.sliding_window
                } else {
                    0
                },
                config.rms_norm_eps,
            )
        }),
{
}

/// A part of one row.
proof fn lemma_cut<T>(row: Seq<T>, offset: int, wide: int, part: Seq<T>, width: int)
    requires
        0 <= width,
        part.len() == width,
        forall|i: int|
            0 <= i < part.len() ==> #[trigger] part[i] == row[i / width * wide + offset + i
                % width],
    ensures
        forall|i: int| 0 <= i < width ==> #[trigger] part[i] == row[offset + i],
{
    assert forall|i: int| 0 <= i < width implies #[trigger] part[i] == row[offset + i] by {
        vstd::arithmetic::div_mod::lemma_small_mod(i as nat, width as nat);
        vstd::arithmetic::div_mod::lemma_basic_div(i, width);
        assert(0 * wide == 0) by (nonlinear_arith);
    }
}

} // verus!

//! What a device holds after the embeddings of all layers were made.

use crate::cuda::command::added_up;
use crate::exact::ends::{found_weights_bear_their_names, lemma_widened};
use crate::exact::feed_forward::{
    lemma_linear, lemma_peel, norms_divide_by_the_mean_square, performs_exactly, records,
    rms_rows, rounds, row_products,
};
use crate::exact::language::short_number;
use crate::exact::per_layer::{lemma_recorded_lens, prefix};
use crate::exact::scales::factors_are_roots;
use crate::exact::Reading;
use crate::gemma4_cuda::effects::{fills, rms_normed, Board};
use crate::gemma4_cuda::elements::Join;
use crate::gemma4_cuda::ple::{packed_width, source_rows, Source};
use crate::gemma4_cuda::tape::{factor_is, Factor, Launch, Order, Tape, HALF_ROOT};
use crate::gemma4_cuda::weights::Gemma4CudaState;
use crate::models::gemma4::Gemma4TextConfig;
use crate::scalar::{product, sum, Scalar};
use vstd::prelude::*;

verus! {

/// What is computed on the way to the embeddings of all layers.
pub struct Packing<T> {
    /// The rows of the table, and the root that scales them.
    pub taken: Seq<T>,
    pub root: real,
    /// The embeddings rounded to sixteen bits, and their product with the projection.
    pub rounded: Seq<u16>,
    pub projected: Seq<T>,
    /// The products over the root of the hidden size, and they normalized.
    pub inverse: real,
    pub scaled: Seq<T>,
    pub normed: Seq<T>,
}

/// Where in the table an element stands: in the row of its token.
pub open spec fn taken_from<T>(source: Source, board: Board<T>, width: int, i: int) -> int {
    match source {
        Source::One(token) => token * width + i,
        Source::State => board.token * width + i,
        Source::Prompt(_) => board.prompt[i / width] * width + i % width,
    }
}

/// The launch that takes the rows of tokens.
spec fn taking<T>(source: Source, weight: usize, width: usize, factor: Factor, out: usize) -> Launch<
    T,
> {
    match source {
        Source::One(token) => Launch::WeightRange {
            weight,
            offset: (token * width) as usize,
            factor,
            out,
        },
        Source::State => Launch::WeightRowState { weight, width, factor, out },
        Source::Prompt(_) => Launch::WeightRows { weight, width, factor, out },
    }
}

/// `out` holds the embeddings of all layers: the rows of the tokens, times the root of the
/// width of a layer, and the normalized projection of the embeddings, added up and scaled by
/// one over the root of two.
pub open spec fn packs<T: Scalar>(
    reading: Reading<T>,
    state: Gemma4CudaState<T>,
    start: Board<T>,
    source: Source,
    embedding: Seq<T>,
    config: Gemma4TextConfig<T>,
    packing: Packing<T>,
    out: Seq<T>,
) -> bool {
    match (
        state.weight_number("embed_tokens_per_layer.weight"@),
        state.weight_number("per_layer_model_projection.weight"@),
        state.weight_number("per_layer_projection_norm.weight"@),
    ) {
        (Some(table), Some(projection), Some(norm)) => {
            let shape = state.weights@[projection as int].shape@;
            &&& packing.root >= 0 as real
            &&& packing.root * packing.root == config.hidden_size_per_layer_input as real
            &&& forall|i: int|
                0 <= i < packing.taken.len() ==> reading.of(#[trigger] packing.taken[i])
                    == short_number(
                    reading,
                    start.weights[table as int][taken_from(source, start, packed_width(config), i)],
                ) * packing.root
            &&& rounds(embedding, packing.rounded)
            &&& row_products(
                reading,
                packing.rounded,
                start.weights[projection as int],
                source_rows(source) as int,
                shape[0] as int,
                shape[1] as int,
                packing.projected,
            )
            &&& config.hidden_size > 0 ==> packing.inverse > 0 as real && packing.inverse
                * packing.inverse * config.hidden_size as real == 1 as real
            &&& packing.scaled.len() == packing.projected.len()
            &&& forall|i: int|
                0 <= i < packing.scaled.len() ==> reading.of(#[trigger] packing.scaled[i])
                    == reading.of(packing.projected[i]) * packing.inverse
            &&& rms_rows(
                reading,
                packing.scaled,
                start.weights[norm as int],
                state.weights@[norm as int].shape@[0] as int,
                reading.of(config.rms_norm_eps),
                packing.normed,
            )
            &&& out.len() == packing.normed.len() == packing.taken.len()
            &&& forall|i: int|
                0 <= i < out.len() ==> reading.of(#[trigger] out[i]) == (reading.of(
                    packing.normed[i],
                ) + reading.of(packing.taken[i])) * (reading.pattern)(HALF_ROOT)
        },
        _ => false,
    }
}

impl<T: Copy> Gemma4CudaState<T> {
    proof fn lemma_taking_recorded(self, t: Tape<T>, source: Source, config: Gemma4TextConfig<T>)
        requires
            !self.ple_rows(t, source, config).0.stopped(),
        ensures
            !t.stopped(),
            self.weight_number("embed_tokens_per_layer.weight"@) is Some,
            ({
                let (u, out) = self.ple_rows(t, source, config);
                records(
                    t,
                    taking(
                        source,
                        self.weight_number("embed_tokens_per_layer.weight"@)->Some_0,
                        packed_width(config) as usize,
                        Factor::Root(config.hidden_size_per_layer_input),
                        out,
                    ),
                    u,
                    out,
                )
            }),
    {
        let (u, out) = self.ple_rows(t, source, config);
        assert(u.lens == t.lens.push(u.lens.last()));
        assert(u.log == t.log.push(u.log.last()));
        assert(u.lens.drop_last() =~= t.lens);
        assert(u.log.drop_last() =~= t.log);
    }

    proof fn lemma_factor_recorded(self, t: Tape<T>, input: usize, factor: Factor)
        requires
            !self.scaled(t, input, factor).0.stopped(),
        ensures
            !t.stopped(),
            self.scaled(t, input, factor).0.lens.last() == t.lens[input as int],
            ({
                let (u, out) = self.scaled(t, input, factor);
                records(t, Launch::Scale { input, factor, out }, u, out)
            }),
    {
        let (u, out) = self.scaled(t, input, factor);
        assert(u.lens == t.lens.push(t.lens[input as int]));
        assert(u.log == t.log.push(u.log.last()));
        assert(u.lens.drop_last() =~= t.lens);
        assert(u.log.drop_last() =~= t.log);
    }

    pub proof fn lemma_named_norm_recorded(
        self,
        t: Tape<T>,
        input: usize,
        name: Seq<char>,
        epsilon: T,
    )
        requires
            !self.normed(t, input, name, epsilon, false).0.stopped(),
        ensures
            !t.stopped(),
            self.weight_number(name) is Some,
            self.normed(t, input, name, epsilon, false).0.lens.last() == t.lens[input as int],
            ({
                let (u, out) = self.normed(t, input, name, epsilon, false);
                let weight = self.weight_number(name)->Some_0;
                let shape = self.weights@[weight as int].shape@;
                &&& shape.len() == 1
                &&& t.lens[input as int] % shape[0] == 0
                &&& records(
                    t,
                    Launch::RmsNorm { input, weight, hidden: shape[0], epsilon, out },
                    u,
                    out,
                )
            }),
    {
        let (u, out) = self.normed(t, input, name, epsilon, false);
        assert(u.lens == t.lens.push(t.lens[input as int]));
        assert(u.log == t.log.push(u.log.last()));
        assert(u.lens.drop_last() =~= t.lens);
        assert(u.log.drop_last() =~= t.log);
    }

    pub proof fn lemma_named_product_recorded(
        self,
        t: Tape<T>,
        input: usize,
        rows: usize,
        name: Seq<char>,
    )
        requires
            !self.mapped(t, input, rows, name).0.stopped(),
        ensures
            !t.stopped(),
            self.weight_number(name) is Some,
            ({
                let (u, out) = self.mapped(t, input, rows, name);
                let (v, short) = self.shortened(t, input);
                let weight = self.weight_number(name)->Some_0;
                let shape = self.weights@[weight as int].shape@;
                &&& !v.stopped()
                &&& records(
                    v,
                    Launch::Linear {
                        input: short,
                        weight,
                        rows,
                        outputs: shape[0],
                        inputs: shape[1],
                        out,
                    },
                    u,
                    out,
                )
                &&& u.lens.last() == (rows * shape[0]) as usize
            }),
    {
        let (u, out) = self.mapped(t, input, rows, name);
        let (v, short) = self.shortened(t, input);
        assert(!v.stopped());
        assert(u.lens == v.lens.push(u.lens.last()));
        assert(u.log == v.log.push(u.log.last()));
        assert(u.lens.drop_last() =~= v.lens);
        assert(u.log.drop_last() =~= v.log);
    }
}

proof fn lemma_taken<T: Scalar>(
    reading: Reading<T>,
    start: Board<T>,
    source: Source,
    weight: usize,
    width: usize,
    n: usize,
    out: usize,
    taken: Seq<T>,
) -> (root: real)
    requires
        reading.exact(),
        fills(start, taking(source, weight, width, Factor::Root(n), out), taken),
        source matches Source::One(token) ==> token * width <= usize::MAX && token * width
            + taken.len() <= start.weights[weight as int].len(),
        source is State ==> start.token * width + taken.len()
            <= start.weights[weight as int].len(),
    ensures
        root >= 0 as real,
        root * root == n as real,
        forall|i: int|
            0 <= i < taken.len() ==> reading.of(#[trigger] taken[i]) == short_number(
                reading,
                start.weights[weight as int][taken_from(source, start, width as int, i)],
            ) * root,
{
    let table = start.weights[weight as int];
    match source {
        Source::One(token) => {
            assert(0 <= token * width) by (nonlinear_arith);
            lemma_widened(reading, table.subrange(token * width, token * width + taken.len()), n, taken)
        },
        Source::State => {
            let token = start.token;
            assert(0 <= token * width) by (nonlinear_arith);
            lemma_widened(reading, table.subrange(token * width, token * width + taken.len()), n, taken)
        },
        Source::Prompt(_) => {
            let numbers = Seq::new(
                start.prompt.len() * width as nat,
                |i: int| table[start.prompt[i / width as int] * width + i % width as int],
            );
            lemma_widened(reading, numbers, n, taken)
        },
    }
}

/// After the embeddings of all layers were made a device holds, in the buffer that was
/// recorded, the scaled rows of the tokens and the normalized projection of the embeddings,
/// added up and scaled by one over the root of two.
#[verifier::rlimit(60)]
#[verifier::spinoff_prover]
pub proof fn embeddings_of_layers_are_joined<T: Scalar>(
    reading: Reading<T>,
    state: Gemma4CudaState<T>,
    t: Tape<T>,
    source: Source,
    embedding: usize,
    config: Gemma4TextConfig<T>,
    start: Board<T>,
    after: Board<T>,
) -> (packing: Packing<T>)
    requires
        reading.exact(),
        reading.of(config.rms_norm_eps) > 0 as real,
        state.wf(),
        embedding < t.lens.len(),
        t.lens.len() + 7 <= usize::MAX,
        source_rows(source) <= usize::MAX,
        config.hidden_size_per_layer_input > 0,
        0 <= packed_width(config) <= usize::MAX,
        !state.packed(t, source, embedding, config).0.stopped(),
        start.wide.len() >= state.packed(t, source, embedding, config).0.lens.len(),
        start.short.len() >= state.packed(t, source, embedding, config).0.lens.len(),
        start.wide[embedding as int].len() == t.lens[embedding as int],
        forall|w: int|
            0 <= w < state.weights@.len() && state.weights@[w].shape@.len() == 2
                ==> (#[trigger] start.weights[w]).len() == state.weights@[w].shape@[0]
                * state.weights@[w].shape@[1],
        source is State ==> start.token < config.vocab_size_per_layer_input,
        source matches Source::One(token) ==> token * packed_width(config) <= usize::MAX,
        performs_exactly(
            reading,
            state.packed(t, source, embedding, config).0.lens,
            start,
            state.packed(t, source, embedding, config).0.log.skip(t.log.len() as int),
            after,
        ),
    ensures
        state.packed(t, source, embedding, config).1 is Some,
        packs(
            reading,
            state,
            start,
            source,
            start.wide[embedding as int],
            config,
            packing,
            after.wide[state.packed(t, source, embedding, config).1->Some_0 as int],
        ),
{
    let rows = source_rows(source) as usize;
    let width = packed_width(config) as usize;
    let epsilon = config.rms_norm_eps;
    let (table_name, projection_name, norm_name) = (
        "embed_tokens_per_layer.weight"@,
        "per_layer_model_projection.weight"@,
        "per_layer_projection_norm.weight"@,
    );
    let inverse_root = Factor::InverseRoot(config.hidden_size);
    assert(!t.stopped());
    let (u1, taken) = state.ple_rows(t, source, config);
    let (u2, short) = state.shortened(u1, embedding);
    let (u3, context) = state.mapped(u1, embedding, rows, projection_name);
    let (u4, scaled) = state.scaled(u3, context, inverse_root);
    let (u5, normed) = state.normed(u4, scaled, norm_name, epsilon, false);
    let (u6, combined) = state.joined(u5, Join::Add, normed, taken);
    let (u7, out) = state.scaled(u6, combined, Factor::HalfRoot);
    assert(state.packed(t, source, embedding, config) == (u7, Some(out)));
    state.lemma_factor_recorded(u6, combined, Factor::HalfRoot);
    state.lemma_join_recorded(u5, Join::Add, normed, taken);
    state.lemma_named_norm_recorded(u4, scaled, norm_name, epsilon);
    state.lemma_factor_recorded(u3, context, inverse_root);
    state.lemma_named_product_recorded(u1, embedding, rows, projection_name);
    state.lemma_short_recorded(u1, embedding);
    state.lemma_taking_recorded(t, source, config);
    let table = state.weight_number(table_name)->Some_0;
    let projection = state.weight_number(projection_name)->Some_0;
    let norm = state.weight_number(norm_name)->Some_0;
    found_weights_bear_their_names(state, table_name);
    found_weights_bear_their_names(state, projection_name);
    found_weights_bear_their_names(state, norm_name);
    let shape = state.weights@[projection as int].shape@;
    let hidden = state.weights@[norm as int].shape@[0];
    assert(crate::gemma4_cuda::weights::usable_shape(state.weights@[norm as int].shape@));
    let factor = Factor::Root(config.hidden_size_per_layer_input);
    let l1: Launch<T> = taking(source, table, width, factor, taken);
    let l2: Launch<T> = Launch::Shorten { input: embedding, out: short };
    let l3: Launch<T> = Launch::Linear {
        input: short,
        weight: projection,
        rows,
        outputs: shape[0],
        inputs: shape[1],
        out: context,
    };
    let l4: Launch<T> = Launch::Scale { input: context, factor: inverse_root, out: scaled };
    let l5 = Launch::RmsNorm { input: scaled, weight: norm, hidden, epsilon, out: normed };
    let l6: Launch<T> = Launch::Add { left: normed, right: taken, out: combined };
    let l7: Launch<T> = Launch::Scale { input: combined, factor: Factor::HalfRoot, out };
    let lens = u7.lens;
    let k = t.log.len();
    assert(prefix(u7.lens, lens));
    lemma_recorded_lens(u6, l7, u7, out, lens);
    lemma_recorded_lens(u5, l6, u6, combined, lens);
    lemma_recorded_lens(u4, l5, u5, normed, lens);
    lemma_recorded_lens(u3, l4, u4, scaled, lens);
    lemma_recorded_lens(u2, l3, u3, context, lens);
    lemma_recorded_lens(u1, l2, u2, short, lens);
    lemma_recorded_lens(t, l1, u1, taken, lens);
    let b6 = lemma_peel(reading, lens, start, u6, l7, u7, out, k, after);
    let b5 = lemma_peel(reading, lens, start, u5, l6, u6, combined, k, b6);
    let b4 = lemma_peel(reading, lens, start, u4, l5, u5, normed, k, b5);
    let b3 = lemma_peel(reading, lens, start, u3, l4, u4, scaled, k, b4);
    let b2 = lemma_peel(reading, lens, start, u2, l3, u3, context, k, b3);
    let b1 = lemma_peel(reading, lens, start, u1, l2, u2, short, k, b2);
    let b0 = lemma_peel(reading, lens, start, t, l1, u1, taken, k, b1);
    assert(t.log.skip(k as int) =~= Seq::<Order<T>>::empty());
    assert(b0 == start);
    let x = start.wide[embedding as int];
    let rows_taken = b1.wide[taken as int];
    assert(b1.weights == start.weights && b1.short == start.short && b1.wide[embedding as int] == x);
    assert(fills(start, l1, rows_taken) && rows_taken.len() == lens[taken as int]);
    lemma_inside(state, t, source, config, table);
    let root = lemma_taken(
        reading,
        start,
        source,
        table,
        width,
        config.hidden_size_per_layer_input,
        taken,
        rows_taken,
    );
    let numbers = b2.short[short as int];
    assert(b2.wide == b1.wide && b2.weights == start.weights);
    assert(rounds(x, numbers));
    lemma_linear(reading, lens, b2, short, projection, rows, shape[0], shape[1], context, b3);
    let products = b3.wide[context as int];
    assert(b3.wide[taken as int] == rows_taken && b3.weights == start.weights);
    let reduced = b4.wide[scaled as int];
    assert(b4.wide[taken as int] == rows_taken && b4.weights == start.weights);
    assert(fills(b3, l4, reduced));
    let scale = choose|scale: T| #[trigger]
        factor_is(inverse_root, scale) && reduced.len() == products.len() && forall|i: int|
            0 <= i < reduced.len() ==> product(products[i], scale, #[trigger] reduced[i]);
    factors_are_roots(reading, inverse_root, scale);
    let normal = b5.wide[normed as int];
    assert(b5.wide[taken as int] == rows_taken);
    assert(rms_normed(reduced, start.weights[norm as int], hidden, epsilon, normal));
    norms_divide_by_the_mean_square(
        reading,
        reduced,
        start.weights[norm as int],
        hidden,
        epsilon,
        normal,
    );
    let joined = b6.wide[combined as int];
    assert(added_up(normal, rows_taken, joined));
    let result = after.wide[out as int];
    assert(fills(b6, l7, result));
    let half = choose|half: T| #[trigger]
        factor_is(Factor::HalfRoot, half) && result.len() == joined.len() && forall|i: int|
            0 <= i < result.len() ==> product(joined[i], half, #[trigger] result[i]);
    factors_are_roots(reading, Factor::HalfRoot, half);
    assert forall|i: int| 0 <= i < result.len() implies reading.of(#[trigger] result[i]) == (
    reading.of(normal[i]) + reading.of(rows_taken[i])) * (reading.pattern)(HALF_ROOT) by {
        assert(product(joined[i], half, result[i]));
        assert(sum(normal[i], rows_taken[i], joined[i]));
    }
    Packing {
        taken: rows_taken,
        root,
        rounded: numbers,
        projected: products,
        inverse: reading.of(scale),
        scaled: reduced,
        normed: normal,
    }
}

/// The row of a token is inside the table.
proof fn lemma_inside<T: Copy>(
    state: Gemma4CudaState<T>,
    t: Tape<T>,
    source: Source,
    config: Gemma4TextConfig<T>,
    table: usize,
)
    requires
        state.weight_number("embed_tokens_per_layer.weight"@) == Some(table),
        !state.ple_rows(t, source, config).0.stopped(),
        0 <= packed_width(config) <= usize::MAX,
    ensures
        state.weights@[table as int].shape@.len() == 2,
        state.weights@[table as int].shape@[0] == config.vocab_size_per_layer_input,
        state.weights@[table as int].shape@[1] == packed_width(config),
        source matches Source::One(token) ==> token * packed_width(config) + packed_width(config)
            <= config.vocab_size_per_layer_input * packed_width(config),
        source !is Prompt ==> state.ple_rows(t, source, config).0.lens.last() == packed_width(config),
        forall|token: usize|
            token < config.vocab_size_per_layer_input ==> #[trigger] (token * packed_width(config))
                + packed_width(config) <= config.vocab_size_per_layer_input * packed_width(config),
{
    let (v, w) = (config.vocab_size_per_layer_input as int, packed_width(config));
    if let Source::One(token) = source {
        assert(token * w + w <= v * w) by (nonlinear_arith)
            requires
                0 <= token < v,
                0 <= w,
        ;
    }
    assert forall|token: usize| token < config.vocab_size_per_layer_input implies
        #[trigger] (token * packed_width(config)) + packed_width(config)
        <= config.vocab_size_per_layer_input * packed_width(config) by {
        assert(token * w + w <= v * w) by (nonlinear_arith)
            requires
                0 <= token < v,
                0 <= w,
        ;
    }
}

} // verus!

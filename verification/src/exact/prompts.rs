//! What a device holds after the attention part of a layer, for a prompt.

use crate::cuda::attention_kernels::Heads;
use crate::cuda::command::added_up;
use crate::cuda::launch::model_grid;
use crate::cuda::model_kernels::Rotation;
use crate::exact::attentive::{lemma_fill, lemma_peel_note, notes};
use crate::exact::ends::found_weights_bear_their_names;
use crate::exact::feed_forward::{
    lemma_linear, lemma_peel, norms_divide_by_the_mean_square, performs_exactly, records,
    rms_rows, rounds, row_products,
};
use crate::exact::per_layer::{lemma_recorded_lens, prefix};
use crate::exact::Reading;
use crate::gemma4_cuda::cache::Gemma4CudaKvCache;
use crate::gemma4_cuda::effects::{
    attended_causally, fills, overwritten, rms_normed, roped, unit_normed, Board,
};
use crate::gemma4_cuda::elements::Join;
use crate::gemma4_cuda::prompt::layer_prefix;
use crate::gemma4_cuda::tape::{Launch, Order, Side, Tape};
use crate::gemma4_cuda::weights::Gemma4CudaState;
use crate::models::gemma4::Gemma4TextConfig;
use crate::scalar::{sum, Scalar};
use vstd::prelude::*;

verus! {

/// What is computed from the queries of a prompt on.
pub struct Conclusion<T> {
    pub attended: Seq<T>,
    /// What was attended to, rounded to sixteen bits, and its product with the projection.
    pub rounded: Seq<u16>,
    pub projected: Seq<T>,
    pub normed: Seq<T>,
}

/// The layer looks back no farther than the window.
pub open spec fn looks_back<T>(config: Gemma4TextConfig<T>, layer: int) -> bool {
    config.layer_types matches Some(kinds) && kinds@[layer]@ == "sliding_attention"@
}

/// `out` is the hidden rows, moved by the normalized product of the output projection and what
/// the queries attend to: the rows up to their own, and in a layer that slides no more of them
/// than its window holds.
pub open spec fn concludes<T: Scalar>(
    reading: Reading<T>,
    state: Gemma4CudaState<T>,
    weights: Seq<Seq<u16>>,
    config: Gemma4TextConfig<T>,
    layer: usize,
    kv_heads: usize,
    rows: usize,
    hidden: Seq<T>,
    query: Seq<T>,
    keys: Seq<T>,
    values: Seq<T>,
    conclusion: Conclusion<T>,
    out: Seq<T>,
) -> bool {
    match (
        state.weight_number(layer_prefix(layer) + ".self_attn.o_proj.weight"@),
        state.weight_number(layer_prefix(layer) + ".post_attention_layernorm.weight"@),
    ) {
        (Some(projection), Some(norm)) => {
            let shape = state.weights@[projection as int].shape@;
            let sliding = looks_back(config, layer as int);
            &&& attended_causally(
                (Heads {
                    heads: config.num_attention_heads,
                    kv_heads,
                    head_dim: if sliding {
                        config.head_dim
                    } else {
                        config.global_head_dim
                    },
                }),
                rows,
                if sliding {
                    config.sliding_window
                } else {
                    0
                },
                query,
                keys,
                values,
                conclusion.attended,
            )
            &&& rounds(conclusion.attended, conclusion.rounded)
            &&& row_products(
                reading,
                conclusion.rounded,
                weights[projection as int],
                rows as int,
                shape[0] as int,
                shape[1] as int,
                conclusion.projected,
            )
            &&& rms_rows(
                reading,
                conclusion.projected,
                weights[norm as int],
                state.weights@[norm as int].shape@[0] as int,
                reading.of(config.rms_norm_eps),
                conclusion.normed,
            )
            &&& out.len() == hidden.len() == conclusion.normed.len()
            &&& forall|i: int|
                0 <= i < out.len() ==> reading.of(#[trigger] out[i]) == reading.of(hidden[i])
                    + reading.of(conclusion.normed[i])
        },
        _ => false,
    }
}

/// From the queries of a prompt on, a device comes to hold the hidden rows, moved by what the
/// queries attend to in the cache of the source layer, projected and normalized.
#[verifier::rlimit(60)]
#[verifier::spinoff_prover]
pub proof fn prompts_are_moved_by_attention<T: Scalar>(
    reading: Reading<T>,
    state: Gemma4CudaState<T>,
    t: Tape<T>,
    hidden: usize,
    query: usize,
    rows: usize,
    layer: usize,
    config: Gemma4TextConfig<T>,
    source: usize,
    cache: Gemma4CudaKvCache,
    start: Board<T>,
    after: Board<T>,
) -> (conclusion: Conclusion<T>)
    requires
        reading.exact(),
        reading.of(config.rms_norm_eps) > 0 as real,
        state.wf(),
        hidden < t.lens.len(),
        query < t.lens.len(),
        t.lens.len() + 5 <= usize::MAX,
        config.layer_types is Some,
        !state.prompt_concluded(
            t,
            hidden,
            query,
            rows,
            layer,
            config,
            source,
            cache,
        ).0.stopped(),
        start.wide.len() >= t.lens.len() + 5,
        start.short.len() >= t.lens.len() + 5,
        start.wide[hidden as int].len() == t.lens[hidden as int],
        performs_exactly(
            reading,
            state.prompt_concluded(t, hidden, query, rows, layer, config, source, cache).0.lens,
            start,
            state.prompt_concluded(
                t,
                hidden,
                query,
                rows,
                layer,
                config,
                source,
                cache,
            ).0.log.skip(t.log.len() as int),
            after,
        ),
    ensures
        concludes(
            reading,
            state,
            start.weights,
            config,
            layer,
            cache.kv_heads,
            rows,
            start.wide[hidden as int],
            start.wide[query as int],
            start.keys[source as int],
            start.values[source as int],
            conclusion,
            after.wide[state.prompt_concluded(
                t,
                hidden,
                query,
                rows,
                layer,
                config,
                source,
                cache,
            ).1 as int],
        ),
{
    let epsilon = config.rms_norm_eps;
    let sliding = looks_back(config, layer as int);
    let head_dim = if sliding {
        config.head_dim
    } else {
        config.global_head_dim
    };
    let window = if sliding {
        config.sliding_window
    } else {
        0
    };
    let h = Heads { heads: config.num_attention_heads, kv_heads: cache.kv_heads, head_dim };
    let projection_name = layer_prefix(layer) + ".self_attn.o_proj.weight"@;
    let norm_name = layer_prefix(layer) + ".post_attention_layernorm.weight"@;
    assert(!t.stopped());
    let (u1, attended) = state.attended_prompt(
        t,
        query,
        source,
        cache,
        rows,
        config.num_attention_heads,
        head_dim,
        window,
    );
    let (u2, short) = state.shortened(u1, attended);
    let (u3, projected) = state.mapped(u1, attended, rows, projection_name);
    let (u4, normed) = state.normed(u3, projected, norm_name, epsilon, false);
    let (u5, out) = state.joined(u4, Join::Add, hidden, normed);
    assert(state.prompt_concluded(t, hidden, query, rows, layer, config, source, cache) == (
        u5,
        out,
    ));
    state.lemma_join_recorded(u4, Join::Add, hidden, normed);
    state.lemma_named_norm_recorded(u3, projected, norm_name, epsilon);
    state.lemma_named_product_recorded(u1, attended, rows, projection_name);
    state.lemma_short_recorded(u1, attended);
    let l1: Launch<T> = Launch::AttendPrompt {
        query,
        layer: source,
        rows,
        heads: h,
        window,
        out: attended,
    };
    assert(records(t, l1, u1, attended)) by {
        assert(u1.lens == t.lens.push(t.lens[query as int]));
        assert(u1.log == t.log.push(u1.log.last()));
        assert(u1.lens.drop_last() =~= t.lens);
        assert(u1.log.drop_last() =~= t.log);
    }
    let projection = state.weight_number(projection_name)->Some_0;
    let norm = state.weight_number(norm_name)->Some_0;
    found_weights_bear_their_names(state, projection_name);
    found_weights_bear_their_names(state, norm_name);
    let shape = state.weights@[projection as int].shape@;
    let width = state.weights@[norm as int].shape@[0];
    assert(crate::gemma4_cuda::weights::usable_shape(state.weights@[norm as int].shape@));
    let l2: Launch<T> = Launch::Shorten { input: attended, out: short };
    let l3: Launch<T> = Launch::Linear {
        input: short,
        weight: projection,
        rows,
        outputs: shape[0],
        inputs: shape[1],
        out: projected,
    };
    let l4 = Launch::RmsNorm { input: projected, weight: norm, hidden: width, epsilon, out: normed };
    let l5: Launch<T> = Launch::Add { left: hidden, right: normed, out };
    let lens = u5.lens;
    let k = t.log.len();
    assert(prefix(u5.lens, lens));
    lemma_recorded_lens(u4, l5, u5, out, lens);
    lemma_recorded_lens(u3, l4, u4, normed, lens);
    lemma_recorded_lens(u2, l3, u3, projected, lens);
    lemma_recorded_lens(u1, l2, u2, short, lens);
    lemma_recorded_lens(t, l1, u1, attended, lens);
    let b4 = lemma_peel(reading, lens, start, u4, l5, u5, out, k, after);
    let b3 = lemma_peel(reading, lens, start, u3, l4, u4, normed, k, b4);
    let b2 = lemma_peel(reading, lens, start, u2, l3, u3, projected, k, b3);
    let b1 = lemma_peel(reading, lens, start, u1, l2, u2, short, k, b2);
    let b0 = lemma_peel(reading, lens, start, t, l1, u1, attended, k, b1);
    assert(t.log.skip(k as int) =~= Seq::<Order<T>>::empty());
    assert(b0 == start);
    let x = start.wide[hidden as int];
    let seen = b1.wide[attended as int];
    assert(fills(start, l1, seen) && seen.len() == lens[attended as int]);
    assert(b1.wide[hidden as int] == x && b1.weights == start.weights && b1.short == start.short);
    let numbers = b2.short[short as int];
    assert(b2.wide == b1.wide && b2.weights == start.weights);
    assert(rounds(seen, numbers));
    lemma_linear(reading, lens, b2, short, projection, rows, shape[0], shape[1], projected, b3);
    let products = b3.wide[projected as int];
    assert(b3.wide[hidden as int] == x && b3.weights == start.weights);
    let normal = b4.wide[normed as int];
    assert(b4.wide[hidden as int] == x);
    assert(rms_normed(products, start.weights[norm as int], width, epsilon, normal));
    norms_divide_by_the_mean_square(
        reading,
        products,
        start.weights[norm as int],
        width,
        epsilon,
        normal,
    );
    let result = after.wide[out as int];
    assert(added_up(x, normal, result));
    assert forall|i: int| 0 <= i < result.len() implies reading.of(#[trigger] result[i])
        == reading.of(x[i]) + reading.of(normal[i]) by {
        assert(sum(x[i], normal[i], result[i]));
    }
    Conclusion { attended: seen, rounded: numbers, projected: products, normed: normal }
}

/// The launches that write the keys and values of a prompt to a cache.
proof fn lemma_writes_noted<T: Scalar>(
    t: Tape<T>,
    layer: usize,
    key: usize,
    value: usize,
    len: nat,
) -> (middle: Tape<T>)
    requires
        !t.launched(
            Launch::CacheWrite { layer, side: Side::Key, offset: 0, input: key },
            model_grid(len),
        ).launched(
            Launch::CacheWrite { layer, side: Side::Value, offset: 0, input: value },
            model_grid(len),
        ).stopped(),
    ensures
        ({
            let u = t.launched(
                Launch::CacheWrite { layer, side: Side::Key, offset: 0, input: key },
                model_grid(len),
            ).launched(
                Launch::CacheWrite { layer, side: Side::Value, offset: 0, input: value },
                model_grid(len),
            );
            &&& notes(
                t,
                Launch::CacheWrite { layer, side: Side::Key, offset: 0, input: key },
                middle,
            )
            &&& notes(
                middle,
                Launch::CacheWrite { layer, side: Side::Value, offset: 0, input: value },
                u,
            )
            &&& u.lens == t.lens
        }),
{
    let first = Launch::CacheWrite { layer, side: Side::Key, offset: 0, input: key };
    let second = Launch::CacheWrite { layer, side: Side::Value, offset: 0, input: value };
    let middle = t.launched(first, model_grid(len));
    let u = middle.launched(second, model_grid(len));
    assert(middle.log.drop_last() =~= t.log);
    assert(u.log.drop_last() =~= middle.log);
    middle
}

/// A cache starts with what was written to it, and is otherwise as it was.
pub open spec fn starts_with<T>(before: Seq<T>, written: Seq<T>, after: Seq<T>) -> bool {
    &&& after.len() == before.len()
    &&& forall|i: int|
        0 <= i < after.len() ==> #[trigger] after[i] == if i < written.len() {
            written[i]
        } else {
            before[i]
        }
}

/// What is remembered of a prompt: its keys, normalized and rotated by their positions from
/// zero on, stand in the cache for keys, and its values, normalized without a weight, in that
/// for values.  No other layer's cache changes.
#[verifier::rlimit(60)]
#[verifier::spinoff_prover]
pub proof fn prompts_are_remembered<T: Scalar>(
    reading: Reading<T>,
    state: Gemma4CudaState<T>,
    t: Tape<T>,
    key: usize,
    value: usize,
    rows: usize,
    layer: usize,
    cache: Gemma4CudaKvCache,
    rotation: Rotation,
    theta: T,
    factor: T,
    epsilon: T,
    start: Board<T>,
    after: Board<T>,
) -> (r: (Seq<T>, Seq<T>, Seq<T>))
    requires
        reading.exact(),
        reading.of(epsilon) > 0 as real,
        state.wf(),
        key < t.lens.len(),
        value < t.lens.len(),
        t.lens.len() + 3 <= usize::MAX,
        !state.prompt_remembered(
            t,
            key,
            value,
            rows,
            layer,
            cache,
            rotation,
            theta,
            factor,
            epsilon,
        ).stopped(),
        start.wide.len() >= t.lens.len() + 3,
        start.wide[key as int].len() == t.lens[key as int],
        layer < start.keys.len(),
        layer < start.values.len(),
        performs_exactly(
            reading,
            state.prompt_remembered(
                t,
                key,
                value,
                rows,
                layer,
                cache,
                rotation,
                theta,
                factor,
                epsilon,
            ).lens,
            start,
            state.prompt_remembered(
                t,
                key,
                value,
                rows,
                layer,
                cache,
                rotation,
                theta,
                factor,
                epsilon,
            ).log.skip(t.log.len() as int),
            after,
        ),
    ensures
        match state.weight_number(layer_prefix(layer) + ".self_attn.k_norm.weight"@) {
            Some(norm) => {
                &&& rms_rows(
                    reading,
                    start.wide[key as int],
                    start.weights[norm as int],
                    state.weights@[norm as int].shape@[0] as int,
                    reading.of(epsilon),
                    r.0,
                )
                &&& roped(r.0, rotation, 0, theta, factor, r.1)
                &&& unit_normed(start.wide[value as int], rotation.head_dim, epsilon, r.2)
            },
            None => false,
        },
        starts_with(start.keys[layer as int], r.1, after.keys[layer as int]),
        starts_with(start.values[layer as int], r.2, after.values[layer as int]),
        forall|other: int|
            0 <= other < start.keys.len() && other != layer ==> #[trigger] after.keys[other]
                == start.keys[other],
        forall|other: int|
            0 <= other < start.values.len() && other != layer ==> #[trigger] after.values[other]
                == start.values[other],
        cache.len == 0,
        cache.start == 0,
        rows <= cache.capacity,
{
    let norm_name = layer_prefix(layer) + ".self_attn.k_norm.weight"@;
    assert(!t.stopped());
    let (u1, normed) = state.normed(t, key, norm_name, epsilon, false);
    let (u2, turned) = state.rotated(u1, normed, rotation, 0, theta, factor);
    let (u3, unit) = state.normed_unit(u2, value, rotation.head_dim, epsilon);
    let u5 = state.prompt_remembered(
        t,
        key,
        value,
        rows,
        layer,
        cache,
        rotation,
        theta,
        factor,
        epsilon,
    );
    assert(!u3.stopped());
    let len = (rows * (cache.kv_heads * rotation.head_dim)) as nat;
    let l4: Launch<T> = Launch::CacheWrite { layer, side: Side::Key, offset: 0, input: turned };
    let l5: Launch<T> = Launch::CacheWrite { layer, side: Side::Value, offset: 0, input: unit };
    assert(u5 == u3.launched(l4, model_grid(len)).launched(l5, model_grid(len)));
    let u4 = lemma_writes_noted(u3, layer, turned, unit, len);
    state.lemma_unit_recorded(u2, value, rotation.head_dim, epsilon);
    let l2: Launch<T> = Launch::Rope {
        input: normed,
        rotation,
        position: 0,
        theta,
        factor,
        out: turned,
    };
    assert(records(u1, l2, u2, turned)) by {
        assert(u2.lens == u1.lens.push(u1.lens[normed as int]));
        assert(u2.log == u1.log.push(u2.log.last()));
        assert(u2.lens.drop_last() =~= u1.lens);
        assert(u2.log.drop_last() =~= u1.log);
    }
    state.lemma_named_norm_recorded(t, key, norm_name, epsilon);
    let norm = state.weight_number(norm_name)->Some_0;
    found_weights_bear_their_names(state, norm_name);
    let width = state.weights@[norm as int].shape@[0];
    assert(crate::gemma4_cuda::weights::usable_shape(state.weights@[norm as int].shape@));
    let l1 = Launch::RmsNorm { input: key, weight: norm, hidden: width, epsilon, out: normed };
    let l3: Launch<T> = Launch::RmsNormUnit {
        input: value,
        hidden: rotation.head_dim,
        epsilon,
        out: unit,
    };
    let lens = u5.lens;
    let k = t.log.len();
    assert(prefix(u3.lens, lens));
    lemma_recorded_lens(u2, l3, u3, unit, lens);
    lemma_recorded_lens(u1, l2, u2, turned, lens);
    lemma_recorded_lens(t, l1, u1, normed, lens);
    let b4 = lemma_peel_note(reading, lens, start, u4, l5, u5, k, after);
    let b3 = lemma_peel_note(reading, lens, start, u3, l4, u4, k, b4);
    let b2 = lemma_peel(reading, lens, start, u2, l3, u3, unit, k, b3);
    let b1 = lemma_peel(reading, lens, start, u1, l2, u2, turned, k, b2);
    let b0 = lemma_peel(reading, lens, start, t, l1, u1, normed, k, b1);
    assert(t.log.skip(k as int) =~= Seq::<Order<T>>::empty());
    assert(b0 == start);
    lemma_fill(lens, start, l1, normed, b1);
    lemma_fill(lens, b1, l2, turned, b2);
    lemma_fill(lens, b2, l3, unit, b3);
    let normal = b1.wide[normed as int];
    assert(rms_normed(start.wide[key as int], start.weights[norm as int], width, epsilon, normal));
    norms_divide_by_the_mean_square(
        reading,
        start.wide[key as int],
        start.weights[norm as int],
        width,
        epsilon,
        normal,
    );
    let keys = b2.wide[turned as int];
    let values = b3.wide[unit as int];
    assert(b2.wide[value as int] == start.wide[value as int]);
    assert(b3.wide[turned as int] == keys);
    assert(b3.keys == start.keys && b3.values == start.values);
    assert(b4.keys[layer as int] == overwritten(start.keys[layer as int], 0, keys));
    assert(b4.wide == b3.wide && b4.values == start.values);
    assert(after.values[layer as int] == overwritten(start.values[layer as int], 0, values));
    assert(after.keys == b4.keys);
    (normal, keys, values)
}

} // verus!

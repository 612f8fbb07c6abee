//! What a device holds after the per-layer embedding part of a layer, and after its end.

use crate::cuda::command::{added_up, multiplied_out};
use crate::cuda::model_kernels::{gelu, times_brain};
use crate::exact::feed_forward::{
    lemma_linear, lemma_peel, norms_divide_by_the_mean_square, performs_exactly, records,
    rms_rows, rounds, row_products,
};
use crate::exact::language::{gelu_number, short_number, units_are_gaussian};
use crate::exact::Reading;
use crate::gemma4_cuda::effects::{fills, Board};
use crate::gemma4_cuda::elements::Join;
use crate::gemma4_cuda::tape::{Launch, Order, Tape};
use crate::gemma4_cuda::weights::Gemma4CudaState;
use crate::models::gemma4::Gemma4TextConfig;
use crate::scalar::{product, sum, Scalar};
use vstd::prelude::*;

verus! {

/// Every buffer of the one is there in the other, as long as it was.
pub open spec fn prefix(a: Seq<usize>, b: Seq<usize>) -> bool {
    &&& a.len() <= b.len()
    &&& forall|i: int| 0 <= i < a.len() ==> #[trigger] b[i] == a[i]
}

/// Recording one launch more keeps buffers, and adds one.
pub proof fn lemma_recorded_lens<T>(
    t: Tape<T>,
    launch: Launch<T>,
    u: Tape<T>,
    out: usize,
    lens: Seq<usize>,
)
    requires
        records(t, launch, u, out),
        prefix(u.lens, lens),
        t.lens.len() < usize::MAX,
    ensures
        prefix(t.lens, lens),
        prefix(t.lens, u.lens),
        out == t.lens.len(),
        lens[out as int] == u.lens.last(),
{
    assert forall|i: int| 0 <= i < t.lens.len() implies #[trigger] lens[i] == t.lens[i] && u.lens[i]
        == t.lens[i] by {
        assert(u.lens.drop_last()[i] == u.lens[i]);
    }
    assert(u.lens[t.lens.len() as int] == u.lens.last());
}

impl<T: Copy> Gemma4CudaState<T> {
    /// What bending a buffer records.
    pub proof fn lemma_bend_recorded(self, t: Tape<T>, input: usize)
        requires
            !self.bent(t, input).0.stopped(),
        ensures
            !t.stopped(),
            self.bent(t, input).0.lens.last() == t.lens[input as int],
            ({
                let (u, out) = self.bent(t, input);
                records(t, Launch::Gelu { input, out }, u, out)
            }),
    {
        let (u, out) = self.bent(t, input);
        assert(u.lens == t.lens.push(t.lens[input as int]));
        assert(u.log == t.log.push(u.log.last()));
        assert(u.lens.drop_last() =~= t.lens);
        assert(u.log.drop_last() =~= t.log);
    }

    /// What scaling by a weight records.
    pub proof fn lemma_scale_recorded(self, t: Tape<T>, input: usize, weight: usize)
        requires
            !self.scaled_at(t, input, weight).0.stopped(),
        ensures
            !t.stopped(),
            weight < self.weights@.len(),
            self.scaled_at(t, input, weight).0.lens.last() == t.lens[input as int],
            ({
                let (u, out) = self.scaled_at(t, input, weight);
                records(t, Launch::ScaleByWeight { input, weight, out }, u, out)
            }),
    {
        let (u, out) = self.scaled_at(t, input, weight);
        assert(u.lens == t.lens.push(t.lens[input as int]));
        assert(u.log == t.log.push(u.log.last()));
        assert(u.lens.drop_last() =~= t.lens);
        assert(u.log.drop_last() =~= t.log);
    }

    /// The launch that takes the part of a layer.
    pub open spec fn part_launch(
        self,
        packed: usize,
        rows: Option<usize>,
        layer: usize,
        config: Gemma4TextConfig<T>,
        out: usize,
    ) -> Launch<T> {
        let dimension = config.hidden_size_per_layer_input;
        match rows {
            None => Launch::Slice {
                input: packed,
                offset: (layer * dimension) as usize,
                out,
            },
            Some(_) => Launch::SliceRows {
                input: packed,
                input_width: (config.num_hidden_layers * dimension) as usize,
                offset: (layer * dimension) as usize,
                output_width: dimension,
                out,
            },
        }
    }

    /// What taking the part of a layer records.
    pub proof fn lemma_part_recorded(
        self,
        t: Tape<T>,
        packed: usize,
        rows: Option<usize>,
        layer: usize,
        config: Gemma4TextConfig<T>,
    )
        requires
            !self.layer_range(t, packed, rows, layer, config).0.stopped(),
        ensures
            !t.stopped(),
            self.layer_range(t, packed, rows, layer, config).0.lens.last() == (match rows {
                None => config.hidden_size_per_layer_input as int,
                Some(rows) => (rows * config.hidden_size_per_layer_input) as usize as int,
            }),
            rows is None ==> layer * config.hidden_size_per_layer_input
                + config.hidden_size_per_layer_input <= t.lens[packed as int],
            ({
                let (u, out) = self.layer_range(t, packed, rows, layer, config);
                records(t, self.part_launch(packed, rows, layer, config, out), u, out)
            }),
    {
        let (u, out) = self.layer_range(t, packed, rows, layer, config);
        assert(u.lens == t.lens.push(u.lens.last()));
        assert(u.log == t.log.push(u.log.last()));
        assert(u.lens.drop_last() =~= t.lens);
        assert(u.log.drop_last() =~= t.log);
    }
}

/// What is computed on the way through a per-layer embedding part.
pub struct Infusion<T> {
    /// The hidden rows rounded to sixteen bits.
    pub short: Seq<u16>,
    pub gate: Seq<T>,
    /// What the tokens have for the layer.
    pub part: Seq<T>,
    pub gated: Seq<T>,
    pub gated_short: Seq<u16>,
    pub projected: Seq<T>,
    pub normed: Seq<T>,
}

/// `out` comes of `hidden` by the per-layer embedding part of a layer: `hidden`, moved by the
/// normalized projection of what the tokens have for the layer, gated by the Gaussian units of
/// the product of the hidden rows with the gating weight.
pub open spec fn infuses<T: Scalar>(
    reading: Reading<T>,
    state: Gemma4CudaState<T>,
    weights: Seq<Seq<u16>>,
    layer: int,
    rows: Option<usize>,
    config: Gemma4TextConfig<T>,
    epsilon: real,
    packed: Seq<T>,
    hidden: Seq<T>,
    infusion: Infusion<T>,
    out: Seq<T>,
) -> bool {
    let plan = state.decode_plan@[layer];
    let shape = |weight: usize| state.weights@[weight as int].shape@;
    let (gate, projection, norm) = (
        plan.ple_gate->Some_0,
        plan.ple_projection->Some_0,
        plan.ple_norm->Some_0,
    );
    let n = match rows {
        None => 1int,
        Some(rows) => rows as int,
    };
    let dimension = config.hidden_size_per_layer_input as int;
    &&& plan.ple_gate is Some && plan.ple_projection is Some && plan.ple_norm is Some
    &&& rounds(hidden, infusion.short)
    &&& row_products(
        reading,
        infusion.short,
        weights[gate as int],
        n,
        shape(gate)[0] as int,
        shape(gate)[1] as int,
        infusion.gate,
    )
    &&& forall|i: int|
        0 <= i < infusion.part.len() ==> #[trigger] infusion.part[i] == match rows {
            None => packed[layer * dimension + i],
            Some(_) => packed[i / dimension * (config.num_hidden_layers * dimension) + layer
                * dimension + i % dimension],
        }
    &&& infusion.gated.len() == infusion.gate.len() == infusion.part.len()
    &&& forall|i: int|
        0 <= i < infusion.gated.len() ==> reading.of(#[trigger] infusion.gated[i]) == gelu_number(
            reading,
            reading.of(infusion.gate[i]),
        ) * reading.of(infusion.part[i])
    &&& rounds(infusion.gated, infusion.gated_short)
    &&& row_products(
        reading,
        infusion.gated_short,
        weights[projection as int],
        n,
        shape(projection)[0] as int,
        shape(projection)[1] as int,
        infusion.projected,
    )
    &&& rms_rows(
        reading,
        infusion.projected,
        weights[norm as int],
        shape(norm)[0] as int,
        epsilon,
        infusion.normed,
    )
    &&& out.len() == hidden.len() == infusion.normed.len()
    &&& forall|i: int|
        0 <= i < out.len() ==> reading.of(#[trigger] out[i]) == reading.of(hidden[i]) + reading.of(
            infusion.normed[i],
        )
}

/// After the per-layer embedding part of a layer a device holds, in the buffer that was
/// recorded, the hidden rows, moved by the normalized projection of what the tokens have for the
/// layer, gated by the Gaussian units of the product of the hidden rows with the gating weight.
pub proof fn per_layer_embeddings_are_gated<T: Scalar>(
    reading: Reading<T>,
    state: Gemma4CudaState<T>,
    t: Tape<T>,
    hidden: usize,
    packed: usize,
    rows: Option<usize>,
    layer: usize,
    config: Gemma4TextConfig<T>,
    start: Board<T>,
    after: Board<T>,
) -> (infusion: Infusion<T>)
    requires
        reading.exact(),
        reading.of(config.rms_norm_eps) > 0 as real,
        state.wf(),
        hidden < t.lens.len(),
        packed < t.lens.len(),
        t.lens.len() + 9 <= usize::MAX,
        layer < config.num_hidden_layers,
        config.num_hidden_layers * config.hidden_size_per_layer_input <= usize::MAX,
        config.hidden_size_per_layer_input > 0,
        rows is Some ==> rows->Some_0 * config.hidden_size_per_layer_input <= usize::MAX,
        !state.ple_applied(t, hidden, packed, rows, layer, config).0.stopped(),
        start.wide.len() >= state.ple_applied(t, hidden, packed, rows, layer, config).0.lens.len(),
        start.short.len() >= state.ple_applied(t, hidden, packed, rows, layer, config).0.lens.len(),
        start.wide[hidden as int].len() == t.lens[hidden as int],
        start.wide[packed as int].len() == t.lens[packed as int],
        performs_exactly(
            reading,
            state.ple_applied(t, hidden, packed, rows, layer, config).0.lens,
            start,
            state.ple_applied(t, hidden, packed, rows, layer, config).0.log.skip(
                t.log.len() as int,
            ),
            after,
        ),
    ensures
        infuses(
            reading,
            state,
            start.weights,
            layer as int,
            rows,
            config,
            reading.of(config.rms_norm_eps),
            start.wide[packed as int],
            start.wide[hidden as int],
            infusion,
            after.wide[state.ple_applied(t, hidden, packed, rows, layer, config).1 as int],
        ),
{
    let epsilon = config.rms_norm_eps;
    let plan = state.decode_plan@[layer as int];
    let shape = |weight: usize| state.weights@[weight as int].shape@;
    let n = match rows {
        Some(rows) => rows,
        None => 1,
    };
    let (u1, part) = state.layer_range(t, packed, rows, layer, config);
    assert(!t.stopped() && !u1.stopped() && layer < state.decode_plan@.len());
    let gate_weight = plan.ple_gate->Some_0;
    let projection = plan.ple_projection->Some_0;
    let norm = plan.ple_norm->Some_0;
    let (u2, short) = state.shortened(u1, hidden);
    let (u3, gate) = state.mapped_at(u1, hidden, n, gate_weight);
    let (u4, bent) = state.bent(u3, gate);
    let (u5, gated) = state.joined(u4, Join::Mul, bent, part);
    assert(plan.ple_gate is Some && !u5.stopped());
    let (u6, gated_short) = state.shortened(u5, gated);
    let (u7, projected) = state.mapped_at(u5, gated, n, projection);
    assert(plan.ple_projection is Some && !u7.stopped());
    let (u8, normed) = state.normed_at(u7, projected, norm, epsilon, false);
    let (u9, out) = state.joined(u8, Join::Add, hidden, normed);
    assert(plan.ple_norm is Some);
    assert(state.ple_applied(t, hidden, packed, rows, layer, config) == (u9, out));
    state.lemma_join_recorded(u8, Join::Add, hidden, normed);
    state.lemma_norm_recorded(u7, projected, norm, epsilon, false);
    assert(state.projected_at(u6, gated_short, n, projection) == (u7, projected));
    state.lemma_projection_recorded(u6, gated_short, n, projection);
    state.lemma_short_recorded(u5, gated);
    state.lemma_join_recorded(u4, Join::Mul, bent, part);
    state.lemma_bend_recorded(u3, gate);
    assert(state.projected_at(u2, short, n, gate_weight) == (u3, gate));
    state.lemma_projection_recorded(u2, short, n, gate_weight);
    state.lemma_short_recorded(u1, hidden);
    state.lemma_part_recorded(t, packed, rows, layer, config);
    let lens = u9.lens;
    let l9 = Launch::Add { left: hidden, right: normed, out };
    let l8 = Launch::RmsNorm {
        input: projected,
        weight: norm,
        hidden: shape(norm)[0],
        epsilon,
        out: normed,
    };
    let l7 = Launch::Linear {
        input: gated_short,
        weight: projection,
        rows: n,
        outputs: shape(projection)[0],
        inputs: shape(projection)[1],
        out: projected,
    };
    let l6 = Launch::Shorten { input: gated, out: gated_short };
    let l5 = Launch::Mul { left: bent, right: part, out: gated };
    let l4 = Launch::Gelu { input: gate, out: bent };
    let l3 = Launch::Linear {
        input: short,
        weight: gate_weight,
        rows: n,
        outputs: shape(gate_weight)[0],
        inputs: shape(gate_weight)[1],
        out: gate,
    };
    let l2 = Launch::Shorten { input: hidden, out: short };
    let l1 = state.part_launch(packed, rows, layer, config, part);
    assert(t.lens.len() + 9 == u9.lens.len());
    lemma_recorded_lens(u8, l9, u9, out, lens);
    lemma_recorded_lens(u7, l8, u8, normed, lens);
    lemma_recorded_lens(u6, l7, u7, projected, lens);
    lemma_recorded_lens(u5, l6, u6, gated_short, lens);
    lemma_recorded_lens(u4, l5, u5, gated, lens);
    lemma_recorded_lens(u3, l4, u4, bent, lens);
    lemma_recorded_lens(u2, l3, u3, gate, lens);
    lemma_recorded_lens(u1, l2, u2, short, lens);
    lemma_recorded_lens(t, l1, u1, part, lens);
    let k = t.log.len();
    let l = t.lens.len();
    assert(part == l && short == l + 1 && gate == l + 2 && bent == l + 3 && gated == l + 4
        && gated_short == l + 5 && projected == l + 6 && normed == l + 7 && out == l + 8);
    let b8 = lemma_peel(reading, lens, start, u8, l9, u9, out, k, after);
    let b7 = lemma_peel(reading, lens, start, u7, l8, u8, normed, k, b8);
    let b6 = lemma_peel(reading, lens, start, u6, l7, u7, projected, k, b7);
    let b5 = lemma_peel(reading, lens, start, u5, l6, u6, gated_short, k, b6);
    let b4 = lemma_peel(reading, lens, start, u4, l5, u5, gated, k, b5);
    let b3 = lemma_peel(reading, lens, start, u3, l4, u4, bent, k, b4);
    let b2 = lemma_peel(reading, lens, start, u2, l3, u3, gate, k, b3);
    let b1 = lemma_peel(reading, lens, start, u1, l2, u2, short, k, b2);
    let b0 = lemma_peel(reading, lens, start, t, l1, u1, part, k, b1);
    assert(t.log.skip(k as int) =~= Seq::<Order<T>>::empty());
    assert(b0 == start);
    let x = start.wide[hidden as int];
    let from = start.wide[packed as int];
    let weights = start.weights;
    let d = config.hidden_size_per_layer_input as int;
    let parts = b1.wide[part as int];
    lemma_width(layer as int, config.num_hidden_layers as int, d);
    assert(b1.wide[hidden as int] == x && b1.weights == weights && parts.len()
        == lens[part as int]);
    assert forall|i: int| 0 <= i < parts.len() implies #[trigger] parts[i] == match rows {
        None => from[layer * d + i],
        Some(_) => from[i / d * (config.num_hidden_layers * d) + layer * d + i % d],
    } by {
        match rows {
            None => {
                assert(fills(start, l1, parts));
                assert(parts == from.subrange(layer * d, layer * d + parts.len()));
                assert(parts.len() == d);
            },
            Some(_) => {
                assert(fills(start, l1, parts));
                assert(parts[i] == from[i / d * (config.num_hidden_layers * d) + layer * d + i
                    % d]);
            },
        }
    }
    let first = b2.short[short as int];
    assert(b2.wide == b1.wide && b2.weights == weights);
    assert(rounds(x, first));
    lemma_linear(
        reading,
        lens,
        b2,
        short,
        gate_weight,
        n,
        shape(gate_weight)[0],
        shape(gate_weight)[1],
        gate,
        b3,
    );
    let gates = b3.wide[gate as int];
    let bents = b4.wide[bent as int];
    assert(b4.wide[part as int] == parts && b4.wide[hidden as int] == x && b4.weights == weights);
    let made = b5.wide[gated as int];
    assert(b5.wide[hidden as int] == x && b5.weights == weights);
    assert(multiplied_out(bents, parts, made));
    assert forall|i: int| 0 <= i < made.len() implies reading.of(#[trigger] made[i]) == gelu_number(
        reading,
        reading.of(gates[i]),
    ) * reading.of(parts[i]) by {
        assert(product(bents[i], parts[i], made[i]));
        assert(gelu(gates[i], bents[i]));
        units_are_gaussian(reading, gates[i], bents[i]);
    }
    let squeezed = b6.short[gated_short as int];
    assert(b6.wide == b5.wide && b6.weights == weights);
    assert(rounds(made, squeezed));
    lemma_linear(
        reading,
        lens,
        b6,
        gated_short,
        projection,
        n,
        shape(projection)[0],
        shape(projection)[1],
        projected,
        b7,
    );
    let downs = b7.wide[projected as int];
    assert(b7.wide[hidden as int] == x && b7.weights == weights);
    let scaled = b8.wide[normed as int];
    assert(b8.wide[hidden as int] == x);
    assert(crate::gemma4_cuda::weights::usable_shape(shape(norm)));
    assert(downs.len() == lens[projected as int]);
    norms_divide_by_the_mean_square(
        reading,
        downs,
        weights[norm as int],
        shape(norm)[0],
        epsilon,
        scaled,
    );
    let result = after.wide[out as int];
    assert(added_up(x, scaled, result));
    assert forall|i: int| 0 <= i < result.len() implies reading.of(#[trigger] result[i])
        == reading.of(x[i]) + reading.of(scaled[i]) by {
        assert(sum(x[i], scaled[i], result[i]));
    }
    Infusion {
        short: first,
        gate: gates,
        part: parts,
        gated: made,
        gated_short: squeezed,
        projected: downs,
        normed: scaled,
    }
}

/// The part of a layer begins inside.
proof fn lemma_width(layer: int, layers: int, d: int)
    requires
        0 <= layer < layers,
        d >= 0,
    ensures
        0 <= layer * d <= layers * d,
{
    assert(0 <= layer * d <= layers * d) by (nonlinear_arith)
        requires
            0 <= layer < layers,
            d >= 0,
    ;
}

/// A layer ends with its rows scaled by its scalar.
pub proof fn layers_end_scaled<T: Scalar>(
    reading: Reading<T>,
    state: Gemma4CudaState<T>,
    t: Tape<T>,
    hidden: usize,
    layer: usize,
    start: Board<T>,
    after: Board<T>,
)
    requires
        reading.exact(),
        hidden < t.lens.len(),
        t.lens.len() < usize::MAX,
        layer < state.decode_plan@.len(),
        !state.finished(t, hidden, layer).0.stopped(),
        start.wide.len() >= state.finished(t, hidden, layer).0.lens.len(),
        performs_exactly(
            reading,
            state.finished(t, hidden, layer).0.lens,
            start,
            state.finished(t, hidden, layer).0.log.skip(t.log.len() as int),
            after,
        ),
    ensures
        ({
            let x = start.wide[hidden as int];
            let y = after.wide[state.finished(t, hidden, layer).1 as int];
            let scalar = start.weights[state.decode_plan@[layer as int].layer_scalar as int][0];
            &&& y.len() == x.len()
            &&& forall|i: int|
                0 <= i < y.len() ==> reading.of(#[trigger] y[i]) == reading.of(x[i]) * short_number(
                    reading,
                    scalar,
                )
        }),
{
    let weight = state.decode_plan@[layer as int].layer_scalar;
    assert(!t.stopped());
    let (u, out) = state.scaled_at(t, hidden, weight);
    assert(state.finished(t, hidden, layer) == (u, out));
    state.lemma_scale_recorded(t, hidden, weight);
    let launch = Launch::ScaleByWeight { input: hidden, weight, out };
    let k = t.log.len();
    let b0 = lemma_peel(reading, u.lens, start, t, launch, u, out, k, after);
    assert(t.log.skip(k as int) =~= Seq::<Order<T>>::empty());
    assert(b0 == start);
    let (x, y) = (start.wide[hidden as int], after.wide[out as int]);
    assert forall|i: int| 0 <= i < y.len() implies reading.of(#[trigger] y[i]) == reading.of(x[i])
        * short_number(reading, start.weights[weight as int][0]) by {
        assert(times_brain(x[i], start.weights[weight as int][0], y[i]));
    }
}

} // verus!

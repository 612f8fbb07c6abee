//! What a device holds after the feed-forward part of a layer.
//!
//! Products with weights are computed by cuBLAS, whose sums are in no order that is known.
//! They are taken to be the sums of the products.

use crate::cuda::command::{added_up, multiplied_out};
use crate::cuda::model_kernels::{gelu, weighted_by};
use crate::exact::language::{
    gelu_number, inverse_rms, scales_invert_the_mean_square, short_number, units_are_gaussian,
};
use crate::exact::sums::sigma;
use crate::exact::Reading;
use crate::gemma4_cuda::effects::{
    acts, rms_normed, rounded, row_scaled, unit_normed, Board,
};
use crate::gemma4_cuda::elements::Join;
use crate::gemma4_cuda::tape::{Launch, Order, Tape};
use crate::gemma4_cuda::weights::Gemma4CudaState;
use crate::scalar::{product, sum, Scalar};
use vstd::prelude::*;

verus! {

/// The sum of the products of a row of sixteen-bit numbers and a row of a weight.
pub open spec fn row_product<T>(
    reading: Reading<T>,
    input: Seq<u16>,
    weight: Seq<u16>,
    inputs: int,
    row: int,
    output: int,
) -> real {
    sigma(
        inputs as nat,
        |k: int|
            short_number(reading, input[row * inputs + k]) * short_number(
                reading,
                weight[output * inputs + k],
            ),
    )
}

/// `out` is the product of rows of sixteen-bit numbers and the transpose of a weight.
pub open spec fn row_products<T: Scalar>(
    reading: Reading<T>,
    input: Seq<u16>,
    weight: Seq<u16>,
    rows: int,
    outputs: int,
    inputs: int,
    out: Seq<T>,
) -> bool {
    forall|r: int, o: int|
        0 <= r < rows && 0 <= o < outputs ==> reading.of(#[trigger] out[r * outputs + o])
            == row_product(reading, input, weight, inputs, r, o)
}

/// Where a launch is a product, it is that of the numbers.
pub open spec fn multiplies<T: Scalar>(
    reading: Reading<T>,
    before: Board<T>,
    launch: Launch<T>,
    after: Board<T>,
) -> bool {
    match launch {
        Launch::Linear { input, weight, rows, outputs, inputs, out } => row_products(
            reading,
            before.short[input as int],
            before.weights[weight as int],
            rows as int,
            outputs as int,
            inputs as int,
            after.wide[out as int],
        ),
        _ => true,
    }
}

/// Launches in order lead from `before` to `after`, and products are those of the numbers.
pub open spec fn performs_exactly<T: Scalar>(
    reading: Reading<T>,
    lens: Seq<usize>,
    before: Board<T>,
    log: Seq<Order<T>>,
    after: Board<T>,
) -> bool
    decreases log.len(),
{
    if log.len() == 0 {
        after == before
    } else {
        exists|middle: Board<T>|
            {
                &&& performs_exactly(reading, lens, before, log.drop_last(), middle)
                &&& #[trigger] acts(lens, middle, log.last().launch, after)
                &&& multiplies(reading, middle, log.last().launch, after)
            }
    }
}

/// The last of the launches, and what was there before it.
pub proof fn lemma_last_launch<T: Scalar>(
    reading: Reading<T>,
    lens: Seq<usize>,
    before: Board<T>,
    log: Seq<Order<T>>,
    after: Board<T>,
) -> (middle: Board<T>)
    requires
        log.len() > 0,
        performs_exactly(reading, lens, before, log, after),
    ensures
        performs_exactly(reading, lens, before, log.drop_last(), middle),
        acts(lens, middle, log.last().launch, after),
        multiplies(reading, middle, log.last().launch, after),
{
    choose|middle: Board<T>|
        {
            &&& performs_exactly(reading, lens, before, log.drop_last(), middle)
            &&& #[trigger] acts(lens, middle, log.last().launch, after)
            &&& multiplies(reading, middle, log.last().launch, after)
        }
}

/// One launch more was recorded, which fills the next buffer.
pub open spec fn records<T>(t: Tape<T>, launch: Launch<T>, u: Tape<T>, out: usize) -> bool {
    &&& !u.stopped()
    &&& out == t.next()
    &&& u.lens.len() == t.lens.len() + 1
    &&& u.lens.drop_last() == t.lens
    &&& u.log.len() == t.log.len() + 1
    &&& u.log.drop_last() == t.log
    &&& u.log.last().launch == launch
}

impl<T: Copy> Gemma4CudaState<T> {
    /// What normalizing rows records.
    pub proof fn lemma_norm_recorded(
        self,
        t: Tape<T>,
        input: usize,
        weight: usize,
        epsilon: T,
        short: bool,
    )
        requires
            !self.normed_at(t, input, weight, epsilon, short).0.stopped(),
        ensures
            !t.stopped(),
            weight < self.weights@.len(),
            self.weights@[weight as int].shape@.len() == 1,
            t.lens[input as int] % self.weights@[weight as int].shape@[0] == 0,
            self.normed_at(t, input, weight, epsilon, short).0.lens.last() == t.lens[input as int],
            ({
                let (u, out) = self.normed_at(t, input, weight, epsilon, short);
                let hidden = self.weights@[weight as int].shape@[0];
                records(
                    t,
                    if short {
                        Launch::RmsNormShort { input, weight, hidden, epsilon, out }
                    } else {
                        Launch::RmsNorm { input, weight, hidden, epsilon, out }
                    },
                    u,
                    out,
                )
            }),
    {
        let (u, out) = self.normed_at(t, input, weight, epsilon, short);
        let len = t.lens[input as int];
        assert(u.lens == t.lens.push(len));
        assert(u.log == t.log.push(u.log.last()));
        assert(u.lens.drop_last() =~= t.lens);
        assert(u.log.drop_last() =~= t.log);
    }

    /// What multiplying rows records.
    pub proof fn lemma_projection_recorded(
        self,
        t: Tape<T>,
        input: usize,
        rows: usize,
        weight: usize,
    )
        requires
            !self.projected_at(t, input, rows, weight).0.stopped(),
        ensures
            !t.stopped(),
            weight < self.weights@.len(),
            self.weights@[weight as int].shape@.len() == 2,
            t.lens[input as int] == rows * self.weights@[weight as int].shape@[1],
            self.projected_at(t, input, rows, weight).0.lens.last() == (rows
                * self.weights@[weight as int].shape@[0]) as usize,
            ({
                let (u, out) = self.projected_at(t, input, rows, weight);
                let shape = self.weights@[weight as int].shape@;
                records(
                    t,
                    Launch::Linear {
                        input,
                        weight,
                        rows,
                        outputs: shape[0],
                        inputs: shape[1],
                        out,
                    },
                    u,
                    out,
                )
            }),
    {
        let (u, out) = self.projected_at(t, input, rows, weight);
        let shape = self.weights@[weight as int].shape@;
        assert(u.lens == t.lens.push((rows * shape[0]) as usize));
        assert(u.log == t.log.push(u.log.last()));
        assert(u.lens.drop_last() =~= t.lens);
        assert(u.log.drop_last() =~= t.log);
    }

    /// What joining two buffers records.
    pub proof fn lemma_join_recorded(self, t: Tape<T>, join: Join, left: usize, right: usize)
        requires
            !self.joined(t, join, left, right).0.stopped(),
        ensures
            !t.stopped(),
            t.lens[left as int] == t.lens[right as int],
            self.joined(t, join, left, right).0.lens.last() == t.lens[left as int],
            ({
                let (u, out) = self.joined(t, join, left, right);
                records(
                    t,
                    match join {
                        Join::Add => Launch::Add { left, right, out },
                        Join::Mul => Launch::Mul { left, right, out },
                        Join::GeluMul => Launch::GeluMul { gate: left, up: right, out },
                    },
                    u,
                    out,
                )
            }),
    {
        let (u, out) = self.joined(t, join, left, right);
        assert(u.lens == t.lens.push(t.lens[left as int]));
        assert(u.log == t.log.push(u.log.last()));
        assert(u.lens.drop_last() =~= t.lens);
        assert(u.log.drop_last() =~= t.log);
    }

    /// What rounding a buffer records.
    pub proof fn lemma_short_recorded(self, t: Tape<T>, input: usize)
        requires
            !self.shortened(t, input).0.stopped(),
        ensures
            !t.stopped(),
            self.shortened(t, input).0.lens.last() == t.lens[input as int],
            ({
                let (u, out) = self.shortened(t, input);
                records(t, Launch::Shorten { input, out }, u, out)
            }),
    {
        let (u, out) = self.shortened(t, input);
        assert(u.lens == t.lens.push(t.lens[input as int]));
        assert(u.log == t.log.push(u.log.last()));
        assert(u.lens.drop_last() =~= t.lens);
        assert(u.log.drop_last() =~= t.log);
    }
}

/// `r` is an element of a row, times one over the root of the mean square of its row and
/// epsilon, times its weight.
pub open spec fn rms_element<T: Scalar>(
    reading: Reading<T>,
    input: Seq<T>,
    weight: Seq<u16>,
    hidden: int,
    epsilon: real,
    i: int,
    r: T,
) -> bool {
    exists|scale: real|
        {
            &&& #[trigger] inverse_rms(
                reading,
                input.subrange(i / hidden * hidden, (i / hidden + 1) * hidden),
                epsilon,
                scale,
            )
            &&& reading.of(r) == reading.of(input[i]) * scale * short_number(
                reading,
                weight[i % hidden],
            )
        }
}

/// Rows normalized by the root of their mean square, and weighted, in numbers.
pub open spec fn rms_rows<T: Scalar>(
    reading: Reading<T>,
    input: Seq<T>,
    weight: Seq<u16>,
    hidden: int,
    epsilon: real,
    r: Seq<T>,
) -> bool {
    &&& r.len() == input.len()
    &&& forall|i: int|
        0 <= i < r.len() ==> rms_element(
            reading,
            input,
            weight,
            hidden,
            epsilon,
            i,
            #[trigger] r[i],
        )
}

/// A normalization of rows is that of the numbers.
pub proof fn norms_divide_by_the_mean_square<T: Scalar>(
    reading: Reading<T>,
    input: Seq<T>,
    weight: Seq<u16>,
    hidden: usize,
    epsilon: T,
    r: Seq<T>,
)
    requires
        reading.exact(),
        hidden > 0,
        input.len() % hidden as nat == 0,
        reading.of(epsilon) > 0 as real,
        rms_normed(input, weight, hidden, epsilon, r),
    ensures
        rms_rows(reading, input, weight, hidden as int, reading.of(epsilon), r),
{
    assert forall|i: int| 0 <= i < r.len() implies rms_element(
        reading,
        input,
        weight,
        hidden as int,
        reading.of(epsilon),
        i,
        #[trigger] r[i],
    ) by {
        let scale = choose|scale: T| #[trigger]
            row_scaled(input, hidden, epsilon, i, scale) && weighted_by(
                input[i],
                scale,
                weight[i % hidden as int],
                r[i],
            );
        lemma_row_inside(i, input.len() as int, hidden as int);
        let row = input.subrange(i / hidden as int * hidden, (i / hidden as int + 1) * hidden);
        scales_invert_the_mean_square(reading, row, hidden, epsilon, scale);
        assert(inverse_rms(reading, row, reading.of(epsilon), reading.of(scale)));
    }
}

/// A normalization of rows without a weight divides an element by the root of the mean square
/// of its row and epsilon.
pub proof fn unit_norms_divide_by_the_mean_square<T: Scalar>(
    reading: Reading<T>,
    input: Seq<T>,
    hidden: usize,
    epsilon: T,
    r: Seq<T>,
    i: int,
) -> (scale: real)
    requires
        reading.exact(),
        hidden > 0,
        input.len() % hidden as nat == 0,
        reading.of(epsilon) > 0 as real,
        unit_normed(input, hidden, epsilon, r),
        0 <= i < input.len(),
    ensures
        r.len() == input.len(),
        inverse_rms(
            reading,
            input.subrange(i / hidden as int * hidden, (i / hidden as int + 1) * hidden),
            reading.of(epsilon),
            scale,
        ),
        reading.of(r[i]) == reading.of(input[i]) * scale,
{
    assert(r[i] == r[i]);
    let scale = choose|scale: T| #[trigger]
        row_scaled(input, hidden, epsilon, i, scale) && product(input[i], scale, r[i]);
    lemma_row_inside(i, input.len() as int, hidden as int);
    let row = input.subrange(i / hidden as int * hidden, (i / hidden as int + 1) * hidden);
    scales_invert_the_mean_square(reading, row, hidden, epsilon, scale);
    reading.of(scale)
}

/// The row of an element is inside.
proof fn lemma_row_inside(i: int, len: int, h: int)
    requires
        0 <= i < len,
        h > 0,
        len % h == 0,
    ensures
        0 <= i / h * h,
        i / h * h + h == (i / h + 1) * h,
        (i / h + 1) * h <= len,
{
    let n = len / h;
    vstd::arithmetic::div_mod::lemma_fundamental_div_mod(i, h);
    vstd::arithmetic::div_mod::lemma_fundamental_div_mod(len, h);
    let q = i / h;
    assert(0 <= q) by (nonlinear_arith)
        requires
            q == i / h,
            i >= 0,
            h > 0,
    ;
    assert(q < n) by (nonlinear_arith)
        requires
            h * q + i % h < h * n,
            0 <= i % h,
            h > 0,
    ;
    assert(0 <= q * h && q * h + h == (q + 1) * h && (q + 1) * h <= h * n) by (nonlinear_arith)
        requires
            0 <= q < n,
            h > 0,
    ;
}

/// What is computed on the way through a feed-forward part.
pub struct Passage<T> {
    /// The rows normalized, and rounded to sixteen bits.
    pub normed: Seq<T>,
    pub normed_short: Seq<u16>,
    pub gate: Seq<T>,
    pub up: Seq<T>,
    /// The units, and they rounded to sixteen bits.
    pub units: Seq<T>,
    pub units_short: Seq<u16>,
    pub down: Seq<T>,
    pub down_normed: Seq<T>,
}

/// Element by element, numbers rounded to sixteen bits.
pub open spec fn rounds<T: Scalar>(values: Seq<T>, numbers: Seq<u16>) -> bool {
    &&& values.len() == numbers.len()
    &&& forall|i: int| 0 <= i < numbers.len() ==> rounded(values[i], #[trigger] numbers[i])
}

/// `out` comes of `hidden` by the feed-forward part of a layer: `hidden`, moved by the
/// normalized product of the down projection and the units.  Every unit is the Gaussian unit
/// of the product of the normalized row with the gating projection, times the product of that
/// row with the up projection.
pub open spec fn feeds_forward<T: Scalar>(
    reading: Reading<T>,
    state: Gemma4CudaState<T>,
    weights: Seq<Seq<u16>>,
    layer: int,
    rows: int,
    epsilon: real,
    hidden: Seq<T>,
    passage: Passage<T>,
    out: Seq<T>,
) -> bool {
    let plan = state.decode_plan@[layer];
    let shape = |weight: usize| state.weights@[weight as int].shape@;
    let inputs = shape(plan.gate_projection)[1] as int;
    let units = shape(plan.gate_projection)[0] as int;
    let outputs = shape(plan.down_projection)[0] as int;
    &&& rms_rows(
        reading,
        hidden,
        weights[plan.pre_feedforward_norm as int],
        shape(plan.pre_feedforward_norm)[0] as int,
        epsilon,
        passage.normed,
    )
    &&& rounds(passage.normed, passage.normed_short)
    &&& row_products(
        reading,
        passage.normed_short,
        weights[plan.gate_projection as int],
        rows,
        units,
        inputs,
        passage.gate,
    )
    &&& row_products(
        reading,
        passage.normed_short,
        weights[plan.up_projection as int],
        rows,
        shape(plan.up_projection)[0] as int,
        shape(plan.up_projection)[1] as int,
        passage.up,
    )
    &&& passage.units.len() == passage.gate.len() == passage.up.len()
    &&& forall|j: int|
        0 <= j < passage.units.len() ==> reading.of(#[trigger] passage.units[j]) == gelu_number(
            reading,
            reading.of(passage.gate[j]),
        ) * reading.of(passage.up[j])
    &&& rounds(passage.units, passage.units_short)
    &&& row_products(
        reading,
        passage.units_short,
        weights[plan.down_projection as int],
        rows,
        outputs,
        shape(plan.down_projection)[1] as int,
        passage.down,
    )
    &&& rms_rows(
        reading,
        passage.down,
        weights[plan.post_feedforward_norm as int],
        shape(plan.post_feedforward_norm)[0] as int,
        epsilon,
        passage.down_normed,
    )
    &&& out.len() == hidden.len() == passage.down_normed.len()
    &&& forall|i: int|
        0 <= i < out.len() ==> reading.of(#[trigger] out[i]) == reading.of(hidden[i]) + reading.of(
            passage.down_normed[i],
        )
}

/// A recorded launch, and what was there before it.
pub proof fn lemma_peel<T: Scalar>(
    reading: Reading<T>,
    lens: Seq<usize>,
    start: Board<T>,
    t: Tape<T>,
    launch: Launch<T>,
    u: Tape<T>,
    out: usize,
    n: nat,
    after: Board<T>,
) -> (middle: Board<T>)
    requires
        records(t, launch, u, out),
        n <= t.log.len(),
        performs_exactly(reading, lens, start, u.log.skip(n as int), after),
    ensures
        performs_exactly(reading, lens, start, t.log.skip(n as int), middle),
        acts(lens, middle, launch, after),
        multiplies(reading, middle, launch, after),
{
    let log = u.log.skip(n as int);
    assert(log.drop_last() =~= u.log.drop_last().skip(n as int));
    assert(log.last() == u.log.last());
    lemma_last_launch(reading, lens, start, log, after)
}

/// The product of a launch that multiplies has its size and leaves the rest.
pub proof fn lemma_linear<T: Scalar>(
    reading: Reading<T>,
    lens: Seq<usize>,
    before: Board<T>,
    input: usize,
    weight: usize,
    rows: usize,
    outputs: usize,
    inputs: usize,
    out: usize,
    after: Board<T>,
)
    requires
        out < before.wide.len(),
        acts(lens, before, Launch::Linear { input, weight, rows, outputs, inputs, out }, after),
        multiplies(
            reading,
            before,
            Launch::Linear { input, weight, rows, outputs, inputs, out },
            after,
        ),
    ensures
        after.weights == before.weights,
        after.short == before.short,
        after.wide.len() == before.wide.len(),
        forall|k: int|
            0 <= k < before.wide.len() && k != out ==> #[trigger] after.wide[k] == before.wide[k],
        after.wide[out as int].len() == rows * outputs,
        row_products(
            reading,
            before.short[input as int],
            before.weights[weight as int],
            rows as int,
            outputs as int,
            inputs as int,
            after.wide[out as int],
        ),
{
}

/// After the feed-forward part of a layer a device holds, in the buffer that was recorded,
/// what the layer's weights make of the hidden rows: the rows, moved by the normalized product
/// of the down projection and the units, each of which is the Gaussian unit of the product with
/// the gating projection, times the product with the up projection.
pub proof fn feed_forwards_gate_by_the_gating_projection<T: Scalar>(
    reading: Reading<T>,
    state: Gemma4CudaState<T>,
    t: Tape<T>,
    hidden: usize,
    rows: usize,
    layer: usize,
    epsilon: T,
    start: Board<T>,
    after: Board<T>,
) -> (passage: Passage<T>)
    requires
        reading.exact(),
        reading.of(epsilon) > 0 as real,
        state.wf(),
        hidden < t.lens.len(),
        t.lens.len() + 8 <= usize::MAX,
        layer < state.decode_plan@.len(),
        !state.fed_forward(t, hidden, rows, layer, epsilon).0.stopped(),
        start.wide.len() >= state.fed_forward(t, hidden, rows, layer, epsilon).0.lens.len(),
        start.short.len() >= state.fed_forward(t, hidden, rows, layer, epsilon).0.lens.len(),
        start.wide[hidden as int].len() == t.lens[hidden as int],
        performs_exactly(
            reading,
            state.fed_forward(t, hidden, rows, layer, epsilon).0.lens,
            start,
            state.fed_forward(t, hidden, rows, layer, epsilon).0.log.skip(t.log.len() as int),
            after,
        ),
    ensures
        feeds_forward(
            reading,
            state,
            start.weights,
            layer as int,
            rows as int,
            reading.of(epsilon),
            start.wide[hidden as int],
            passage,
            after.wide[state.fed_forward(t, hidden, rows, layer, epsilon).1 as int],
        ),
{
    let plan = state.decode_plan@[layer as int];
    let shape = |weight: usize| state.weights@[weight as int].shape@;
    let (u1, normalized) = state.normed_at(t, hidden, plan.pre_feedforward_norm, epsilon, true);
    let (u2, gate) = state.projected_at(u1, normalized, rows, plan.gate_projection);
    let (u3, up) = state.projected_at(u2, normalized, rows, plan.up_projection);
    let (u4, units) = state.joined(u3, Join::GeluMul, gate, up);
    let (u5, short) = state.shortened(u4, units);
    let (u6, down) = state.mapped_at(u4, units, rows, plan.down_projection);
    let (u7, normed) = state.normed_at(u6, down, plan.post_feedforward_norm, epsilon, false);
    let (u8, out) = state.joined(u7, Join::Add, hidden, normed);
    assert(!t.stopped());
    assert(state.fed_forward(t, hidden, rows, layer, epsilon) == (u8, out));
    state.lemma_join_recorded(u7, Join::Add, hidden, normed);
    state.lemma_norm_recorded(u6, down, plan.post_feedforward_norm, epsilon, false);
    assert(!u4.stopped());
    assert(state.projected_at(u5, short, rows, plan.down_projection) == (u6, down));
    state.lemma_projection_recorded(u5, short, rows, plan.down_projection);
    state.lemma_short_recorded(u4, units);
    state.lemma_join_recorded(u3, Join::GeluMul, gate, up);
    state.lemma_projection_recorded(u2, normalized, rows, plan.up_projection);
    state.lemma_projection_recorded(u1, normalized, rows, plan.gate_projection);
    state.lemma_norm_recorded(t, hidden, plan.pre_feedforward_norm, epsilon, true);
    let n = t.log.len();
    let lens = u8.lens;
    let l = t.lens.len();
    assert(normalized == l && gate == l + 1 && up == l + 2 && units == l + 3 && short == l + 4
        && down == l + 5 && normed == l + 6 && out == l + 7);
    lemma_lens(t.lens, u1.lens, u2.lens, u3.lens, u4.lens, u5.lens, u6.lens, u7.lens, u8.lens);
    let b7 = lemma_peel(
        reading,
        lens,
        start,
        u7,
        Launch::Add { left: hidden, right: normed, out },
        u8,
        out,
        n,
        after,
    );
    let post = shape(plan.post_feedforward_norm)[0];
    let b6 = lemma_peel(
        reading,
        lens,
        start,
        u6,
        Launch::RmsNorm {
            input: down,
            weight: plan.post_feedforward_norm,
            hidden: post,
            epsilon,
            out: normed,
        },
        u7,
        normed,
        n,
        b7,
    );
    let wide_down = shape(plan.down_projection);
    let b5 = lemma_peel(
        reading,
        lens,
        start,
        u5,
        Launch::Linear {
            input: short,
            weight: plan.down_projection,
            rows,
            outputs: wide_down[0],
            inputs: wide_down[1],
            out: down,
        },
        u6,
        down,
        n,
        b6,
    );
    let b4 = lemma_peel(
        reading,
        lens,
        start,
        u4,
        Launch::Shorten { input: units, out: short },
        u5,
        short,
        n,
        b5,
    );
    let b3 = lemma_peel(
        reading,
        lens,
        start,
        u3,
        Launch::GeluMul { gate, up, out: units },
        u4,
        units,
        n,
        b4,
    );
    let wide_up = shape(plan.up_projection);
    let b2 = lemma_peel(
        reading,
        lens,
        start,
        u2,
        Launch::Linear {
            input: normalized,
            weight: plan.up_projection,
            rows,
            outputs: wide_up[0],
            inputs: wide_up[1],
            out: up,
        },
        u3,
        up,
        n,
        b3,
    );
    let wide_gate = shape(plan.gate_projection);
    let b1 = lemma_peel(
        reading,
        lens,
        start,
        u1,
        Launch::Linear {
            input: normalized,
            weight: plan.gate_projection,
            rows,
            outputs: wide_gate[0],
            inputs: wide_gate[1],
            out: gate,
        },
        u2,
        gate,
        n,
        b2,
    );
    let pre = shape(plan.pre_feedforward_norm)[0];
    let b0 = lemma_peel(
        reading,
        lens,
        start,
        t,
        Launch::RmsNormShort {
            input: hidden,
            weight: plan.pre_feedforward_norm,
            hidden: pre,
            epsilon,
            out: normalized,
        },
        u1,
        normalized,
        n,
        b1,
    );
    assert(t.log.skip(n as int) =~= Seq::<Order<T>>::empty());
    assert(b0 == start);
    let x = start.wide[hidden as int];
    let weights = start.weights;
    let first = b1.short[normalized as int];
    assert(b1.wide == start.wide && b1.weights == weights && first.len() == lens[l as int]);
    let values = choose|values: Seq<T>|
        {
            &&& #[trigger] rms_normed(
                start.wide[hidden as int],
                start.weights[plan.pre_feedforward_norm as int],
                pre,
                epsilon,
                values,
            )
            &&& forall|i: int|
                0 <= i < first.len() ==> rounded(values[i], #[trigger] first[i])
        };
    assert(crate::gemma4_cuda::weights::usable_shape(shape(plan.pre_feedforward_norm)));
    assert(crate::gemma4_cuda::weights::usable_shape(shape(plan.post_feedforward_norm)));
    norms_divide_by_the_mean_square(
        reading,
        x,
        weights[plan.pre_feedforward_norm as int],
        pre,
        epsilon,
        values,
    );
    lemma_linear(
        reading,
        lens,
        b1,
        normalized,
        plan.gate_projection,
        rows,
        wide_gate[0],
        wide_gate[1],
        gate,
        b2,
    );
    lemma_linear(
        reading,
        lens,
        b2,
        normalized,
        plan.up_projection,
        rows,
        wide_up[0],
        wide_up[1],
        up,
        b3,
    );
    let gates = b3.wide[gate as int];
    let ups = b3.wide[up as int];
    assert(gates == b2.wide[gate as int]);
    assert(b3.short[normalized as int] == first && b3.wide[hidden as int] == x);
    let made = b4.wide[units as int];
    assert(b4.weights == weights && b4.wide[hidden as int] == x && b4.short == b3.short);
    assert forall|j: int| 0 <= j < made.len() implies reading.of(#[trigger] made[j]) == gelu_number(
        reading,
        reading.of(gates[j]),
    ) * reading.of(ups[j]) by {
        let bent = choose|bent: Seq<T>|
            {
                &&& bent.len() == b3.wide[gate as int].len()
                &&& forall|i: int|
                    0 <= i < bent.len() ==> gelu(
                        b3.wide[gate as int][i],
                        #[trigger] bent[i],
                    )
                &&& #[trigger] multiplied_out(bent, b3.wide[up as int], made)
            };
        assert(gelu(gates[j], bent[j]));
        assert(product(bent[j], ups[j], made[j]));
        units_are_gaussian(reading, gates[j], bent[j]);
    }
    assert(made.len() == gates.len());
    assert(gates.len() == rows * wide_gate[0] && ups.len() == rows * wide_up[0]);
    let squeezed = b5.short[short as int];
    assert(b5.wide == b4.wide && b5.weights == weights);
    assert(rounds(made, squeezed));
    lemma_linear(
        reading,
        lens,
        b5,
        short,
        plan.down_projection,
        rows,
        wide_down[0],
        wide_down[1],
        down,
        b6,
    );
    let downs = b6.wide[down as int];
    assert(b6.wide[hidden as int] == x && b6.weights == weights);
    let scaled = b7.wide[normed as int];
    assert(b7.wide[hidden as int] == x);
    norms_divide_by_the_mean_square(
        reading,
        downs,
        weights[plan.post_feedforward_norm as int],
        post,
        epsilon,
        scaled,
    );
    let result = after.wide[out as int];
    assert(added_up(x, scaled, result));
    assert forall|i: int| 0 <= i < result.len() implies reading.of(#[trigger] result[i])
        == reading.of(x[i]) + reading.of(scaled[i]) by {
        assert(sum(x[i], scaled[i], result[i]));
    }
    Passage {
        normed: values,
        normed_short: first,
        gate: gates,
        up: ups,
        units: made,
        units_short: squeezed,
        down: downs,
        down_normed: scaled,
    }
}

/// Buffers that were made stay as long as they were.
proof fn lemma_lens(
    l0: Seq<usize>,
    l1: Seq<usize>,
    l2: Seq<usize>,
    l3: Seq<usize>,
    l4: Seq<usize>,
    l5: Seq<usize>,
    l6: Seq<usize>,
    l7: Seq<usize>,
    l8: Seq<usize>,
)
    requires
        l1.len() == l0.len() + 1 && l1.drop_last() == l0,
        l2.len() == l1.len() + 1 && l2.drop_last() == l1,
        l3.len() == l2.len() + 1 && l3.drop_last() == l2,
        l4.len() == l3.len() + 1 && l4.drop_last() == l3,
        l5.len() == l4.len() + 1 && l5.drop_last() == l4,
        l6.len() == l5.len() + 1 && l6.drop_last() == l5,
        l7.len() == l6.len() + 1 && l7.drop_last() == l6,
        l8.len() == l7.len() + 1 && l8.drop_last() == l7,
    ensures
        forall|i: int| 0 <= i < l0.len() ==> #[trigger] l8[i] == l0[i],
        forall|i: int| 0 <= i < l0.len() ==> #[trigger] l7[i] == l0[i],
        l8[l0.len() as int] == l1.last(),
        l8[l1.len() as int] == l2.last() && l3[l1.len() as int] == l2.last(),
        l8[l2.len() as int] == l3.last(),
        l8[l3.len() as int] == l4.last() && l4[l3.len() as int] == l4.last(),
        l8[l4.len() as int] == l5.last() && l5[l4.len() as int] == l5.last(),
        l8[l5.len() as int] == l6.last() && l6[l5.len() as int] == l6.last(),
        l8[l6.len() as int] == l7.last() && l7[l6.len() as int] == l7.last(),
        l8[l7.len() as int] == l8.last(),
{
    assert forall|i: int| 0 <= i < l0.len() implies #[trigger] l8[i] == l0[i] && l7[i] == l0[i] by {
        assert(l8.drop_last()[i] == l8[i]);
        assert(l7.drop_last()[i] == l7[i]);
        assert(l6.drop_last()[i] == l6[i]);
        assert(l5.drop_last()[i] == l5[i]);
        assert(l4.drop_last()[i] == l4[i]);
        assert(l3.drop_last()[i] == l3[i]);
        assert(l2.drop_last()[i] == l2[i]);
        assert(l1.drop_last()[i] == l1[i]);
    }
    let n = l0.len() as int;
    assert(l8.drop_last()[n] == l8[n] && l7.drop_last()[n] == l7[n] && l6.drop_last()[n] == l6[n]
        && l5.drop_last()[n] == l5[n] && l4.drop_last()[n] == l4[n] && l3.drop_last()[n] == l3[n]
        && l2.drop_last()[n] == l2[n]);
    assert(l8.drop_last()[n + 1] == l8[n + 1] && l7.drop_last()[n + 1] == l7[n + 1]
        && l6.drop_last()[n + 1] == l6[n + 1] && l5.drop_last()[n + 1] == l5[n + 1]
        && l4.drop_last()[n + 1] == l4[n + 1] && l3.drop_last()[n + 1] == l3[n + 1]);
    assert(l8.drop_last()[n + 2] == l8[n + 2] && l7.drop_last()[n + 2] == l7[n + 2]
        && l6.drop_last()[n + 2] == l6[n + 2] && l5.drop_last()[n + 2] == l5[n + 2]
        && l4.drop_last()[n + 2] == l4[n + 2]);
    assert(l8.drop_last()[n + 3] == l8[n + 3] && l7.drop_last()[n + 3] == l7[n + 3]
        && l6.drop_last()[n + 3] == l6[n + 3] && l5.drop_last()[n + 3] == l5[n + 3]);
    assert(l8.drop_last()[n + 4] == l8[n + 4] && l7.drop_last()[n + 4] == l7[n + 4]
        && l6.drop_last()[n + 4] == l6[n + 4]);
    assert(l8.drop_last()[n + 5] == l8[n + 5] && l7.drop_last()[n + 5] == l7[n + 5]);
    assert(l8.drop_last()[n + 6] == l8[n + 6]);
}

} // verus!

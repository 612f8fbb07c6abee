//! What comes back through a batch normalization.

use crate::cuda::command::{affine_gathered, norm_gathered};
use crate::cuda::norm_kernels::{
    affine_gradient, channel_at, channel_values, input_gradient, paired,
};
use crate::exact::channels::{
    lemma_channel_values, lemma_masked, lemma_over_add, lemma_over_constant, lemma_over_equal,
    lemma_over_scale, over_channel,
};
use crate::exact::gradients::lemma_tally_cell;
use crate::exact::normalization::{lemma_standard, measures, standard};
use crate::exact::sums::{lemma_cancel, lemma_sigma_equal};
use crate::exact::Reading;
use crate::norm::{standardized, Planes, Statistics};
use crate::reverse::{
    channel_entries, fixed_gradient, norm_gradients, standardized_all, tally, trained_gradient,
};
use crate::scalar::{counted, difference, product, quotient, zero, Scalar};
use vstd::prelude::*;

verus! {

/// What comes back through a training batch normalization, on the host or on a device.
pub open spec fn any_norm_gradients<T: Scalar>(
    planes: Planes,
    data: Seq<T>,
    weight: Seq<T>,
    statistics: Statistics<T>,
    training: bool,
    gradient: Seq<T>,
    for_input: Seq<T>,
    for_weight: Seq<T>,
    for_bias: Seq<T>,
) -> bool {
    ||| norm_gradients(
        planes,
        data,
        weight,
        statistics,
        training,
        gradient,
        for_input,
        for_weight,
        for_bias,
    )
    ||| {
        &&& affine_gathered(planes, gradient, data, statistics, for_weight, for_bias)
        &&& norm_gathered(
            planes,
            training,
            gradient,
            data,
            weight,
            statistics,
            for_weight,
            for_bias,
            for_input,
        )
    }
}

/// The gradients of the weight and the bias of a channel: the gradients of its outputs,
/// times the standardized inputs and alone, added up.
pub proof fn affine_gradients_sum_channels<T: Scalar>(
    reading: Reading<T>,
    planes: Planes,
    data: Seq<T>,
    weight: Seq<T>,
    statistics: Statistics<T>,
    training: bool,
    gradient: Seq<T>,
    for_input: Seq<T>,
    for_weight: Seq<T>,
    for_bias: Seq<T>,
    channel: int,
)
    requires
        reading.exact(),
        planes.wf(),
        0 <= channel < planes.channels,
        data.len() == planes.len(),
        gradient.len() == planes.len(),
        any_norm_gradients(
            planes,
            data,
            weight,
            statistics,
            training,
            gradient,
            for_input,
            for_weight,
            for_bias,
        ),
    ensures
        reading.of(for_weight[channel]) == over_channel(
            planes,
            channel,
            |i: int|
                reading.of(gradient[i]) * standard(
                    reading,
                    data,
                    reading.of(statistics.mean[channel]),
                    reading.of(statistics.inverse[channel]),
                    i,
                ),
        ),
        reading.of(for_bias[channel]) == over_channel(
            planes,
            channel,
            |i: int| reading.of(gradient[i]),
        ),
{
    let (mean, inverse) = (
        reading.of(statistics.mean[channel]),
        reading.of(statistics.inverse[channel]),
    );
    let g = |i: int| reading.of(gradient[i]);
    let gs = |i: int| reading.of(gradient[i]) * standard(reading, data, mean, inverse, i);
    if norm_gradients(
        planes,
        data,
        weight,
        statistics,
        training,
        gradient,
        for_input,
        for_weight,
        for_bias,
    ) {
        let (standards, weighted) = lemma_host_parts(
            planes,
            data,
            weight,
            statistics,
            training,
            gradient,
            for_input,
            for_weight,
            for_bias,
        );
        lemma_channel_tally(reading, planes, gradient, for_bias, channel);
        lemma_channel_tally(reading, planes, weighted, for_weight, channel);
        let ws = |i: int| reading.of(weighted[i]);
        assert forall|i: int|
            0 <= i < planes.len() && planes.channel_of(i) == channel implies #[trigger] ws(i) == gs(
            i,
        ) by {
            assert(product(gradient[i], standards[i], weighted[i]));
            assert(standardized(
                data[i],
                statistics.mean[channel],
                statistics.inverse[channel],
                standards[i],
            ));
        }
        lemma_over_equal(planes, channel, ws, gs);
    } else {
        let values = channel_values(planes, channel, data);
        let gradients = channel_values(planes, channel, gradient);
        assert(affine_gradient(
            values,
            gradients,
            statistics.mean[channel],
            statistics.inverse[channel],
            for_weight[channel],
            for_bias[channel],
        ));
        reading.lemma_summed(gradients, for_bias[channel]);
        lemma_sigma_equal(
            planes.samples() as nat,
            |i: int| reading.of(gradients[i]),
            |n: int| g(channel_at(planes, channel, n)),
        );
        lemma_channel_values(planes, channel, g);
        let (standards, start) = choose|standards: Seq<T>, start: T|
            {
                &&& standards.len() == values.len()
                &&& forall|i: int|
                    0 <= i < values.len() ==> standardized(
                        values[i],
                        statistics.mean[channel],
                        statistics.inverse[channel],
                        #[trigger] standards[i],
                    )
                &&& zero(start)
                &&& #[trigger] crate::scalar::dotted(
                    start,
                    paired(gradients, standards),
                    for_weight[channel],
                )
            };
        let pairs = paired(gradients, standards);
        reading.lemma_dotted(start, pairs, for_weight[channel]);
        assert forall|n: int| 0 <= n < planes.samples() implies reading.of(
            #[trigger] pairs[n].0,
        ) * reading.of(pairs[n].1) == gs(channel_at(planes, channel, n)) by {
            assert(standardized(
                values[n],
                statistics.mean[channel],
                statistics.inverse[channel],
                standards[n],
            ));
        }
        lemma_sigma_equal(
            planes.samples() as nat,
            |i: int| reading.of(pairs[i].0) * reading.of(pairs[i].1),
            |n: int| gs(channel_at(planes, channel, n)),
        );
        lemma_channel_values(planes, channel, gs);
    }
}

/// The standardized inputs, and their products with the gradients, on the host.
proof fn lemma_host_parts<T: Scalar>(
    planes: Planes,
    data: Seq<T>,
    weight: Seq<T>,
    statistics: Statistics<T>,
    training: bool,
    gradient: Seq<T>,
    for_input: Seq<T>,
    for_weight: Seq<T>,
    for_bias: Seq<T>,
) -> (r: (Seq<T>, Seq<T>))
    requires
        norm_gradients(
            planes,
            data,
            weight,
            statistics,
            training,
            gradient,
            for_input,
            for_weight,
            for_bias,
        ),
    ensures
        standardized_all(planes, data, statistics, r.0),
        r.1.len() == data.len(),
        forall|i: int|
            0 <= i < data.len() ==> product(gradient[i], r.0[i], #[trigger] r.1[i]),
        tally(planes.channels as int, channel_entries(planes, r.1), for_weight),
        tally(planes.channels as int, channel_entries(planes, gradient), for_bias),
        for_input.len() == data.len(),
        forall|i: int|
            0 <= i < data.len() ==> if training {
                trained_gradient(
                    planes.samples() as usize,
                    gradient[i],
                    r.0[i],
                    weight[planes.channel_of(i)],
                    statistics.inverse[planes.channel_of(i)],
                    for_bias[planes.channel_of(i)],
                    for_weight[planes.channel_of(i)],
                    #[trigger] for_input[i],
                )
            } else {
                fixed_gradient(
                    gradient[i],
                    weight[planes.channel_of(i)],
                    statistics.inverse[planes.channel_of(i)],
                    for_input[i],
                )
            },
{
    choose|standard: Seq<T>, weighted: Seq<T>|
        {
            &&& #[trigger] standardized_all(planes, data, statistics, standard)
            &&& weighted.len() == data.len()
            &&& forall|i: int|
                0 <= i < data.len() ==> product(
                    gradient[i],
                    standard[i],
                    #[trigger] weighted[i],
                )
            &&& tally(
                planes.channels as int,
                #[trigger] channel_entries(planes, weighted),
                for_weight,
            )
            &&& tally(planes.channels as int, channel_entries(planes, gradient), for_bias)
            &&& for_input.len() == data.len()
            &&& forall|i: int|
                0 <= i < data.len() ==> if training {
                    trained_gradient(
                        planes.samples() as usize,
                        gradient[i],
                        standard[i],
                        weight[planes.channel_of(i)],
                        statistics.inverse[planes.channel_of(i)],
                        for_bias[planes.channel_of(i)],
                        for_weight[planes.channel_of(i)],
                        #[trigger] for_input[i],
                    )
                } else {
                    fixed_gradient(
                        gradient[i],
                        weight[planes.channel_of(i)],
                        statistics.inverse[planes.channel_of(i)],
                        for_input[i],
                    )
                }
        }
}

/// The terms of a channel added up.
proof fn lemma_channel_tally<T: Scalar>(
    reading: Reading<T>,
    planes: Planes,
    terms: Seq<T>,
    out: Seq<T>,
    channel: int,
)
    requires
        reading.exact(),
        planes.wf(),
        0 <= channel < planes.channels,
        terms.len() == planes.len(),
        tally(planes.channels as int, channel_entries(planes, terms), out),
    ensures
        reading.of(out[channel]) == over_channel(planes, channel, |i: int| reading.of(terms[i])),
{
    let entries = channel_entries(planes, terms);
    assert forall|k: int| 0 <= k < entries.len() implies 0 <= (#[trigger] entries[k]).0
        < planes.channels by {
        planes.lemma_channel(k);
    }
    lemma_tally_cell(reading, planes.channels as int, entries, out, channel);
    let f = |i: int| reading.of(terms[i]);
    lemma_sigma_equal(
        planes.len() as nat,
        |k: int|
            if entries[k].0 == channel {
                reading.of(entries[k].1)
            } else {
                0 as real
            },
        |i: int|
            if planes.channel_of(i) == channel {
                f(i)
            } else {
                0 as real
            },
    );
    lemma_masked(planes, channel, f);
}

/// The gradient of an input of a training batch normalization, on the host or on a device:
/// that of its output, less the mean gradient of the channel, less the standardized input
/// times the mean of the gradients weighted by standardized inputs; all times the weight and
/// the inverse deviation.
proof fn lemma_input_gradient<T: Scalar>(
    reading: Reading<T>,
    planes: Planes,
    data: Seq<T>,
    weight: Seq<T>,
    statistics: Statistics<T>,
    gradient: Seq<T>,
    for_input: Seq<T>,
    for_weight: Seq<T>,
    for_bias: Seq<T>,
    i: int,
)
    requires
        reading.exact(),
        planes.wf(),
        planes.samples() > 0,
        data.len() == planes.len(),
        gradient.len() == planes.len(),
        0 <= i < planes.len(),
        any_norm_gradients(
            planes,
            data,
            weight,
            statistics,
            true,
            gradient,
            for_input,
            for_weight,
            for_bias,
        ),
    ensures
        ({
            let c = planes.channel_of(i);
            let n = planes.samples() as real;
            let inverse = reading.of(statistics.inverse[c]);
            reading.of(for_input[i]) * n == reading.of(weight[c]) * inverse * (n * reading.of(
                gradient[i],
            ) - reading.of(for_bias[c]) - standard(
                reading,
                data,
                reading.of(statistics.mean[c]),
                inverse,
                i,
            ) * reading.of(for_weight[c]))
        }),
{
    let c = planes.channel_of(i);
    let samples = planes.samples() as usize;
    let mean = statistics.mean[c];
    let inverse = statistics.inverse[c];
    let s = if norm_gradients(
        planes,
        data,
        weight,
        statistics,
        true,
        gradient,
        for_input,
        for_weight,
        for_bias,
    ) {
        let (standards, weighted) = lemma_host_parts(
            planes,
            data,
            weight,
            statistics,
            true,
            gradient,
            for_input,
            for_weight,
            for_bias,
        );
        assert(standardized(data[i], mean, inverse, standards[i]));
        assert(for_input[i] == for_input[i]);
        standards[i]
    } else {
        assert(input_gradient(
            true,
            samples,
            gradient[i],
            data[i],
            weight[c],
            mean,
            inverse,
            for_weight[c],
            for_bias[c],
            for_input[i],
        ));
        choose|standard: T| #[trigger]
            standardized(data[i], mean, inverse, standard) && trained_gradient(
                samples,
                gradient[i],
                standard,
                weight[c],
                inverse,
                for_bias[c],
                for_weight[c],
                for_input[i],
            )
    };
    assert(trained_gradient(
        samples,
        gradient[i],
        s,
        weight[c],
        inverse,
        for_bias[c],
        for_weight[c],
        for_input[i],
    ));
    let (count, a, b, p, d, e, f) = choose|n: T, a: T, b: T, c1: T, d: T, e: T, f: T|
        {
            &&& counted(samples, n)
            &&& #[trigger] product(weight[c], inverse, a)
            &&& #[trigger] quotient(a, n, b)
            &&& #[trigger] product(n, gradient[i], c1)
            &&& #[trigger] difference(c1, for_bias[c], d)
            &&& #[trigger] product(s, for_weight[c], e)
            &&& #[trigger] difference(d, e, f)
            &&& #[trigger] product(b, f, for_input[i])
        };
    let n = planes.samples() as real;
    assert(reading.of(count) == n);
    let (x, y, z) = (reading.of(b), reading.of(f), reading.of(a));
    assert(x * y * n == (x * n) * y) by (nonlinear_arith);
    assert(z * y == (x * n) * y);
}

/// Through a training batch normalization, in every channel: the input gradients are the
/// output gradients less their mean and less their part along the standardized inputs, times
/// the weight and the inverse deviation.  They add up to zero, and so do they weighted by the
/// standardized inputs, but for the part that epsilon takes.
pub proof fn norm_gradients_leave_mean_and_scale<T: Scalar>(
    reading: Reading<T>,
    planes: Planes,
    data: Seq<T>,
    weight: Seq<T>,
    statistics: Statistics<T>,
    gradient: Seq<T>,
    for_input: Seq<T>,
    for_weight: Seq<T>,
    for_bias: Seq<T>,
    epsilon: real,
    channel: int,
)
    requires
        reading.exact(),
        planes.wf(),
        planes.samples() > 0,
        data.len() == planes.len(),
        gradient.len() == planes.len(),
        0 <= channel < planes.channels,
        any_norm_gradients(
            planes,
            data,
            weight,
            statistics,
            true,
            gradient,
            for_input,
            for_weight,
            for_bias,
        ),
        measures(
            reading,
            planes,
            data,
            channel,
            epsilon,
            reading.of(statistics.mean[channel]),
            reading.of(statistics.inverse[channel]),
        ),
    ensures
        ({
            let n = planes.samples() as real;
            let (mean, inverse) = (
                reading.of(statistics.mean[channel]),
                reading.of(statistics.inverse[channel]),
            );
            let w = reading.of(weight[channel]);
            let total = over_channel(planes, channel, |i: int| reading.of(gradient[i]));
            let along = over_channel(
                planes,
                channel,
                |i: int| reading.of(gradient[i]) * standard(reading, data, mean, inverse, i),
            );
            &&& forall|i: int|
                0 <= i < planes.len() && planes.channel_of(i) == channel ==> reading.of(
                    #[trigger] for_input[i],
                ) * n == w * inverse * (n * reading.of(gradient[i]) - total - standard(
                    reading,
                    data,
                    mean,
                    inverse,
                    i,
                ) * along)
            &&& over_channel(planes, channel, |i: int| reading.of(for_input[i])) == 0 as real
            &&& over_channel(
                planes,
                channel,
                |i: int| reading.of(for_input[i]) * standard(reading, data, mean, inverse, i),
            ) == w * inverse * along * (epsilon * (inverse * inverse))
        }),
{
    let n = planes.samples() as real;
    let (mean, inverse) = (
        reading.of(statistics.mean[channel]),
        reading.of(statistics.inverse[channel]),
    );
    let w = reading.of(weight[channel]);
    let g = |i: int| reading.of(gradient[i]);
    let s = |i: int| standard(reading, data, mean, inverse, i);
    let gs = |i: int| reading.of(gradient[i]) * standard(reading, data, mean, inverse, i);
    let total = over_channel(planes, channel, g);
    let along = over_channel(planes, channel, gs);
    let r = |i: int| reading.of(for_input[i]);
    affine_gradients_sum_channels(
        reading,
        planes,
        data,
        weight,
        statistics,
        true,
        gradient,
        for_input,
        for_weight,
        for_bias,
        channel,
    );
    assert forall|i: int| 0 <= i < planes.len() && planes.channel_of(i) == channel implies r(i) * n
        == w * inverse * (n * g(i) - total - s(i) * along) && reading.of(#[trigger] for_input[i])
        == r(i) by {
        lemma_input_gradient(
            reading,
            planes,
            data,
            weight,
            statistics,
            gradient,
            for_input,
            for_weight,
            for_bias,
            i,
        );
    }
    lemma_standard(reading, planes, data, channel, epsilon, mean, inverse);
    lemma_over_equal(
        planes,
        channel,
        |i: int| s(i) * s(i),
        |i: int|
            standard(reading, data, mean, inverse, i) * standard(
                reading,
                data,
                mean,
                inverse,
                i,
            ),
    );
    assert forall|i: int|
        0 <= i < planes.len() && planes.channel_of(i) == channel implies #[trigger] r(i) * n == w
        * inverse * (n * g(i) - over_channel(planes, channel, g) - s(i) * over_channel(
        planes,
        channel,
        |i: int| g(i) * s(i),
    )) by {
        lemma_over_equal(planes, channel, |i: int| g(i) * s(i), gs);
        assert(reading.of(for_input[i]) == r(i));
    }
    lemma_moments(planes, channel, n, w * inverse, g, s, r, epsilon * (inverse * inverse));
    lemma_over_equal(planes, channel, |i: int| g(i) * s(i), gs);
    assert(over_channel(planes, channel, r) == 0 as real);
    lemma_over_equal(
        planes,
        channel,
        |i: int| r(i) * s(i),
        |i: int| reading.of(for_input[i]) * standard(reading, data, mean, inverse, i),
    );
}

/// The sums of what comes back through a normalization.
proof fn lemma_moments(
    planes: Planes,
    channel: int,
    n: real,
    c: real,
    g: spec_fn(int) -> real,
    s: spec_fn(int) -> real,
    r: spec_fn(int) -> real,
    part: real,
)
    requires
        planes.wf(),
        0 <= channel < planes.channels,
        n == planes.samples() as real,
        n > 0 as real,
        over_channel(planes, channel, s) == 0 as real,
        over_channel(planes, channel, |i: int| s(i) * s(i)) == n * (1 as real - part),
        forall|i: int|
            0 <= i < planes.len() && planes.channel_of(i) == channel ==> #[trigger] r(i) * n == c
                * (n * g(i) - over_channel(planes, channel, g) - s(i) * over_channel(
                planes,
                channel,
                |i: int| g(i) * s(i),
            )),
    ensures
        over_channel(planes, channel, r) == 0 as real,
        over_channel(planes, channel, |i: int| r(i) * s(i)) == c * over_channel(
            planes,
            channel,
            |i: int| g(i) * s(i),
        ) * part,
{
    let gs = |i: int| g(i) * s(i);
    let ss = |i: int| s(i) * s(i);
    let total = over_channel(planes, channel, g);
    let along = over_channel(planes, channel, gs);
    let ng = |i: int| n * g(i);
    let flat = |i: int| total;
    let along_s = |i: int| along * s(i);
    let first = |i: int| ng(i) - flat(i);
    let h = |i: int| first(i) - along_s(i);
    lemma_over_scale(planes, channel, n, g);
    lemma_over_constant(planes, channel, total);
    lemma_over_scale(planes, channel, along, s);
    lemma_over_add(planes, channel, ng, flat);
    lemma_over_add(planes, channel, first, along_s);
    assert(over_channel(planes, channel, h) == 0 as real) by {
        assert(n * total - total * n - along * 0 as real == 0 as real) by (nonlinear_arith);
    }
    lemma_over_scale(planes, channel, c, h);
    lemma_over_scale(planes, channel, n, r);
    assert forall|i: int|
        0 <= i < planes.len() && planes.channel_of(i) == channel implies n * #[trigger] r(i) == c
        * h(i) by {
        let (x, y) = (r(i), s(i));
        assert(n * x == x * n && y * along == along * y) by (nonlinear_arith);
    }
    lemma_over_equal(planes, channel, |i: int| n * r(i), |i: int| c * h(i));
    let all = over_channel(planes, channel, r);
    assert(c * 0 as real == 0 as real && n * 0 as real == 0 as real) by (nonlinear_arith);
    lemma_cancel(n, all, 0 as real);
    let rs = |i: int| r(i) * s(i);
    let ngs = |i: int| n * gs(i);
    let total_s = |i: int| total * s(i);
    let along_ss = |i: int| along * ss(i);
    let second = |i: int| ngs(i) - total_s(i);
    let k = |i: int| second(i) - along_ss(i);
    lemma_over_scale(planes, channel, n, gs);
    lemma_over_scale(planes, channel, total, s);
    lemma_over_scale(planes, channel, along, ss);
    lemma_over_add(planes, channel, ngs, total_s);
    lemma_over_add(planes, channel, second, along_ss);
    lemma_over_scale(planes, channel, c, k);
    lemma_over_scale(planes, channel, n, rs);
    assert forall|i: int|
        0 <= i < planes.len() && planes.channel_of(i) == channel implies n * #[trigger] rs(i) == c
        * k(i) by {
        let (x, y, z) = (r(i), s(i), g(i));
        assert(x * n == c * (n * z - total - y * along));
        assert(n * (x * y) == (x * n) * y) by (nonlinear_arith);
        let (a, b) = (n * z, y * along);
        let d = a - total - b;
        assert((c * d) * y == c * (d * y)) by (nonlinear_arith);
        assert(d * y == a * y - total * y - b * y) by (nonlinear_arith)
            requires
                d == a - total - b,
        ;
        assert((n * z) * y == n * (z * y)) by (nonlinear_arith);
        assert((y * along) * y == along * (y * y)) by (nonlinear_arith);
    }
    lemma_over_equal(planes, channel, |i: int| n * rs(i), |i: int| c * k(i));
    let weighted = over_channel(planes, channel, rs);
    let u = n * along;
    let rest = 1 as real - part;
    assert(along * (n * rest) == (n * along) * rest) by (nonlinear_arith);
    assert(u * rest == u - u * part) by (nonlinear_arith)
        requires
            rest == 1 as real - part,
    ;
    assert(total * 0 as real == 0 as real) by (nonlinear_arith);
    assert(over_channel(planes, channel, k) == u * part);
    assert(c * ((n * along) * part) == n * (c * along * part)) by (nonlinear_arith);
    lemma_cancel(n, weighted, c * along * part);
}

/// Where the output gradients of a channel are all the same, its input gradients are zero.
pub proof fn constant_gradients_vanish<T: Scalar>(
    reading: Reading<T>,
    planes: Planes,
    data: Seq<T>,
    weight: Seq<T>,
    statistics: Statistics<T>,
    gradient: Seq<T>,
    for_input: Seq<T>,
    for_weight: Seq<T>,
    for_bias: Seq<T>,
    epsilon: real,
    channel: int,
    k: real,
)
    requires
        reading.exact(),
        planes.wf(),
        planes.samples() > 0,
        data.len() == planes.len(),
        gradient.len() == planes.len(),
        0 <= channel < planes.channels,
        any_norm_gradients(
            planes,
            data,
            weight,
            statistics,
            true,
            gradient,
            for_input,
            for_weight,
            for_bias,
        ),
        measures(
            reading,
            planes,
            data,
            channel,
            epsilon,
            reading.of(statistics.mean[channel]),
            reading.of(statistics.inverse[channel]),
        ),
        forall|i: int|
            0 <= i < planes.len() && planes.channel_of(i) == channel ==> reading.of(
                #[trigger] gradient[i],
            ) == k,
    ensures
        forall|i: int|
            0 <= i < planes.len() && planes.channel_of(i) == channel ==> reading.of(
                #[trigger] for_input[i],
            ) == 0 as real,
{
    norm_gradients_leave_mean_and_scale(
        reading,
        planes,
        data,
        weight,
        statistics,
        gradient,
        for_input,
        for_weight,
        for_bias,
        epsilon,
        channel,
    );
    let n = planes.samples() as real;
    let (mean, inverse) = (
        reading.of(statistics.mean[channel]),
        reading.of(statistics.inverse[channel]),
    );
    let s = |i: int| standard(reading, data, mean, inverse, i);
    let g = |i: int| reading.of(gradient[i]);
    let gs = |i: int| reading.of(gradient[i]) * standard(reading, data, mean, inverse, i);
    lemma_standard(reading, planes, data, channel, epsilon, mean, inverse);
    lemma_over_constant(planes, channel, k);
    lemma_over_equal(planes, channel, g, |i: int| k);
    lemma_over_scale(planes, channel, k, s);
    assert forall|i: int|
        0 <= i < planes.len() && planes.channel_of(i) == channel implies #[trigger] gs(i) == k * s(
        i,
    ) by {
        assert(reading.of(gradient[i]) == k);
    }
    lemma_over_equal(planes, channel, gs, |i: int| k * s(i));
    assert(k * 0 as real == 0 as real) by (nonlinear_arith);
    assert(over_channel(planes, channel, gs) == 0 as real);
    let w = reading.of(weight[channel]) * inverse;
    assert forall|i: int| 0 <= i < planes.len() && planes.channel_of(i) == channel implies reading.of(
        #[trigger] for_input[i],
    ) == 0 as real by {
        assert(reading.of(gradient[i]) == k);
        let (x, y) = (reading.of(for_input[i]), s(i));
        assert(w * (n * k - k * n - y * 0 as real) == 0 as real && n * 0 as real == 0 as real && n
            * x == x * n) by (nonlinear_arith);
        lemma_cancel(n, x, 0 as real);
    }
}

/// Through a normalization by fixed statistics every gradient is scaled by the weight and the
/// inverse deviation of its channel, and by nothing else.
pub proof fn fixed_norms_scale_gradients<T: Scalar>(
    reading: Reading<T>,
    planes: Planes,
    data: Seq<T>,
    weight: Seq<T>,
    statistics: Statistics<T>,
    gradient: Seq<T>,
    for_input: Seq<T>,
    for_weight: Seq<T>,
    for_bias: Seq<T>,
    i: int,
)
    requires
        reading.exact(),
        data.len() == planes.len(),
        0 <= i < planes.len(),
        any_norm_gradients(
            planes,
            data,
            weight,
            statistics,
            false,
            gradient,
            for_input,
            for_weight,
            for_bias,
        ),
    ensures
        reading.of(for_input[i]) == reading.of(gradient[i]) * reading.of(
            weight[planes.channel_of(i)],
        ) * reading.of(statistics.inverse[planes.channel_of(i)]),
{
    let c = planes.channel_of(i);
    if norm_gradients(
        planes,
        data,
        weight,
        statistics,
        false,
        gradient,
        for_input,
        for_weight,
        for_bias,
    ) {
        let parts = lemma_host_parts(
            planes,
            data,
            weight,
            statistics,
            false,
            gradient,
            for_input,
            for_weight,
            for_bias,
        );
        assert(for_input[i] == for_input[i]);
    } else {
        assert(for_input[i] == for_input[i]);
    }
    assert(fixed_gradient(gradient[i], weight[c], statistics.inverse[c], for_input[i]));
}

} // verus!

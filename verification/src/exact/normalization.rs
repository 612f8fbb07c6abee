//! What batch normalization computes.

use crate::cuda::command::channels_measured;
use crate::cuda::norm_kernels::{
    centred_square, channel_at, channel_measured, channel_values, divided, inverse_root,
    squares_summed,
};
use crate::exact::channels::{
    lemma_channel_values, lemma_over_add, lemma_over_constant, lemma_over_equal, lemma_over_scale,
    over_channel,
};
use crate::exact::sums::{lemma_cancel, lemma_sigma_equal, lemma_sigma_positive, sigma};
use crate::exact::{power, Reading};
use crate::forward::{averaged, summed};
use crate::norm::{
    advanced, batch_normalized, blended, blended_variance, channel_mean, channel_statistics,
    channel_variance, deviation_squared, deviations_summed, inverse_deviation, measured,
    normalized, standardized, unbiased, Planes, State, Statistics,
};
use crate::scalar::{
    difference, inverted, one, product, quotient, raised, rooted, sum, zero, Scalar,
};
use vstd::prelude::*;

verus! {

/// The number of an element less the mean.
pub open spec fn centred<T: Scalar>(reading: Reading<T>, data: Seq<T>, mean: real, i: int) -> real {
    reading.of(data[i]) - mean
}

/// `mean` is the mean of a channel, and `inverse` one over the root of its variance and
/// epsilon.
pub open spec fn measures<T: Scalar>(
    reading: Reading<T>,
    planes: Planes,
    data: Seq<T>,
    channel: int,
    epsilon: real,
    mean: real,
    inverse: real,
) -> bool {
    let n = planes.samples() as real;
    &&& mean * n == over_channel(planes, channel, |i: int| reading.of(data[i]))
    &&& inverse > 0 as real
    &&& exists|variance: real|
        {
            &&& variance * n == over_channel(
                planes,
                channel,
                |i: int| centred(reading, data, mean, i) * centred(reading, data, mean, i),
            )
            &&& #[trigger] shifted_inverse(variance, epsilon, inverse)
        }
}

/// `inverse` is one over the root of `variance + epsilon`.
pub open spec fn shifted_inverse(variance: real, epsilon: real, inverse: real) -> bool {
    &&& inverse > 0 as real
    &&& inverse * inverse * (variance + epsilon) == 1 as real
}

/// A variance is not negative.
proof fn lemma_variance(
    planes: Planes,
    channel: int,
    f: spec_fn(int) -> real,
    n: real,
    variance: real,
)
    requires
        planes.wf(),
        n > 0 as real,
        variance * n == over_channel(planes, channel, |i: int| f(i) * f(i)),
    ensures
        variance >= 0 as real,
{
    let (m, s) = (planes.batch as nat, planes.spatial as nat);
    let g = |i: int| f(i) * f(i);
    let rows = |b: int| sigma(s, |k: int| g((b * planes.channels + channel) * planes.spatial + k));
    assert forall|b: int| 0 <= b < m implies #[trigger] rows(b) >= 0 as real by {
        let row = |k: int| g((b * planes.channels + channel) * planes.spatial + k);
        assert forall|k: int| 0 <= k < s implies #[trigger] row(k) >= 0 as real by {
            let x = f((b * planes.channels + channel) * planes.spatial + k);
            assert(x * x >= 0 as real) by (nonlinear_arith);
        }
        lemma_sigma_positive(s, row, 0);
    }
    lemma_sigma_positive(m, rows, 0);
    let total = over_channel(planes, channel, g);
    assert(variance >= 0 as real) by (nonlinear_arith)
        requires
            variance * n == total,
            total >= 0 as real,
            n > 0 as real,
    ;
}

/// A sum over rows of planes is one over the channel.
proof fn lemma_planes<T: Scalar>(
    reading: Reading<T>,
    planes: Planes,
    channel: int,
    f: spec_fn(int) -> real,
    sums: Seq<T>,
    samples: usize,
    r: T,
)
    requires
        reading.exact(),
        planes.wf(),
        samples > 0,
        sums.len() == planes.batch,
        forall|b: int|
            0 <= b < sums.len() ==> reading.of(#[trigger] sums[b]) == sigma(
                planes.spatial as nat,
                |k: int| f((b * planes.channels + channel) * planes.spatial + k),
            ),
        averaged(sums, samples, r),
    ensures
        reading.of(r) * samples as real == over_channel(planes, channel, f),
{
    reading.lemma_averaged(sums, samples, r);
    lemma_sigma_equal(
        planes.batch as nat,
        |i: int| reading.of(sums[i]),
        |b: int|
            sigma(
                planes.spatial as nat,
                |k: int| f((b * planes.channels + channel) * planes.spatial + k),
            ),
    );
}

/// One over a root.
proof fn lemma_inverse(variance: real, epsilon: real, root: real, inverse: real)
    requires
        variance + epsilon > 0 as real,
        root >= 0 as real,
        root * root == variance + epsilon,
        root != 0 as real ==> inverse * root == 1 as real,
    ensures
        shifted_inverse(variance, epsilon, inverse),
{
    assert(root > 0 as real) by (nonlinear_arith)
        requires
            root >= 0 as real,
            root * root > 0 as real,
    ;
    assert(inverse > 0 as real) by (nonlinear_arith)
        requires
            inverse * root == 1 as real,
            root > 0 as real,
    ;
    assert(inverse * inverse * (root * root) == 1 as real) by (nonlinear_arith)
        requires
            inverse * root == 1 as real,
    ;
}

/// The mean of a channel on the host.
proof fn lemma_channel_mean<T: Scalar>(
    reading: Reading<T>,
    planes: Planes,
    data: Seq<T>,
    channel: int,
    r: T,
)
    requires
        reading.exact(),
        planes.wf(),
        planes.samples() > 0,
        channel_mean(data, planes, channel, r),
    ensures
        reading.of(r) * planes.samples() as real == over_channel(
            planes,
            channel,
            |i: int| reading.of(data[i]),
        ),
{
    let f = |i: int| reading.of(data[i]);
    let sums = choose|sums: Seq<T>|
        {
            &&& sums.len() == planes.batch
            &&& forall|b: int|
                0 <= b < sums.len() ==> summed(
                    planes.plane(data, b, channel),
                    #[trigger] sums[b],
                )
            &&& #[trigger] averaged(sums, planes.samples() as usize, r)
        };
    assert forall|b: int| 0 <= b < sums.len() implies reading.of(#[trigger] sums[b]) == sigma(
        planes.spatial as nat,
        |k: int| f((b * planes.channels + channel) * planes.spatial + k),
    ) by {
        let plane = planes.plane(data, b, channel);
        reading.lemma_summed(plane, sums[b]);
        lemma_sigma_equal(
            planes.spatial as nat,
            |i: int| reading.of(plane[i]),
            |k: int| f((b * planes.channels + channel) * planes.spatial + k),
        );
    }
    lemma_planes(reading, planes, channel, f, sums, planes.samples() as usize, r);
}

/// The variance of a channel on the host.
proof fn lemma_channel_variance<T: Scalar>(
    reading: Reading<T>,
    planes: Planes,
    data: Seq<T>,
    channel: int,
    mean: T,
    r: T,
)
    requires
        reading.exact(),
        planes.wf(),
        planes.samples() > 0,
        channel_variance(data, planes, channel, mean, r),
    ensures
        reading.of(r) * planes.samples() as real == over_channel(
            planes,
            channel,
            |i: int|
                centred(reading, data, reading.of(mean), i) * centred(
                    reading,
                    data,
                    reading.of(mean),
                    i,
                ),
        ),
{
    let m = reading.of(mean);
    let f = |i: int| centred(reading, data, m, i) * centred(reading, data, m, i);
    let sums = choose|sums: Seq<T>|
        {
            &&& sums.len() == planes.batch
            &&& forall|b: int|
                0 <= b < sums.len() ==> deviations_summed(
                    planes.plane(data, b, channel),
                    mean,
                    #[trigger] sums[b],
                )
            &&& #[trigger] averaged(sums, planes.samples() as usize, r)
        };
    assert forall|b: int| 0 <= b < sums.len() implies reading.of(#[trigger] sums[b]) == sigma(
        planes.spatial as nat,
        |k: int| f((b * planes.channels + channel) * planes.spatial + k),
    ) by {
        let plane = planes.plane(data, b, channel);
        assert(deviations_summed(plane, mean, sums[b]));
        let squares = choose|squares: Seq<T>|
            {
                &&& squares.len() == plane.len()
                &&& forall|i: int|
                    0 <= i < plane.len() ==> deviation_squared(
                        plane[i],
                        mean,
                        #[trigger] squares[i],
                    )
                &&& #[trigger] summed(squares, sums[b])
            };
        reading.lemma_summed(squares, sums[b]);
        assert forall|k: int| 0 <= k < planes.spatial implies reading.of(#[trigger] squares[k])
            == f((b * planes.channels + channel) * planes.spatial + k) by {
            assert(deviation_squared(plane[k], mean, squares[k]));
            let d = choose|d: T|
                difference(plane[k], mean, d) && #[trigger] raised(d, 2, squares[k]);
            lemma_square(reading.of(d));
        }
        lemma_sigma_equal(
            planes.spatial as nat,
            |i: int| reading.of(squares[i]),
            |k: int| f((b * planes.channels + channel) * planes.spatial + k),
        );
    }
    lemma_planes(reading, planes, channel, f, sums, planes.samples() as usize, r);
}

/// The second power is the square.
pub proof fn lemma_square(x: real)
    ensures
        power(x, 2) == x * x,
{
    reveal_with_fuel(power, 3);
    assert(1 as real * x * x == x * x) by (nonlinear_arith);
}

/// The statistics of a training batch are the mean of each channel and one over the root of
/// its variance and epsilon.
pub proof fn statistics_measure_channels<T: Scalar>(
    reading: Reading<T>,
    planes: Planes,
    data: Seq<T>,
    epsilon: T,
    statistics: Statistics<T>,
    channel: int,
)
    requires
        reading.exact(),
        planes.wf(),
        planes.samples() > 0,
        reading.of(epsilon) > 0 as real,
        measured(data, planes, epsilon, statistics),
        0 <= channel < planes.channels,
    ensures
        measures(
            reading,
            planes,
            data,
            channel,
            reading.of(epsilon),
            reading.of(statistics.mean[channel]),
            reading.of(statistics.inverse[channel]),
        ),
{
    let mean = statistics.mean[channel];
    let inverse = statistics.inverse[channel];
    assert(channel_statistics(data, planes, channel, epsilon, mean, inverse));
    lemma_channel_mean(reading, planes, data, channel, mean);
    let variance = choose|variance: T|
        #[trigger] channel_variance(data, planes, channel, mean, variance) && inverse_deviation(
            variance,
            epsilon,
            inverse,
        );
    lemma_channel_variance(reading, planes, data, channel, mean, variance);
    let f = |i: int| centred(reading, data, reading.of(mean), i);
    lemma_over_equal(
        planes,
        channel,
        |i: int| f(i) * f(i),
        |i: int|
            centred(reading, data, reading.of(mean), i) * centred(
                reading,
                data,
                reading.of(mean),
                i,
            ),
    );
    lemma_variance(planes, channel, f, planes.samples() as real, reading.of(variance));
    let (shifted, deviation) = choose|shifted: T, deviation: T|
        {
            &&& sum(variance, epsilon, shifted)
            &&& #[trigger] rooted(shifted, deviation)
            &&& #[trigger] inverted(deviation, inverse)
        };
    lemma_inverse(
        reading.of(variance),
        reading.of(epsilon),
        reading.of(deviation),
        reading.of(inverse),
    );
}

/// A device measures the same, and the unbiased variance besides: the sum of the squared
/// deviations over one less than their number.
pub proof fn devices_measure_channels<T: Scalar>(
    reading: Reading<T>,
    planes: Planes,
    data: Seq<T>,
    epsilon: T,
    statistics: Statistics<T>,
    variances: Seq<T>,
    channel: int,
)
    requires
        reading.exact(),
        planes.wf(),
        planes.samples() > 1,
        reading.of(epsilon) > 0 as real,
        channels_measured(planes, data, epsilon, statistics, variances),
        0 <= channel < planes.channels,
    ensures
        measures(
            reading,
            planes,
            data,
            channel,
            reading.of(epsilon),
            reading.of(statistics.mean[channel]),
            reading.of(statistics.inverse[channel]),
        ),
        reading.of(variances[channel]) * (planes.samples() - 1) as real == over_channel(
            planes,
            channel,
            |i: int|
                centred(reading, data, reading.of(statistics.mean[channel]), i) * centred(
                    reading,
                    data,
                    reading.of(statistics.mean[channel]),
                    i,
                ),
        ),
{
    let mean = statistics.mean[channel];
    let inverse = statistics.inverse[channel];
    let m = reading.of(mean);
    let terms = channel_values(planes, channel, data);
    let samples = planes.samples() as usize;
    assert(channel_measured(terms, samples, epsilon, mean, inverse, variances[channel]));
    let x = |i: int| reading.of(data[i]);
    reading.lemma_averaged(terms, samples, mean);
    lemma_sigma_equal(
        samples as nat,
        |i: int| reading.of(terms[i]),
        |n: int| x(channel_at(planes, channel, n)),
    );
    lemma_channel_values(planes, channel, x);
    let (squared, variance) = choose|squared: T, variance: T|
        {
            &&& #[trigger] squares_summed(terms, mean, squared)
            &&& #[trigger] divided(squared, samples, variance)
            &&& inverse_root(variance, epsilon, inverse)
            &&& divided(squared, (samples - 1) as usize, variances[channel])
        };
    let f = |i: int| centred(reading, data, m, i);
    let g = |i: int| centred(reading, data, m, i) * centred(reading, data, m, i);
    let squares = choose|squares: Seq<T>|
        {
            &&& squares.len() == terms.len()
            &&& forall|i: int|
                0 <= i < terms.len() ==> centred_square(terms[i], mean, #[trigger] squares[i])
            &&& #[trigger] summed(squares, squared)
        };
    reading.lemma_summed(squares, squared);
    assert forall|n: int| 0 <= n < samples implies reading.of(#[trigger] squares[n]) == g(
        channel_at(planes, channel, n),
    ) by {
        assert(centred_square(terms[n], mean, squares[n]));
    }
    lemma_sigma_equal(
        samples as nat,
        |i: int| reading.of(squares[i]),
        |n: int| g(channel_at(planes, channel, n)),
    );
    lemma_channel_values(planes, channel, g);
    assert(reading.of(squared) == over_channel(planes, channel, g));
    lemma_over_equal(planes, channel, |i: int| f(i) * f(i), g);
    lemma_variance(planes, channel, f, samples as real, reading.of(variance));
    let (shifted, deviation, unit) = choose|shifted: T, deviation: T, unit: T|
        {
            &&& sum(variance, epsilon, shifted)
            &&& #[trigger] rooted(shifted, deviation)
            &&& one(unit)
            &&& #[trigger] quotient(unit, deviation, inverse)
        };
    lemma_inverse(
        reading.of(variance),
        reading.of(epsilon),
        reading.of(deviation),
        reading.of(inverse),
    );
}

/// The number of an element standardized: less the mean, times the inverse deviation.
pub open spec fn standard<T: Scalar>(
    reading: Reading<T>,
    data: Seq<T>,
    mean: real,
    inverse: real,
    i: int,
) -> real {
    (reading.of(data[i]) - mean) * inverse
}

/// The standardized elements of a measured channel add up to zero, and their squares to
/// their number, but for the part that epsilon takes.
pub proof fn lemma_standard<T: Scalar>(
    reading: Reading<T>,
    planes: Planes,
    data: Seq<T>,
    channel: int,
    epsilon: real,
    mean: real,
    inverse: real,
)
    requires
        planes.wf(),
        planes.samples() > 0,
        0 <= channel < planes.channels,
        measures(reading, planes, data, channel, epsilon, mean, inverse),
    ensures
        over_channel(planes, channel, |i: int| standard(reading, data, mean, inverse, i))
            == 0 as real,
        over_channel(
            planes,
            channel,
            |i: int|
                standard(reading, data, mean, inverse, i) * standard(
                    reading,
                    data,
                    mean,
                    inverse,
                    i,
                ),
        ) == planes.samples() as real * (1 as real - epsilon * (inverse * inverse)),
{
    let n = planes.samples() as real;
    let x = |i: int| reading.of(data[i]);
    let s = |i: int| standard(reading, data, mean, inverse, i);
    let d = |i: int| centred(reading, data, mean, i);
    lemma_over_constant(planes, channel, mean);
    let flat = |i: int| mean;
    lemma_over_add(planes, channel, x, flat);
    lemma_over_equal(planes, channel, |i: int| x(i) - flat(i), d);
    assert(over_channel(planes, channel, d) == 0 as real);
    lemma_over_scale(planes, channel, inverse, d);
    assert forall|i: int| #[trigger] s(i) == inverse * d(i) && s(i) * s(i) == inverse * inverse * (
    d(i) * d(i)) by {
        let y = d(i);
        assert(y * inverse == inverse * y && (y * inverse) * (y * inverse) == inverse * inverse * (
        y * y)) by (nonlinear_arith);
    }
    lemma_over_equal(planes, channel, s, |i: int| inverse * d(i));
    assert(inverse * 0 as real == 0 as real) by (nonlinear_arith);
    let variance = choose|variance: real|
        {
            &&& variance * n == over_channel(
                planes,
                channel,
                |i: int| centred(reading, data, mean, i) * centred(reading, data, mean, i),
            )
            &&& #[trigger] shifted_inverse(variance, epsilon, inverse)
        };
    let squares = |i: int| centred(reading, data, mean, i) * centred(reading, data, mean, i);
    let k = inverse * inverse;
    lemma_over_scale(planes, channel, k, squares);
    lemma_over_equal(planes, channel, |i: int| s(i) * s(i), |i: int| k * squares(i));
    lemma_over_equal(
        planes,
        channel,
        |i: int| s(i) * s(i),
        |i: int|
            standard(reading, data, mean, inverse, i) * standard(
                reading,
                data,
                mean,
                inverse,
                i,
            ),
    );
    let (a, b) = (k * variance, k * epsilon);
    assert(k * (variance + epsilon) == k * variance + k * epsilon) by (nonlinear_arith);
    assert(a == 1 as real - b);
    assert(n * a == n * 1 as real - n * b) by (nonlinear_arith)
        requires
            a == 1 as real - b,
    ;
    assert(k * (variance * n) == n * (k * variance)) by (nonlinear_arith);
    let q = epsilon * k;
    assert(k * epsilon == epsilon * k) by (nonlinear_arith);
    assert(n * (1 as real - q) == n * 1 as real - n * q) by (nonlinear_arith);
}

/// A normalization by given statistics: every element less the mean of its channel, over the
/// deviation, scaled by the channel's weight and moved by its bias.  Over a measured channel
/// the outputs add up to the bias times their number, and their squared distances from it to
/// the squared weight times their number, but for the part that epsilon takes.
pub proof fn normalizations_standardize<T: Scalar>(
    reading: Reading<T>,
    planes: Planes,
    data: Seq<T>,
    weight: Seq<T>,
    bias: Seq<T>,
    statistics: Statistics<T>,
    out: Seq<T>,
    channel: int,
    epsilon: real,
)
    requires
        reading.exact(),
        planes.wf(),
        planes.samples() > 0,
        0 <= channel < planes.channels,
        data.len() == planes.len(),
        batch_normalized(data, planes, weight, bias, statistics, out),
    ensures
        forall|i: int|
            0 <= i < planes.len() && planes.channel_of(i) == channel ==> reading.of(
                #[trigger] out[i],
            ) == reading.of(weight[channel]) * standard(
                reading,
                data,
                reading.of(statistics.mean[channel]),
                reading.of(statistics.inverse[channel]),
                i,
            ) + reading.of(bias[channel]),
        measures(
            reading,
            planes,
            data,
            channel,
            epsilon,
            reading.of(statistics.mean[channel]),
            reading.of(statistics.inverse[channel]),
        ) ==> {
            let n = planes.samples() as real;
            let (w, b) = (reading.of(weight[channel]), reading.of(bias[channel]));
            let inverse = reading.of(statistics.inverse[channel]);
            &&& over_channel(planes, channel, |i: int| reading.of(out[i])) == b * n
            &&& over_channel(
                planes,
                channel,
                |i: int| (reading.of(out[i]) - b) * (reading.of(out[i]) - b),
            ) == w * w * (n * (1 as real - epsilon * (inverse * inverse)))
        },
{
    let (mean, inverse) = (
        reading.of(statistics.mean[channel]),
        reading.of(statistics.inverse[channel]),
    );
    let (w, b) = (reading.of(weight[channel]), reading.of(bias[channel]));
    let s = |i: int| standard(reading, data, mean, inverse, i);
    let y = |i: int| reading.of(out[i]);
    assert forall|i: int| 0 <= i < planes.len() && planes.channel_of(i) == channel implies y(i) == w
        * s(i) + b && reading.of(#[trigger] out[i]) == y(i) by {
        assert(normalized(
            data[i],
            statistics.mean[channel],
            statistics.inverse[channel],
            weight[channel],
            bias[channel],
            out[i],
        ));
        let (a, c) = choose|n: T, s: T|
            {
                &&& standardized(data[i], statistics.mean[channel], statistics.inverse[channel], n)
                &&& #[trigger] product(n, weight[channel], s)
                &&& #[trigger] sum(s, bias[channel], out[i])
            };
        let x = reading.of(a);
        assert(x * w == w * x) by (nonlinear_arith);
    }
    if measures(reading, planes, data, channel, epsilon, mean, inverse) {
        lemma_standard(reading, planes, data, channel, epsilon, mean, inverse);
        let n = planes.samples() as real;
        let flat = |i: int| b;
        lemma_over_constant(planes, channel, b);
        lemma_over_scale(planes, channel, w, s);
        let ws = |i: int| w * s(i);
        lemma_over_add(planes, channel, ws, flat);
        assert forall|i: int|
            0 <= i < planes.len() && planes.channel_of(i) == channel implies #[trigger] y(i) == ws(
            i,
        ) + flat(i) && (y(i) - b) * (y(i) - b) == w * w * (s(i) * s(i)) by {
            assert(reading.of(out[i]) == y(i));
            let z = s(i);
            assert((w * z) * (w * z) == w * w * (z * z)) by (nonlinear_arith);
        }
        lemma_over_equal(planes, channel, y, |i: int| ws(i) + flat(i));
        lemma_over_equal(planes, channel, y, |i: int| reading.of(out[i]));
        assert(w * 0 as real == 0 as real) by (nonlinear_arith);
        let ss = |i: int| s(i) * s(i);
        lemma_over_scale(planes, channel, w * w, ss);
        let squares = |i: int| (y(i) - b) * (y(i) - b);
        assert forall|i: int|
            0 <= i < planes.len() && planes.channel_of(i)
                == channel implies #[trigger] squares(i) == w * w * ss(i) by {
            assert(y(i) == ws(i) + flat(i));
        }
        lemma_over_equal(planes, channel, squares, |i: int| w * w * ss(i));
        lemma_over_equal(
            planes,
            channel,
            squares,
            |i: int| (reading.of(out[i]) - b) * (reading.of(out[i]) - b),
        );
        lemma_over_equal(
            planes,
            channel,
            ss,
            |i: int|
                standard(reading, data, mean, inverse, i) * standard(
                    reading,
                    data,
                    mean,
                    inverse,
                    i,
                ),
        );
    }
}

/// The running statistics after a training batch lie between those before it and those of the
/// batch, at the momentum: means by the mean of the batch, variances by its unbiased variance,
/// the sum of the squared deviations over one less than their number.  This is said of
/// channels whose elements are not all the same.
pub proof fn running_statistics_move_by_momentum<T: Scalar>(
    reading: Reading<T>,
    planes: Planes,
    data: Seq<T>,
    momentum: T,
    old: State<T>,
    new: State<T>,
    channel: int,
) -> (mean: real)
    requires
        reading.exact(),
        planes.wf(),
        planes.samples() > 1,
        0 <= channel < planes.channels,
        old.mean.len() == planes.channels,
        old.variance.len() == planes.channels,
        advanced(data, planes, momentum, old, new),
    ensures
        mean * planes.samples() as real == over_channel(
            planes,
            channel,
            |i: int| reading.of(data[i]),
        ),
        reading.of(new.mean[channel]) == (1 as real - reading.of(momentum)) * reading.of(
            old.mean[channel],
        ) + reading.of(momentum) * mean,
        ({
            let squares = over_channel(
                planes,
                channel,
                |i: int| centred(reading, data, mean, i) * centred(reading, data, mean, i),
            );
            squares > 0 as real ==> reading.of(new.variance[channel]) * (planes.samples()
                - 1) as real == (1 as real - reading.of(momentum)) * reading.of(
                old.variance[channel],
            ) * (planes.samples() - 1) as real + reading.of(momentum) * squares
        }),
{
    let (base, statistics, correction) = choose|base: T, statistics: Statistics<T>, correction: T|
        {
            &&& zero(base)
            &&& #[trigger] measured(data, planes, base, statistics)
            &&& #[trigger] unbiased(planes.samples() as usize, correction)
            &&& new.mean.len() == old.mean.len()
            &&& new.variance.len() == old.variance.len()
            &&& forall|c: int|
                0 <= c < new.mean.len() ==> blended(
                    momentum,
                    old.mean[c],
                    statistics.mean[c],
                    #[trigger] new.mean[c],
                )
            &&& forall|c: int|
                0 <= c < new.variance.len() ==> blended_variance(
                    momentum,
                    old.variance[c],
                    statistics.inverse[c],
                    correction,
                    #[trigger] new.variance[c],
                )
        };
    let mean = reading.of(statistics.mean[channel]);
    let inverse = statistics.inverse[channel];
    assert(channel_statistics(
        data,
        planes,
        channel,
        base,
        statistics.mean[channel],
        inverse,
    ));
    lemma_channel_mean(reading, planes, data, channel, statistics.mean[channel]);
    assert(blended(
        momentum,
        old.mean[channel],
        statistics.mean[channel],
        new.mean[channel],
    ));
    let squares = over_channel(
        planes,
        channel,
        |i: int| centred(reading, data, mean, i) * centred(reading, data, mean, i),
    );
    if squares > 0 as real {
        let variance = choose|variance: T|
            #[trigger] channel_variance(
                data,
                planes,
                channel,
                statistics.mean[channel],
                variance,
            ) && inverse_deviation(variance, base, inverse);
        lemma_channel_variance(
            reading,
            planes,
            data,
            channel,
            statistics.mean[channel],
            variance,
        );
        let (v, n) = (reading.of(variance), planes.samples() as real);
        assert(v > 0 as real) by (nonlinear_arith)
            requires
                v * n == squares,
                squares > 0 as real,
                n > 0 as real,
        ;
        let (shifted, deviation) = choose|shifted: T, deviation: T|
            {
                &&& sum(variance, base, shifted)
                &&& #[trigger] rooted(shifted, deviation)
                &&& #[trigger] inverted(deviation, inverse)
            };
        lemma_inverse(v, 0 as real, reading.of(deviation), reading.of(inverse));
        assert(blended_variance(
            momentum,
            old.variance[channel],
            inverse,
            correction,
            new.variance[channel],
        ));
        let (unit, keep, kept, biased, scaled, taken) = choose|
            unit: T,
            keep: T,
            kept: T,
            biased: T,
            scaled: T,
            taken: T,
        |
            {
                &&& one(unit)
                &&& #[trigger] difference(unit, momentum, keep)
                &&& #[trigger] product(keep, old.variance[channel], kept)
                &&& #[trigger] raised(inverse, (-2) as i32, biased)
                &&& #[trigger] product(momentum, biased, scaled)
                &&& #[trigger] product(scaled, correction, taken)
                &&& #[trigger] sum(kept, taken, new.variance[channel])
            };
        lemma_square(reading.of(inverse));
        let (i, b) = (reading.of(inverse), reading.of(biased));
        assert(b * (i * i) == 1 as real);
        let q = i * i;
        assert(q * b == b * q) by (nonlinear_arith);
        assert(q != 0 as real) by (nonlinear_arith)
            requires
                b * q == 1 as real,
        ;
        assert(v + 0 as real == v);
        lemma_cancel(q, b, v);
        let below = (planes.samples() - 1) as real;
        let k = reading.of(correction);
        assert(k * below == n);
        let m = reading.of(momentum);
        let (o, r) = (reading.of(kept), reading.of(new.variance[channel]));
        let x = m * b * k;
        assert((o + x) * below == o * below + x * below) by (nonlinear_arith);
        assert((m * b * k) * below == m * (b * (k * below))) by (nonlinear_arith);
    }
    mean
}

/// A device moves both running statistics in the same way.
pub proof fn blending_moves_by_momentum<T: Scalar>(
    reading: Reading<T>,
    momentum: T,
    old: T,
    new: T,
    r: T,
)
    requires
        reading.exact(),
        blended(momentum, old, new, r),
    ensures
        reading.of(r) == (1 as real - reading.of(momentum)) * reading.of(old) + reading.of(momentum)
            * reading.of(new),
{
}

/// Evaluation normalizes by the running mean and one over the root of the running variance
/// and epsilon, on the host and on a device.
pub proof fn running_statistics_are_recalled<T: Scalar>(
    reading: Reading<T>,
    variance: T,
    epsilon: T,
    r: T,
)
    requires
        reading.exact(),
        inverse_deviation(variance, epsilon, r) || inverse_root(variance, epsilon, r),
        reading.of(variance) + reading.of(epsilon) > 0 as real,
    ensures
        shifted_inverse(reading.of(variance), reading.of(epsilon), reading.of(r)),
{
    let deviation = if inverse_deviation(variance, epsilon, r) {
        let (shifted, deviation) = choose|shifted: T, deviation: T|
            {
                &&& sum(variance, epsilon, shifted)
                &&& #[trigger] rooted(shifted, deviation)
                &&& #[trigger] inverted(deviation, r)
            };
        deviation
    } else {
        let (shifted, deviation, unit) = choose|shifted: T, deviation: T, unit: T|
            {
                &&& sum(variance, epsilon, shifted)
                &&& #[trigger] rooted(shifted, deviation)
                &&& one(unit)
                &&& #[trigger] quotient(unit, deviation, r)
            };
        deviation
    };
    lemma_inverse(
        reading.of(variance),
        reading.of(epsilon),
        reading.of(deviation),
        reading.of(r),
    );
}

} // verus!

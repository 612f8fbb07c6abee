//! Batch normalization of NCHW data.

use crate::error::{Error, Failure, Result};
use crate::forward::{averaged, summed};
use crate::index::{lemma_flat, lemma_unflat};
use crate::scalar::{
    added, counted, difference, inverted, lemma_added_push, one, product, quotient, raised,
    rooted, sum, zero, Scalar,
};
use vstd::prelude::*;

verus! {

/// The extents of NCHW data, its planes flattened.
#[derive(Clone, Copy)]
pub struct Planes {
    pub batch: usize,
    pub channels: usize,
    pub spatial: usize,
}

impl Planes {
    /// The number of elements.
    pub open spec fn len(self) -> int {
        self.batch * self.channels * self.spatial
    }

    /// The number of elements that each channel has.
    pub open spec fn samples(self) -> int {
        self.batch * self.spatial
    }

    /// Every count is in range.
    pub open spec fn wf(self) -> bool {
        &&& self.len() <= usize::MAX
        &&& self.samples() <= usize::MAX
    }

    /// The elements of one channel of one sample.
    pub open spec fn plane<T>(self, data: Seq<T>, sample: int, channel: int) -> Seq<T> {
        Seq::new(
            self.spatial as nat,
            |k: int| data[(sample * self.channels + channel) * self.spatial + k],
        )
    }

    /// The channel that a position belongs to.
    pub open spec fn channel_of(self, at: int) -> int {
        at / self.spatial as int % self.channels as int
    }

    pub proof fn lemma_plane(self, sample: int, channel: int, k: int)
        requires
            self.wf(),
            0 <= sample < self.batch,
            0 <= channel < self.channels,
            0 <= k < self.spatial,
        ensures
            0 <= sample * self.channels,
            sample * self.channels + channel <= usize::MAX,
            0 <= (sample * self.channels + channel) * self.spatial,
            (sample * self.channels + channel) * self.spatial + k < self.len(),
    {
        lemma_flat(sample, self.batch as int, channel, self.channels as int);
        lemma_flat(
            sample * self.channels + channel,
            self.batch * self.channels,
            k,
            self.spatial as int,
        );
    }

    pub proof fn lemma_channel(self, at: int)
        requires
            self.wf(),
            0 <= at < self.len(),
        ensures
            self.spatial > 0,
            self.channels > 0,
            0 <= self.channel_of(at) < self.channels,
    {
        assert(0 <= self.batch * self.channels) by (nonlinear_arith)
            requires
                0 <= self.batch,
                0 <= self.channels,
        ;
        lemma_unflat(at, self.batch * self.channels, self.spatial as int);
        lemma_unflat(at / self.spatial as int, self.batch as int, self.channels as int);
    }
}

/// The running statistics of a batch normalization.
pub struct BatchNormState<T> {
    pub running_mean: Vec<T>,
    pub running_variance: Vec<T>,
}

/// The statistics that a batch normalization applies.
pub struct BatchNormStatistics<T> {
    pub mean: Vec<T>,
    pub inverse_standard_deviation: Vec<T>,
}

/// The running statistics as sequences.
pub struct State<T> {
    pub mean: Seq<T>,
    pub variance: Seq<T>,
}

/// The applied statistics as sequences.
pub struct Statistics<T> {
    pub mean: Seq<T>,
    pub inverse: Seq<T>,
}

impl<T> View for BatchNormState<T> {
    type V = State<T>;

    open spec fn view(&self) -> State<T> {
        State { mean: self.running_mean@, variance: self.running_variance@ }
    }
}

impl<T> View for BatchNormStatistics<T> {
    type V = Statistics<T>;

    open spec fn view(&self) -> Statistics<T> {
        Statistics { mean: self.mean@, inverse: self.inverse_standard_deviation@ }
    }
}

/// `r` is the square of `value` less `mean`.
pub open spec fn deviation_squared<T: Scalar>(value: T, mean: T, r: T) -> bool {
    exists|d: T| difference(value, mean, d) && #[trigger] raised(d, 2, r)
}

/// `r` is the sum of the squared deviations of the terms from `mean`.
pub open spec fn deviations_summed<T: Scalar>(terms: Seq<T>, mean: T, r: T) -> bool {
    exists|squares: Seq<T>|
        {
            &&& squares.len() == terms.len()
            &&& forall|i: int|
                0 <= i < terms.len() ==> deviation_squared(terms[i], mean, #[trigger] squares[i])
            &&& #[trigger] summed(squares, r)
        }
}

/// `r` is the mean of a channel: the sums of its planes, added up and divided by the
/// number of samples.
pub open spec fn channel_mean<T: Scalar>(data: Seq<T>, planes: Planes, channel: int, r: T) -> bool {
    exists|sums: Seq<T>|
        {
            &&& sums.len() == planes.batch
            &&& forall|b: int|
                0 <= b < sums.len() ==> summed(
                    planes.plane(data, b, channel),
                    #[trigger] sums[b],
                )
            &&& #[trigger] averaged(sums, planes.samples() as usize, r)
        }
}

/// `r` is the variance of a channel around `mean`.
pub open spec fn channel_variance<T: Scalar>(
    data: Seq<T>,
    planes: Planes,
    channel: int,
    mean: T,
    r: T,
) -> bool {
    exists|sums: Seq<T>|
        {
            &&& sums.len() == planes.batch
            &&& forall|b: int|
                0 <= b < sums.len() ==> deviations_summed(
                    planes.plane(data, b, channel),
                    mean,
                    #[trigger] sums[b],
                )
            &&& #[trigger] averaged(sums, planes.samples() as usize, r)
        }
}

/// `r` is the reciprocal of the square root of `variance + epsilon`.
pub open spec fn inverse_deviation<T: Scalar>(variance: T, epsilon: T, r: T) -> bool {
    exists|shifted: T, deviation: T|
        {
            &&& sum(variance, epsilon, shifted)
            &&& #[trigger] rooted(shifted, deviation)
            &&& #[trigger] inverted(deviation, r)
        }
}

/// `mean` and `inverse` are the statistics of one channel of the data.
pub open spec fn channel_statistics<T: Scalar>(
    data: Seq<T>,
    planes: Planes,
    channel: int,
    epsilon: T,
    mean: T,
    inverse: T,
) -> bool {
    &&& channel_mean(data, planes, channel, mean)
    &&& exists|variance: T|
        #[trigger] channel_variance(data, planes, channel, mean, variance) && inverse_deviation(
            variance,
            epsilon,
            inverse,
        )
}

/// The statistics are those of the data itself.
pub open spec fn measured<T: Scalar>(
    data: Seq<T>,
    planes: Planes,
    epsilon: T,
    statistics: Statistics<T>,
) -> bool {
    &&& statistics.mean.len() == planes.channels
    &&& statistics.inverse.len() == planes.channels
    &&& forall|c: int|
        0 <= c < planes.channels ==> channel_statistics(
            data,
            planes,
            c,
            epsilon,
            #[trigger] statistics.mean[c],
            statistics.inverse[c],
        )
}

/// The failure of measuring channels that have at most one element.
pub open spec fn too_few_samples() -> Failure {
    Failure::Execution("BatchNorm training requires more than one value per channel"@)
}

/// The sum of one plane.
fn plane_sum<T: Scalar>(data: &Vec<T>, planes: Planes, sample: usize, channel: usize) -> (r: T)
    requires
        planes.wf(),
        data.len() == planes.len(),
        sample < planes.batch,
        channel < planes.channels,
    ensures
        summed(planes.plane(data@, sample as int, channel as int), r),
{
    let ghost terms = planes.plane(data@, sample as int, channel as int);
    let start = T::of_count(0);
    let mut total = start;
    let mut k: usize = 0;
    assert(terms.take(0) =~= Seq::empty());
    while k < planes.spatial
        invariant
            planes.wf(),
            data.len() == planes.len(),
            sample < planes.batch,
            channel < planes.channels,
            terms == planes.plane(data@, sample as int, channel as int),
            k <= planes.spatial,
            zero(start),
            added(start, terms.take(k as int), total),
        decreases planes.spatial - k,
    {
        proof {
            planes.lemma_plane(sample as int, channel as int, k as int);
        }
        let value = data[(sample * planes.channels + channel) * planes.spatial + k];
        let next = total.plus(value);
        proof {
            lemma_added_push(start, terms.take(k as int), total, value, next);
            assert(terms.take(k + 1) =~= terms.take(k as int).push(value));
        }
        total = next;
        k = k + 1;
    }
    assert(terms.take(k as int) =~= terms);
    assert(zero(start) && added(start, terms, total));
    total
}

/// The sum of the squared deviations of one plane from `mean`.
fn plane_deviations<T: Scalar>(
    data: &Vec<T>,
    planes: Planes,
    sample: usize,
    channel: usize,
    mean: T,
) -> (r: T)
    requires
        planes.wf(),
        data.len() == planes.len(),
        sample < planes.batch,
        channel < planes.channels,
    ensures
        deviations_summed(planes.plane(data@, sample as int, channel as int), mean, r),
{
    let ghost terms = planes.plane(data@, sample as int, channel as int);
    let ghost mut squares: Seq<T> = Seq::empty();
    let start = T::of_count(0);
    let mut total = start;
    let mut k: usize = 0;
    while k < planes.spatial
        invariant
            planes.wf(),
            data.len() == planes.len(),
            sample < planes.batch,
            channel < planes.channels,
            terms == planes.plane(data@, sample as int, channel as int),
            k <= planes.spatial,
            squares.len() == k,
            forall|i: int|
                0 <= i < k ==> deviation_squared(terms[i], mean, #[trigger] squares[i]),
            zero(start),
            added(start, squares, total),
        decreases planes.spatial - k,
    {
        proof {
            planes.lemma_plane(sample as int, channel as int, k as int);
        }
        let value = data[(sample * planes.channels + channel) * planes.spatial + k];
        let d = value.minus(mean);
        let square = d.power(2);
        assert(difference(value, mean, d) && raised(d, 2, square));
        let next = total.plus(square);
        proof {
            lemma_added_push(start, squares, total, square, next);
            squares = squares.push(square);
        }
        total = next;
        k = k + 1;
    }
    assert(zero(start) && added(start, squares, total));
    assert(summed(squares, total));
    total
}

/// The mean and the inverse standard deviation of one channel.
fn measure_channel<T: Scalar>(
    data: &Vec<T>,
    planes: Planes,
    channel: usize,
    denominator: T,
    epsilon: T,
) -> (r: (T, T))
    requires
        planes.wf(),
        data.len() == planes.len(),
        channel < planes.channels,
        counted(planes.samples() as usize, denominator),
    ensures
        channel_statistics(data@, planes, channel as int, epsilon, r.0, r.1),
{
    let start = T::of_count(0);
    let mut total = start;
    let ghost mut sums: Seq<T> = Seq::empty();
    let mut b: usize = 0;
    while b < planes.batch
        invariant
            planes.wf(),
            data.len() == planes.len(),
            channel < planes.channels,
            b <= planes.batch,
            sums.len() == b,
            forall|i: int|
                0 <= i < b ==> summed(planes.plane(data@, i, channel as int), #[trigger] sums[i]),
            zero(start),
            added(start, sums, total),
        decreases planes.batch - b,
    {
        let part = plane_sum(data, planes, b, channel);
        let next = total.plus(part);
        proof {
            lemma_added_push(start, sums, total, part, next);
            sums = sums.push(part);
        }
        total = next;
        b = b + 1;
    }
    let mean = total.over(denominator);
    assert(zero(start) && added(start, sums, total) && counted(
        planes.samples() as usize,
        denominator,
    ) && quotient(total, denominator, mean));
    assert(averaged(sums, planes.samples() as usize, mean));
    let start = T::of_count(0);
    let mut total = start;
    let ghost mut sums: Seq<T> = Seq::empty();
    let mut b: usize = 0;
    while b < planes.batch
        invariant
            planes.wf(),
            data.len() == planes.len(),
            channel < planes.channels,
            b <= planes.batch,
            sums.len() == b,
            forall|i: int|
                0 <= i < b ==> deviations_summed(
                    planes.plane(data@, i, channel as int),
                    mean,
                    #[trigger] sums[i],
                ),
            zero(start),
            added(start, sums, total),
        decreases planes.batch - b,
    {
        let part = plane_deviations(data, planes, b, channel, mean);
        let next = total.plus(part);
        proof {
            lemma_added_push(start, sums, total, part, next);
            sums = sums.push(part);
        }
        total = next;
        b = b + 1;
    }
    let variance = total.over(denominator);
    assert(zero(start) && added(start, sums, total) && counted(
        planes.samples() as usize,
        denominator,
    ) && quotient(total, denominator, variance));
    assert(averaged(sums, planes.samples() as usize, variance));
    assert(channel_variance(data@, planes, channel as int, mean, variance));
    let inverse = deviation_inverse(variance, epsilon);
    (mean, inverse)
}

/// The reciprocal of the square root of `variance + epsilon`.
fn deviation_inverse<T: Scalar>(variance: T, epsilon: T) -> (r: T)
    ensures
        inverse_deviation(variance, epsilon, r),
{
    let shifted = variance.plus(epsilon);
    let deviation = shifted.root();
    let r = deviation.reciprocal();
    assert(sum(variance, epsilon, shifted) && rooted(shifted, deviation) && inverted(
        deviation,
        r,
    ));
    r
}

/// The statistics of the data, channel by channel.
pub fn batch_statistics<T: Scalar>(data: &Vec<T>, planes: Planes, epsilon: T) -> (r: Result<
    BatchNormStatistics<T>,
>)
    requires
        planes.wf(),
        data.len() == planes.len(),
    ensures
        match r {
            Ok(statistics) => planes.samples() > 1 && measured(
                data@,
                planes,
                epsilon,
                statistics@,
            ),
            Err(error) => planes.samples() <= 1 && error@ == too_few_samples(),
        },
{
    let samples: usize = planes.batch * planes.spatial;
    if samples <= 1 {
        return Err(
            Error::execution("BatchNorm training requires more than one value per channel"),
        );
    }
    let denominator = T::of_count(samples);
    let mut mean: Vec<T> = Vec::with_capacity(planes.channels);
    let mut inverse: Vec<T> = Vec::with_capacity(planes.channels);
    let mut c: usize = 0;
    while c < planes.channels
        invariant
            planes.wf(),
            data.len() == planes.len(),
            counted(planes.samples() as usize, denominator),
            c <= planes.channels,
            mean.len() == c,
            inverse.len() == c,
            forall|i: int|
                0 <= i < c ==> channel_statistics(
                    data@,
                    planes,
                    i,
                    epsilon,
                    #[trigger] mean@[i],
                    inverse@[i],
                ),
        decreases planes.channels - c,
    {
        let (m, s) = measure_channel(data, planes, c, denominator, epsilon);
        mean.push(m);
        inverse.push(s);
        c = c + 1;
    }
    Ok(BatchNormStatistics { mean, inverse_standard_deviation: inverse })
}

/// `r` moves `old` towards `new` by the fraction `momentum`.
pub open spec fn blended<T: Scalar>(momentum: T, old: T, new: T, r: T) -> bool {
    exists|unit: T, keep: T, kept: T, taken: T|
        {
            &&& one(unit)
            &&& #[trigger] difference(unit, momentum, keep)
            &&& #[trigger] product(keep, old, kept)
            &&& #[trigger] product(momentum, new, taken)
            &&& #[trigger] sum(kept, taken, r)
        }
}

/// `r` moves `old` towards the unbiased variance behind `inverse` by the fraction
/// `momentum`.
pub open spec fn blended_variance<T: Scalar>(
    momentum: T,
    old: T,
    inverse: T,
    correction: T,
    r: T,
) -> bool {
    exists|unit: T, keep: T, kept: T, biased: T, scaled: T, taken: T|
        {
            &&& one(unit)
            &&& #[trigger] difference(unit, momentum, keep)
            &&& #[trigger] product(keep, old, kept)
            &&& #[trigger] raised(inverse, (-2) as i32, biased)
            &&& #[trigger] product(momentum, biased, scaled)
            &&& #[trigger] product(scaled, correction, taken)
            &&& #[trigger] sum(kept, taken, r)
        }
}

/// `r` is `n / (n - 1)`.
pub open spec fn unbiased<T: Scalar>(n: usize, r: T) -> bool {
    exists|a: T, b: T|
        counted(n, a) && counted((n - 1) as usize, b) && #[trigger] quotient(a, b, r)
}

/// The running statistics after one training batch.
pub open spec fn advanced<T: Scalar>(
    data: Seq<T>,
    planes: Planes,
    momentum: T,
    old: State<T>,
    new: State<T>,
) -> bool {
    exists|base: T, statistics: Statistics<T>, correction: T|
        {
            &&& zero(base)
            &&& #[trigger] measured(data, planes, base, statistics)
            &&& #[trigger] unbiased(planes.samples() as usize, correction)
            &&& new.mean.len() == old.mean.len()
            &&& new.variance.len() == old.variance.len()
            &&& forall|c: int|
                0 <= c < new.mean.len() ==> blended(
                    momentum,
                    old.mean[c],
                    statistics.mean[c],
                    #[trigger] new.mean[c],
                )
            &&& forall|c: int|
                0 <= c < new.variance.len() ==> blended_variance(
                    momentum,
                    old.variance[c],
                    statistics.inverse[c],
                    correction,
                    #[trigger] new.variance[c],
                )
        }
}

/// Moves the running statistics towards those of a training batch.
pub fn update_running_statistics<T: Scalar>(
    data: &Vec<T>,
    planes: Planes,
    state: &BatchNormState<T>,
    momentum: T,
) -> (r: Result<BatchNormState<T>>)
    requires
        planes.wf(),
        data.len() == planes.len(),
        state.running_mean.len() == planes.channels,
        state.running_variance.len() == planes.channels,
    ensures
        match r {
            Ok(new) => planes.samples() > 1 && advanced(data@, planes, momentum, state@, new@),
            Err(error) => planes.samples() <= 1 && error@ == too_few_samples(),
        },
{
    let base = T::of_count(0);
    let statistics = batch_statistics(data, planes, base)?;
    let samples: usize = planes.batch * planes.spatial;
    let upper = T::of_count(samples);
    let lower = T::of_count(samples - 1);
    let correction = upper.over(lower);
    assert(counted(samples, upper) && counted((samples - 1) as usize, lower) && quotient(
        upper,
        lower,
        correction,
    ));
    let mut mean: Vec<T> = Vec::with_capacity(planes.channels);
    let mut variance: Vec<T> = Vec::with_capacity(planes.channels);
    let mut c: usize = 0;
    while c < planes.channels
        invariant
            state.running_mean.len() == planes.channels,
            state.running_variance.len() == planes.channels,
            statistics.mean.len() == planes.channels,
            statistics.inverse_standard_deviation.len() == planes.channels,
            c <= planes.channels,
            mean.len() == c,
            variance.len() == c,
            forall|i: int|
                0 <= i < c ==> blended(
                    momentum,
                    state@.mean[i],
                    statistics@.mean[i],
                    #[trigger] mean@[i],
                ),
            forall|i: int|
                0 <= i < c ==> blended_variance(
                    momentum,
                    state@.variance[i],
                    statistics@.inverse[i],
                    correction,
                    #[trigger] variance@[i],
                ),
        decreases planes.channels - c,
    {
        let unit = T::of_count(1);
        let keep = unit.minus(momentum);
        let old_mean = state.running_mean[c];
        let new_mean = statistics.mean[c];
        let kept = keep.times(old_mean);
        let taken = momentum.times(new_mean);
        let next = kept.plus(taken);
        assert(one(unit) && difference(unit, momentum, keep) && product(keep, old_mean, kept)
            && product(momentum, new_mean, taken) && sum(kept, taken, next));
        assert(blended(momentum, old_mean, new_mean, next));
        mean.push(next);
        let inverse = statistics.inverse_standard_deviation[c];
        let old_variance = state.running_variance[c];
        let biased = inverse.power(-2);
        let kept = keep.times(old_variance);
        let scaled = momentum.times(biased);
        let taken = scaled.times(correction);
        let next = kept.plus(taken);
        assert(one(unit) && difference(unit, momentum, keep) && product(keep, old_variance, kept)
            && raised(inverse, (-2) as i32, biased) && product(momentum, biased, scaled) && product(
            scaled,
            correction,
            taken,
        ) && sum(kept, taken, next));
        assert(blended_variance(momentum, old_variance, inverse, correction, next));
        variance.push(next);
        c = c + 1;
    }
    let new = BatchNormState { running_mean: mean, running_variance: variance };
    assert(zero(base) && measured(data@, planes, base, statistics@) && unbiased(
        planes.samples() as usize,
        correction,
    ));
    Ok(new)
}

/// The statistics are those that the running statistics give.
pub open spec fn recalled<T: Scalar>(
    state: State<T>,
    epsilon: T,
    statistics: Statistics<T>,
) -> bool {
    &&& statistics.mean == state.mean
    &&& statistics.inverse.len() == state.variance.len()
    &&& forall|c: int|
        0 <= c < state.variance.len() ==> inverse_deviation(
            state.variance[c],
            epsilon,
            #[trigger] statistics.inverse[c],
        )
}

/// The statistics that the running statistics give.
pub fn running_statistics<T: Scalar>(state: &BatchNormState<T>, epsilon: T) -> (r:
    BatchNormStatistics<T>)
    ensures
        recalled(state@, epsilon, r@),
{
    let mut inverse: Vec<T> = Vec::with_capacity(state.running_variance.len());
    let mut c: usize = 0;
    while c < state.running_variance.len()
        invariant
            c <= state.running_variance.len(),
            inverse.len() == c,
            forall|i: int|
                0 <= i < c ==> inverse_deviation(
                    state.running_variance@[i],
                    epsilon,
                    #[trigger] inverse@[i],
                ),
        decreases state.running_variance.len() - c,
    {
        inverse.push(deviation_inverse(state.running_variance[c], epsilon));
        c = c + 1;
    }
    BatchNormStatistics {
        mean: crate::scalar::copied(&state.running_mean),
        inverse_standard_deviation: inverse,
    }
}

/// `r` is `value` centred and scaled.
pub open spec fn standardized<T: Scalar>(value: T, mean: T, inverse: T, r: T) -> bool {
    exists|d: T| difference(value, mean, d) && #[trigger] product(d, inverse, r)
}

/// `r` is `value` normalized by its channel's statistics, weight and bias.
pub open spec fn normalized<T: Scalar>(
    value: T,
    mean: T,
    inverse: T,
    weight: T,
    bias: T,
    r: T,
) -> bool {
    exists|n: T, s: T|
        {
            &&& standardized(value, mean, inverse, n)
            &&& #[trigger] product(n, weight, s)
            &&& #[trigger] sum(s, bias, r)
        }
}

/// `out` is the data with each element normalized by its channel.
pub open spec fn batch_normalized<T: Scalar>(
    data: Seq<T>,
    planes: Planes,
    weight: Seq<T>,
    bias: Seq<T>,
    statistics: Statistics<T>,
    out: Seq<T>,
) -> bool {
    &&& out.len() == data.len()
    &&& forall|i: int|
        0 <= i < data.len() ==> normalized(
            data[i],
            statistics.mean[planes.channel_of(i)],
            statistics.inverse[planes.channel_of(i)],
            weight[planes.channel_of(i)],
            bias[planes.channel_of(i)],
            #[trigger] out[i],
        )
}

/// Normalizes the data by given statistics.
pub fn apply_batch_norm<T: Scalar>(
    data: &Vec<T>,
    planes: Planes,
    weight: &Vec<T>,
    bias: &Vec<T>,
    statistics: &BatchNormStatistics<T>,
) -> (r: Vec<T>)
    requires
        planes.wf(),
        data.len() == planes.len(),
        weight.len() == planes.channels,
        bias.len() == planes.channels,
        statistics.mean.len() == planes.channels,
        statistics.inverse_standard_deviation.len() == planes.channels,
    ensures
        batch_normalized(data@, planes, weight@, bias@, statistics@, r@),
{
    let mut r: Vec<T> = Vec::with_capacity(data.len());
    let mut i: usize = 0;
    while i < data.len()
        invariant
            planes.wf(),
            data.len() == planes.len(),
            weight.len() == planes.channels,
            bias.len() == planes.channels,
            statistics.mean.len() == planes.channels,
            statistics.inverse_standard_deviation.len() == planes.channels,
            i <= data.len(),
            r.len() == i,
            forall|j: int|
                0 <= j < i ==> normalized(
                    data@[j],
                    statistics@.mean[planes.channel_of(j)],
                    statistics@.inverse[planes.channel_of(j)],
                    weight@[planes.channel_of(j)],
                    bias@[planes.channel_of(j)],
                    #[trigger] r@[j],
                ),
        decreases data.len() - i,
    {
        proof {
            planes.lemma_channel(i as int);
        }
        let channel: usize = i / planes.spatial % planes.channels;
        let d = data[i].minus(statistics.mean[channel]);
        let n = d.times(statistics.inverse_standard_deviation[channel]);
        let s = n.times(weight[channel]);
        let value = s.plus(bias[channel]);
        proof {
            let c = channel as int;
            assert(difference(data@[i as int], statistics@.mean[c], d) && product(
                d,
                statistics@.inverse[c],
                n,
            ));
            assert(standardized(data@[i as int], statistics@.mean[c], statistics@.inverse[c], n));
            assert(product(n, weight@[c], s) && sum(s, bias@[c], value));
        }
        r.push(value);
        i = i + 1;
    }
    r
}

} // verus!

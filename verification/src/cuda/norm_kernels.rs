//! What each thread of a batch normalization, and of its gradients, computes.

use crate::forward::{averaged, summed};
use crate::index::lemma_unflat;
use crate::norm::{blended, normalized, standardized, Planes};
use crate::reverse::{fixed_gradient, trained_gradient};
use crate::scalar::{
    added, counted, difference, dotted, lemma_added_push, lemma_dotted_push, one, product,
    quotient, rooted, sum, zero, Scalar,
};
use vstd::prelude::*;

verus! {

/// The position of the `n`-th element of a channel.
pub open spec fn channel_at(planes: Planes, channel: int, n: int) -> int {
    (n / planes.spatial as int * planes.channels + channel) * planes.spatial + n
        % planes.spatial as int
}

/// The elements of a channel, sample by sample.
pub open spec fn channel_values<T>(planes: Planes, channel: int, data: Seq<T>) -> Seq<T> {
    Seq::new(planes.samples() as nat, |n: int| data[channel_at(planes, channel, n)])
}

proof fn lemma_channel_at(planes: Planes, channel: int, n: int)
    requires
        planes.wf(),
        0 <= channel < planes.channels,
        0 <= n < planes.samples(),
    ensures
        planes.spatial > 0,
        0 <= n / planes.spatial as int,
        n / (planes.spatial as int) < planes.batch,
        0 <= n % planes.spatial as int,
        0 <= n / planes.spatial as int * planes.channels,
        n / planes.spatial as int * planes.channels + channel <= usize::MAX,
        0 <= (n / planes.spatial as int * planes.channels + channel) * planes.spatial,
        0 <= channel_at(planes, channel, n) < planes.len(),
{
    lemma_unflat(n, planes.batch as int, planes.spatial as int);
    planes.lemma_plane(n / planes.spatial as int, channel, n % planes.spatial as int);
}

/// The `n`-th element of a channel.
fn channel_value<T: Scalar>(planes: Planes, channel: usize, n: usize, data: &[T]) -> (r: T)
    requires
        planes.wf(),
        data@.len() == planes.len(),
        channel < planes.channels,
        n < planes.samples(),
    ensures
        r == channel_values(planes, channel as int, data@)[n as int],
{
    proof {
        lemma_channel_at(planes, channel as int, n as int);
    }
    data[(n / planes.spatial * planes.channels + channel) * planes.spatial + n % planes.spatial]
}

/// `r` is the square of `value` less `mean`.
pub open spec fn centred_square<T: Scalar>(value: T, mean: T, r: T) -> bool {
    exists|d: T| #[trigger] difference(value, mean, d) && product(d, d, r)
}

/// `r` is the sum of the squares of the terms less `mean`.
pub open spec fn squares_summed<T: Scalar>(terms: Seq<T>, mean: T, r: T) -> bool {
    exists|squares: Seq<T>|
        {
            &&& squares.len() == terms.len()
            &&& forall|i: int|
                0 <= i < terms.len() ==> centred_square(terms[i], mean, #[trigger] squares[i])
            &&& #[trigger] summed(squares, r)
        }
}

/// `r` is one over the root of `variance + epsilon`.
pub open spec fn inverse_root<T: Scalar>(variance: T, epsilon: T, r: T) -> bool {
    exists|shifted: T, deviation: T, unit: T|
        {
            &&& sum(variance, epsilon, shifted)
            &&& #[trigger] rooted(shifted, deviation)
            &&& one(unit)
            &&& #[trigger] quotient(unit, deviation, r)
        }
}

/// `r` is `value` divided by a count.
pub open spec fn divided<T: Scalar>(value: T, count: usize, r: T) -> bool {
    exists|divisor: T| counted(count, divisor) && #[trigger] quotient(value, divisor, r)
}

fn divide<T: Scalar>(value: T, count: usize) -> (r: T)
    ensures
        divided(value, count, r),
{
    let divisor = T::of_count(count);
    let r = value.over(divisor);
    assert(counted(count, divisor) && quotient(value, divisor, r));
    r
}

/// One over the root of a running variance and an epsilon.
pub fn batch_norm_running_inverse_std<T: Scalar>(raw: usize, epsilon: T, variance: &[T]) -> (r: T)
    requires
        raw < variance@.len(),
    ensures
        inverse_root(variance@[raw as int], epsilon, r),
{
    let shifted = variance[raw].plus(epsilon);
    let deviation = shifted.root();
    let unit = T::of_count(1);
    let r = unit.over(deviation);
    assert(sum(variance@[raw as int], epsilon, shifted));
    assert(rooted(shifted, deviation));
    assert(quotient(unit, deviation, r));
    r
}

/// The mean of a channel, one over the root of its variance and an epsilon, and its
/// unbiased variance.
pub open spec fn channel_measured<T: Scalar>(
    terms: Seq<T>,
    samples: usize,
    epsilon: T,
    mean: T,
    inverse: T,
    unbiased: T,
) -> bool {
    &&& averaged(terms, samples, mean)
    &&& exists|squared: T, variance: T|
        {
            &&& #[trigger] squares_summed(terms, mean, squared)
            &&& #[trigger] divided(squared, samples, variance)
            &&& inverse_root(variance, epsilon, inverse)
            &&& divided(squared, (samples - 1) as usize, unbiased)
        }
}

/// What the thread of a channel computes of it.
pub fn batch_norm_statistics<T: Scalar>(
    channel: usize,
    planes: Planes,
    epsilon: T,
    input: &[T],
) -> (r: (T, T, T))
    requires
        planes.wf(),
        input@.len() == planes.len(),
        channel < planes.channels,
        planes.samples() > 1,
    ensures
        channel_measured(
            channel_values(planes, channel as int, input@),
            planes.samples() as usize,
            epsilon,
            r.0,
            r.1,
            r.2,
        ),
{
    let samples: usize = planes.batch * planes.spatial;
    let ghost terms = channel_values(planes, channel as int, input@);
    let mut total = T::of_count(0);
    let ghost start = total;
    let mut n: usize = 0;
    assert(terms.take(0) =~= Seq::<T>::empty());
    while n < samples
        invariant
            n <= samples,
            samples == planes.samples(),
            planes.wf(),
            input@.len() == planes.len(),
            channel < planes.channels,
            terms == channel_values(planes, channel as int, input@),
            added(start, terms.take(n as int), total),
        decreases samples - n,
    {
        let value = channel_value(planes, channel, n, input);
        let next = total.plus(value);
        proof {
            lemma_added_push(start, terms.take(n as int), total, value, next);
            assert(terms.take(n + 1) =~= terms.take(n as int).push(value));
        }
        total = next;
        n = n + 1;
    }
    assert(terms.take(n as int) =~= terms);
    let divisor = T::of_count(samples);
    let mean = total.over(divisor);
    assert(zero(start) && added(start, terms, total) && counted(samples, divisor) && quotient(
        total,
        divisor,
        mean,
    ));
    assert(averaged(terms, samples, mean));
    let mut squared = T::of_count(0);
    let ghost start = squared;
    let ghost mut squares: Seq<T> = seq![];
    let mut n: usize = 0;
    while n < samples
        invariant
            n <= samples,
            samples == planes.samples(),
            planes.wf(),
            input@.len() == planes.len(),
            channel < planes.channels,
            terms == channel_values(planes, channel as int, input@),
            squares.len() == n,
            forall|i: int|
                0 <= i < n ==> centred_square(terms[i], mean, #[trigger] squares[i]),
            added(start, squares, squared),
        decreases samples - n,
    {
        let value = channel_value(planes, channel, n, input);
        let centred = value.minus(mean);
        let square = centred.times(centred);
        let next = squared.plus(square);
        proof {
            assert(difference(value, mean, centred) && product(centred, centred, square));
            assert(centred_square(terms[n as int], mean, square));
            lemma_added_push(start, squares, squared, square, next);
            squares = squares.push(square);
        }
        squared = next;
        n = n + 1;
    }
    assert(zero(start) && added(start, squares, squared));
    assert(summed(squares, squared));
    assert(squares_summed(terms, mean, squared));
    let variance = divide(squared, samples);
    let mut one_variance: Vec<T> = Vec::new();
    one_variance.push(variance);
    let inverse = batch_norm_running_inverse_std(0, epsilon, one_variance.as_slice());
    let unbiased = divide(squared, samples - 1);
    assert(divided(squared, samples, variance));
    (mean, inverse, unbiased)
}

/// One normalized element.
pub fn batch_norm_apply<T: Scalar>(
    raw: usize,
    planes: Planes,
    input: &[T],
    weight: &[T],
    bias: &[T],
    mean: &[T],
    inverse_std: &[T],
) -> (r: T)
    requires
        planes.wf(),
        input@.len() == planes.len(),
        weight@.len() == planes.channels,
        bias@.len() == planes.channels,
        mean@.len() == planes.channels,
        inverse_std@.len() == planes.channels,
        raw < planes.len(),
    ensures
        normalized(
            input@[raw as int],
            mean@[planes.channel_of(raw as int)],
            inverse_std@[planes.channel_of(raw as int)],
            weight@[planes.channel_of(raw as int)],
            bias@[planes.channel_of(raw as int)],
            r,
        ),
{
    proof {
        planes.lemma_channel(raw as int);
    }
    let channel: usize = raw / planes.spatial % planes.channels;
    let d = input[raw].minus(mean[channel]);
    let n = d.times(inverse_std[channel]);
    let s = n.times(weight[channel]);
    let r = s.plus(bias[channel]);
    assert(difference(input@[raw as int], mean@[channel as int], d) && product(
        d,
        inverse_std@[channel as int],
        n,
    ));
    assert(standardized(
        input@[raw as int],
        mean@[channel as int],
        inverse_std@[channel as int],
        n,
    ));
    assert(product(n, weight@[channel as int], s));
    assert(sum(s, bias@[channel as int], r));
    r
}

/// One running mean and one running variance after a batch.
pub fn batch_norm_update_running<T: Scalar>(
    raw: usize,
    momentum: T,
    batch_mean: &[T],
    batch_variance: &[T],
    old_mean: &[T],
    old_variance: &[T],
) -> (r: (T, T))
    requires
        raw < batch_mean@.len(),
        raw < batch_variance@.len(),
        raw < old_mean@.len(),
        raw < old_variance@.len(),
    ensures
        blended(momentum, old_mean@[raw as int], batch_mean@[raw as int], r.0),
        blended(momentum, old_variance@[raw as int], batch_variance@[raw as int], r.1),
{
    (
        blend(momentum, old_mean[raw], batch_mean[raw]),
        blend(momentum, old_variance[raw], batch_variance[raw]),
    )
}

fn blend<T: Scalar>(momentum: T, old: T, new: T) -> (r: T)
    ensures
        blended(momentum, old, new, r),
{
    let unit = T::of_count(1);
    let keep = unit.minus(momentum);
    let kept = keep.times(old);
    let taken = momentum.times(new);
    let r = kept.plus(taken);
    assert(difference(unit, momentum, keep));
    assert(product(keep, old, kept));
    assert(product(momentum, new, taken));
    assert(sum(kept, taken, r));
    r
}

/// One element of the input gradient.
pub open spec fn input_gradient<T: Scalar>(
    training: bool,
    samples: usize,
    gradient: T,
    value: T,
    weight: T,
    mean: T,
    inverse: T,
    weight_gradient: T,
    bias_gradient: T,
    r: T,
) -> bool {
    if training {
        exists|standard: T| #[trigger]
            standardized(value, mean, inverse, standard) && trained_gradient(
                samples,
                gradient,
                standard,
                weight,
                inverse,
                bias_gradient,
                weight_gradient,
                r,
            )
    } else {
        fixed_gradient(gradient, weight, inverse, r)
    }
}

/// What the thread of an element computes of the input gradient.
pub fn batch_norm_input_backward<T: Scalar>(
    raw: usize,
    planes: Planes,
    training: bool,
    gradient: &[T],
    input: &[T],
    weight: &[T],
    mean: &[T],
    inverse_std: &[T],
    weight_gradient: &[T],
    bias_gradient: &[T],
) -> (r: T)
    requires
        planes.wf(),
        gradient@.len() == planes.len(),
        input@.len() == planes.len(),
        weight@.len() == planes.channels,
        mean@.len() == planes.channels,
        inverse_std@.len() == planes.channels,
        weight_gradient@.len() == planes.channels,
        bias_gradient@.len() == planes.channels,
        raw < planes.len(),
    ensures
        input_gradient(
            training,
            planes.samples() as usize,
            gradient@[raw as int],
            input@[raw as int],
            weight@[planes.channel_of(raw as int)],
            mean@[planes.channel_of(raw as int)],
            inverse_std@[planes.channel_of(raw as int)],
            weight_gradient@[planes.channel_of(raw as int)],
            bias_gradient@[planes.channel_of(raw as int)],
            r,
        ),
{
    proof {
        planes.lemma_channel(raw as int);
    }
    let channel: usize = raw / planes.spatial % planes.channels;
    let slope = gradient[raw];
    let scale = weight[channel];
    let inverse = inverse_std[channel];
    if !training {
        let a = slope.times(scale);
        let r = a.times(inverse);
        assert(product(slope, scale, a) && product(a, inverse, r));
        return r;
    }
    let centred = input[raw].minus(mean[channel]);
    let standard = centred.times(inverse);
    assert(difference(input@[raw as int], mean@[channel as int], centred) && product(
        centred,
        inverse,
        standard,
    ));
    assert(standardized(input@[raw as int], mean@[channel as int], inverse, standard));
    let samples: usize = planes.batch * planes.spatial;
    let n = T::of_count(samples);
    let a = scale.times(inverse);
    let b = a.over(n);
    let c = n.times(slope);
    let d = c.minus(bias_gradient[channel]);
    let e = standard.times(weight_gradient[channel]);
    let f = d.minus(e);
    let r = b.times(f);
    assert(trained_gradient(
        samples,
        slope,
        standard,
        scale,
        inverse,
        bias_gradient@[channel as int],
        weight_gradient@[channel as int],
        r,
    )) by {
        assert(counted(samples, n));
        assert(product(scale, inverse, a));
        assert(quotient(a, n, b));
        assert(product(n, slope, c));
        assert(difference(c, bias_gradient@[channel as int], d));
        assert(product(standard, weight_gradient@[channel as int], e));
        assert(difference(d, e, f));
        assert(product(b, f, r));
    }
    r
}

/// The sums of a channel that make up the gradients of its weight and its bias.
pub open spec fn affine_gradient<T: Scalar>(
    values: Seq<T>,
    gradients: Seq<T>,
    mean: T,
    inverse: T,
    for_weight: T,
    for_bias: T,
) -> bool {
    &&& exists|standards: Seq<T>, start: T|
        {
            &&& standards.len() == values.len()
            &&& forall|i: int|
                0 <= i < values.len() ==> standardized(
                    values[i],
                    mean,
                    inverse,
                    #[trigger] standards[i],
                )
            &&& zero(start)
            &&& #[trigger] dotted(start, paired(gradients, standards), for_weight)
        }
    &&& summed(gradients, for_bias)
}

/// Two sequences in pairs.
pub open spec fn paired<T>(a: Seq<T>, b: Seq<T>) -> Seq<(T, T)> {
    Seq::new(b.len(), |i: int| (a[i], b[i]))
}

/// What the thread of a channel computes of the gradients of its weight and its bias.
pub fn batch_norm_affine_backward<T: Scalar>(
    channel: usize,
    planes: Planes,
    gradient: &[T],
    input: &[T],
    mean: &[T],
    inverse_std: &[T],
) -> (r: (T, T))
    requires
        planes.wf(),
        gradient@.len() == planes.len(),
        input@.len() == planes.len(),
        mean@.len() == planes.channels,
        inverse_std@.len() == planes.channels,
        channel < planes.channels,
    ensures
        affine_gradient(
            channel_values(planes, channel as int, input@),
            channel_values(planes, channel as int, gradient@),
            mean@[channel as int],
            inverse_std@[channel as int],
            r.0,
            r.1,
        ),
{
    let samples: usize = planes.batch * planes.spatial;
    let ghost values = channel_values(planes, channel as int, input@);
    let ghost slopes = channel_values(planes, channel as int, gradient@);
    let centre = mean[channel];
    let inverse = inverse_std[channel];
    let mut weight_sum = T::of_count(0);
    let mut bias_sum = T::of_count(0);
    let ghost weight_start = weight_sum;
    let ghost bias_start = bias_sum;
    let ghost mut standards: Seq<T> = seq![];
    let mut n: usize = 0;
    assert(slopes.take(0) =~= Seq::<T>::empty());
    assert(paired(slopes, standards) =~= Seq::<(T, T)>::empty());
    while n < samples
        invariant
            n <= samples,
            samples == planes.samples(),
            planes.wf(),
            gradient@.len() == planes.len(),
            input@.len() == planes.len(),
            channel < planes.channels,
            values == channel_values(planes, channel as int, input@),
            slopes == channel_values(planes, channel as int, gradient@),
            standards.len() == n,
            forall|i: int|
                0 <= i < n ==> standardized(values[i], centre, inverse, #[trigger] standards[i]),
            dotted(weight_start, paired(slopes, standards), weight_sum),
            added(bias_start, slopes.take(n as int), bias_sum),
        decreases samples - n,
    {
        let value = channel_value(planes, channel, n, input);
        let slope = channel_value(planes, channel, n, gradient);
        let centred = value.minus(centre);
        let standard = centred.times(inverse);
        let part = slope.times(standard);
        let next_weight = weight_sum.plus(part);
        let next_bias = bias_sum.plus(slope);
        proof {
            assert(difference(value, centre, centred) && product(centred, inverse, standard));
            let pairs = paired(slopes, standards);
            lemma_dotted_push(
                weight_start,
                pairs,
                weight_sum,
                slope,
                standard,
                part,
                next_weight,
            );
            standards = standards.push(standard);
            assert(paired(slopes, standards) =~= pairs.push((slope, standard)));
            lemma_added_push(bias_start, slopes.take(n as int), bias_sum, slope, next_bias);
            assert(slopes.take(n + 1) =~= slopes.take(n as int).push(slope));
        }
        weight_sum = next_weight;
        bias_sum = next_bias;
        n = n + 1;
    }
    assert(slopes.take(n as int) =~= slopes);
    assert(zero(weight_start) && dotted(weight_start, paired(slopes, standards), weight_sum));
    assert(zero(bias_start) && added(bias_start, slopes, bias_sum));
    (weight_sum, bias_sum)
}

} // verus!

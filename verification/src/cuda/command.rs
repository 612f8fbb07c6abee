//! The commands that a device is given, and what they do to its buffers.
//!
//! Every command writes buffers of its own, which nothing wrote before.  So a list of
//! commands is a list of statements about what the buffers hold once all have run.

use crate::cuda::conv_kernels::{
    back_reduction, back_scan, channel_len, channel_terms, input_place, reduction, weight_scan,
};
use crate::cuda::kernels::column_by_column;
use crate::cuda::launch::Grid;
use crate::cuda::loss_kernels::{device_gradient, device_loss};
use crate::cuda::norm_kernels::{
    affine_gradient, channel_measured, channel_values, input_gradient, inverse_root,
};
use crate::cuda::pool_kernels::pool_share;
use crate::forward::{
    convolved, dot_product, gathered, multiplied, pooled, Convolution, Pooling,
};
use crate::norm::{batch_normalized, blended, Planes, Statistics};
use crate::optim::{element_updated, Rates};
use crate::reverse::{gated, left_gradient};
use crate::scalar::{added, all_zero, one, product, sum, zero, Scalar};
use vstd::prelude::*;

verus! {

/// What is launched.  Buffers are named by their number.
pub enum Command<T> {
    /// Copies the data of a node to the device.
    Upload { node: usize, out: usize },
    /// Copies the running mean of a batch normalization to the device.
    UploadMean { state: usize, out: usize },
    /// Copies the running variance of a batch normalization to the device.
    UploadVariance { state: usize, out: usize },
    /// Waits until everything before has run.
    Synchronize,
    /// Fills a buffer with zeros.
    Clear { out: usize },
    /// Makes a buffer of a single one.
    One { out: usize },
    Add { left: usize, right: usize, out: usize },
    Mul { left: usize, right: usize, out: usize },
    Relu { input: usize, out: usize },
    MatMul {
        left: usize,
        right: usize,
        out: usize,
        rows: usize,
        inner: usize,
        columns: usize,
    },
    Conv2d { input: usize, weight: usize, bias: usize, out: usize, geometry: Convolution },
    AvgPool2d { input: usize, out: usize, geometry: Pooling },
    CrossEntropy { logits: usize, targets: usize, out: usize, batch: usize, classes: usize },
    BatchNormStatistics {
        input: usize,
        mean: usize,
        inverse: usize,
        variance: usize,
        planes: Planes,
        epsilon: T,
    },
    BatchNormUpdate {
        batch_mean: usize,
        batch_variance: usize,
        old_mean: usize,
        old_variance: usize,
        mean: usize,
        variance: usize,
        momentum: T,
    },
    BatchNormInverse { variance: usize, out: usize, epsilon: T },
    BatchNormApply {
        input: usize,
        weight: usize,
        bias: usize,
        mean: usize,
        inverse: usize,
        out: usize,
        planes: Planes,
    },
    Accumulate { left: usize, right: usize, out: usize },
    MulBackward { gradient: usize, other: usize, out: usize },
    ReluBackward { gradient: usize, input: usize, out: usize },
    MatMulLeftBackward {
        gradient: usize,
        right: usize,
        out: usize,
        rows: usize,
        inner: usize,
        columns: usize,
    },
    MatMulRightBackward {
        gradient: usize,
        left: usize,
        out: usize,
        rows: usize,
        inner: usize,
        columns: usize,
    },
    Conv2dInputBackward { gradient: usize, weight: usize, out: usize, geometry: Convolution },
    Conv2dWeightBackward { gradient: usize, input: usize, out: usize, geometry: Convolution },
    Conv2dBiasBackward { gradient: usize, out: usize, geometry: Convolution },
    AvgPool2dBackward { gradient: usize, out: usize, geometry: Pooling },
    CrossEntropyBackward {
        logits: usize,
        targets: usize,
        gradient: usize,
        out: usize,
        batch: usize,
        classes: usize,
    },
    BatchNormAffineBackward {
        gradient: usize,
        input: usize,
        mean: usize,
        inverse: usize,
        weight_gradient: usize,
        bias_gradient: usize,
        planes: Planes,
    },
    BatchNormInputBackward {
        gradient: usize,
        input: usize,
        weight: usize,
        mean: usize,
        inverse: usize,
        weight_gradient: usize,
        bias_gradient: usize,
        out: usize,
        planes: Planes,
        training: bool,
    },
    AdamW {
        parameter: usize,
        gradient: usize,
        first: usize,
        second: usize,
        new_parameter: usize,
        new_first: usize,
        new_second: usize,
        rates: Rates<T>,
        first_correction: T,
        second_correction: T,
    },
}

/// A command with the threads that run it; copies have none.
pub struct Step<T> {
    pub command: Command<T>,
    pub grid: Option<Grid>,
}

/// What a device takes from the host.
pub struct Host<T> {
    /// The data of each node that has some.
    pub data: Seq<Option<Seq<T>>>,
    /// The running mean of each batch normalization.
    pub means: Seq<Seq<T>>,
    /// The running variance of each batch normalization.
    pub variances: Seq<Seq<T>>,
}

/// The buffers hold what the command makes them hold.
pub open spec fn holds<T: Scalar>(host: Host<T>, memory: Seq<Seq<T>>, command: Command<T>) -> bool {
    match command {
        Command::Upload { node, out } => host.data[node as int] == Some(memory[out as int]),
        Command::UploadMean { state, out } => memory[out as int] == host.means[state as int],
        Command::UploadVariance { state, out } => memory[out as int]
            == host.variances[state as int],
        Command::Synchronize => true,
        Command::Clear { out } => all_zero(memory[out as int]),
        Command::One { out } => memory[out as int].len() == 1 && one(memory[out as int][0]),
        Command::Add { left, right, out } => added_up(
            memory[left as int],
            memory[right as int],
            memory[out as int],
        ),
        Command::Accumulate { left, right, out } => added_up(
            memory[left as int],
            memory[right as int],
            memory[out as int],
        ),
        Command::Mul { left, right, out } => multiplied_out(
            memory[left as int],
            memory[right as int],
            memory[out as int],
        ),
        Command::MulBackward { gradient, other, out } => multiplied_out(
            memory[gradient as int],
            memory[other as int],
            memory[out as int],
        ),
        Command::Relu { input, out } => gated_by(
            memory[input as int],
            memory[input as int],
            memory[out as int],
        ),
        Command::ReluBackward { gradient, input, out } => gated_by(
            memory[input as int],
            memory[gradient as int],
            memory[out as int],
        ),
        Command::MatMul { left, right, out, rows, inner, columns } => multiplied(
            memory[left as int],
            memory[right as int],
            rows as int,
            inner as int,
            columns as int,
            memory[out as int],
        ),
        Command::MatMulLeftBackward { gradient, right, out, rows, inner, columns } => left_gradient(
            memory[gradient as int],
            memory[right as int],
            rows as int,
            inner as int,
            columns as int,
            memory[out as int],
        ),
        Command::MatMulRightBackward { gradient, left, out, rows, inner, columns } =>
            right_gathered(
            memory[gradient as int],
            memory[left as int],
            rows as int,
            inner as int,
            columns as int,
            memory[out as int],
        ),
        Command::Conv2d { input, weight, bias, out, geometry } => convolved(
            geometry,
            memory[input as int],
            memory[weight as int],
            memory[bias as int],
            memory[out as int],
        ),
        Command::Conv2dInputBackward { gradient, weight, out, geometry } => back_convolved(
            geometry,
            memory[gradient as int],
            memory[weight as int],
            memory[out as int],
        ),
        Command::Conv2dWeightBackward { gradient, input, out, geometry } => filter_gathered(
            geometry,
            memory[gradient as int],
            memory[input as int],
            memory[out as int],
        ),
        Command::Conv2dBiasBackward { gradient, out, geometry } => channels_summed(
            geometry,
            memory[gradient as int],
            memory[out as int],
        ),
        Command::AvgPool2d { input, out, geometry } => pooled(
            geometry,
            memory[input as int],
            memory[out as int],
        ),
        Command::AvgPool2dBackward { gradient, out, geometry } => back_pooled(
            geometry,
            memory[gradient as int],
            memory[out as int],
        ),
        Command::CrossEntropy { logits, targets, out, batch, classes } => {
            let result = memory[out as int];
            &&& result.len() == 1
            &&& device_loss(
                memory[logits as int],
                memory[targets as int],
                batch,
                classes,
                result[0],
            )
        },
        Command::CrossEntropyBackward { logits, targets, gradient, out, batch, classes } =>
            loss_gathered(
            memory[logits as int],
            memory[targets as int],
            memory[gradient as int],
            batch,
            classes,
            memory[out as int],
        ),
        Command::BatchNormStatistics { input, mean, inverse, variance, planes, epsilon } =>
            channels_measured(
            planes,
            memory[input as int],
            epsilon,
            Statistics { mean: memory[mean as int], inverse: memory[inverse as int] },
            memory[variance as int],
        ),
        Command::BatchNormUpdate {
            batch_mean,
            batch_variance,
            old_mean,
            old_variance,
            mean,
            variance,
            momentum,
        } => {
            &&& blended_all(
                momentum,
                memory[old_mean as int],
                memory[batch_mean as int],
                memory[mean as int],
            )
            &&& blended_all(
                momentum,
                memory[old_variance as int],
                memory[batch_variance as int],
                memory[variance as int],
            )
        },
        Command::BatchNormInverse { variance, out, epsilon } => inverted_all(
            memory[variance as int],
            epsilon,
            memory[out as int],
        ),
        Command::BatchNormApply { input, weight, bias, mean, inverse, out, planes } =>
            batch_normalized(
            memory[input as int],
            planes,
            memory[weight as int],
            memory[bias as int],
            Statistics { mean: memory[mean as int], inverse: memory[inverse as int] },
            memory[out as int],
        ),
        Command::BatchNormAffineBackward {
            gradient,
            input,
            mean,
            inverse,
            weight_gradient,
            bias_gradient,
            planes,
        } => affine_gathered(
            planes,
            memory[gradient as int],
            memory[input as int],
            Statistics { mean: memory[mean as int], inverse: memory[inverse as int] },
            memory[weight_gradient as int],
            memory[bias_gradient as int],
        ),
        Command::BatchNormInputBackward {
            gradient,
            input,
            weight,
            mean,
            inverse,
            weight_gradient,
            bias_gradient,
            out,
            planes,
            training,
        } => norm_gathered(
            planes,
            training,
            memory[gradient as int],
            memory[input as int],
            memory[weight as int],
            Statistics { mean: memory[mean as int], inverse: memory[inverse as int] },
            memory[weight_gradient as int],
            memory[bias_gradient as int],
            memory[out as int],
        ),
        Command::AdamW {
            parameter,
            gradient,
            first,
            second,
            new_parameter,
            new_first,
            new_second,
            rates,
            first_correction,
            second_correction,
        } => {
            let result = memory[new_parameter as int];
            &&& result.len() == memory[parameter as int].len()
            &&& memory[new_first as int].len() == result.len()
            &&& memory[new_second as int].len() == result.len()
            &&& forall|i: int|
                0 <= i < result.len() ==> element_updated(
                    rates,
                    first_correction,
                    second_correction,
                    memory[gradient as int][i],
                    memory[parameter as int][i],
                    memory[first as int][i],
                    memory[second as int][i],
                    #[trigger] result[i],
                    memory[new_first as int][i],
                    memory[new_second as int][i],
                )
        },
    }
}

/// Element by element, a sum.
pub open spec fn added_up<T: Scalar>(left: Seq<T>, right: Seq<T>, out: Seq<T>) -> bool {
    &&& out.len() == left.len()
    &&& forall|i: int| 0 <= i < out.len() ==> sum(left[i], right[i], #[trigger] out[i])
}

/// Element by element, a product.
pub open spec fn multiplied_out<T: Scalar>(left: Seq<T>, right: Seq<T>, out: Seq<T>) -> bool {
    &&& out.len() == left.len()
    &&& forall|i: int| 0 <= i < out.len() ==> product(left[i], right[i], #[trigger] out[i])
}

/// Element by element, the gradient where the value is above zero.
pub open spec fn gated_by<T: Scalar>(values: Seq<T>, gradient: Seq<T>, out: Seq<T>) -> bool {
    &&& out.len() == gradient.len()
    &&& forall|i: int| 0 <= i < out.len() ==> gated(values[i], gradient[i], #[trigger] out[i])
}

/// Element by element, the old value moved towards the new one.
pub open spec fn blended_all<T: Scalar>(momentum: T, old: Seq<T>, new: Seq<T>, out: Seq<T>) -> bool {
    &&& out.len() == old.len()
    &&& forall|i: int| 0 <= i < out.len() ==> blended(momentum, old[i], new[i], #[trigger] out[i])
}

/// `r` is the gradient of an input element of an average pool.
pub open spec fn pool_gathered<T: Scalar>(
    geometry: Pooling,
    gradient: Seq<T>,
    i: int,
    r: T,
) -> bool {
    exists|start: T, shares: Seq<T>|
        {
            &&& zero(start)
            &&& pool_share(
                geometry,
                gradient,
                crate::cuda::pool_kernels::input_place(geometry, i),
                (geometry.out_h() * geometry.out_w()) as nat,
                shares,
            )
            &&& #[trigger] added(start, shares, r)
        }
}

/// The gradient of the right operand of a matrix product.
pub open spec fn right_gathered<T: Scalar>(
    gradient: Seq<T>,
    left: Seq<T>,
    rows: int,
    inner: int,
    columns: int,
    out: Seq<T>,
) -> bool {
    &&& out.len() == inner * columns
    &&& forall|i: int|
        0 <= i < out.len() ==> dot_product(
            column_by_column(left, gradient, rows, inner, columns, i / columns, i % columns),
            #[trigger] out[i],
        )
}

/// The gradient of the input of a convolution.
pub open spec fn back_convolved<T: Scalar>(
    geometry: Convolution,
    gradient: Seq<T>,
    weight: Seq<T>,
    out: Seq<T>,
) -> bool {
    &&& out.len() == geometry.input_len()
    &&& forall|i: int|
        0 <= i < out.len() ==> dot_product(
            gathered(
                gradient,
                weight,
                back_scan(geometry, input_place(geometry, i), 0, back_reduction(geometry) as nat),
            ),
            #[trigger] out[i],
        )
}

/// The gradient of the weight of a convolution.
pub open spec fn filter_gathered<T: Scalar>(
    geometry: Convolution,
    gradient: Seq<T>,
    input: Seq<T>,
    out: Seq<T>,
) -> bool {
    &&& out.len() == geometry.weight_len()
    &&& forall|i: int|
        0 <= i < out.len() ==> dot_product(
            gathered(
                input,
                gradient,
                weight_scan(
                    geometry,
                    i / reduction(geometry),
                    i % reduction(geometry),
                    0,
                    channel_len(geometry) as nat,
                ),
            ),
            #[trigger] out[i],
        )
}

/// The gradient of the bias of a convolution.
pub open spec fn channels_summed<T: Scalar>(
    geometry: Convolution,
    gradient: Seq<T>,
    out: Seq<T>,
) -> bool {
    &&& out.len() == geometry.out_channels
    &&& forall|i: int|
        0 <= i < out.len() ==> crate::forward::summed(
            channel_terms(geometry, i, gradient),
            #[trigger] out[i],
        )
}

/// The gradient of the input of an average pool.
pub open spec fn back_pooled<T: Scalar>(geometry: Pooling, gradient: Seq<T>, out: Seq<T>) -> bool {
    &&& out.len() == geometry.input_len()
    &&& forall|i: int|
        0 <= i < out.len() ==> pool_gathered(geometry, gradient, i, #[trigger] out[i])
}

/// The gradient of the logits of a cross-entropy.
pub open spec fn loss_gathered<T: Scalar>(
    logits: Seq<T>,
    targets: Seq<T>,
    gradient: Seq<T>,
    batch: usize,
    classes: usize,
    out: Seq<T>,
) -> bool {
    &&& out.len() == batch * classes
    &&& forall|i: int|
        0 <= i < out.len() ==> device_gradient(
            logits,
            targets,
            gradient[0],
            batch,
            classes,
            i,
            #[trigger] out[i],
        )
}

/// The statistics of each channel, and its unbiased variance.
pub open spec fn channels_measured<T: Scalar>(
    planes: Planes,
    data: Seq<T>,
    epsilon: T,
    statistics: Statistics<T>,
    variances: Seq<T>,
) -> bool {
    &&& statistics.mean.len() == planes.channels
    &&& statistics.inverse.len() == planes.channels
    &&& variances.len() == planes.channels
    &&& forall|c: int|
        0 <= c < planes.channels ==> channel_measured(
            channel_values(planes, c, data),
            planes.samples() as usize,
            epsilon,
            #[trigger] statistics.mean[c],
            statistics.inverse[c],
            variances[c],
        )
}

/// Element by element, one over the root of the variance and an epsilon.
pub open spec fn inverted_all<T: Scalar>(variances: Seq<T>, epsilon: T, out: Seq<T>) -> bool {
    &&& out.len() == variances.len()
    &&& forall|c: int|
        0 <= c < out.len() ==> inverse_root(variances[c], epsilon, #[trigger] out[c])
}

/// The gradients of the weight and of the bias of a batch normalization.
pub open spec fn affine_gathered<T: Scalar>(
    planes: Planes,
    gradient: Seq<T>,
    data: Seq<T>,
    statistics: Statistics<T>,
    for_weight: Seq<T>,
    for_bias: Seq<T>,
) -> bool {
    &&& for_weight.len() == planes.channels
    &&& for_bias.len() == planes.channels
    &&& forall|c: int|
        0 <= c < planes.channels ==> affine_gradient(
            channel_values(planes, c, data),
            channel_values(planes, c, gradient),
            statistics.mean[c],
            statistics.inverse[c],
            #[trigger] for_weight[c],
            for_bias[c],
        )
}

/// The gradient of the input of a batch normalization.
pub open spec fn norm_gathered<T: Scalar>(
    planes: Planes,
    training: bool,
    gradient: Seq<T>,
    data: Seq<T>,
    weight: Seq<T>,
    statistics: Statistics<T>,
    for_weight: Seq<T>,
    for_bias: Seq<T>,
    out: Seq<T>,
) -> bool {
    &&& out.len() == planes.len()
    &&& forall|i: int|
        0 <= i < out.len() ==> input_gradient(
            training,
            planes.samples() as usize,
            gradient[i],
            data[i],
            weight[planes.channel_of(i)],
            statistics.mean[planes.channel_of(i)],
            statistics.inverse[planes.channel_of(i)],
            for_weight[planes.channel_of(i)],
            for_bias[planes.channel_of(i)],
            #[trigger] out[i],
        )
}

/// Every command of a list has run.
pub open spec fn executed<T: Scalar>(
    host: Host<T>,
    memory: Seq<Seq<T>>,
    log: Seq<Step<T>>,
) -> bool {
    forall|k: int| 0 <= k < log.len() ==> holds(host, memory, (#[trigger] log[k]).command)
}

/// The buffers have their lengths.
pub open spec fn sized<T>(lens: Seq<usize>, memory: Seq<Seq<T>>) -> bool {
    &&& memory.len() == lens.len()
    &&& forall|b: int| 0 <= b < lens.len() ==> (#[trigger] memory[b]).len() == lens[b]
}

} // verus!

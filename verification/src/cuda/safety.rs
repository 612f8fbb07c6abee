//! What every launch can rely on: its inputs were written, its outputs are its own, and all
//! buffers have the lengths that its kernel asks for.

use crate::cuda::command::{Command, Step};
use crate::cuda::conv_kernels::{reduction, square};
use crate::cuda::executor::{
    all_evaluated, blank, command_for, computed, elements, evaluated, Ledger,
};
use crate::cuda::launch::{grid_of, tiles, Grid, GRADIENT_TILE, TILE};
use crate::eval::{lemma_convolution, lemma_planes, lemma_pooling};
use crate::graph::{
    convolution, fits, fits_alone, lemma_fits_operand, operands, ordered, planes_of, reaches,
    shaped, Graph, Node, Op,
};
use crate::norm::Planes;
use crate::shape::{lemma_numel_1, lemma_numel_2, numel};
use vstd::prelude::*;

verus! {

/// The buffers that a command reads.
pub open spec fn reads<T>(command: Command<T>) -> Seq<usize> {
    match command {
        Command::Add { left, right, .. } => seq![left, right],
        Command::Mul { left, right, .. } => seq![left, right],
        Command::Relu { input, .. } => seq![input],
        Command::MatMul { left, right, .. } => seq![left, right],
        Command::Conv2d { input, weight, bias, .. } => seq![input, weight, bias],
        Command::AvgPool2d { input, .. } => seq![input],
        Command::CrossEntropy { logits, targets, .. } => seq![logits, targets],
        Command::BatchNormStatistics { input, .. } => seq![input],
        Command::BatchNormUpdate { batch_mean, batch_variance, old_mean, old_variance, .. } => seq![
            batch_mean,
            batch_variance,
            old_mean,
            old_variance,
        ],
        Command::BatchNormInverse { variance, .. } => seq![variance],
        Command::BatchNormApply { input, weight, bias, mean, inverse, .. } => seq![
            input,
            weight,
            bias,
            mean,
            inverse,
        ],
        Command::Accumulate { left, right, .. } => seq![left, right],
        Command::MulBackward { gradient, other, .. } => seq![gradient, other],
        Command::ReluBackward { gradient, input, .. } => seq![gradient, input],
        Command::MatMulLeftBackward { gradient, right, .. } => seq![gradient, right],
        Command::MatMulRightBackward { gradient, left, .. } => seq![gradient, left],
        Command::Conv2dInputBackward { gradient, weight, .. } => seq![gradient, weight],
        Command::Conv2dWeightBackward { gradient, input, .. } => seq![gradient, input],
        Command::Conv2dBiasBackward { gradient, .. } => seq![gradient],
        Command::AvgPool2dBackward { gradient, .. } => seq![gradient],
        Command::CrossEntropyBackward { logits, targets, gradient, .. } => seq![
            logits,
            targets,
            gradient,
        ],
        Command::BatchNormAffineBackward { gradient, input, mean, inverse, .. } => seq![
            gradient,
            input,
            mean,
            inverse,
        ],
        Command::BatchNormInputBackward {
            gradient,
            input,
            weight,
            mean,
            inverse,
            weight_gradient,
            bias_gradient,
            ..
        } => seq![gradient, input, weight, mean, inverse, weight_gradient, bias_gradient],
        Command::AdamW { parameter, gradient, first, second, .. } => seq![
            parameter,
            gradient,
            first,
            second,
        ],
        _ => seq![],
    }
}

/// The buffers that a command writes.
pub open spec fn writes<T>(command: Command<T>) -> Seq<usize> {
    match command {
        Command::Upload { out, .. } => seq![out],
        Command::UploadMean { out, .. } => seq![out],
        Command::UploadVariance { out, .. } => seq![out],
        Command::Synchronize => seq![],
        Command::Clear { out } => seq![out],
        Command::One { out } => seq![out],
        Command::Add { out, .. } => seq![out],
        Command::Mul { out, .. } => seq![out],
        Command::Relu { out, .. } => seq![out],
        Command::MatMul { out, .. } => seq![out],
        Command::Conv2d { out, .. } => seq![out],
        Command::AvgPool2d { out, .. } => seq![out],
        Command::CrossEntropy { out, .. } => seq![out],
        Command::BatchNormStatistics { mean, inverse, variance, .. } => seq![
            mean,
            inverse,
            variance,
        ],
        Command::BatchNormUpdate { mean, variance, .. } => seq![mean, variance],
        Command::BatchNormInverse { out, .. } => seq![out],
        Command::BatchNormApply { out, .. } => seq![out],
        Command::Accumulate { out, .. } => seq![out],
        Command::MulBackward { out, .. } => seq![out],
        Command::ReluBackward { out, .. } => seq![out],
        Command::MatMulLeftBackward { out, .. } => seq![out],
        Command::MatMulRightBackward { out, .. } => seq![out],
        Command::Conv2dInputBackward { out, .. } => seq![out],
        Command::Conv2dWeightBackward { out, .. } => seq![out],
        Command::Conv2dBiasBackward { out, .. } => seq![out],
        Command::AvgPool2dBackward { out, .. } => seq![out],
        Command::CrossEntropyBackward { out, .. } => seq![out],
        Command::BatchNormAffineBackward { weight_gradient, bias_gradient, .. } => seq![
            weight_gradient,
            bias_gradient,
        ],
        Command::BatchNormInputBackward { out, .. } => seq![out],
        Command::AdamW { new_parameter, new_first, new_second, .. } => seq![
            new_parameter,
            new_first,
            new_second,
        ],
    }
}

/// There is a thread for each of so many elements.
pub open spec fn per_element(grid: Option<Grid>, len: int) -> bool {
    grid == Some(Grid::Elements(len as u32)) && len <= u32::MAX
}

/// The buffers of a command have the lengths that its kernel asks for, and there is a
/// thread for every element that it writes.
pub open spec fn ready<T>(lens: Seq<usize>, step: Step<T>) -> bool {
    match step.command {
        Command::Add { left, right, out } => {
            &&& lens[left as int] == lens[out as int]
            &&& lens[right as int] == lens[out as int]
            &&& per_element(step.grid, lens[out as int] as int)
        },
        Command::Mul { left, right, out } => {
            &&& lens[left as int] == lens[out as int]
            &&& lens[right as int] == lens[out as int]
            &&& per_element(step.grid, lens[out as int] as int)
        },
        Command::Relu { input, out } => {
            &&& lens[input as int] == lens[out as int]
            &&& per_element(step.grid, lens[out as int] as int)
        },
        Command::MatMul { left, right, out, rows, inner, columns } => {
            &&& lens[left as int] == rows * inner
            &&& lens[right as int] == inner * columns
            &&& lens[out as int] == rows * columns
            &&& per_element(step.grid, lens[out as int] as int)
        },
        Command::Conv2d { input, weight, bias, out, geometry } => {
            &&& geometry.wf()
            &&& square(geometry)
            &&& lens[input as int] == geometry.input_len()
            &&& lens[weight as int] == geometry.weight_len()
            &&& lens[bias as int] == geometry.out_channels
            &&& lens[out as int] == geometry.output_len()
            &&& step.grid matches Some(Grid::Blocks { blocks, threads }) && threads == TILE
                && blocks == geometry.batch * geometry.out_channels * tiles(
                (geometry.out_h() * geometry.out_w()) as nat,
                TILE as nat,
            )
        },
        Command::AvgPool2d { input, out, geometry } => {
            &&& geometry.wf()
            &&& lens[input as int] == geometry.input_len()
            &&& lens[out as int] == geometry.output_len()
            &&& per_element(step.grid, lens[out as int] as int)
        },
        Command::CrossEntropy { logits, targets, out, batch, classes } => {
            &&& lens[logits as int] == batch * classes
            &&& lens[targets as int] == batch
            &&& lens[out as int] == 1
            &&& per_element(step.grid, 1)
        },
        Command::BatchNormStatistics { input, mean, inverse, variance, planes, .. } => {
            &&& planes.wf()
            &&& planes.samples() > 1
            &&& lens[input as int] == planes.len()
            &&& lens[mean as int] == planes.channels
            &&& lens[inverse as int] == planes.channels
            &&& lens[variance as int] == planes.channels
            &&& per_element(step.grid, planes.channels as int)
        },
        Command::BatchNormUpdate {
            batch_mean,
            batch_variance,
            old_mean,
            old_variance,
            mean,
            variance,
            ..
        } => {
            let channels = lens[mean as int];
            &&& lens[variance as int] == channels
            &&& lens[batch_mean as int] == channels
            &&& lens[batch_variance as int] == channels
            &&& lens[old_mean as int] == channels
            &&& lens[old_variance as int] == channels
            &&& per_element(step.grid, channels as int)
        },
        Command::BatchNormInverse { variance, out, .. } => {
            &&& lens[variance as int] == lens[out as int]
            &&& per_element(step.grid, lens[out as int] as int)
        },
        Command::BatchNormApply { input, weight, bias, mean, inverse, out, planes } => {
            &&& planes.wf()
            &&& lens[input as int] == planes.len()
            &&& lens[weight as int] == planes.channels
            &&& lens[bias as int] == planes.channels
            &&& lens[mean as int] == planes.channels
            &&& lens[inverse as int] == planes.channels
            &&& lens[out as int] == planes.len()
            &&& per_element(step.grid, planes.len())
        },
        Command::Accumulate { left, right, out } => {
            &&& lens[left as int] == lens[out as int]
            &&& lens[right as int] == lens[out as int]
            &&& per_element(step.grid, lens[out as int] as int)
        },
        Command::MulBackward { gradient, other, out } => {
            &&& lens[gradient as int] == lens[out as int]
            &&& lens[other as int] == lens[out as int]
            &&& per_element(step.grid, lens[out as int] as int)
        },
        Command::ReluBackward { gradient, input, out } => {
            &&& lens[gradient as int] == lens[out as int]
            &&& lens[input as int] == lens[out as int]
            &&& per_element(step.grid, lens[out as int] as int)
        },
        Command::MatMulLeftBackward { gradient, right, out, rows, inner, columns } => {
            &&& lens[gradient as int] == rows * columns
            &&& lens[right as int] == inner * columns
            &&& lens[out as int] == rows * inner
            &&& per_element(step.grid, lens[out as int] as int)
        },
        Command::MatMulRightBackward { gradient, left, out, rows, inner, columns } => {
            &&& lens[gradient as int] == rows * columns
            &&& lens[left as int] == rows * inner
            &&& lens[out as int] == inner * columns
            &&& per_element(step.grid, lens[out as int] as int)
        },
        Command::Conv2dInputBackward { gradient, weight, out, geometry } => {
            &&& geometry.wf()
            &&& square(geometry)
            &&& lens[gradient as int] == geometry.output_len()
            &&& lens[weight as int] == geometry.weight_len()
            &&& lens[out as int] == geometry.input_len()
            &&& step.grid matches Some(Grid::Blocks { blocks, threads }) && threads == TILE
                && blocks == geometry.batch * geometry.in_channels * tiles(
                (geometry.height * geometry.width) as nat,
                TILE as nat,
            )
        },
        Command::Conv2dWeightBackward { gradient, input, out, geometry } => {
            &&& geometry.wf()
            &&& square(geometry)
            &&& lens[gradient as int] == geometry.output_len()
            &&& lens[input as int] == geometry.input_len()
            &&& lens[out as int] == geometry.weight_len()
            &&& step.grid matches Some(Grid::Blocks { blocks, threads }) && threads
                == GRADIENT_TILE && blocks == geometry.out_channels * tiles(
                reduction(geometry) as nat,
                GRADIENT_TILE as nat,
            )
        },
        Command::Conv2dBiasBackward { gradient, out, geometry } => {
            &&& geometry.wf()
            &&& lens[gradient as int] == geometry.output_len()
            &&& lens[out as int] == geometry.out_channels
            &&& per_element(step.grid, geometry.out_channels as int)
        },
        Command::AvgPool2dBackward { gradient, out, geometry } => {
            &&& geometry.wf()
            &&& lens[gradient as int] == geometry.output_len()
            &&& lens[out as int] == geometry.input_len()
            &&& per_element(step.grid, lens[out as int] as int)
        },
        Command::CrossEntropyBackward { logits, targets, gradient, out, batch, classes } => {
            &&& lens[logits as int] == batch * classes
            &&& lens[targets as int] == batch
            &&& lens[gradient as int] == 1
            &&& lens[out as int] == batch * classes
            &&& per_element(step.grid, lens[out as int] as int)
        },
        Command::BatchNormAffineBackward {
            gradient,
            input,
            mean,
            inverse,
            weight_gradient,
            bias_gradient,
            planes,
        } => {
            &&& planes.wf()
            &&& lens[gradient as int] == planes.len()
            &&& lens[input as int] == planes.len()
            &&& lens[mean as int] == planes.channels
            &&& lens[inverse as int] == planes.channels
            &&& lens[weight_gradient as int] == planes.channels
            &&& lens[bias_gradient as int] == planes.channels
            &&& per_element(step.grid, planes.channels as int)
        },
        Command::BatchNormInputBackward {
            gradient,
            input,
            weight,
            mean,
            inverse,
            weight_gradient,
            bias_gradient,
            out,
            planes,
            ..
        } => {
            &&& planes.wf()
            &&& lens[gradient as int] == planes.len()
            &&& lens[input as int] == planes.len()
            &&& lens[weight as int] == planes.channels
            &&& lens[mean as int] == planes.channels
            &&& lens[inverse as int] == planes.channels
            &&& lens[weight_gradient as int] == planes.channels
            &&& lens[bias_gradient as int] == planes.channels
            &&& lens[out as int] == planes.len()
            &&& per_element(step.grid, planes.len())
        },
        Command::AdamW {
            parameter,
            gradient,
            first,
            second,
            new_parameter,
            new_first,
            new_second,
            ..
        } => {
            let len = lens[new_parameter as int];
            &&& lens[parameter as int] == len
            &&& lens[gradient as int] == len
            &&& lens[first as int] == len
            &&& lens[second as int] == len
            &&& lens[new_first as int] == len
            &&& lens[new_second as int] == len
            &&& per_element(step.grid, len as int)
        },
        _ => true,
    }
}

/// One of the first `n` commands writes the buffer.
pub open spec fn written<T>(log: Seq<Step<T>>, n: int, buffer: usize) -> bool {
    exists|k: int| 0 <= k < n && #[trigger] writes(log[k].command).contains(buffer)
}

/// A command reads what was written before, and writes, once, what was not.
pub open spec fn placed_well<T>(lens: Seq<usize>, log: Seq<Step<T>>, k: int) -> bool {
    let command = log[k].command;
    &&& forall|j: int|
        0 <= j < reads(command).len() ==> {
            let buffer = #[trigger] reads(command)[j];
            buffer < lens.len() && written(log, k, buffer)
        }
    &&& forall|j: int|
        0 <= j < writes(command).len() ==> {
            let buffer = #[trigger] writes(command)[j];
            buffer < lens.len() && !written(log, k, buffer)
        }
    &&& writes(command).no_duplicates()
}

/// Every command is well placed, and its kernel can run.
pub open spec fn safe<T>(ledger: Ledger<T>) -> bool {
    forall|k: int|
        0 <= k < ledger.log.len() ==> placed_well(ledger.lens, ledger.log, k) && ready(
            ledger.lens,
            #[trigger] ledger.log[k],
        )
}

/// A buffer that was written, of a given length.
pub open spec fn holds_so_many<T>(ledger: Ledger<T>, buffer: usize, len: int) -> bool {
    &&& buffer < ledger.lens.len()
    &&& ledger.lens[buffer as int] == len
    &&& written(ledger.log, ledger.log.len() as int, buffer)
}

/// The value of a node stands in a buffer of its length.
pub open spec fn valued_well<T>(graph: Graph<T>, ledger: Ledger<T>, i: usize, buffer: usize) -> bool {
    &&& i < graph.nodes@.len()
    &&& holds_so_many(ledger, buffer, numel(graph.nodes@[i as int].shape@) as int)
}

/// The running statistics of a batch normalization stand in buffers of their length.
pub open spec fn stated_well<T>(graph: Graph<T>, ledger: Ledger<T>, s: usize) -> bool {
    &&& s < graph.norms@.states.len()
    &&& holds_so_many(
        ledger,
        ledger.states[s].0,
        graph.norms@.states[s as int].mean.len() as int,
    )
    &&& holds_so_many(
        ledger,
        ledger.states[s].1,
        graph.norms@.states[s as int].variance.len() as int,
    )
}

/// The statistics that a batch normalization applied stand in buffers of their length.
pub open spec fn measured_well<T>(graph: Graph<T>, ledger: Ledger<T>, i: usize) -> bool {
    &&& i < graph.nodes@.len()
    &&& graph.nodes@[i as int].op is BatchNorm2d
    &&& holds_so_many(
        ledger,
        ledger.statistics[i].0,
        graph.nodes@[i as int].shape@[1] as int,
    )
    &&& holds_so_many(
        ledger,
        ledger.statistics[i].1,
        graph.nodes@[i as int].shape@[1] as int,
    )
}

/// What the executor remembers of a graph stands in buffers of the right lengths.
pub open spec fn remembered<T>(graph: Graph<T>, ledger: Ledger<T>) -> bool {
    &&& forall|i: usize| #[trigger]
        ledger.values.contains_key(i) ==> valued_well(graph, ledger, i, ledger.values[i])
    &&& forall|i: usize| #[trigger]
        ledger.gradients.contains_key(i) ==> valued_well(graph, ledger, i, ledger.gradients[i])
    &&& forall|s: usize| #[trigger]
        ledger.states.contains_key(s) ==> stated_well(graph, ledger, s)
    &&& forall|i: usize| #[trigger]
        ledger.statistics.contains_key(i) ==> measured_well(graph, ledger, i)
    &&& holds_so_many(ledger, ledger.root, 1)
}

/// Gradients, statistics and the single one stay where they are.
pub open spec fn keeps_rest<T>(before: Ledger<T>, after: Ledger<T>) -> bool {
    &&& after.gradients == before.gradients
    &&& after.statistics == before.statistics
    &&& after.root == before.root
}

/// The second ledger only adds buffers and commands to the first.
pub open spec fn lengthens<T>(before: Ledger<T>, after: Ledger<T>) -> bool {
    &&& before.lens.len() <= after.lens.len()
    &&& forall|b: int| 0 <= b < before.lens.len() ==> #[trigger] after.lens[b] == before.lens[b]
    &&& before.log.len() <= after.log.len()
    &&& forall|k: int| 0 <= k < before.log.len() ==> #[trigger] after.log[k] == before.log[k]
}

pub proof fn lemma_lengthens<T>(a: Ledger<T>, b: Ledger<T>, c: Ledger<T>)
    requires
        lengthens(a, b),
        lengthens(b, c),
    ensures
        lengthens(a, c),
{
    assert forall|k: int| 0 <= k < a.log.len() implies #[trigger] c.log[k] == a.log[k] by {
        assert(b.log[k] == a.log[k]);
    }
    assert forall|k: int| 0 <= k < a.lens.len() implies #[trigger] c.lens[k] == a.lens[k] by {
        assert(b.lens[k] == a.lens[k]);
    }
}

/// What was written stays written.
pub proof fn lemma_held<T>(before: Ledger<T>, after: Ledger<T>, buffer: usize, len: int)
    requires
        lengthens(before, after),
        holds_so_many(before, buffer, len),
    ensures
        holds_so_many(after, buffer, len),
{
    let k = choose|k: int|
        0 <= k < before.log.len() && #[trigger] writes(before.log[k].command).contains(buffer);
    assert(after.log[k] == before.log[k]);
    assert(writes(after.log[k].command).contains(buffer));
}

/// Buffers that no command names change nothing.
pub proof fn lemma_more_buffers<T>(before: Ledger<T>, after: Ledger<T>)
    requires
        safe(before),
        lengthens(before, after),
        after.log == before.log,
    ensures
        safe(after),
{
    assert forall|k: int| 0 <= k < after.log.len() implies placed_well(after.lens, after.log, k)
        && ready(after.lens, #[trigger] after.log[k]) by {
        let command = after.log[k].command;
        assert(placed_well(before.lens, before.log, k) && ready(before.lens, before.log[k]));
        lemma_ready_stays(before.lens, after.lens, after.log, k);
    }
}

/// A command stays ready when there are more buffers.
proof fn lemma_ready_stays<T>(before: Seq<usize>, after: Seq<usize>, log: Seq<Step<T>>, k: int)
    requires
        before.len() <= after.len(),
        forall|b: int| 0 <= b < before.len() ==> #[trigger] after[b] == before[b],
        placed_well(before, log, k),
        ready(before, log[k]),
    ensures
        placed_well(after, log, k),
        ready(after, log[k]),
{
    let command = log[k].command;
    let (r, w) = (reads(command), writes(command));
    assert forall|j: int| 0 <= j < r.len() implies after[(#[trigger] r[j]) as int]
        == before[r[j] as int] && r[j] < after.len() by {}
    assert forall|j: int| 0 <= j < w.len() implies after[(#[trigger] w[j]) as int]
        == before[w[j] as int] && w[j] < after.len() by {}
    match command {
        Command::Add { left, right, out } => {
            assert(r[0] == left && r[1] == right && w[0] == out);
        },
        Command::Mul { left, right, out } => {
            assert(r[0] == left && r[1] == right && w[0] == out);
        },
        Command::Relu { input, out } => {
            assert(r[0] == input && w[0] == out);
        },
        Command::MatMul { left, right, out, .. } => {
            assert(r[0] == left && r[1] == right && w[0] == out);
        },
        Command::Conv2d { input, weight, bias, out, .. } => {
            assert(r[0] == input && r[1] == weight && r[2] == bias && w[0] == out);
        },
        Command::AvgPool2d { input, out, .. } => {
            assert(r[0] == input && w[0] == out);
        },
        Command::CrossEntropy { logits, targets, out, .. } => {
            assert(r[0] == logits && r[1] == targets && w[0] == out);
        },
        Command::BatchNormStatistics { input, mean, inverse, variance, .. } => {
            assert(r[0] == input && w[0] == mean && w[1] == inverse && w[2] == variance);
        },
        Command::BatchNormUpdate {
            batch_mean,
            batch_variance,
            old_mean,
            old_variance,
            mean,
            variance,
            ..
        } => {
            assert(r[0] == batch_mean && r[1] == batch_variance && r[2] == old_mean && r[3]
                == old_variance && w[0] == mean && w[1] == variance);
        },
        Command::BatchNormInverse { variance, out, .. } => {
            assert(r[0] == variance && w[0] == out);
        },
        Command::BatchNormApply { input, weight, bias, mean, inverse, out, .. } => {
            assert(r[0] == input && r[1] == weight && r[2] == bias && r[3] == mean && r[4]
                == inverse && w[0] == out);
        },
        Command::Accumulate { left, right, out } => {
            assert(r[0] == left && r[1] == right && w[0] == out);
        },
        Command::MulBackward { gradient, other, out } => {
            assert(r[0] == gradient && r[1] == other && w[0] == out);
        },
        Command::ReluBackward { gradient, input, out } => {
            assert(r[0] == gradient && r[1] == input && w[0] == out);
        },
        Command::MatMulLeftBackward { gradient, right, out, .. } => {
            assert(r[0] == gradient && r[1] == right && w[0] == out);
        },
        Command::MatMulRightBackward { gradient, left, out, .. } => {
            assert(r[0] == gradient && r[1] == left && w[0] == out);
        },
        Command::Conv2dInputBackward { gradient, weight, out, .. } => {
            assert(r[0] == gradient && r[1] == weight && w[0] == out);
        },
        Command::Conv2dWeightBackward { gradient, input, out, .. } => {
            assert(r[0] == gradient && r[1] == input && w[0] == out);
        },
        Command::Conv2dBiasBackward { gradient, out, .. } => {
            assert(r[0] == gradient && w[0] == out);
        },
        Command::AvgPool2dBackward { gradient, out, .. } => {
            assert(r[0] == gradient && w[0] == out);
        },
        Command::CrossEntropyBackward { logits, targets, gradient, out, .. } => {
            assert(r[0] == logits && r[1] == targets && r[2] == gradient && w[0] == out);
        },
        Command::BatchNormAffineBackward {
            gradient,
            input,
            mean,
            inverse,
            weight_gradient,
            bias_gradient,
            ..
        } => {
            assert(r[0] == gradient && r[1] == input && r[2] == mean && r[3] == inverse && w[0]
                == weight_gradient && w[1] == bias_gradient);
        },
        Command::BatchNormInputBackward {
            gradient,
            input,
            weight,
            mean,
            inverse,
            weight_gradient,
            bias_gradient,
            out,
            ..
        } => {
            assert(r[0] == gradient && r[1] == input && r[2] == weight && r[3] == mean && r[4]
                == inverse && r[5] == weight_gradient && r[6] == bias_gradient && w[0] == out);
        },
        Command::AdamW {
            parameter,
            gradient,
            first,
            second,
            new_parameter,
            new_first,
            new_second,
            ..
        } => {
            assert(r[0] == parameter && r[1] == gradient && r[2] == first && r[3] == second && w[0]
                == new_parameter && w[1] == new_first && w[2] == new_second);
        },
        _ => {},
    }
}

/// A command that is given is well placed where it reads what was written, and writes
/// what was not.
pub proof fn lemma_given<T>(ledger: Ledger<T>, command: Command<T>, grid: Option<Grid>)
    requires
        safe(ledger),
        forall|j: int|
            0 <= j < reads(command).len() ==> {
                let buffer = #[trigger] reads(command)[j];
                buffer < ledger.lens.len() && written(
                    ledger.log,
                    ledger.log.len() as int,
                    buffer,
                )
            },
        forall|j: int|
            0 <= j < writes(command).len() ==> {
                let buffer = #[trigger] writes(command)[j];
                buffer < ledger.lens.len() && !written(
                    ledger.log,
                    ledger.log.len() as int,
                    buffer,
                )
            },
        writes(command).no_duplicates(),
        ready(ledger.lens, (Step { command, grid })),
    ensures
        safe(ledger.given(command, grid)),
        lengthens(ledger, ledger.given(command, grid)),
        forall|j: int|
            0 <= j < writes(command).len() ==> {
                let after = ledger.given(command, grid);
                written(after.log, after.log.len() as int, #[trigger] writes(command)[j])
            },
{
    let after = ledger.given(command, grid);
    let n = ledger.log.len() as int;
    assert(after.log[n] == (Step { command, grid }));
    assert forall|b: usize, k: int| 0 <= k <= n implies #[trigger] written(after.log, k, b)
        == written(ledger.log, k, b) by {
        if written(after.log, k, b) {
            let j = choose|j: int|
                0 <= j < k && #[trigger] writes(after.log[j].command).contains(b);
            assert(ledger.log[j] == after.log[j]);
            assert(writes(ledger.log[j].command).contains(b));
        }
        if written(ledger.log, k, b) {
            let j = choose|j: int|
                0 <= j < k && #[trigger] writes(ledger.log[j].command).contains(b);
            assert(ledger.log[j] == after.log[j]);
            assert(writes(after.log[j].command).contains(b));
        }
    }
    assert forall|k: int| 0 <= k < after.log.len() implies placed_well(after.lens, after.log, k)
        && ready(after.lens, #[trigger] after.log[k]) by {
        if k < n {
            assert(after.log[k] == ledger.log[k]);
            assert(placed_well(ledger.lens, ledger.log, k) && ready(ledger.lens, ledger.log[k]));
        }
    }
    assert forall|j: int| 0 <= j < writes(command).len() implies written(
        after.log,
        after.log.len() as int,
        #[trigger] writes(command)[j],
    ) by {
        assert(writes(after.log[n].command).contains(writes(command)[j]));
    }
}

/// A buffer that is not there yet was not written.
pub proof fn lemma_unwritten<T>(ledger: Ledger<T>, buffer: usize)
    requires
        safe(ledger),
        buffer >= ledger.lens.len(),
    ensures
        !written(ledger.log, ledger.log.len() as int, buffer),
{
    if written(ledger.log, ledger.log.len() as int, buffer) {
        let k = choose|k: int|
            0 <= k < ledger.log.len() && #[trigger] writes(ledger.log[k].command).contains(buffer);
        assert(placed_well(ledger.lens, ledger.log, k) && ready(ledger.lens, ledger.log[k]));
        let j = choose|j: int|
            0 <= j < writes(ledger.log[k].command).len() && writes(ledger.log[k].command)[j]
                == buffer;
        assert(writes(ledger.log[k].command)[j] < ledger.lens.len());
    }
}

/// A batch normalization only adds buffers and commands.
proof fn lemma_normed_lengthens<T>(
    ledger: Ledger<T>,
    node: usize,
    len: usize,
    buffers: Seq<usize>,
    state: usize,
    planes: Planes,
    training: bool,
    momentum: T,
    epsilon: T,
)
    ensures
        lengthens(
            ledger,
            ledger.normed(node, len, buffers, state, planes, training, momentum, epsilon).ledger,
        ),
{
    let ready = ledger.with_state(state, planes.channels);
    assert(lengthens(ledger, ready));
    let measured = ready.measured(buffers[0], state, planes, momentum, epsilon);
    assert(lengthens(ready, measured.ledger));
    let (prepared, _) = ledger.prepared(buffers[0], state, planes, training, momentum, epsilon);
    assert(lengthens(ledger, prepared));
}

/// Evaluating only adds buffers and commands.
pub proof fn lemma_evaluated_lengthens<T>(graph: Graph<T>, ledger: Ledger<T>, i: usize)
    requires
        graph.wf(),
        i < graph.nodes@.len(),
    ensures
        lengthens(ledger, evaluated(graph.nodes@, ledger, i as int).ledger),
    decreases i, 4nat,
{
    let nodes = graph.nodes@;
    if !ledger.values.contains_key(i) {
        assert(ordered(nodes, i as int));
        match nodes[i as int].op {
            Op::Placeholder(_) => {},
            Op::Reshape(input) => {
                assert(operands(nodes[i as int].op)[0] == input);
                lemma_evaluated_lengthens(graph, ledger, input);
            },
            _ => {
                let n = operands(nodes[i as int].op).len();
                lemma_all_lengthen(graph, ledger, i, n);
                let (after, result) = all_evaluated(nodes, ledger, i as int, n);
                if let Ok(buffers) = result {
                    let done = computed(nodes, after, i as int, buffers);
                    if let Op::BatchNorm2d { input, state, training, momentum, epsilon, .. } =
                        nodes[i as int].op {
                        lemma_normed_lengthens(
                            after,
                            i,
                            elements(nodes, i as int),
                            buffers,
                            state,
                            planes_of(nodes[input as int].shape@),
                            training,
                            momentum,
                            epsilon,
                        );
                    }
                    assert(lengthens(after, done.ledger));
                    lemma_lengthens(ledger, after, done.ledger);
                }
            },
        }
    }
}

proof fn lemma_all_lengthen<T>(graph: Graph<T>, ledger: Ledger<T>, i: usize, k: nat)
    requires
        graph.wf(),
        i < graph.nodes@.len(),
        k <= operands(graph.nodes@[i as int].op).len(),
    ensures
        lengthens(ledger, all_evaluated(graph.nodes@, ledger, i as int, k).0),
    decreases i, k,
{
    let nodes = graph.nodes@;
    if k > 0 {
        lemma_all_lengthen(graph, ledger, i, (k - 1) as nat);
        let (before, result) = all_evaluated(nodes, ledger, i as int, (k - 1) as nat);
        assert(ordered(nodes, i as int));
        let operand = operands(nodes[i as int].op)[k - 1];
        if result is Ok {
            lemma_evaluated_lengthens(graph, before, operand);
            lemma_lengthens(ledger, before, evaluated(nodes, before, operand as int).ledger);
        }
    }
}

/// A launch into a buffer of its own is safe where its kernel can run.
pub proof fn lemma_launched<T>(
    ledger: Ledger<T>,
    len: usize,
    grid: std::result::Result<Grid, crate::error::Failure>,
    command: Command<T>,
)
    requires
        safe(ledger),
        ledger.lens.len() < usize::MAX,
        forall|j: int|
            0 <= j < reads(command).len() ==> {
                let buffer = #[trigger] reads(command)[j];
                buffer < ledger.lens.len() && written(
                    ledger.log,
                    ledger.log.len() as int,
                    buffer,
                )
            },
        writes(command) == seq![ledger.next()],
        grid matches Ok(found) ==> ready(
            ledger.lens.push(len),
            (Step { command, grid: Some(found) }),
        ),
    ensures
        ({
            let done = ledger.launched(len, grid, command);
            &&& safe(done.ledger)
            &&& lengthens(ledger, done.ledger)
            &&& done.ledger.values == ledger.values
            &&& done.ledger.states == ledger.states
            &&& keeps_rest(ledger, done.ledger)
            &&& done.result matches Ok(out) ==> holds_so_many(done.ledger, out, len as int)
        }),
{
    let made = ledger.with_buffer(len);
    let out = ledger.next();
    lemma_more_buffers(ledger, made);
    lemma_unwritten(ledger, out);
    if let Ok(found) = grid {
        let w = writes(command);
        assert(w.no_duplicates());
        assert forall|j: int| 0 <= j < w.len() implies {
            let buffer = #[trigger] w[j];
            buffer < made.lens.len() && !written(made.log, made.log.len() as int, buffer)
        } by {}
        lemma_given(made, command, Some(found));
        let after = made.given(command, Some(found));
        assert(written(after.log, after.log.len() as int, w[0]));
        lemma_lengthens(ledger, made, after);
    }
}

/// Copying a node's data is safe.
proof fn lemma_uploaded<T>(ledger: Ledger<T>, node: usize, len: usize)
    requires
        safe(ledger),
        ledger.lens.len() < usize::MAX,
    ensures
        ({
            let done = ledger.uploaded(node, len);
            &&& safe(done.ledger)
            &&& lengthens(ledger, done.ledger)
            &&& done.ledger.values == ledger.values
            &&& done.ledger.states == ledger.states
            &&& keeps_rest(ledger, done.ledger)
            &&& done.result matches Ok(out) ==> holds_so_many(done.ledger, out, len as int)
        }),
{
    let command = Command::<T>::Synchronize;
    lemma_given(ledger, command, None);
    let settled = ledger.settled();
    assert(safe(settled) && lengthens(ledger, settled)) by {
        let given = ledger.given(command, None);
        assert(settled.lens == given.lens && settled.log == given.log);
        lemma_more_buffers(given, settled);
    }
    let done = ledger.uploaded(node, len);
    let before = if done.ledger.log.len() == ledger.log.len() + 2 {
        settled
    } else {
        ledger
    };
    let out = before.next();
    let upload = Command::<T>::Upload { node, out };
    let made = before.with_buffer(len);
    lemma_more_buffers(before, made);
    lemma_unwritten(before, out);
    let w = writes(upload);
    assert(w.no_duplicates());
    assert forall|j: int| 0 <= j < w.len() implies {
        let buffer = #[trigger] w[j];
        buffer < made.lens.len() && !written(made.log, made.log.len() as int, buffer)
    } by {}
    lemma_given(made, upload, None);
    let after = made.given(upload, None);
    assert(written(after.log, after.log.len() as int, w[0]));
    assert(done.ledger.lens == after.lens && done.ledger.log == after.log);
    lemma_more_buffers(after, done.ledger);
    lemma_lengthens(ledger, before, after);
}

/// A copy into a buffer of its own is safe.
proof fn lemma_copied<T>(ledger: Ledger<T>, len: usize, command: Command<T>)
    requires
        safe(ledger),
        ledger.lens.len() < usize::MAX,
        reads(command).len() == 0,
        writes(command) == seq![ledger.next()],
        ready(ledger.lens.push(len), (Step { command, grid: None })),
    ensures
        ({
            let after = ledger.with_buffer(len).given(command, None);
            &&& safe(after)
            &&& lengthens(ledger, after)
            &&& holds_so_many(after, ledger.next(), len as int)
        }),
{
    let made = ledger.with_buffer(len);
    lemma_more_buffers(ledger, made);
    lemma_unwritten(ledger, ledger.next());
    let w = writes(command);
    assert(w.no_duplicates());
    assert forall|j: int| 0 <= j < w.len() implies {
        let buffer = #[trigger] w[j];
        buffer < made.lens.len() && !written(made.log, made.log.len() as int, buffer)
    } by {}
    lemma_given(made, command, None);
    let after = made.given(command, None);
    assert(written(after.log, after.log.len() as int, w[0]));
    lemma_lengthens(ledger, made, after);
}

/// The running statistics of a batch normalization stand in buffers of their own.
pub open spec fn stated<T>(ledger: Ledger<T>, state: usize, channels: int) -> bool {
    &&& ledger.states.contains_key(state)
    &&& holds_so_many(ledger, ledger.states[state].0, channels)
    &&& holds_so_many(ledger, ledger.states[state].1, channels)
}

proof fn lemma_with_state<T>(ledger: Ledger<T>, state: usize, channels: usize)
    requires
        safe(ledger),
        ledger.with_state(state, channels).lens.len() <= usize::MAX,
        ledger.states.contains_key(state) ==> stated(ledger, state, channels as int),
    ensures
        ({
            let after = ledger.with_state(state, channels);
            &&& safe(after)
            &&& lengthens(ledger, after)
            &&& after.values == ledger.values
            &&& keeps_rest(ledger, after)
            &&& stated(after, state, channels as int)
            &&& forall|s: usize| s != state ==> (#[trigger] after.states.contains_key(s)
                == ledger.states.contains_key(s)) && after.states[s] == ledger.states[s]
        }),
{
    if !ledger.states.contains_key(state) {
        let mean = ledger.next();
        let up = Command::<T>::UploadMean { state, out: mean };
        lemma_copied(ledger, channels, up);
        let first = ledger.with_buffer(channels).given(up, None);
        let variance = first.next();
        let down = Command::<T>::UploadVariance { state, out: variance };
        lemma_copied(first, channels, down);
        let second = first.with_buffer(channels).given(down, None);
        lemma_held(first, second, mean, channels as int);
        lemma_lengthens(ledger, first, second);
        let after = ledger.with_state(state, channels);
        assert(after.lens == second.lens && after.log == second.log);
        lemma_more_buffers(second, after);
    }
}

/// Measuring a batch, and moving the running statistics, is safe.
proof fn lemma_measured<T>(
    ledger: Ledger<T>,
    input: usize,
    state: usize,
    planes: Planes,
    momentum: T,
    epsilon: T,
)
    requires
        safe(ledger),
        ledger.measured(input, state, planes, momentum, epsilon).ledger.lens.len() <= usize::MAX,
        stated(ledger, state, planes.channels as int),
        planes.wf(),
        planes.samples() > 1,
        holds_so_many(ledger, input, planes.len()),
    ensures
        ({
            let done = ledger.measured(input, state, planes, momentum, epsilon);
            &&& safe(done.ledger)
            &&& lengthens(ledger, done.ledger)
            &&& done.ledger.values == ledger.values
            &&& keeps_rest(ledger, done.ledger)
            &&& stated(done.ledger, state, planes.channels as int)
            &&& done.result matches Ok(mean) ==> {
                &&& holds_so_many(done.ledger, mean, planes.channels as int)
                &&& holds_so_many(done.ledger, (mean + 1) as usize, planes.channels as int)
            }
            &&& forall|s: usize| s != state ==> (#[trigger] done.ledger.states.contains_key(s)
                == ledger.states.contains_key(s)) && done.ledger.states[s] == ledger.states[s]
        }),
{
    let channels = planes.channels;
    let mean = ledger.next();
    let inverse = (mean + 1) as usize;
    let variance = (mean + 2) as usize;
    let made = ledger.with_buffer(channels).with_buffer(channels).with_buffer(channels);
    let (old_mean, old_variance) = ledger.states[state];
    let done = ledger.measured(input, state, planes, momentum, epsilon);
    assert(lengthens(ledger, made));
    assert(made.lens.len() <= done.ledger.lens.len());
    lemma_more_buffers(ledger, made);
    lemma_held(ledger, made, input, planes.len());
    lemma_held(ledger, made, old_mean, channels as int);
    lemma_held(ledger, made, old_variance, channels as int);
    if let Ok(grid) = grid_of(channels as nat) {
        lemma_unwritten(ledger, mean);
        lemma_unwritten(ledger, inverse);
        lemma_unwritten(ledger, variance);
        let measure = Command::BatchNormStatistics {
            input,
            mean,
            inverse,
            variance,
            planes,
            epsilon,
        };
        let w = writes(measure);
        assert(w.no_duplicates());
        assert forall|j: int| 0 <= j < w.len() implies {
            let buffer = #[trigger] w[j];
            buffer < made.lens.len() && !written(made.log, made.log.len() as int, buffer)
        } by {}
        lemma_given(made, measure, Some(grid));
        let first = made.given(measure, Some(grid));
        assert(written(first.log, first.log.len() as int, w[0]));
        assert(written(first.log, first.log.len() as int, w[1]));
        assert(written(first.log, first.log.len() as int, w[2]));
        lemma_held(made, first, old_mean, channels as int);
        lemma_held(made, first, old_variance, channels as int);
        let new_mean = (mean + 3) as usize;
        let new_variance = (mean + 4) as usize;
        let more = first.with_buffer(channels).with_buffer(channels);
        assert(lengthens(first, more));
        lemma_more_buffers(first, more);
        lemma_unwritten(first, new_mean);
        lemma_unwritten(first, new_variance);
        let update = Command::BatchNormUpdate {
            batch_mean: mean,
            batch_variance: variance,
            old_mean,
            old_variance,
            mean: new_mean,
            variance: new_variance,
            momentum,
        };
        let v = writes(update);
        assert(v.no_duplicates());
        assert forall|j: int| 0 <= j < v.len() implies {
            let buffer = #[trigger] v[j];
            buffer < more.lens.len() && !written(more.log, more.log.len() as int, buffer)
        } by {}
        lemma_given(more, update, Some(grid));
        let after = more.given(update, Some(grid));
        assert(written(after.log, after.log.len() as int, v[0]));
        assert(written(after.log, after.log.len() as int, v[1]));
        lemma_lengthens(first, more, after);
        lemma_lengthens(ledger, made, first);
        lemma_lengthens(ledger, first, after);
        lemma_held(first, after, mean, channels as int);
        lemma_held(first, after, inverse, channels as int);
        assert(done.ledger.lens == after.lens && done.ledger.log == after.log);
        lemma_more_buffers(after, done.ledger);
    }
}

/// Preparing the statistics of a batch normalization is safe.
proof fn lemma_prepared<T>(
    ledger: Ledger<T>,
    input: usize,
    state: usize,
    planes: Planes,
    training: bool,
    momentum: T,
    epsilon: T,
)
    requires
        safe(ledger),
        ledger.prepared(input, state, planes, training, momentum, epsilon).0.lens.len()
            <= usize::MAX,
        ledger.states.contains_key(state) ==> stated(ledger, state, planes.channels as int),
        planes.wf(),
        training ==> planes.samples() > 1,
        holds_so_many(ledger, input, planes.len()),
    ensures
        ({
            let (after, result) = ledger.prepared(
                input,
                state,
                planes,
                training,
                momentum,
                epsilon,
            );
            &&& safe(after)
            &&& lengthens(ledger, after)
            &&& after.values == ledger.values
            &&& keeps_rest(ledger, after)
            &&& stated(after, state, planes.channels as int)
            &&& result matches Ok((mean, inverse)) ==> {
                &&& holds_so_many(after, mean, planes.channels as int)
                &&& holds_so_many(after, inverse, planes.channels as int)
            }
            &&& forall|s: usize| s != state ==> (#[trigger] after.states.contains_key(s)
                == ledger.states.contains_key(s)) && after.states[s] == ledger.states[s]
        }),
{
    let ready_one = ledger.with_state(state, planes.channels);
    let (after, _) = ledger.prepared(input, state, planes, training, momentum, epsilon);
    if training {
        let done = ready_one.measured(input, state, planes, momentum, epsilon);
        assert(ready_one.lens.len() <= done.ledger.lens.len());
        lemma_with_state(ledger, state, planes.channels);
        lemma_held(ledger, ready_one, input, planes.len());
        lemma_measured(ready_one, input, state, planes, momentum, epsilon);
        lemma_lengthens(ledger, ready_one, after);
    } else {
        let out = ready_one.next();
        assert(ready_one.lens.len() + 1 == after.lens.len());
        lemma_with_state(ledger, state, planes.channels);
        let (mean, variance) = ready_one.states[state];
        let command = Command::BatchNormInverse { variance, out, epsilon };
        lemma_launched(ready_one, planes.channels, grid_of(planes.channels as nat), command);
        lemma_lengthens(ledger, ready_one, after);
        lemma_held(ready_one, after, mean, planes.channels as int);
        lemma_held(ready_one, after, variance, planes.channels as int);
    }
}

/// A batch normalization is safe.
proof fn lemma_normed<T>(
    ledger: Ledger<T>,
    node: usize,
    len: usize,
    buffers: Seq<usize>,
    state: usize,
    planes: Planes,
    training: bool,
    momentum: T,
    epsilon: T,
)
    requires
        safe(ledger),
        ledger.normed(
            node,
            len,
            buffers,
            state,
            planes,
            training,
            momentum,
            epsilon,
        ).ledger.lens.len() <= usize::MAX,
        ledger.states.contains_key(state) ==> stated(ledger, state, planes.channels as int),
        planes.wf(),
        len == planes.len(),
        holds_so_many(ledger, buffers[0], planes.len()),
        holds_so_many(ledger, buffers[1], planes.channels as int),
        holds_so_many(ledger, buffers[2], planes.channels as int),
    ensures
        ({
            let done = ledger.normed(
                node,
                len,
                buffers,
                state,
                planes,
                training,
                momentum,
                epsilon,
            );
            &&& safe(done.ledger)
            &&& lengthens(ledger, done.ledger)
            &&& done.ledger.values == ledger.values
            &&& done.ledger.gradients == ledger.gradients
            &&& done.ledger.root == ledger.root
            &&& done.result is Err ==> done.ledger.statistics == ledger.statistics
            &&& done.result is Ok ==> {
                &&& done.ledger.statistics == ledger.statistics.insert(
                    node,
                    done.ledger.statistics[node],
                )
                &&& holds_so_many(
                    done.ledger,
                    done.ledger.statistics[node].0,
                    planes.channels as int,
                )
                &&& holds_so_many(
                    done.ledger,
                    done.ledger.statistics[node].1,
                    planes.channels as int,
                )
            }
            &&& done.ledger.states.contains_key(state) ==> stated(
                done.ledger,
                state,
                planes.channels as int,
            )
            &&& done.result matches Ok(out) ==> holds_so_many(done.ledger, out, len as int)
            &&& forall|s: usize| s != state ==> (#[trigger] done.ledger.states.contains_key(s)
                == ledger.states.contains_key(s)) && done.ledger.states[s] == ledger.states[s]
        }),
{
    let done = ledger.normed(node, len, buffers, state, planes, training, momentum, epsilon);
    if !(training && planes.samples() <= 1) {
        let (prepared, statistics) = ledger.prepared(
            buffers[0],
            state,
            planes,
            training,
            momentum,
            epsilon,
        );
        assert(prepared.lens.len() <= done.ledger.lens.len());
        lemma_prepared(ledger, buffers[0], state, planes, training, momentum, epsilon);
        if let Ok((mean, inverse)) = statistics {
            lemma_held(ledger, prepared, buffers[0], planes.len());
            lemma_held(ledger, prepared, buffers[1], planes.channels as int);
            lemma_held(ledger, prepared, buffers[2], planes.channels as int);
            let out = prepared.next();
            let command = Command::BatchNormApply {
                input: buffers[0],
                weight: buffers[1],
                bias: buffers[2],
                mean,
                inverse,
                out,
                planes,
            };
            let launched = prepared.launched(len, grid_of(len as nat), command);
            lemma_launched(prepared, len, grid_of(len as nat), command);
            assert(done.ledger.lens == launched.ledger.lens && done.ledger.log
                == launched.ledger.log);
            lemma_more_buffers(launched.ledger, done.ledger);
            lemma_lengthens(ledger, prepared, done.ledger);
            lemma_held(prepared, done.ledger, prepared.states[state].0, planes.channels as int);
            lemma_held(prepared, done.ledger, prepared.states[state].1, planes.channels as int);
            lemma_held(prepared, done.ledger, mean, planes.channels as int);
            lemma_held(prepared, done.ledger, inverse, planes.channels as int);
        }
    }
}

/// The kernels of a device convolve by squares.
pub open spec fn squares<T>(nodes: Seq<Node<T>>, node: int) -> bool {
    forall|i: int| #[trigger]
        reaches(nodes, node, i) ==> (nodes[i].op matches Op::Conv2d { weight, .. }
            ==> nodes[weight as int].shape@[2] == nodes[weight as int].shape@[3])
}

/// The command of a node can run on the buffers of its operands.
proof fn lemma_command_ready<T>(
    graph: Graph<T>,
    ledger: Ledger<T>,
    i: usize,
    buffers: Seq<usize>,
    grid: Grid,
)
    requires
        graph.wf(),
        i < graph.nodes@.len(),
        fits(graph.nodes@, i as int),
        squares(graph.nodes@, i as int),
        ledger.lens.len() < usize::MAX,
        !(graph.nodes@[i as int].op is Data),
        !(graph.nodes@[i as int].op is Placeholder),
        !(graph.nodes@[i as int].op is Reshape),
        !(graph.nodes@[i as int].op is BatchNorm2d),
        buffers.len() == operands(graph.nodes@[i as int].op).len(),
        forall|k: int|
            0 <= k < buffers.len() ==> holds_so_many(
                ledger,
                #[trigger] buffers[k],
                numel(
                    graph.nodes@[operands(graph.nodes@[i as int].op)[k] as int].shape@,
                ) as int,
            ),
        command_for(graph.nodes@, i as int, buffers, ledger.next()).1 == std::result::Result::<
            Grid,
            crate::error::Failure,
        >::Ok(grid),
    ensures
        ready(
            ledger.lens.push(elements(graph.nodes@, i as int)),
            (Step {
                command: command_for(graph.nodes@, i as int, buffers, ledger.next()).0,
                grid: Some(grid),
            }),
        ),
        reads(command_for(graph.nodes@, i as int, buffers, ledger.next()).0) == buffers,
        writes(command_for(graph.nodes@, i as int, buffers, ledger.next()).0) == seq![
            ledger.next(),
        ],
{
    let nodes = graph.nodes@;
    let n = i as int;
    let list = operands(nodes[n].op);
    let lens = ledger.lens.push(elements(nodes, n));
    assert(ordered(nodes, n));
    assert(shaped(nodes, graph.norms@, n));
    assert(reaches(nodes, n, n));
    assert(fits_alone(nodes, n));
    assert forall|k: int| 0 <= k < buffers.len() implies lens[(#[trigger] buffers[k]) as int]
        == numel(nodes[list[k] as int].shape@) && numel(nodes[list[k] as int].shape@)
        <= usize::MAX by {}
    let (command, _) = command_for(nodes, n, buffers, ledger.next());
    match nodes[n].op {
        Op::Add(left, right) => {
            assert(list[0] == left && list[1] == right);
            assert(reads(command) =~= buffers);
            assert(lens[buffers[0] as int] == numel(nodes[left as int].shape@));
            assert(lens[buffers[1] as int] == numel(nodes[right as int].shape@));
        },
        Op::Mul(left, right) => {
            assert(list[0] == left && list[1] == right);
            assert(reads(command) =~= buffers);
            assert(lens[buffers[0] as int] == numel(nodes[left as int].shape@));
            assert(lens[buffers[1] as int] == numel(nodes[right as int].shape@));
        },
        Op::Relu(input) => {
            assert(list[0] == input);
            assert(reads(command) =~= buffers);
            assert(lens[buffers[0] as int] == numel(nodes[input as int].shape@));
        },
        Op::MatMul(left, right) => {
            assert(list[0] == left && list[1] == right);
            assert(reads(command) =~= buffers);
            assert(lens[buffers[0] as int] == numel(nodes[left as int].shape@));
            assert(lens[buffers[1] as int] == numel(nodes[right as int].shape@));
            lemma_numel_2(nodes[left as int].shape@);
            lemma_numel_2(nodes[right as int].shape@);
            lemma_numel_2(nodes[n].shape@);
        },
        Op::Conv2d { input, weight, bias, stride, padding, groups } => {
            assert(list[0] == input && list[1] == weight && list[2] == bias);
            assert(reads(command) =~= buffers);
            assert(lens[buffers[0] as int] == numel(nodes[input as int].shape@));
            assert(lens[buffers[1] as int] == numel(nodes[weight as int].shape@));
            assert(lens[buffers[2] as int] == numel(nodes[bias as int].shape@));
            lemma_convolution(
                nodes,
                graph.norms@,
                n,
                input,
                weight,
                bias,
                stride,
                padding,
                groups,
            );
            let geometry = convolution(nodes, input as int, weight as int, stride, padding, groups);
            let x = nodes[input as int].shape@;
            let w = nodes[weight as int].shape@;
            crate::index::lemma_div_bound(x[2] + 2 * padding - w[2], stride as int);
            crate::index::lemma_div_bound(x[3] + 2 * padding - w[3], stride as int);
            assert(geometry.out_h() == nodes[n].shape@[2]);
            assert(geometry.out_w() == nodes[n].shape@[3]);
            assert(square(geometry));
            assert(0 <= x[0] * w[0]) by (nonlinear_arith);
        },
        Op::AvgPool2d { input, kernel, stride } => {
            assert(list[0] == input);
            assert(reads(command) =~= buffers);
            assert(lens[buffers[0] as int] == numel(nodes[input as int].shape@));
            lemma_pooling(nodes, graph.norms@, n, input, kernel, stride);
        },
        Op::CrossEntropy { logits, targets } => {
            assert(list[0] == logits && list[1] == targets);
            assert(reads(command) =~= buffers);
            assert(lens[buffers[0] as int] == numel(nodes[logits as int].shape@));
            assert(lens[buffers[1] as int] == numel(nodes[targets as int].shape@));
            lemma_numel_2(nodes[logits as int].shape@);
            lemma_numel_1(nodes[targets as int].shape@);
            lemma_numel_1(nodes[n].shape@);
        },
        _ => {},
    }
}

/// What is remembered stays in its buffers.
pub proof fn lemma_remembered_stays<T>(graph: Graph<T>, before: Ledger<T>, after: Ledger<T>)
    requires
        remembered(graph, before),
        lengthens(before, after),
        forall|i: usize| #[trigger]
            after.values.contains_key(i) ==> (before.values.contains_key(i) && after.values[i]
                == before.values[i]) || valued_well(graph, after, i, after.values[i]),
        forall|i: usize| #[trigger]
            after.gradients.contains_key(i) ==> (before.gradients.contains_key(i)
                && after.gradients[i] == before.gradients[i]) || valued_well(
                graph,
                after,
                i,
                after.gradients[i],
            ),
        forall|s: usize| #[trigger]
            after.states.contains_key(s) ==> (before.states.contains_key(s) && after.states[s]
                == before.states[s]) || stated_well(graph, after, s),
        forall|i: usize| #[trigger]
            after.statistics.contains_key(i) ==> (before.statistics.contains_key(i)
                && after.statistics[i] == before.statistics[i]) || measured_well(graph, after, i),
        after.root == before.root,
    ensures
        remembered(graph, after),
{
    assert forall|i: usize| #[trigger] after.values.contains_key(i) implies valued_well(
        graph,
        after,
        i,
        after.values[i],
    ) by {
        if !valued_well(graph, after, i, after.values[i]) {
            assert(valued_well(graph, before, i, before.values[i]));
            lemma_held(
                before,
                after,
                before.values[i],
                numel(graph.nodes@[i as int].shape@) as int,
            );
        }
    }
    assert forall|i: usize| #[trigger] after.gradients.contains_key(i) implies valued_well(
        graph,
        after,
        i,
        after.gradients[i],
    ) by {
        if !valued_well(graph, after, i, after.gradients[i]) {
            assert(valued_well(graph, before, i, before.gradients[i]));
            lemma_held(
                before,
                after,
                before.gradients[i],
                numel(graph.nodes@[i as int].shape@) as int,
            );
        }
    }
    assert forall|s: usize| #[trigger] after.states.contains_key(s) implies stated_well(
        graph,
        after,
        s,
    ) by {
        if !stated_well(graph, after, s) {
            assert(stated_well(graph, before, s));
            let state = graph.norms@.states[s as int];
            lemma_held(before, after, before.states[s].0, state.mean.len() as int);
            lemma_held(before, after, before.states[s].1, state.variance.len() as int);
        }
    }
    assert forall|i: usize| #[trigger] after.statistics.contains_key(i) implies measured_well(
        graph,
        after,
        i,
    ) by {
        if !measured_well(graph, after, i) {
            assert(measured_well(graph, before, i));
            let channels = graph.nodes@[i as int].shape@[1] as int;
            lemma_held(before, after, before.statistics[i].0, channels);
            lemma_held(before, after, before.statistics[i].1, channels);
        }
    }
    lemma_held(before, after, before.root, 1);
}

/// Computing a node from the buffers of its operands is safe.
proof fn lemma_computed<T>(graph: Graph<T>, ledger: Ledger<T>, i: usize, buffers: Seq<usize>)
    requires
        graph.wf(),
        i < graph.nodes@.len(),
        fits(graph.nodes@, i as int),
        squares(graph.nodes@, i as int),
        safe(ledger),
        remembered(graph, ledger),
        !(graph.nodes@[i as int].op is Placeholder),
        !(graph.nodes@[i as int].op is Reshape),
        buffers.len() == operands(graph.nodes@[i as int].op).len(),
        forall|k: int|
            0 <= k < buffers.len() ==> holds_so_many(
                ledger,
                #[trigger] buffers[k],
                numel(
                    graph.nodes@[operands(graph.nodes@[i as int].op)[k] as int].shape@,
                ) as int,
            ),
        computed(graph.nodes@, ledger, i as int, buffers).ledger.lens.len() <= usize::MAX,
    ensures
        ({
            let done = computed(graph.nodes@, ledger, i as int, buffers);
            &&& safe(done.ledger)
            &&& remembered(graph, done.ledger)
            &&& done.result matches Ok(out) ==> holds_so_many(
                done.ledger,
                out,
                numel(graph.nodes@[i as int].shape@) as int,
            )
        }),
{
    let nodes = graph.nodes@;
    let n = i as int;
    let len = elements(nodes, n);
    let list = operands(nodes[n].op);
    assert(reaches(nodes, n, n));
    assert(fits_alone(nodes, n));
    assert(shaped(nodes, graph.norms@, n));
    let done = computed(nodes, ledger, n, buffers);
    let plain = match nodes[n].op {
        Op::Data(_) => ledger.uploaded(i, len),
        Op::BatchNorm2d { input, state, training, momentum, epsilon, .. } => ledger.normed(
            i,
            len,
            buffers,
            state,
            planes_of(nodes[input as int].shape@),
            training,
            momentum,
            epsilon,
        ),
        _ => {
            let (command, grid) = command_for(nodes, n, buffers, ledger.next());
            ledger.launched(len, grid, command)
        },
    };
    assert(done.ledger.lens == plain.ledger.lens && done.ledger.log == plain.ledger.log);
    match nodes[n].op {
        Op::Data(_) => {
            lemma_uploaded(ledger, i, len);
            lemma_remembered_stays(graph, ledger, plain.ledger);
        },
        Op::BatchNorm2d { input, weight, bias, state, training, momentum, epsilon, .. } => {
            let shape = nodes[input as int].shape@;
            let planes = planes_of(shape);
            assert(list[0] == input && list[1] == weight && list[2] == bias);
            lemma_planes(nodes[n].shape@);
            lemma_numel_1(nodes[weight as int].shape@);
            lemma_numel_1(nodes[bias as int].shape@);
            assert(holds_so_many(ledger, buffers[0], planes.len()));
            assert(holds_so_many(ledger, buffers[1], planes.channels as int));
            assert(holds_so_many(ledger, buffers[2], planes.channels as int));
            lemma_normed(ledger, i, len, buffers, state, planes, training, momentum, epsilon);
            assert forall|s: usize| #[trigger] plain.ledger.states.contains_key(s) implies (
            ledger.states.contains_key(s) && plain.ledger.states[s] == ledger.states[s])
                || stated_well(graph, plain.ledger, s) by {
                if s == state {
                    assert(stated(plain.ledger, state, planes.channels as int));
                }
            }
            lemma_remembered_stays(graph, ledger, plain.ledger);
        },
        _ => {
            let (command, grid) = command_for(nodes, n, buffers, ledger.next());
            assert(plain.ledger.lens.len() == ledger.lens.len() + 1);
            lemma_command_reads(graph, ledger, i, buffers);
            if let Ok(found) = grid {
                lemma_command_ready(graph, ledger, i, buffers, found);
            }
            lemma_launched(ledger, len, grid, command);
            lemma_remembered_stays(graph, ledger, plain.ledger);
        },
    }
    lemma_more_buffers(plain.ledger, done.ledger);
    if let Ok(out) = done.result {
        lemma_held(plain.ledger, done.ledger, out, len as int);
        assert(valued_well(graph, done.ledger, i, out));
    }
    lemma_remembered_stays(graph, plain.ledger, done.ledger);
}

/// The command of a node reads the buffers of its operands and writes the next one.
proof fn lemma_command_reads<T>(graph: Graph<T>, ledger: Ledger<T>, i: usize, buffers: Seq<usize>)
    requires
        i < graph.nodes@.len(),
        !(graph.nodes@[i as int].op is Data),
        !(graph.nodes@[i as int].op is Placeholder),
        !(graph.nodes@[i as int].op is Reshape),
        !(graph.nodes@[i as int].op is BatchNorm2d),
        buffers.len() == operands(graph.nodes@[i as int].op).len(),
    ensures
        reads(command_for(graph.nodes@, i as int, buffers, ledger.next()).0) == buffers,
        writes(command_for(graph.nodes@, i as int, buffers, ledger.next()).0) == seq![
            ledger.next(),
        ],
{
    let (command, _) = command_for(graph.nodes@, i as int, buffers, ledger.next());
    assert(reads(command) =~= buffers);
}

/// Whatever is evaluated, every launch reads buffers that were written before it, writes
/// buffers of its own, and finds all of them of the lengths that its kernel asks for, with
/// a thread for every element that it writes.
pub proof fn launches_are_safe<T>(graph: Graph<T>, ledger: Ledger<T>, i: usize)
    requires
        graph.wf(),
        i < graph.nodes@.len(),
        fits(graph.nodes@, i as int),
        squares(graph.nodes@, i as int),
        safe(ledger),
        remembered(graph, ledger),
        evaluated(graph.nodes@, ledger, i as int).ledger.lens.len() <= usize::MAX,
    ensures
        ({
            let done = evaluated(graph.nodes@, ledger, i as int);
            &&& safe(done.ledger)
            &&& remembered(graph, done.ledger)
            &&& lengthens(ledger, done.ledger)
            &&& done.result matches Ok(out) ==> holds_so_many(
                done.ledger,
                out,
                numel(graph.nodes@[i as int].shape@) as int,
            )
        }),
    decreases i, 4nat,
{
    let nodes = graph.nodes@;
    lemma_evaluated_lengthens(graph, ledger, i);
    if !ledger.values.contains_key(i) {
        assert(ordered(nodes, i as int));
        match nodes[i as int].op {
            Op::Placeholder(_) => {},
            Op::Reshape(input) => {
                assert(operands(nodes[i as int].op)[0] == input);
                lemma_fits_operand(nodes, i as int, 0);
                lemma_squares_operand(nodes, i as int, 0);
                assert(shaped(nodes, graph.norms@, i as int));
                launches_are_safe(graph, ledger, input);
            },
            _ => {
                let n = operands(nodes[i as int].op).len();
                let (after, result) = all_evaluated(nodes, ledger, i as int, n);
                lemma_all_lengthen(graph, ledger, i, n);
                if let Ok(buffers) = result {
                    let done = computed(nodes, after, i as int, buffers);
                    if let Op::BatchNorm2d { input, state, training, momentum, epsilon, .. } =
                        nodes[i as int].op {
                        lemma_normed_lengthens(
                            after,
                            i,
                            elements(nodes, i as int),
                            buffers,
                            state,
                            planes_of(nodes[input as int].shape@),
                            training,
                            momentum,
                            epsilon,
                        );
                    }
                    assert(lengthens(after, done.ledger));
                    lemma_all_safe(graph, ledger, i, n);
                    lemma_computed(graph, after, i, buffers);
                } else {
                    lemma_all_safe(graph, ledger, i, n);
                }
            },
        }
    }
}

pub proof fn lemma_squares_operand<T>(nodes: Seq<Node<T>>, node: int, k: int)
    requires
        squares(nodes, node),
        0 <= k < operands(nodes[node].op).len(),
        operands(nodes[node].op)[k] < node,
    ensures
        squares(nodes, operands(nodes[node].op)[k] as int),
{
    let operand = operands(nodes[node].op)[k] as int;
    assert forall|i: int| #[trigger] reaches(nodes, operand, i) implies (
    nodes[i].op matches Op::Conv2d { weight, .. } ==> nodes[weight as int].shape@[2]
        == nodes[weight as int].shape@[3]) by {
        crate::graph::lemma_reaches_operand(nodes, node, k, i);
    }
}

proof fn lemma_all_safe<T>(graph: Graph<T>, ledger: Ledger<T>, i: usize, k: nat)
    requires
        graph.wf(),
        i < graph.nodes@.len(),
        fits(graph.nodes@, i as int),
        squares(graph.nodes@, i as int),
        safe(ledger),
        remembered(graph, ledger),
        k <= operands(graph.nodes@[i as int].op).len(),
        all_evaluated(graph.nodes@, ledger, i as int, k).0.lens.len() <= usize::MAX,
    ensures
        ({
            let (after, result) = all_evaluated(graph.nodes@, ledger, i as int, k);
            &&& safe(after)
            &&& remembered(graph, after)
            &&& result matches Ok(buffers) ==> buffers.len() == k && forall|j: int|
                0 <= j < k ==> holds_so_many(
                    after,
                    #[trigger] buffers[j],
                    numel(
                        graph.nodes@[operands(graph.nodes@[i as int].op)[j] as int].shape@,
                    ) as int,
                )
        }),
    decreases i, k,
{
    let nodes = graph.nodes@;
    if k > 0 {
        let (before, result) = all_evaluated(nodes, ledger, i as int, (k - 1) as nat);
        let (after, all) = all_evaluated(nodes, ledger, i as int, k);
        assert(ordered(nodes, i as int));
        let list = operands(nodes[i as int].op);
        let operand = list[k - 1];
        assert(operand < i);
        if let Ok(buffers) = result {
            lemma_evaluated_lengthens(graph, before, operand);
            lemma_all_safe(graph, ledger, i, (k - 1) as nat);
            lemma_fits_operand(nodes, i as int, k - 1);
            lemma_squares_operand(nodes, i as int, k - 1);
            launches_are_safe(graph, before, operand);
            if let Ok(more) = all {
                assert forall|j: int| 0 <= j < k implies holds_so_many(
                    after,
                    #[trigger] more[j],
                    numel(nodes[list[j] as int].shape@) as int,
                ) by {
                    if j < k - 1 {
                        assert(more[j] == buffers[j]);
                        lemma_held(
                            before,
                            after,
                            buffers[j],
                            numel(nodes[list[j] as int].shape@) as int,
                        );
                    }
                }
            }
        } else {
            lemma_all_safe(graph, ledger, i, (k - 1) as nat);
        }
    }
}

/// The ledger of a new executor is safe, and remembers nothing of any graph.
pub proof fn new_executors_are_safe<T>(graph: Graph<T>)
    ensures
        safe(blank::<T>()),
        remembered(graph, blank::<T>()),
{
    let ledger = blank::<T>();
    assert forall|k: int| 0 <= k < ledger.log.len() implies placed_well(
        ledger.lens,
        ledger.log,
        k,
    ) && ready(ledger.lens, #[trigger] ledger.log[k]) by {
        assert(ledger.log[0].command == (Command::<T>::One { out: 0 }));
        assert(writes(ledger.log[0].command).no_duplicates());
    }
    assert(writes(ledger.log[0].command)[0] == ledger.root);
    assert(writes(ledger.log[0].command).contains(ledger.root));
}

} // verus!

//! Evaluation of the graph on the host.

use crate::error::{Error, Failure, Result};
use crate::forward::{
    avg_pool2d_values, convolved, conv2d_values, cross_entropy_value, label_failure,
    matmul_values, mean_loss, multiplied, pooled, rectified, relu_values, zip_map, Convolution,
    Pooling,
};
use crate::graph::{
    convolution, fits, fits_alone, lemma_fits_operand, lemma_reaches_operand, operand_list,
    operands, ordered, planes_of, pooling, reaches, shaped, sound, Device, Graph, Memory, Node,
    Norms, Op,
};
use crate::meaning::memoryless;
use crate::norm::{
    advanced, apply_batch_norm, batch_normalized, batch_statistics, measured, recalled,
    running_statistics, too_few_samples, update_running_statistics, Planes, State, Statistics,
};
use crate::scalar::{copied, product, sum, Scalar};
use crate::shape::{lemma_numel_1, lemma_numel_2, lemma_numel_4, numel};
use crate::tensor::Tensor;
use crate::text::{decimal, owned, push_decimal};
use vstd::prelude::*;

verus! {

/// The state of an evaluation: the values found so far, and what the batch
/// normalizations remember.
#[verifier::ext_equal]
pub struct Machine<T> {
    pub values: Seq<Option<Seq<T>>>,
    pub norms: Memory<T>,
}

/// A table of values as sequences.
pub open spec fn seen<T>(cache: Seq<Option<Vec<T>>>) -> Seq<Option<Seq<T>>> {
    Seq::new(
        cache.len(),
        |i: int|
            match cache[i] {
                Some(value) => Some(value@),
                None => None,
            },
    )
}

/// Traced inputs as sequences.
pub open spec fn given<T>(inputs: Option<&Vec<Vec<T>>>) -> Option<Seq<Seq<T>>> {
    match inputs {
        Some(values) => Some(Seq::new(values@.len(), |i: int| values@[i]@)),
        None => None,
    }
}

/// The input handed to a placeholder has the placeholder's size.
pub open spec fn supplied_alone<T>(
    nodes: Seq<Node<T>>,
    inputs: Option<Seq<Seq<T>>>,
    i: int,
) -> bool {
    match (nodes[i].op, inputs) {
        (Op::Placeholder(slot), Some(values)) => slot < values.len() ==> values[slot as int].len()
            == numel(nodes[i].shape@),
        _ => true,
    }
}

/// The inputs have the sizes of the placeholders that the node is computed from.
pub open spec fn supplied<T>(
    nodes: Seq<Node<T>>,
    inputs: Option<Seq<Seq<T>>>,
    node: int,
) -> bool {
    forall|i: int| #[trigger] reaches(nodes, node, i) ==> supplied_alone(nodes, inputs, i)
}

/// The values found have the sizes of their nodes.
pub open spec fn sized<T>(nodes: Seq<Node<T>>, values: Seq<Option<Seq<T>>>) -> bool {
    &&& values.len() == nodes.len()
    &&& forall|i: int|
        0 <= i < values.len() ==> (#[trigger] values[i] matches Some(value) ==> value.len()
            == numel(nodes[i].shape@))
}

/// The operands of the node have values.
pub open spec fn ready<T>(nodes: Seq<Node<T>>, values: Seq<Option<Seq<T>>>, i: int) -> bool {
    forall|k: int|
        0 <= k < operands(nodes[i].op).len() ==> values[(
        #[trigger] operands(nodes[i].op)[k]) as int] is Some
}

/// `values` keeps every value of `before`.
pub open spec fn keeps<T>(before: Seq<Option<Seq<T>>>, values: Seq<Option<Seq<T>>>) -> bool {
    &&& before.len() == values.len()
    &&& forall|i: int|
        0 <= i < before.len() ==> (before[i] is Some ==> #[trigger] values[i] == before[i])
}

/// The value of an operand.
pub open spec fn at<T>(values: Seq<Option<Seq<T>>>, i: usize) -> Seq<T> {
    values[i as int]->Some_0
}

/// `value` is what a batch normalization gives, and `after` what is remembered then.
/// The first evaluation settles the statistics: in training from the data, which also
/// moves the running statistics; otherwise from the running statistics.
pub open spec fn normalizes<T: Scalar>(
    planes: Planes,
    data: Seq<T>,
    weight: Seq<T>,
    bias: Seq<T>,
    state: int,
    slot: int,
    training: bool,
    momentum: T,
    epsilon: T,
    before: Memory<T>,
    after: Memory<T>,
    value: Seq<T>,
) -> bool {
    match before.saved[slot] {
        Some(statistics) => {
            &&& after == before
            &&& batch_normalized(data, planes, weight, bias, statistics, value)
        },
        None => exists|statistics: Statistics<T>, next: State<T>|
            {
                &&& #[trigger] batch_normalized(data, planes, weight, bias, statistics, value)
                &&& after == (Memory {
                    states: #[trigger] before.states.update(state, next),
                    saved: before.saved.update(slot, Some(statistics)),
                })
                &&& if training {
                    &&& planes.samples() > 1
                    &&& measured(data, planes, epsilon, statistics)
                    &&& advanced(data, planes, momentum, before.states[state], next)
                } else {
                    &&& recalled(before.states[state], epsilon, statistics)
                    &&& next == before.states[state]
                }
            },
    }
}

/// `value` is what the node's operation gives on the values of its operands, and
/// `after` what the batch normalizations remember then.
pub open spec fn computes<T: Scalar>(
    nodes: Seq<Node<T>>,
    inputs: Option<Seq<Seq<T>>>,
    before: Machine<T>,
    i: int,
    value: Seq<T>,
    after: Memory<T>,
) -> bool {
    let values = before.values;
    let still = after == before.norms;
    match nodes[i].op {
        Op::Data(data) => still && value == data@,
        Op::Placeholder(slot) => {
            &&& still
            &&& inputs matches Some(given) && slot < given.len() && value == given[slot as int]
        },
        Op::Add(left, right) => {
            &&& still
            &&& value.len() == at(values, left).len()
            &&& forall|k: int|
                0 <= k < value.len() ==> sum(
                    at(values, left)[k],
                    at(values, right)[k],
                    #[trigger] value[k],
                )
        },
        Op::Mul(left, right) => {
            &&& still
            &&& value.len() == at(values, left).len()
            &&& forall|k: int|
                0 <= k < value.len() ==> product(
                    at(values, left)[k],
                    at(values, right)[k],
                    #[trigger] value[k],
                )
        },
        Op::Relu(input) => {
            &&& still
            &&& value.len() == at(values, input).len()
            &&& forall|k: int|
                0 <= k < value.len() ==> rectified(at(values, input)[k], #[trigger] value[k])
        },
        Op::MatMul(left, right) => {
            &&& still
            &&& multiplied(
                at(values, left),
                at(values, right),
                nodes[left as int].shape@[0] as int,
                nodes[left as int].shape@[1] as int,
                nodes[right as int].shape@[1] as int,
                value,
            )
        },
        Op::Conv2d { input, weight, bias, stride, padding, groups } => {
            &&& still
            &&& convolved(
                convolution(nodes, input as int, weight as int, stride, padding, groups),
                at(values, input),
                at(values, weight),
                at(values, bias),
                value,
            )
        },
        Op::AvgPool2d { input, kernel, stride } => {
            &&& still
            &&& pooled(pooling(nodes, input as int, kernel, stride), at(values, input), value)
        },
        Op::Reshape(input) => still && value == at(values, input),
        Op::CrossEntropy { logits, targets } => {
            &&& still
            &&& value.len() == 1
            &&& mean_loss(
                at(values, logits),
                at(values, targets),
                nodes[logits as int].shape@[0],
                nodes[logits as int].shape@[1],
                value[0],
            )
        },
        Op::BatchNorm2d {
            input,
            weight,
            bias,
            state,
            statistics,
            training,
            momentum,
            epsilon,
        } => normalizes(
            planes_of(nodes[i].shape@),
            at(values, input),
            at(values, weight),
            at(values, bias),
            state as int,
            statistics as int,
            training,
            momentum,
            epsilon,
            before.norms,
            after,
            value,
        ),
    }
}

/// The node's operation fails on the values of its operands.
pub open spec fn stuck<T: Scalar>(
    nodes: Seq<Node<T>>,
    inputs: Option<Seq<Seq<T>>>,
    machine: Machine<T>,
    i: int,
    failure: Failure,
) -> bool {
    &&& ready(nodes, machine.values, i)
    &&& match nodes[i].op {
        Op::Placeholder(slot) => {
            &&& inputs matches Some(given) ==> slot >= given.len()
            &&& failure == Failure::Trace("missing traced input "@ + decimal(slot as nat))
        },
        Op::CrossEntropy { logits, targets } => label_failure(
            at(machine.values, targets),
            nodes[logits as int].shape@[0] as int,
            nodes[logits as int].shape@[1],
            failure,
        ),
        Op::BatchNorm2d { statistics, training, .. } => {
            &&& training
            &&& machine.norms.saved[statistics as int] is None
            &&& planes_of(nodes[i].shape@).samples() <= 1
            &&& failure == too_few_samples()
        },
        _ => false,
    }
}

/// The evaluation of one node: it has no value yet, its operands do, and it gets its
/// value.
pub open spec fn step<T: Scalar>(
    nodes: Seq<Node<T>>,
    inputs: Option<Seq<Seq<T>>>,
    before: Machine<T>,
    i: int,
    after: Machine<T>,
) -> bool {
    &&& 0 <= i < nodes.len()
    &&& before.values[i] is None
    &&& ready(nodes, before.values, i)
    &&& after.values[i] is Some
    &&& after.values == before.values.update(i, after.values[i])
    &&& computes(nodes, inputs, before, i, after.values[i]->Some_0, after.norms)
}

/// Evaluating the nodes of `order` one after the other leads from `before` to `after`.
pub open spec fn runs<T: Scalar>(
    nodes: Seq<Node<T>>,
    inputs: Option<Seq<Seq<T>>>,
    before: Machine<T>,
    order: Seq<int>,
    after: Machine<T>,
) -> bool
    decreases order.len(),
{
    if order.len() == 0 {
        after == before
    } else {
        exists|middle: Machine<T>|
            {
                &&& runs(nodes, inputs, before, order.drop_last(), middle)
                &&& #[trigger] step(nodes, inputs, middle, order.last(), after)
            }
    }
}

/// Evaluating some nodes that `root` is computed from leads from `before` to `after`.
pub open spec fn evaluates<T: Scalar>(
    nodes: Seq<Node<T>>,
    inputs: Option<Seq<Seq<T>>>,
    before: Machine<T>,
    root: int,
    after: Machine<T>,
) -> bool {
    exists|order: Seq<int>|
        {
            &&& #[trigger] runs(nodes, inputs, before, order, after)
            &&& forall|k: int|
                0 <= k < order.len() ==> reaches(nodes, root, #[trigger] order[k])
        }
}

pub proof fn lemma_runs_append<T: Scalar>(
    nodes: Seq<Node<T>>,
    inputs: Option<Seq<Seq<T>>>,
    a: Machine<T>,
    first: Seq<int>,
    b: Machine<T>,
    second: Seq<int>,
    c: Machine<T>,
)
    requires
        runs(nodes, inputs, a, first, b),
        runs(nodes, inputs, b, second, c),
    ensures
        runs(nodes, inputs, a, first + second, c),
    decreases second.len(),
{
    if second.len() == 0 {
        assert(first + second =~= first);
    } else {
        let middle = choose|middle: Machine<T>|
            {
                &&& runs(nodes, inputs, b, second.drop_last(), middle)
                &&& #[trigger] step(nodes, inputs, middle, second.last(), c)
            };
        lemma_runs_append(nodes, inputs, a, first, b, second.drop_last(), middle);
        assert((first + second).drop_last() =~= first + second.drop_last());
        assert(step(nodes, inputs, middle, (first + second).last(), c));
    }
}

/// An evaluation of an operand is part of one of the node.
pub proof fn lemma_evaluates_operand<T: Scalar>(
    nodes: Seq<Node<T>>,
    inputs: Option<Seq<Seq<T>>>,
    a: Machine<T>,
    b: Machine<T>,
    c: Machine<T>,
    node: int,
    k: int,
)
    requires
        0 <= k < operands(nodes[node].op).len(),
        operands(nodes[node].op)[k] < node,
        evaluates(nodes, inputs, a, node, b),
        evaluates(nodes, inputs, b, operands(nodes[node].op)[k] as int, c),
    ensures
        evaluates(nodes, inputs, a, node, c),
{
    let operand = operands(nodes[node].op)[k] as int;
    let first = choose|order: Seq<int>|
        {
            &&& #[trigger] runs(nodes, inputs, a, order, b)
            &&& forall|k: int|
                0 <= k < order.len() ==> reaches(nodes, node, #[trigger] order[k])
        };
    let second = choose|order: Seq<int>|
        {
            &&& #[trigger] runs(nodes, inputs, b, order, c)
            &&& forall|k: int|
                0 <= k < order.len() ==> reaches(nodes, operand, #[trigger] order[k])
        };
    lemma_runs_append(nodes, inputs, a, first, b, second, c);
    assert forall|j: int| 0 <= j < (first + second).len() implies reaches(
        nodes,
        node,
        #[trigger] (first + second)[j],
    ) by {
        if j >= first.len() {
            assert((first + second)[j] == second[j - first.len()]);
            lemma_reaches_operand(nodes, node, k, second[j - first.len()]);
        }
    }
}

/// Evaluating the node last completes its evaluation.
pub proof fn lemma_evaluates_step<T: Scalar>(
    nodes: Seq<Node<T>>,
    inputs: Option<Seq<Seq<T>>>,
    a: Machine<T>,
    b: Machine<T>,
    c: Machine<T>,
    node: int,
)
    requires
        evaluates(nodes, inputs, a, node, b),
        step(nodes, inputs, b, node, c),
    ensures
        evaluates(nodes, inputs, a, node, c),
{
    let first = choose|order: Seq<int>|
        {
            &&& #[trigger] runs(nodes, inputs, a, order, b)
            &&& forall|k: int|
                0 <= k < order.len() ==> reaches(nodes, node, #[trigger] order[k])
        };
    let order = first.push(node);
    assert(order.drop_last() =~= first);
    assert(step(nodes, inputs, b, order.last(), c));
    assert(runs(nodes, inputs, a, order, c));
    assert forall|k: int| 0 <= k < order.len() implies reaches(
        nodes,
        node,
        #[trigger] order[k],
    ) by {
        if k < first.len() {
            assert(order[k] == first[k]);
        }
    }
}

/// The empty evaluation.
pub proof fn lemma_evaluates_nothing<T: Scalar>(
    nodes: Seq<Node<T>>,
    inputs: Option<Seq<Seq<T>>>,
    a: Machine<T>,
    node: int,
)
    ensures
        evaluates(nodes, inputs, a, node, a),
{
    assert(runs(nodes, inputs, a, Seq::<int>::empty(), a));
}

/// An evaluation keeps the values that were there, and gives values only to nodes that
/// its root is computed from.
pub proof fn lemma_evaluates_keeps<T: Scalar>(
    nodes: Seq<Node<T>>,
    inputs: Option<Seq<Seq<T>>>,
    before: Machine<T>,
    root: int,
    after: Machine<T>,
)
    requires
        evaluates(nodes, inputs, before, root, after),
        before.values.len() == nodes.len(),
    ensures
        keeps(before.values, after.values),
        forall|i: int|
            0 <= i < nodes.len() && before.values[i] is None && #[trigger] after.values[i] is Some
                ==> reaches(nodes, root, i),
{
    let order = choose|order: Seq<int>|
        {
            &&& #[trigger] runs(nodes, inputs, before, order, after)
            &&& forall|k: int|
                0 <= k < order.len() ==> reaches(nodes, root, #[trigger] order[k])
        };
    lemma_runs_keeps(nodes, inputs, before, order, after);
    assert forall|i: int|
        0 <= i < nodes.len() && before.values[i] is None && #[trigger] after.values[i] is Some
            implies reaches(nodes, root, i) by {
        let k = choose|k: int| 0 <= k < order.len() && order[k] == i;
        assert(reaches(nodes, root, order[k]));
    }
}

proof fn lemma_runs_keeps<T: Scalar>(
    nodes: Seq<Node<T>>,
    inputs: Option<Seq<Seq<T>>>,
    before: Machine<T>,
    order: Seq<int>,
    after: Machine<T>,
)
    requires
        runs(nodes, inputs, before, order, after),
        before.values.len() == nodes.len(),
    ensures
        keeps(before.values, after.values),
        forall|i: int|
            0 <= i < nodes.len() && before.values[i] is None && #[trigger] after.values[i] is Some
                ==> exists|k: int| 0 <= k < order.len() && order[k] == i,
    decreases order.len(),
{
    if order.len() > 0 {
        let middle = choose|middle: Machine<T>|
            {
                &&& runs(nodes, inputs, before, order.drop_last(), middle)
                &&& #[trigger] step(nodes, inputs, middle, order.last(), after)
            };
        lemma_runs_keeps(nodes, inputs, before, order.drop_last(), middle);
        assert forall|i: int|
            0 <= i < nodes.len() && before.values[i] is None && #[trigger] after.values[i] is Some
                implies exists|k: int| 0 <= k < order.len() && order[k] == i by {
            if i == order.last() {
                assert(order[order.len() - 1] == i);
            } else {
                assert(middle.values[i] is Some);
                let k = choose|k: int| 0 <= k < order.drop_last().len() && order.drop_last()[k]
                    == i;
                assert(order[k] == i);
            }
        }
    }
}

/// A convolution node has extents that its operands fill.
pub proof fn lemma_convolution<T>(
    nodes: Seq<Node<T>>,
    norms: Memory<T>,
    i: int,
    input: usize,
    weight: usize,
    bias: usize,
    stride: usize,
    padding: usize,
    groups: usize,
)
    requires
        nodes[i].op == (Op::<T>::Conv2d { input, weight, bias, stride, padding, groups }),
        shaped(nodes, norms, i),
        fits_alone(nodes, i),
        numel(nodes[input as int].shape@) <= usize::MAX,
        numel(nodes[weight as int].shape@) <= usize::MAX,
    ensures
        ({
            let geometry = convolution(nodes, input as int, weight as int, stride, padding, groups);
            &&& geometry.wf()
            &&& geometry.input_len() == numel(nodes[input as int].shape@)
            &&& geometry.weight_len() == numel(nodes[weight as int].shape@)
            &&& geometry.output_len() == numel(nodes[i].shape@)
            &&& geometry.out_channels == numel(nodes[bias as int].shape@)
        }),
{
    let x = nodes[input as int].shape@;
    let w = nodes[weight as int].shape@;
    let geometry = convolution(nodes, input as int, weight as int, stride, padding, groups);
    lemma_numel_4(x);
    lemma_numel_4(w);
    lemma_numel_1(nodes[bias as int].shape@);
    lemma_numel_4(nodes[i].shape@);
    crate::index::lemma_div_bound(x[2] + 2 * padding - w[2], stride as int);
    crate::index::lemma_div_bound(x[3] + 2 * padding - w[3], stride as int);
    assert(geometry.out_h() == nodes[i].shape@[2]);
    assert(geometry.out_w() == nodes[i].shape@[3]);
    assert(geometry.in_per_group() == w[1]);
}

/// An average pool node has extents that its operand fills.
pub proof fn lemma_pooling<T>(
    nodes: Seq<Node<T>>,
    norms: Memory<T>,
    i: int,
    input: usize,
    kernel: [usize; 2],
    stride: [usize; 2],
)
    requires
        nodes[i].op == (Op::<T>::AvgPool2d { input, kernel, stride }),
        shaped(nodes, norms, i),
        fits_alone(nodes, i),
        numel(nodes[input as int].shape@) <= usize::MAX,
    ensures
        ({
            let geometry = pooling(nodes, input as int, kernel, stride);
            &&& geometry.wf()
            &&& geometry.input_len() == numel(nodes[input as int].shape@)
            &&& geometry.output_len() == numel(nodes[i].shape@)
        }),
{
    let x = nodes[input as int].shape@;
    let geometry = pooling(nodes, input as int, kernel, stride);
    lemma_numel_4(x);
    lemma_numel_4(nodes[i].shape@);
    crate::index::lemma_div_bound(x[2] - kernel[0], stride[0] as int);
    crate::index::lemma_div_bound(x[3] - kernel[1], stride[1] as int);
    assert(geometry.out_h() == nodes[i].shape@[2]);
    assert(geometry.out_w() == nodes[i].shape@[3]);
}

/// The planes of NCHW data hold its elements.
pub proof fn lemma_planes(shape: Seq<usize>)
    requires
        shape.len() == 4,
        numel(shape) <= usize::MAX,
        shape[2] * shape[3] <= usize::MAX,
        shape[0] * (shape[2] * shape[3]) <= usize::MAX,
    ensures
        planes_of(shape).wf(),
        planes_of(shape).len() == numel(shape),
        planes_of(shape).spatial == shape[2] * shape[3],
{
    lemma_numel_4(shape);
    let (a, b, c, d) = (shape[0] as int, shape[1] as int, shape[2] as int, shape[3] as int);
    assert(0 <= c * d) by (nonlinear_arith)
        requires
            0 <= c,
            0 <= d,
    ;
    assert(a * b * (c * d) == a * b * c * d) by (nonlinear_arith);
}

/// The value of a node that has one.
pub fn value_at<T>(cache: &Vec<Option<Vec<T>>>, i: usize) -> (r: &Vec<T>)
    requires
        i < cache.len(),
        seen(cache@)[i as int] is Some,
    ensures
        r@ == at(seen(cache@), i),
{
    cache[i].as_ref().unwrap()
}

/// The value of a batch normalization node, and what is remembered then.
fn normalize<T: Scalar>(
    planes: Planes,
    data: &Vec<T>,
    weight: &Vec<T>,
    bias: &Vec<T>,
    norms: &mut Norms<T>,
    state: usize,
    slot: usize,
    training: bool,
    momentum: T,
    epsilon: T,
) -> (r: Result<Vec<T>>)
    requires
        planes.wf(),
        data.len() == planes.len(),
        weight.len() == planes.channels,
        bias.len() == planes.channels,
        state < old(norms)@.states.len(),
        old(norms)@.states[state as int].mean.len() == planes.channels,
        old(norms)@.states[state as int].variance.len() == planes.channels,
        slot < old(norms)@.saved.len(),
        old(norms)@.saved[slot as int] matches Some(s) ==> s.mean.len() == planes.channels
            && s.inverse.len() == planes.channels,
    ensures
        match r {
            Ok(value) => normalizes(
                planes,
                data@,
                weight@,
                bias@,
                state as int,
                slot as int,
                training,
                momentum,
                epsilon,
                old(norms)@,
                final(norms)@,
                value@,
            ) && value@.len() == data@.len(),
            Err(error) => {
                &&& final(norms)@ == old(norms)@
                &&& training
                &&& old(norms)@.saved[slot as int] is None
                &&& planes.samples() <= 1
                &&& error@ == too_few_samples()
            },
        },
        final(norms)@.states.len() == old(norms)@.states.len(),
        final(norms)@.saved.len() == old(norms)@.saved.len(),
        forall|k: int|
            0 <= k < old(norms)@.states.len() ==> {
                &&& (#[trigger] final(norms)@.states[k]).mean.len() == old(
                    norms,
                )@.states[k].mean.len()
                &&& final(norms)@.states[k].variance.len() == old(
                    norms,
                )@.states[k].variance.len()
            },
        forall|k: int|
            0 <= k < old(norms)@.saved.len() && k != slot ==> #[trigger] final(norms)@.saved[k]
                == old(norms)@.saved[k],
        final(norms)@.saved[slot as int] matches Some(s) ==> s.mean.len() == planes.channels
            && s.inverse.len() == planes.channels,
{
    let ghost before = norms@;
    if norms.saved[slot].is_some() {
        let statistics = norms.saved[slot].as_ref().unwrap();
        assert(before.saved[slot as int] == Some(statistics@));
        return Ok(apply_batch_norm(data, planes, weight, bias, statistics));
    }
    assert(before.saved[slot as int] is None);
    if training {
        let statistics = batch_statistics(data, planes, epsilon)?;
        let next = update_running_statistics(data, planes, &norms.states[state], momentum)?;
        let value = apply_batch_norm(data, planes, weight, bias, &statistics);
        let ghost (s, n) = (statistics@, next@);
        norms.states.set(state, next);
        norms.saved.set(slot, Some(statistics));
        proof {
            assert(norms@ =~= (Memory {
                states: before.states.update(state as int, n),
                saved: before.saved.update(slot as int, Some(s)),
            }));
            assert(batch_normalized(data@, planes, weight@, bias@, s, value@));
        }
        Ok(value)
    } else {
        let statistics = running_statistics(&norms.states[state], epsilon);
        let value = apply_batch_norm(data, planes, weight, bias, &statistics);
        let ghost (s, n) = (statistics@, before.states[state as int]);
        norms.saved.set(slot, Some(statistics));
        proof {
            assert(norms@ =~= (Memory {
                states: before.states.update(state as int, n),
                saved: before.saved.update(slot as int, Some(s)),
            }));
            assert(batch_normalized(data@, planes, weight@, bias@, s, value@));
        }
        Ok(value)
    }
}

/// What a batch normalization remembers does not change which nodes are sound.
proof fn lemma_sound_memory<T>(nodes: Seq<Node<T>>, before: Memory<T>, after: Memory<T>, i: int)
    requires
        sound(nodes, before),
        0 <= i < nodes.len(),
        nodes[i].op is BatchNorm2d,
        after.states.len() == before.states.len(),
        after.saved.len() == before.saved.len(),
        forall|k: int|
            0 <= k < before.states.len() ==> {
                &&& (#[trigger] after.states[k]).mean.len() == before.states[k].mean.len()
                &&& after.states[k].variance.len() == before.states[k].variance.len()
            },
        forall|k: int|
            0 <= k < before.saved.len() && k != nodes[i].op->statistics ==> #[trigger]
            after.saved[k] == before.saved[k],
        after.saved[nodes[i].op->statistics as int] matches Some(s) ==> s.mean.len()
            == nodes[i].shape@[1] && s.inverse.len() == nodes[i].shape@[1],
    ensures
        sound(nodes, after),
{
    assert forall|j: int| 0 <= j < nodes.len() implies #[trigger] shaped(nodes, after, j) by {
        assert(shaped(nodes, before, j));
        if j < i {
            assert(nodes[j].op is BatchNorm2d ==> nodes[j].op->statistics
                != nodes[i].op->statistics);
        }
        if i < j {
            assert(nodes[j].op is BatchNorm2d ==> nodes[i].op->statistics
                != nodes[j].op->statistics);
        }
    }
}

/// The value of a node whose operands have values.
#[verifier::rlimit(40)]
fn compute<T: Scalar>(
    nodes: &Vec<Node<T>>,
    norms: &mut Norms<T>,
    i: usize,
    cache: &Vec<Option<Vec<T>>>,
    inputs: Option<&Vec<Vec<T>>>,
) -> (r: Result<Vec<T>>)
    requires
        sound(nodes@, old(norms)@),
        i < nodes.len(),
        fits_alone(nodes@, i as int),
        supplied_alone(nodes@, given(inputs), i as int),
        sized(nodes@, seen(cache@)),
        ready(nodes@, seen(cache@), i as int),
    ensures
        match r {
            Ok(value) => value@.len() == numel(nodes@[i as int].shape@) && computes(
                nodes@,
                given(inputs),
                Machine { values: seen(cache@), norms: old(norms)@ },
                i as int,
                value@,
                final(norms)@,
            ),
            Err(error) => final(norms)@ == old(norms)@ && stuck(
                nodes@,
                given(inputs),
                Machine { values: seen(cache@), norms: old(norms)@ },
                i as int,
                error@,
            ),
        },
        sound(nodes@, final(norms)@),
        !(nodes@[i as int].op is BatchNorm2d) ==> *final(norms) == *old(norms),
{
    let ghost all = nodes@;
    let ghost values = seen(cache@);
    let ghost before = norms@;
    let ghost ops = operands(all[i as int].op);
    proof {
        assert(ordered(all, i as int));
        assert(shaped(all, before, i as int));
        assert forall|k: int| 0 <= k < ops.len() implies {
            &&& (#[trigger] ops[k]) < i
            &&& values[ops[k] as int] is Some
            &&& at(values, ops[k]).len() == numel(all[ops[k] as int].shape@)
            &&& at(values, ops[k]).len() <= usize::MAX
        } by {
            assert(values[operands(all[i as int].op)[k] as int] is Some);
            let held = cache@[ops[k] as int]->Some_0;
            assert(at(values, ops[k]) == held@);
            assert(held@.len() == held.len());
        }
    }
    match &nodes[i].op {
        Op::Data(data) => Ok(copied(data)),
        Op::Placeholder(slot) => {
            let slot: usize = *slot;
            match inputs {
                Some(supplied_values) => {
                    if slot < supplied_values.len() {
                        return Ok(copied(&supplied_values[slot]));
                    }
                },
                None => {},
            }
            let mut message = owned("missing traced input ");
            push_decimal(&mut message, slot);
            Err(Error::Trace(message))
        },
        Op::Add(left, right) => {
            assert(ops[0] == *left && ops[1] == *right);
            let r = zip_map(value_at(cache, *left), value_at(cache, *right), T::plus);
            Ok(r)
        },
        Op::Mul(left, right) => {
            assert(ops[0] == *left && ops[1] == *right);
            let r = zip_map(value_at(cache, *left), value_at(cache, *right), T::times);
            Ok(r)
        },
        Op::Relu(input) => {
            assert(ops[0] == *input);
            Ok(relu_values(value_at(cache, *input)))
        },
        Op::MatMul(left, right) => {
            assert(ops[0] == *left && ops[1] == *right);
            proof {
                lemma_numel_2(all[*left as int].shape@);
                lemma_numel_2(all[*right as int].shape@);
                lemma_numel_2(all[i as int].shape@);
            }
            let rows: usize = nodes[*left].shape[0];
            let inner: usize = nodes[*left].shape[1];
            let columns: usize = nodes[*right].shape[1];
            Ok(
                matmul_values(
                    value_at(cache, *left),
                    value_at(cache, *right),
                    rows,
                    inner,
                    columns,
                ),
            )
        },
        Op::Conv2d { input, weight, bias, stride, padding, groups } => {
            assert(ops[0] == *input && ops[1] == *weight && ops[2] == *bias);
            proof {
                lemma_convolution(
                    all,
                    before,
                    i as int,
                    *input,
                    *weight,
                    *bias,
                    *stride,
                    *padding,
                    *groups,
                );
            }
            let geometry = Convolution {
                batch: nodes[*input].shape[0],
                in_channels: nodes[*input].shape[1],
                height: nodes[*input].shape[2],
                width: nodes[*input].shape[3],
                out_channels: nodes[*weight].shape[0],
                kernel_h: nodes[*weight].shape[2],
                kernel_w: nodes[*weight].shape[3],
                stride: *stride,
                padding: *padding,
                groups: *groups,
            };
            Ok(
                conv2d_values(
                    geometry,
                    value_at(cache, *input),
                    value_at(cache, *weight),
                    value_at(cache, *bias),
                ),
            )
        },
        Op::AvgPool2d { input, kernel, stride } => {
            assert(ops[0] == *input);
            proof {
                lemma_pooling(all, before, i as int, *input, *kernel, *stride);
            }
            let geometry = Pooling {
                batch: nodes[*input].shape[0],
                channels: nodes[*input].shape[1],
                height: nodes[*input].shape[2],
                width: nodes[*input].shape[3],
                kernel: *kernel,
                stride: *stride,
            };
            Ok(avg_pool2d_values(geometry, value_at(cache, *input)))
        },
        Op::Reshape(input) => {
            assert(ops[0] == *input);
            Ok(copied(value_at(cache, *input)))
        },
        Op::CrossEntropy { logits, targets } => {
            assert(ops[0] == *logits && ops[1] == *targets);
            proof {
                lemma_numel_2(all[*logits as int].shape@);
                lemma_numel_1(all[*targets as int].shape@);
                lemma_numel_1(all[i as int].shape@);
            }
            let batch: usize = nodes[*logits].shape[0];
            let classes: usize = nodes[*logits].shape[1];
            let loss = cross_entropy_value(
                value_at(cache, *logits),
                value_at(cache, *targets),
                batch,
                classes,
            )?;
            let mut r: Vec<T> = Vec::new();
            r.push(loss);
            Ok(r)
        },
        Op::BatchNorm2d {
            input,
            weight,
            bias,
            state,
            statistics,
            training,
            momentum,
            epsilon,
        } => {
            assert(ops[0] == *input && ops[1] == *weight && ops[2] == *bias);
            proof {
                lemma_planes(all[i as int].shape@);
                lemma_numel_1(all[*weight as int].shape@);
                lemma_numel_1(all[*bias as int].shape@);
            }
            let planes = Planes {
                batch: nodes[i].shape[0],
                channels: nodes[i].shape[1],
                spatial: nodes[i].shape[2] * nodes[i].shape[3],
            };
            let r = normalize(
                planes,
                value_at(cache, *input),
                value_at(cache, *weight),
                value_at(cache, *bias),
                norms,
                *state,
                *statistics,
                *training,
                *momentum,
                *epsilon,
            );
            proof {
                lemma_sound_memory(all, before, norms@, i as int);
            }
            r
        },
    }
}

/// Evaluates a node and all that it is computed from, each once.
pub fn eval_node<T: Scalar>(
    nodes: &Vec<Node<T>>,
    norms: &mut Norms<T>,
    i: usize,
    cache: &mut Vec<Option<Vec<T>>>,
    inputs: Option<&Vec<Vec<T>>>,
) -> (r: Result<()>)
    requires
        sound(nodes@, old(norms)@),
        i < nodes.len(),
        fits(nodes@, i as int),
        supplied(nodes@, given(inputs), i as int),
        sized(nodes@, seen(old(cache)@)),
    ensures
        evaluates(
            nodes@,
            given(inputs),
            Machine { values: seen(old(cache)@), norms: old(norms)@ },
            i as int,
            Machine { values: seen(final(cache)@), norms: final(norms)@ },
        ),
        match r {
            Ok(_) => seen(final(cache)@)[i as int] is Some,
            Err(error) => exists|j: int|
                {
                    &&& #[trigger] reaches(nodes@, i as int, j)
                    &&& seen(final(cache)@)[j] is None
                    &&& stuck(
                        nodes@,
                        given(inputs),
                        Machine { values: seen(final(cache)@), norms: final(norms)@ },
                        j,
                        error@,
                    )
                },
        },
        sized(nodes@, seen(final(cache)@)),
        keeps(seen(old(cache)@), seen(final(cache)@)),
        sound(nodes@, final(norms)@),
        memoryless(nodes@, i as int) ==> *final(norms) == *old(norms),
    decreases i,
{
    let ghost all = nodes@;
    let ghost supply = given(inputs);
    let ghost start = Machine { values: seen(cache@), norms: norms@ };
    proof {
        lemma_evaluates_nothing(all, supply, start, i as int);
    }
    if cache[i].is_some() {
        return Ok(());
    }
    let ops = operand_list(&nodes[i].op);
    let mut k: usize = 0;
    while k < ops.len()
        invariant
            all == nodes@,
            supply == given(inputs),
            start == (Machine { values: seen(old(cache)@), norms: old(norms)@ }),
            i < nodes.len(),
            ops@ == operands(all[i as int].op),
            k <= ops.len(),
            sound(all, norms@),
            fits(all, i as int),
            supplied(all, supply, i as int),
            sized(all, seen(cache@)),
            keeps(start.values, seen(cache@)),
            evaluates(
                all,
                supply,
                start,
                i as int,
                Machine { values: seen(cache@), norms: norms@ },
            ),
            forall|j: int|
                0 <= j < k ==> seen(cache@)[(#[trigger] operands(all[i as int].op)[j]) as int] is Some,
            seen(cache@)[i as int] is None,
            memoryless(all, i as int) ==> *norms == *old(norms),
        decreases ops.len() - k,
    {
        let operand: usize = ops[k];
        let ghost middle = Machine { values: seen(cache@), norms: norms@ };
        proof {
            assert(ordered(all, i as int));
            assert(operands(all[i as int].op)[k as int] == operand && operand < i);
            lemma_fits_operand(all, i as int, k as int);
            assert forall|j: int| #[trigger] reaches(all, operand as int, j) implies supplied_alone(
                all,
                supply,
                j,
            ) by {
                lemma_reaches_operand(all, i as int, k as int, j);
            }
        }
        proof {
            if memoryless(all, i as int) {
                assert forall|j: int| #[trigger] reaches(all, operand as int, j) implies !(
                all[j].op is BatchNorm2d) by {
                    lemma_reaches_operand(all, i as int, k as int, j);
                }
            }
        }
        let outcome = eval_node(nodes, norms, operand, cache, inputs);
        proof {
            let now = Machine { values: seen(cache@), norms: norms@ };
            lemma_evaluates_operand(all, supply, start, middle, now, i as int, k as int);
            lemma_evaluates_keeps(all, supply, middle, operand as int, now);
            if now.values[i as int] is Some {
                crate::graph::lemma_reaches_below(all, operand as int, i as int);
            }
        }
        match outcome {
            Ok(_) => {},
            Err(error) => {
                proof {
                    let now = Machine { values: seen(cache@), norms: norms@ };
                    let j = choose|j: int|
                        {
                            &&& #[trigger] reaches(all, operand as int, j)
                            &&& now.values[j] is None
                            &&& stuck(all, supply, now, j, error@)
                        };
                    lemma_reaches_operand(all, i as int, k as int, j);
                }
                return Err(error);
            },
        }
        k = k + 1;
    }
    let ghost middle = Machine { values: seen(cache@), norms: norms@ };
    proof {
        assert(reaches(all, i as int, i as int));
    }
    let outcome = compute(nodes, norms, i, cache, inputs);
    match outcome {
        Ok(value) => {
            let ghost result = value@;
            cache.set(i, Some(value));
            proof {
                let now = Machine { values: seen(cache@), norms: norms@ };
                assert(now.values =~= middle.values.update(i as int, Some(result)));
                assert(step(all, supply, middle, i as int, now));
                lemma_evaluates_step(all, supply, start, middle, now, i as int);
            }
            Ok(())
        },
        Err(error) => Err(error),
    }
}

/// No values.
pub open spec fn blank<T>(len: nat) -> Seq<Option<Seq<T>>> {
    Seq::new(len, |i: int| None)
}

/// `value` is what evaluating the node gives, and `after` what the batch normalizations
/// remember then.
pub open spec fn valued<T: Scalar>(
    nodes: Seq<Node<T>>,
    inputs: Option<Seq<Seq<T>>>,
    before: Memory<T>,
    node: int,
    value: Seq<T>,
    after: Memory<T>,
) -> bool {
    exists|end: Machine<T>|
        {
            &&& #[trigger] evaluates(
                nodes,
                inputs,
                Machine { values: blank(nodes.len()), norms: before },
                node,
                end,
            )
            &&& end.values[node] == Some(value)
            &&& end.norms == after
        }
}

/// Evaluating the node fails, and `after` is what the batch normalizations remember then.
pub open spec fn fails<T: Scalar>(
    nodes: Seq<Node<T>>,
    inputs: Option<Seq<Seq<T>>>,
    before: Memory<T>,
    node: int,
    failure: Failure,
    after: Memory<T>,
) -> bool {
    exists|end: Machine<T>, at: int|
        {
            &&& #[trigger] evaluates(
                nodes,
                inputs,
                Machine { values: blank(nodes.len()), norms: before },
                node,
                end,
            )
            &&& end.norms == after
            &&& #[trigger] reaches(nodes, node, at)
            &&& end.values[at] is None
            &&& stuck(nodes, inputs, end, at, failure)
        }
}

/// An empty table of values.
pub fn no_values<T>(len: usize) -> (r: Vec<Option<Vec<T>>>)
    ensures
        r.len() == len,
        seen(r@) == blank::<T>(len as nat),
{
    let mut r: Vec<Option<Vec<T>>> = Vec::with_capacity(len);
    let mut i: usize = 0;
    while i < len
        invariant
            i <= len,
            r.len() == i,
            forall|j: int| 0 <= j < i ==> #[trigger] r@[j] is None,
        decreases len - i,
    {
        r.push(None);
        i = i + 1;
    }
    assert(seen(r@) =~= blank::<T>(len as nat));
    r
}

impl<T: Scalar> Graph<T> {
    /// The elements of a node.
    pub fn eval_cpu(&mut self, node: usize, inputs: Option<&Vec<Vec<T>>>) -> (r: Result<Vec<T>>)
        requires
            old(self).wf(),
            node < old(self).nodes@.len(),
            fits(old(self).nodes@, node as int),
            supplied(old(self).nodes@, given(inputs), node as int),
        ensures
            final(self).wf(),
            final(self).nodes == old(self).nodes,
            final(self).grads == old(self).grads,
            final(self).next_parameter == old(self).next_parameter,
            match r {
                Ok(value) => value@.len() == numel(old(self).nodes@[node as int].shape@) && valued(
                    old(self).nodes@,
                    given(inputs),
                    old(self).norms@,
                    node as int,
                    value@,
                    final(self).norms@,
                ),
                Err(error) => fails(
                    old(self).nodes@,
                    given(inputs),
                    old(self).norms@,
                    node as int,
                    error@,
                    final(self).norms@,
                ),
            },
            memoryless(old(self).nodes@, node as int) ==> *final(self) == *old(self),
    {
        let mut cache = no_values(self.nodes.len());
        let outcome = eval_node(&self.nodes, &mut self.norms, node, &mut cache, inputs);
        match outcome {
            Ok(_) => {
                let value = copied(value_at(&cache, node));
                assert(seen(cache@)[node as int] == Some(value@));
                Ok(value)
            },
            Err(error) => Err(error),
        }
    }
}

impl Tensor {
    /// The elements of the tensor.
    pub fn to_vec<T: Scalar>(&self, graph: &mut Graph<T>) -> (r: Result<Vec<T>>)
        requires
            old(graph).wf(),
            old(graph).has(*self),
            fits(old(graph).nodes@, self.id as int),
        ensures
            final(graph).wf(),
            final(graph).nodes == old(graph).nodes,
            final(graph).grads == old(graph).grads,
            final(graph).next_parameter == old(graph).next_parameter,
            match (self.device, r) {
                (Device::Cpu, Ok(value)) => value@.len() == numel(self.shape@) && valued(
                    old(graph).nodes@,
                    None,
                    old(graph).norms@,
                    self.id as int,
                    value@,
                    final(graph).norms@,
                ),
                (Device::Cpu, Err(error)) => fails(
                    old(graph).nodes@,
                    None,
                    old(graph).norms@,
                    self.id as int,
                    error@,
                    final(graph).norms@,
                ),
                (Device::Cuda(_), Ok(_)) => false,
                (Device::Cuda(_), Err(error)) => error@ == Failure::CudaUnavailable
                    && *final(graph) == *old(graph),
            },
    {
        match self.device {
            Device::Cpu => graph.eval_cpu(self.id, None),
            Device::Cuda(_) => Err(Error::CudaUnavailable),
        }
    }

    /// The one element of the tensor.
    pub fn item<T: Scalar>(&self, graph: &mut Graph<T>) -> (r: Result<T>)
        requires
            old(graph).wf(),
            old(graph).has(*self),
            fits(old(graph).nodes@, self.id as int),
        ensures
            final(graph).wf(),
            final(graph).nodes == old(graph).nodes,
            final(graph).grads == old(graph).grads,
            final(graph).next_parameter == old(graph).next_parameter,
            numel(self.shape@) != 1 ==> {
                &&& r matches Err(error) && error@ == Failure::InvalidShape(
                    "item requires one element"@,
                )
                &&& *final(graph) == *old(graph)
            },
            numel(self.shape@) == 1 ==> match (self.device, r) {
                (Device::Cpu, Ok(value)) => valued(
                    old(graph).nodes@,
                    None,
                    old(graph).norms@,
                    self.id as int,
                    seq![value],
                    final(graph).norms@,
                ),
                (Device::Cpu, Err(error)) => fails(
                    old(graph).nodes@,
                    None,
                    old(graph).norms@,
                    self.id as int,
                    error@,
                    final(graph).norms@,
                ),
                (Device::Cuda(_), Ok(_)) => false,
                (Device::Cuda(_), Err(error)) => error@ == Failure::CudaUnavailable
                    && *final(graph) == *old(graph),
            },
    {
        proof {
            assert(reaches(graph.nodes@, self.id as int, self.id as int));
        }
        if self.numel() != 1 {
            return Err(Error::shape("item requires one element"));
        }
        let values = self.to_vec(graph)?;
        assert(values@ =~= seq![values@[0]]);
        Ok(values[0])
    }
}

} // verus!

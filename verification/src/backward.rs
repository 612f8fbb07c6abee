//! Reverse-mode differentiation of the graph.

use crate::error::{Error, Failure, Result};
use crate::eval::{
    at, blank, eval_node, evaluates, lemma_convolution, lemma_evaluates_nothing,
    lemma_evaluates_operand, lemma_planes, lemma_pooling, no_values, runs, seen, sized, step, stuck,
    value_at, Machine,
};
use crate::forward::{label_failure, zip_map, Convolution, Pooling};
use crate::graph::{
    convolution, fits, fits_alone, lemma_fits_operand, lemma_reaches_operand, operands, ordered,
    planes_of, pooling, reaches, shaped, sound, Graph, Memory, Node, Norms, Op,
};
use crate::norm::{
    batch_statistics, measured, recalled, running_statistics, too_few_samples, Planes, Statistics,
};
use crate::reverse::{
    avg_pool2d_gradient, batch_norm2d_gradients, conv2d_gradients, convolution_gradients,
    cross_entropy_gradient, cross_entropy_gradients, gated, left_gradient, matmul_left_gradient,
    matmul_right_gradient, norm_gradients, pool_gradient, relu_gradient, right_gradient,
};
use crate::scalar::{copied, one, product, sum, Scalar};
use crate::shape::{lemma_numel_1, lemma_numel_2, numel};
use crate::tensor::Tensor;
use vstd::prelude::*;

verus! {

/// The state of a differentiation: the values found so far, what the batch
/// normalizations remember, and the gradients accumulated so far.
#[verifier::ext_equal]
pub struct Tape<T> {
    pub machine: Machine<T>,
    pub grads: Seq<Option<Seq<T>>>,
}

/// A gradient on its way to a node.
pub struct Share<T> {
    pub node: usize,
    pub gradient: Vec<T>,
}

/// The operands whose values the gradient of an operation needs, in the order in which
/// they are evaluated.
pub open spec fn needs<T>(op: Op<T>) -> Seq<usize> {
    match op {
        Op::Mul(left, right) => seq![left, right],
        Op::Relu(input) => seq![input],
        Op::MatMul(left, right) => seq![left, right],
        Op::Conv2d { input, weight, .. } => seq![input, weight],
        Op::CrossEntropy { logits, targets } => seq![logits, targets],
        Op::BatchNorm2d { input, weight, .. } => seq![input, weight],
        _ => seq![],
    }
}

/// `after` is the gradient `before` with `incoming` added.
pub open spec fn accumulates<T: Scalar>(
    before: Option<Seq<T>>,
    incoming: Seq<T>,
    after: Option<Seq<T>>,
) -> bool {
    match (before, after) {
        (None, Some(new)) => new == incoming,
        (Some(current), Some(new)) => {
            &&& new.len() == current.len()
            &&& forall|k: int|
                0 <= k < current.len() ==> sum(current[k], incoming[k], #[trigger] new[k])
        },
        _ => false,
    }
}

/// The statistics that the gradient of a batch normalization is taken at: those of its
/// evaluation, or where it was not evaluated, those that evaluating it would use.
pub open spec fn settles<T: Scalar>(
    planes: Planes,
    data: Seq<T>,
    state: int,
    slot: int,
    training: bool,
    epsilon: T,
    norms: Memory<T>,
    statistics: Statistics<T>,
) -> bool {
    match norms.saved[slot] {
        Some(saved) => statistics == saved,
        None => if training {
            planes.samples() > 1 && measured(data, planes, epsilon, statistics)
        } else {
            recalled(norms.states[state], epsilon, statistics)
        },
    }
}

/// The gradients that a node hands to its operands, in order.
pub open spec fn spreads<T: Scalar>(
    nodes: Seq<Node<T>>,
    machine: Machine<T>,
    i: int,
    gradient: Seq<T>,
    parts: Seq<(usize, Seq<T>)>,
) -> bool {
    let values = machine.values;
    match nodes[i].op {
        Op::Data(_) => parts == Seq::<(usize, Seq<T>)>::empty(),
        Op::Placeholder(_) => parts == Seq::<(usize, Seq<T>)>::empty(),
        Op::Add(left, right) => parts == seq![(left, gradient), (right, gradient)],
        Op::Mul(left, right) => {
            &&& parts.len() == 2
            &&& parts[0].0 == left
            &&& parts[1].0 == right
            &&& parts[0].1.len() == gradient.len()
            &&& parts[1].1.len() == gradient.len()
            &&& forall|k: int|
                0 <= k < gradient.len() ==> product(
                    gradient[k],
                    at(values, right)[k],
                    #[trigger] parts[0].1[k],
                )
            &&& forall|k: int|
                0 <= k < gradient.len() ==> product(
                    gradient[k],
                    at(values, left)[k],
                    #[trigger] parts[1].1[k],
                )
        },
        Op::Relu(input) => {
            &&& parts.len() == 1
            &&& parts[0].0 == input
            &&& parts[0].1.len() == gradient.len()
            &&& forall|k: int|
                0 <= k < gradient.len() ==> gated(
                    at(values, input)[k],
                    gradient[k],
                    #[trigger] parts[0].1[k],
                )
        },
        Op::Reshape(input) => parts == seq![(input, gradient)],
        Op::MatMul(left, right) => {
            let rows = nodes[left as int].shape@[0] as int;
            let inner = nodes[left as int].shape@[1] as int;
            let columns = nodes[right as int].shape@[1] as int;
            &&& parts.len() == 2
            &&& parts[0].0 == left
            &&& parts[1].0 == right
            &&& left_gradient(gradient, at(values, right), rows, inner, columns, parts[0].1)
            &&& right_gradient(gradient, at(values, left), rows, inner, columns, parts[1].1)
        },
        Op::Conv2d { input, weight, bias, stride, padding, groups } => {
            &&& parts.len() == 3
            &&& parts[0].0 == input
            &&& parts[1].0 == weight
            &&& parts[2].0 == bias
            &&& convolution_gradients(
                convolution(nodes, input as int, weight as int, stride, padding, groups),
                at(values, input),
                at(values, weight),
                gradient,
                parts[0].1,
                parts[1].1,
                parts[2].1,
            )
        },
        Op::AvgPool2d { input, kernel, stride } => {
            &&& parts.len() == 1
            &&& parts[0].0 == input
            &&& pool_gradient(pooling(nodes, input as int, kernel, stride), gradient, parts[0].1)
        },
        Op::CrossEntropy { logits, targets } => {
            &&& parts.len() == 1
            &&& parts[0].0 == logits
            &&& cross_entropy_gradients(
                at(values, logits),
                at(values, targets),
                nodes[logits as int].shape@[0],
                nodes[logits as int].shape@[1],
                gradient[0],
                parts[0].1,
            )
        },
        Op::BatchNorm2d { input, weight, bias, state, statistics, training, epsilon, .. } => {
            &&& parts.len() == 3
            &&& parts[0].0 == input
            &&& parts[1].0 == weight
            &&& parts[2].0 == bias
            &&& exists|used: Statistics<T>|
                {
                    &&& #[trigger] settles(
                        planes_of(nodes[i].shape@),
                        at(values, input),
                        state as int,
                        statistics as int,
                        training,
                        epsilon,
                        machine.norms,
                        used,
                    )
                    &&& norm_gradients(
                        planes_of(nodes[i].shape@),
                        at(values, input),
                        at(values, weight),
                        used,
                        training,
                        gradient,
                        parts[0].1,
                        parts[1].1,
                        parts[2].1,
                    )
                }
        },
    }
}

/// The gradient of the node's operation cannot be taken.
pub open spec fn blocked<T: Scalar>(
    nodes: Seq<Node<T>>,
    machine: Machine<T>,
    i: int,
    failure: Failure,
) -> bool {
    match nodes[i].op {
        Op::CrossEntropy { logits, targets } => {
            &&& machine.values[targets as int] is Some
            &&& label_failure(
                at(machine.values, targets),
                nodes[logits as int].shape@[0] as int,
                nodes[logits as int].shape@[1],
                failure,
            )
        },
        Op::BatchNorm2d { statistics, training, .. } => {
            &&& training
            &&& machine.norms.saved[statistics as int] is None
            &&& planes_of(nodes[i].shape@).samples() <= 1
            &&& failure == too_few_samples()
        },
        _ => false,
    }
}

/// Evaluating the listed nodes one after the other leads from `before` to `after`.
pub open spec fn evaluates_all<T: Scalar>(
    nodes: Seq<Node<T>>,
    before: Machine<T>,
    list: Seq<usize>,
    after: Machine<T>,
) -> bool
    decreases list.len(),
{
    if list.len() == 0 {
        after == before
    } else {
        exists|middle: Machine<T>|
            {
                &&& evaluates_all(nodes, before, list.drop_last(), middle)
                &&& #[trigger] evaluates(nodes, None, middle, list.last() as int, after)
            }
    }
}

/// The states have room for the same values and gradients.
pub open spec fn abreast<T>(one: Tape<T>, other: Tape<T>) -> bool {
    &&& other.grads.len() == one.grads.len()
    &&& other.machine.values.len() == one.machine.values.len()
}

/// Adding `gradient` to what the node has, and finding the values that the operation's
/// gradient needs, leads from `before` to `after`, which has those values.
pub open spec fn receives<T: Scalar>(
    nodes: Seq<Node<T>>,
    before: Tape<T>,
    i: int,
    gradient: Seq<T>,
    after: Tape<T>,
) -> bool {
    &&& accumulates(before.grads[i], gradient, after.grads[i])
    &&& after.grads == before.grads.update(i, after.grads[i])
    &&& evaluates_all(nodes, before.machine, needs(nodes[i].op), after.machine)
    &&& forall|k: int|
        0 <= k < needs(nodes[i].op).len() ==> after.machine.values[(
        #[trigger] needs(nodes[i].op)[k]) as int] is Some
}

/// Handing `gradient` to the node leads from `before` to `after`: the gradient is added to
/// what the node has, the values that the operation's gradient needs are found, and each
/// operand is handed its part.
pub open spec fn flows<T: Scalar>(
    nodes: Seq<Node<T>>,
    before: Tape<T>,
    i: int,
    gradient: Seq<T>,
    after: Tape<T>,
) -> bool
    decreases i, 1nat, 0nat,
{
    exists|middle: Tape<T>, parts: Seq<(usize, Seq<T>)>|
        {
            &&& #[trigger] receives(nodes, before, i, gradient, middle)
            &&& #[trigger] spreads(nodes, middle.machine, i, gradient, parts)
            &&& flows_all(nodes, i, middle, parts, after)
        }
}

/// Handing each part to its node, one after the other, leads from `before` to `after`.
pub open spec fn flows_all<T: Scalar>(
    nodes: Seq<Node<T>>,
    limit: int,
    before: Tape<T>,
    parts: Seq<(usize, Seq<T>)>,
    after: Tape<T>,
) -> bool
    decreases limit, 0nat, parts.len(),
{
    if parts.len() == 0 {
        after == before
    } else {
        exists|middle: Tape<T>|
            {
                &&& #[trigger] abreast(before, middle)
                &&& flows_all(nodes, limit, before, parts.drop_last(), middle)
                &&& 0 <= parts.last().0 < limit
                &&& flows(nodes, middle, parts.last().0 as int, parts.last().1, after)
            }
    }
}

/// Evaluating the node leads from `before` to `after` and stops there: at a node that it is
/// computed from, the failure comes up.
pub open spec fn falters<T: Scalar>(
    nodes: Seq<Node<T>>,
    before: Machine<T>,
    i: int,
    after: Machine<T>,
    failure: Failure,
) -> bool {
    &&& evaluates(nodes, None, before, i, after)
    &&& exists|j: int|
        {
            &&& #[trigger] reaches(nodes, i, j)
            &&& after.values[j] is None
            &&& stuck(nodes, None, after, j, failure)
        }
}

/// Handing `gradient` to the node leads from `before` to `after` and stops there.  The
/// gradient has been added to what the node has.  Then a value that the operation's
/// gradient needs could not be found, or the operation's gradient could not be taken, or
/// some operands were handed their parts and the next one could not pass its part on.
pub open spec fn stops<T: Scalar>(
    nodes: Seq<Node<T>>,
    before: Tape<T>,
    i: int,
    gradient: Seq<T>,
    after: Tape<T>,
    failure: Failure,
) -> bool
    decreases i,
{
    ||| exists|k: int, found: Machine<T>|
        {
            &&& 0 <= k < needs(nodes[i].op).len()
            &&& #[trigger] evaluates_all(
                nodes,
                before.machine,
                needs(nodes[i].op).take(k),
                found,
            )
            &&& falters(nodes, found, needs(nodes[i].op)[k] as int, after.machine, failure)
            &&& accumulates(before.grads[i], gradient, after.grads[i])
            &&& after.grads == before.grads.update(i, after.grads[i])
        }
    ||| receives(nodes, before, i, gradient, after) && blocked(nodes, after.machine, i, failure)
    ||| exists|middle: Tape<T>, parts: Seq<(usize, Seq<T>)>, k: int, last: Tape<T>|
        {
            &&& #[trigger] receives(nodes, before, i, gradient, middle)
            &&& #[trigger] spreads(nodes, middle.machine, i, gradient, parts)
            &&& 0 <= k < parts.len()
            &&& #[trigger] flows_all(nodes, i, middle, parts.take(k), last)
            &&& 0 <= parts[k].0 < i
            &&& stops(nodes, last, parts[k].0 as int, parts[k].1, after, failure)
        }
}

/// Gradients have the size of their node.
pub open spec fn fitted<T>(nodes: Seq<Node<T>>, grads: Seq<Option<Seq<T>>>) -> bool {
    sized(nodes, grads)
}

/// The parts as sequences.
pub open spec fn shares<T>(parts: Seq<Share<T>>) -> Seq<(usize, Seq<T>)> {
    Seq::new(parts.len(), |k: int| (parts[k].node, parts[k].gradient@))
}

/// The parts go to operands of the node, and have their sizes.
pub open spec fn apportioned<T>(
    nodes: Seq<Node<T>>,
    i: int,
    parts: Seq<(usize, Seq<T>)>,
) -> bool {
    forall|k: int|
        0 <= k < parts.len() ==> {
            &&& operands(nodes[i].op).contains((#[trigger] parts[k]).0)
            &&& parts[k].1.len() == numel(nodes[parts[k].0 as int].shape@)
        }
}

fn need_list<T>(op: &Op<T>) -> (r: Vec<usize>)
    ensures
        r@ == needs(*op),
{
    let mut r: Vec<usize> = Vec::new();
    match op {
        Op::Mul(left, right) => {
            r.push(*left);
            r.push(*right);
        },
        Op::Relu(input) => {
            r.push(*input);
        },
        Op::MatMul(left, right) => {
            r.push(*left);
            r.push(*right);
        },
        Op::Conv2d { input, weight, .. } => {
            r.push(*input);
            r.push(*weight);
        },
        Op::CrossEntropy { logits, targets } => {
            r.push(*logits);
            r.push(*targets);
        },
        Op::BatchNorm2d { input, weight, .. } => {
            r.push(*input);
            r.push(*weight);
        },
        _ => {},
    }
    assert(r@ =~= needs(*op));
    r
}

/// Adds a gradient to what a node has.
pub fn accumulate_gradient<T: Scalar>(
    grads: &mut Vec<Option<Vec<T>>>,
    i: usize,
    incoming: &Vec<T>,
)
    requires
        i < old(grads).len(),
        old(grads)@[i as int] matches Some(current) ==> current.len() == incoming.len(),
    ensures
        accumulates(
            seen(old(grads)@)[i as int],
            incoming@,
            seen(final(grads)@)[i as int],
        ),
        seen(final(grads)@) == seen(old(grads)@).update(
            i as int,
            seen(final(grads)@)[i as int],
        ),
        seen(final(grads)@)[i as int] matches Some(new) && new.len() == incoming@.len(),
{
    let ghost before = grads@;
    let next = if grads[i].is_some() {
        zip_map(grads[i].as_ref().unwrap(), incoming, T::plus)
    } else {
        copied(incoming)
    };
    let ghost result = next@;
    grads.set(i, Some(next));
    proof {
        assert(seen(grads@) =~= seen(before).update(i as int, Some(result)));
    }
}

/// The statistics that the gradient of a batch normalization is taken at.
fn settle<T: Scalar>(
    planes: Planes,
    data: &Vec<T>,
    norms: &Norms<T>,
    state: usize,
    slot: usize,
    training: bool,
    epsilon: T,
) -> (r: Result<crate::norm::BatchNormStatistics<T>>)
    requires
        planes.wf(),
        data.len() == planes.len(),
        state < norms@.states.len(),
        norms@.states[state as int].mean.len() == planes.channels,
        norms@.states[state as int].variance.len() == planes.channels,
        slot < norms@.saved.len(),
        norms@.saved[slot as int] matches Some(s) ==> s.mean.len() == planes.channels
            && s.inverse.len() == planes.channels,
    ensures
        match r {
            Ok(statistics) => {
                &&& settles(
                    planes,
                    data@,
                    state as int,
                    slot as int,
                    training,
                    epsilon,
                    norms@,
                    statistics@,
                )
                &&& statistics@.mean.len() == planes.channels
                &&& statistics@.inverse.len() == planes.channels
            },
            Err(error) => {
                &&& training
                &&& norms@.saved[slot as int] is None
                &&& planes.samples() <= 1
                &&& error@ == too_few_samples()
            },
        },
{
    if norms.saved[slot].is_some() {
        let saved = norms.saved[slot].as_ref().unwrap();
        assert(norms@.saved[slot as int] == Some(saved@));
        return Ok(
            crate::norm::BatchNormStatistics {
                mean: copied(&saved.mean),
                inverse_standard_deviation: copied(&saved.inverse_standard_deviation),
            },
        );
    }
    assert(norms@.saved[slot as int] is None);
    if training {
        batch_statistics(data, planes, epsilon)
    } else {
        assert(norms@.states[state as int] == norms.states@[state as int]@);
        Ok(running_statistics(&norms.states[state], epsilon))
    }
}

fn one_share<T>(node: usize, gradient: Vec<T>) -> (r: Vec<Share<T>>)
    ensures
        shares(r@) == seq![(node, gradient@)],
{
    let ghost values = gradient@;
    let mut r: Vec<Share<T>> = Vec::new();
    r.push(Share { node, gradient });
    assert(shares(r@) =~= seq![(node, values)]);
    r
}

fn two_shares<T>(first: usize, for_first: Vec<T>, second: usize, for_second: Vec<T>) -> (r: Vec<
    Share<T>,
>)
    ensures
        shares(r@) == seq![(first, for_first@), (second, for_second@)],
{
    let ghost (a, b) = (for_first@, for_second@);
    let mut r: Vec<Share<T>> = Vec::new();
    r.push(Share { node: first, gradient: for_first });
    r.push(Share { node: second, gradient: for_second });
    assert(shares(r@) =~= seq![(first, a), (second, b)]);
    r
}

fn three_shares<T>(
    first: usize,
    for_first: Vec<T>,
    second: usize,
    for_second: Vec<T>,
    third: usize,
    for_third: Vec<T>,
) -> (r: Vec<Share<T>>)
    ensures
        shares(r@) == seq![
            (first, for_first@),
            (second, for_second@),
            (third, for_third@),
        ],
{
    let ghost (a, b, c) = (for_first@, for_second@, for_third@);
    let mut r: Vec<Share<T>> = Vec::new();
    r.push(Share { node: first, gradient: for_first });
    r.push(Share { node: second, gradient: for_second });
    r.push(Share { node: third, gradient: for_third });
    assert(shares(r@) =~= seq![(first, a), (second, b), (third, c)]);
    r
}

/// The gradients that a node hands to its operands.
#[verifier::rlimit(60)]
fn spread<T: Scalar>(
    nodes: &Vec<Node<T>>,
    norms: &Norms<T>,
    i: usize,
    gradient: &Vec<T>,
    cache: &Vec<Option<Vec<T>>>,
) -> (r: Result<Vec<Share<T>>>)
    requires
        sound(nodes@, norms@),
        i < nodes.len(),
        fits_alone(nodes@, i as int),
        forall|k: int|
            0 <= k < operands(nodes@[i as int].op).len() ==> fits_alone(
                nodes@,
                (#[trigger] operands(nodes@[i as int].op)[k]) as int,
            ),
        sized(nodes@, seen(cache@)),
        forall|k: int|
            0 <= k < needs(nodes@[i as int].op).len() ==> seen(cache@)[(#[trigger] needs(
                nodes@[i as int].op,
            )[k]) as int] is Some,
        gradient.len() == numel(nodes@[i as int].shape@),
    ensures
        match r {
            Ok(parts) => {
                &&& spreads(
                    nodes@,
                    Machine { values: seen(cache@), norms: norms@ },
                    i as int,
                    gradient@,
                    shares(parts@),
                )
                &&& apportioned(nodes@, i as int, shares(parts@))
            },
            Err(error) => blocked(
                nodes@,
                Machine { values: seen(cache@), norms: norms@ },
                i as int,
                error@,
            ),
        },
{
    let ghost all = nodes@;
    let ghost values = seen(cache@);
    let ghost ops = operands(all[i as int].op);
    let ghost wanted = needs(all[i as int].op);
    proof {
        assert(ordered(all, i as int));
        assert(shaped(all, norms@, i as int));
        assert forall|k: int| 0 <= k < ops.len() implies (#[trigger] ops[k]) < i && numel(
            all[ops[k] as int].shape@,
        ) <= usize::MAX by {
            assert(fits_alone(all, operands(all[i as int].op)[k] as int));
        }
        assert forall|k: int| 0 <= k < wanted.len() implies values[(
        #[trigger] wanted[k]) as int] is Some by {
            assert(values[needs(all[i as int].op)[k] as int] is Some);
        }
    }
    match &nodes[i].op {
        Op::Data(_) => {
            let r: Vec<Share<T>> = Vec::new();
            assert(shares(r@) =~= Seq::empty());
            Ok(r)
        },
        Op::Placeholder(_) => {
            let r: Vec<Share<T>> = Vec::new();
            assert(shares(r@) =~= Seq::empty());
            Ok(r)
        },
        Op::Add(left, right) => {
            assert(ops[0] == *left && ops[1] == *right);
            Ok(two_shares(*left, copied(gradient), *right, copied(gradient)))
        },
        Op::Mul(left, right) => {
            assert(ops[0] == *left && ops[1] == *right);
            assert(wanted[0] == *left && wanted[1] == *right);
            let for_left = zip_map(gradient, value_at(cache, *right), T::times);
            let for_right = zip_map(gradient, value_at(cache, *left), T::times);
            Ok(two_shares(*left, for_left, *right, for_right))
        },
        Op::Relu(input) => {
            assert(ops[0] == *input && wanted[0] == *input);
            Ok(one_share(*input, relu_gradient(value_at(cache, *input), gradient)))
        },
        Op::Reshape(input) => {
            assert(ops[0] == *input);
            Ok(one_share(*input, copied(gradient)))
        },
        Op::MatMul(left, right) => {
            assert(ops[0] == *left && ops[1] == *right);
            assert(wanted[0] == *left && wanted[1] == *right);
            proof {
                lemma_numel_2(all[*left as int].shape@);
                lemma_numel_2(all[*right as int].shape@);
                lemma_numel_2(all[i as int].shape@);
            }
            let rows: usize = nodes[*left].shape[0];
            let inner: usize = nodes[*left].shape[1];
            let columns: usize = nodes[*right].shape[1];
            let for_left = matmul_left_gradient(
                gradient,
                value_at(cache, *right),
                rows,
                inner,
                columns,
            );
            let for_right = matmul_right_gradient(
                gradient,
                value_at(cache, *left),
                rows,
                inner,
                columns,
            );
            Ok(two_shares(*left, for_left, *right, for_right))
        },
        Op::Conv2d { input, weight, bias, stride, padding, groups } => {
            assert(ops[0] == *input && ops[1] == *weight && ops[2] == *bias);
            assert(wanted[0] == *input && wanted[1] == *weight);
            proof {
                lemma_convolution(
                    all,
                    norms@,
                    i as int,
                    *input,
                    *weight,
                    *bias,
                    *stride,
                    *padding,
                    *groups,
                );
            }
            let geometry = Convolution {
                batch: nodes[*input].shape[0],
                in_channels: nodes[*input].shape[1],
                height: nodes[*input].shape[2],
                width: nodes[*input].shape[3],
                out_channels: nodes[*weight].shape[0],
                kernel_h: nodes[*weight].shape[2],
                kernel_w: nodes[*weight].shape[3],
                stride: *stride,
                padding: *padding,
                groups: *groups,
            };
            let (for_input, for_weight, for_bias) = conv2d_gradients(
                geometry,
                value_at(cache, *input),
                value_at(cache, *weight),
                gradient,
            );
            Ok(three_shares(*input, for_input, *weight, for_weight, *bias, for_bias))
        },
        Op::AvgPool2d { input, kernel, stride } => {
            assert(ops[0] == *input);
            proof {
                lemma_pooling(all, norms@, i as int, *input, *kernel, *stride);
            }
            let geometry = Pooling {
                batch: nodes[*input].shape[0],
                channels: nodes[*input].shape[1],
                height: nodes[*input].shape[2],
                width: nodes[*input].shape[3],
                kernel: *kernel,
                stride: *stride,
            };
            Ok(one_share(*input, avg_pool2d_gradient(geometry, gradient)))
        },
        Op::CrossEntropy { logits, targets } => {
            assert(ops[0] == *logits && ops[1] == *targets);
            assert(wanted[0] == *logits && wanted[1] == *targets);
            proof {
                lemma_numel_2(all[*logits as int].shape@);
                lemma_numel_1(all[*targets as int].shape@);
                lemma_numel_1(all[i as int].shape@);
            }
            let batch: usize = nodes[*logits].shape[0];
            let classes: usize = nodes[*logits].shape[1];
            let for_logits = cross_entropy_gradient(
                value_at(cache, *logits),
                value_at(cache, *targets),
                batch,
                classes,
                gradient[0],
            )?;
            Ok(one_share(*logits, for_logits))
        },
        Op::BatchNorm2d { input, weight, bias, state, statistics, training, epsilon, .. } => {
            assert(ops[0] == *input && ops[1] == *weight && ops[2] == *bias);
            assert(wanted[0] == *input && wanted[1] == *weight);
            proof {
                lemma_planes(all[i as int].shape@);
                lemma_numel_1(all[*weight as int].shape@);
                lemma_numel_1(all[*bias as int].shape@);
            }
            let planes = Planes {
                batch: nodes[i].shape[0],
                channels: nodes[i].shape[1],
                spatial: nodes[i].shape[2] * nodes[i].shape[3],
            };
            let used = settle(
                planes,
                value_at(cache, *input),
                norms,
                *state,
                *statistics,
                *training,
                *epsilon,
            )?;
            let (for_input, for_weight, for_bias) = batch_norm2d_gradients(
                planes,
                value_at(cache, *input),
                value_at(cache, *weight),
                &used,
                *training,
                gradient,
            );
            assert(settles(
                planes_of(all[i as int].shape@),
                at(values, *input),
                *state as int,
                *statistics as int,
                *training,
                *epsilon,
                norms@,
                used@,
            ));
            Ok(three_shares(*input, for_input, *weight, for_weight, *bias, for_bias))
        },
    }
}

pub proof fn lemma_needs<T>(op: Op<T>, k: int)
    requires
        0 <= k < needs(op).len(),
    ensures
        k < operands(op).len(),
        needs(op)[k] == operands(op)[k],
{
}

proof fn lemma_flows_all_push<T: Scalar>(
    nodes: Seq<Node<T>>,
    limit: int,
    before: Tape<T>,
    parts: Seq<(usize, Seq<T>)>,
    middle: Tape<T>,
    part: (usize, Seq<T>),
    after: Tape<T>,
)
    requires
        abreast(before, middle),
        flows_all(nodes, limit, before, parts, middle),
        0 <= part.0 < limit,
        flows(nodes, middle, part.0 as int, part.1, after),
    ensures
        flows_all(nodes, limit, before, parts.push(part), after),
{
    assert(parts.push(part).drop_last() =~= parts);
    assert(parts.push(part).last() == part);
}

/// Hands a gradient to a node, and from there to all that it is computed from.
pub fn backward_node<T: Scalar>(
    nodes: &Vec<Node<T>>,
    norms: &mut Norms<T>,
    grads: &mut Vec<Option<Vec<T>>>,
    i: usize,
    gradient: &Vec<T>,
    cache: &mut Vec<Option<Vec<T>>>,
) -> (r: Result<()>)
    requires
        sound(nodes@, old(norms)@),
        i < nodes.len(),
        fits(nodes@, i as int),
        sized(nodes@, seen(old(cache)@)),
        fitted(nodes@, seen(old(grads)@)),
        gradient.len() == numel(nodes@[i as int].shape@),
    ensures
        evaluates(
            nodes@,
            None,
            Machine { values: seen(old(cache)@), norms: old(norms)@ },
            i as int,
            Machine { values: seen(final(cache)@), norms: final(norms)@ },
        ),
        match r {
            Ok(_) => flows(
                nodes@,
                Tape {
                    machine: Machine { values: seen(old(cache)@), norms: old(norms)@ },
                    grads: seen(old(grads)@),
                },
                i as int,
                gradient@,
                Tape {
                    machine: Machine { values: seen(final(cache)@), norms: final(norms)@ },
                    grads: seen(final(grads)@),
                },
            ),
            Err(error) => {
                &&& stops(
                    nodes@,
                    Tape {
                        machine: Machine { values: seen(old(cache)@), norms: old(norms)@ },
                        grads: seen(old(grads)@),
                    },
                    i as int,
                    gradient@,
                    Tape {
                        machine: Machine { values: seen(final(cache)@), norms: final(norms)@ },
                        grads: seen(final(grads)@),
                    },
                    error@,
                )
                &&& exists|j: int|
                    {
                        &&& #[trigger] reaches(nodes@, i as int, j)
                        &&& fails_at(
                            nodes@,
                            Machine { values: seen(final(cache)@), norms: final(norms)@ },
                            j,
                            error@,
                        )
                    }
            },
        },
        sized(nodes@, seen(final(cache)@)),
        fitted(nodes@, seen(final(grads)@)),
        sound(nodes@, final(norms)@),
        forall|j: int|
            0 <= j < nodes@.len() && !reaches(nodes@, i as int, j) ==> #[trigger] seen(
                final(grads)@,
            )[j] == seen(old(grads)@)[j],
    decreases i,
{
    let ghost all = nodes@;
    let ghost start = Tape {
        machine: Machine { values: seen(cache@), norms: norms@ },
        grads: seen(grads@),
    };
    proof {
        assert(reaches(all, i as int, i as int));
        assert(ordered(all, i as int));
        lemma_evaluates_nothing(all, None, start.machine, i as int);
        if grads@[i as int] is Some {
            assert(start.grads[i as int] == Some((grads@[i as int]->Some_0)@));
        }
    }
    accumulate_gradient(grads, i, gradient);
    let ghost own = seen(grads@);
    let list = need_list(&nodes[i].op);
    let mut k: usize = 0;
    assert(list@.take(0) =~= Seq::empty());
    while k < list.len()
        invariant
            all == nodes@,
            start.machine == (Machine { values: seen(old(cache)@), norms: old(norms)@ }),
            i < nodes.len(),
            list@ == needs(all[i as int].op),
            k <= list.len(),
            ordered(all, i as int),
            sound(all, norms@),
            fits(all, i as int),
            sized(all, seen(cache@)),
            own == seen(grads@),
            fitted(all, own),
            start.grads == seen(old(grads)@),
            accumulates(start.grads[i as int], gradient@, own[i as int]),
            own == start.grads.update(i as int, own[i as int]),
            evaluates_all(
                all,
                start.machine,
                list@.take(k as int),
                Machine { values: seen(cache@), norms: norms@ },
            ),
            evaluates(
                all,
                None,
                start.machine,
                i as int,
                Machine { values: seen(cache@), norms: norms@ },
            ),
            forall|j: int|
                0 <= j < k ==> seen(cache@)[(#[trigger] needs(all[i as int].op)[j]) as int] is Some,
            forall|j: int|
                0 <= j < nodes@.len() && !reaches(nodes@, i as int, j) ==> #[trigger] own[j]
                    == seen(old(grads)@)[j],
        decreases list.len() - k,
    {
        let operand: usize = list[k];
        let ghost middle = Machine { values: seen(cache@), norms: norms@ };
        proof {
            lemma_needs(all[i as int].op, k as int);
            assert(operands(all[i as int].op)[k as int] == operand && operand < i);
            lemma_fits_operand(all, i as int, k as int);
        }
        let outcome = eval_node(nodes, norms, operand, cache, None);
        proof {
            lemma_evaluates_operand(
                all,
                None,
                start.machine,
                middle,
                Machine { values: seen(cache@), norms: norms@ },
                i as int,
                k as int,
            );
        }
        match outcome {
            Ok(_) => {},
            Err(error) => {
                proof {
                    let now = Machine { values: seen(cache@), norms: norms@ };
                    let j = choose|j: int|
                        {
                            &&& #[trigger] reaches(all, operand as int, j)
                            &&& now.values[j] is None
                            &&& stuck(all, None, now, j, error@)
                        };
                    lemma_reaches_operand(all, i as int, k as int, j);
                    assert(fails_at(all, now, j, error@));
                    let stop = Tape { machine: now, grads: own };
                    assert(list@.take(k as int) == needs(all[i as int].op).take(k as int));
                    assert(evaluates_all(
                        all,
                        start.machine,
                        needs(all[i as int].op).take(k as int),
                        middle,
                    ));
                    assert(falters(all, middle, operand as int, now, error@));
                    assert(stops(all, start, i as int, gradient@, stop, error@));
                }
                return Err(error);
            },
        }
        proof {
            let now = Machine { values: seen(cache@), norms: norms@ };
            assert(list@.take(k + 1).drop_last() =~= list@.take(k as int));
            assert(evaluates(all, None, middle, list@.take(k + 1).last() as int, now));
        }
        k = k + 1;
    }
    assert(list@.take(k as int) =~= needs(all[i as int].op));
    let ghost middle = Tape {
        machine: Machine { values: seen(cache@), norms: norms@ },
        grads: own,
    };
    proof {
        assert forall|k: int| 0 <= k < operands(all[i as int].op).len() implies fits_alone(
            all,
            (#[trigger] operands(all[i as int].op)[k]) as int,
        ) by {
            lemma_fits_operand(all, i as int, k);
            let operand = operands(all[i as int].op)[k] as int;
            assert(reaches(all, operand, operand));
        }
    }
    assert(receives(all, start, i as int, gradient@, middle));
    let parts = match spread(nodes, norms, i, gradient, cache) {
        Ok(parts) => parts,
        Err(error) => {
            proof {
                assert(blocked(all, middle.machine, i as int, error@));
                assert(fails_at(all, middle.machine, i as int, error@));
                assert(stops(all, start, i as int, gradient@, middle, error@));
            }
            return Err(error);
        },
    };
    let ghost portions = shares(parts@);
    let mut k: usize = 0;
    assert(portions.take(0) =~= Seq::empty());
    while k < parts.len()
        invariant
            all == nodes@,
            start.machine == (Machine { values: seen(old(cache)@), norms: old(norms)@ }),
            i < nodes.len(),
            k <= parts.len(),
            portions == shares(parts@),
            start.grads == seen(old(grads)@),
            receives(all, start, i as int, gradient@, middle),
            spreads(all, middle.machine, i as int, gradient@, portions),
            middle.grads.len() == all.len(),
            middle.machine.values.len() == all.len(),
            apportioned(all, i as int, portions),
            ordered(all, i as int),
            sound(all, norms@),
            fits(all, i as int),
            sized(all, seen(cache@)),
            fitted(all, seen(grads@)),
            flows_all(
                all,
                i as int,
                middle,
                portions.take(k as int),
                Tape {
                    machine: Machine { values: seen(cache@), norms: norms@ },
                    grads: seen(grads@),
                },
            ),
            evaluates(
                all,
                None,
                start.machine,
                i as int,
                Machine { values: seen(cache@), norms: norms@ },
            ),
            forall|j: int|
                0 <= j < nodes@.len() && !reaches(nodes@, i as int, j) ==> #[trigger] seen(
                    grads@,
                )[j] == seen(old(grads)@)[j],
        decreases parts.len() - k,
    {
        let operand: usize = parts[k].node;
        let ghost now = Tape {
            machine: Machine { values: seen(cache@), norms: norms@ },
            grads: seen(grads@),
        };
        let ghost slot = operands(all[i as int].op).index_of(operand);
        proof {
            assert(operands(all[i as int].op).contains(portions[k as int].0));
            assert(0 <= slot < operands(all[i as int].op).len() && operands(all[i as int].op)[slot]
                == operand);
            assert(operand < i);
            lemma_fits_operand(all, i as int, slot);
            assert forall|j: int|
                0 <= j < all.len() && !reaches(all, i as int, j) implies !reaches(
                all,
                operand as int,
                j,
            ) by {
                if reaches(all, operand as int, j) {
                    lemma_reaches_operand(all, i as int, slot, j);
                }
            }
        }
        let outcome = backward_node(nodes, norms, grads, operand, &parts[k].gradient, cache);
        proof {
            lemma_evaluates_operand(
                all,
                None,
                start.machine,
                now.machine,
                Machine { values: seen(cache@), norms: norms@ },
                i as int,
                slot,
            );
        }
        match outcome {
            Ok(_) => {},
            Err(error) => {
                proof {
                    let machine = Machine { values: seen(cache@), norms: norms@ };
                    let j = choose|j: int|
                        {
                            &&& #[trigger] reaches(all, operand as int, j)
                            &&& fails_at(all, machine, j, error@)
                        };
                    lemma_reaches_operand(all, i as int, slot, j);
                    let stop = Tape { machine, grads: seen(grads@) };
                    assert(portions[k as int] == (operand, parts@[k as int].gradient@));
                    assert(flows_all(all, i as int, middle, portions.take(k as int), now));
                    assert(stops(all, now, operand as int, portions[k as int].1, stop, error@));
                    assert(stops(all, start, i as int, gradient@, stop, error@));
                }
                return Err(error);
            },
        }
        proof {
            let later = Tape {
                machine: Machine { values: seen(cache@), norms: norms@ },
                grads: seen(grads@),
            };
            lemma_flows_all_push(
                all,
                i as int,
                middle,
                portions.take(k as int),
                now,
                portions[k as int],
                later,
            );
            assert(portions.take(k as int).push(portions[k as int]) =~= portions.take(k + 1));
        }
        k = k + 1;
    }
    proof {
        assert(portions.take(k as int) =~= portions);
        let end = Tape {
            machine: Machine { values: seen(cache@), norms: norms@ },
            grads: seen(grads@),
        };
        assert(flows_all(all, i as int, middle, portions, end));
        assert(flows(all, start, i as int, gradient@, end));
    }
    Ok(())
}

/// Clears the gradients of a node and of all that it is computed from.
pub fn clear_graph_grads<T>(
    nodes: &Vec<Node<T>>,
    root: usize,
    grads: &mut Vec<Option<Vec<T>>>,
)
    requires
        root < nodes.len(),
        old(grads).len() == nodes.len(),
        forall|i: int| 0 <= i < nodes.len() ==> #[trigger] ordered(nodes@, i),
    ensures
        final(grads).len() == nodes.len(),
        forall|i: int|
            0 <= i < nodes.len() ==> #[trigger] seen(final(grads)@)[i] == (if reaches(
                nodes@,
                root as int,
                i,
            ) {
                None
            } else {
                seen(old(grads)@)[i]
            }),
{
    let marked = crate::graph::reachable(nodes, root);
    let mut i: usize = 0;
    while i < nodes.len()
        invariant
            marked.len() == nodes.len(),
            grads.len() == nodes.len(),
            forall|j: int|
                0 <= j < nodes.len() ==> #[trigger] marked@[j] == reaches(
                    nodes@,
                    root as int,
                    j,
                ),
            i <= nodes.len(),
            forall|j: int|
                0 <= j < nodes.len() ==> #[trigger] seen(grads@)[j] == (if j < i && reaches(
                    nodes@,
                    root as int,
                    j,
                ) {
                    None
                } else {
                    seen(old(grads)@)[j]
                }),
        decreases nodes.len() - i,
    {
        let ghost before = grads@;
        assert(marked@[i as int] == reaches(nodes@, root as int, i as int));
        if marked[i] {
            grads.set(i, None);
            assert(seen(grads@) =~= seen(before).update(i as int, None));
        }
        i = i + 1;
    }
}

/// Clearing the gradients of the node and of all that it is computed from, then handing
/// the node the gradient one, leads from the first gradients and memory to the second.
pub open spec fn differentiates<T: Scalar>(
    nodes: Seq<Node<T>>,
    before: Memory<T>,
    grads: Seq<Option<Seq<T>>>,
    node: int,
    after: Memory<T>,
    new_grads: Seq<Option<Seq<T>>>,
) -> bool {
    exists|unit: T, end: Tape<T>|
        {
            &&& one(unit)
            &&& #[trigger] flows(
                nodes,
                Tape {
                    machine: Machine { values: blank(nodes.len()), norms: before },
                    grads: cleared(nodes, node, grads),
                },
                node,
                seq![unit],
                end,
            )
            &&& end.machine.norms == after
            &&& end.grads == new_grads
        }
}

/// The gradients without those of the node and of all that it is computed from.
pub open spec fn cleared<T>(
    nodes: Seq<Node<T>>,
    node: int,
    grads: Seq<Option<Seq<T>>>,
) -> Seq<Option<Seq<T>>> {
    Seq::new(
        grads.len(),
        |i: int|
            if reaches(nodes, node, i) {
                None
            } else {
                grads[i]
            },
    )
}

/// A differentiation fails.  The gradients of the node and of all that it is computed from
/// are cleared, and hold what flowed until some node could be neither evaluated nor
/// differentiated further.
pub open spec fn breaks_off<T: Scalar>(
    nodes: Seq<Node<T>>,
    before: Memory<T>,
    grads: Seq<Option<Seq<T>>>,
    node: int,
    after: Memory<T>,
    new_grads: Seq<Option<Seq<T>>>,
    failure: Failure,
) -> bool {
    exists|unit: T, end: Tape<T>, at: int|
        {
            &&& one(unit)
            &&& #[trigger] stops(
                nodes,
                Tape {
                    machine: Machine { values: blank(nodes.len()), norms: before },
                    grads: cleared(nodes, node, grads),
                },
                node,
                seq![unit],
                end,
                failure,
            )
            &&& end.machine.norms == after
            &&& end.grads == new_grads
            &&& evaluates(
                nodes,
                None,
                Machine { values: blank(nodes.len()), norms: before },
                node,
                end.machine,
            )
            &&& #[trigger] reaches(nodes, node, at)
            &&& fails_at(nodes, end.machine, at, failure)
        }
}

/// What a differentiation gives does not depend on the gradients that it replaces.
pub proof fn differentiation_starts_afresh<T: Scalar>(
    nodes: Seq<Node<T>>,
    before: Memory<T>,
    one: Seq<Option<Seq<T>>>,
    other: Seq<Option<Seq<T>>>,
    node: int,
    after: Memory<T>,
    grads: Seq<Option<Seq<T>>>,
)
    requires
        one.len() == other.len(),
        forall|i: int|
            0 <= i < one.len() && !reaches(nodes, node, i) ==> #[trigger] one[i] == other[i],
    ensures
        differentiates(nodes, before, one, node, after, grads) == differentiates(
            nodes,
            before,
            other,
            node,
            after,
            grads,
        ),
{
    assert(cleared(nodes, node, one) =~= cleared(nodes, node, other));
}

/// The node can be neither evaluated nor differentiated further.
pub open spec fn fails_at<T: Scalar>(
    nodes: Seq<Node<T>>,
    machine: Machine<T>,
    at: int,
    failure: Failure,
) -> bool {
    stuck(nodes, None, machine, at, failure) || blocked(nodes, machine, at, failure)
}

impl Tensor {
    /// Differentiates a scalar tensor with respect to all that it is computed from.
    pub fn backward<T: Scalar>(&self, graph: &mut Graph<T>) -> (r: Result<()>)
        requires
            old(graph).wf(),
            old(graph).has(*self),
            fits(old(graph).nodes@, self.id as int),
        ensures
            final(graph).wf(),
            final(graph).nodes == old(graph).nodes,
            final(graph).next_parameter == old(graph).next_parameter,
            numel(self.shape@) != 1 ==> {
                &&& r matches Err(error) && error@ == Failure::Execution(
                    "backward requires a scalar loss tensor"@,
                )
                &&& *final(graph) == *old(graph)
            },
            numel(self.shape@) == 1 ==> match r {
                Ok(_) => differentiates(
                    old(graph).nodes@,
                    old(graph).norms@,
                    seen(old(graph).grads@),
                    self.id as int,
                    final(graph).norms@,
                    seen(final(graph).grads@),
                ),
                Err(error) => breaks_off(
                    old(graph).nodes@,
                    old(graph).norms@,
                    seen(old(graph).grads@),
                    self.id as int,
                    final(graph).norms@,
                    seen(final(graph).grads@),
                    error@,
                ),
            },
            forall|i: int|
                0 <= i < old(graph).nodes@.len() && !reaches(
                    old(graph).nodes@,
                    self.id as int,
                    i,
                ) ==> #[trigger] seen(final(graph).grads@)[i] == seen(old(graph).grads@)[i],
    {
        proof {
            assert(reaches(graph.nodes@, self.id as int, self.id as int));
        }
        if self.numel() != 1 {
            return Err(Error::execution("backward requires a scalar loss tensor"));
        }
        let ghost nodes = graph.nodes@;
        let ghost before = graph.grads@;
        let ghost memory = graph.norms@;
        clear_graph_grads(&graph.nodes, self.id, &mut graph.grads);
        assert(seen(graph.grads@) =~= cleared(nodes, self.id as int, seen(before)));
        let unit = T::of_count(1);
        let mut gradient: Vec<T> = Vec::new();
        gradient.push(unit);
        assert(gradient@ =~= seq![unit]);
        let mut cache = no_values(graph.nodes.len());
        proof {
            assert forall|i: int| 0 <= i < seen(graph.grads@).len() implies (#[trigger] seen(
                graph.grads@,
            )[i] matches Some(value) ==> value.len() == numel(nodes[i].shape@)) by {
                if !reaches(nodes, self.id as int, i) {
                    assert(seen(graph.grads@)[i] == seen(before)[i]);
                    assert(before[i] is Some ==> (before[i]->Some_0)@.len() == numel(
                        nodes[i].shape@,
                    ));
                }
            }
        }
        let outcome = backward_node(
            &graph.nodes,
            &mut graph.norms,
            &mut graph.grads,
            self.id,
            &gradient,
            &mut cache,
        );
        proof {
            assert forall|i: int| 0 <= i < graph.grads@.len() implies (#[trigger] graph.grads@[i]
                matches Some(gradient) ==> gradient@.len() == numel(nodes[i].shape@)) by {
                assert(seen(graph.grads@)[i] is Some ==> (seen(graph.grads@)[i]->Some_0).len()
                    == numel(nodes[i].shape@));
            }
            let end = Tape {
                machine: Machine { values: seen(cache@), norms: graph.norms@ },
                grads: seen(graph.grads@),
            };
            match &outcome {
                Ok(_) => {
                    assert(one(unit) && flows(
                        nodes,
                        Tape {
                            machine: Machine { values: blank(nodes.len()), norms: memory },
                            grads: cleared(nodes, self.id as int, seen(before)),
                        },
                        self.id as int,
                        seq![unit],
                        end,
                    ));
                },
                Err(error) => {
                    let j = choose|j: int|
                        {
                            &&& #[trigger] reaches(nodes, self.id as int, j)
                            &&& fails_at(nodes, end.machine, j, error@)
                        };
                    assert(one(unit) && stops(
                        nodes,
                        Tape {
                            machine: Machine { values: blank(nodes.len()), norms: memory },
                            grads: cleared(nodes, self.id as int, seen(before)),
                        },
                        self.id as int,
                        seq![unit],
                        end,
                        error@,
                    ));
                    assert(reaches(nodes, self.id as int, j));
                },
            }
        }
        outcome
    }

    /// The gradient accumulated on the tensor, if any.
    pub fn grad<T: Copy>(&self, graph: &Graph<T>) -> (r: Option<Vec<T>>)
        requires
            graph.wf(),
            graph.has(*self),
        ensures
            match r {
                Some(gradient) => seen(graph.grads@)[self.id as int] == Some(gradient@)
                    && gradient@.len() == numel(self.shape@),
                None => seen(graph.grads@)[self.id as int] is None,
            },
    {
        match &graph.grads[self.id] {
            Some(gradient) => Some(copied(gradient)),
            None => None,
        }
    }

    /// Clears the gradient accumulated on the tensor.
    pub fn zero_grad<T>(&self, graph: &mut Graph<T>)
        requires
            old(graph).wf(),
            old(graph).has(*self),
        ensures
            final(graph).wf(),
            final(graph).nodes == old(graph).nodes,
            final(graph).norms == old(graph).norms,
            final(graph).next_parameter == old(graph).next_parameter,
            final(graph).grads@ == old(graph).grads@.update(self.id as int, None),
    {
        graph.grads.set(self.id, None);
    }
}

/// Every batch normalization that takes part has its statistics.
pub open spec fn quiet<T>(nodes: Seq<Node<T>>, norms: Memory<T>, node: int) -> bool {
    forall|i: int| #[trigger]
        reaches(nodes, node, i) && nodes[i].op is BatchNorm2d
            ==> norms.saved[nodes[i].op->statistics as int] is Some
}

/// The parts of a gradient go to operands.
pub proof fn lemma_spreads_operands<T: Scalar>(
    nodes: Seq<Node<T>>,
    machine: Machine<T>,
    i: int,
    gradient: Seq<T>,
    parts: Seq<(usize, Seq<T>)>,
)
    requires
        spreads(nodes, machine, i, gradient, parts),
    ensures
        forall|k: int|
            0 <= k < parts.len() ==> k < operands(nodes[i].op).len() && (#[trigger] parts[k]).0
                == operands(nodes[i].op)[k],
{
}

/// Evaluations in which every batch normalization has its statistics leave what is
/// remembered.
proof fn lemma_runs_quiet<T: Scalar>(
    nodes: Seq<Node<T>>,
    inputs: Option<Seq<Seq<T>>>,
    before: Machine<T>,
    order: Seq<int>,
    root: int,
    after: Machine<T>,
)
    requires
        quiet(nodes, before.norms, root),
        runs(nodes, inputs, before, order, after),
        forall|k: int| 0 <= k < order.len() ==> reaches(nodes, root, #[trigger] order[k]),
    ensures
        after.norms == before.norms,
    decreases order.len(),
{
    if order.len() > 0 {
        let middle = choose|middle: Machine<T>|
            {
                &&& runs(nodes, inputs, before, order.drop_last(), middle)
                &&& #[trigger] step(nodes, inputs, middle, order.last(), after)
            };
        assert forall|k: int| 0 <= k < order.drop_last().len() implies reaches(
            nodes,
            root,
            #[trigger] order.drop_last()[k],
        ) by {
            assert(order[k] == order.drop_last()[k]);
        }
        lemma_runs_quiet(nodes, inputs, before, order.drop_last(), root, middle);
        assert(reaches(nodes, root, order[order.len() - 1]));
    }
}

/// What an operand is computed from, the node is too.
proof fn lemma_quiet_operand<T>(nodes: Seq<Node<T>>, norms: Memory<T>, i: int, k: int)
    requires
        quiet(nodes, norms, i),
        ordered(nodes, i),
        0 <= k < operands(nodes[i].op).len(),
    ensures
        quiet(nodes, norms, operands(nodes[i].op)[k] as int),
{
    let operand = operands(nodes[i].op)[k] as int;
    assert forall|j: int| #[trigger]
        reaches(nodes, operand, j) && nodes[j].op is BatchNorm2d implies norms.saved[
    nodes[j].op->statistics as int] is Some by {
        lemma_reaches_operand(nodes, i, k, j);
    }
}

/// Evaluating what a gradient needs leaves what is remembered, where every batch
/// normalization has its statistics.
proof fn lemma_evaluates_all_quiet<T: Scalar>(
    nodes: Seq<Node<T>>,
    before: Machine<T>,
    list: Seq<usize>,
    i: int,
    after: Machine<T>,
)
    requires
        quiet(nodes, before.norms, i),
        ordered(nodes, i),
        list.len() <= operands(nodes[i].op).len(),
        forall|k: int| 0 <= k < list.len() ==> #[trigger] list[k] == operands(nodes[i].op)[k],
        evaluates_all(nodes, before, list, after),
    ensures
        after.norms == before.norms,
    decreases list.len(),
{
    if list.len() > 0 {
        let middle = choose|middle: Machine<T>|
            {
                &&& evaluates_all(nodes, before, list.drop_last(), middle)
                &&& #[trigger] evaluates(nodes, None, middle, list.last() as int, after)
            };
        lemma_evaluates_all_quiet(nodes, before, list.drop_last(), i, middle);
        lemma_quiet_operand(nodes, before.norms, i, list.len() - 1);
        let order = choose|order: Seq<int>|
            {
                &&& #[trigger] runs(nodes, None, middle, order, after)
                &&& forall|k: int|
                    0 <= k < order.len() ==> reaches(
                        nodes,
                        list.last() as int,
                        #[trigger] order[k],
                    )
            };
        lemma_runs_quiet(nodes, None, middle, order, list.last() as int, after);
    }
}

/// None of the operands of a node is computed from `j`.
spec fn aside<T>(nodes: Seq<Node<T>>, i: int, j: int) -> bool {
    forall|k: int|
        0 <= k < operands(nodes[i].op).len() ==> !reaches(
            nodes,
            (#[trigger] operands(nodes[i].op)[k]) as int,
            j,
        )
}

/// A gradient reaches only what its node is computed from.
proof fn lemma_flows_local<T: Scalar>(
    nodes: Seq<Node<T>>,
    before: Tape<T>,
    i: int,
    gradient: Seq<T>,
    after: Tape<T>,
)
    requires
        forall|j: int| 0 <= j < nodes.len() ==> #[trigger] ordered(nodes, j),
        0 <= i < nodes.len(),
        before.grads.len() == nodes.len(),
        flows(nodes, before, i, gradient, after),
    ensures
        after.grads.len() == nodes.len(),
        forall|j: int|
            0 <= j < nodes.len() && !reaches(nodes, i, j) ==> #[trigger] after.grads[j]
                == before.grads[j],
        before.grads[i] is None ==> after.grads[i] == Some(gradient),
        quiet(nodes, before.machine.norms, i) ==> after.machine.norms == before.machine.norms,
    decreases i, 1nat, 0nat,
{
    let (middle, parts) = choose|middle: Tape<T>, parts: Seq<(usize, Seq<T>)>|
        {
            &&& #[trigger] receives(nodes, before, i, gradient, middle)
            &&& #[trigger] spreads(nodes, middle.machine, i, gradient, parts)
            &&& flows_all(nodes, i, middle, parts, after)
        };
    assert(ordered(nodes, i));
    lemma_spreads_operands(nodes, middle.machine, i, gradient, parts);
    lemma_flows_all_local(nodes, i, middle, parts, after);
    assert(aside(nodes, i, i)) by {
        assert forall|k: int| 0 <= k < operands(nodes[i].op).len() implies !reaches(
            nodes,
            (#[trigger] operands(nodes[i].op)[k]) as int,
            i,
        ) by {
            if reaches(nodes, operands(nodes[i].op)[k] as int, i) {
                crate::graph::lemma_reaches_below(nodes, operands(nodes[i].op)[k] as int, i);
            }
        }
    }
    assert forall|j: int| 0 <= j < nodes.len() && !reaches(nodes, i, j) implies #[trigger]
        after.grads[j] == before.grads[j] by {
        assert(aside(nodes, i, j)) by {
            assert forall|k: int| 0 <= k < operands(nodes[i].op).len() implies !reaches(
                nodes,
                (#[trigger] operands(nodes[i].op)[k]) as int,
                j,
            ) by {
                if reaches(nodes, operands(nodes[i].op)[k] as int, j) {
                    lemma_reaches_operand(nodes, i, k, j);
                }
            }
        }
        assert(j != i);
    }
    if quiet(nodes, before.machine.norms, i) {
        assert forall|k: int| 0 <= k < needs(nodes[i].op).len() implies #[trigger] needs(
            nodes[i].op,
        )[k] == operands(nodes[i].op)[k] by {
            lemma_needs(nodes[i].op, k);
        }
        assert(needs(nodes[i].op).len() <= operands(nodes[i].op).len());
        lemma_evaluates_all_quiet(
            nodes,
            before.machine,
            needs(nodes[i].op),
            i,
            middle.machine,
        );
    }
}

/// The parts of a gradient reach only what the operands are computed from.
proof fn lemma_flows_all_local<T: Scalar>(
    nodes: Seq<Node<T>>,
    i: int,
    before: Tape<T>,
    parts: Seq<(usize, Seq<T>)>,
    after: Tape<T>,
)
    requires
        forall|j: int| 0 <= j < nodes.len() ==> #[trigger] ordered(nodes, j),
        0 <= i < nodes.len(),
        before.grads.len() == nodes.len(),
        parts.len() <= operands(nodes[i].op).len(),
        forall|k: int|
            0 <= k < parts.len() ==> (#[trigger] parts[k]).0 == operands(nodes[i].op)[k],
        flows_all(nodes, i, before, parts, after),
    ensures
        after.grads.len() == nodes.len(),
        forall|j: int|
            0 <= j < nodes.len() && aside(nodes, i, j) ==> #[trigger] after.grads[j]
                == before.grads[j],
        quiet(nodes, before.machine.norms, i) ==> after.machine.norms == before.machine.norms,
    decreases i, 0nat, parts.len(),
{
    if parts.len() > 0 {
        let middle = choose|middle: Tape<T>|
            {
                &&& #[trigger] abreast(before, middle)
                &&& flows_all(nodes, i, before, parts.drop_last(), middle)
                &&& 0 <= parts.last().0 < i
                &&& flows(nodes, middle, parts.last().0 as int, parts.last().1, after)
            };
        let last = parts.len() - 1;
        assert forall|k: int| 0 <= k < parts.drop_last().len() implies (
        #[trigger] parts.drop_last()[k]).0 == operands(nodes[i].op)[k] by {
            assert(parts[k] == parts.drop_last()[k]);
        }
        lemma_flows_all_local(nodes, i, before, parts.drop_last(), middle);
        assert(parts[last].0 == operands(nodes[i].op)[last]);
        lemma_flows_local(nodes, middle, parts.last().0 as int, parts.last().1, after);
        assert forall|j: int| 0 <= j < nodes.len() && aside(nodes, i, j) implies #[trigger]
            after.grads[j] == before.grads[j] by {
            assert(!reaches(nodes, operands(nodes[i].op)[last] as int, j));
        }
        if quiet(nodes, before.machine.norms, i) {
            assert(ordered(nodes, i));
            lemma_quiet_operand(nodes, before.machine.norms, i, last);
        }
    }
}

/// A differentiation hands its node the gradient one, leaves the gradients of all that
/// the node is not computed from, and gives the same again where it starts from the same
/// memory: where every batch normalization has its statistics, from what it leaves.
pub proof fn differentiation_repeats<T: Scalar>(
    graph: Graph<T>,
    before: Memory<T>,
    grads: Seq<Option<Seq<T>>>,
    node: int,
    after: Memory<T>,
    new_grads: Seq<Option<Seq<T>>>,
)
    requires
        graph.wf(),
        0 <= node < graph.nodes@.len(),
        grads.len() == graph.nodes@.len(),
        differentiates(graph.nodes@, before, grads, node, after, new_grads),
    ensures
        new_grads[node] matches Some(root) && root.len() == 1 && one(root[0]),
        new_grads.len() == grads.len(),
        forall|i: int|
            0 <= i < grads.len() && !reaches(graph.nodes@, node, i) ==> #[trigger] new_grads[i]
                == grads[i],
        differentiates(graph.nodes@, before, new_grads, node, after, new_grads),
        quiet(graph.nodes@, before, node) ==> after == before && differentiates(
            graph.nodes@,
            after,
            new_grads,
            node,
            after,
            new_grads,
        ),
{
    let nodes = graph.nodes@;
    let start = Tape {
        machine: Machine { values: blank::<T>(nodes.len()), norms: before },
        grads: cleared(nodes, node, grads),
    };
    let (unit, end) = choose|unit: T, end: Tape<T>|
        {
            &&& one(unit)
            &&& #[trigger] flows(nodes, start, node, seq![unit], end)
            &&& end.machine.norms == after
            &&& end.grads == new_grads
        };
    assert(reaches(nodes, node, node));
    lemma_flows_local(nodes, start, node, seq![unit], end);
    assert(new_grads[node] == Some(seq![unit]));
    assert forall|i: int| 0 <= i < grads.len() && !reaches(nodes, node, i) implies #[trigger]
        new_grads[i] == grads[i] by {
        assert(end.grads[i] == start.grads[i]);
    }
    differentiation_starts_afresh(nodes, before, grads, new_grads, node, after, new_grads);
}

} // verus!

//! What devices compute, in their own formulas: the values of nodes, and their gradients.
//!
//! A device takes the higher of two values, reads labels, measures batches and adds up
//! gradients in another way than the host.  So its values and gradients are stated here for
//! themselves, from what its launches leave in its buffers.

use crate::cuda::agreement::{
    content, contents, continues, evaluation_links_buffers, hosts, lemma_continues, lemma_grows,
    lemma_linked_stays, lemma_place_stays, lemma_reached_placed, linked, linked_alone, linked_norm,
    logged, place, places, running,
};
use crate::cuda::command::{
    added_up, affine_gathered, back_convolved, back_pooled, blended_all, channels_measured,
    channels_summed, executed, filter_gathered, gated_by, holds, inverted_all, loss_gathered,
    multiplied_out, norm_gathered, right_gathered, Command, Host, Step,
};
use crate::cuda::executor::{command_for, evaluated, Ledger};
use crate::cuda::launch::Grid;
use crate::cuda::loss_kernels::device_loss;
use crate::cuda::propagate::{
    accumulated, allocated, gradient_commands, gradient_lens, gradient_shares, list_evaluated,
    needed, numbered, propagated, receivers, series, spread,
};
use crate::cuda::session::{differentiated, forgetting, order_is_topological, swept, visited};
use crate::error::Failure;
use crate::forward::{convolved, multiplied, pooled};
use crate::graph::{
    convolution, lemma_reaches_below, operands, ordered, planes_of, pooling, reaches, Graph, Node,
    Op,
};
use crate::norm::{batch_normalized, Planes, State, Statistics};
use crate::reverse::left_gradient;
use crate::scalar::{one, Scalar};
use vstd::prelude::*;

verus! {

/// The running statistics of a batch normalization on a device: those of the host, or such
/// as a batch moved.
pub open spec fn kept<T: Scalar>(host: Host<T>, state: usize, running: State<T>) -> bool {
    ||| running.mean == host.means[state as int] && running.variance
        == host.variances[state as int]
    ||| exists|momentum: T, before: State<T>, batch: State<T>|
        {
            &&& #[trigger] blended_all(momentum, before.mean, batch.mean, running.mean)
            &&& #[trigger] blended_all(
                momentum,
                before.variance,
                batch.variance,
                running.variance,
            )
        }
}

/// The statistics that a device normalizes by: in training those of the data, otherwise
/// those that running statistics give.
pub open spec fn applied<T: Scalar>(
    host: Host<T>,
    planes: Planes,
    data: Seq<T>,
    state: usize,
    training: bool,
    epsilon: T,
    statistics: Statistics<T>,
) -> bool {
    if training {
        exists|variances: Seq<T>| #[trigger]
            channels_measured(planes, data, epsilon, statistics, variances)
    } else {
        exists|running: State<T>| #[trigger]
            kept(host, state, running) && statistics.mean == running.mean && inverted_all(
                running.variance,
                epsilon,
                statistics.inverse,
            )
    }
}

/// `value` is what a device computes of a node from the values of its operands.
pub open spec fn device_computes<T: Scalar>(
    nodes: Seq<Node<T>>,
    host: Host<T>,
    values: Seq<Seq<T>>,
    statistics: Statistics<T>,
    i: int,
    value: Seq<T>,
) -> bool {
    match nodes[i].op {
        Op::Data(data) => value == data@,
        Op::Placeholder(_) => false,
        Op::Add(left, right) => added_up(values[left as int], values[right as int], value),
        Op::Mul(left, right) => multiplied_out(values[left as int], values[right as int], value),
        Op::Relu(input) => gated_by(values[input as int], values[input as int], value),
        Op::MatMul(left, right) => multiplied(
            values[left as int],
            values[right as int],
            nodes[left as int].shape@[0] as int,
            nodes[left as int].shape@[1] as int,
            nodes[right as int].shape@[1] as int,
            value,
        ),
        Op::Conv2d { input, weight, bias, stride, padding, groups } => convolved(
            convolution(nodes, input as int, weight as int, stride, padding, groups),
            values[input as int],
            values[weight as int],
            values[bias as int],
            value,
        ),
        Op::AvgPool2d { input, kernel, stride } => pooled(
            pooling(nodes, input as int, kernel, stride),
            values[input as int],
            value,
        ),
        Op::Reshape(input) => value == values[input as int],
        Op::CrossEntropy { logits, targets } => {
            &&& value.len() == 1
            &&& device_loss(
                values[logits as int],
                values[targets as int],
                nodes[logits as int].shape@[0],
                nodes[logits as int].shape@[1],
                value[0],
            )
        },
        Op::BatchNorm2d { input, weight, bias, state, training, epsilon, .. } => {
            let planes = planes_of(nodes[input as int].shape@);
            &&& applied(
                host,
                planes,
                values[input as int],
                state,
                training,
                epsilon,
                statistics,
            )
            &&& batch_normalized(
                values[input as int],
                planes,
                values[weight as int],
                values[bias as int],
                statistics,
                value,
            )
        },
    }
}

/// The values solve the device's equations of a node and of all that it is computed from.
/// Batch normalizations have the statistics that are given for them.
pub open spec fn device_solves<T: Scalar>(
    nodes: Seq<Node<T>>,
    host: Host<T>,
    values: Seq<Seq<T>>,
    statistics: Seq<Statistics<T>>,
    root: int,
) -> bool {
    forall|i: int| #[trigger]
        reaches(nodes, root, i) ==> device_computes(
            nodes,
            host,
            values,
            statistics[i],
            i,
            values[i],
        )
}

/// What the buffers of the statistics of batch normalizations hold.
pub open spec fn norms_of<T>(
    nodes: Seq<Node<T>>,
    ledger: Ledger<T>,
    memory: Seq<Seq<T>>,
) -> Seq<Statistics<T>> {
    Seq::new(
        nodes.len(),
        |i: int|
            {
                let (mean, inverse) = ledger.statistics[i as usize];
                Statistics { mean: memory[mean as int], inverse: memory[inverse as int] }
            },
    )
}

/// A command that was given has run.
proof fn lemma_ran<T: Scalar>(
    host: Host<T>,
    memory: Seq<Seq<T>>,
    log: Seq<Step<T>>,
    command: Command<T>,
)
    requires
        executed(host, memory, log),
        logged(log, command),
    ensures
        holds(host, memory, command),
{
    let k = choose|k: int| 0 <= k < log.len() && (#[trigger] log[k]).command == command;
    assert(holds(host, memory, log[k].command));
}

/// What buffers of running statistics hold.
proof fn lemma_running<T: Scalar>(
    host: Host<T>,
    memory: Seq<Seq<T>>,
    log: Seq<Step<T>>,
    state: usize,
    mean: usize,
    variance: usize,
)
    requires
        executed(host, memory, log),
        running(log, state, mean, variance),
    ensures
        kept(
            host,
            state,
            State { mean: memory[mean as int], variance: memory[variance as int] },
        ),
{
    let held = State { mean: memory[mean as int], variance: memory[variance as int] };
    if logged(log, Command::UploadMean { state, out: mean }) && logged(
        log,
        Command::UploadVariance { state, out: variance },
    ) {
        lemma_ran(host, memory, log, Command::UploadMean { state, out: mean });
        lemma_ran(host, memory, log, Command::UploadVariance { state, out: variance });
    } else {
        let (batch_mean, batch_variance, old_mean, old_variance, momentum) = choose|
            batch_mean: usize,
            batch_variance: usize,
            old_mean: usize,
            old_variance: usize,
            momentum: T,
        | #[trigger]
            logged(
                log,
                Command::BatchNormUpdate {
                    batch_mean,
                    batch_variance,
                    old_mean,
                    old_variance,
                    mean,
                    variance,
                    momentum,
                },
            );
        lemma_ran(
            host,
            memory,
            log,
            Command::BatchNormUpdate {
                batch_mean,
                batch_variance,
                old_mean,
                old_variance,
                mean,
                variance,
                momentum,
            },
        );
        let before = State {
            mean: memory[old_mean as int],
            variance: memory[old_variance as int],
        };
        let batch = State {
            mean: memory[batch_mean as int],
            variance: memory[batch_variance as int],
        };
        assert(blended_all(momentum, before.mean, batch.mean, held.mean));
        assert(blended_all(momentum, before.variance, batch.variance, held.variance));
    }
}

/// What the buffer of a batch normalization holds.
proof fn lemma_norm_content<T: Scalar>(
    nodes: Seq<Node<T>>,
    ledger: Ledger<T>,
    host: Host<T>,
    memory: Seq<Seq<T>>,
    n: int,
)
    requires
        0 <= n < nodes.len() <= usize::MAX,
        ordered(nodes, n),
        nodes[n].op is BatchNorm2d,
        ledger.values.contains_key(n as usize),
        linked_norm(nodes, ledger, n as usize),
        executed(host, memory, ledger.log),
    ensures
        device_computes(
            nodes,
            host,
            contents(nodes, ledger.values, memory),
            norms_of(nodes, ledger, memory)[n],
            n,
            content(nodes, ledger.values, memory, n),
        ),
{
    let values = contents(nodes, ledger.values, memory);
    let i = n as usize;
    let (mean, inverse) = ledger.statistics[i];
    let buffers = places(nodes, ledger.values, n);
    let statistics = norms_of(nodes, ledger, memory)[n];
    let list = operands(nodes[n].op);
    assert forall|k: int| 0 <= k < list.len() implies values[(#[trigger] list[k]) as int]
        == memory[buffers[k] as int] by {
        let operand = operands(nodes[n].op)[k];
        assert(operand < n);
    }
    match nodes[n].op {
        Op::BatchNorm2d { input, weight, bias, state, training, epsilon, .. } => {
            assert(list[0] == input && list[1] == weight && list[2] == bias);
            let planes = planes_of(nodes[input as int].shape@);
            lemma_ran(
                host,
                memory,
                ledger.log,
                Command::BatchNormApply {
                    input: buffers[0],
                    weight: buffers[1],
                    bias: buffers[2],
                    mean,
                    inverse,
                    out: ledger.values[i],
                    planes,
                },
            );
            if training {
                let variance = choose|variance: usize| #[trigger]
                    logged(
                        ledger.log,
                        Command::BatchNormStatistics {
                            input: buffers[0],
                            mean,
                            inverse,
                            variance,
                            planes,
                            epsilon,
                        },
                    );
                lemma_ran(
                    host,
                    memory,
                    ledger.log,
                    Command::BatchNormStatistics {
                        input: buffers[0],
                        mean,
                        inverse,
                        variance,
                        planes,
                        epsilon,
                    },
                );
                assert(channels_measured(
                    planes,
                    values[input as int],
                    epsilon,
                    statistics,
                    memory[variance as int],
                ));
            } else {
                let variance = choose|variance: usize| #[trigger]
                    logged(
                        ledger.log,
                        Command::BatchNormInverse { variance, out: inverse, epsilon },
                    ) && running(ledger.log, state, mean, variance);
                lemma_ran(
                    host,
                    memory,
                    ledger.log,
                    Command::BatchNormInverse { variance, out: inverse, epsilon },
                );
                lemma_running(host, memory, ledger.log, state, mean, variance);
                let held = State {
                    mean: memory[mean as int],
                    variance: memory[variance as int],
                };
                assert(kept(host, state, held) && statistics.mean == held.mean && inverted_all(
                    held.variance,
                    epsilon,
                    statistics.inverse,
                ));
            }
        },
        _ => {},
    }
}

/// What a command leaves in a buffer is what the device computes of a node.
proof fn lemma_device_formula<T: Scalar>(
    nodes: Seq<Node<T>>,
    host: Host<T>,
    memory: Seq<Seq<T>>,
    values: Seq<Seq<T>>,
    statistics: Statistics<T>,
    n: int,
    buffers: Seq<usize>,
    out: usize,
)
    requires
        !(nodes[n].op is Data),
        !(nodes[n].op is Placeholder),
        !(nodes[n].op is Reshape),
        !(nodes[n].op is BatchNorm2d),
        forall|k: int|
            0 <= k < operands(nodes[n].op).len() ==> values[(
            #[trigger] operands(nodes[n].op)[k]) as int] == memory[buffers[k] as int],
        holds(host, memory, command_for(nodes, n, buffers, out).0),
    ensures
        device_computes(nodes, host, values, statistics, n, memory[out as int]),
{
    let list = operands(nodes[n].op);
    match nodes[n].op {
        Op::Add(left, right) => {
            assert(list[0] == left && list[1] == right);
        },
        Op::Mul(left, right) => {
            assert(list[0] == left && list[1] == right);
        },
        Op::Relu(input) => {
            assert(list[0] == input);
        },
        Op::MatMul(left, right) => {
            assert(list[0] == left && list[1] == right);
        },
        Op::Conv2d { input, weight, bias, .. } => {
            assert(list[0] == input && list[1] == weight && list[2] == bias);
        },
        Op::AvgPool2d { input, .. } => {
            assert(list[0] == input);
        },
        Op::CrossEntropy { logits, targets } => {
            assert(list[0] == logits && list[1] == targets);
        },
        _ => {},
    }
}

/// What the buffer of a node holds is what the device computes of its operands' buffers.
proof fn lemma_device_content<T: Scalar>(
    graph: Graph<T>,
    ledger: Ledger<T>,
    host: Host<T>,
    memory: Seq<Seq<T>>,
    n: int,
)
    requires
        graph.wf(),
        0 <= n < graph.nodes@.len() <= usize::MAX,
        linked(graph.nodes@, ledger),
        hosts(graph.nodes@, host),
        executed(host, memory, ledger.log),
        place(graph.nodes@, ledger.values, n) is Some,
    ensures
        device_computes(
            graph.nodes@,
            host,
            contents(graph.nodes@, ledger.values, memory),
            norms_of(graph.nodes@, ledger, memory)[n],
            n,
            content(graph.nodes@, ledger.values, memory, n),
        ),
{
    let nodes = graph.nodes@;
    let values = contents(nodes, ledger.values, memory);
    let list = operands(nodes[n].op);
    assert(ordered(nodes, n));
    assert forall|k: int| 0 <= k < list.len() implies values[(#[trigger] list[k]) as int]
        == content(nodes, ledger.values, memory, list[k] as int) by {
        let operand = operands(nodes[n].op)[k];
        assert(operand < n);
    }
    match nodes[n].op {
        Op::Reshape(input) => {
            assert(list[0] == input);
        },
        Op::BatchNorm2d { .. } => {
            assert(ledger.values.contains_key(n as usize));
            assert(linked_alone(nodes, ledger, n as usize));
            lemma_norm_content(nodes, ledger, host, memory, n);
        },
        _ => {
            let i = n as usize;
            assert(ledger.values.contains_key(i));
            assert(linked_alone(nodes, ledger, i));
            let buffers = places(nodes, ledger.values, n);
            assert forall|k: int| 0 <= k < list.len() implies values[(#[trigger] list[k]) as int]
                == memory[buffers[k] as int] by {}
            let command = match nodes[n].op {
                Op::Data(_) => Command::Upload { node: i, out: ledger.values[i] },
                _ => command_for(nodes, n, buffers, ledger.values[i]).0,
            };
            lemma_ran(host, memory, ledger.log, command);
            if !(nodes[n].op is Data) {
                lemma_device_formula(
                    nodes,
                    host,
                    memory,
                    values,
                    norms_of(nodes, ledger, memory)[n],
                    n,
                    buffers,
                    ledger.values[i],
                );
            }
        },
    }
}

/// Where a node has a place and everything has run, the buffers solve its equations.
proof fn lemma_device_solves<T: Scalar>(
    graph: Graph<T>,
    ledger: Ledger<T>,
    host: Host<T>,
    memory: Seq<Seq<T>>,
    root: int,
)
    requires
        graph.wf(),
        0 <= root < graph.nodes@.len() <= usize::MAX,
        linked(graph.nodes@, ledger),
        hosts(graph.nodes@, host),
        executed(host, memory, ledger.log),
        place(graph.nodes@, ledger.values, root) is Some,
    ensures
        device_solves(
            graph.nodes@,
            host,
            contents(graph.nodes@, ledger.values, memory),
            norms_of(graph.nodes@, ledger, memory),
            root,
        ),
{
    let nodes = graph.nodes@;
    let values = contents(nodes, ledger.values, memory);
    assert forall|n: int| #[trigger] reaches(nodes, root, n) implies device_computes(
        nodes,
        host,
        values,
        norms_of(nodes, ledger, memory)[n],
        n,
        values[n],
    ) by {
        lemma_reaches_below(nodes, root, n);
        lemma_reached_placed(graph, ledger, root, n);
        lemma_device_content(graph, ledger, host, memory, n);
    }
}

/// Where everything that was planned has run, the buffers of a node and of all that it is
/// computed from solve the device's equations: for all operations.
pub proof fn devices_solve_their_equations<T: Scalar>(
    graph: Graph<T>,
    ledger: Ledger<T>,
    host: Host<T>,
    memory: Seq<Seq<T>>,
    i: usize,
)
    requires
        graph.wf(),
        i < graph.nodes@.len() <= usize::MAX,
        linked(graph.nodes@, ledger),
        hosts(graph.nodes@, host),
        executed(host, memory, evaluated(graph.nodes@, ledger, i as int).ledger.log),
    ensures
        ({
            let done = evaluated(graph.nodes@, ledger, i as int);
            done.result matches Ok(buffer) ==> {
                let values = contents(graph.nodes@, done.ledger.values, memory);
                &&& values[i as int] == memory[buffer as int]
                &&& device_solves(
                    graph.nodes@,
                    host,
                    values,
                    norms_of(graph.nodes@, done.ledger, memory),
                    i as int,
                )
            }
        }),
{
    evaluation_links_buffers(graph, ledger, i);
    let done = evaluated(graph.nodes@, ledger, i as int);
    if done.result is Ok {
        lemma_device_solves(graph, done.ledger, host, memory, i as int);
    }
}

/// `parts` are the gradients that a device hands from a node to the nodes that receive one,
/// from the gradient of the node and the values of its operands.
pub open spec fn device_spreads<T: Scalar>(
    nodes: Seq<Node<T>>,
    values: Seq<Seq<T>>,
    statistics: Statistics<T>,
    i: int,
    gradient: Seq<T>,
    parts: Seq<Seq<T>>,
) -> bool {
    &&& parts.len() == receivers(nodes[i].op).len()
    &&& match nodes[i].op {
        Op::Data(_) => true,
        Op::Placeholder(_) => true,
        Op::Add(_, _) => parts[0] == gradient && parts[1] == gradient,
        Op::Reshape(_) => parts[0] == gradient,
        Op::Mul(left, right) => {
            &&& multiplied_out(gradient, values[right as int], parts[0])
            &&& multiplied_out(gradient, values[left as int], parts[1])
        },
        Op::Relu(input) => gated_by(values[input as int], gradient, parts[0]),
        Op::MatMul(left, right) => {
            let rows = nodes[left as int].shape@[0] as int;
            let inner = nodes[left as int].shape@[1] as int;
            let columns = nodes[right as int].shape@[1] as int;
            &&& left_gradient(gradient, values[right as int], rows, inner, columns, parts[0])
            &&& right_gathered(gradient, values[left as int], rows, inner, columns, parts[1])
        },
        Op::Conv2d { input, weight, stride, padding, groups, .. } => {
            let geometry = convolution(
                nodes,
                input as int,
                weight as int,
                stride,
                padding,
                groups,
            );
            &&& back_convolved(geometry, gradient, values[weight as int], parts[0])
            &&& filter_gathered(geometry, gradient, values[input as int], parts[1])
            &&& channels_summed(geometry, gradient, parts[2])
        },
        Op::AvgPool2d { input, kernel, stride } => back_pooled(
            pooling(nodes, input as int, kernel, stride),
            gradient,
            parts[0],
        ),
        Op::CrossEntropy { logits, targets } => loss_gathered(
            values[logits as int],
            values[targets as int],
            gradient,
            nodes[logits as int].shape@[0],
            nodes[logits as int].shape@[1],
            parts[0],
        ),
        Op::BatchNorm2d { input, weight, training, .. } => {
            let planes = planes_of(nodes[input as int].shape@);
            &&& affine_gathered(
                planes,
                gradient,
                values[input as int],
                statistics,
                parts[1],
                parts[2],
            )
            &&& norm_gathered(
                planes,
                training,
                gradient,
                values[input as int],
                values[weight as int],
                statistics,
                parts[1],
                parts[2],
                parts[0],
            )
        },
    }
}

/// The nodes that receive a gradient, with their parts.
pub open spec fn parcels<T>(op: Op<T>, parts: Seq<Seq<T>>) -> Seq<(usize, Seq<T>)> {
    Seq::new(receivers(op).len(), |k: int| (receivers(op)[k], parts[k]))
}

/// `after` is the gradient of a node with `incoming` added.
pub open spec fn device_adds<T: Scalar>(
    grads: Map<usize, Seq<T>>,
    node: usize,
    incoming: Seq<T>,
    after: Seq<T>,
) -> bool {
    if grads.contains_key(node) {
        added_up(grads[node], incoming, after)
    } else {
        after == incoming
    }
}

/// Adding gradients to those of nodes, one after the other, leads from `before` to `after`.
pub open spec fn device_gathers<T: Scalar>(
    before: Map<usize, Seq<T>>,
    parcels: Seq<(usize, Seq<T>)>,
    after: Map<usize, Seq<T>>,
) -> bool
    decreases parcels.len(),
{
    if parcels.len() == 0 {
        after == before
    } else {
        exists|total: Seq<T>|
            {
                &&& #[trigger] device_adds(before, parcels[0].0, parcels[0].1, total)
                &&& device_gathers(
                    before.insert(parcels[0].0, total),
                    parcels.drop_first(),
                    after,
                )
            }
    }
}

/// Carrying gradients from the end of a list to its start, from each node that has one to
/// its operands, leads from `before` to `after`.
pub open spec fn device_sweeps<T: Scalar>(
    nodes: Seq<Node<T>>,
    values: Seq<Seq<T>>,
    statistics: Seq<Statistics<T>>,
    order: Seq<usize>,
    before: Map<usize, Seq<T>>,
    after: Map<usize, Seq<T>>,
) -> bool
    decreases order.len(),
{
    if order.len() == 0 {
        after == before
    } else {
        let node = order.last();
        if before.contains_key(node) {
            exists|parts: Seq<Seq<T>>, middle: Map<usize, Seq<T>>|
                {
                    &&& #[trigger] device_spreads(
                        nodes,
                        values,
                        statistics[node as int],
                        node as int,
                        before[node],
                        parts,
                    )
                    &&& #[trigger] device_gathers(
                        before,
                        parcels(nodes[node as int].op, parts),
                        middle,
                    )
                    &&& device_sweeps(nodes, values, statistics, order.drop_last(), middle, after)
                }
        } else {
            device_sweeps(nodes, values, statistics, order.drop_last(), before, after)
        }
    }
}

/// What the buffers of the gradients hold.
pub open spec fn grads_of<T>(ledger: Ledger<T>, memory: Seq<Seq<T>>) -> Map<usize, Seq<T>> {
    ledger.gradients.map_values(|buffer: usize| memory[buffer as int])
}

/// Besides commands, only gradients and buffers differ.
pub open spec fn carries<T>(before: Ledger<T>, after: Ledger<T>) -> bool {
    &&& crate::cuda::agreement::grows(before.log, after.log)
    &&& after.values == before.values
    &&& after.statistics == before.statistics
    &&& after.states == before.states
    &&& after.root == before.root
}

/// What is linked stays so while gradients are carried.
proof fn lemma_carries<T>(nodes: Seq<Node<T>>, before: Ledger<T>, after: Ledger<T>)
    requires
        carries(before, after),
    ensures
        continues(before, after),
        linked(nodes, before) ==> linked(nodes, after),
{
    lemma_grows(before.log, after.log);
    if linked(nodes, before) {
        assert forall|i: usize| #[trigger] after.values.contains_key(i) implies linked_alone(
            nodes,
            after,
            i,
        ) by {
            assert(before.values.contains_key(i));
            lemma_linked_stays(nodes, before, after, i);
        }
        assert forall|s: usize| #[trigger] after.states.contains_key(s) implies running(
            after.log,
            s,
            after.states[s].0,
            after.states[s].1,
        ) by {
            assert(before.states.contains_key(s));
        }
    }
}

proof fn lemma_carries_on<T>(a: Ledger<T>, b: Ledger<T>, c: Ledger<T>)
    requires
        carries(a, b),
        carries(b, c),
    ensures
        carries(a, c),
{
    assert forall|k: int| 0 <= k < a.log.len() implies #[trigger] c.log[k] == a.log[k] by {
        assert(b.log[k] == a.log[k]);
    }
}

/// What ran of a list ran of its start.
proof fn lemma_executed<T: Scalar>(
    host: Host<T>,
    memory: Seq<Seq<T>>,
    before: Seq<Step<T>>,
    after: Seq<Step<T>>,
)
    requires
        crate::cuda::agreement::grows(before, after),
        executed(host, memory, after),
    ensures
        executed(host, memory, before),
{
    assert forall|k: int| 0 <= k < before.len() implies holds(
        host,
        memory,
        (#[trigger] before[k]).command,
    ) by {
        assert(after[k] == before[k]);
    }
}

/// A gradient is added to that of a node.
proof fn lemma_accumulated<T: Scalar>(
    nodes: Seq<Node<T>>,
    ledger: Ledger<T>,
    node: usize,
    incoming: usize,
    host: Host<T>,
    memory: Seq<Seq<T>>,
)
    ensures
        ({
            let done = accumulated(nodes, ledger, node, incoming);
            &&& carries(ledger, done.ledger)
            &&& done.result is Ok && executed(host, memory, done.ledger.log) ==> {
                let total = memory[done.ledger.gradients[node] as int];
                &&& device_adds(grads_of(ledger, memory), node, memory[incoming as int], total)
                &&& grads_of(done.ledger, memory) == grads_of(ledger, memory).insert(node, total)
            }
        }),
{
    let done = accumulated(nodes, ledger, node, incoming);
    if done.result is Ok && executed(host, memory, done.ledger.log) {
        let total = memory[done.ledger.gradients[node] as int];
        if ledger.gradients.contains_key(node) {
            let last = done.ledger.log[done.ledger.log.len() - 1];
            assert(last.command == (Command::<T>::Accumulate {
                left: ledger.gradients[node],
                right: incoming,
                out: done.ledger.gradients[node],
            }));
            assert(holds(host, memory, last.command));
        }
        assert(grads_of(done.ledger, memory) =~= grads_of(ledger, memory).insert(node, total));
    }
}

/// The shares with what their buffers hold.
pub open spec fn opened<T>(shares: Seq<(usize, usize)>, memory: Seq<Seq<T>>) -> Seq<
    (usize, Seq<T>),
> {
    Seq::new(shares.len(), |k: int| (shares[k].0, memory[shares[k].1 as int]))
}

/// Gradients are added to those of several nodes.
proof fn lemma_spread<T: Scalar>(
    nodes: Seq<Node<T>>,
    ledger: Ledger<T>,
    shares: Seq<(usize, usize)>,
    host: Host<T>,
    memory: Seq<Seq<T>>,
)
    ensures
        ({
            let done = spread(nodes, ledger, shares);
            &&& carries(ledger, done.ledger)
            &&& done.result is Ok && executed(host, memory, done.ledger.log) ==> device_gathers(
                grads_of(ledger, memory),
                opened(shares, memory),
                grads_of(done.ledger, memory),
            )
        }),
    decreases shares.len(),
{
    if shares.len() > 0 {
        let (node, incoming) = shares[0];
        let first = accumulated(nodes, ledger, node, incoming);
        lemma_accumulated(nodes, ledger, node, incoming, host, memory);
        if first.result is Ok {
            let rest = shares.drop_first();
            lemma_spread(nodes, first.ledger, rest, host, memory);
            let done = spread(nodes, ledger, shares);
            lemma_carries_on(ledger, first.ledger, done.ledger);
            if done.result is Ok && executed(host, memory, done.ledger.log) {
                lemma_executed(host, memory, first.ledger.log, done.ledger.log);
                let all = opened(shares, memory);
                assert(all.drop_first() =~= opened(rest, memory));
                let total = memory[first.ledger.gradients[node] as int];
                assert(device_adds(grads_of(ledger, memory), all[0].0, all[0].1, total));
            }
        }
    }
}

/// Commands that are given one after the other are given.
proof fn lemma_series<T>(
    ledger: Ledger<T>,
    commands: Seq<(Command<T>, std::result::Result<Grid, Failure>)>,
)
    ensures
        ({
            let done = series(ledger, commands);
            &&& carries(ledger, done.ledger)
            &&& done.ledger.gradients == ledger.gradients
            &&& done.result is Ok ==> forall|k: int|
                0 <= k < commands.len() ==> logged(done.ledger.log, (#[trigger] commands[k]).0)
        }),
    decreases commands.len(),
{
    if commands.len() > 0 {
        if let Ok(grid) = commands[0].1 {
            let next = ledger.given(commands[0].0, Some(grid));
            let rest = commands.drop_first();
            crate::cuda::agreement::lemma_given(ledger, commands[0].0, Some(grid));
            lemma_series(next, rest);
            let done = series(ledger, commands);
            lemma_carries_on(ledger, next, done.ledger);
            lemma_grows(next.log, done.ledger.log);
            if done.result is Ok {
                assert forall|k: int| 0 <= k < commands.len() implies logged(
                    done.ledger.log,
                    (#[trigger] commands[k]).0,
                ) by {
                    if k > 0 {
                        assert(rest[k - 1] == commands[k]);
                    }
                }
            }
        }
    }
}

/// The nodes of a list are evaluated into the buffers that are found.
proof fn lemma_list<T>(
    graph: Graph<T>,
    ledger: Ledger<T>,
    list: Seq<usize>,
    found: Seq<usize>,
)
    requires
        graph.wf(),
        linked(graph.nodes@, ledger),
        forall|k: int| 0 <= k < list.len() ==> (#[trigger] list[k]) < graph.nodes@.len(),
    ensures
        ({
            let (after, result) = list_evaluated(graph.nodes@, ledger, list, found);
            &&& continues(ledger, after)
            &&& linked(graph.nodes@, after)
            &&& after.gradients == ledger.gradients
            &&& result matches Ok(buffers) ==> {
                &&& buffers.len() == found.len() + list.len()
                &&& forall|k: int| 0 <= k < found.len() ==> #[trigger] buffers[k] == found[k]
                &&& forall|k: int|
                    0 <= k < list.len() ==> place(
                        graph.nodes@,
                        after.values,
                        (#[trigger] list[k]) as int,
                    ) == Some(buffers[found.len() + k])
            }
        }),
    decreases list.len(),
{
    let nodes = graph.nodes@;
    if list.len() > 0 {
        let done = evaluated(nodes, ledger, list[0] as int);
        evaluation_links_buffers(graph, ledger, list[0]);
        if let Ok(buffer) = done.result {
            let rest = list.drop_first();
            assert forall|k: int| 0 <= k < rest.len() implies (#[trigger] rest[k])
                < nodes.len() by {
                assert(rest[k] == list[k + 1]);
            }
            lemma_list(graph, done.ledger, rest, found.push(buffer));
            let (after, result) = list_evaluated(nodes, ledger, list, found);
            lemma_continues(ledger, done.ledger, after);
            if let Ok(buffers) = result {
                lemma_place_stays(nodes, done.ledger, after, list[0] as int);
                assert(buffers[found.len() as int] == found.push(buffer)[found.len() as int]);
                assert forall|k: int| 0 <= k < found.len() implies #[trigger] buffers[k]
                    == found[k] by {
                    assert(buffers[k] == found.push(buffer)[k]);
                }
                assert forall|k: int| 0 <= k < list.len() implies place(
                    nodes,
                    after.values,
                    (#[trigger] list[k]) as int,
                ) == Some(buffers[found.len() + k]) by {
                    if k > 0 {
                        assert(rest[k - 1] == list[k]);
                    }
                }
            }
        }
    }
}

/// What the commands of a gradient leave in their buffers are the parts that a device hands
/// on.
#[verifier::rlimit(40)]
proof fn lemma_spread_formula<T: Scalar>(
    nodes: Seq<Node<T>>,
    host: Host<T>,
    memory: Seq<Seq<T>>,
    values: Seq<Seq<T>>,
    i: int,
    gradient: usize,
    found: Seq<usize>,
    outs: Seq<usize>,
    statistics: (usize, usize),
)
    requires
        forall|k: int|
            0 <= k < needed(nodes, i).len() ==> values[(#[trigger] needed(nodes, i)[k]) as int]
                == memory[found[k] as int],
        forall|k: int|
            0 <= k < gradient_commands(nodes, i, gradient, found, outs, statistics).len()
                ==> holds(
                host,
                memory,
                (#[trigger] gradient_commands(nodes, i, gradient, found, outs, statistics)[k]).0,
            ),
    ensures
        ({
            let shares = opened(gradient_shares(nodes[i].op, gradient, outs), memory);
            let parts = shares.map_values(|share: (usize, Seq<T>)| share.1);
            &&& shares == parcels(nodes[i].op, parts)
            &&& device_spreads(
                nodes,
                values,
                Statistics {
                    mean: memory[statistics.0 as int],
                    inverse: memory[statistics.1 as int],
                },
                i,
                memory[gradient as int],
                parts,
            )
        }),
{
    let shares = opened(gradient_shares(nodes[i].op, gradient, outs), memory);
    let parts = shares.map_values(|share: (usize, Seq<T>)| share.1);
    let commands = gradient_commands(nodes, i, gradient, found, outs, statistics);
    let list = needed(nodes, i);
    assert(shares =~= parcels(nodes[i].op, parts));
    match nodes[i].op {
        Op::Mul(left, right) => {
            assert(list[0] == left && list[1] == right);
            assert(holds(host, memory, commands[0].0) && holds(host, memory, commands[1].0));
        },
        Op::Relu(input) => {
            assert(list[0] == input);
            assert(holds(host, memory, commands[0].0));
        },
        Op::MatMul(left, right) => {
            assert(list[0] == left && list[1] == right);
            assert(holds(host, memory, commands[0].0) && holds(host, memory, commands[1].0));
        },
        Op::Conv2d { input, weight, .. } => {
            assert(list[0] == input && list[1] == weight);
            assert(holds(host, memory, commands[0].0) && holds(host, memory, commands[1].0)
                && holds(host, memory, commands[2].0));
        },
        Op::AvgPool2d { .. } => {
            assert(holds(host, memory, commands[0].0));
        },
        Op::CrossEntropy { logits, targets } => {
            assert(list[0] == logits && list[1] == targets);
            assert(holds(host, memory, commands[0].0));
        },
        Op::BatchNorm2d { input, weight, .. } => {
            assert(list[1] == input && list[2] == weight);
            assert(holds(host, memory, commands[0].0) && holds(host, memory, commands[1].0));
        },
        _ => {},
    }
}

/// The nodes whose values a gradient needs are nodes of the graph.
proof fn lemma_needed<T>(graph: Graph<T>, i: usize)
    requires
        graph.wf(),
        i < graph.nodes@.len(),
    ensures
        forall|k: int|
            0 <= k < needed(graph.nodes@, i as int).len() ==> (#[trigger] needed(
                graph.nodes@,
                i as int,
            )[k]) < graph.nodes@.len(),
{
    let nodes = graph.nodes@;
    let op = nodes[i as int].op;
    assert(ordered(nodes, i as int));
    assert forall|k: int| 0 <= k < needed(nodes, i as int).len() implies (#[trigger] needed(
        nodes,
        i as int,
    )[k]) < nodes.len() by {
        match op {
            Op::BatchNorm2d { .. } => {
                if k > 0 {
                    assert(operands(op)[k - 1] == needed(nodes, i as int)[k]);
                }
            },
            _ => {
                assert(operands(op)[k] == needed(nodes, i as int)[k]);
            },
        }
    }
}

/// Carrying the gradient of a node to its operands keeps what is linked.
proof fn lemma_propagated_links<T: Scalar>(
    graph: Graph<T>,
    ledger: Ledger<T>,
    i: usize,
    gradient: usize,
)
    requires
        graph.wf(),
        i < graph.nodes@.len(),
        linked(graph.nodes@, ledger),
    ensures
        ({
            let done = propagated(graph.nodes@, ledger, i as int, gradient);
            &&& continues(ledger, done.ledger)
            &&& linked(graph.nodes@, done.ledger)
        }),
{
    let nodes = graph.nodes@;
    lemma_needed(graph, i);
    lemma_list(graph, ledger, needed(nodes, i as int), seq![]);
    let (ready, result) = list_evaluated(nodes, ledger, needed(nodes, i as int), seq![]);
    let done = propagated(nodes, ledger, i as int, gradient);
    if let Ok(values) = result {
        let lens = gradient_lens(nodes, i as int);
        let outs = numbered(ready.next(), lens.len());
        let commands = gradient_commands(
            nodes,
            i as int,
            gradient,
            values,
            outs,
            ready.statistics[i],
        );
        let made = allocated(ready, lens);
        let given = series(made, commands);
        lemma_series(made, commands);
        assert(carries(ready, made));
        lemma_carries_on(ready, made, given.ledger);
        lemma_carries(nodes, ready, given.ledger);
        lemma_continues(ledger, ready, given.ledger);
        let shares = gradient_shares(nodes[i as int].op, gradient, outs);
        let any = Host::<T> { data: seq![], means: seq![], variances: seq![] };
        lemma_spread(nodes, given.ledger, shares, any, seq![]);
        let last = spread(nodes, given.ledger, shares);
        lemma_carries(nodes, given.ledger, last.ledger);
        lemma_continues(ledger, given.ledger, last.ledger);
    }
}

/// Carrying the gradient of a node to its operands hands each its part.
proof fn lemma_propagated<T: Scalar>(
    graph: Graph<T>,
    ledger: Ledger<T>,
    i: usize,
    gradient: usize,
    host: Host<T>,
    memory: Seq<Seq<T>>,
    end: Ledger<T>,
) -> (parts: Seq<Seq<T>>)
    requires
        graph.wf(),
        i < graph.nodes@.len() <= usize::MAX,
        linked(graph.nodes@, ledger),
        propagated(graph.nodes@, ledger, i as int, gradient).result is Ok,
        continues(propagated(graph.nodes@, ledger, i as int, gradient).ledger, end),
        executed(host, memory, end.log),
    ensures
        device_spreads(
            graph.nodes@,
            contents(graph.nodes@, end.values, memory),
            norms_of(graph.nodes@, end, memory)[i as int],
            i as int,
            memory[gradient as int],
            parts,
        ),
        device_gathers(
            grads_of(ledger, memory),
            parcels(graph.nodes@[i as int].op, parts),
            grads_of(propagated(graph.nodes@, ledger, i as int, gradient).ledger, memory),
        ),
{
    let nodes = graph.nodes@;
    let op = nodes[i as int].op;
    let list = needed(nodes, i as int);
    lemma_needed(graph, i);
    lemma_list(graph, ledger, list, seq![]);
    let (ready, result) = list_evaluated(nodes, ledger, list, seq![]);
    let done = propagated(nodes, ledger, i as int, gradient);
    let found = result->Ok_0;
    let lens = gradient_lens(nodes, i as int);
    let outs = numbered(ready.next(), lens.len());
    let statistics = ready.statistics[i];
    let commands = gradient_commands(nodes, i as int, gradient, found, outs, statistics);
    let made = allocated(ready, lens);
    let given = series(made, commands);
    lemma_series(made, commands);
    assert(carries(ready, made));
    lemma_carries_on(ready, made, given.ledger);
    lemma_carries(nodes, ready, given.ledger);
    let shares = gradient_shares(op, gradient, outs);
    lemma_spread(nodes, given.ledger, shares, host, memory);
    lemma_carries(nodes, given.ledger, done.ledger);
    lemma_continues(ready, given.ledger, done.ledger);
    lemma_continues(ready, done.ledger, end);
    lemma_continues(given.ledger, done.ledger, end);
    lemma_executed(host, memory, done.ledger.log, end.log);
    lemma_executed(host, memory, given.ledger.log, end.log);
    let values = contents(nodes, end.values, memory);
    assert forall|k: int| 0 <= k < list.len() implies values[(
    #[trigger] needed(nodes, i as int)[k]) as int] == memory[found[k] as int] by {
        assert(list[k] < nodes.len());
        lemma_place_stays(nodes, ready, end, list[k] as int);
    }
    assert forall|k: int| 0 <= k < commands.len() implies holds(
        host,
        memory,
        (#[trigger] commands[k]).0,
    ) by {
        lemma_ran(host, memory, given.ledger.log, commands[k].0);
    }
    lemma_spread_formula(
        nodes,
        host,
        memory,
        values,
        i as int,
        gradient,
        found,
        outs,
        statistics,
    );
    if op is BatchNorm2d {
        assert(list[0] == i);
        assert(place(nodes, ready.values, list[0] as int) is Some);
        assert(ready.values.contains_key(i));
        assert(end.statistics[i] == statistics);
    }
    assert(grads_of(given.ledger, memory) == grads_of(ledger, memory));
    let held = Statistics {
        mean: memory[statistics.0 as int],
        inverse: memory[statistics.1 as int],
    };
    let parts = opened(shares, memory).map_values(|share: (usize, Seq<T>)| share.1);
    assert(device_spreads(nodes, values, held, i as int, memory[gradient as int], parts));
    parts
}

/// Carrying gradients through a list of nodes keeps what is linked.
proof fn lemma_swept_links<T: Scalar>(graph: Graph<T>, ledger: Ledger<T>, order: Seq<usize>)
    requires
        graph.wf(),
        linked(graph.nodes@, ledger),
        forall|k: int| 0 <= k < order.len() ==> (#[trigger] order[k]) < graph.nodes@.len(),
    ensures
        ({
            let done = swept(graph.nodes@, ledger, order);
            &&& continues(ledger, done.ledger)
            &&& linked(graph.nodes@, done.ledger)
        }),
    decreases order.len(),
{
    if order.len() > 0 {
        let node = order.last();
        let rest = order.drop_last();
        assert(node == order[order.len() - 1]);
        assert forall|k: int| 0 <= k < rest.len() implies (#[trigger] rest[k])
            < graph.nodes@.len() by {
            assert(rest[k] == order[k]);
        }
        if ledger.gradients.contains_key(node) {
            let gradient = ledger.gradients[node];
            let next = propagated(graph.nodes@, ledger, node as int, gradient);
            lemma_propagated_links(graph, ledger, node, gradient);
            if next.result is Ok {
                lemma_swept_links(graph, next.ledger, rest);
                lemma_continues(
                    ledger,
                    next.ledger,
                    swept(graph.nodes@, ledger, order).ledger,
                );
            }
        } else {
            lemma_swept_links(graph, ledger, rest);
        }
    }
}

/// Carrying gradients through a list of nodes hands each its parts.
proof fn lemma_swept<T: Scalar>(
    graph: Graph<T>,
    ledger: Ledger<T>,
    order: Seq<usize>,
    host: Host<T>,
    memory: Seq<Seq<T>>,
)
    requires
        graph.wf(),
        graph.nodes@.len() <= usize::MAX,
        linked(graph.nodes@, ledger),
        forall|k: int| 0 <= k < order.len() ==> (#[trigger] order[k]) < graph.nodes@.len(),
        swept(graph.nodes@, ledger, order).result is Ok,
        executed(host, memory, swept(graph.nodes@, ledger, order).ledger.log),
    ensures
        ({
            let end = swept(graph.nodes@, ledger, order).ledger;
            device_sweeps(
                graph.nodes@,
                contents(graph.nodes@, end.values, memory),
                norms_of(graph.nodes@, end, memory),
                order,
                grads_of(ledger, memory),
                grads_of(end, memory),
            )
        }),
    decreases order.len(),
{
    let nodes = graph.nodes@;
    let end = swept(nodes, ledger, order).ledger;
    if order.len() > 0 {
        let node = order.last();
        let rest = order.drop_last();
        assert(node == order[order.len() - 1]);
        assert forall|k: int| 0 <= k < rest.len() implies (#[trigger] rest[k])
            < nodes.len() by {
            assert(rest[k] == order[k]);
        }
        if ledger.gradients.contains_key(node) {
            let gradient = ledger.gradients[node];
            let next = propagated(nodes, ledger, node as int, gradient);
            lemma_propagated_links(graph, ledger, node, gradient);
            lemma_swept_links(graph, next.ledger, rest);
            lemma_swept(graph, next.ledger, rest, host, memory);
            let parts = lemma_propagated(graph, ledger, node, gradient, host, memory, end);
            let before = grads_of(ledger, memory);
            assert(before.contains_key(node) && before[node] == memory[gradient as int]);
            assert(device_spreads(
                nodes,
                contents(nodes, end.values, memory),
                norms_of(nodes, end, memory)[node as int],
                node as int,
                before[node],
                parts,
            ));
            assert(device_gathers(
                before,
                parcels(nodes[node as int].op, parts),
                grads_of(next.ledger, memory),
            ));
        } else {
            lemma_swept(graph, ledger, rest, host, memory);
        }
    }
}

/// Where everything that was planned has run, differentiating a node has left these
/// gradients: those of all that the node is computed from are forgotten, the node's own is
/// one, and from each node, behind all that are computed from it, its gradient went to its
/// operands.
pub proof fn devices_differentiate_by_their_equations<T: Scalar>(
    graph: Graph<T>,
    ledger: Ledger<T>,
    host: Host<T>,
    memory: Seq<Seq<T>>,
    i: usize,
)
    requires
        graph.wf(),
        i < graph.nodes@.len() <= usize::MAX,
        linked(graph.nodes@, ledger),
        hosts(graph.nodes@, host),
        executed(host, memory, differentiated(graph.nodes@, ledger, i as int).ledger.log),
    ensures
        ({
            let done = differentiated(graph.nodes@, ledger, i as int);
            let end = done.ledger;
            let order = visited(graph.nodes@, seq![], i as int);
            let values = contents(graph.nodes@, end.values, memory);
            let statistics = norms_of(graph.nodes@, end, memory);
            &&& linked(graph.nodes@, end)
            &&& done.result is Ok ==> {
                &&& device_solves(graph.nodes@, host, values, statistics, i as int)
                &&& exists|unit: T| #[trigger]
                    one(unit) && device_sweeps(
                        graph.nodes@,
                        values,
                        statistics,
                        order,
                        grads_of(ledger, memory).remove_keys(order.to_set()).insert(
                            i,
                            seq![unit],
                        ),
                        grads_of(end, memory),
                    )
            }
        }),
{
    let nodes = graph.nodes@;
    let order = visited(nodes, seq![], i as int);
    let start = forgetting(ledger, order);
    assert(carries(ledger, start));
    lemma_carries(nodes, ledger, start);
    evaluation_links_buffers(graph, start, i);
    let first = evaluated(nodes, start, i as int);
    let done = differentiated(nodes, ledger, i as int);
    let end = done.ledger;
    order_is_topological(graph, i);
    assert forall|k: int| 0 <= k < order.len() implies (#[trigger] order[k]) < nodes.len() by {
        assert(order.contains(order[k]));
        lemma_reaches_below(nodes, i as int, order[k] as int);
    }
    if first.result is Ok {
        let root = first.ledger.root;
        let seeded = Ledger {
            gradients: first.ledger.gradients.insert(i, root),
            ..first.ledger
        };
        assert(carries(first.ledger, seeded));
        lemma_carries(nodes, first.ledger, seeded);
        lemma_swept_links(graph, seeded, order);
        if done.result is Ok {
            lemma_swept(graph, seeded, order, host, memory);
            lemma_continues(first.ledger, seeded, end);
            lemma_place_stays(nodes, first.ledger, end, i as int);
            lemma_device_solves(graph, end, host, memory, i as int);
            lemma_grows(seeded.log, end.log);
            lemma_ran(host, memory, end.log, Command::One { out: root });
            let unit = memory[root as int][0];
            assert(memory[root as int] =~= seq![unit]);
            assert(grads_of(seeded, memory) =~= grads_of(ledger, memory).remove_keys(
                order.to_set(),
            ).insert(i, seq![unit]));
            assert(one(unit));
        }
    }
}

} // verus!

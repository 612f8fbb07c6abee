//! What the host and a device agree on.

use crate::cuda::command::{executed, holds, Command, Host, Step};
use crate::cuda::executor::{
    all_evaluated, blank, command_for, computed, elements, evaluated, Ledger,
};
use crate::cuda::launch::Grid;
use crate::eval::{computes, valued, Machine};
use crate::graph::{
    lemma_reaches_below, operands, ordered, planes_of, reaches, Graph, Memory, Node, Op,
};
use crate::meaning::{assigned, solutions_are_values};
use crate::scalar::Scalar;
use vstd::prelude::*;

verus! {

/// The buffer that holds the value of a node.  A reshaped tensor stands in the buffer of
/// the tensor itself.
pub open spec fn place<T>(nodes: Seq<Node<T>>, values: Map<usize, usize>, i: int) -> Option<usize>
    decreases i,
{
    match nodes[i].op {
        Op::Reshape(input) => if 0 <= input < i {
            place(nodes, values, input as int)
        } else {
            None
        },
        _ => if values.contains_key(i as usize) {
            Some(values[i as usize])
        } else {
            None
        },
    }
}

/// The command was given.
pub open spec fn logged<T>(log: Seq<Step<T>>, command: Command<T>) -> bool {
    exists|k: int| 0 <= k < log.len() && (#[trigger] log[k]).command == command
}

/// The buffers of the operands of a node.
pub open spec fn places<T>(nodes: Seq<Node<T>>, values: Map<usize, usize>, i: int) -> Seq<usize> {
    Seq::new(
        operands(nodes[i].op).len(),
        |k: int| place(nodes, values, operands(nodes[i].op)[k] as int)->Some_0,
    )
}

/// The buffers hold running statistics of a batch normalization: they were copied from the
/// host, or moved towards those of a batch.
pub open spec fn running<T>(log: Seq<Step<T>>, state: usize, mean: usize, variance: usize) -> bool {
    ||| logged(log, Command::UploadMean { state, out: mean }) && logged(
        log,
        Command::UploadVariance { state, out: variance },
    )
    ||| exists|
        batch_mean: usize,
        batch_variance: usize,
        old_mean: usize,
        old_variance: usize,
        momentum: T,
    | #[trigger]
        logged(
            log,
            Command::BatchNormUpdate {
                batch_mean,
                batch_variance,
                old_mean,
                old_variance,
                mean,
                variance,
                momentum,
            },
        )
}

/// The buffer of a batch normalization was filled by statistics that were measured on its
/// input, or that running statistics give.
pub open spec fn linked_norm<T>(nodes: Seq<Node<T>>, ledger: Ledger<T>, i: usize) -> bool {
    let (mean, inverse) = ledger.statistics[i];
    let buffers = places(nodes, ledger.values, i as int);
    &&& ledger.statistics.contains_key(i)
    &&& nodes[i as int].op matches Op::BatchNorm2d { input, state, training, epsilon, .. } && {
        let planes = planes_of(nodes[input as int].shape@);
        &&& logged(
            ledger.log,
            Command::BatchNormApply {
                input: buffers[0],
                weight: buffers[1],
                bias: buffers[2],
                mean,
                inverse,
                out: ledger.values[i],
                planes,
            },
        )
        &&& if training {
            exists|variance: usize| #[trigger]
                logged(
                    ledger.log,
                    Command::BatchNormStatistics {
                        input: buffers[0],
                        mean,
                        inverse,
                        variance,
                        planes,
                        epsilon,
                    },
                )
        } else {
            exists|variance: usize| #[trigger]
                logged(
                    ledger.log,
                    Command::BatchNormInverse { variance, out: inverse, epsilon },
                ) && running(ledger.log, state, mean, variance)
        }
    }
}

/// The buffer of a node was filled from the buffers of its operands.
pub open spec fn linked_alone<T>(nodes: Seq<Node<T>>, ledger: Ledger<T>, i: usize) -> bool {
    &&& i < nodes.len()
    &&& !(nodes[i as int].op is Reshape)
    &&& !(nodes[i as int].op is Placeholder)
    &&& forall|k: int|
        0 <= k < operands(nodes[i as int].op).len() ==> place(
            nodes,
            ledger.values,
            (#[trigger] operands(nodes[i as int].op)[k]) as int,
        ) is Some
    &&& match nodes[i as int].op {
        Op::Data(_) => logged(ledger.log, Command::Upload { node: i, out: ledger.values[i] }),
        Op::BatchNorm2d { .. } => linked_norm(nodes, ledger, i),
        _ => logged(
            ledger.log,
            command_for(
                nodes,
                i as int,
                places(nodes, ledger.values, i as int),
                ledger.values[i],
            ).0,
        ),
    }
}

/// Every pair of buffers that is kept for a batch normalization holds running statistics.
pub open spec fn stocked<T>(ledger: Ledger<T>) -> bool {
    forall|s: usize| #[trigger]
        ledger.states.contains_key(s) ==> running(
            ledger.log,
            s,
            ledger.states[s].0,
            ledger.states[s].1,
        )
}

/// Every buffer that holds the value of a node was filled from the buffers of its operands,
/// and the buffers kept for batch normalizations and for the single one hold these.
pub open spec fn linked<T>(nodes: Seq<Node<T>>, ledger: Ledger<T>) -> bool {
    &&& forall|i: usize| #[trigger]
        ledger.values.contains_key(i) ==> linked_alone(nodes, ledger, i)
    &&& stocked(ledger)
    &&& logged(ledger.log, Command::One { out: ledger.root })
}

/// The second list of commands starts with the first.
pub open spec fn grows<T>(before: Seq<Step<T>>, after: Seq<Step<T>>) -> bool {
    &&& before.len() <= after.len()
    &&& forall|k: int| 0 <= k < before.len() ==> #[trigger] after[k] == before[k]
}

/// The second ledger keeps the values and the commands of the first.
pub open spec fn continues<T>(before: Ledger<T>, after: Ledger<T>) -> bool {
    &&& grows(before.log, after.log)
    &&& forall|i: usize| #[trigger]
        before.values.contains_key(i) ==> {
            &&& after.values.contains_key(i)
            &&& after.values[i] == before.values[i]
            &&& before.statistics.contains_key(i) ==> after.statistics.contains_key(i)
                && after.statistics[i] == before.statistics[i]
        }
    &&& after.root == before.root
}

/// What was given stays given.
pub proof fn lemma_grows<T>(before: Seq<Step<T>>, after: Seq<Step<T>>)
    requires
        grows(before, after),
    ensures
        forall|command: Command<T>| #[trigger] logged(before, command) ==> logged(after, command),
        forall|state: usize, mean: usize, variance: usize| #[trigger]
            running(before, state, mean, variance) ==> running(after, state, mean, variance),
{
    assert forall|command: Command<T>| #[trigger] logged(before, command) implies logged(
        after,
        command,
    ) by {
        let k = choose|k: int| 0 <= k < before.len() && (#[trigger] before[k]).command == command;
        assert(after[k] == before[k]);
    }
}

/// A command that was given last was given.
pub proof fn lemma_given<T>(ledger: Ledger<T>, command: Command<T>, grid: Option<Grid>)
    ensures
        logged(ledger.given(command, grid).log, command),
        grows(ledger.log, ledger.given(command, grid).log),
{
    let after = ledger.given(command, grid).log;
    assert(after[after.len() - 1].command == command);
}

pub proof fn lemma_continues<T>(a: Ledger<T>, b: Ledger<T>, c: Ledger<T>)
    requires
        continues(a, b),
        continues(b, c),
    ensures
        continues(a, c),
{
    assert forall|k: int| 0 <= k < a.log.len() implies #[trigger] c.log[k] == a.log[k] by {
        assert(b.log[k] == a.log[k]);
    }
    assert forall|i: usize| #[trigger] a.values.contains_key(i) implies {
        &&& c.values.contains_key(i)
        &&& c.values[i] == a.values[i]
        &&& a.statistics.contains_key(i) ==> c.statistics.contains_key(i) && c.statistics[i]
            == a.statistics[i]
    } by {
        assert(b.values.contains_key(i));
    }
}

/// What has a place keeps it.
pub proof fn lemma_place_stays<T>(nodes: Seq<Node<T>>, before: Ledger<T>, after: Ledger<T>, i: int)
    requires
        continues(before, after),
        place(nodes, before.values, i) is Some,
    ensures
        place(nodes, after.values, i) == place(nodes, before.values, i),
    decreases i,
{
    match nodes[i].op {
        Op::Reshape(input) => {
            lemma_place_stays(nodes, before, after, input as int);
        },
        _ => {
            assert(before.values.contains_key(i as usize));
        },
    }
}

/// What was linked stays so.
pub proof fn lemma_linked_stays<T>(
    nodes: Seq<Node<T>>,
    before: Ledger<T>,
    after: Ledger<T>,
    i: usize,
)
    requires
        continues(before, after),
        before.values.contains_key(i),
        linked_alone(nodes, before, i),
    ensures
        linked_alone(nodes, after, i),
{
    let list = operands(nodes[i as int].op);
    assert forall|k: int| 0 <= k < list.len() implies place(
        nodes,
        after.values,
        (#[trigger] list[k]) as int,
    ) is Some && place(nodes, after.values, list[k] as int) == place(
        nodes,
        before.values,
        list[k] as int,
    ) by {
        lemma_place_stays(nodes, before, after, list[k] as int);
    }
    assert(places(nodes, after.values, i as int) =~= places(nodes, before.values, i as int));
    assert(after.values[i] == before.values[i]);
    lemma_grows(before.log, after.log);
}

/// Nothing new holds a value, and nothing is forgotten.
pub open spec fn adds<T>(before: Ledger<T>, after: Ledger<T>) -> bool {
    &&& grows(before.log, after.log)
    &&& after.values == before.values
    &&& after.gradients == before.gradients
    &&& after.root == before.root
}

/// The running statistics of a batch normalization come to the device.
proof fn lemma_with_state<T>(ledger: Ledger<T>, state: usize, channels: usize)
    requires
        stocked(ledger),
    ensures
        ({
            let after = ledger.with_state(state, channels);
            &&& adds(ledger, after)
            &&& after.statistics == ledger.statistics
            &&& stocked(after)
            &&& after.states.contains_key(state)
        }),
{
    let after = ledger.with_state(state, channels);
    if !ledger.states.contains_key(state) {
        let mean = ledger.next();
        let first = ledger.with_buffer(channels);
        lemma_given(first, Command::UploadMean { state, out: mean }, None);
        let second = first.given(Command::UploadMean { state, out: mean }, None);
        let variance = second.next();
        let third = second.with_buffer(channels);
        lemma_given(third, Command::UploadVariance { state, out: variance }, None);
        lemma_grows(second.log, after.log);
        assert(grows(ledger.log, after.log));
        lemma_grows(ledger.log, after.log);
        assert(running(after.log, state, mean, variance));
        assert forall|s: usize| #[trigger] after.states.contains_key(s) implies running(
            after.log,
            s,
            after.states[s].0,
            after.states[s].1,
        ) by {
            if s != state {
                assert(ledger.states.contains_key(s));
            }
        }
    }
}

/// The statistics of a batch are measured, and move the running ones.
proof fn lemma_measured<T>(
    ledger: Ledger<T>,
    input: usize,
    state: usize,
    planes: crate::norm::Planes,
    momentum: T,
    epsilon: T,
)
    requires
        stocked(ledger),
    ensures
        ({
            let done = ledger.measured(input, state, planes, momentum, epsilon);
            &&& adds(ledger, done.ledger)
            &&& done.ledger.statistics == ledger.statistics
            &&& stocked(done.ledger)
            &&& done.result matches Ok(mean) ==> logged(
                done.ledger.log,
                Command::BatchNormStatistics {
                    input,
                    mean,
                    inverse: (mean + 1) as usize,
                    variance: (mean + 2) as usize,
                    planes,
                    epsilon,
                },
            )
        }),
{
    let done = ledger.measured(input, state, planes, momentum, epsilon);
    let log = done.ledger.log;
    if let Ok(mean) = done.result {
        let n = ledger.log.len() as int;
        assert(log.len() == n + 2);
        assert(log[n].command == (Command::<T>::BatchNormStatistics {
            input,
            mean,
            inverse: (mean + 1) as usize,
            variance: (mean + 2) as usize,
            planes,
            epsilon,
        }));
        let new_mean = (mean + 3) as usize;
        let new_variance = (mean + 4) as usize;
        let (old_mean, old_variance) = ledger.states[state];
        let update = Command::<T>::BatchNormUpdate {
            batch_mean: mean,
            batch_variance: (mean + 2) as usize,
            old_mean,
            old_variance,
            mean: new_mean,
            variance: new_variance,
            momentum,
        };
        assert(log[n + 1].command == update);
        assert(logged(log, update));
        assert(running(log, state, new_mean, new_variance));
        assert(grows(ledger.log, log));
        lemma_grows(ledger.log, log);
        assert forall|s: usize| #[trigger] done.ledger.states.contains_key(s) implies running(
            log,
            s,
            done.ledger.states[s].0,
            done.ledger.states[s].1,
        ) by {
            if s != state {
                assert(ledger.states.contains_key(s));
            }
        }
    }
}

/// A batch normalization computes no value but its own, and is linked to its operands.
proof fn lemma_normed<T>(
    ledger: Ledger<T>,
    node: usize,
    len: usize,
    buffers: Seq<usize>,
    state: usize,
    planes: crate::norm::Planes,
    training: bool,
    momentum: T,
    epsilon: T,
)
    requires
        stocked(ledger),
    ensures
        ({
            let done = ledger.normed(
                node,
                len,
                buffers,
                state,
                planes,
                training,
                momentum,
                epsilon,
            );
            &&& adds(ledger, done.ledger)
            &&& stocked(done.ledger)
            &&& forall|j: usize|
                j != node && #[trigger] ledger.statistics.contains_key(j)
                    ==> done.ledger.statistics.contains_key(j) && done.ledger.statistics[j]
                    == ledger.statistics[j]
            &&& done.result matches Ok(out) ==> {
                let (mean, inverse) = done.ledger.statistics[node];
                &&& done.ledger.statistics.contains_key(node)
                &&& logged(
                    done.ledger.log,
                    Command::BatchNormApply {
                        input: buffers[0],
                        weight: buffers[1],
                        bias: buffers[2],
                        mean,
                        inverse,
                        out,
                        planes,
                    },
                )
                &&& if training {
                    exists|variance: usize| #[trigger]
                        logged(
                            done.ledger.log,
                            Command::BatchNormStatistics {
                                input: buffers[0],
                                mean,
                                inverse,
                                variance,
                                planes,
                                epsilon,
                            },
                        )
                } else {
                    exists|variance: usize| #[trigger]
                        logged(
                            done.ledger.log,
                            Command::BatchNormInverse { variance, out: inverse, epsilon },
                        ) && running(done.ledger.log, state, mean, variance)
                }
            }
        }),
{
    let done = ledger.normed(node, len, buffers, state, planes, training, momentum, epsilon);
    let ready = ledger.with_state(state, planes.channels);
    lemma_with_state(ledger, state, planes.channels);
    lemma_measured(ready, buffers[0], state, planes, momentum, epsilon);
    let (prepared, statistics) = ledger.prepared(
        buffers[0],
        state,
        planes,
        training,
        momentum,
        epsilon,
    );
    assert(adds(ledger, prepared) && adds(ready, prepared));
    lemma_grows(ready.log, prepared.log);
    assert(stocked(prepared)) by {
        if !training {
            assert(prepared.states == ready.states);
        }
    }
    let refused = training && planes.samples() <= 1;
    if let (Ok((mean, inverse)), false) = (statistics, refused) {
        if !training {
            let variance = ready.states[state].1;
            assert(running(ready.log, state, mean, variance));
            let command = Command::<T>::BatchNormInverse { variance, out: inverse, epsilon };
            assert(prepared.log[prepared.log.len() - 1].command == command);
            assert(logged(prepared.log, command));
        }
        assert(grows(prepared.log, done.ledger.log));
        lemma_grows(prepared.log, done.ledger.log);
        if let Ok(out) = done.result {
            let last = done.ledger.log[done.ledger.log.len() - 1];
            assert(last.command == (Command::<T>::BatchNormApply {
                input: buffers[0],
                weight: buffers[1],
                bias: buffers[2],
                mean,
                inverse,
                out,
                planes,
            }));
        }
    }
}

/// A node that is computed is linked to its operands.
proof fn lemma_computed<T>(nodes: Seq<Node<T>>, ledger: Ledger<T>, i: usize, buffers: Seq<usize>)
    requires
        i < nodes.len(),
        ordered(nodes, i as int),
        linked(nodes, ledger),
        !ledger.values.contains_key(i),
        !(nodes[i as int].op is Reshape),
        !(nodes[i as int].op is Placeholder),
        buffers.len() == operands(nodes[i as int].op).len(),
        forall|k: int|
            0 <= k < buffers.len() ==> place(
                nodes,
                ledger.values,
                (#[trigger] operands(nodes[i as int].op)[k]) as int,
            ) == Some(buffers[k]),
    ensures
        ({
            let done = computed(nodes, ledger, i as int, buffers);
            &&& continues(ledger, done.ledger)
            &&& linked(nodes, done.ledger)
            &&& done.ledger.gradients == ledger.gradients
            &&& done.result matches Ok(b) ==> done.ledger.values.contains_key(i)
                && done.ledger.values[i] == b
            &&& forall|j: usize| j != i ==> (#[trigger] done.ledger.values.contains_key(j)
                == ledger.values.contains_key(j))
        }),
{
    let done = computed(nodes, ledger, i as int, buffers);
    let len = elements(nodes, i as int);
    let list = operands(nodes[i as int].op);
    match nodes[i as int].op {
        Op::BatchNorm2d { input, state, training, momentum, epsilon, .. } => {
            lemma_normed(
                ledger,
                i,
                len,
                buffers,
                state,
                planes_of(nodes[input as int].shape@),
                training,
                momentum,
                epsilon,
            );
        },
        _ => {},
    }
    assert(continues(ledger, done.ledger));
    lemma_grows(ledger.log, done.ledger.log);
    assert(stocked(done.ledger));
    assert forall|j: usize| #[trigger] done.ledger.values.contains_key(j) implies linked_alone(
        nodes,
        done.ledger,
        j,
    ) by {
        if j != i {
            assert(ledger.values.contains_key(j));
            lemma_linked_stays(nodes, ledger, done.ledger, j);
        } else if done.result is Ok {
            let values = done.ledger.values;
            assert forall|k: int| 0 <= k < list.len() implies place(
                nodes,
                values,
                (#[trigger] list[k]) as int,
            ) == Some(buffers[k]) by {
                assert(place(nodes, ledger.values, list[k] as int) == Some(buffers[k]));
                lemma_place_stays(nodes, ledger, done.ledger, list[k] as int);
            }
            assert(places(nodes, values, i as int) =~= buffers);
            let last = done.ledger.log.last();
            match nodes[i as int].op {
                Op::Data(_) => {
                    assert(last.command == (Command::<T>::Upload { node: i, out: values[i] }));
                },
                Op::BatchNorm2d { .. } => {},
                _ => {
                    assert(last.command == command_for(nodes, i as int, buffers, values[i]).0);
                },
            }
            assert(last == done.ledger.log[done.ledger.log.len() - 1]);
        }
    }
}

/// Evaluating keeps what is linked, and links what it computes.
pub proof fn evaluation_links_buffers<T>(graph: Graph<T>, ledger: Ledger<T>, i: usize)
    requires
        graph.wf(),
        i < graph.nodes@.len(),
        linked(graph.nodes@, ledger),
    ensures
        ({
            let done = evaluated(graph.nodes@, ledger, i as int);
            &&& continues(ledger, done.ledger)
            &&& linked(graph.nodes@, done.ledger)
            &&& done.ledger.gradients == ledger.gradients
            &&& done.result matches Ok(b) ==> place(graph.nodes@, done.ledger.values, i as int)
                == Some(b)
            &&& forall|j: usize| j > i ==> (#[trigger] done.ledger.values.contains_key(j)
                == ledger.values.contains_key(j))
        }),
    decreases i, 4nat,
{
    let nodes = graph.nodes@;
    if ledger.values.contains_key(i) {
        assert(linked_alone(nodes, ledger, i));
    } else {
        assert(ordered(nodes, i as int));
        match nodes[i as int].op {
            Op::Placeholder(_) => {},
            Op::Reshape(input) => {
                assert(operands(nodes[i as int].op)[0] == input);
                evaluation_links_buffers(graph, ledger, input);
            },
            _ => {
                let n = operands(nodes[i as int].op).len();
                lemma_all_evaluated(graph, ledger, i, n);
                let (after, result) = all_evaluated(nodes, ledger, i as int, n);
                if let Ok(buffers) = result {
                    lemma_computed(nodes, after, i, buffers);
                    lemma_continues(ledger, after, computed(nodes, after, i as int, buffers).ledger);
                }
            },
        }
    }
}

proof fn lemma_all_evaluated<T>(graph: Graph<T>, ledger: Ledger<T>, i: usize, k: nat)
    requires
        graph.wf(),
        i < graph.nodes@.len(),
        linked(graph.nodes@, ledger),
        k <= operands(graph.nodes@[i as int].op).len(),
    ensures
        ({
            let (after, result) = all_evaluated(graph.nodes@, ledger, i as int, k);
            &&& continues(ledger, after)
            &&& linked(graph.nodes@, after)
            &&& after.gradients == ledger.gradients
            &&& result matches Ok(buffers) ==> {
                &&& buffers.len() == k
                &&& forall|j: int|
                    0 <= j < k ==> place(
                        graph.nodes@,
                        after.values,
                        (#[trigger] operands(graph.nodes@[i as int].op)[j]) as int,
                    ) == Some(buffers[j])
            }
            &&& forall|j: usize| j >= i ==> (#[trigger] after.values.contains_key(j)
                == ledger.values.contains_key(j))
        }),
    decreases i, k,
{
    let nodes = graph.nodes@;
    if k > 0 {
        lemma_all_evaluated(graph, ledger, i, (k - 1) as nat);
        let (before, result) = all_evaluated(nodes, ledger, i as int, (k - 1) as nat);
        let (after, all) = all_evaluated(nodes, ledger, i as int, k);
        assert(ordered(nodes, i as int));
        let list = operands(nodes[i as int].op);
        let operand = list[k - 1];
        if let Ok(buffers) = result {
            evaluation_links_buffers(graph, before, operand);
            lemma_continues(ledger, before, after);
            if let Ok(more) = all {
                assert forall|j: int| 0 <= j < k implies place(
                    nodes,
                    after.values,
                    (#[trigger] list[j]) as int,
                ) == Some(more[j]) by {
                    if j < k - 1 {
                        assert(place(nodes, before.values, list[j] as int) == Some(buffers[j]));
                        lemma_place_stays(nodes, before, after, list[j] as int);
                    }
                }
            }
        }
    }
}

/// The host and the device compute the operation by the same formula.
pub open spec fn plain_alone<T>(nodes: Seq<Node<T>>, i: int) -> bool {
    match nodes[i].op {
        Op::Data(_) => true,
        Op::Add(_, _) => true,
        Op::Mul(_, _) => true,
        Op::MatMul(_, _) => true,
        Op::Conv2d { weight, .. } => nodes[weight as int].shape@[2]
            == nodes[weight as int].shape@[3],
        Op::AvgPool2d { .. } => true,
        Op::Reshape(_) => true,
        _ => false,
    }
}

/// The same holds for all that a node is computed from.
pub open spec fn plain<T>(nodes: Seq<Node<T>>, node: int) -> bool {
    forall|i: int| #[trigger] reaches(nodes, node, i) ==> plain_alone(nodes, i)
}

/// The host holds the data of the graph.
pub open spec fn hosts<T>(nodes: Seq<Node<T>>, host: Host<T>) -> bool {
    forall|i: int|
        0 <= i < nodes.len() ==> ((#[trigger] nodes[i]).op matches Op::Data(data)
            ==> host.data[i] == Some(data@))
}

/// What the buffer of a node holds.
pub open spec fn content<T>(
    nodes: Seq<Node<T>>,
    values: Map<usize, usize>,
    memory: Seq<Seq<T>>,
    i: int,
) -> Seq<T> {
    memory[place(nodes, values, i)->Some_0 as int]
}

/// All that a node with a place is computed from has a place.
pub proof fn lemma_reached_placed<T>(graph: Graph<T>, ledger: Ledger<T>, node: int, target: int)
    requires
        graph.wf(),
        0 <= node < graph.nodes@.len(),
        graph.nodes@.len() <= usize::MAX,
        linked(graph.nodes@, ledger),
        place(graph.nodes@, ledger.values, node) is Some,
        reaches(graph.nodes@, node, target),
    ensures
        place(graph.nodes@, ledger.values, target) is Some,
    decreases node,
{
    let nodes = graph.nodes@;
    if node != target {
        let k = choose|k: int|
            {
                let operand = #[trigger] operands(nodes[node].op)[k];
                &&& 0 <= k < operands(nodes[node].op).len()
                &&& 0 <= operand < node
                &&& reaches(nodes, operand as int, target)
            };
        let operand = operands(nodes[node].op)[k];
        assert(place(nodes, ledger.values, operand as int) is Some) by {
            if !(nodes[node].op is Reshape) {
                assert(ledger.values.contains_key(node as usize));
                assert(linked_alone(nodes, ledger, node as usize));
            }
        }
        lemma_reached_placed(graph, ledger, operand as int, target);
    }
}

/// What the buffers of all nodes hold.
pub open spec fn contents<T>(
    nodes: Seq<Node<T>>,
    values: Map<usize, usize>,
    memory: Seq<Seq<T>>,
) -> Seq<Seq<T>> {
    Seq::new(nodes.len(), |i: int| content(nodes, values, memory, i))
}

/// What a command leaves in a buffer is what the operation gives on the host.
proof fn lemma_same_formula<T: Scalar>(
    nodes: Seq<Node<T>>,
    host: Host<T>,
    memory: Seq<Seq<T>>,
    machine: Machine<T>,
    n: int,
    bufs: Seq<usize>,
    out: usize,
)
    requires
        plain_alone(nodes, n),
        !(nodes[n].op is Reshape),
        !(nodes[n].op is Data),
        bufs.len() == operands(nodes[n].op).len(),
        forall|k: int|
            0 <= k < bufs.len() ==> machine.values[(#[trigger] operands(nodes[n].op)[k]) as int]
                == Some(memory[bufs[k] as int]),
        holds(host, memory, command_for(nodes, n, bufs, out).0),
    ensures
        computes(nodes, None, machine, n, memory[out as int], machine.norms),
{
    let list = operands(nodes[n].op);
    match nodes[n].op {
        Op::Add(left, right) => {
            assert(list[0] == left && list[1] == right);
        },
        Op::Mul(left, right) => {
            assert(list[0] == left && list[1] == right);
        },
        Op::MatMul(left, right) => {
            assert(list[0] == left && list[1] == right);
        },
        Op::Conv2d { input, weight, bias, .. } => {
            assert(list[0] == input && list[1] == weight && list[2] == bias);
        },
        Op::AvgPool2d { input, .. } => {
            assert(list[0] == input);
        },
        _ => {},
    }
}

/// What the buffer of a node holds is what its operation gives on the host.
proof fn lemma_content<T: Scalar>(
    graph: Graph<T>,
    ledger: Ledger<T>,
    host: Host<T>,
    memory: Seq<Seq<T>>,
    norms: Memory<T>,
    n: int,
)
    requires
        graph.wf(),
        0 <= n < graph.nodes@.len() <= usize::MAX,
        linked(graph.nodes@, ledger),
        hosts(graph.nodes@, host),
        executed(host, memory, ledger.log),
        plain_alone(graph.nodes@, n),
        place(graph.nodes@, ledger.values, n) is Some,
    ensures
        computes(
            graph.nodes@,
            None,
            assigned(contents(graph.nodes@, ledger.values, memory), norms),
            n,
            content(graph.nodes@, ledger.values, memory, n),
            norms,
        ),
{
    let nodes = graph.nodes@;
    let values = ledger.values;
    let machine = assigned(contents(nodes, values, memory), norms);
    let list = operands(nodes[n].op);
    assert(ordered(nodes, n));
    assert forall|k: int| 0 <= k < list.len() implies machine.values[(#[trigger] list[k]) as int]
        == Some(content(nodes, values, memory, list[k] as int)) by {}
    match nodes[n].op {
        Op::Reshape(input) => {
            assert(list[0] == input);
        },
        _ => {
            let i = n as usize;
            assert(values.contains_key(i));
            assert(linked_alone(nodes, ledger, i));
            let bufs = places(nodes, values, n);
            let command = match nodes[n].op {
                Op::Data(_) => Command::Upload { node: i, out: values[i] },
                _ => command_for(nodes, n, bufs, values[i]).0,
            };
            let k = choose|k: int|
                0 <= k < ledger.log.len() && (#[trigger] ledger.log[k]).command == command;
            assert(holds(host, memory, ledger.log[k].command));
            if !(nodes[n].op is Data) {
                assert forall|k: int| 0 <= k < bufs.len() implies machine.values[(
                #[trigger] list[k]) as int] == Some(memory[bufs[k] as int]) by {
                    assert(machine.values[list[k] as int] == Some(
                        content(nodes, values, memory, list[k] as int),
                    ));
                }
                lemma_same_formula(nodes, host, memory, machine, n, bufs, values[i]);
            }
        },
    }
}

/// Where everything that was planned has run, the buffer of a node holds a value that
/// evaluating the node on the host gives: for nodes that are computed from data by sums,
/// products, matrix products, convolutions by squares, average pools and reshapes.
pub proof fn devices_compute_what_the_host_computes<T: Scalar>(
    graph: Graph<T>,
    ledger: Ledger<T>,
    host: Host<T>,
    memory: Seq<Seq<T>>,
    norms: Memory<T>,
    i: usize,
)
    requires
        graph.wf(),
        i < graph.nodes@.len() <= usize::MAX,
        linked(graph.nodes@, ledger),
        hosts(graph.nodes@, host),
        executed(host, memory, evaluated(graph.nodes@, ledger, i as int).ledger.log),
        plain(graph.nodes@, i as int),
    ensures
        evaluated(graph.nodes@, ledger, i as int).result matches Ok(buffer) ==> valued(
            graph.nodes@,
            None,
            norms,
            i as int,
            memory[buffer as int],
            norms,
        ),
{
    let nodes = graph.nodes@;
    let done = evaluated(nodes, ledger, i as int);
    evaluation_links_buffers(graph, ledger, i);
    if let Ok(buffer) = done.result {
        let values = contents(nodes, done.ledger.values, memory);
        assert forall|n: int| #[trigger] reaches(nodes, i as int, n) implies computes(
            nodes,
            None,
            assigned(values, norms),
            n,
            values[n],
            norms,
        ) by {
            lemma_reaches_below(nodes, i as int, n);
            lemma_reached_placed(graph, done.ledger, i as int, n);
            lemma_content(graph, done.ledger, host, memory, norms, n);
        }
        solutions_are_values(graph, None, norms, values, i as int);
    }
}

/// A new executor, which holds no values, is linked.
pub proof fn new_executors_are_linked<T>(nodes: Seq<Node<T>>)
    ensures
        linked(nodes, blank::<T>()),
{
    assert(blank::<T>().log[0].command == Command::<T>::One { out: 0 });
}

} // verus!

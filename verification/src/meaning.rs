//! What graphs mean: evaluating a node solves the equations of all that it is computed from.
//!
//! This is stated for nodes that no batch normalization takes part in: those remember.
//! That a reshape changes no values is stated of all nodes.

use crate::eval::{
    blank, computes, evaluates, lemma_evaluates_keeps, lemma_evaluates_nothing,
    lemma_evaluates_operand, lemma_evaluates_step, ready, runs, step, valued, Machine,
};
use crate::graph::{
    lemma_reaches_operand, lemma_reaches_transitive, operands, ordered, reaches, Graph, Memory,
    Node, Op,
};
use crate::scalar::Scalar;
use crate::tensor::Tensor;
use vstd::prelude::*;

verus! {

/// No batch normalization takes part.
pub open spec fn memoryless<T>(nodes: Seq<Node<T>>, root: int) -> bool {
    forall|i: int| #[trigger] reaches(nodes, root, i) ==> !(nodes[i].op is BatchNorm2d)
}

/// Every node has the value that is assigned to it.
pub open spec fn assigned<T>(values: Seq<Seq<T>>, norms: Memory<T>) -> Machine<T> {
    Machine { values: Seq::new(values.len(), |i: int| Some(values[i])), norms }
}

/// The assignment solves the equations of a node and of all that it is computed from.
pub open spec fn solves<T: Scalar>(
    nodes: Seq<Node<T>>,
    inputs: Option<Seq<Seq<T>>>,
    norms: Memory<T>,
    values: Seq<Seq<T>>,
    root: int,
) -> bool {
    &&& values.len() == nodes.len()
    &&& forall|i: int| #[trigger]
        reaches(nodes, root, i) ==> computes(
            nodes,
            inputs,
            assigned(values, norms),
            i,
            values[i],
            norms,
        )
}

/// The value of a node depends on those of its operands alone.
pub proof fn lemma_computes<T: Scalar>(
    nodes: Seq<Node<T>>,
    inputs: Option<Seq<Seq<T>>>,
    a: Machine<T>,
    b: Machine<T>,
    i: int,
    value: Seq<T>,
    after: Memory<T>,
)
    requires
        forall|k: int|
            0 <= k < operands(nodes[i].op).len() ==> a.values[(
            #[trigger] operands(nodes[i].op)[k]) as int] == b.values[operands(
                nodes[i].op,
            )[k] as int],
        a.norms == b.norms,
        computes(nodes, inputs, a, i, value, after),
    ensures
        computes(nodes, inputs, b, i, value, after),
{
    let list = operands(nodes[i].op);
    match nodes[i].op {
        Op::Add(left, right) => {
            assert(list[0] == left && list[1] == right);
        },
        Op::Mul(left, right) => {
            assert(list[0] == left && list[1] == right);
        },
        Op::Relu(input) => {
            assert(list[0] == input);
        },
        Op::MatMul(left, right) => {
            assert(list[0] == left && list[1] == right);
        },
        Op::Conv2d { input, weight, bias, .. } => {
            assert(list[0] == input && list[1] == weight && list[2] == bias);
        },
        Op::AvgPool2d { input, .. } => {
            assert(list[0] == input);
        },
        Op::Reshape(input) => {
            assert(list[0] == input);
        },
        Op::CrossEntropy { logits, targets } => {
            assert(list[0] == logits && list[1] == targets);
        },
        Op::BatchNorm2d { input, weight, bias, .. } => {
            assert(list[0] == input && list[1] == weight && list[2] == bias);
        },
        _ => {},
    }
}

/// The host after it evaluated those of the first `n` nodes that take part, to what is
/// assigned to them.
pub open spec fn halfway<T>(
    nodes: Seq<Node<T>>,
    values: Seq<Seq<T>>,
    norms: Memory<T>,
    root: int,
    n: int,
) -> Machine<T> {
    Machine {
        values: Seq::new(
            nodes.len(),
            |i: int|
                if i < n && reaches(nodes, root, i) {
                    Some(values[i])
                } else {
                    None
                },
        ),
        norms,
    }
}

/// The host can evaluate the next node to what is assigned to it.
proof fn lemma_next<T: Scalar>(
    graph: Graph<T>,
    inputs: Option<Seq<Seq<T>>>,
    norms: Memory<T>,
    values: Seq<Seq<T>>,
    root: int,
    n: int,
)
    requires
        graph.wf(),
        0 <= n < graph.nodes@.len(),
        memoryless(graph.nodes@, root),
        solves(graph.nodes@, inputs, norms, values, root),
        reaches(graph.nodes@, root, n),
    ensures
        step(
            graph.nodes@,
            inputs,
            halfway(graph.nodes@, values, norms, root, n),
            n,
            halfway(graph.nodes@, values, norms, root, n + 1),
        ),
{
    let nodes = graph.nodes@;
    let before = halfway(nodes, values, norms, root, n);
    let after = halfway(nodes, values, norms, root, n + 1);
    let list = operands(nodes[n].op);
    assert(ordered(nodes, n));
    assert forall|k: int| 0 <= k < list.len() implies before.values[(#[trigger] list[k]) as int]
        == Some(values[list[k] as int]) && assigned(values, norms).values[list[k] as int] == Some(
        values[list[k] as int],
    ) by {
        let operand = list[k] as int;
        assert(reaches(nodes, operand, operand));
        lemma_reaches_operand(nodes, n, k, operand);
        lemma_reaches_transitive(nodes, root, n, operand);
    }
    lemma_computes(nodes, inputs, assigned(values, norms), before, n, values[n], norms);
    assert(ready(nodes, before.values, n));
    assert(after.values =~= before.values.update(n, after.values[n]));
}

proof fn lemma_runs_push<T: Scalar>(
    nodes: Seq<Node<T>>,
    inputs: Option<Seq<Seq<T>>>,
    start: Machine<T>,
    order: Seq<int>,
    before: Machine<T>,
    n: int,
    after: Machine<T>,
)
    requires
        runs(nodes, inputs, start, order, before),
        step(nodes, inputs, before, n, after),
    ensures
        runs(nodes, inputs, start, order.push(n), after),
{
    assert(order.push(n).drop_last() =~= order);
    assert(order.push(n).last() == n);
}

/// The host can come to an assignment that solves the equations.
proof fn lemma_halfway<T: Scalar>(
    graph: Graph<T>,
    inputs: Option<Seq<Seq<T>>>,
    norms: Memory<T>,
    values: Seq<Seq<T>>,
    root: int,
    n: int,
) -> (order: Seq<int>)
    requires
        graph.wf(),
        0 <= n <= graph.nodes@.len(),
        memoryless(graph.nodes@, root),
        solves(graph.nodes@, inputs, norms, values, root),
    ensures
        runs(
            graph.nodes@,
            inputs,
            Machine { values: blank(graph.nodes@.len()), norms },
            order,
            halfway(graph.nodes@, values, norms, root, n),
        ),
        forall|k: int| 0 <= k < order.len() ==> reaches(graph.nodes@, root, #[trigger] order[k]),
    decreases n,
{
    let nodes = graph.nodes@;
    let start = Machine { values: blank::<T>(nodes.len()), norms };
    let now = halfway(nodes, values, norms, root, n);
    if n == 0 {
        assert(now.values =~= start.values);
        Seq::empty()
    } else {
        let m = n - 1;
        let before = halfway(nodes, values, norms, root, m);
        let order = lemma_halfway(graph, inputs, norms, values, root, m);
        if reaches(nodes, root, m) {
            lemma_next(graph, inputs, norms, values, root, m);
            lemma_runs_push(nodes, inputs, start, order, before, m, now);
            order.push(m)
        } else {
            assert(now.values =~= before.values);
            order
        }
    }
}

/// Every solution of the equations of a node is what evaluating it can give.
pub proof fn solutions_are_values<T: Scalar>(
    graph: Graph<T>,
    inputs: Option<Seq<Seq<T>>>,
    norms: Memory<T>,
    values: Seq<Seq<T>>,
    root: int,
)
    requires
        graph.wf(),
        0 <= root < graph.nodes@.len(),
        memoryless(graph.nodes@, root),
        solves(graph.nodes@, inputs, norms, values, root),
    ensures
        valued(graph.nodes@, inputs, norms, root, values[root], norms),
{
    let nodes = graph.nodes@;
    let start = Machine { values: blank::<T>(nodes.len()), norms };
    let order = lemma_halfway(graph, inputs, norms, values, root, root + 1);
    let end = halfway(nodes, values, norms, root, root + 1);
    assert(evaluates(nodes, inputs, start, root, end));
    assert(end.values[root] == Some(values[root]));
}

/// The values of a machine are those that the operations give on them.
pub open spec fn consistent<T: Scalar>(
    nodes: Seq<Node<T>>,
    inputs: Option<Seq<Seq<T>>>,
    machine: Machine<T>,
) -> bool {
    &&& machine.values.len() == nodes.len()
    &&& forall|i: int|
        0 <= i < nodes.len() && (#[trigger] machine.values[i]) is Some ==> {
            &&& ready(nodes, machine.values, i)
            &&& computes(nodes, inputs, machine, i, machine.values[i]->Some_0, machine.norms)
        }
}

/// One step keeps a machine consistent.
pub proof fn lemma_step_consistent<T: Scalar>(
    graph: Graph<T>,
    inputs: Option<Seq<Seq<T>>>,
    before: Machine<T>,
    n: int,
    after: Machine<T>,
)
    requires
        graph.wf(),
        consistent(graph.nodes@, inputs, before),
        step(graph.nodes@, inputs, before, n, after),
        !(graph.nodes@[n].op is BatchNorm2d),
        forall|i: int|
            0 <= i < graph.nodes@.len() && (#[trigger] before.values[i]) is Some ==> !(
            graph.nodes@[i].op is BatchNorm2d),
    ensures
        consistent(graph.nodes@, inputs, after),
        after.norms == before.norms,
{
    let nodes = graph.nodes@;
    assert(ordered(nodes, n));
    assert(after.norms == before.norms) by {
        match nodes[n].op {
            Op::BatchNorm2d { .. } => {},
            _ => {},
        }
    }
    assert forall|i: int| 0 <= i < nodes.len() && (#[trigger] after.values[i]) is Some implies {
        &&& ready(nodes, after.values, i)
        &&& computes(nodes, inputs, after, i, after.values[i]->Some_0, after.norms)
    } by {
        assert(ordered(nodes, i));
        if i != n {
            assert(before.values[i] == after.values[i]);
        }
        let list = operands(nodes[i].op);
        assert(ready(nodes, before.values, i));
        assert forall|k: int| 0 <= k < list.len() implies before.values[(
        #[trigger] list[k]) as int] == after.values[list[k] as int] by {
            assert(before.values[list[k] as int] is Some);
        }
        lemma_computes(nodes, inputs, before, after, i, after.values[i]->Some_0, after.norms);
    }
}

/// A run from nothing to a machine leaves it consistent.
proof fn lemma_runs_consistent<T: Scalar>(
    graph: Graph<T>,
    inputs: Option<Seq<Seq<T>>>,
    norms: Memory<T>,
    order: Seq<int>,
    after: Machine<T>,
    root: int,
)
    requires
        graph.wf(),
        memoryless(graph.nodes@, root),
        runs(
            graph.nodes@,
            inputs,
            Machine { values: blank(graph.nodes@.len()), norms },
            order,
            after,
        ),
        forall|k: int| 0 <= k < order.len() ==> reaches(graph.nodes@, root, #[trigger] order[k]),
    ensures
        consistent(graph.nodes@, inputs, after),
        after.norms == norms,
        forall|i: int|
            0 <= i < graph.nodes@.len() && (#[trigger] after.values[i]) is Some ==> reaches(
                graph.nodes@,
                root,
                i,
            ),
    decreases order.len(),
{
    let nodes = graph.nodes@;
    let start = Machine { values: blank::<T>(nodes.len()), norms };
    if order.len() > 0 {
        let middle = choose|middle: Machine<T>|
            {
                &&& runs(nodes, inputs, start, order.drop_last(), middle)
                &&& #[trigger] step(nodes, inputs, middle, order.last(), after)
            };
        assert forall|k: int| 0 <= k < order.drop_last().len() implies reaches(
            nodes,
            root,
            #[trigger] order.drop_last()[k],
        ) by {
            assert(order.drop_last()[k] == order[k]);
        }
        lemma_runs_consistent(graph, inputs, norms, order.drop_last(), middle, root);
        let n = order.last();
        assert(n == order[order.len() - 1]);
        lemma_step_consistent(graph, inputs, middle, n, after);
        assert forall|i: int| 0 <= i < nodes.len() && (#[trigger] after.values[i]) is Some implies
            reaches(nodes, root, i) by {
            if i != n {
                assert(middle.values[i] == after.values[i]);
            }
        }
    }
}

/// Where a node has a value, so has all that it is computed from.
proof fn lemma_reached_ready<T: Scalar>(
    graph: Graph<T>,
    inputs: Option<Seq<Seq<T>>>,
    machine: Machine<T>,
    node: int,
    target: int,
)
    requires
        graph.wf(),
        0 <= node < graph.nodes@.len(),
        consistent(graph.nodes@, inputs, machine),
        machine.values[node] is Some,
        reaches(graph.nodes@, node, target),
    ensures
        0 <= target < graph.nodes@.len(),
        machine.values[target] is Some,
    decreases node,
{
    let nodes = graph.nodes@;
    if node != target {
        let k = choose|k: int|
            {
                let operand = #[trigger] operands(nodes[node].op)[k];
                &&& 0 <= k < operands(nodes[node].op).len()
                &&& 0 <= operand < node
                &&& reaches(nodes, operand as int, target)
            };
        let operand = operands(nodes[node].op)[k];
        assert(ready(nodes, machine.values, node));
        assert(machine.values[operand as int] is Some);
        lemma_reached_ready(graph, inputs, machine, operand as int, target);
    }
}

/// What evaluating a node gives solves its equations.
pub proof fn values_are_solutions<T: Scalar>(
    graph: Graph<T>,
    inputs: Option<Seq<Seq<T>>>,
    before: Memory<T>,
    root: int,
    value: Seq<T>,
    after: Memory<T>,
) -> (values: Seq<Seq<T>>)
    requires
        graph.wf(),
        0 <= root < graph.nodes@.len(),
        memoryless(graph.nodes@, root),
        valued(graph.nodes@, inputs, before, root, value, after),
    ensures
        after == before,
        solves(graph.nodes@, inputs, before, values, root),
        values[root] == value,
{
    let nodes = graph.nodes@;
    let start = Machine { values: blank::<T>(nodes.len()), norms: before };
    let end = choose|end: Machine<T>|
        {
            &&& #[trigger] evaluates(nodes, inputs, start, root, end)
            &&& end.values[root] == Some(value)
            &&& end.norms == after
        };
    let order = choose|order: Seq<int>|
        {
            &&& #[trigger] runs(nodes, inputs, start, order, end)
            &&& forall|k: int| 0 <= k < order.len() ==> reaches(nodes, root, #[trigger] order[k])
        };
    lemma_runs_consistent(graph, inputs, before, order, end, root);
    let values = Seq::new(nodes.len(), |i: int| end.values[i]->Some_0);
    assert forall|i: int| #[trigger] reaches(nodes, root, i) implies computes(
        nodes,
        inputs,
        assigned(values, before),
        i,
        values[i],
        before,
    ) by {
        lemma_reached_ready(graph, inputs, end, root, i);
        assert(ordered(nodes, i));
        let list = operands(nodes[i].op);
        assert(ready(nodes, end.values, i));
        assert forall|k: int| 0 <= k < list.len() implies end.values[(#[trigger] list[k]) as int]
            == assigned(values, before).values[list[k] as int] by {
            assert(end.values[list[k] as int] is Some);
        }
        lemma_computes(nodes, inputs, end, assigned(values, before), i, values[i], before);
    }
    values
}

/// The machine without the value of a node.
spec fn without<T>(machine: Machine<T>, node: int) -> Machine<T> {
    Machine { values: machine.values.update(node, None), norms: machine.norms }
}

/// Nothing that a reshape is computed from needs the reshape: a run does the same without
/// it.
proof fn lemma_runs_without<T: Scalar>(
    nodes: Seq<Node<T>>,
    inputs: Option<Seq<Seq<T>>>,
    before: Machine<T>,
    order: Seq<int>,
    reshaped: int,
    after: Machine<T>,
) -> (rest: Seq<int>)
    requires
        forall|i: int| 0 <= i < nodes.len() ==> #[trigger] ordered(nodes, i),
        0 <= reshaped < nodes.len() == before.values.len(),
        nodes[reshaped].op is Reshape,
        before.values[reshaped] is None,
        runs(nodes, inputs, before, order, after),
        forall|k: int| 0 <= k < order.len() ==> reaches(nodes, reshaped, #[trigger] order[k]),
    ensures
        after.values.len() == nodes.len(),
        runs(nodes, inputs, before, rest, without(after, reshaped)),
        forall|k: int|
            0 <= k < rest.len() ==> reaches(nodes, reshaped, #[trigger] rest[k]) && rest[k]
                != reshaped,
        after.values[reshaped] is Some ==> after.values[nodes[reshaped].op->Reshape_0 as int]
            == after.values[reshaped],
    decreases order.len(),
{
    if order.len() == 0 {
        assert(without(after, reshaped).values =~= before.values);
        order
    } else {
        let middle = choose|middle: Machine<T>|
            {
                &&& runs(nodes, inputs, before, order.drop_last(), middle)
                &&& #[trigger] step(nodes, inputs, middle, order.last(), after)
            };
        assert forall|k: int| 0 <= k < order.drop_last().len() implies reaches(
            nodes,
            reshaped,
            #[trigger] order.drop_last()[k],
        ) by {
            assert(order[k] == order.drop_last()[k]);
        }
        let rest = lemma_runs_without(
            nodes,
            inputs,
            before,
            order.drop_last(),
            reshaped,
            middle,
        );
        let i = order.last();
        assert(reaches(nodes, reshaped, order[order.len() - 1]));
        crate::graph::lemma_reaches_below(nodes, reshaped, i);
        assert(ordered(nodes, reshaped));
        assert(operands(nodes[reshaped].op)[0] == nodes[reshaped].op->Reshape_0);
        assert(ordered(nodes, i));
        if i == reshaped {
            assert(without(after, reshaped).values =~= without(middle, reshaped).values);
            rest
        } else {
            let (a, b) = (without(middle, reshaped), without(after, reshaped));
            let list = operands(nodes[i].op);
            assert forall|k: int| 0 <= k < list.len() implies middle.values[(
            #[trigger] list[k]) as int] == a.values[list[k] as int] by {
                let operand = operands(nodes[i].op)[k];
                assert(operand < i);
            }
            lemma_computes(nodes, inputs, middle, a, i, after.values[i]->Some_0, after.norms);
            assert(ready(nodes, a.values, i));
            assert(b.values =~= a.values.update(i, b.values[i]));
            assert(step(nodes, inputs, a, i, b));
            lemma_runs_push(nodes, inputs, before, rest, a, i, b);
            rest.push(i)
        }
    }
}

/// A reshaped tensor has the values of its operand, and leaves in the memory of batch
/// normalizations what its operand leaves.
pub proof fn reshapes_keep_values<T: Scalar>(
    graph: Graph<T>,
    inputs: Option<Seq<Seq<T>>>,
    before: Memory<T>,
    reshaped: int,
    value: Seq<T>,
    after: Memory<T>,
)
    requires
        graph.wf(),
        0 <= reshaped < graph.nodes@.len(),
        graph.nodes@[reshaped].op is Reshape,
    ensures
        valued(graph.nodes@, inputs, before, reshaped, value, after) == valued(
            graph.nodes@,
            inputs,
            before,
            graph.nodes@[reshaped].op->Reshape_0 as int,
            value,
            after,
        ),
{
    let nodes = graph.nodes@;
    let operand = nodes[reshaped].op->Reshape_0 as int;
    let start = Machine { values: blank::<T>(nodes.len()), norms: before };
    assert(ordered(nodes, reshaped));
    assert(operands(nodes[reshaped].op) =~= seq![operand as usize]);
    assert(operands(nodes[reshaped].op)[0] == operand);
    if valued(nodes, inputs, before, reshaped, value, after) {
        let end = choose|end: Machine<T>|
            {
                &&& #[trigger] evaluates(nodes, inputs, start, reshaped, end)
                &&& end.values[reshaped] == Some(value)
                &&& end.norms == after
            };
        let order = choose|order: Seq<int>|
            {
                &&& #[trigger] runs(nodes, inputs, start, order, end)
                &&& forall|k: int|
                    0 <= k < order.len() ==> reaches(nodes, reshaped, #[trigger] order[k])
            };
        let rest = lemma_runs_without(nodes, inputs, start, order, reshaped, end);
        assert forall|k: int| 0 <= k < rest.len() implies reaches(
            nodes,
            operand,
            #[trigger] rest[k],
        ) by {
            let i = rest[k];
            assert(reaches(nodes, reshaped, i) && i != reshaped);
            let l = choose|l: int|
                {
                    let operand = #[trigger] operands(nodes[reshaped].op)[l];
                    &&& 0 <= l < operands(nodes[reshaped].op).len()
                    &&& 0 <= operand < reshaped
                    &&& reaches(nodes, operand as int, i)
                };
            assert(l == 0);
        }
        assert(evaluates(nodes, inputs, start, operand, without(end, reshaped)));
        assert(without(end, reshaped).values[operand] == Some(value));
        assert(valued(nodes, inputs, before, operand, value, after));
    }
    if valued(nodes, inputs, before, operand, value, after) {
        let end = choose|end: Machine<T>|
            {
                &&& #[trigger] evaluates(nodes, inputs, start, operand, end)
                &&& end.values[operand] == Some(value)
                &&& end.norms == after
            };
        lemma_evaluates_keeps(nodes, inputs, start, operand, end);
        if end.values[reshaped] is Some {
            crate::graph::lemma_reaches_below(nodes, operand, reshaped);
        }
        let last = Machine {
            values: end.values.update(reshaped, Some(value)),
            norms: end.norms,
        };
        assert(ready(nodes, end.values, reshaped));
        assert(step(nodes, inputs, end, reshaped, last));
        lemma_evaluates_nothing(nodes, inputs, start, reshaped);
        lemma_evaluates_operand(nodes, inputs, start, start, end, reshaped, 0);
        lemma_evaluates_step(nodes, inputs, start, end, last, reshaped);
        assert(evaluates(nodes, inputs, start, reshaped, last));
        assert(valued(nodes, inputs, before, reshaped, value, after));
    }
}

/// A tensor that is reshaped and reshaped back has its first values again.
pub proof fn reshapes_come_back<T: Scalar>(
    graph: Graph<T>,
    inputs: Option<Seq<Seq<T>>>,
    before: Memory<T>,
    tensor: Tensor,
    away: Tensor,
    back: Tensor,
    value: Seq<T>,
    after: Memory<T>,
)
    requires
        graph.wf(),
        graph.has(tensor),
        graph.has(away),
        graph.has(back),
        graph.nodes@[away.id as int].op == Op::<T>::Reshape(tensor.id),
        graph.nodes@[back.id as int].op == Op::<T>::Reshape(away.id),
    ensures
        valued(graph.nodes@, inputs, before, back.id as int, value, after) == valued(
            graph.nodes@,
            inputs,
            before,
            tensor.id as int,
            value,
            after,
        ),
        crate::shape::numel(back.shape@) == crate::shape::numel(tensor.shape@),
{
    let nodes = graph.nodes@;
    assert(ordered(nodes, back.id as int));
    assert(crate::graph::shaped(nodes, graph.norms@, back.id as int));
    assert(crate::graph::shaped(nodes, graph.norms@, away.id as int));
    reshapes_keep_values(graph, inputs, before, back.id as int, value, after);
    reshapes_keep_values(graph, inputs, before, away.id as int, value, after);
}

} // verus!

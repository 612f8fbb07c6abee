//! What copies of a graph compute: what the graph does.
//!
//! What is said here of values is said of nodes that no batch normalization takes part in:
//! the copy of one starts without the statistics that the first may have.

use crate::backward::{differentiates, differentiation_repeats};
use crate::copy::{anew, copies, copies_anew, identifiers, twin, twinned};
use crate::determined::{determined, plans_agree};
use crate::eval::{computes, valued};
use crate::graph::{
    lemma_reaches_below, lemma_reaches_operand, lemma_reaches_transitive, operands, ordered,
    reaches, shaped, Device, Graph, Memory, Node, Op,
};
use crate::jit::{inputs_valued, plan_valued, JitModule};
use crate::meaning::{assigned, memoryless, solutions_are_values, solves, values_are_solutions};
use crate::scalar::Scalar;
use crate::tensor::Tensor;
use vstd::prelude::*;

verus! {

/// The twin of what a node is computed from is what its twin is computed from.
proof fn lemma_twin_reaches<T>(
    graph: Graph<T>,
    inputs: Option<Seq<usize>>,
    device: Device,
    twins: Seq<usize>,
    root: int,
    node: int,
    target: int,
)
    requires
        graph.wf(),
        0 <= root < graph.nodes@.len(),
        twinned(graph.nodes@, inputs, device, twins, root),
        reaches(graph.nodes@, root, node),
        reaches(graph.nodes@, node, target),
    ensures
        reaches(graph.nodes@, twins[node] as int, twins[target] as int),
    decreases node,
{
    let nodes = graph.nodes@;
    if node != target {
        lemma_reaches_below(nodes, root, node);
        let k = choose|k: int|
            {
                let operand = #[trigger] operands(nodes[node].op)[k];
                &&& 0 <= k < operands(nodes[node].op).len()
                &&& 0 <= operand < node
                &&& reaches(nodes, operand as int, target)
            };
        let operand = operands(nodes[node].op)[k] as int;
        assert(reaches(nodes, operand, operand));
        lemma_reaches_operand(nodes, node, k, operand);
        lemma_reaches_transitive(nodes, root, node, operand);
        lemma_twin_reaches(graph, inputs, device, twins, root, operand, target);
        let other = twins[node] as int;
        assert(twin(nodes, inputs, device, twins, node));
        assert(ordered(nodes, other));
        assert(operands(nodes[other].op)[k] == twins[operand]);
        lemma_reaches_operand(nodes, other, k, twins[target] as int);
    }
}

/// The placeholder of an input takes part.
pub open spec fn used<T>(nodes: Seq<Node<T>>, root: int, slot: int) -> bool {
    exists|i: int| #[trigger]
        reaches(nodes, root, i) && nodes[i].op is Placeholder && nodes[i].op->Placeholder_0 == slot
}

/// An operation gives on some values what its twin gives on them.
proof fn lemma_twin_computes<T: Scalar>(
    graph: Graph<T>,
    given: Option<Seq<Seq<T>>>,
    fed: Option<Seq<Seq<T>>>,
    inputs: Option<Seq<usize>>,
    device: Device,
    twins: Seq<usize>,
    values: Seq<Seq<T>>,
    norms: Memory<T>,
    i: int,
)
    requires
        graph.wf(),
        0 <= i < graph.nodes@.len() == values.len(),
        twin(graph.nodes@, inputs, device, twins, i),
        forall|k: int|
            0 <= k < operands(graph.nodes@[i].op).len() ==> twin(
                graph.nodes@,
                inputs,
                device,
                twins,
                (#[trigger] operands(graph.nodes@[i].op)[k]) as int,
            ),
        !(graph.nodes@[twins[i] as int].op is BatchNorm2d),
        !(graph.nodes@[i].op is BatchNorm2d),
        computes(
            graph.nodes@,
            given,
            assigned(values, norms),
            twins[i] as int,
            values[twins[i] as int],
            norms,
        ),
        graph.nodes@[i].op is Placeholder ==> match inputs {
            None => fed == given,
            Some(_) => fed is Some && graph.nodes@[i].op->Placeholder_0 < fed->Some_0.len()
                && fed->Some_0[graph.nodes@[i].op->Placeholder_0 as int]
                == values[twins[i] as int],
        },
    ensures
        computes(
            graph.nodes@,
            fed,
            assigned(carried(twins, values), norms),
            i,
            carried(twins, values)[i],
            norms,
        ),
{
    let nodes = graph.nodes@;
    let j = twins[i] as int;
    let list = operands(nodes[i].op);
    let others = operands(nodes[j].op);
    let source = carried(twins, values);
    assert(ordered(nodes, i));
    assert(ordered(nodes, j));
    if !(nodes[i].op is Placeholder) {
        assert forall|k: int| 0 <= k < list.len() implies {
            &&& assigned(source, norms).values[(#[trigger] list[k]) as int] == assigned(
                values,
                norms,
            ).values[others[k] as int]
            &&& nodes[list[k] as int].shape@ == nodes[others[k] as int].shape@
        } by {
            let operand = operands(nodes[i].op)[k];
            assert(operand < i);
            assert(twin(nodes, inputs, device, twins, operand as int));
            let other = operands(nodes[j].op)[k];
            assert(other < j);
        }
        match (nodes[i].op, nodes[j].op) {
            (Op::Add(a, b), Op::Add(c, d)) => {
                assert(list[0] == a && list[1] == b && others[0] == c && others[1] == d);
            },
            (Op::Mul(a, b), Op::Mul(c, d)) => {
                assert(list[0] == a && list[1] == b && others[0] == c && others[1] == d);
            },
            (Op::Relu(a), Op::Relu(c)) => {
                assert(list[0] == a && others[0] == c);
            },
            (Op::MatMul(a, b), Op::MatMul(c, d)) => {
                assert(list[0] == a && list[1] == b && others[0] == c && others[1] == d);
            },
            (
                Op::Conv2d { input: a, weight: b, bias: c, .. },
                Op::Conv2d { input, weight, bias, .. },
            ) => {
                assert(list[0] == a && list[1] == b && list[2] == c);
                assert(others[0] == input && others[1] == weight && others[2] == bias);
            },
            (Op::AvgPool2d { input: a, .. }, Op::AvgPool2d { input, .. }) => {
                assert(list[0] == a && others[0] == input);
            },
            (Op::Reshape(a), Op::Reshape(c)) => {
                assert(list[0] == a && others[0] == c);
            },
            (
                Op::CrossEntropy { logits: a, targets: b },
                Op::CrossEntropy { logits, targets },
            ) => {
                assert(list[0] == a && list[1] == b && others[0] == logits && others[1]
                    == targets);
            },
            _ => {},
        }
    }
}

/// The values of the twins.
pub open spec fn carried<T>(twins: Seq<usize>, values: Seq<Seq<T>>) -> Seq<Seq<T>> {
    Seq::new(values.len(), |i: int| values[twins[i] as int])
}

/// A solution of the equations of a copy solves those of what was copied.
proof fn lemma_twin_solves<T: Scalar>(
    graph: Graph<T>,
    given: Option<Seq<Seq<T>>>,
    fed: Option<Seq<Seq<T>>>,
    inputs: Option<Seq<usize>>,
    device: Device,
    twins: Seq<usize>,
    values: Seq<Seq<T>>,
    norms: Memory<T>,
    root: int,
)
    requires
        graph.wf(),
        0 <= root < graph.nodes@.len(),
        twinned(graph.nodes@, inputs, device, twins, root),
        memoryless(graph.nodes@, twins[root] as int),
        solves(graph.nodes@, given, norms, values, twins[root] as int),
        match inputs {
            None => fed == given,
            Some(ids) => {
                &&& fed is Some && fed->Some_0.len() == ids.len()
                &&& forall|slot: int|
                    0 <= slot < ids.len() && used(graph.nodes@, root, slot) ==> #[trigger]
                    fed->Some_0[slot] == values[ids[slot] as int]
            },
        },
    ensures
        memoryless(graph.nodes@, root),
        solves(graph.nodes@, fed, norms, carried(twins, values), root),
{
    let nodes = graph.nodes@;
    assert(reaches(nodes, root, root));
    assert forall|i: int| #[trigger] reaches(nodes, root, i) implies {
        &&& !(nodes[i].op is BatchNorm2d)
        &&& computes(
            nodes,
            fed,
            assigned(carried(twins, values), norms),
            i,
            carried(twins, values)[i],
            norms,
        )
    } by {
        lemma_reaches_below(nodes, root, i);
        lemma_twin_reaches(graph, inputs, device, twins, root, root, i);
        assert(twin(nodes, inputs, device, twins, i));
        assert(ordered(nodes, i));
        let list = operands(nodes[i].op);
        assert forall|k: int| 0 <= k < list.len() implies twin(
            nodes,
            inputs,
            device,
            twins,
            (#[trigger] list[k]) as int,
        ) by {
            let operand = operands(nodes[i].op)[k] as int;
            assert(operand < i);
            assert(reaches(nodes, operand, operand));
            lemma_reaches_operand(nodes, i, k, operand);
            lemma_reaches_transitive(nodes, root, i, operand);
        }
        if nodes[i].op is Placeholder && inputs is Some {
            let slot = nodes[i].op->Placeholder_0 as int;
            assert(used(nodes, root, slot));
            assert(fed->Some_0[slot] == values[inputs->Some_0[slot] as int]);
        }
        lemma_twin_computes(graph, given, fed, inputs, device, twins, values, norms, i);
    }
}

/// What a copy of a node computes is what the node computes.
pub proof fn copies_compute_the_same<T: Scalar>(
    graph: Graph<T>,
    given: Option<Seq<Seq<T>>>,
    before: Memory<T>,
    device: Device,
    node: int,
    copy: int,
    value: Seq<T>,
    after: Memory<T>,
)
    requires
        graph.wf(),
        0 <= node < graph.nodes@.len(),
        copies(graph.nodes@, None, device, node, copy),
        memoryless(graph.nodes@, copy),
        valued(graph.nodes@, given, before, copy, value, after),
    ensures
        valued(graph.nodes@, given, before, node, value, after),
{
    let nodes = graph.nodes@;
    let twins = choose|twins: Seq<usize>|
        #[trigger] twinned(nodes, None, device, twins, node) && twins[node] == copy;
    assert(reaches(nodes, node, node));
    assert(twin(nodes, None, device, twins, node));
    let values = values_are_solutions(graph, given, before, copy, value, after);
    lemma_twin_solves(graph, given, given, None, device, twins, values, before, node);
    solutions_are_values(graph, given, before, carried(twins, values), node);
}

/// What a copy with inputs in place of placeholders computes is what the node computes on
/// values of those inputs.  An input that takes no part may have any value.
pub proof fn bound_copies_compute_on_the_inputs<T: Scalar>(
    graph: Graph<T>,
    given: Option<Seq<Seq<T>>>,
    before: Memory<T>,
    inputs: Seq<usize>,
    device: Device,
    node: int,
    copy: int,
    value: Seq<T>,
    after: Memory<T>,
    any: Seq<Seq<T>>,
) -> (fed: Seq<Seq<T>>)
    requires
        graph.wf(),
        0 <= node < graph.nodes@.len(),
        copies(graph.nodes@, Some(inputs), device, node, copy),
        memoryless(graph.nodes@, copy),
        valued(graph.nodes@, given, before, copy, value, after),
        any.len() == inputs.len(),
    ensures
        fed.len() == inputs.len(),
        forall|slot: int|
            0 <= slot < inputs.len() && used(graph.nodes@, node, slot) ==> valued(
                graph.nodes@,
                given,
                before,
                inputs[slot] as int,
                #[trigger] fed[slot],
                before,
            ),
        forall|slot: int|
            0 <= slot < inputs.len() && !used(graph.nodes@, node, slot) ==> #[trigger] fed[slot]
                == any[slot],
        after == before,
        valued(graph.nodes@, Some(fed), before, node, value, after),
{
    let nodes = graph.nodes@;
    let supply = Some(inputs);
    let twins = choose|twins: Seq<usize>|
        #[trigger] twinned(nodes, supply, device, twins, node) && twins[node] == copy;
    assert(reaches(nodes, node, node));
    assert(twin(nodes, supply, device, twins, node));
    let values = values_are_solutions(graph, given, before, copy, value, after);
    let fed = Seq::new(
        inputs.len(),
        |slot: int|
            if used(nodes, node, slot) {
                values[inputs[slot] as int]
            } else {
                any[slot]
            },
    );
    assert forall|slot: int| 0 <= slot < inputs.len() && used(nodes, node, slot) implies valued(
        nodes,
        given,
        before,
        inputs[slot] as int,
        #[trigger] fed[slot],
        before,
    ) by {
        let i = choose|i: int| #[trigger]
            reaches(nodes, node, i) && nodes[i].op is Placeholder && nodes[i].op->Placeholder_0 == slot;
        let input = inputs[slot] as int;
        assert(twin(nodes, supply, device, twins, i));
        assert(twins[i] == input);
        lemma_twin_reaches(graph, supply, device, twins, node, node, i);
        assert forall|n: int| #[trigger] reaches(nodes, input, n) implies reaches(
            nodes,
            copy,
            n,
        ) by {
            lemma_reaches_transitive(nodes, copy, input, n);
        }
        solutions_are_values(graph, given, before, values, input);
    }
    lemma_twin_solves(graph, given, Some(fed), supply, device, twins, values, before, node);
    solutions_are_values(graph, Some(fed), before, carried(twins, values), node);
    fed
}

/// Tensors that each have a value are evaluated to them one after the other.
proof fn lemma_inputs_valued<T: Scalar>(
    nodes: Seq<Node<T>>,
    norms: Memory<T>,
    tensors: Seq<Tensor>,
    values: Seq<Seq<T>>,
)
    requires
        values.len() <= tensors.len(),
        forall|i: int|
            0 <= i < values.len() ==> valued(
                nodes,
                None,
                norms,
                tensors[i].id as int,
                #[trigger] values[i],
                norms,
            ),
    ensures
        inputs_valued(nodes, norms, tensors, values, norms),
    decreases values.len(),
{
    if values.len() > 0 {
        let fewer = values.drop_last();
        assert forall|i: int| 0 <= i < fewer.len() implies valued(
            nodes,
            None,
            norms,
            tensors[i].id as int,
            #[trigger] fewer[i],
            norms,
        ) by {
            assert(fewer[i] == values[i]);
        }
        lemma_inputs_valued(nodes, norms, tensors, fewer);
        let last = values.len() - 1;
        assert(values[last] == values.last());
    }
}

/// What a traced plan computes once it is bound to inputs is what running it on them
/// computes.  The inputs have values.
pub proof fn bound_plans_compute_what_plans_run<T: Scalar>(
    graph: Graph<T>,
    before: Memory<T>,
    plan: JitModule,
    inputs: Seq<Tensor>,
    bound: int,
    value: Seq<T>,
    after: Memory<T>,
    any: Seq<Seq<T>>,
)
    requires
        graph.wf(),
        graph.has(plan.graph),
        copies(
            graph.nodes@,
            Some(identifiers(inputs)),
            plan.device,
            plan.graph.id as int,
            bound,
        ),
        memoryless(graph.nodes@, bound),
        valued(graph.nodes@, None, before, bound, value, after),
        any.len() == inputs.len(),
        forall|i: int|
            0 <= i < inputs.len() ==> valued(
                graph.nodes@,
                None,
                before,
                inputs[i].id as int,
                #[trigger] any[i],
                before,
            ),
    ensures
        plan_valued(graph.nodes@, before, plan.graph.id as int, inputs, value, after),
{
    let nodes = graph.nodes@;
    let ids = identifiers(inputs);
    let root = plan.graph.id as int;
    let fed = bound_copies_compute_on_the_inputs(
        graph,
        None,
        before,
        ids,
        plan.device,
        root,
        bound,
        value,
        after,
        any,
    );
    assert forall|i: int| 0 <= i < fed.len() implies valued(
        nodes,
        None,
        before,
        inputs[i].id as int,
        #[trigger] fed[i],
        before,
    ) by {
        assert(ids[i] == inputs[i].id);
        if !used(nodes, root, i) {
            assert(fed[i] == any[i]);
        }
    }
    lemma_inputs_valued(nodes, before, inputs, fed);
}

/// Running a traced plan gives what the traced function gives on the inputs: `direct` is
/// the node that the function builds on them, a copy of the plan's graph with the inputs
/// in place of its placeholders.  This is stated where every operation has one result.
pub proof fn plans_run_what_was_traced<T: Scalar>(
    graph: Graph<T>,
    before: Memory<T>,
    plan: JitModule,
    inputs: Seq<Tensor>,
    direct: int,
    value: Seq<T>,
    after: Memory<T>,
    supplied: Seq<Seq<T>>,
    run: Seq<T>,
    memory: Memory<T>,
)
    requires
        graph.wf(),
        graph.has(plan.graph),
        copies(
            graph.nodes@,
            Some(identifiers(inputs)),
            plan.device,
            plan.graph.id as int,
            direct,
        ),
        memoryless(graph.nodes@, direct),
        valued(graph.nodes@, None, before, direct, value, after),
        supplied.len() == inputs.len(),
        forall|i: int|
            0 <= i < inputs.len() ==> valued(
                graph.nodes@,
                None,
                before,
                inputs[i].id as int,
                #[trigger] supplied[i],
                before,
            ),
        determined::<T>(),
        forall|i: int|
            0 <= i < inputs.len() ==> (#[trigger] inputs[i]).id < graph.nodes@.len()
                && memoryless(graph.nodes@, inputs[i].id as int),
        plan_valued(graph.nodes@, before, plan.graph.id as int, inputs, run, memory),
    ensures
        run == value,
{
    bound_plans_compute_what_plans_run(
        graph,
        before,
        plan,
        inputs,
        direct,
        value,
        after,
        supplied,
    );
    let nodes = graph.nodes@;
    let ids = Some(identifiers(inputs));
    let root = plan.graph.id as int;
    let twins = choose|twins: Seq<usize>|
        #[trigger] twinned(nodes, ids, plan.device, twins, root) && twins[root] == direct;
    assert(reaches(nodes, root, root));
    assert forall|i: int| #[trigger] reaches(nodes, root, i) implies !(
    nodes[i].op is BatchNorm2d) by {
        lemma_twin_reaches(graph, ids, plan.device, twins, root, root, i);
        assert(twin(nodes, ids, plan.device, twins, i));
    }
    plans_agree(graph, before, root, inputs, run, memory, value, after);
}

/// What the twin of a node is computed from are twins of what the node is computed from.
proof fn lemma_source<T>(
    graph: Graph<T>,
    device: Device,
    twins: Seq<usize>,
    root: int,
    node: int,
    target: int,
) -> (source: int)
    requires
        graph.wf(),
        0 <= root < graph.nodes@.len(),
        twinned(graph.nodes@, None, device, twins, root),
        reaches(graph.nodes@, root, node),
        reaches(graph.nodes@, twins[node] as int, target),
    ensures
        reaches(graph.nodes@, root, source),
        twins[source] == target,
    decreases node,
{
    let nodes = graph.nodes@;
    let other = twins[node] as int;
    lemma_reaches_below(nodes, root, node);
    assert(twin(nodes, None, device, twins, node));
    assert(ordered(nodes, node));
    if other == target {
        node
    } else {
        let k = choose|k: int|
            {
                let operand = #[trigger] operands(nodes[other].op)[k];
                &&& 0 <= k < operands(nodes[other].op).len()
                &&& 0 <= operand < other
                &&& reaches(nodes, operand as int, target)
            };
        let operand = operands(nodes[node].op)[k] as int;
        assert(operand < node);
        assert(reaches(nodes, operand, operand));
        lemma_reaches_operand(nodes, node, k, operand);
        lemma_reaches_transitive(nodes, root, node, operand);
        lemma_source(graph, device, twins, root, operand, target)
    }
}

/// The batch normalizations of a new copy have no statistics yet: they settle them at their
/// first evaluation, whatever those that they are copies of have settled.
pub proof fn copied_normalizations_start_afresh<T: Scalar>(
    before: Graph<T>,
    after: Graph<T>,
    device: Device,
    node: int,
    copy: int,
    i: int,
)
    requires
        after.wf(),
        after.extends(before),
        0 <= node < before.nodes@.len(),
        copies_anew(before, after, None, device, node, copy),
        reaches(after.nodes@, copy, i),
        after.nodes@[i].op is BatchNorm2d,
    ensures
        after.norms@.saved[after.nodes@[i].op->statistics as int] is None,
{
    let nodes = after.nodes@;
    let twins = choose|twins: Seq<usize>|
        {
            &&& #[trigger] twinned(nodes, None, device, twins, node)
            &&& twins[node] == copy
            &&& anew(before, nodes, None, twins, node)
        };
    assert(reaches(nodes, node, node));
    assert(twin(nodes, None, device, twins, node));
    let source = lemma_source(after, device, twins, node, node, i);
    lemma_reaches_below(nodes, copy, i);
    assert(shaped(nodes, after.norms@, i));
}

/// A new copy is computed from new nodes alone: a differentiation of the copy leaves every
/// gradient that the graph had before the copy was made.
pub proof fn differentiated_copies_leave_the_first<T: Scalar>(
    before: Graph<T>,
    after: Graph<T>,
    device: Device,
    node: int,
    copy: int,
    memory: Memory<T>,
    grads: Seq<Option<Seq<T>>>,
    later: Memory<T>,
    new_grads: Seq<Option<Seq<T>>>,
)
    requires
        after.wf(),
        0 <= node < before.nodes@.len() <= after.nodes@.len(),
        copies_anew(before, after, None, device, node, copy),
        grads.len() == after.nodes@.len(),
        differentiates(after.nodes@, memory, grads, copy, later, new_grads),
    ensures
        forall|i: int| #[trigger]
            reaches(after.nodes@, copy, i) ==> i >= before.nodes@.len(),
        forall|i: int| 0 <= i < before.nodes@.len() ==> #[trigger] new_grads[i] == grads[i],
{
    let nodes = after.nodes@;
    let twins = choose|twins: Seq<usize>|
        {
            &&& #[trigger] twinned(nodes, None, device, twins, node)
            &&& twins[node] == copy
            &&& anew(before, nodes, None, twins, node)
        };
    assert(reaches(nodes, node, node));
    assert(twin(nodes, None, device, twins, node));
    differentiation_repeats(after, memory, grads, copy, later, new_grads);
    assert forall|i: int| #[trigger] reaches(nodes, copy, i) implies i
        >= before.nodes@.len() by {
        let source = lemma_source(after, device, twins, node, node, i);
    }
}

/// A copy of a copy is a copy: what was moved to a device and back is a copy on the host
/// of what was there first.
pub proof fn copies_of_copies_are_copies<T>(
    graph: Graph<T>,
    there: Device,
    back: Device,
    node: int,
    moved: int,
    returned: int,
)
    requires
        graph.wf(),
        0 <= node < graph.nodes@.len(),
        copies(graph.nodes@, None, there, node, moved),
        copies(graph.nodes@, None, back, moved, returned),
    ensures
        copies(graph.nodes@, None, back, node, returned),
{
    let nodes = graph.nodes@;
    let first = choose|twins: Seq<usize>|
        #[trigger] twinned(nodes, None, there, twins, node) && twins[node] == moved;
    let second = choose|twins: Seq<usize>|
        #[trigger] twinned(nodes, None, back, twins, moved) && twins[moved] == returned;
    let twins = Seq::new(nodes.len(), |i: int| second[first[i] as int]);
    assert(reaches(nodes, node, node));
    assert forall|i: int| #[trigger] reaches(nodes, node, i) implies twin(
        nodes,
        None,
        back,
        twins,
        i,
    ) by {
        lemma_reaches_below(nodes, node, i);
        lemma_twin_reaches(graph, None, there, first, node, node, i);
        assert(twin(nodes, None, there, first, i));
        let j = first[i] as int;
        assert(twin(nodes, None, back, second, j));
        assert(ordered(nodes, i));
        let list = operands(nodes[i].op);
        let l = second[j] as int;
        assert forall|k: int| 0 <= k < list.len() implies operands(nodes[l].op)[k] == twins[(
        #[trigger] list[k]) as int] by {
            let operand = operands(nodes[i].op)[k];
            assert(operand < i);
            assert(operands(nodes[j].op)[k] == first[operand as int]);
            assert(operands(nodes[l].op)[k] == second[operands(nodes[j].op)[k] as int]);
        }
    }
    assert(twinned(nodes, None, back, twins, node) && twins[node] == returned);
}

} // verus!

//! Copies of a graph: on another device, or with inputs in place of placeholders.

use crate::error::{Error, Failure, Result};
use crate::graph::{
    lemma_reaches_below, lemma_reaches_operand, lemma_reaches_prefix, operand_list, operands,
    ordered, reachable, reaches, shaped, sound, Device, Graph, Memory, Node, Op,
};
use crate::meaning::memoryless;
use crate::scalar::{copied, filled};
use crate::tensor::Tensor;
use crate::text::{decimal, owned, push_decimal};
use vstd::prelude::*;

verus! {

/// The operations do the same to their operands.  Batch normalizations share their
/// running statistics, not the statistics of their evaluations.
pub open spec fn alike<T>(a: Op<T>, b: Op<T>) -> bool {
    match (a, b) {
        (Op::Data(x), Op::Data(y)) => x@ == y@,
        (Op::Placeholder(x), Op::Placeholder(y)) => x == y,
        (Op::Add(_, _), Op::Add(_, _)) => true,
        (Op::Mul(_, _), Op::Mul(_, _)) => true,
        (Op::Relu(_), Op::Relu(_)) => true,
        (Op::MatMul(_, _), Op::MatMul(_, _)) => true,
        (
            Op::Conv2d { stride: s, padding: p, groups: g, .. },
            Op::Conv2d { stride, padding, groups, .. },
        ) => s == stride && p == padding && g == groups,
        (
            Op::AvgPool2d { kernel: k, stride: s, .. },
            Op::AvgPool2d { kernel, stride, .. },
        ) => k == kernel && s == stride,
        (Op::Reshape(_), Op::Reshape(_)) => true,
        (Op::CrossEntropy { .. }, Op::CrossEntropy { .. }) => true,
        (
            Op::BatchNorm2d { state: s, training: t, momentum: m, epsilon: e, .. },
            Op::BatchNorm2d { state, training, momentum, epsilon, .. },
        ) => s == state && t == training && m == momentum && e == epsilon,
        _ => false,
    }
}

/// The node `twins[i]` does on `device` what the node `i` does, on the twins of its
/// operands.  Where inputs are given, the input is the twin of a placeholder.
pub open spec fn twin<T>(
    nodes: Seq<Node<T>>,
    inputs: Option<Seq<usize>>,
    device: Device,
    twins: Seq<usize>,
    i: int,
) -> bool {
    let j = twins[i] as int;
    &&& 0 <= i < twins.len()
    &&& j < nodes.len()
    &&& nodes[j].shape@ == nodes[i].shape@
    &&& nodes[j].device == device
    &&& if nodes[i].op is Placeholder && inputs is Some {
        &&& nodes[i].op->Placeholder_0 < inputs->Some_0.len()
        &&& j == inputs->Some_0[nodes[i].op->Placeholder_0 as int]
    } else {
        &&& alike(nodes[i].op, nodes[j].op)
        &&& operands(nodes[j].op).len() == operands(nodes[i].op).len()
        &&& forall|k: int|
            0 <= k < operands(nodes[i].op).len() ==> operands(nodes[j].op)[k] == twins[(
            #[trigger] operands(nodes[i].op)[k]) as int]
    }
}

/// Everything that the node `root` is computed from has its twin.
pub open spec fn twinned<T>(
    nodes: Seq<Node<T>>,
    inputs: Option<Seq<usize>>,
    device: Device,
    twins: Seq<usize>,
    root: int,
) -> bool {
    forall|i: int| #[trigger] reaches(nodes, root, i) ==> twin(nodes, inputs, device, twins, i)
}

/// The node `j` is a copy of the node `i` on `device`: all that `i` is computed from has
/// one twin each.  Where inputs are given, the input stands for each placeholder.
pub open spec fn copies<T>(
    nodes: Seq<Node<T>>,
    inputs: Option<Seq<usize>>,
    device: Device,
    i: int,
    j: int,
) -> bool {
    exists|twins: Seq<usize>|
        #[trigger] twinned(nodes, inputs, device, twins, i) && twins[i] == j
}

/// An input takes the place of the node.
pub open spec fn replaced<T>(nodes: Seq<Node<T>>, inputs: Option<Seq<usize>>, i: int) -> bool {
    nodes[i].op is Placeholder && inputs is Some
}

/// The twins of all that the node `root` is computed from, but for inputs, are nodes that
/// `before` does not have, each of one node; batch normalizations among them have places
/// of their own for statistics, which `before` does not have.
pub open spec fn anew<T>(
    before: Graph<T>,
    nodes: Seq<Node<T>>,
    inputs: Option<Seq<usize>>,
    twins: Seq<usize>,
    root: int,
) -> bool {
    &&& forall|i: int| #[trigger]
        reaches(nodes, root, i) && !replaced(nodes, inputs, i) ==> {
            &&& twins[i] >= before.nodes@.len()
            &&& nodes[twins[i] as int].op is BatchNorm2d ==> nodes[twins[i] as int].op->statistics
                >= before.norms@.saved.len()
        }
    &&& forall|i: int, j: int|
        i < j && #[trigger] reaches(nodes, root, i) && #[trigger] reaches(nodes, root, j)
            && !replaced(nodes, inputs, i) && !replaced(nodes, inputs, j) ==> twins[i] < twins[j]
}

/// The node `j` of `after` is a new copy of the node `i` of `before` on `device`.
pub open spec fn copies_anew<T>(
    before: Graph<T>,
    after: Graph<T>,
    inputs: Option<Seq<usize>>,
    device: Device,
    i: int,
    j: int,
) -> bool {
    exists|twins: Seq<usize>|
        {
            &&& #[trigger] twinned(after.nodes@, inputs, device, twins, i)
            &&& twins[i] == j
            &&& anew(before, after.nodes@, inputs, twins, i)
        }
}

/// A copy of a node does what the node does.
pub proof fn lemma_copies_alike<T>(nodes: Seq<Node<T>>, device: Device, i: int, j: int)
    requires
        copies(nodes, None, device, i, j),
    ensures
        alike(nodes[i].op, nodes[j].op),
{
    assert(reaches(nodes, i, i));
}

/// A twin stays one when nodes, and the twins of later nodes, are added.
proof fn lemma_twin_stays<T>(
    before: Seq<Node<T>>,
    after: Seq<Node<T>>,
    inputs: Option<Seq<usize>>,
    device: Device,
    twins: Seq<usize>,
    more: Seq<usize>,
    i: int,
)
    requires
        before.len() <= after.len(),
        forall|j: int| 0 <= j < before.len() ==> #[trigger] after[j] == before[j],
        0 <= i < before.len(),
        ordered(before, i),
        more.len() == twins.len(),
        forall|j: int| 0 <= j <= i ==> #[trigger] more[j] == twins[j],
        twin(before, inputs, device, twins, i),
    ensures
        twin(after, inputs, device, more, i),
{
    assert(after[i] == before[i]);
    assert(after[twins[i] as int] == before[twins[i] as int]);
    assert(more[i] == twins[i]);
    let list = operands(before[i].op);
    assert forall|k: int| 0 <= k < list.len() implies more[(#[trigger] list[k]) as int]
        == twins[list[k] as int] by {
        let operand = operands(before[i].op)[k];
        assert(operand < i);
    }
}

/// The identifiers of tensors.
pub open spec fn identifiers(tensors: Seq<Tensor>) -> Seq<usize> {
    Seq::new(tensors.len(), |i: int| tensors[i].id)
}

/// The inputs to bind, by identifier.
pub open spec fn bound(inputs: Option<&Vec<Tensor>>) -> Option<Seq<usize>> {
    match inputs {
        Some(tensors) => Some(identifiers(tensors@)),
        None => None,
    }
}

/// The inputs belong to the graph, are on `device`, and have the shapes of the
/// placeholders that the node is computed from.
pub open spec fn bindable<T>(
    graph: Graph<T>,
    inputs: Option<&Vec<Tensor>>,
    device: Device,
    root: int,
) -> bool {
    match inputs {
        None => true,
        Some(tensors) => {
            &&& forall|i: int|
                0 <= i < tensors@.len() ==> graph.has(#[trigger] tensors@[i])
                    && tensors@[i].device == device
            &&& forall|i: int, slot: usize|
                #![trigger graph.nodes@[i].op, tensors@[slot as int]]
                reaches(graph.nodes@, root, i) && graph.nodes@[i].op == Op::<T>::Placeholder(slot)
                    && slot < tensors@.len() ==> tensors@[slot as int].shape@
                    == graph.nodes@[i].shape@
        },
    }
}

/// An operation with other operands of the same shapes is applicable too.
proof fn lemma_shaped_alike<T>(
    nodes: Seq<Node<T>>,
    norms: Memory<T>,
    i: int,
    node: Node<T>,
)
    requires
        sound(nodes, norms),
        0 <= i < nodes.len(),
        alike(nodes[i].op, node.op),
        node.shape@ == nodes[i].shape@,
        operands(node.op).len() == operands(nodes[i].op).len(),
        forall|k: int|
            0 <= k < operands(node.op).len() ==> {
                let operand = #[trigger] operands(node.op)[k];
                &&& operand < nodes.len()
                &&& nodes[operand as int].shape@ == nodes[operands(
                    nodes[i].op,
                )[k] as int].shape@
            },
        node.op is BatchNorm2d ==> node.op->statistics < norms.saved.len()
            && norms.saved[node.op->statistics as int] is None,
    ensures
        shaped(nodes.push(node), norms, nodes.len() as int),
{
    let more = nodes.push(node);
    let n = nodes.len() as int;
    let old_ops = operands(nodes[i].op);
    let new_ops = operands(node.op);
    assert(shaped(nodes, norms, i));
    assert(ordered(nodes, i));
    assert(more[n] == node);
    assert forall|k: int| 0 <= k < new_ops.len() implies {
        &&& more[(#[trigger] new_ops[k]) as int].shape@ == nodes[old_ops[k] as int].shape@
        &&& old_ops[k] < i
    } by {
        let operand = operands(node.op)[k];
        assert(operand < nodes.len());
        let before = operands(nodes[i].op)[k];
        assert(before < i);
    }
    match (nodes[i].op, node.op) {
        (Op::Add(a, b), Op::Add(c, d)) => {
            assert(old_ops[0] == a && old_ops[1] == b && new_ops[0] == c && new_ops[1] == d);
        },
        (Op::Mul(a, b), Op::Mul(c, d)) => {
            assert(old_ops[0] == a && old_ops[1] == b && new_ops[0] == c && new_ops[1] == d);
        },
        (Op::Relu(a), Op::Relu(c)) => {
            assert(old_ops[0] == a && new_ops[0] == c);
        },
        (Op::MatMul(a, b), Op::MatMul(c, d)) => {
            assert(old_ops[0] == a && old_ops[1] == b && new_ops[0] == c && new_ops[1] == d);
        },
        (
            Op::Conv2d { input: a, weight: b, bias: c, .. },
            Op::Conv2d { input, weight, bias, .. },
        ) => {
            assert(old_ops[0] == a && old_ops[1] == b && old_ops[2] == c);
            assert(new_ops[0] == input && new_ops[1] == weight && new_ops[2] == bias);
        },
        (Op::AvgPool2d { input: a, .. }, Op::AvgPool2d { input, .. }) => {
            assert(old_ops[0] == a && new_ops[0] == input);
        },
        (Op::Reshape(a), Op::Reshape(c)) => {
            assert(old_ops[0] == a && new_ops[0] == c);
        },
        (
            Op::CrossEntropy { logits: a, targets: b },
            Op::CrossEntropy { logits, targets },
        ) => {
            assert(old_ops[0] == a && old_ops[1] == b);
            assert(new_ops[0] == logits && new_ops[1] == targets);
        },
        (
            Op::BatchNorm2d { input: a, weight: b, bias: c, .. },
            Op::BatchNorm2d { input, weight, bias, .. },
        ) => {
            assert(old_ops[0] == a && old_ops[1] == b && old_ops[2] == c);
            assert(new_ops[0] == input && new_ops[1] == weight && new_ops[2] == bias);
        },
        _ => {},
    }
}

/// The same operation on other operands.
fn copy_op<T: Copy>(op: &Op<T>, ops: &Vec<usize>, slot: usize) -> (r: Op<T>)
    requires
        ops.len() == operands(*op).len(),
    ensures
        alike(*op, r),
        operands(r) == ops@,
        r is BatchNorm2d ==> r->statistics == slot,
{
    let r = match op {
        Op::Data(data) => Op::Data(copied(data)),
        Op::Placeholder(input) => Op::Placeholder(*input),
        Op::Add(_, _) => Op::Add(ops[0], ops[1]),
        Op::Mul(_, _) => Op::Mul(ops[0], ops[1]),
        Op::Relu(_) => Op::Relu(ops[0]),
        Op::MatMul(_, _) => Op::MatMul(ops[0], ops[1]),
        Op::Conv2d { stride, padding, groups, .. } => Op::Conv2d {
            input: ops[0],
            weight: ops[1],
            bias: ops[2],
            stride: *stride,
            padding: *padding,
            groups: *groups,
        },
        Op::AvgPool2d { kernel, stride, .. } => Op::AvgPool2d {
            input: ops[0],
            kernel: *kernel,
            stride: *stride,
        },
        Op::Reshape(_) => Op::Reshape(ops[0]),
        Op::CrossEntropy { .. } => Op::CrossEntropy { logits: ops[0], targets: ops[1] },
        Op::BatchNorm2d { state, training, momentum, epsilon, .. } => Op::BatchNorm2d {
            input: ops[0],
            weight: ops[1],
            bias: ops[2],
            state: *state,
            statistics: slot,
            training: *training,
            momentum: *momentum,
            epsilon: *epsilon,
        },
    };
    assert(operands(r) =~= ops@);
    r
}

/// Room for the statistics of one more batch normalization keeps a graph sound.
pub proof fn lemma_sound_slot<T>(nodes: Seq<Node<T>>, before: Memory<T>, after: Memory<T>)
    requires
        sound(nodes, before),
        after.states == before.states,
        after.saved == before.saved.push(None),
    ensures
        sound(nodes, after),
{
    assert forall|i: int| 0 <= i < nodes.len() implies #[trigger] shaped(nodes, after, i) by {
        assert(shaped(nodes, before, i));
    }
}

/// Adds a copy of the node `i` on other operands.
fn copy_node<T: Copy>(graph: &mut Graph<T>, i: usize, ops: &Vec<usize>, device: Device) -> (r:
    usize)
    requires
        old(graph).wf(),
        i < old(graph).nodes@.len(),
        ops.len() == operands(old(graph).nodes@[i as int].op).len(),
        forall|k: int|
            0 <= k < ops.len() ==> {
                &&& (#[trigger] ops@[k]) < old(graph).nodes@.len()
                &&& old(graph).nodes@[ops@[k] as int].device == device
                &&& old(graph).nodes@[ops@[k] as int].shape@ == old(graph).nodes@[operands(
                    old(graph).nodes@[i as int].op,
                )[k] as int].shape@
            },
    ensures
        final(graph).wf(),
        final(graph).extends(*old(graph)),
        final(graph).next_parameter == old(graph).next_parameter,
        r == old(graph).nodes@.len(),
        final(graph).nodes@ == old(graph).nodes@.push(final(graph).nodes@[r as int]),
        final(graph).nodes@[r as int].shape@ == old(graph).nodes@[i as int].shape@,
        final(graph).nodes@[r as int].device == device,
        alike(old(graph).nodes@[i as int].op, final(graph).nodes@[r as int].op),
        operands(final(graph).nodes@[r as int].op) == ops@,
        final(graph).nodes@[r as int].op is BatchNorm2d
            ==> final(graph).nodes@[r as int].op->statistics >= old(graph).norms@.saved.len(),
        !(old(graph).nodes@[i as int].op is BatchNorm2d) ==> final(graph).norms == old(
            graph,
        ).norms,
{
    let slot: usize = graph.norms.saved.len();
    let shape = copied(&graph.nodes[i].shape);
    let op = copy_op(&graph.nodes[i].op, ops, slot);
    let is_norm = matches!(graph.nodes[i].op, Op::BatchNorm2d { .. });
    let ghost nodes = graph.nodes@;
    if is_norm {
        let ghost before = graph.norms@;
        graph.norms.saved.push(None);
        proof {
            assert(graph.norms@.states =~= before.states);
            assert(graph.norms@.saved =~= before.saved.push(None));
            lemma_sound_slot(nodes, before, graph.norms@);
            assert forall|j: int|
                0 <= j < nodes.len() && (#[trigger] nodes[j]).op is BatchNorm2d implies
                nodes[j].op->statistics != slot by {
                assert(shaped(nodes, before, j));
            }
        }
    }
    proof {
        let node = Node { shape, device, op };
        lemma_shaped_alike(nodes, graph.norms@, i as int, node);
        let more = nodes.push(node);
        let n = nodes.len() as int;
        assert(more[n] == node);
        assert forall|k: int| 0 <= k < operands(more[n].op).len() implies {
            let operand = #[trigger] operands(more[n].op)[k];
            operand < n && more[operand as int].device == more[n].device
        } by {
            assert(ops@[k] < nodes.len());
        }
    }
    let made = Tensor::push(graph, shape, device, op);
    proof {
        assert(graph.nodes@ =~= nodes.push(graph.nodes@[made.id as int]));
    }
    made.id
}

/// Copies a node and all that it is computed from to `device`, each once.  Where inputs
/// are given, they take the place of the placeholders.
pub fn rebuild<T: Copy>(
    graph: &mut Graph<T>,
    root: usize,
    device: Device,
    inputs: Option<&Vec<Tensor>>,
) -> (r: Result<Tensor>)
    requires
        old(graph).wf(),
        root < old(graph).nodes@.len(),
        bindable(*old(graph), inputs, device, root as int),
    ensures
        final(graph).wf(),
        final(graph).extends(*old(graph)),
        final(graph).next_parameter == old(graph).next_parameter,
        memoryless(old(graph).nodes@, root as int) ==> final(graph).norms == old(graph).norms,
        match r {
            Ok(tensor) => {
                &&& final(graph).has(tensor)
                &&& tensor.shape@ == old(graph).nodes@[root as int].shape@
                &&& tensor.device == device
                &&& inputs is None ==> tensor.id >= old(graph).nodes@.len()
                &&& copies_anew(
                    *old(graph),
                    *final(graph),
                    bound(inputs),
                    device,
                    root as int,
                    tensor.id as int,
                )
                &&& copies(
                    final(graph).nodes@,
                    bound(inputs),
                    device,
                    root as int,
                    tensor.id as int,
                )
            },
            Err(error) => exists|i: int, slot: usize|
                {
                    &&& #[trigger] reaches(old(graph).nodes@, root as int, i)
                    &&& old(graph).nodes@[i].op == Op::<T>::Placeholder(slot)
                    &&& bound(inputs) matches Some(given) && slot >= given.len()
                    &&& error@ == Failure::Trace(#[trigger] missing_input(slot))
                },
        },
{
    let ghost start = *graph;
    let ghost supply = bound(inputs);
    let marked = reachable(&graph.nodes, root);
    let mut map: Vec<usize> = filled(0, root + 1);
    let mut i: usize = 0;
    while i <= root
        invariant
            start == *old(graph),
            start.wf(),
            root < start.nodes@.len(),
            bindable(start, inputs, device, root as int),
            supply == bound(inputs),
            marked.len() == start.nodes@.len(),
            forall|j: int|
                0 <= j < start.nodes@.len() ==> #[trigger] marked@[j] == reaches(
                    start.nodes@,
                    root as int,
                    j,
                ),
            graph.wf(),
            graph.extends(start),
            graph.next_parameter == start.next_parameter,
            memoryless(start.nodes@, root as int) ==> graph.norms == start.norms,
            i <= root + 1,
            map.len() == root + 1,
            forall|j: int|
                0 <= j < i && #[trigger] marked@[j] ==> twin(
                    graph.nodes@,
                    supply,
                    device,
                    map@,
                    j,
                ),
            inputs is None <==> supply is None,
            forall|j: int|
                0 <= j < i && #[trigger] marked@[j] && !replaced(start.nodes@, supply, j) ==> {
                    &&& map@[j] >= start.nodes@.len()
                    &&& map@[j] < graph.nodes@.len()
                    &&& graph.nodes@[map@[j] as int].op is BatchNorm2d
                        ==> graph.nodes@[map@[j] as int].op->statistics
                        >= start.norms@.saved.len()
                },
            forall|j: int, k: int|
                0 <= j < k < i && #[trigger] marked@[j] && #[trigger] marked@[k] && !replaced(
                    start.nodes@,
                    supply,
                    j,
                ) && !replaced(start.nodes@, supply, k) ==> map@[j] < map@[k],
        decreases root + 1 - i,
    {
        if marked[i] {
            proof {
                assert(marked@[i as int] == reaches(start.nodes@, root as int, i as int));
                assert(graph.nodes@[i as int] == start.nodes@[i as int]);
                assert(ordered(start.nodes@, i as int));
                assert(ordered(graph.nodes@, i as int));
            }
            let mut slot: Option<usize> = None;
            if inputs.is_some() {
                match &graph.nodes[i].op {
                    Op::Placeholder(input) => {
                        slot = Some(*input);
                    },
                    _ => {},
                }
            }
            let ghost before = graph.nodes@;
            let ghost map_before = map@;
            if slot.is_some() {
                let slot: usize = slot.unwrap();
                let tensors = inputs.unwrap();
                if slot >= tensors.len() {
                    let mut message = owned("missing input ");
                    push_decimal(&mut message, slot);
                    assert(message@ == missing_input(slot));
                    return Err(Error::Trace(message));
                }
                let id: usize = tensors[slot].id;
                map.set(i, id);
                proof {
                    assert(start.has(tensors@[slot as int]));
                    assert(start.nodes@[i as int].op == Op::<T>::Placeholder(slot));
                    assert(tensors@[slot as int].shape@ == start.nodes@[i as int].shape@);
                    assert(graph.nodes@[id as int] == start.nodes@[id as int]);
                    assert(twin(graph.nodes@, supply, device, map@, i as int));
                }
            } else {
                let olds = operand_list(&graph.nodes[i].op);
                let mut ops: Vec<usize> = Vec::new();
                let mut k: usize = 0;
                while k < olds.len()
                    invariant
                        i <= root,
                        root < start.nodes@.len(),
                        start.wf(),
                        olds@ == operands(start.nodes@[i as int].op),
                        ordered(start.nodes@, i as int),
                        marked.len() == start.nodes@.len(),
                        reaches(start.nodes@, root as int, i as int),
                        forall|j: int|
                            0 <= j < start.nodes@.len() ==> #[trigger] marked@[j] == reaches(
                                start.nodes@,
                                root as int,
                                j,
                            ),
                        map.len() == root + 1,
                        k <= olds.len(),
                        ops.len() == k,
                        forall|j: int|
                            0 <= j < k ==> {
                                &&& (#[trigger] operands(start.nodes@[i as int].op)[j]) < i
                                &&& marked@[operands(start.nodes@[i as int].op)[j] as int]
                                &&& ops@[j] == map@[operands(start.nodes@[i as int].op)[j] as int]
                            },
                    decreases olds.len() - k,
                {
                    let operand: usize = olds[k];
                    proof {
                        assert(operands(start.nodes@[i as int].op)[k as int] == operand && operand
                            < i);
                        assert(reaches(start.nodes@, operand as int, operand as int));
                        lemma_reaches_operand(
                            start.nodes@,
                            i as int,
                            k as int,
                            operand as int,
                        );
                        crate::graph::lemma_reaches_transitive(
                            start.nodes@,
                            root as int,
                            i as int,
                            operand as int,
                        );
                        assert(marked@[operand as int]);
                    }
                    ops.push(map[operand]);
                    k = k + 1;
                }
                proof {
                    assert forall|k: int| 0 <= k < ops.len() implies {
                        &&& (#[trigger] ops@[k]) < before.len()
                        &&& before[ops@[k] as int].device == device
                        &&& before[ops@[k] as int].shape@ == before[operands(
                            before[i as int].op,
                        )[k] as int].shape@
                    } by {
                        let operand = operands(start.nodes@[i as int].op)[k];
                        assert(marked@[operand as int] && operand < i);
                    }
                }
                let id: usize = copy_node(graph, i, &ops, device);
                map.set(i, id);
                proof {
                    let node = graph.nodes@[id as int];
                    assert(graph.nodes@ == before.push(node));
                    assert(graph.nodes@[i as int] == before[i as int]);
                    assert(twin(graph.nodes@, supply, device, map@, i as int));
                }
            }
            proof {
                assert forall|j: int| 0 <= j < i + 1 && #[trigger] marked@[j] implies twin(
                    graph.nodes@,
                    supply,
                    device,
                    map@,
                    j,
                ) by {
                    if j < i {
                        assert(ordered(before, j));
                        lemma_twin_stays(
                            before,
                            graph.nodes@,
                            supply,
                            device,
                            map_before,
                            map@,
                            j,
                        );
                    }
                }
            }
        }
        i = i + 1;
    }
    proof {
        assert(reaches(start.nodes@, root as int, root as int));
        assert(marked@[root as int]);
        assert forall|j: int| #[trigger] reaches(graph.nodes@, root as int, j) implies twin(
            graph.nodes@,
            supply,
            device,
            map@,
            j,
        ) by {
            lemma_reaches_prefix(start.nodes@, graph.nodes@, root as int, j);
            lemma_reaches_below(start.nodes@, root as int, j);
            assert(marked@[j]);
        }
        assert(twinned(graph.nodes@, supply, device, map@, root as int));
        assert forall|j: int| #[trigger] reaches(graph.nodes@, root as int, j) implies 0 <= j <= root
            && marked@[j] && graph.nodes@[j] == start.nodes@[j] by {
            lemma_reaches_prefix(start.nodes@, graph.nodes@, root as int, j);
            lemma_reaches_below(start.nodes@, root as int, j);
        }
        assert(anew(start, graph.nodes@, supply, map@, root as int));
    }
    let id: usize = map[root];
    let shape = copied(&graph.nodes[id].shape);
    Ok(Tensor { id, shape, device })
}

/// The message for an input that a traced graph needs and was not given.
pub open spec fn missing_input(slot: usize) -> Seq<char> {
    "missing input "@ + decimal(slot as nat)
}

/// Data is computed from nothing else.
pub proof fn lemma_data_memoryless<T>(nodes: Seq<Node<T>>, i: int)
    requires
        nodes[i].op is Data,
    ensures
        memoryless(nodes, i),
{
    assert forall|j: int| #[trigger] reaches(nodes, i, j) implies !(nodes[j].op is BatchNorm2d) by {
        assert(operands(nodes[i].op).len() == 0);
        assert(j == i);
    }
}

impl Tensor {
    /// Moves the tensor, and all that it is computed from, to a device, lazily.
    pub fn to<T: Copy>(&self, graph: &mut Graph<T>, device: Device) -> (r: Tensor)
        requires
            old(graph).wf(),
            old(graph).has(*self),
        ensures
            final(graph).wf(),
            final(graph).extends(*old(graph)),
            final(graph).next_parameter == old(graph).next_parameter,
            final(graph).has(r),
            r.shape@ == self.shape@,
            r.device == device,
            r.id >= old(graph).nodes@.len(),
            copies_anew(*old(graph), *final(graph), None, device, self.id as int, r.id as int),
            copies(final(graph).nodes@, None, device, self.id as int, r.id as int),
            memoryless(old(graph).nodes@, self.id as int) ==> final(graph).norms == old(
                graph,
            ).norms,
    {
        rebuild(graph, self.id, device, None).unwrap()
    }
}

} // verus!

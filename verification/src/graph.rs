//! The lazy graph: tensors as nodes that name their operands.

use crate::forward::{Convolution, Pooling};
use crate::norm::{BatchNormState, BatchNormStatistics, Planes, State, Statistics};
use crate::shape::{has_count, numel};
use vstd::prelude::*;

verus! {

/// Where a tensor is evaluated.
#[derive(Clone, Copy, Debug, PartialEq, Eq, Hash, Structural)]
pub enum Device {
    Cpu,
    Cuda(usize),
}

impl Default for Device {
    fn default() -> (r: Device)
        ensures
            r == Device::Cpu,
    {
        Device::Cpu
    }
}

/// How a node's value comes about.  Operands are named by the position of their node.
#[allow(inconsistent_fields)]
pub enum Op<T> {
    Data(Vec<T>),
    Placeholder(usize),
    Add(usize, usize),
    Mul(usize, usize),
    Relu(usize),
    MatMul(usize, usize),
    Conv2d {
        input: usize,
        weight: usize,
        bias: usize,
        stride: usize,
        padding: usize,
        groups: usize,
    },
    AvgPool2d { input: usize, kernel: [usize; 2], stride: [usize; 2] },
    Reshape(usize),
    CrossEntropy { logits: usize, targets: usize },
    BatchNorm2d {
        input: usize,
        weight: usize,
        bias: usize,
        state: usize,
        statistics: usize,
        training: bool,
        momentum: T,
        epsilon: T,
    },
}

/// One tensor of the graph.
pub struct Node<T> {
    pub shape: Vec<usize>,
    pub device: Device,
    pub op: Op<T>,
}

/// What batch normalizations remember: running statistics, shared between nodes, and
/// for each node the statistics of its first evaluation.
pub struct Norms<T> {
    pub states: Vec<BatchNormState<T>>,
    pub saved: Vec<Option<BatchNormStatistics<T>>>,
}

/// The memory of batch normalizations as sequences.
#[verifier::ext_equal]
pub struct Memory<T> {
    pub states: Seq<State<T>>,
    pub saved: Seq<Option<Statistics<T>>>,
}

impl<T> View for Norms<T> {
    type V = Memory<T>;

    open spec fn view(&self) -> Memory<T> {
        Memory {
            states: Seq::new(self.states@.len(), |i: int| self.states@[i]@),
            saved: Seq::new(
                self.saved@.len(),
                |i: int|
                    match self.saved@[i] {
                        Some(statistics) => Some(statistics@),
                        None => None,
                    },
            ),
        }
    }
}

/// A graph of tensors, the gradients accumulated on them, and what its batch
/// normalizations remember.
pub struct Graph<T> {
    pub nodes: Vec<Node<T>>,
    pub grads: Vec<Option<Vec<T>>>,
    pub norms: Norms<T>,
    /// The next parameter identifier to be given out.
    pub next_parameter: u64,
}

/// The operands of an operation, in the order in which they are evaluated.
pub open spec fn operands<T>(op: Op<T>) -> Seq<usize> {
    match op {
        Op::Data(_) => seq![],
        Op::Placeholder(_) => seq![],
        Op::Add(left, right) => seq![left, right],
        Op::Mul(left, right) => seq![left, right],
        Op::Relu(input) => seq![input],
        Op::MatMul(left, right) => seq![left, right],
        Op::Conv2d { input, weight, bias, .. } => seq![input, weight, bias],
        Op::AvgPool2d { input, .. } => seq![input],
        Op::Reshape(input) => seq![input],
        Op::CrossEntropy { logits, targets } => seq![logits, targets],
        Op::BatchNorm2d { input, weight, bias, .. } => seq![input, weight, bias],
    }
}

/// The operands of an operation.
pub fn operand_list<T>(op: &Op<T>) -> (r: Vec<usize>)
    ensures
        r@ == operands(*op),
{
    let mut r: Vec<usize> = Vec::new();
    match op {
        Op::Data(_) => {},
        Op::Placeholder(_) => {},
        Op::Add(left, right) => {
            r.push(*left);
            r.push(*right);
        },
        Op::Mul(left, right) => {
            r.push(*left);
            r.push(*right);
        },
        Op::Relu(input) => {
            r.push(*input);
        },
        Op::MatMul(left, right) => {
            r.push(*left);
            r.push(*right);
        },
        Op::Conv2d { input, weight, bias, .. } => {
            r.push(*input);
            r.push(*weight);
            r.push(*bias);
        },
        Op::AvgPool2d { input, .. } => {
            r.push(*input);
        },
        Op::Reshape(input) => {
            r.push(*input);
        },
        Op::CrossEntropy { logits, targets } => {
            r.push(*logits);
            r.push(*targets);
        },
        Op::BatchNorm2d { input, weight, bias, .. } => {
            r.push(*input);
            r.push(*weight);
            r.push(*bias);
        },
    }
    assert(r@ =~= operands(*op));
    r
}

/// The extent that padding on both sides adds, clamped to the range of counts.
pub open spec fn doubled(padding: usize) -> int {
    if 2 * padding <= usize::MAX {
        2 * padding
    } else {
        usize::MAX as int
    }
}

/// The extents of a convolution node.
pub open spec fn convolution<T>(
    nodes: Seq<Node<T>>,
    input: int,
    weight: int,
    stride: usize,
    padding: usize,
    groups: usize,
) -> Convolution {
    Convolution {
        batch: nodes[input].shape@[0],
        in_channels: nodes[input].shape@[1],
        height: nodes[input].shape@[2],
        width: nodes[input].shape@[3],
        out_channels: nodes[weight].shape@[0],
        kernel_h: nodes[weight].shape@[2],
        kernel_w: nodes[weight].shape@[3],
        stride,
        padding,
        groups,
    }
}

/// The extents of an average pool node.
pub open spec fn pooling<T>(
    nodes: Seq<Node<T>>,
    input: int,
    kernel: [usize; 2],
    stride: [usize; 2],
) -> Pooling {
    Pooling {
        batch: nodes[input].shape@[0],
        channels: nodes[input].shape@[1],
        height: nodes[input].shape@[2],
        width: nodes[input].shape@[3],
        kernel,
        stride,
    }
}

/// The extents of NCHW data, its planes flattened.
pub open spec fn planes_of(shape: Seq<usize>) -> Planes {
    Planes { batch: shape[0], channels: shape[1], spatial: (shape[2] * shape[3]) as usize }
}

/// The shape of a convolution's result: what the shapes of its operands and its
/// attributes allow.
pub open spec fn conv2d_shape(
    input: Seq<usize>,
    weight: Seq<usize>,
    bias: Seq<usize>,
    stride: usize,
    padding: usize,
    groups: usize,
) -> Seq<usize> {
    seq![
        input[0],
        weight[0],
        ((input[2] + doubled(padding) - weight[2]) / stride as int + 1) as usize,
        ((input[3] + doubled(padding) - weight[3]) / stride as int + 1) as usize,
    ]
}

/// The operands and attributes of a convolution agree.
pub open spec fn conv2d_agrees(
    input: Seq<usize>,
    weight: Seq<usize>,
    bias: Seq<usize>,
    stride: usize,
    padding: usize,
    groups: usize,
) -> bool {
    &&& input.len() == 4
    &&& weight.len() == 4
    &&& bias.len() == 1
    &&& stride != 0
    &&& groups != 0
    &&& weight[2] != 0
    &&& weight[2] == weight[3]
    &&& input[1] % groups == 0
    &&& weight[0] % groups == 0
    &&& weight[1] == input[1] / groups
    &&& bias[0] == weight[0]
    &&& input[2] + doubled(padding) <= usize::MAX
    &&& input[3] + doubled(padding) <= usize::MAX
    &&& weight[2] <= input[2] + doubled(padding)
    &&& weight[3] <= input[3] + doubled(padding)
}

/// The shape of an average pool's result.
pub open spec fn avg_pool2d_shape(
    input: Seq<usize>,
    kernel: [usize; 2],
    stride: [usize; 2],
) -> Seq<usize> {
    seq![
        input[0],
        input[1],
        ((input[2] - kernel[0]) / stride[0] as int + 1) as usize,
        ((input[3] - kernel[1]) / stride[1] as int + 1) as usize,
    ]
}

/// The input and the attributes of an average pool agree.
pub open spec fn avg_pool2d_agrees(
    input: Seq<usize>,
    kernel: [usize; 2],
    stride: [usize; 2],
) -> bool {
    &&& input.len() == 4
    &&& kernel[0] != 0
    &&& kernel[1] != 0
    &&& stride[0] != 0
    &&& stride[1] != 0
    &&& kernel[0] <= input[2]
    &&& kernel[1] <= input[3]
}

/// The operation is applicable to its operands, and gives the node's shape.
pub open spec fn shaped<T>(nodes: Seq<Node<T>>, norms: Memory<T>, i: int) -> bool {
    let shape = nodes[i].shape@;
    match nodes[i].op {
        Op::Data(data) => data@.len() == numel(shape),
        Op::Placeholder(_) => true,
        Op::Add(left, right) => {
            &&& nodes[left as int].shape@ == shape
            &&& nodes[right as int].shape@ == shape
        },
        Op::Mul(left, right) => {
            &&& nodes[left as int].shape@ == shape
            &&& nodes[right as int].shape@ == shape
        },
        Op::Relu(input) => nodes[input as int].shape@ == shape,
        Op::MatMul(left, right) => {
            &&& nodes[left as int].shape@.len() == 2
            &&& nodes[right as int].shape@.len() == 2
            &&& nodes[left as int].shape@[1] == nodes[right as int].shape@[0]
            &&& shape == seq![nodes[left as int].shape@[0], nodes[right as int].shape@[1]]
        },
        Op::Conv2d { input, weight, bias, stride, padding, groups } => {
            let (x, w, b) = (
                nodes[input as int].shape@,
                nodes[weight as int].shape@,
                nodes[bias as int].shape@,
            );
            &&& conv2d_agrees(x, w, b, stride, padding, groups)
            &&& shape == conv2d_shape(x, w, b, stride, padding, groups)
        },
        Op::AvgPool2d { input, kernel, stride } => {
            &&& avg_pool2d_agrees(nodes[input as int].shape@, kernel, stride)
            &&& shape == avg_pool2d_shape(nodes[input as int].shape@, kernel, stride)
        },
        Op::Reshape(input) => numel(nodes[input as int].shape@) == numel(shape),
        Op::CrossEntropy { logits, targets } => {
            &&& nodes[logits as int].shape@.len() == 2
            &&& nodes[targets as int].shape@.len() == 1
            &&& nodes[logits as int].shape@[0] == nodes[targets as int].shape@[0]
            &&& shape == seq![1usize]
        },
        Op::BatchNorm2d { input, weight, bias, state, statistics, .. } => {
            &&& shape.len() == 4
            &&& nodes[input as int].shape@ == shape
            &&& nodes[weight as int].shape@ == seq![shape[1]]
            &&& nodes[bias as int].shape@ == seq![shape[1]]
            &&& state < norms.states.len()
            &&& norms.states[state as int].mean.len() == shape[1]
            &&& norms.states[state as int].variance.len() == shape[1]
            &&& statistics < norms.saved.len()
            &&& norms.saved[statistics as int] matches Some(s) ==> s.mean.len() == shape[1]
                && s.inverse.len() == shape[1]
        },
    }
}

/// The operands stand before their node, and on the same device.
pub open spec fn ordered<T>(nodes: Seq<Node<T>>, i: int) -> bool {
    forall|k: int|
        0 <= k < operands(nodes[i].op).len() ==> {
            let operand = #[trigger] operands(nodes[i].op)[k];
            operand < i && nodes[operand as int].device == nodes[i].device
        }
}

/// Every batch normalization has statistics of its own.
pub open spec fn separate<T>(nodes: Seq<Node<T>>) -> bool {
    forall|i: int, j: int|
        0 <= i < j < nodes.len() && (#[trigger] nodes[i]).op is BatchNorm2d && (
        #[trigger] nodes[j]).op is BatchNorm2d ==> nodes[i].op->statistics
            != nodes[j].op->statistics
}

/// Every node is applicable to operands that stand before it.
pub open spec fn sound<T>(nodes: Seq<Node<T>>, norms: Memory<T>) -> bool {
    &&& forall|i: int| 0 <= i < nodes.len() ==> #[trigger] ordered(nodes, i)
    &&& forall|i: int| 0 <= i < nodes.len() ==> #[trigger] shaped(nodes, norms, i)
    &&& separate(nodes)
}

/// Evaluating the node itself stays within the range of counts.
pub open spec fn fits_alone<T>(nodes: Seq<Node<T>>, i: int) -> bool {
    &&& numel(nodes[i].shape@) <= usize::MAX
    &&& match nodes[i].op {
        Op::Conv2d { input, padding, .. } => 2 * padding <= usize::MAX,
        Op::AvgPool2d { kernel, .. } => kernel[0] * kernel[1] <= usize::MAX,
        Op::BatchNorm2d { .. } => {
            &&& nodes[i].shape@[2] * nodes[i].shape@[3] <= usize::MAX
            &&& nodes[i].shape@[0] * (nodes[i].shape@[2] * nodes[i].shape@[3]) <= usize::MAX
        },
        _ => true,
    }
}

/// `target` is the node or one that it is computed from.
pub open spec fn reaches<T>(nodes: Seq<Node<T>>, node: int, target: int) -> bool
    decreases node,
{
    ||| node == target
    ||| exists|k: int|
        {
            let operand = #[trigger] operands(nodes[node].op)[k];
            &&& 0 <= k < operands(nodes[node].op).len()
            &&& 0 <= operand < node
            &&& reaches(nodes, operand as int, target)
        }
}

/// Evaluating the node, and all that it is computed from, stays within the range of
/// counts.
pub open spec fn fits<T>(nodes: Seq<Node<T>>, node: int) -> bool {
    forall|i: int| #[trigger] reaches(nodes, node, i) ==> fits_alone(nodes, i)
}

pub proof fn lemma_reaches_operand<T>(nodes: Seq<Node<T>>, node: int, k: int, target: int)
    requires
        0 <= k < operands(nodes[node].op).len(),
        operands(nodes[node].op)[k] < node,
        reaches(nodes, operands(nodes[node].op)[k] as int, target),
    ensures
        reaches(nodes, node, target),
{
}

pub proof fn lemma_fits_operand<T>(nodes: Seq<Node<T>>, node: int, k: int)
    requires
        0 <= k < operands(nodes[node].op).len(),
        operands(nodes[node].op)[k] < node,
        fits(nodes, node),
    ensures
        fits(nodes, operands(nodes[node].op)[k] as int),
{
    assert forall|i: int| #[trigger]
        reaches(nodes, operands(nodes[node].op)[k] as int, i) implies fits_alone(nodes, i) by {
        lemma_reaches_operand(nodes, node, k, i);
    }
}

/// What is reached stands at or before the node.
pub proof fn lemma_reaches_below<T>(nodes: Seq<Node<T>>, node: int, target: int)
    requires
        reaches(nodes, node, target),
    ensures
        target <= node,
        0 <= node ==> 0 <= target,
    decreases node,
{
    if node != target {
        let k = choose|k: int|
            {
                let operand = #[trigger] operands(nodes[node].op)[k];
                &&& 0 <= k < operands(nodes[node].op).len()
                &&& 0 <= operand < node
                &&& reaches(nodes, operand as int, target)
            };
        lemma_reaches_below(nodes, operands(nodes[node].op)[k] as int, target);
    }
}

/// A node reaches what the nodes that it reaches do.
pub proof fn lemma_reaches_transitive<T>(nodes: Seq<Node<T>>, a: int, b: int, c: int)
    requires
        reaches(nodes, a, b),
        reaches(nodes, b, c),
    ensures
        reaches(nodes, a, c),
    decreases a,
{
    if a != b {
        let k = choose|k: int|
            {
                let operand = #[trigger] operands(nodes[a].op)[k];
                &&& 0 <= k < operands(nodes[a].op).len()
                &&& 0 <= operand < a
                &&& reaches(nodes, operand as int, b)
            };
        lemma_reaches_transitive(nodes, operands(nodes[a].op)[k] as int, b, c);
        lemma_reaches_operand(nodes, a, k, c);
    }
}

impl<T> Graph<T> {
    /// The nodes are sound, and gradients have the size of their node.
    pub open spec fn wf(self) -> bool {
        &&& sound(self.nodes@, self.norms@)
        &&& self.grads@.len() == self.nodes@.len()
        &&& forall|i: int|
            0 <= i < self.grads@.len() ==> (#[trigger] self.grads@[i] matches Some(gradient)
                ==> gradient@.len() == numel(self.nodes@[i].shape@))
    }

    /// An empty graph.
    pub fn new() -> (r: Graph<T>)
        ensures
            r.wf(),
            r.nodes@.len() == 0,
            r.norms@.states.len() == 0,
            r.norms@.saved.len() == 0,
            r.next_parameter == 1,
    {
        Graph {
            nodes: Vec::new(),
            grads: Vec::new(),
            norms: Norms { states: Vec::new(), saved: Vec::new() },
            next_parameter: 1,
        }
    }
}

/// A set of nodes that holds the operands of its nodes holds all that they are computed
/// from.
pub proof fn lemma_closed_reaches<T>(nodes: Seq<Node<T>>, marked: Seq<bool>, node: int, target: int)
    requires
        0 <= node < nodes.len(),
        marked.len() == nodes.len(),
        marked[node],
        reaches(nodes, node, target),
        forall|i: int, k: int|
            0 <= i < nodes.len() && marked[i] && 0 <= k < operands(nodes[i].op).len()
                ==> marked[(#[trigger] operands(nodes[i].op)[k]) as int],
    ensures
        marked[target],
    decreases node,
{
    if node != target {
        let k = choose|k: int|
            {
                let operand = #[trigger] operands(nodes[node].op)[k];
                &&& 0 <= k < operands(nodes[node].op).len()
                &&& 0 <= operand < node
                &&& reaches(nodes, operand as int, target)
            };
        lemma_closed_reaches(nodes, marked, operands(nodes[node].op)[k] as int, target);
    }
}

/// Which nodes a node is computed from, itself among them.
pub fn reachable<T>(nodes: &Vec<Node<T>>, root: usize) -> (r: Vec<bool>)
    requires
        root < nodes.len(),
        forall|i: int| 0 <= i < nodes.len() ==> #[trigger] ordered(nodes@, i),
    ensures
        r.len() == nodes.len(),
        forall|i: int|
            0 <= i < nodes.len() ==> #[trigger] r@[i] == reaches(nodes@, root as int, i),
{
    let ghost all = nodes@;
    let mut r: Vec<bool> = crate::scalar::filled(false, nodes.len());
    r.set(root, true);
    let mut i: usize = root + 1;
    while i > 0
        invariant
            all == nodes@,
            r.len() == nodes.len(),
            root < nodes.len(),
            i <= root + 1,
            forall|j: int| 0 <= j < all.len() ==> #[trigger] ordered(all, j),
            r@[root as int],
            forall|j: int| 0 <= j < all.len() && #[trigger] r@[j] ==> reaches(all, root as int, j),
            forall|j: int, k: int|
                i <= j < all.len() && r@[j] && 0 <= k < operands(all[j].op).len() ==> r@[(
                #[trigger] operands(all[j].op)[k]) as int],
        decreases i,
    {
        i = i - 1;
        if r[i] {
            let ops = operand_list(&nodes[i].op);
            let mut k: usize = 0;
            while k < ops.len()
                invariant
                    all == nodes@,
                    r.len() == nodes.len(),
                    root < nodes.len(),
                    i < nodes.len(),
                    ops@ == operands(all[i as int].op),
                    k <= ops.len(),
                    forall|j: int| 0 <= j < all.len() ==> #[trigger] ordered(all, j),
                    r@[root as int],
                    r@[i as int],
                    reaches(all, root as int, i as int),
                    forall|j: int|
                        0 <= j < all.len() && #[trigger] r@[j] ==> reaches(all, root as int, j),
                    forall|j: int, k: int|
                        i < j < all.len() && r@[j] && 0 <= k < operands(all[j].op).len() ==> r@[(
                        #[trigger] operands(all[j].op)[k]) as int],
                    forall|j: int|
                        0 <= j < k ==> r@[(#[trigger] operands(all[i as int].op)[j]) as int],
                decreases ops.len() - k,
            {
                let operand: usize = ops[k];
                let ghost before = r@;
                proof {
                    assert(ordered(all, i as int));
                    assert(operands(all[i as int].op)[k as int] == operand && operand < i);
                    assert(reaches(all, operand as int, operand as int));
                    lemma_reaches_operand(all, i as int, k as int, operand as int);
                    lemma_reaches_transitive(all, root as int, i as int, operand as int);
                }
                r.set(operand, true);
                proof {
                    assert forall|j: int, k: int|
                        i < j < all.len() && r@[j] && 0 <= k < operands(
                            all[j].op,
                        ).len() implies r@[(#[trigger] operands(all[j].op)[k]) as int] by {
                        assert(ordered(all, j));
                        assert(before[j]);
                    }
                }
                k = k + 1;
            }
        }
    }
    proof {
        assert forall|j: int| 0 <= j < all.len() implies #[trigger] r@[j] == reaches(
            all,
            root as int,
            j,
        ) by {
            if reaches(all, root as int, j) {
                lemma_closed_reaches(all, r@, root as int, j);
            }
        }
    }
    r
}

/// What a node is computed from does not change when nodes are added.
pub proof fn lemma_reaches_prefix<T>(
    before: Seq<Node<T>>,
    after: Seq<Node<T>>,
    node: int,
    target: int,
)
    requires
        0 <= node < before.len() <= after.len(),
        forall|i: int| 0 <= i < before.len() ==> #[trigger] after[i] == before[i],
    ensures
        reaches(after, node, target) == reaches(before, node, target),
    decreases node,
{
    assert(after[node] == before[node]);
    if node != target {
        if reaches(after, node, target) {
            let k = choose|k: int|
                {
                    let operand = #[trigger] operands(after[node].op)[k];
                    &&& 0 <= k < operands(after[node].op).len()
                    &&& 0 <= operand < node
                    &&& reaches(after, operand as int, target)
                };
            let operand = operands(before[node].op)[k];
            lemma_reaches_prefix(before, after, operand as int, target);
            assert(reaches(before, operand as int, target));
        }
        if reaches(before, node, target) {
            let k = choose|k: int|
                {
                    let operand = #[trigger] operands(before[node].op)[k];
                    &&& 0 <= k < operands(before[node].op).len()
                    &&& 0 <= operand < node
                    &&& reaches(before, operand as int, target)
                };
            let operand = operands(after[node].op)[k];
            lemma_reaches_prefix(before, after, operand as int, target);
            assert(reaches(after, operand as int, target));
        }
    }
}

/// What can be evaluated can be evaluated when nodes are added.
pub proof fn lemma_fits_prefix<T>(before: Seq<Node<T>>, after: Seq<Node<T>>, node: int)
    requires
        0 <= node < before.len() <= after.len(),
        forall|i: int| 0 <= i < before.len() ==> #[trigger] after[i] == before[i],
        fits(before, node),
    ensures
        fits(after, node),
{
    assert forall|i: int| #[trigger] reaches(after, node, i) implies fits_alone(after, i) by {
        lemma_reaches_prefix(before, after, node, i);
        lemma_reaches_below(before, node, i);
        assert(after[i] == before[i]);
        assert(fits_alone(before, i));
    }
}

/// Whether evaluating one node stays within the range of counts.
fn node_fits<T>(nodes: &Vec<Node<T>>, i: usize) -> (r: bool)
    requires
        i < nodes.len(),
        nodes@[i as int].op is BatchNorm2d ==> nodes@[i as int].shape@.len() == 4,
    ensures
        r == fits_alone(nodes@, i as int),
{
    if !has_count(&nodes[i].shape) {
        return false;
    }
    match &nodes[i].op {
        Op::Conv2d { padding, .. } => *padding <= usize::MAX / 2,
        Op::AvgPool2d { kernel, .. } => kernel[0].checked_mul(kernel[1]).is_some(),
        Op::BatchNorm2d { .. } => match nodes[i].shape[2].checked_mul(nodes[i].shape[3]) {
            Some(plane) => nodes[i].shape[0].checked_mul(plane).is_some(),
            None => false,
        },
        _ => true,
    }
}

impl<T> Graph<T> {
    /// Whether evaluating a node, and all that it is computed from, stays within the range
    /// of counts.
    pub fn evaluable(&self, node: usize) -> (r: bool)
        requires
            self.wf(),
            node < self.nodes@.len(),
        ensures
            r == fits(self.nodes@, node as int),
    {
        let reached = reachable(&self.nodes, node);
        let mut i: usize = 0;
        while i < self.nodes.len()
            invariant
                self.wf(),
                i <= self.nodes.len(),
                reached.len() == self.nodes.len(),
                forall|j: int|
                    0 <= j < self.nodes@.len() ==> #[trigger] reached@[j] == reaches(
                        self.nodes@,
                        node as int,
                        j,
                    ),
                forall|j: int|
                    0 <= j < i && #[trigger] reached@[j] ==> fits_alone(self.nodes@, j),
            decreases self.nodes.len() - i,
        {
            assert(shaped(self.nodes@, self.norms@, i as int));
            if reached[i] && !node_fits(&self.nodes, i) {
                assert(reaches(self.nodes@, node as int, i as int));
                return false;
            }
            i = i + 1;
        }
        assert forall|j: int| #[trigger] reaches(self.nodes@, node as int, j) implies fits_alone(
            self.nodes@,
            j,
        ) by {
            lemma_reaches_below(self.nodes@, node as int, j);
            assert(reached@[j]);
        }
        true
    }
}

/// The node is computed from data alone: from no input, and from nothing that a batch
/// normalization remembers.
pub open spec fn settled<T>(nodes: Seq<Node<T>>, node: int) -> bool {
    &&& fits(nodes, node)
    &&& forall|i: int| #[trigger]
        reaches(nodes, node, i) ==> !(nodes[i].op is Placeholder) && !(nodes[i].op is BatchNorm2d)
}

impl<T> Graph<T> {
    /// Whether a node is computed from data alone.
    pub fn is_settled(&self, node: usize) -> (r: bool)
        requires
            self.wf(),
            node < self.nodes@.len(),
        ensures
            r == settled(self.nodes@, node as int),
    {
        if !self.evaluable(node) {
            return false;
        }
        let reached = reachable(&self.nodes, node);
        let mut i: usize = 0;
        while i < self.nodes.len()
            invariant
                i <= self.nodes.len(),
                reached.len() == self.nodes.len(),
                forall|j: int|
                    0 <= j < self.nodes@.len() ==> #[trigger] reached@[j] == reaches(
                        self.nodes@,
                        node as int,
                        j,
                    ),
                forall|j: int|
                    0 <= j < i && #[trigger] reached@[j] ==> !(self.nodes@[j].op is Placeholder)
                        && !(self.nodes@[j].op is BatchNorm2d),
            decreases self.nodes.len() - i,
        {
            if reached[i] {
                assert(reaches(self.nodes@, node as int, i as int));
                match &self.nodes[i].op {
                    Op::Placeholder(_) => {
                        return false;
                    },
                    Op::BatchNorm2d { .. } => {
                        return false;
                    },
                    _ => {},
                }
            }
            i = i + 1;
        }
        assert forall|j: int| #[trigger] reaches(self.nodes@, node as int, j) implies !(
        self.nodes@[j].op is Placeholder) && !(self.nodes@[j].op is BatchNorm2d) by {
            lemma_reaches_below(self.nodes@, node as int, j);
            assert(reached@[j]);
        }
        true
    }
}

} // verus!

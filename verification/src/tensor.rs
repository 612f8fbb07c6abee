//! Tensors: handles to the nodes of a graph, and the operations that add nodes.

use crate::error::{Error, Failure, Result};
use crate::eval::{fails, valued};
use crate::forward::{check_labels, label_failure, labelled};
use crate::graph::{
    avg_pool2d_shape, conv2d_shape, doubled, operands, ordered, separate, settled, shaped, sound, Device,
    Graph, Memory, Node, Op,
};
use crate::scalar::{all_zero, copied, counted, filled, is_finite, less, one, zero, Scalar};
use crate::shape::{
    checked_numel, count, counted_numel, numel, same_shape, validate_numel, validated_numel,
};
use crate::text::{decimal, owned, push_decimal, push_shape, shape_text};
use vstd::prelude::*;

verus! {

/// A tensor of a graph.
#[derive(Debug)]
pub struct Tensor {
    pub id: usize,
    pub shape: Vec<usize>,
    pub device: Device,
}

impl Clone for Tensor {
    fn clone(&self) -> (r: Tensor)
        ensures
            r.same(*self),
    {
        Tensor { id: self.id, shape: copied(&self.shape), device: self.device }
    }
}

impl<T> Graph<T> {
    /// The tensor belongs to the graph.
    pub open spec fn has(self, tensor: Tensor) -> bool {
        &&& tensor.id < self.nodes@.len()
        &&& self.nodes@[tensor.id as int].shape@ == tensor.shape@
        &&& self.nodes@[tensor.id as int].device == tensor.device
    }

    /// The nodes that `before` does not have are without a gradient.
    pub open spec fn ungraded_from(self, before: Graph<T>) -> bool {
        forall|i: int|
            before.nodes@.len() <= i < self.nodes@.len() ==> #[trigger] self.grads@[i] is None
    }

    /// The places for statistics that `before` does not have are empty.
    pub open spec fn unsettled_from(self, before: Graph<T>) -> bool {
        forall|i: int|
            before.norms@.saved.len() <= i < self.norms@.saved.len() ==> (
            #[trigger] self.norms@.saved[i]) is None
    }

    /// The graph keeps every node of `before`, with its gradient, and every memory; what
    /// it has besides is without a gradient, and without statistics.
    pub open spec fn extends(self, before: Graph<T>) -> bool {
        &&& before.nodes@.len() <= self.nodes@.len()
        &&& forall|i: int|
            0 <= i < before.nodes@.len() ==> #[trigger] self.nodes@[i] == before.nodes@[i]
        &&& forall|i: int|
            0 <= i < before.grads@.len() ==> #[trigger] self.grads@[i] == before.grads@[i]
        &&& self.ungraded_from(before)
        &&& self.unsettled_from(before)
        &&& self.norms@.states == before.norms@.states
        &&& before.norms@.saved.len() <= self.norms@.saved.len()
        &&& forall|i: int|
            0 <= i < before.norms@.saved.len() ==> #[trigger] self.norms@.saved[i]
                == before.norms@.saved[i]
        &&& before.next_parameter <= self.next_parameter
    }

    /// The graph is `before` with one node more, without a gradient.
    pub open spec fn adds_one(self, before: Graph<T>) -> bool {
        &&& self.nodes@.len() == before.nodes@.len() + 1
        &&& self.nodes@.drop_last() == before.nodes@
        &&& self.grads@ == before.grads@.push(None)
        &&& self.norms == before.norms
        &&& self.next_parameter == before.next_parameter
    }

    /// `tensor` is a new tensor of the graph, made by `op` on what `before` holds.
    pub open spec fn made(self, before: Graph<T>, tensor: Tensor, op: Op<T>) -> bool {
        &&& self.adds_one(before)
        &&& tensor.id == before.nodes@.len()
        &&& self.has(tensor)
        &&& self.nodes@.last().op == op
    }
}

impl<T> Graph<T> {
    /// Whether a tensor belongs to the graph.
    pub fn holds(&self, tensor: &Tensor) -> (r: bool)
        ensures
            r == self.has(*tensor),
    {
        tensor.id < self.nodes.len() && same_shape(&self.nodes[tensor.id].shape, &tensor.shape)
            && self.nodes[tensor.id].device == tensor.device
    }
}

/// The shape and the device of a tensor.
pub struct Form {
    pub shape: Seq<usize>,
    pub device: Device,
}

impl Tensor {
    /// The shape and the device.
    pub open spec fn form(self) -> Form {
        Form { shape: self.shape@, device: self.device }
    }

    /// The same handle.
    pub open spec fn same(self, other: Tensor) -> bool {
        &&& self.id == other.id
        &&& self.shape@ == other.shape@
        &&& self.device == other.device
    }
}

/// A node that is applicable to its operands keeps a graph sound.
pub proof fn lemma_sound_push<T>(nodes: Seq<Node<T>>, norms: Memory<T>, node: Node<T>)
    requires
        sound(nodes, norms),
        ordered(nodes.push(node), nodes.len() as int),
        shaped(nodes.push(node), norms, nodes.len() as int),
        node.op is BatchNorm2d ==> forall|i: int|
            0 <= i < nodes.len() && (#[trigger] nodes[i]).op is BatchNorm2d
                ==> nodes[i].op->statistics != node.op->statistics,
    ensures
        sound(nodes.push(node), norms),
{
    let more = nodes.push(node);
    assert forall|i: int| 0 <= i < more.len() implies #[trigger] ordered(more, i) by {
        if i < nodes.len() {
            assert(ordered(nodes, i));
            assert(more[i] == nodes[i]);
            assert forall|k: int| 0 <= k < operands(more[i].op).len() implies {
                let operand = #[trigger] operands(more[i].op)[k];
                operand < i && more[operand as int].device == more[i].device
            } by {
                let operand = operands(nodes[i].op)[k];
                assert(operand < i);
                assert(more[operand as int] == nodes[operand as int]);
            }
        }
    }
    assert forall|i: int| 0 <= i < more.len() implies #[trigger] shaped(more, norms, i) by {
        if i < nodes.len() {
            assert(shaped(nodes, norms, i));
            lemma_shaped_push(nodes, norms, node, i);
        }
    }
    assert(separate(more)) by {
        assert forall|i: int, j: int|
            0 <= i < j < more.len() && (#[trigger] more[i]).op is BatchNorm2d && (
            #[trigger] more[j]).op is BatchNorm2d implies more[i].op->statistics
            != more[j].op->statistics by {
            assert(more[i] == nodes[i]);
            if j < nodes.len() {
                assert(more[j] == nodes[j]);
            }
        }
    }
}

proof fn lemma_shaped_push<T>(nodes: Seq<Node<T>>, norms: Memory<T>, node: Node<T>, i: int)
    requires
        0 <= i < nodes.len(),
        ordered(nodes, i),
        shaped(nodes, norms, i),
    ensures
        shaped(nodes.push(node), norms, i),
{
    let more = nodes.push(node);
    let ops = operands(nodes[i].op);
    assert(more[i] == nodes[i]);
    assert forall|k: int| 0 <= k < ops.len() implies more[(#[trigger] ops[k]) as int]
        == nodes[ops[k] as int] && ops[k] < i by {
        let operand = operands(nodes[i].op)[k];
        assert(operand < i);
    }
    match nodes[i].op {
        Op::Data(_) => {},
        Op::Placeholder(_) => {},
        Op::Add(left, right) => {
            assert(ops[0] == left && ops[1] == right);
        },
        Op::Mul(left, right) => {
            assert(ops[0] == left && ops[1] == right);
        },
        Op::Relu(input) => {
            assert(ops[0] == input);
        },
        Op::MatMul(left, right) => {
            assert(ops[0] == left && ops[1] == right);
        },
        Op::Conv2d { input, weight, bias, .. } => {
            assert(ops[0] == input && ops[1] == weight && ops[2] == bias);
        },
        Op::AvgPool2d { input, .. } => {
            assert(ops[0] == input);
        },
        Op::Reshape(input) => {
            assert(ops[0] == input);
        },
        Op::CrossEntropy { logits, targets } => {
            assert(ops[0] == logits && ops[1] == targets);
        },
        Op::BatchNorm2d { input, weight, bias, .. } => {
            assert(ops[0] == input && ops[1] == weight && ops[2] == bias);
        },
    }
}

impl Tensor {
    /// Adds a node to the graph.
    pub(crate) fn push<T>(
        graph: &mut Graph<T>,
        shape: Vec<usize>,
        device: Device,
        op: Op<T>,
    ) -> (r: Tensor)
        requires
            old(graph).wf(),
            ordered(
                old(graph).nodes@.push(Node { shape, device, op }),
                old(graph).nodes@.len() as int,
            ),
            shaped(
                old(graph).nodes@.push(Node { shape, device, op }),
                old(graph).norms@,
                old(graph).nodes@.len() as int,
            ),
            op is BatchNorm2d ==> forall|i: int|
                0 <= i < old(graph).nodes@.len() && (#[trigger] old(
                    graph,
                ).nodes@[i]).op is BatchNorm2d ==> old(graph).nodes@[i].op->statistics
                    != op->statistics,
        ensures
            final(graph).wf(),
            final(graph).made(*old(graph), r, op),
            final(graph).extends(*old(graph)),
            r.shape@ == shape@,
            r.device == device,
    {
        let ghost node = Node { shape, device, op };
        proof {
            lemma_sound_push(graph.nodes@, graph.norms@, node);
        }
        let r = Tensor { id: graph.nodes.len(), shape: copied(&shape), device };
        graph.nodes.push(Node { shape, device, op });
        graph.grads.push(None);
        assert(graph.nodes@.drop_last() =~= old(graph).nodes@);
        r
    }
}

/// The outcome of an elementwise operation on two tensors.
pub open spec fn elementwise(lhs: Form, rhs: Form) -> std::result::Result<Seq<usize>, Failure> {
    if lhs.device != rhs.device {
        Err(Failure::DeviceMismatch)
    } else if lhs.shape != rhs.shape {
        Err(
            Failure::InvalidShape(
                "elementwise operands differ: "@ + shape_text(lhs.shape) + " and "@ + shape_text(
                    rhs.shape,
                ),
            ),
        )
    } else {
        Ok(lhs.shape)
    }
}

/// The outcome of a matrix product.
pub open spec fn matrix_product(lhs: Form, rhs: Form) -> std::result::Result<
    Seq<usize>,
    Failure,
> {
    if lhs.device != rhs.device {
        Err(Failure::DeviceMismatch)
    } else if lhs.shape.len() != 2 || rhs.shape.len() != 2 {
        Err(Failure::InvalidShape("matmul expects two rank-2 tensors"@))
    } else if lhs.shape[1] != rhs.shape[0] {
        Err(
            Failure::InvalidShape(
                "matmul dimensions do not align: ["@ + decimal(lhs.shape[0] as nat) + ", "@
                    + decimal(lhs.shape[1] as nat) + "] @ ["@ + decimal(rhs.shape[0] as nat)
                    + ", "@ + decimal(rhs.shape[1] as nat) + "]"@,
            ),
        )
    } else {
        Ok(seq![lhs.shape[0], rhs.shape[1]])
    }
}

/// The outcome of a grouped convolution.
pub open spec fn convolution_of(
    input: Form,
    weight: Form,
    bias: Form,
    stride: usize,
    padding: usize,
    groups: usize,
) -> std::result::Result<Seq<usize>, Failure> {
    let (x, w, b) = (input.shape, weight.shape, bias.shape);
    if input.device != weight.device || input.device != bias.device {
        Err(Failure::DeviceMismatch)
    } else if x.len() != 4 || w.len() != 4 || b.len() != 1 {
        Err(Failure::InvalidShape("conv2d expects NCHW input, OIHW weight, and rank-1 bias"@))
    } else if stride == 0 || groups == 0 {
        Err(Failure::InvalidShape("conv2d stride and groups must be non-zero"@))
    } else if w[2] == 0 || w[3] == 0 || w[2] != w[3] {
        Err(Failure::InvalidShape("conv2d currently requires a non-zero square kernel"@))
    } else if x[1] % groups != 0 || w[0] % groups != 0 || w[1] != x[1] / groups || b[0] != w[0] {
        Err(Failure::InvalidShape("conv2d group/channel dimensions are inconsistent"@))
    } else if x[2] + doubled(padding) > usize::MAX {
        Err(Failure::InvalidShape("conv2d padded height overflow"@))
    } else if x[3] + doubled(padding) > usize::MAX {
        Err(Failure::InvalidShape("conv2d padded width overflow"@))
    } else if x[2] + doubled(padding) < w[2] || x[3] + doubled(padding) < w[3] {
        Err(Failure::InvalidShape("conv2d kernel exceeds input"@))
    } else {
        Ok(conv2d_shape(x, w, b, stride, padding, groups))
    }
}

/// The outcome of an average pool.
pub open spec fn average_pool(
    input: Form,
    kernel: [usize; 2],
    stride: [usize; 2],
) -> std::result::Result<Seq<usize>, Failure> {
    if input.shape.len() != 4 {
        Err(Failure::InvalidShape("avg_pool2d expects NCHW input"@))
    } else if kernel[0] == 0 || kernel[1] == 0 || stride[0] == 0 || stride[1] == 0 {
        Err(Failure::InvalidShape("avg_pool2d kernel and stride must be non-zero"@))
    } else if kernel[0] > input.shape[2] || kernel[1] > input.shape[3] {
        Err(Failure::InvalidShape("avg_pool2d kernel exceeds input"@))
    } else {
        Ok(avg_pool2d_shape(input.shape, kernel, stride))
    }
}

/// The outcome of a reshape.
pub open spec fn reshaped(input: Form, shape: Seq<usize>) -> std::result::Result<
    Seq<usize>,
    Failure,
> {
    match counted_numel(shape) {
        Err(failure) => Err(failure),
        Ok(n) => if n != numel(input.shape) {
            Err(Failure::InvalidShape("reshape must preserve the element count"@))
        } else {
            Ok(shape)
        },
    }
}

/// `fault` is what is wrong with labels before they are used.  Nothing is known to be
/// wrong with labels that are computed from an input or from what a batch normalization
/// remembers, nor with those whose own evaluation fails.
pub open spec fn judged<T: Scalar>(
    nodes: Seq<Node<T>>,
    norms: Memory<T>,
    targets: int,
    classes: usize,
    fault: Option<Failure>,
) -> bool {
    if !settled(nodes, targets) {
        fault is None
    } else {
        match fault {
            Some(failure) => exists|labels: Seq<T>| #[trigger]
                valued(nodes, None, norms, targets, labels, norms) && label_failure(
                    labels,
                    labels.len() as int,
                    classes,
                    failure,
                ),
            None => {
                ||| exists|labels: Seq<T>|
                    {
                        &&& #[trigger] valued(nodes, None, norms, targets, labels, norms)
                        &&& forall|b: int|
                            0 <= b < labels.len() ==> labelled(#[trigger] labels[b], classes)
                    }
                ||| exists|failure: Failure| #[trigger]
                    fails(nodes, None, norms, targets, failure, norms)
            },
        }
    }
}

/// The outcome of a cross-entropy.
pub open spec fn entropy(
    logits: Form,
    targets: Form,
    fault: Option<Failure>,
) -> std::result::Result<Seq<usize>, Failure> {
    if logits.device != targets.device {
        Err(Failure::DeviceMismatch)
    } else if logits.shape.len() != 2 || targets.shape.len() != 1 || logits.shape[0]
        != targets.shape[0] {
        Err(
            Failure::InvalidShape(
                "cross_entropy expects [batch, classes] logits and [batch] targets"@,
            ),
        )
    } else {
        match fault {
            Some(failure) => Err(failure),
            None => Ok(seq![1usize]),
        }
    }
}

impl<T> Graph<T> {
    /// The outcome `r` of adding a node to `before`: a new tensor made by `op` where
    /// `expected` is a shape, otherwise the failure and no change.
    pub open spec fn attempts(
        self,
        before: Graph<T>,
        r: Result<Tensor>,
        expected: std::result::Result<Seq<usize>, Failure>,
        device: Device,
        op: Op<T>,
    ) -> bool {
        match r {
            Ok(tensor) => {
                &&& expected == std::result::Result::<Seq<usize>, Failure>::Ok(tensor.shape@)
                &&& tensor.device == device
                &&& self.made(before, tensor, op)
                &&& self.extends(before)
            },
            Err(error) => {
                &&& expected == std::result::Result::<Seq<usize>, Failure>::Err(error@)
                &&& self == before
            },
        }
    }
}

impl Tensor {
    /// A CPU tensor of row-major data.
    pub fn from_vec<T>(graph: &mut Graph<T>, data: Vec<T>, shape: Vec<usize>) -> (r: Result<
        Tensor,
    >)
        requires
            old(graph).wf(),
        ensures
            final(graph).wf(),
            final(graph).attempts(
                *old(graph),
                r,
                match validated_numel(data@.len(), shape@) {
                    Ok(_) => Ok(shape@),
                    Err(failure) => Err(failure),
                },
                Device::Cpu,
                Op::Data(data),
            ),
    {
        match validate_numel(data.len(), &shape) {
            Ok(_) => {},
            Err(error) => {
                return Err(error);
            },
        }
        Ok(Tensor::push(graph, shape, Device::Cpu, Op::Data(data)))
    }

    /// A CPU tensor of zeros.
    pub fn zeros<T: Scalar>(graph: &mut Graph<T>, shape: Vec<usize>) -> (r: Result<Tensor>)
        requires
            old(graph).wf(),
        ensures
            final(graph).wf(),
            match r {
                Ok(tensor) => {
                    &&& counted_numel(shape@) is Ok
                    &&& tensor.shape@ == shape@
                    &&& tensor.device == Device::Cpu
                    &&& final(graph).nodes@.last().op matches Op::Data(data) && final(graph).made(
                        *old(graph),
                        tensor,
                        Op::Data(data),
                    ) && data@.len() == numel(shape@) && all_zero(data@)
                    &&& final(graph).extends(*old(graph))
                },
                Err(error) => {
                    &&& counted_numel(shape@) == std::result::Result::<nat, Failure>::Err(error@)
                    &&& *final(graph) == *old(graph)
                },
            },
    {
        let len: usize = checked_numel(&shape)?;
        let data = filled(T::of_count(0), len);
        Ok(Tensor::push(graph, shape, Device::Cpu, Op::Data(data)))
    }

    /// A CPU tensor of ones.
    pub fn ones<T: Scalar>(graph: &mut Graph<T>, shape: Vec<usize>) -> (r: Result<Tensor>)
        requires
            old(graph).wf(),
        ensures
            final(graph).wf(),
            match r {
                Ok(tensor) => {
                    &&& counted_numel(shape@) is Ok
                    &&& tensor.shape@ == shape@
                    &&& tensor.device == Device::Cpu
                    &&& final(graph).nodes@.last().op matches Op::Data(data) && final(graph).made(
                        *old(graph),
                        tensor,
                        Op::Data(data),
                    ) && data@.len() == numel(shape@) && (forall|i: int|
                        0 <= i < data@.len() ==> one(#[trigger] data@[i]))
                    &&& final(graph).extends(*old(graph))
                },
                Err(error) => {
                    &&& counted_numel(shape@) == std::result::Result::<nat, Failure>::Err(error@)
                    &&& *final(graph) == *old(graph)
                },
            },
    {
        let len: usize = checked_numel(&shape)?;
        let data = filled(T::of_count(1), len);
        Ok(Tensor::push(graph, shape, Device::Cpu, Op::Data(data)))
    }

    /// A CPU tensor of the counts below `end`.
    pub fn arange<T: Scalar>(graph: &mut Graph<T>, end: usize) -> (r: Tensor)
        requires
            old(graph).wf(),
        ensures
            final(graph).wf(),
            r.shape@ == seq![end],
            r.device == Device::Cpu,
            final(graph).nodes@.last().op matches Op::Data(data) && final(graph).made(
                *old(graph),
                r,
                Op::Data(data),
            ) && data@.len() == end && (forall|i: int|
                0 <= i < end ==> counted(i as usize, #[trigger] data@[i])),
            final(graph).extends(*old(graph)),
    {
        let mut data: Vec<T> = Vec::with_capacity(end);
        let mut i: usize = 0;
        while i < end
            invariant
                i <= end,
                data.len() == i,
                forall|j: int| 0 <= j < i ==> counted(j as usize, #[trigger] data@[j]),
            decreases end - i,
        {
            data.push(T::of_count(i));
            i = i + 1;
        }
        let mut shape: Vec<usize> = Vec::new();
        shape.push(end);
        proof {
            assert(shape@ =~= seq![end]);
            crate::shape::lemma_numel_1(shape@);
        }
        Tensor::push(graph, shape, Device::Cpu, Op::Data(data))
    }

    /// The dimensions.
    pub fn shape(&self) -> (r: &Vec<usize>)
        ensures
            r@ == self.shape@,
    {
        &self.shape
    }

    /// The number of elements.
    pub fn numel(&self) -> (r: usize)
        requires
            numel(self.shape@) <= usize::MAX,
        ensures
            r == numel(self.shape@),
    {
        count(&self.shape)
    }

    /// Where the tensor is evaluated.
    pub fn device(&self) -> (r: Device)
        ensures
            r == self.device,
    {
        self.device
    }

    /// Why an elementwise operation does not apply, if it does not.
    fn check_elementwise(&self, rhs: &Tensor) -> (r: Result<()>)
        ensures
            match r {
                Ok(_) => elementwise(self.form(), rhs.form()) is Ok,
                Err(error) => elementwise(self.form(), rhs.form()) == std::result::Result::<
                    Seq<usize>,
                    Failure,
                >::Err(error@),
            },
    {
        if self.device != rhs.device {
            return Err(Error::DeviceMismatch);
        }
        if !same_shape(&self.shape, &rhs.shape) {
            let mut message = owned("elementwise operands differ: ");
            push_shape(&mut message, &self.shape);
            message.append(" and ");
            push_shape(&mut message, &rhs.shape);
            return Err(Error::InvalidShape(message));
        }
        Ok(())
    }

    /// Adds two tensors of one shape, lazily.
    pub fn add<T>(&self, graph: &mut Graph<T>, rhs: &Tensor) -> (r: Result<Tensor>)
        requires
            old(graph).wf(),
            old(graph).has(*self),
            old(graph).has(*rhs),
        ensures
            final(graph).wf(),
            final(graph).attempts(
                *old(graph),
                r,
                elementwise(self.form(), rhs.form()),
                self.device,
                Op::Add(self.id, rhs.id),
            ),
    {
        self.check_elementwise(rhs)?;
        let shape = copied(&self.shape);
        Ok(Tensor::push(graph, shape, self.device, Op::Add(self.id, rhs.id)))
    }

    /// Multiplies two tensors of one shape element by element, lazily.
    pub fn mul<T>(&self, graph: &mut Graph<T>, rhs: &Tensor) -> (r: Result<Tensor>)
        requires
            old(graph).wf(),
            old(graph).has(*self),
            old(graph).has(*rhs),
        ensures
            final(graph).wf(),
            final(graph).attempts(
                *old(graph),
                r,
                elementwise(self.form(), rhs.form()),
                self.device,
                Op::Mul(self.id, rhs.id),
            ),
    {
        self.check_elementwise(rhs)?;
        let shape = copied(&self.shape);
        Ok(Tensor::push(graph, shape, self.device, Op::Mul(self.id, rhs.id)))
    }

    /// Replaces negative elements by zero, lazily.
    pub fn relu<T>(&self, graph: &mut Graph<T>) -> (r: Tensor)
        requires
            old(graph).wf(),
            old(graph).has(*self),
        ensures
            final(graph).wf(),
            final(graph).made(*old(graph), r, Op::Relu(self.id)),
            final(graph).extends(*old(graph)),
            r.shape@ == self.shape@,
            r.device == self.device,
    {
        let shape = copied(&self.shape);
        Tensor::push(graph, shape, self.device, Op::Relu(self.id))
    }

    /// Multiplies two row-major matrices, lazily.
    pub fn matmul<T>(&self, graph: &mut Graph<T>, rhs: &Tensor) -> (r: Result<Tensor>)
        requires
            old(graph).wf(),
            old(graph).has(*self),
            old(graph).has(*rhs),
        ensures
            final(graph).wf(),
            final(graph).attempts(
                *old(graph),
                r,
                matrix_product(self.form(), rhs.form()),
                self.device,
                Op::MatMul(self.id, rhs.id),
            ),
    {
        if self.device != rhs.device {
            return Err(Error::DeviceMismatch);
        }
        if self.shape.len() != 2 || rhs.shape.len() != 2 {
            return Err(Error::shape("matmul expects two rank-2 tensors"));
        }
        let m: usize = self.shape[0];
        let k: usize = self.shape[1];
        let rhs_k: usize = rhs.shape[0];
        let n: usize = rhs.shape[1];
        if k != rhs_k {
            let mut message = owned("matmul dimensions do not align: [");
            push_decimal(&mut message, m);
            message.append(", ");
            push_decimal(&mut message, k);
            message.append("] @ [");
            push_decimal(&mut message, rhs_k);
            message.append(", ");
            push_decimal(&mut message, n);
            message.append("]");
            return Err(Error::InvalidShape(message));
        }
        let mut shape: Vec<usize> = Vec::new();
        shape.push(m);
        shape.push(n);
        assert(shape@ =~= seq![m, n]);
        Ok(Tensor::push(graph, shape, self.device, Op::MatMul(self.id, rhs.id)))
    }

    /// Applies a grouped NCHW cross-correlation, lazily.  The weight is
    /// `[out_channels, in_channels / groups, kernel_h, kernel_w]`, the bias
    /// `[out_channels]`.
    pub fn conv2d<T>(
        &self,
        graph: &mut Graph<T>,
        weight: &Tensor,
        bias: &Tensor,
        stride: usize,
        padding: usize,
        groups: usize,
    ) -> (r: Result<Tensor>)
        requires
            old(graph).wf(),
            old(graph).has(*self),
            old(graph).has(*weight),
            old(graph).has(*bias),
        ensures
            final(graph).wf(),
            final(graph).attempts(
                *old(graph),
                r,
                convolution_of(self.form(), weight.form(), bias.form(), stride, padding, groups),
                self.device,
                (Op::Conv2d {
                    input: self.id,
                    weight: weight.id,
                    bias: bias.id,
                    stride,
                    padding,
                    groups,
                }),
            ),
    {
        if self.device != weight.device || self.device != bias.device {
            return Err(Error::DeviceMismatch);
        }
        if self.shape.len() != 4 || weight.shape.len() != 4 || bias.shape.len() != 1 {
            return Err(Error::shape("conv2d expects NCHW input, OIHW weight, and rank-1 bias"));
        }
        if stride == 0 || groups == 0 {
            return Err(Error::shape("conv2d stride and groups must be non-zero"));
        }
        let batch: usize = self.shape[0];
        let in_channels: usize = self.shape[1];
        let height: usize = self.shape[2];
        let width: usize = self.shape[3];
        let out_channels: usize = weight.shape[0];
        let weight_channels: usize = weight.shape[1];
        let kernel_h: usize = weight.shape[2];
        let kernel_w: usize = weight.shape[3];
        if kernel_h == 0 || kernel_w == 0 || kernel_h != kernel_w {
            return Err(Error::shape("conv2d currently requires a non-zero square kernel"));
        }
        if in_channels % groups != 0 || out_channels % groups != 0 || weight_channels
            != in_channels / groups || bias.shape[0] != out_channels {
            return Err(Error::shape("conv2d group/channel dimensions are inconsistent"));
        }
        let both: usize = if padding <= usize::MAX / 2 {
            2 * padding
        } else {
            usize::MAX
        };
        assert(both == doubled(padding));
        let padded_h: usize = match height.checked_add(both) {
            Some(padded) => padded,
            None => {
                return Err(Error::shape("conv2d padded height overflow"));
            },
        };
        let padded_w: usize = match width.checked_add(both) {
            Some(padded) => padded,
            None => {
                return Err(Error::shape("conv2d padded width overflow"));
            },
        };
        if padded_h < kernel_h || padded_w < kernel_w {
            return Err(Error::shape("conv2d kernel exceeds input"));
        }
        proof {
            crate::index::lemma_div_bound(padded_h - kernel_h, stride as int);
            crate::index::lemma_div_bound(padded_w - kernel_w, stride as int);
        }
        let mut shape: Vec<usize> = Vec::new();
        shape.push(batch);
        shape.push(out_channels);
        shape.push((padded_h - kernel_h) / stride + 1);
        shape.push((padded_w - kernel_w) / stride + 1);
        assert(shape@ =~= conv2d_shape(
            self.shape@,
            weight.shape@,
            bias.shape@,
            stride,
            padding,
            groups,
        ));
        Ok(
            Tensor::push(
                graph,
                shape,
                self.device,
                Op::Conv2d {
                    input: self.id,
                    weight: weight.id,
                    bias: bias.id,
                    stride,
                    padding,
                    groups,
                },
            ),
        )
    }

    /// Averages NCHW windows, lazily.
    pub fn avg_pool2d<T>(
        &self,
        graph: &mut Graph<T>,
        kernel: [usize; 2],
        stride: [usize; 2],
    ) -> (r: Result<Tensor>)
        requires
            old(graph).wf(),
            old(graph).has(*self),
        ensures
            final(graph).wf(),
            final(graph).attempts(
                *old(graph),
                r,
                average_pool(self.form(), kernel, stride),
                self.device,
                (Op::AvgPool2d { input: self.id, kernel, stride }),
            ),
    {
        if self.shape.len() != 4 {
            return Err(Error::shape("avg_pool2d expects NCHW input"));
        }
        if kernel[0] == 0 || kernel[1] == 0 || stride[0] == 0 || stride[1] == 0 {
            return Err(Error::shape("avg_pool2d kernel and stride must be non-zero"));
        }
        let height: usize = self.shape[2];
        let width: usize = self.shape[3];
        if kernel[0] > height || kernel[1] > width {
            return Err(Error::shape("avg_pool2d kernel exceeds input"));
        }
        proof {
            crate::index::lemma_div_bound(height - kernel[0], stride[0] as int);
            crate::index::lemma_div_bound(width - kernel[1], stride[1] as int);
        }
        let mut shape: Vec<usize> = Vec::new();
        shape.push(self.shape[0]);
        shape.push(self.shape[1]);
        shape.push((height - kernel[0]) / stride[0] + 1);
        shape.push((width - kernel[1]) / stride[1] + 1);
        assert(shape@ =~= avg_pool2d_shape(self.shape@, kernel, stride));
        Ok(
            Tensor::push(
                graph,
                shape,
                self.device,
                Op::AvgPool2d { input: self.id, kernel, stride },
            ),
        )
    }

    /// Averages the whole planes of an NCHW tensor, lazily.
    pub fn global_avg_pool2d<T>(&self, graph: &mut Graph<T>) -> (r: Result<Tensor>)
        requires
            old(graph).wf(),
            old(graph).has(*self),
        ensures
            final(graph).wf(),
            self.shape@.len() != 4 ==> {
                &&& r matches Err(error) && error@ == Failure::InvalidShape(
                    "global_avg_pool2d expects NCHW input"@,
                )
                &&& *final(graph) == *old(graph)
            },
            self.shape@.len() == 4 ==> {
                let plane = [self.shape@[2], self.shape@[3]];
                final(graph).attempts(
                    *old(graph),
                    r,
                    average_pool(self.form(), plane, plane),
                    self.device,
                    (Op::AvgPool2d { input: self.id, kernel: plane, stride: plane }),
                )
            },
    {
        if self.shape.len() != 4 {
            return Err(Error::shape("global_avg_pool2d expects NCHW input"));
        }
        let plane: [usize; 2] = [self.shape[2], self.shape[3]];
        self.avg_pool2d(graph, plane, plane)
    }

    /// The same elements under another shape, lazily.
    pub fn reshape<T>(&self, graph: &mut Graph<T>, shape: Vec<usize>) -> (r: Result<Tensor>)
        requires
            old(graph).wf(),
            old(graph).has(*self),
            numel(self.shape@) <= usize::MAX,
        ensures
            final(graph).wf(),
            final(graph).attempts(
                *old(graph),
                r,
                reshaped(self.form(), shape@),
                self.device,
                Op::Reshape(self.id),
            ),
    {
        let len: usize = checked_numel(&shape)?;
        if len != self.numel() {
            return Err(Error::shape("reshape must preserve the element count"));
        }
        Ok(Tensor::push(graph, shape, self.device, Op::Reshape(self.id)))
    }

    /// Mean sparse cross-entropy of `[batch, classes]` logits, lazily.  The targets are
    /// class indices as elements: they are looked at here where they are computed from
    /// data alone, otherwise when the loss is evaluated.
    pub fn cross_entropy<T: Scalar>(&self, graph: &mut Graph<T>, targets: &Tensor) -> (r: Result<
        Tensor,
    >)
        requires
            old(graph).wf(),
            old(graph).has(*self),
            old(graph).has(*targets),
        ensures
            final(graph).wf(),
            exists|fault: Option<Failure>|
                {
                    &&& entropy(self.form(), targets.form(), None) is Ok ==> judged(
                        old(graph).nodes@,
                        old(graph).norms@,
                        targets.id as int,
                        self.shape@[1],
                        fault,
                    )
                    &&& final(graph).attempts(
                        *old(graph),
                        r,
                        #[trigger] entropy(self.form(), targets.form(), fault),
                        self.device,
                        (Op::CrossEntropy { logits: self.id, targets: targets.id }),
                    )
                },
    {
        let ghost before = *graph;
        if self.device != targets.device {
            assert(entropy(self.form(), targets.form(), None) is Err);
            return Err(Error::DeviceMismatch);
        }
        if self.shape.len() != 2 || targets.shape.len() != 1 || self.shape[0]
            != targets.shape[0] {
            assert(entropy(self.form(), targets.form(), None) is Err);
            return Err(
                Error::shape("cross_entropy expects [batch, classes] logits and [batch] targets"),
            );
        }
        if graph.is_settled(targets.id) {
            let labels = graph.eval_cpu(targets.id, None);
            match labels {
                Ok(labels) => match check_labels(&labels, self.shape[1]) {
                    Ok(_) => {},
                    Err(error) => {
                        assert(valued(
                            before.nodes@,
                            None,
                            before.norms@,
                            targets.id as int,
                            labels@,
                            before.norms@,
                        ));
                        assert(judged(
                            before.nodes@,
                            before.norms@,
                            targets.id as int,
                            self.shape@[1],
                            Some(error@),
                        ));
                        assert(entropy(self.form(), targets.form(), Some(error@)) is Err);
                        return Err(error);
                    },
                },
                Err(_) => {},
            }
        }
        assert(judged(before.nodes@, before.norms@, targets.id as int, self.shape@[1], None));
        assert(entropy(self.form(), targets.form(), None) is Ok);
        let mut shape: Vec<usize> = Vec::new();
        shape.push(1);
        assert(shape@ =~= seq![1usize]);
        Ok(
            Tensor::push(
                graph,
                shape,
                self.device,
                Op::CrossEntropy { logits: self.id, targets: targets.id },
            ),
        )
    }

    /// A tensor whose elements are supplied when a traced graph runs.
    pub(crate) fn placeholder<T>(
        graph: &mut Graph<T>,
        slot: usize,
        shape: Vec<usize>,
        device: Device,
    ) -> (r: Tensor)
        requires
            old(graph).wf(),
        ensures
            final(graph).wf(),
            final(graph).made(*old(graph), r, Op::Placeholder(slot)),
            final(graph).extends(*old(graph)),
            r.shape@ == shape@,
            r.device == device,
    {
        Tensor::push(graph, shape, device, Op::Placeholder(slot))
    }
}

/// `r` answers whether a momentum is finite and between zero and one.
pub open spec fn fraction_like<T: Scalar>(momentum: T, r: bool) -> bool {
    ||| is_finite(momentum, false) && !r
    ||| is_finite(momentum, true) && crate::forward::negative(momentum, true) && !r
    ||| is_finite(momentum, true) && crate::forward::negative(momentum, false) && above_one(
        momentum,
        !r,
    )
}

/// `r` answers whether `value` is above one.
pub open spec fn above_one<T: Scalar>(value: T, r: bool) -> bool {
    exists|unit: T| one(unit) && #[trigger] less(unit, value, r)
}

/// `r` answers whether a value is finite and above zero.
pub open spec fn positive<T: Scalar>(value: T, r: bool) -> bool {
    ||| is_finite(value, false) && !r
    ||| is_finite(value, true) && above_zero(value, r)
}

/// `r` answers whether `value` is above zero.
pub open spec fn above_zero<T: Scalar>(value: T, r: bool) -> bool {
    exists|z: T| zero(z) && #[trigger] less(z, value, r)
}

/// Whether a momentum is finite and between zero and one.
fn check_fraction<T: Scalar>(momentum: T) -> (r: bool)
    ensures
        fraction_like(momentum, r),
{
    if !momentum.finite() {
        return false;
    }
    let z = T::of_count(0);
    if momentum.below(z) {
        assert(zero(z) && less(momentum, z, true));
        return false;
    }
    assert(zero(z) && less(momentum, z, false));
    let unit = T::of_count(1);
    let above = unit.below(momentum);
    assert(one(unit) && less(unit, momentum, above));
    !above
}

/// Whether a value is finite and above zero.
pub fn check_positive<T: Scalar>(value: T) -> (r: bool)
    ensures
        positive(value, r),
{
    if !value.finite() {
        return false;
    }
    let z = T::of_count(0);
    let r = z.below(value);
    assert(zero(z) && less(z, value, r));
    r
}

/// The failure of a batch normalization on these shapes and devices, if any.
pub open spec fn norm_mismatch(input: Form, weight: Form, bias: Form) -> Option<Failure> {
    if input.device != weight.device || input.device != bias.device {
        Some(Failure::DeviceMismatch)
    } else if input.shape.len() != 4 || weight.shape.len() != 1 || bias.shape.len() != 1 {
        Some(
            Failure::InvalidShape("batch_norm2d expects NCHW input and rank-1 weight/bias"@),
        )
    } else if weight.shape[0] != input.shape[1] || bias.shape[0] != input.shape[1] {
        Some(
            Failure::InvalidShape("batch_norm2d weight/bias must match the channel count"@),
        )
    } else {
        None
    }
}

/// The running statistics have one element for each of `channels` channels.
pub open spec fn channelled<T>(norms: Memory<T>, state: int, channels: usize) -> bool {
    &&& norms.states[state].mean.len() == channels
    &&& norms.states[state].variance.len() == channels
}

impl<T> Graph<T> {
    /// Adds running statistics for batch normalizations to share.
    pub fn add_norm_state(&mut self, mean: Vec<T>, variance: Vec<T>) -> (r: usize)
        requires
            old(self).wf(),
        ensures
            final(self).wf(),
            r == old(self).norms@.states.len(),
            final(self).nodes == old(self).nodes,
            final(self).grads == old(self).grads,
            final(self).next_parameter == old(self).next_parameter,
            final(self).norms@.saved == old(self).norms@.saved,
            final(self).norms@.states == old(self).norms@.states.push(
                crate::norm::State { mean: mean@, variance: variance@ },
            ),
    {
        let ghost before = self.norms@;
        let r = self.norms.states.len();
        self.norms.states.push(
            crate::norm::BatchNormState { running_mean: mean, running_variance: variance },
        );
        proof {
            assert(self.norms@.states =~= before.states.push(
                crate::norm::State { mean: mean@, variance: variance@ },
            ));
            assert(self.norms@.saved =~= before.saved);
            assert forall|i: int| 0 <= i < self.nodes@.len() implies #[trigger] shaped(
                self.nodes@,
                self.norms@,
                i,
            ) by {
                assert(shaped(self.nodes@, before, i));
            }
        }
        r
    }
}

impl Tensor {
    /// Normalizes NCHW data by its channels, lazily.
    pub fn batch_norm2d<T: Scalar>(
        &self,
        graph: &mut Graph<T>,
        weight: &Tensor,
        bias: &Tensor,
        state: usize,
        training: bool,
        momentum: T,
        epsilon: T,
    ) -> (r: Result<Tensor>)
        requires
            old(graph).wf(),
            old(graph).has(*self),
            old(graph).has(*weight),
            old(graph).has(*bias),
            state < old(graph).norms@.states.len(),
        ensures
            final(graph).wf(),
            final(graph).extends(*old(graph)),
            final(graph).next_parameter == old(graph).next_parameter,
            match r {
                Ok(tensor) => {
                    &&& norm_mismatch(self.form(), weight.form(), bias.form()) is None
                    &&& fraction_like(momentum, true)
                    &&& positive(epsilon, true)
                    &&& channelled(old(graph).norms@, state as int, self.shape@[1])
                    &&& final(graph).has(tensor)
                    &&& tensor.shape@ == self.shape@
                    &&& tensor.device == self.device
                    &&& tensor.id == old(graph).nodes@.len()
                    &&& final(graph).nodes@.drop_last() == old(graph).nodes@
                    &&& final(graph).nodes@.last().op == (Op::BatchNorm2d {
                        input: self.id,
                        weight: weight.id,
                        bias: bias.id,
                        state,
                        statistics: old(graph).norms@.saved.len() as usize,
                        training,
                        momentum,
                        epsilon,
                    })
                    &&& final(graph).norms@.saved == old(graph).norms@.saved.push(None)
                },
                Err(error) => {
                    &&& *final(graph) == *old(graph)
                    &&& {
                        ||| norm_mismatch(self.form(), weight.form(), bias.form()) == Some(error@)
                        ||| {
                            &&& norm_mismatch(self.form(), weight.form(), bias.form()) is None
                            &&& fraction_like(momentum, false)
                            &&& error@ == Failure::Execution(
                                "batch_norm2d momentum must be finite and in 0..=1"@,
                            )
                        }
                        ||| {
                            &&& norm_mismatch(self.form(), weight.form(), bias.form()) is None
                            &&& fraction_like(momentum, true)
                            &&& positive(epsilon, false)
                            &&& error@ == Failure::Execution(
                                "batch_norm2d epsilon must be positive and finite"@,
                            )
                        }
                        ||| {
                            &&& norm_mismatch(self.form(), weight.form(), bias.form()) is None
                            &&& fraction_like(momentum, true)
                            &&& positive(epsilon, true)
                            &&& !channelled(old(graph).norms@, state as int, self.shape@[1])
                            &&& error@ == Failure::InvalidShape(
                                "batch_norm2d running statistics must match the channel count"@,
                            )
                        }
                    }
                },
            },
    {
        if self.device != weight.device || self.device != bias.device {
            return Err(Error::DeviceMismatch);
        }
        if self.shape.len() != 4 || weight.shape.len() != 1 || bias.shape.len() != 1 {
            return Err(Error::shape("batch_norm2d expects NCHW input and rank-1 weight/bias"));
        }
        let channels: usize = self.shape[1];
        if weight.shape[0] != channels || bias.shape[0] != channels {
            return Err(Error::shape("batch_norm2d weight/bias must match the channel count"));
        }
        if !check_fraction(momentum) {
            return Err(Error::execution("batch_norm2d momentum must be finite and in 0..=1"));
        }
        if !check_positive(epsilon) {
            return Err(Error::execution("batch_norm2d epsilon must be positive and finite"));
        }
        assert(graph.norms@.states[state as int] == graph.norms.states@[state as int]@);
        if graph.norms.states[state].running_mean.len() != channels
            || graph.norms.states[state].running_variance.len() != channels {
            return Err(
                Error::shape("batch_norm2d running statistics must match the channel count"),
            );
        }
        let shape = copied(&self.shape);
        let slot: usize = graph.norms.saved.len();
        let ghost nodes = graph.nodes@;
        let ghost before = graph.norms@;
        graph.norms.saved.push(None);
        let op = Op::BatchNorm2d {
            input: self.id,
            weight: weight.id,
            bias: bias.id,
            state,
            statistics: slot,
            training,
            momentum,
            epsilon,
        };
        proof {
            assert(graph.norms@.states =~= before.states);
            assert(graph.norms@.saved =~= before.saved.push(None));
            crate::copy::lemma_sound_slot(nodes, before, graph.norms@);
            assert forall|j: int|
                0 <= j < nodes.len() && (#[trigger] nodes[j]).op is BatchNorm2d implies
                nodes[j].op->statistics != slot by {
                assert(shaped(nodes, before, j));
            }
            assert(weight.shape@ =~= seq![channels]);
            assert(bias.shape@ =~= seq![channels]);
        }
        Ok(Tensor::push(graph, shape, self.device, op))
    }
}

/// Growth in two steps is growth.
pub proof fn lemma_extends<T>(a: Graph<T>, b: Graph<T>, c: Graph<T>)
    requires
        a.wf(),
        b.wf(),
        b.extends(a),
        c.extends(b),
    ensures
        c.extends(a),
{
    assert forall|i: int| 0 <= i < a.nodes@.len() implies #[trigger] c.nodes@[i] == a.nodes@[i] by {
        assert(b.nodes@[i] == a.nodes@[i]);
    }
    assert forall|i: int| 0 <= i < a.grads@.len() implies #[trigger] c.grads@[i] == a.grads@[i] by {
        assert(b.grads@[i] == a.grads@[i]);
    }
    assert forall|i: int| 0 <= i < a.norms@.saved.len() implies #[trigger] c.norms@.saved[i]
        == a.norms@.saved[i] by {
        assert(b.norms@.saved[i] == a.norms@.saved[i]);
    }
    assert forall|i: int| a.nodes@.len() <= i < c.nodes@.len() implies #[trigger] c.grads@[i]
        is None by {
        if i < b.nodes@.len() {
            assert(c.grads@[i] == b.grads@[i]);
        }
    }
    assert forall|i: int| a.norms@.saved.len() <= i < c.norms@.saved.len() implies (
    #[trigger] c.norms@.saved[i]) is None by {
        if i < b.norms@.saved.len() {
            assert(c.norms@.saved[i] == b.norms@.saved[i]);
        }
    }
}

} // verus!

//! Layers.

use crate::copy::{lemma_copies_alike, lemma_data_memoryless};
use crate::error::{Error, Failure, Result};
use crate::graph::{Device, Graph, Node, Op};
use crate::random::{draw, drawn_after};
use crate::scalar::{
    all_zero, copied, counted, difference, one, product, quotient, rooted, Scalar,
};
use crate::shape::{lemma_numel_1, lemma_numel_2, lemma_numel_4, numel, overflows};
use crate::tensor::{convolution_of, elementwise, lemma_extends, Form, Tensor};
use vstd::prelude::*;

verus! {

/// The dimensions folded into a seed.
pub open spec fn folded(shape: Seq<usize>) -> u64
    decreases shape.len(),
{
    if shape.len() == 0 {
        0x9E37_79B9u64
    } else {
        folded(shape.drop_last()) ^ (shape.last() as u64).wrapping_mul(0xBF58_476D_1CE4_E5B9u64)
    }
}

/// The first state of the generator for weights of a shape.
pub open spec fn seed(shape: Seq<usize>) -> u64 {
    folded(shape) | 1u64
}

/// `r` is the square root of `2 / fan_in`.
pub open spec fn weight_scale<T: Scalar>(fan_in: usize, r: T) -> bool {
    exists|two: T, fan: T, variance: T|
        {
            &&& counted(2, two)
            &&& counted(fan_in, fan)
            &&& #[trigger] quotient(two, fan, variance)
            &&& #[trigger] rooted(variance, r)
        }
}

/// `r` is the weight that a generator state gives: its top bits as a fraction between
/// minus one and one, times `scale`.
pub open spec fn weight_drawn<T: Scalar>(state: u64, scale: T, r: T) -> bool {
    exists|bits: T, range: T, unit: T, two: T, wide: T, single: T, centred: T|
        {
            &&& counted((state >> 40) as usize, bits)
            &&& counted(16777216, range)
            &&& #[trigger] quotient(bits, range, unit)
            &&& counted(2, two)
            &&& #[trigger] product(unit, two, wide)
            &&& one(single)
            &&& #[trigger] difference(wide, single, centred)
            &&& #[trigger] product(centred, scale, r)
        }
}

/// The data are the initial weights of a shape.
pub open spec fn initial_weights<T: Scalar>(
    shape: Seq<usize>,
    fan_in: usize,
    data: Seq<T>,
) -> bool {
    exists|scale: T|
        {
            &&& #[trigger] weight_scale(fan_in, scale)
            &&& data.len() == numel(shape)
            &&& forall|i: int|
                0 <= i < data.len() ==> weight_drawn(
                    drawn_after(seed(shape), (i + 1) as nat),
                    scale,
                    #[trigger] data[i],
                )
        }
}

/// The initial weights of a convolution.
pub fn initialized_weights<T: Scalar>(
    shape: &Vec<usize>,
    input_channels_per_group: usize,
) -> (r: Vec<T>)
    requires
        shape.len() == 4,
        numel(shape@) <= usize::MAX,
        shape@[2] * shape@[3] <= usize::MAX,
        input_channels_per_group * (shape@[2] * shape@[3]) <= usize::MAX,
    ensures
        initial_weights(
            shape@,
            (input_channels_per_group * (shape@[2] * shape@[3])) as usize,
            r@,
        ),
{
    let kernel_area: usize = shape[2] * shape[3];
    let fan_in: usize = input_channels_per_group * kernel_area;
    let two = T::of_count(2);
    let fan = T::of_count(fan_in);
    let variance = two.over(fan);
    let scale = variance.root();
    assert(counted(2, two) && counted(fan_in, fan) && quotient(two, fan, variance) && rooted(
        variance,
        scale,
    ));
    assert(weight_scale(fan_in, scale));
    let mut state: u64 = 0x9E37_79B9;
    let mut i: usize = 0;
    assert(shape@.take(0) =~= Seq::empty());
    while i < shape.len()
        invariant
            i <= shape.len(),
            state == folded(shape@.take(i as int)),
        decreases shape.len() - i,
    {
        state = state ^ (shape[i] as u64).wrapping_mul(0xBF58_476D_1CE4_E5B9);
        assert(shape@.take(i + 1).drop_last() =~= shape@.take(i as int));
        i = i + 1;
    }
    assert(shape@.take(i as int) =~= shape@);
    state = state | 1;
    let len: usize = crate::shape::count(shape);
    let mut r: Vec<T> = Vec::with_capacity(len);
    let mut i: usize = 0;
    while i < len
        invariant
            i <= len,
            r.len() == i,
            state == drawn_after(seed(shape@), i as nat),
            forall|j: int|
                0 <= j < i ==> weight_drawn(
                    drawn_after(seed(shape@), (j + 1) as nat),
                    scale,
                    #[trigger] r@[j],
                ),
        decreases len - i,
    {
        state = draw(state);
        assert(state == drawn_after(seed(shape@), (i + 1) as nat));
        let bits = T::of_count((state >> 40) as usize);
        let range = T::of_count(16777216);
        let unit = bits.over(range);
        let two = T::of_count(2);
        let wide = unit.times(two);
        let single = T::of_count(1);
        let centred = wide.minus(single);
        let weight = centred.times(scale);
        assert(counted((state >> 40) as usize, bits) && counted(16777216, range) && quotient(
            bits,
            range,
            unit,
        ) && counted(2, two) && product(unit, two, wide) && one(single) && difference(
            wide,
            single,
            centred,
        ) && product(centred, scale, weight));
        assert(weight_drawn(state, scale, weight));
        r.push(weight);
        i = i + 1;
    }
    r
}

/// A trainable tensor with an identifier of its own.
#[derive(Debug)]
pub struct Parameter {
    pub id: u64,
    pub value: Tensor,
}

/// A parameter, its tensor taken by node, shape and device.
pub struct Slot {
    pub id: u64,
    pub node: usize,
    pub form: Form,
}

impl View for Parameter {
    type V = Slot;

    open spec fn view(&self) -> Slot {
        Slot { id: self.id, node: self.value.id, form: self.value.form() }
    }
}

impl Parameter {
    /// A parameter for a tensor, with an identifier that was not given out before.
    pub fn new<T>(graph: &mut Graph<T>, value: Tensor) -> (r: Parameter)
        requires
            old(graph).wf(),
            old(graph).has(value),
            old(graph).next_parameter < u64::MAX,
        ensures
            final(graph).wf(),
            r.id == old(graph).next_parameter,
            r.value == value,
            final(graph).next_parameter == old(graph).next_parameter + 1,
            final(graph).nodes == old(graph).nodes,
            final(graph).grads == old(graph).grads,
            final(graph).norms == old(graph).norms,
    {
        let id: u64 = graph.next_parameter;
        graph.next_parameter = id + 1;
        Parameter { id, value }
    }

    /// The identifier.
    pub fn id(&self) -> (r: u64)
        ensures
            r == self.id,
    {
        self.id
    }

    /// The tensor.
    pub fn value(&self) -> (r: &Tensor)
        ensures
            *r == self.value,
    {
        &self.value
    }

    /// The same parameter.
    pub fn copy(&self) -> (r: Parameter)
        ensures
            r@ == self@,
    {
        Parameter { id: self.id, value: self.value.clone() }
    }

    /// Gives the parameter a new tensor of the same shape on the same device.
    pub fn replace_data<T: Copy>(&mut self, graph: &mut Graph<T>, data: Vec<T>) -> (r: Result<()>)
        requires
            old(graph).wf(),
            old(graph).has(old(self).value),
        ensures
            final(graph).wf(),
            final(graph).extends(*old(graph)),
            final(graph).next_parameter == old(graph).next_parameter,
            final(graph).norms == old(graph).norms,
            match r {
                Ok(_) => {
                    &&& crate::shape::validated_numel(
                        data@.len(),
                        old(self).value.shape@,
                    ) is Ok
                    &&& final(self).id == old(self).id
                    &&& final(graph).has(final(self).value)
                    &&& final(self).value.form() == old(self).value.form()
                    &&& final(self).value.id >= old(graph).nodes@.len()
                    &&& final(graph).nodes@[final(self).value.id as int].op matches Op::Data(d)
                        && d@ == data@
                },
                Err(error) => {
                    &&& crate::shape::validated_numel(data@.len(), old(self).value.shape@)
                        == std::result::Result::<(), Failure>::Err(error@)
                    &&& *final(graph) == *old(graph)
                    &&& *final(self) == *old(self)
                },
            },
    {
        let device = self.value.device;
        let shape = copied(&self.value.shape);
        let made = Tensor::from_vec(graph, data, shape)?;
        let ghost middle = *graph;
        proof {
            lemma_data_memoryless(middle.nodes@, made.id as int);
        }
        let moved = made.to(graph, device);
        proof {
            lemma_extends(*old(graph), middle, *graph);
            assert(graph.nodes@[made.id as int] == middle.nodes@[made.id as int]);
            lemma_copies_alike(graph.nodes@, device, made.id as int, moved.id as int);
        }
        self.value = moved;
        Ok(())
    }
}

/// What a layer does to shapes.
pub trait Layer {
    /// The outcome of applying the layer to a tensor of a given shape and device.
    spec fn output(&self, input: Form) -> std::result::Result<Form, Failure>;

    /// Applying the layer stays within the range of counts.
    spec fn admits(&self, input: Form) -> bool;
}

/// A layer: it adds nodes that apply it to a tensor.
pub trait Module<T>: Layer {
    /// The layer's own tensors belong to the graph.
    spec fn lives_in(&self, graph: Graph<T>) -> bool;

    /// The node `output` is the layer applied to the node `input`.
    spec fn builds(&self, nodes: Seq<Node<T>>, input: int, output: int) -> bool;

    /// A layer stays in a graph that grows.
    proof fn lemma_lives(&self, before: Graph<T>, after: Graph<T>)
        requires
            self.lives_in(before),
            after.extends(before),
        ensures
            self.lives_in(after),
    ;

    /// What was built stays so in a graph that grows.
    proof fn lemma_builds(&self, before: Graph<T>, after: Graph<T>, input: int, output: int)
        requires
            self.builds(before.nodes@, input, output),
            after.extends(before),
        ensures
            self.builds(after.nodes@, input, output),
    ;

    /// Applies the layer, lazily.
    fn forward(&self, graph: &mut Graph<T>, input: &Tensor) -> (r: Result<Tensor>)
        requires
            old(graph).wf(),
            self.lives_in(*old(graph)),
            self.admits(input.form()),
            old(graph).has(*input),
        ensures
            final(graph).wf(),
            final(graph).extends(*old(graph)),
            final(graph).next_parameter == old(graph).next_parameter,
            match r {
                Ok(tensor) => {
                    &&& self.output(input.form()) == std::result::Result::<Form, Failure>::Ok(
                        tensor.form(),
                    )
                    &&& final(graph).has(tensor)
                    &&& self.builds(final(graph).nodes@, input.id as int, tensor.id as int)
                },
                Err(error) => self.output(input.form()) == std::result::Result::<
                    Form,
                    Failure,
                >::Err(error@),
            },
    ;
}

/// The parameters as they stand in a sequence.
pub open spec fn slots(parameters: Seq<Parameter>) -> Seq<Slot> {
    Seq::new(parameters.len(), |i: int| parameters[i]@)
}

/// A layer with trainable parameters, in a fixed order.
pub trait Trainable {
    /// The parameters, in order.
    spec fn parameters(&self) -> Seq<Slot>;

    /// The layers differ in their parameters at most.
    spec fn resembles(&self, other: &Self) -> bool;

    /// The parameters, in order.
    fn visit_parameters(&self) -> (r: Vec<Parameter>)
        ensures
            slots(r@) == self.parameters(),
    ;

    /// Puts other parameters in the place of the layer's, in order, from position `at` of
    /// a list on.
    fn visit_parameters_mut(&mut self, parameters: &Vec<Parameter>, at: usize)
        requires
            at + old(self).parameters().len() <= parameters.len(),
        ensures
            final(self).parameters() == slots(parameters@).subrange(
                at as int,
                at + old(self).parameters().len(),
            ),
            final(self).resembles(old(self)),
    ;
}

/// A grouped convolution.
#[derive(Debug)]
pub struct Conv2d {
    pub weight: Parameter,
    pub bias: Parameter,
    pub stride: usize,
    pub padding: usize,
    pub groups: usize,
}

/// A convolution's channels divide into its groups, and its kernel is not empty.
pub open spec fn configurable(
    in_channels: usize,
    out_channels: usize,
    kernel_size: usize,
    groups: usize,
) -> bool {
    &&& kernel_size != 0
    &&& groups != 0
    &&& in_channels % groups == 0
    &&& out_channels % groups == 0
}

/// The weight of a convolution has a countable number of elements.
pub open spec fn countable_weight(
    in_channels: usize,
    out_channels: usize,
    kernel_size: usize,
    groups: usize,
) -> bool {
    &&& kernel_size * kernel_size <= usize::MAX
    &&& (in_channels / groups) * (kernel_size * kernel_size) <= usize::MAX
    &&& out_channels * (in_channels / groups) * kernel_size * kernel_size <= usize::MAX
}

/// The failure of a convolution whose channels, groups and kernel do not agree.
pub open spec fn misconfigured() -> Failure {
    Failure::InvalidShape("invalid Conv2d channel, group, or kernel configuration"@)
}

/// One sample that just holds the kernel of a weight.
pub open spec fn kernel_sized(weight: Form, groups: usize) -> Form {
    Form {
        shape: seq![
            1usize,
            (weight.shape[1] * groups) as usize,
            weight.shape[2],
            weight.shape[3],
        ],
        device: weight.device,
    }
}

/// Why a weight and a bias do not go together, if they do not.
pub open spec fn tensors_mismatch(
    weight: Form,
    bias: Form,
    stride: usize,
    padding: usize,
    groups: usize,
) -> Option<Failure> {
    if weight.shape.len() != 4 || bias.shape.len() != 1 {
        Some(Failure::InvalidShape("Conv2d weight must be OIHW and bias rank 1"@))
    } else if weight.shape[1] * groups > usize::MAX {
        Some(Failure::InvalidShape("conv2d group/channel dimensions are inconsistent"@))
    } else {
        match convolution_of(
            kernel_sized(weight, groups),
            weight,
            bias,
            stride,
            padding,
            groups,
        ) {
            Ok(_) => None,
            Err(failure) => Some(failure),
        }
    }
}

impl Conv2d {
    /// The layer was made for these channels, with its own initial weights and a zero
    /// bias.
    pub open spec fn fresh<T: Scalar>(
        self,
        graph: Graph<T>,
        in_channels: usize,
        out_channels: usize,
        kernel_size: usize,
        stride: usize,
        groups: usize,
        device: Device,
    ) -> bool {
        let shape = seq![out_channels, in_channels / groups, kernel_size, kernel_size];
        &&& graph.has(self.weight.value)
        &&& graph.has(self.bias.value)
        &&& self.weight.value.form() == (Form { shape, device })
        &&& self.bias.value.form() == (Form { shape: seq![out_channels], device })
        &&& self.stride == stride
        &&& self.padding == kernel_size / 2
        &&& self.groups == groups
        &&& graph.nodes@[self.weight.value.id as int].op matches Op::Data(data)
            && initial_weights(
            shape,
            ((in_channels / groups) * (kernel_size * kernel_size)) as usize,
            data@,
        )
        &&& graph.nodes@[self.bias.value.id as int].op matches Op::Data(data) && all_zero(data@)
            && data@.len() == out_channels
    }

    /// A convolution with initial weights.
    pub fn new<T: Scalar>(
        graph: &mut Graph<T>,
        in_channels: usize,
        out_channels: usize,
        kernel_size: usize,
        stride: usize,
        groups: usize,
        device: Device,
    ) -> (r: Result<Conv2d>)
        requires
            old(graph).wf(),
            configurable(in_channels, out_channels, kernel_size, groups) ==> countable_weight(
                in_channels,
                out_channels,
                kernel_size,
                groups,
            ) && old(graph).next_parameter + 2 <= u64::MAX,
        ensures
            final(graph).wf(),
            final(graph).extends(*old(graph)),
            match r {
                Ok(layer) => {
                    &&& configurable(in_channels, out_channels, kernel_size, groups)
                    &&& layer.fresh(
                        *final(graph),
                        in_channels,
                        out_channels,
                        kernel_size,
                        stride,
                        groups,
                        device,
                    )
                    &&& all_new(*old(graph), *final(graph), layer.parameters())
                },
                Err(error) => {
                    &&& !configurable(in_channels, out_channels, kernel_size, groups)
                    &&& error@ == misconfigured()
                    &&& *final(graph) == *old(graph)
                },
            },
    {
        if kernel_size == 0 || groups == 0 || in_channels % groups != 0 || out_channels % groups
            != 0 {
            return Err(Error::shape("invalid Conv2d channel, group, or kernel configuration"));
        }
        let ghost start = *graph;
        let per_group: usize = in_channels / groups;
        let mut shape: Vec<usize> = Vec::new();
        shape.push(out_channels);
        shape.push(per_group);
        shape.push(kernel_size);
        shape.push(kernel_size);
        proof {
            assert(shape@ =~= seq![out_channels, per_group, kernel_size, kernel_size]);
            lemma_numel_4(shape@);
            lemma_conv_shape(out_channels, per_group, kernel_size);
        }
        let data = initialized_weights::<T>(&shape, per_group);
        let made = Tensor::from_vec(graph, data, shape).unwrap();
        let ghost first = *graph;
        let moved = made.to(graph, device);
        let ghost second = *graph;
        proof {
            lemma_extends(start, first, second);
            assert(second.nodes@[made.id as int] == first.nodes@[made.id as int]);
            lemma_copies_alike(second.nodes@, device, made.id as int, moved.id as int);
        }
        let weight = Parameter::new(graph, moved);
        let ghost third = *graph;
        let mut shape: Vec<usize> = Vec::new();
        shape.push(out_channels);
        proof {
            assert(shape@ =~= seq![out_channels]);
            lemma_numel_1(shape@);
            assert forall|k: int| 0 <= k <= shape@.len() implies #[trigger] numel(shape@.take(k))
                <= usize::MAX by {
                if k == 0 {
                    assert(shape@.take(0) =~= Seq::empty());
                } else {
                    assert(shape@.take(k) =~= shape@);
                }
            }
        }
        let made = Tensor::zeros(graph, shape).unwrap();
        let ghost fourth = *graph;
        let moved = made.to(graph, device);
        let ghost fifth = *graph;
        proof {
            lemma_extends(third, fourth, fifth);
            lemma_extends(start, third, fifth);
            assert(fifth.nodes@[made.id as int] == fourth.nodes@[made.id as int]);
            lemma_copies_alike(fifth.nodes@, device, made.id as int, moved.id as int);
        }
        let bias = Parameter::new(graph, moved);
        proof {
            lemma_extends(start, fifth, *graph);
            assert(graph.nodes@[weight.value.id as int] == third.nodes@[weight.value.id as int]);
        }
        let layer = Conv2d { weight, bias, stride, padding: kernel_size / 2, groups };
        assert(all_new(start, *graph, layer.parameters()));
        Ok(layer)
    }

    /// A convolution with given tensors.  They have to go together: the convolution has
    /// to be applicable to an input that just holds its kernel.
    pub fn from_tensors<T>(
        graph: &mut Graph<T>,
        weight: Tensor,
        bias: Tensor,
        stride: usize,
        padding: usize,
        groups: usize,
    ) -> (r: Result<Conv2d>)
        requires
            old(graph).wf(),
            old(graph).has(weight),
            old(graph).has(bias),
            old(graph).next_parameter + 2 <= u64::MAX,
        ensures
            final(graph).wf(),
            final(graph).extends(*old(graph)),
            match r {
                Ok(layer) => {
                    &&& tensors_mismatch(
                        weight.form(),
                        bias.form(),
                        stride,
                        padding,
                        groups,
                    ) is None
                    &&& layer.weight.value == weight
                    &&& layer.bias.value == bias
                    &&& layer.weight.id == old(graph).next_parameter
                    &&& layer.bias.id == old(graph).next_parameter + 1
                    &&& final(graph).next_parameter == old(graph).next_parameter + 2
                    &&& layer.stride == stride
                    &&& layer.padding == padding
                    &&& layer.groups == groups
                },
                Err(error) => {
                    &&& tensors_mismatch(weight.form(), bias.form(), stride, padding, groups)
                        == Some(error@)
                    &&& final(graph).next_parameter == old(graph).next_parameter
                },
            },
    {
        if weight.shape.len() != 4 || bias.shape.len() != 1 {
            return Err(Error::shape("Conv2d weight must be OIHW and bias rank 1"));
        }
        let channels: usize = match weight.shape[1].checked_mul(groups) {
            Some(channels) => channels,
            None => {
                return Err(Error::shape("conv2d group/channel dimensions are inconsistent"));
            },
        };
        let mut shape: Vec<usize> = Vec::new();
        shape.push(1);
        shape.push(channels);
        shape.push(weight.shape[2]);
        shape.push(weight.shape[3]);
        assert(shape@ =~= kernel_sized(weight.form(), groups).shape);
        let ghost start = *graph;
        let sample = Tensor::placeholder(graph, 0, shape, weight.device);
        let ghost first = *graph;
        assert(first.nodes@[weight.id as int] == start.nodes@[weight.id as int]);
        assert(first.nodes@[bias.id as int] == start.nodes@[bias.id as int]);
        let outcome = sample.conv2d(graph, &weight, &bias, stride, padding, groups);
        let ghost second = *graph;
        proof {
            lemma_extends(start, first, second);
        }
        let made = outcome?;
        proof {
            assert(second.nodes@[weight.id as int] == first.nodes@[weight.id as int]);
            assert(second.nodes@[bias.id as int] == first.nodes@[bias.id as int]);
        }
        let weight = Parameter::new(graph, weight);
        let bias = Parameter::new(graph, bias);
        proof {
            lemma_extends(start, second, *graph);
        }
        Ok(Conv2d { weight, bias, stride, padding, groups })
    }

    /// The weight.
    pub fn weight(&self) -> (r: &Tensor)
        ensures
            *r == self.weight.value,
    {
        &self.weight.value
    }

    /// The bias.
    pub fn bias(&self) -> (r: &Tensor)
        ensures
            *r == self.bias.value,
    {
        &self.bias.value
    }
}

proof fn lemma_conv_shape(out_channels: usize, per_group: usize, kernel: usize)
    requires
        kernel > 0,
        out_channels * per_group * kernel * kernel <= usize::MAX,
    ensures
        !overflows(seq![out_channels, per_group, kernel, kernel]),
{
    let shape = seq![out_channels, per_group, kernel, kernel];
    lemma_numel_4(shape);
    let (o, p, k) = (out_channels as int, per_group as int, kernel as int);
    assert(0 <= o * p && o * p <= o * p * k && o * p * k <= o * p * k * k) by (nonlinear_arith)
        requires
            0 <= o,
            0 <= p,
            1 <= k,
    ;
    assert forall|n: int| 0 <= n <= shape.len() implies #[trigger] numel(shape.take(n))
        <= usize::MAX by {
        if n == 0 {
            assert(shape.take(0) =~= Seq::empty());
        } else if n == 1 {
            lemma_numel_1(shape.take(1));
        } else if n == 2 {
            lemma_numel_2(shape.take(2));
        } else if n == 3 {
            assert(shape.take(3).drop_last() =~= shape.take(2));
            lemma_numel_2(shape.take(2));
        } else {
            assert(shape.take(4) =~= shape);
        }
    }
}

impl Layer for Conv2d {
    open spec fn admits(&self, input: Form) -> bool {
        true
    }

    open spec fn output(&self, input: Form) -> std::result::Result<Form, Failure> {
        match convolution_of(
            input,
            self.weight.value.form(),
            self.bias.value.form(),
            self.stride,
            self.padding,
            self.groups,
        ) {
            Ok(shape) => Ok(Form { shape, device: input.device }),
            Err(failure) => Err(failure),
        }
    }
}

impl<T> Module<T> for Conv2d {
    open spec fn lives_in(&self, graph: Graph<T>) -> bool {
        graph.has(self.weight.value) && graph.has(self.bias.value)
    }

    open spec fn builds(&self, nodes: Seq<Node<T>>, input: int, output: int) -> bool {
        &&& 0 <= output < nodes.len()
        &&& nodes[output].op == (Op::<T>::Conv2d {
            input: input as usize,
            weight: self.weight.value.id,
            bias: self.bias.value.id,
            stride: self.stride,
            padding: self.padding,
            groups: self.groups,
        })
    }

    proof fn lemma_lives(&self, before: Graph<T>, after: Graph<T>) {
        assert(after.nodes@[self.weight.value.id as int]
            == before.nodes@[self.weight.value.id as int]);
        assert(after.nodes@[self.bias.value.id as int]
            == before.nodes@[self.bias.value.id as int]);
    }

    proof fn lemma_builds(&self, before: Graph<T>, after: Graph<T>, input: int, output: int) {
        assert(after.nodes@[output] == before.nodes@[output]);
    }

    fn forward(&self, graph: &mut Graph<T>, input: &Tensor) -> (r: Result<Tensor>) {
        input.conv2d(
            graph,
            &self.weight.value,
            &self.bias.value,
            self.stride,
            self.padding,
            self.groups,
        )
    }
}

/// The parameters are new: they have the next numbers, in order, and each a node of its own
/// that `before` does not have.
pub open spec fn all_new<T>(before: Graph<T>, after: Graph<T>, parameters: Seq<Slot>) -> bool {
    &&& after.next_parameter == before.next_parameter + parameters.len()
    &&& forall|k: int|
        0 <= k < parameters.len() ==> {
            &&& (#[trigger] parameters[k]).id == before.next_parameter + k
            &&& before.nodes@.len() <= parameters[k].node < after.nodes@.len()
        }
    &&& forall|j: int, k: int|
        0 <= j < k < parameters.len() ==> (#[trigger] parameters[j]).node < (
        #[trigger] parameters[k]).node
}

/// Parameters that are made one after the other are new.
pub proof fn lemma_all_new<T>(
    before: Graph<T>,
    middle: Graph<T>,
    after: Graph<T>,
    first: Seq<Slot>,
    second: Seq<Slot>,
)
    requires
        all_new(before, middle, first),
        all_new(middle, after, second),
        before.nodes@.len() <= middle.nodes@.len() <= after.nodes@.len(),
    ensures
        all_new(before, after, first + second),
{
    let all = first + second;
    assert forall|k: int| 0 <= k < all.len() implies {
        &&& (#[trigger] all[k]).id == before.next_parameter + k
        &&& before.nodes@.len() <= all[k].node < after.nodes@.len()
    } by {
        if k < first.len() {
            assert(all[k] == first[k]);
        } else {
            assert(all[k] == second[k - first.len()]);
        }
    }
    assert forall|j: int, k: int| 0 <= j < k < all.len() implies (#[trigger] all[j]).node < (
    #[trigger] all[k]).node by {
        if k < first.len() {
            assert(all[j] == first[j] && all[k] == first[k]);
        } else if j < first.len() {
            assert(all[j] == first[j] && all[k] == second[k - first.len()]);
        } else {
            assert(all[j] == second[j - first.len()] && all[k] == second[k - first.len()]);
        }
    }
}

impl Trainable for Conv2d {
    open spec fn parameters(&self) -> Seq<Slot> {
        seq![self.weight@, self.bias@]
    }

    open spec fn resembles(&self, other: &Self) -> bool {
        &&& self.stride == other.stride
        &&& self.padding == other.padding
        &&& self.groups == other.groups
    }

    fn visit_parameters(&self) -> (r: Vec<Parameter>) {
        let mut r: Vec<Parameter> = Vec::new();
        r.push(self.weight.copy());
        r.push(self.bias.copy());
        assert(slots(r@) =~= self.parameters());
        r
    }

    fn visit_parameters_mut(&mut self, parameters: &Vec<Parameter>, at: usize) {
        assert(self.parameters().len() == 2);
        self.weight = parameters[at].copy();
        self.bias = parameters[at + 1].copy();
        assert(self.parameters() =~= slots(parameters@).subrange(at as int, at + 2));
    }
}

/// A convolution, followed by a rectifier where `activation` is set.
#[derive(Debug)]
pub struct ConvNormAct {
    pub conv: Conv2d,
    pub activation: bool,
}

impl ConvNormAct {
    /// A convolution with initial weights, followed by a rectifier where `activation` is
    /// set.
    pub fn new<T: Scalar>(
        graph: &mut Graph<T>,
        in_channels: usize,
        out_channels: usize,
        kernel_size: usize,
        stride: usize,
        groups: usize,
        activation: bool,
        device: Device,
    ) -> (r: Result<ConvNormAct>)
        requires
            old(graph).wf(),
            configurable(in_channels, out_channels, kernel_size, groups) ==> countable_weight(
                in_channels,
                out_channels,
                kernel_size,
                groups,
            ) && old(graph).next_parameter + 2 <= u64::MAX,
        ensures
            final(graph).wf(),
            final(graph).extends(*old(graph)),
            match r {
                Ok(layer) => {
                    &&& configurable(in_channels, out_channels, kernel_size, groups)
                    &&& layer.activation == activation
                    &&& layer.conv.fresh(
                        *final(graph),
                        in_channels,
                        out_channels,
                        kernel_size,
                        stride,
                        groups,
                        device,
                    )
                    &&& all_new(*old(graph), *final(graph), layer.parameters())
                },
                Err(error) => {
                    &&& !configurable(in_channels, out_channels, kernel_size, groups)
                    &&& error@ == misconfigured()
                    &&& *final(graph) == *old(graph)
                },
            },
    {
        let conv = Conv2d::new(
            graph,
            in_channels,
            out_channels,
            kernel_size,
            stride,
            groups,
            device,
        )?;
        Ok(ConvNormAct { conv, activation })
    }
}

impl Layer for ConvNormAct {
    open spec fn admits(&self, input: Form) -> bool {
        true
    }

    open spec fn output(&self, input: Form) -> std::result::Result<Form, Failure> {
        self.conv.output(input)
    }
}

impl<T> Module<T> for ConvNormAct {
    open spec fn lives_in(&self, graph: Graph<T>) -> bool {
        self.conv.lives_in(graph)
    }

    open spec fn builds(&self, nodes: Seq<Node<T>>, input: int, output: int) -> bool {
        &&& 0 <= output < nodes.len()
        &&& if self.activation {
            nodes[output].op matches Op::Relu(convolved) && self.conv.builds(
                nodes,
                input,
                convolved as int,
            )
        } else {
            self.conv.builds(nodes, input, output)
        }
    }

    proof fn lemma_lives(&self, before: Graph<T>, after: Graph<T>) {
        self.conv.lemma_lives(before, after);
    }

    proof fn lemma_builds(&self, before: Graph<T>, after: Graph<T>, input: int, output: int) {
        assert(after.nodes@[output] == before.nodes@[output]);
        if self.activation {
            let convolved = before.nodes@[output].op->Relu_0;
            self.conv.lemma_builds(before, after, input, convolved as int);
        } else {
            self.conv.lemma_builds(before, after, input, output);
        }
    }

    fn forward(&self, graph: &mut Graph<T>, input: &Tensor) -> (r: Result<Tensor>) {
        let output = self.conv.forward(graph, input)?;
        if self.activation {
            let ghost before = *graph;
            let r = output.relu(graph);
            proof {
                lemma_extends(*old(graph), before, *graph);
                self.conv.lemma_builds(before, *graph, input.id as int, output.id as int);
            }
            Ok(r)
        } else {
            Ok(output)
        }
    }
}

impl Trainable for ConvNormAct {
    open spec fn parameters(&self) -> Seq<Slot> {
        self.conv.parameters()
    }

    open spec fn resembles(&self, other: &Self) -> bool {
        self.conv.resembles(&other.conv) && self.activation == other.activation
    }

    fn visit_parameters(&self) -> (r: Vec<Parameter>) {
        self.conv.visit_parameters()
    }

    fn visit_parameters_mut(&mut self, parameters: &Vec<Parameter>, at: usize) {
        self.conv.visit_parameters_mut(parameters, at);
    }
}

impl Conv2d {
    /// A layer stays as it was made while the graph grows.
    pub proof fn lemma_fresh<T: Scalar>(
        self,
        before: Graph<T>,
        after: Graph<T>,
        in_channels: usize,
        out_channels: usize,
        kernel_size: usize,
        stride: usize,
        groups: usize,
        device: Device,
    )
        requires
            self.fresh(
                before,
                in_channels,
                out_channels,
                kernel_size,
                stride,
                groups,
                device,
            ),
            after.extends(before),
        ensures
            self.fresh(after, in_channels, out_channels, kernel_size, stride, groups, device),
    {
        assert(after.nodes@[self.weight.value.id as int]
            == before.nodes@[self.weight.value.id as int]);
        assert(after.nodes@[self.bias.value.id as int]
            == before.nodes@[self.bias.value.id as int]);
    }
}

/// The outcome of an optional layer.
pub open spec fn optional_output(layer: Option<ConvNormAct>, input: Form) -> std::result::Result<
    Form,
    Failure,
> {
    match layer {
        Some(layer) => layer.output(input),
        None => Ok(input),
    }
}

/// The node `output` is the optional layer applied to the node `input`.
pub open spec fn optional_builds<T>(
    layer: Option<ConvNormAct>,
    nodes: Seq<Node<T>>,
    input: int,
    output: int,
) -> bool {
    match layer {
        Some(layer) => layer.builds(nodes, input, output),
        None => output == input,
    }
}

/// The optional layer's own tensors belong to the graph.
pub open spec fn optional_lives<T>(layer: Option<ConvNormAct>, graph: Graph<T>) -> bool {
    layer matches Some(layer) ==> layer.lives_in(graph)
}

/// The parameters of an optional layer.
pub open spec fn optional_parameters(layer: Option<ConvNormAct>) -> Seq<Slot> {
    match layer {
        Some(layer) => layer.parameters(),
        None => Seq::empty(),
    }
}

/// The optional layers differ in their parameters at most.
pub open spec fn optional_resembles(
    layer: Option<ConvNormAct>,
    other: Option<ConvNormAct>,
) -> bool {
    match (layer, other) {
        (Some(layer), Some(other)) => layer.resembles(&other),
        (None, None) => true,
        _ => false,
    }
}

/// The optional depthwise layer was made for `channels` channels and the optional kernel.
pub open spec fn optional_fresh<T: Scalar>(
    layer: Option<ConvNormAct>,
    graph: Graph<T>,
    channels: usize,
    kernel: Option<usize>,
    stride: usize,
    device: Device,
) -> bool {
    match (layer, kernel) {
        (Some(layer), Some(kernel)) => {
            &&& layer.activation
            &&& layer.conv.fresh(graph, channels, channels, kernel, stride, channels, device)
        },
        (None, None) => true,
        _ => false,
    }
}

fn optional_forward<T>(
    layer: &Option<ConvNormAct>,
    graph: &mut Graph<T>,
    input: &Tensor,
) -> (r: Result<Tensor>)
    requires
        old(graph).wf(),
        optional_lives(*layer, *old(graph)),
        old(graph).has(*input),
    ensures
        final(graph).wf(),
        final(graph).extends(*old(graph)),
        final(graph).next_parameter == old(graph).next_parameter,
        match r {
            Ok(tensor) => {
                &&& optional_output(*layer, input.form()) == std::result::Result::<
                    Form,
                    Failure,
                >::Ok(tensor.form())
                &&& final(graph).has(tensor)
                &&& optional_builds(
                    *layer,
                    final(graph).nodes@,
                    input.id as int,
                    tensor.id as int,
                )
            },
            Err(error) => optional_output(*layer, input.form()) == std::result::Result::<
                Form,
                Failure,
            >::Err(error@),
        },
{
    match layer {
        Some(layer) => layer.forward(graph, input),
        None => Ok(input.clone()),
    }
}

fn push_all(list: &mut Vec<Parameter>, more: Vec<Parameter>)
    ensures
        slots(final(list)@) == slots(old(list)@) + slots(more@),
{
    let ghost start = slots(list@);
    let mut i: usize = 0;
    assert(start + slots(more@).take(0) =~= start);
    while i < more.len()
        invariant
            i <= more.len(),
            slots(list@) == start + slots(more@).take(i as int),
        decreases more.len() - i,
    {
        let ghost before = list@;
        list.push(more[i].copy());
        proof {
            assert(slots(list@) =~= slots(before).push(more@[i as int]@));
            assert(slots(more@).take(i + 1) =~= slots(more@).take(i as int).push(
                more@[i as int]@,
            ));
            assert(slots(list@) =~= start + slots(more@).take(i + 1));
        }
        i = i + 1;
    }
    assert(slots(more@).take(i as int) =~= slots(more@));
}

/// The universal inverted bottleneck: an optional depthwise convolution, an expanding and
/// a projecting pointwise convolution with an optional depthwise one between them, and a
/// residual connection where shapes allow it.
#[derive(Debug)]
pub struct UniversalInvertedBottleneck {
    pub start_depthwise: Option<ConvNormAct>,
    pub expand: ConvNormAct,
    pub middle_depthwise: Option<ConvNormAct>,
    pub project: ConvNormAct,
    pub residual: bool,
}

/// The kernel of an optional depthwise layer is not empty, nor are its channels.
pub open spec fn depthwise_ok(kernel: Option<usize>, channels: usize) -> bool {
    kernel matches Some(k) ==> k != 0 && channels != 0
}

/// The failure of a bottleneck's configuration, if any.
pub open spec fn bottleneck_failure(
    in_channels: usize,
    expanded_channels: usize,
    start_dw: Option<usize>,
    middle_dw: Option<usize>,
    stride: usize,
) -> Option<Failure> {
    if stride > 1 && middle_dw is None {
        Some(
            Failure::InvalidShape("a strided UIB requires a middle depthwise convolution"@),
        )
    } else if !depthwise_ok(start_dw, in_channels) || !depthwise_ok(
        middle_dw,
        expanded_channels,
    ) {
        Some(misconfigured())
    } else {
        None
    }
}

/// The weights of a bottleneck have countable numbers of elements.
pub open spec fn countable_bottleneck(
    in_channels: usize,
    out_channels: usize,
    expanded_channels: usize,
    start_dw: Option<usize>,
    middle_dw: Option<usize>,
) -> bool {
    &&& start_dw matches Some(k) ==> (k != 0 && in_channels != 0 ==> countable_weight(
        in_channels,
        in_channels,
        k,
        in_channels,
    ))
    &&& countable_weight(in_channels, expanded_channels, 1, 1)
    &&& middle_dw matches Some(k) ==> (k != 0 && expanded_channels != 0 ==> countable_weight(
        expanded_channels,
        expanded_channels,
        k,
        expanded_channels,
    ))
    &&& countable_weight(expanded_channels, out_channels, 1, 1)
}

impl UniversalInvertedBottleneck {
    /// The layer was made for these channels.
    pub open spec fn fresh<T: Scalar>(
        self,
        graph: Graph<T>,
        in_channels: usize,
        out_channels: usize,
        expanded_channels: usize,
        start_dw: Option<usize>,
        middle_dw: Option<usize>,
        stride: usize,
        device: Device,
    ) -> bool {
        &&& optional_fresh(self.start_depthwise, graph, in_channels, start_dw, 1, device)
        &&& self.expand.activation
        &&& self.expand.conv.fresh(graph, in_channels, expanded_channels, 1, 1, 1, device)
        &&& optional_fresh(
            self.middle_depthwise,
            graph,
            expanded_channels,
            middle_dw,
            stride,
            device,
        )
        &&& !self.project.activation
        &&& self.project.conv.fresh(graph, expanded_channels, out_channels, 1, 1, 1, device)
        &&& self.residual == (stride == 1 && in_channels == out_channels)
    }

    /// A layer stays as it was made while the graph grows.
    pub proof fn lemma_fresh<T: Scalar>(
        self,
        before: Graph<T>,
        after: Graph<T>,
        in_channels: usize,
        out_channels: usize,
        expanded_channels: usize,
        start_dw: Option<usize>,
        middle_dw: Option<usize>,
        stride: usize,
        device: Device,
    )
        requires
            self.fresh(
                before,
                in_channels,
                out_channels,
                expanded_channels,
                start_dw,
                middle_dw,
                stride,
                device,
            ),
            after.extends(before),
        ensures
            self.fresh(
                after,
                in_channels,
                out_channels,
                expanded_channels,
                start_dw,
                middle_dw,
                stride,
                device,
            ),
    {
        lemma_optional_fresh(
            self.start_depthwise,
            before,
            after,
            in_channels,
            start_dw,
            1,
            device,
        );
        self.expand.conv.lemma_fresh(
            before,
            after,
            in_channels,
            expanded_channels,
            1,
            1,
            1,
            device,
        );
        lemma_optional_fresh(
            self.middle_depthwise,
            before,
            after,
            expanded_channels,
            middle_dw,
            stride,
            device,
        );
        self.project.conv.lemma_fresh(
            before,
            after,
            expanded_channels,
            out_channels,
            1,
            1,
            1,
            device,
        );
    }

    /// A bottleneck with initial weights.
    pub fn new<T: Scalar>(
        graph: &mut Graph<T>,
        in_channels: usize,
        out_channels: usize,
        expanded_channels: usize,
        start_dw: Option<usize>,
        middle_dw: Option<usize>,
        stride: usize,
        device: Device,
    ) -> (r: Result<UniversalInvertedBottleneck>)
        requires
            old(graph).wf(),
            countable_bottleneck(
                in_channels,
                out_channels,
                expanded_channels,
                start_dw,
                middle_dw,
            ),
            old(graph).next_parameter + 8 <= u64::MAX,
        ensures
            final(graph).wf(),
            final(graph).extends(*old(graph)),
            final(graph).next_parameter <= old(graph).next_parameter + 8,
            match r {
                Ok(layer) => {
                    &&& bottleneck_failure(
                        in_channels,
                        expanded_channels,
                        start_dw,
                        middle_dw,
                        stride,
                    ) is None
                    &&& layer.fresh(
                        *final(graph),
                        in_channels,
                        out_channels,
                        expanded_channels,
                        start_dw,
                        middle_dw,
                        stride,
                        device,
                    )
                    &&& all_new(*old(graph), *final(graph), layer.parameters())
                },
                Err(error) => bottleneck_failure(
                    in_channels,
                    expanded_channels,
                    start_dw,
                    middle_dw,
                    stride,
                ) == Some(error@),
            },
    {
        if stride > 1 && middle_dw.is_none() {
            return Err(Error::shape("a strided UIB requires a middle depthwise convolution"));
        }
        let ghost start = *graph;
        let start_depthwise = optional_depthwise(graph, in_channels, start_dw, 1, device)?;
        let ghost first = *graph;
        let expand = ConvNormAct::new(
            graph,
            in_channels,
            expanded_channels,
            1,
            1,
            1,
            true,
            device,
        )?;
        let ghost second = *graph;
        proof {
            lemma_extends(start, first, second);
            lemma_optional_fresh(
                start_depthwise,
                first,
                second,
                in_channels,
                start_dw,
                1,
                device,
            );
        }
        let middle_outcome = optional_depthwise(
            graph,
            expanded_channels,
            middle_dw,
            stride,
            device,
        );
        proof {
            lemma_extends(start, second, *graph);
        }
        let middle_depthwise = middle_outcome?;
        let ghost third = *graph;
        proof {
            lemma_optional_fresh(
                start_depthwise,
                second,
                third,
                in_channels,
                start_dw,
                1,
                device,
            );
            expand.conv.lemma_fresh(
                second,
                third,
                in_channels,
                expanded_channels,
                1,
                1,
                1,
                device,
            );
        }
        let project = ConvNormAct::new(
            graph,
            expanded_channels,
            out_channels,
            1,
            1,
            1,
            false,
            device,
        )?;
        proof {
            lemma_extends(start, third, *graph);
            lemma_optional_fresh(
                start_depthwise,
                third,
                *graph,
                in_channels,
                start_dw,
                1,
                device,
            );
            expand.conv.lemma_fresh(
                third,
                *graph,
                in_channels,
                expanded_channels,
                1,
                1,
                1,
                device,
            );
            lemma_optional_fresh(
                middle_depthwise,
                third,
                *graph,
                expanded_channels,
                middle_dw,
                stride,
                device,
            );
        }
        let layer = UniversalInvertedBottleneck {
            start_depthwise,
            expand,
            middle_depthwise,
            project,
            residual: stride == 1 && in_channels == out_channels,
        };
        proof {
            let one = optional_parameters(layer.start_depthwise);
            let two = layer.expand.parameters();
            let three = optional_parameters(layer.middle_depthwise);
            lemma_all_new(start, first, second, one, two);
            lemma_all_new(start, second, third, one + two, three);
            lemma_all_new(start, third, *graph, one + two + three, layer.project.parameters());
        }
        Ok(layer)
    }
}

proof fn lemma_optional_fresh<T: Scalar>(
    layer: Option<ConvNormAct>,
    before: Graph<T>,
    after: Graph<T>,
    channels: usize,
    kernel: Option<usize>,
    stride: usize,
    device: Device,
)
    requires
        optional_fresh(layer, before, channels, kernel, stride, device),
        after.extends(before),
    ensures
        optional_fresh(layer, after, channels, kernel, stride, device),
{
    match (layer, kernel) {
        (Some(layer), Some(kernel)) => {
            layer.conv.lemma_fresh(
                before,
                after,
                channels,
                channels,
                kernel,
                stride,
                channels,
                device,
            );
        },
        _ => {},
    }
}

/// A depthwise convolution, where a kernel is given.
fn optional_depthwise<T: Scalar>(
    graph: &mut Graph<T>,
    channels: usize,
    kernel: Option<usize>,
    stride: usize,
    device: Device,
) -> (r: Result<Option<ConvNormAct>>)
    requires
        old(graph).wf(),
        kernel matches Some(k) ==> (k != 0 && channels != 0 ==> countable_weight(
            channels,
            channels,
            k,
            channels,
        )),
        old(graph).next_parameter + 2 <= u64::MAX,
    ensures
        final(graph).wf(),
        final(graph).extends(*old(graph)),
        final(graph).next_parameter <= old(graph).next_parameter + 2,
        match r {
            Ok(layer) => {
                &&& depthwise_ok(kernel, channels)
                &&& optional_fresh(layer, *final(graph), channels, kernel, stride, device)
                &&& all_new(*old(graph), *final(graph), optional_parameters(layer))
            },
            Err(error) => !depthwise_ok(kernel, channels) && error@ == misconfigured(),
        },
{
    match kernel {
        Some(kernel) => {
            proof {
                if channels != 0 {
                    assert(channels % channels == 0) by (nonlinear_arith)
                        requires
                            channels != 0,
                    ;
                }
            }
            let layer = ConvNormAct::new(
                graph,
                channels,
                channels,
                kernel,
                stride,
                channels,
                true,
                device,
            )?;
            Ok(Some(layer))
        },
        None => Ok(None),
    }
}

impl Layer for UniversalInvertedBottleneck {
    open spec fn admits(&self, input: Form) -> bool {
        true
    }

    open spec fn output(&self, input: Form) -> std::result::Result<Form, Failure> {
        match optional_output(self.start_depthwise, input) {
            Err(failure) => Err(failure),
            Ok(started) => match self.expand.output(started) {
                Err(failure) => Err(failure),
                Ok(expanded) => match optional_output(self.middle_depthwise, expanded) {
                    Err(failure) => Err(failure),
                    Ok(mixed) => match self.project.output(mixed) {
                        Err(failure) => Err(failure),
                        Ok(projected) => residual_output(self.residual, projected, input),
                    },
                },
            },
        }
    }
}

/// The outcome of an optional residual connection.
pub open spec fn residual_output(residual: bool, output: Form, input: Form) -> std::result::Result<
    Form,
    Failure,
> {
    if residual {
        match elementwise(output, input) {
            Ok(shape) => Ok(Form { shape, device: output.device }),
            Err(failure) => Err(failure),
        }
    } else {
        Ok(output)
    }
}

/// The node `output` is the node `projected`, with the node `input` added where there is a
/// residual connection.
pub open spec fn residual_builds<T>(
    residual: bool,
    nodes: Seq<Node<T>>,
    projected: int,
    input: int,
    output: int,
) -> bool {
    if residual {
        &&& 0 <= output < nodes.len()
        &&& nodes[output].op == Op::<T>::Add(projected as usize, input as usize)
    } else {
        output == projected
    }
}

impl<T> Module<T> for UniversalInvertedBottleneck {
    open spec fn lives_in(&self, graph: Graph<T>) -> bool {
        &&& optional_lives(self.start_depthwise, graph)
        &&& self.expand.lives_in(graph)
        &&& optional_lives(self.middle_depthwise, graph)
        &&& self.project.lives_in(graph)
    }

    open spec fn builds(&self, nodes: Seq<Node<T>>, input: int, output: int) -> bool {
        exists|started: int, expanded: int, mixed: int, projected: int|
            {
                &&& #[trigger] optional_builds(self.start_depthwise, nodes, input, started)
                &&& #[trigger] self.expand.builds(nodes, started, expanded)
                &&& #[trigger] optional_builds(self.middle_depthwise, nodes, expanded, mixed)
                &&& #[trigger] self.project.builds(nodes, mixed, projected)
                &&& residual_builds(self.residual, nodes, projected, input, output)
            }
    }

    proof fn lemma_lives(&self, before: Graph<T>, after: Graph<T>) {
        if self.start_depthwise is Some {
            self.start_depthwise->Some_0.lemma_lives(before, after);
        }
        self.expand.lemma_lives(before, after);
        if self.middle_depthwise is Some {
            self.middle_depthwise->Some_0.lemma_lives(before, after);
        }
        self.project.lemma_lives(before, after);
    }

    proof fn lemma_builds(&self, before: Graph<T>, after: Graph<T>, input: int, output: int) {
        let nodes = before.nodes@;
        let (started, expanded, mixed, projected) = choose|
            started: int,
            expanded: int,
            mixed: int,
            projected: int,
        |
            {
                &&& #[trigger] optional_builds(self.start_depthwise, nodes, input, started)
                &&& #[trigger] self.expand.builds(nodes, started, expanded)
                &&& #[trigger] optional_builds(self.middle_depthwise, nodes, expanded, mixed)
                &&& #[trigger] self.project.builds(nodes, mixed, projected)
                &&& residual_builds(self.residual, nodes, projected, input, output)
            };
        if self.start_depthwise is Some {
            self.start_depthwise->Some_0.lemma_builds(before, after, input, started);
        }
        self.expand.lemma_builds(before, after, started, expanded);
        if self.middle_depthwise is Some {
            self.middle_depthwise->Some_0.lemma_builds(before, after, expanded, mixed);
        }
        self.project.lemma_builds(before, after, mixed, projected);
        assert(optional_builds(self.start_depthwise, after.nodes@, input, started));
        assert(self.expand.builds(after.nodes@, started, expanded));
        assert(optional_builds(self.middle_depthwise, after.nodes@, expanded, mixed));
        assert(self.project.builds(after.nodes@, mixed, projected));
        if self.residual {
            assert(after.nodes@[output] == before.nodes@[output]);
        }
    }

    fn forward(&self, graph: &mut Graph<T>, input: &Tensor) -> (r: Result<Tensor>) {
        let ghost start = *graph;
        let started = optional_forward(&self.start_depthwise, graph, input)?;
        let ghost first = *graph;
        proof {
            self.expand.lemma_lives(start, first);
            if self.middle_depthwise is Some {
                self.middle_depthwise->Some_0.lemma_lives(start, first);
            }
            self.project.lemma_lives(start, first);
        }
        let expand_outcome = self.expand.forward(graph, &started);
        let ghost second = *graph;
        proof {
            lemma_extends(start, first, second);
        }
        let expanded = expand_outcome?;
        proof {
            if self.start_depthwise is Some {
                self.start_depthwise->Some_0.lemma_builds(
                    first,
                    second,
                    input.id as int,
                    started.id as int,
                );
            }
            if self.middle_depthwise is Some {
                self.middle_depthwise->Some_0.lemma_lives(first, second);
            }
            self.project.lemma_lives(first, second);
        }
        let middle_outcome = optional_forward(&self.middle_depthwise, graph, &expanded);
        let ghost third = *graph;
        proof {
            lemma_extends(start, second, third);
        }
        let mixed = middle_outcome?;
        proof {
            if self.start_depthwise is Some {
                self.start_depthwise->Some_0.lemma_builds(
                    second,
                    third,
                    input.id as int,
                    started.id as int,
                );
            }
            self.expand.lemma_builds(second, third, started.id as int, expanded.id as int);
            self.project.lemma_lives(second, third);
        }
        let project_outcome = self.project.forward(graph, &mixed);
        let ghost fourth = *graph;
        proof {
            lemma_extends(start, third, fourth);
        }
        let projected = project_outcome?;
        proof {
            if self.start_depthwise is Some {
                self.start_depthwise->Some_0.lemma_builds(
                    third,
                    fourth,
                    input.id as int,
                    started.id as int,
                );
            }
            self.expand.lemma_builds(third, fourth, started.id as int, expanded.id as int);
            if self.middle_depthwise is Some {
                self.middle_depthwise->Some_0.lemma_builds(
                    third,
                    fourth,
                    expanded.id as int,
                    mixed.id as int,
                );
            }
            assert(fourth.nodes@[input.id as int] == start.nodes@[input.id as int]);
        }
        if self.residual {
            let add_outcome = projected.add(graph, input);
            proof {
                lemma_extends(start, fourth, *graph);
            }
            let r = add_outcome?;
            proof {
                let nodes = graph.nodes@;
                if self.start_depthwise is Some {
                    self.start_depthwise->Some_0.lemma_builds(
                        fourth,
                        *graph,
                        input.id as int,
                        started.id as int,
                    );
                }
                self.expand.lemma_builds(
                    fourth,
                    *graph,
                    started.id as int,
                    expanded.id as int,
                );
                if self.middle_depthwise is Some {
                    self.middle_depthwise->Some_0.lemma_builds(
                        fourth,
                        *graph,
                        expanded.id as int,
                        mixed.id as int,
                    );
                }
                self.project.lemma_builds(fourth, *graph, mixed.id as int, projected.id as int);
                assert(optional_builds(
                    self.start_depthwise,
                    nodes,
                    input.id as int,
                    started.id as int,
                ));
                assert(self.expand.builds(nodes, started.id as int, expanded.id as int));
                assert(optional_builds(
                    self.middle_depthwise,
                    nodes,
                    expanded.id as int,
                    mixed.id as int,
                ));
                assert(self.project.builds(nodes, mixed.id as int, projected.id as int));
            }
            Ok(r)
        } else {
            proof {
                let nodes = graph.nodes@;
                assert(optional_builds(
                    self.start_depthwise,
                    nodes,
                    input.id as int,
                    started.id as int,
                ));
                assert(self.expand.builds(nodes, started.id as int, expanded.id as int));
                assert(optional_builds(
                    self.middle_depthwise,
                    nodes,
                    expanded.id as int,
                    mixed.id as int,
                ));
                assert(self.project.builds(nodes, mixed.id as int, projected.id as int));
            }
            Ok(projected)
        }
    }
}

impl Trainable for UniversalInvertedBottleneck {
    open spec fn parameters(&self) -> Seq<Slot> {
        optional_parameters(self.start_depthwise) + self.expand.parameters() + optional_parameters(
            self.middle_depthwise,
        ) + self.project.parameters()
    }

    open spec fn resembles(&self, other: &Self) -> bool {
        &&& optional_resembles(self.start_depthwise, other.start_depthwise)
        &&& self.expand.resembles(&other.expand)
        &&& optional_resembles(self.middle_depthwise, other.middle_depthwise)
        &&& self.project.resembles(&other.project)
        &&& self.residual == other.residual
    }

    fn visit_parameters(&self) -> (r: Vec<Parameter>) {
        let mut r: Vec<Parameter> = Vec::new();
        assert(slots(r@) =~= Seq::empty());
        match &self.start_depthwise {
            Some(layer) => {
                push_all(&mut r, layer.visit_parameters());
            },
            None => {},
        }
        assert(slots(r@) =~= optional_parameters(self.start_depthwise));
        push_all(&mut r, self.expand.visit_parameters());
        match &self.middle_depthwise {
            Some(layer) => {
                push_all(&mut r, layer.visit_parameters());
            },
            None => {},
        }
        assert(slots(r@) =~= optional_parameters(self.start_depthwise) + self.expand.parameters()
            + optional_parameters(self.middle_depthwise));
        push_all(&mut r, self.project.visit_parameters());
        r
    }

    fn visit_parameters_mut(&mut self, parameters: &Vec<Parameter>, at: usize) {
        let ghost all = slots(parameters@);
        let ghost total = self.parameters().len();
        let mut next: usize = at;
        let ghost before = *self;
        match &mut self.start_depthwise {
            Some(layer) => {
                assert(layer.parameters().len() == 2);
                layer.visit_parameters_mut(parameters, at);
                next = at + 2;
            },
            None => {},
        }
        assert(self.expand.parameters().len() == 2);
        self.expand.visit_parameters_mut(parameters, next);
        next = next + 2;
        match &mut self.middle_depthwise {
            Some(layer) => {
                assert(layer.parameters().len() == 2);
                layer.visit_parameters_mut(parameters, next);
                next = next + 2;
            },
            None => {},
        }
        assert(self.project.parameters().len() == 2);
        self.project.visit_parameters_mut(parameters, next);
        assert(self.parameters() =~= all.subrange(at as int, at + total));
    }
}

/// The fused inverted bottleneck: an expanding convolution, a projecting pointwise one, and
/// a residual connection where shapes allow it.
#[derive(Debug)]
pub struct FusedInvertedBottleneck {
    pub expand: ConvNormAct,
    pub project: ConvNormAct,
    pub residual: bool,
}

impl FusedInvertedBottleneck {
    /// The layer was made for these channels.
    pub open spec fn fresh<T: Scalar>(
        self,
        graph: Graph<T>,
        in_channels: usize,
        out_channels: usize,
        expanded_channels: usize,
        kernel_size: usize,
        stride: usize,
        device: Device,
    ) -> bool {
        &&& self.expand.activation
        &&& self.expand.conv.fresh(
            graph,
            in_channels,
            expanded_channels,
            kernel_size,
            stride,
            1,
            device,
        )
        &&& !self.project.activation
        &&& self.project.conv.fresh(graph, expanded_channels, out_channels, 1, 1, 1, device)
        &&& self.residual == (stride == 1 && in_channels == out_channels)
    }

    /// A layer stays as it was made while the graph grows.
    pub proof fn lemma_fresh<T: Scalar>(
        self,
        before: Graph<T>,
        after: Graph<T>,
        in_channels: usize,
        out_channels: usize,
        expanded_channels: usize,
        kernel_size: usize,
        stride: usize,
        device: Device,
    )
        requires
            self.fresh(
                before,
                in_channels,
                out_channels,
                expanded_channels,
                kernel_size,
                stride,
                device,
            ),
            after.extends(before),
        ensures
            self.fresh(
                after,
                in_channels,
                out_channels,
                expanded_channels,
                kernel_size,
                stride,
                device,
            ),
    {
        self.expand.conv.lemma_fresh(
            before,
            after,
            in_channels,
            expanded_channels,
            kernel_size,
            stride,
            1,
            device,
        );
        self.project.conv.lemma_fresh(
            before,
            after,
            expanded_channels,
            out_channels,
            1,
            1,
            1,
            device,
        );
    }

    /// A bottleneck with initial weights.
    pub fn new<T: Scalar>(
        graph: &mut Graph<T>,
        in_channels: usize,
        out_channels: usize,
        expanded_channels: usize,
        kernel_size: usize,
        stride: usize,
        device: Device,
    ) -> (r: Result<FusedInvertedBottleneck>)
        requires
            old(graph).wf(),
            kernel_size != 0 ==> countable_weight(in_channels, expanded_channels, kernel_size, 1),
            countable_weight(expanded_channels, out_channels, 1, 1),
            old(graph).next_parameter + 4 <= u64::MAX,
        ensures
            final(graph).wf(),
            final(graph).extends(*old(graph)),
            final(graph).next_parameter <= old(graph).next_parameter + 4,
            match r {
                Ok(layer) => {
                    &&& kernel_size != 0
                    &&& layer.fresh(
                        *final(graph),
                        in_channels,
                        out_channels,
                        expanded_channels,
                        kernel_size,
                        stride,
                        device,
                    )
                    &&& all_new(*old(graph), *final(graph), layer.parameters())
                },
                Err(error) => kernel_size == 0 && error@ == misconfigured(),
            },
    {
        let ghost start = *graph;
        let expand = ConvNormAct::new(
            graph,
            in_channels,
            expanded_channels,
            kernel_size,
            stride,
            1,
            true,
            device,
        )?;
        let ghost first = *graph;
        let project = ConvNormAct::new(
            graph,
            expanded_channels,
            out_channels,
            1,
            1,
            1,
            false,
            device,
        )?;
        proof {
            lemma_extends(start, first, *graph);
            expand.conv.lemma_fresh(
                first,
                *graph,
                in_channels,
                expanded_channels,
                kernel_size,
                stride,
                1,
                device,
            );
        }
        let layer = FusedInvertedBottleneck {
            expand,
            project,
            residual: stride == 1 && in_channels == out_channels,
        };
        proof {
            lemma_all_new(
                start,
                first,
                *graph,
                layer.expand.parameters(),
                layer.project.parameters(),
            );
        }
        Ok(layer)
    }
}

impl Layer for FusedInvertedBottleneck {
    open spec fn admits(&self, input: Form) -> bool {
        true
    }

    open spec fn output(&self, input: Form) -> std::result::Result<Form, Failure> {
        match self.expand.output(input) {
            Err(failure) => Err(failure),
            Ok(expanded) => match self.project.output(expanded) {
                Err(failure) => Err(failure),
                Ok(projected) => residual_output(self.residual, projected, input),
            },
        }
    }
}

impl<T> Module<T> for FusedInvertedBottleneck {
    open spec fn lives_in(&self, graph: Graph<T>) -> bool {
        self.expand.lives_in(graph) && self.project.lives_in(graph)
    }

    open spec fn builds(&self, nodes: Seq<Node<T>>, input: int, output: int) -> bool {
        exists|expanded: int, projected: int|
            {
                &&& #[trigger] self.expand.builds(nodes, input, expanded)
                &&& #[trigger] self.project.builds(nodes, expanded, projected)
                &&& residual_builds(self.residual, nodes, projected, input, output)
            }
    }

    proof fn lemma_lives(&self, before: Graph<T>, after: Graph<T>) {
        self.expand.lemma_lives(before, after);
        self.project.lemma_lives(before, after);
    }

    proof fn lemma_builds(&self, before: Graph<T>, after: Graph<T>, input: int, output: int) {
        let nodes = before.nodes@;
        let (expanded, projected) = choose|expanded: int, projected: int|
            {
                &&& #[trigger] self.expand.builds(nodes, input, expanded)
                &&& #[trigger] self.project.builds(nodes, expanded, projected)
                &&& residual_builds(self.residual, nodes, projected, input, output)
            };
        self.expand.lemma_builds(before, after, input, expanded);
        self.project.lemma_builds(before, after, expanded, projected);
        assert(self.expand.builds(after.nodes@, input, expanded));
        assert(self.project.builds(after.nodes@, expanded, projected));
        if self.residual {
            assert(after.nodes@[output] == before.nodes@[output]);
        }
    }

    fn forward(&self, graph: &mut Graph<T>, input: &Tensor) -> (r: Result<Tensor>) {
        let ghost start = *graph;
        let expanded = self.expand.forward(graph, input)?;
        let ghost first = *graph;
        proof {
            self.project.lemma_lives(start, first);
        }
        let outcome = self.project.forward(graph, &expanded);
        let ghost second = *graph;
        proof {
            lemma_extends(start, first, second);
        }
        let projected = outcome?;
        proof {
            self.expand.lemma_builds(first, second, input.id as int, expanded.id as int);
            assert(second.nodes@[input.id as int] == start.nodes@[input.id as int]);
        }
        if self.residual {
            let outcome = projected.add(graph, input);
            proof {
                lemma_extends(start, second, *graph);
            }
            let r = outcome?;
            proof {
                self.expand.lemma_builds(
                    second,
                    *graph,
                    input.id as int,
                    expanded.id as int,
                );
                self.project.lemma_builds(
                    second,
                    *graph,
                    expanded.id as int,
                    projected.id as int,
                );
                assert(self.expand.builds(graph.nodes@, input.id as int, expanded.id as int));
                assert(self.project.builds(
                    graph.nodes@,
                    expanded.id as int,
                    projected.id as int,
                ));
            }
            Ok(r)
        } else {
            proof {
                assert(self.expand.builds(graph.nodes@, input.id as int, expanded.id as int));
                assert(self.project.builds(
                    graph.nodes@,
                    expanded.id as int,
                    projected.id as int,
                ));
            }
            Ok(projected)
        }
    }
}

impl Trainable for FusedInvertedBottleneck {
    open spec fn parameters(&self) -> Seq<Slot> {
        self.expand.parameters() + self.project.parameters()
    }

    open spec fn resembles(&self, other: &Self) -> bool {
        &&& self.expand.resembles(&other.expand)
        &&& self.project.resembles(&other.project)
        &&& self.residual == other.residual
    }

    fn visit_parameters(&self) -> (r: Vec<Parameter>) {
        let mut r = self.expand.visit_parameters();
        push_all(&mut r, self.project.visit_parameters());
        r
    }

    fn visit_parameters_mut(&mut self, parameters: &Vec<Parameter>, at: usize) {
        let ghost all = slots(parameters@);
        assert(self.expand.parameters().len() == 2);
        assert(self.project.parameters().len() == 2);
        self.expand.visit_parameters_mut(parameters, at);
        self.project.visit_parameters_mut(parameters, at + 2);
        assert(self.parameters() =~= all.subrange(at as int, at + 4));
    }
}

/// The state of the generator that the weight at a position is drawn from.
pub open spec fn draw_for(shape: Seq<usize>, i: int) -> u64 {
    drawn_after(seed(shape), (i + 1) as nat)
}

/// A draw is never zero, and its fraction is below one.
pub proof fn draws_are_fractions(shape: Seq<usize>, i: int)
    requires
        0 <= i,
    ensures
        draw_for(shape, i) != 0,
        draw_for(shape, i) >> 40 < 16777216,
    decreases i,
{
    let all = folded(shape);
    assert(all | 1u64 != 0) by (bit_vector);
    if i == 0 {
        assert(drawn_after(seed(shape), 0) == seed(shape));
        crate::random::generator_never_dies(seed(shape));
    } else {
        draws_are_fractions(shape, i - 1);
        crate::random::generator_never_dies(draw_for(shape, i - 1));
    }
    let state = draw_for(shape, i);
    assert(state >> 40 < 16777216) by (bit_vector);
}

/// The weights at a position are drawn from one state, each within its scale.
pub open spec fn drawn_together<T: Scalar>(
    shape: Seq<usize>,
    fan_in: usize,
    i: int,
    a: T,
    b: T,
) -> bool {
    exists|scale: T, other: T|
        {
            &&& weight_scale(fan_in, scale)
            &&& weight_scale(fan_in, other)
            &&& #[trigger] weight_drawn(draw_for(shape, i), scale, a)
            &&& #[trigger] weight_drawn(draw_for(shape, i), other, b)
        }
}

/// Two convolutions that are made for the same channels, kernels and groups have weights
/// by the same draws, and no others: each a fraction below one, doubled, less one, times
/// the root of two over the inputs of a weight.
pub proof fn convolutions_start_alike<T: Scalar>(
    first: Conv2d,
    second: Conv2d,
    graph: Graph<T>,
    other: Graph<T>,
    in_channels: usize,
    out_channels: usize,
    kernel_size: usize,
    stride: usize,
    groups: usize,
    device: Device,
)
    requires
        first.fresh(graph, in_channels, out_channels, kernel_size, stride, groups, device),
        second.fresh(other, in_channels, out_channels, kernel_size, stride, groups, device),
    ensures
        ({
            let shape = seq![out_channels, in_channels / groups, kernel_size, kernel_size];
            let fan_in = ((in_channels / groups) * (kernel_size * kernel_size)) as usize;
            let a = graph.nodes@[first.weight.value.id as int].op->Data_0@;
            let b = other.nodes@[second.weight.value.id as int].op->Data_0@;
            &&& a.len() == numel(shape)
            &&& b.len() == numel(shape)
            &&& forall|i: int|
                0 <= i < a.len() ==> #[trigger] drawn_together(shape, fan_in, i, a[i], b[i])
                    && draw_for(shape, i) != 0 && draw_for(shape, i) >> 40 < 16777216
        }),
{
    let shape = seq![out_channels, in_channels / groups, kernel_size, kernel_size];
    let fan_in = ((in_channels / groups) * (kernel_size * kernel_size)) as usize;
    let a = graph.nodes@[first.weight.value.id as int].op->Data_0@;
    let b = other.nodes@[second.weight.value.id as int].op->Data_0@;
    let scale = choose|scale: T|
        {
            &&& #[trigger] weight_scale(fan_in, scale)
            &&& a.len() == numel(shape)
            &&& forall|i: int|
                0 <= i < a.len() ==> weight_drawn(
                    drawn_after(seed(shape), (i + 1) as nat),
                    scale,
                    #[trigger] a[i],
                )
        };
    let wide = choose|scale: T|
        {
            &&& #[trigger] weight_scale(fan_in, scale)
            &&& b.len() == numel(shape)
            &&& forall|i: int|
                0 <= i < b.len() ==> weight_drawn(
                    drawn_after(seed(shape), (i + 1) as nat),
                    scale,
                    #[trigger] b[i],
                )
        };
    assert forall|i: int| 0 <= i < a.len() implies #[trigger] drawn_together(
        shape,
        fan_in,
        i,
        a[i],
        b[i],
    ) && draw_for(shape, i) != 0 && draw_for(shape, i) >> 40 < 16777216 by {
        draws_are_fractions(shape, i);
        assert(weight_drawn(draw_for(shape, i), scale, a[i]));
        assert(weight_drawn(draw_for(shape, i), wide, b[i]));
    }
}

} // verus!

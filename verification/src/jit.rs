//! Traced execution plans.
//!
//! Tracing replaces example inputs by placeholders and records the lazy graph that
//! results.  Running the plan on inputs of the traced shapes evaluates that graph; the
//! input signatures that it ran on are remembered.

use crate::copy::{
    copies, copies_anew, identifiers, lemma_copies_alike, lemma_data_memoryless, missing_input,
    rebuild,
};
use crate::error::{Error, Failure, Result};
use crate::eval::{fails, given, supplied_alone, valued};
use crate::graph::{fits, lemma_reaches_below, reachable, reaches, Device, Graph, Memory, Node, Op};
use crate::nn::Module;
use crate::scalar::{copied, Scalar};
use crate::shape::{numel, same_shape, validated_numel};
use crate::tensor::{lemma_extends, Tensor};
use crate::text::{decimal, owned, push_decimal, push_shape, shape_text};
use vstd::prelude::*;

verus! {

/// The input shapes and the device that a plan ran with.
#[derive(Clone, Debug)]
pub struct Signature {
    pub shapes: Vec<Vec<usize>>,
    pub device: Device,
}

/// A traced graph.
#[derive(Debug)]
pub struct JitModule {
    pub graph: Tensor,
    pub input_shapes: Vec<Vec<usize>>,
    pub device: Device,
    pub specializations: Vec<Signature>,
}

/// Shapes as sequences.
pub open spec fn shapes_of(shapes: Seq<Vec<usize>>) -> Seq<Seq<usize>> {
    Seq::new(shapes.len(), |i: int| shapes[i]@)
}

/// The shapes of tensors.
pub open spec fn tensor_shapes(tensors: Seq<Tensor>) -> Seq<Seq<usize>> {
    Seq::new(tensors.len(), |i: int| tensors[i].shape@)
}

/// The tensors belong to the graph.
pub open spec fn all_in<T>(graph: Graph<T>, tensors: Seq<Tensor>) -> bool {
    forall|i: int| 0 <= i < tensors.len() ==> graph.has(#[trigger] tensors[i])
}

/// `after` holds one new placeholder on `device` for each example, in order.
pub open spec fn placed<T>(
    before: Graph<T>,
    after: Graph<T>,
    placeholders: Seq<Tensor>,
    examples: Seq<Tensor>,
    device: Device,
) -> bool {
    &&& after.wf()
    &&& after.extends(before)
    &&& after.nodes@.len() == before.nodes@.len() + examples.len()
    &&& all_in(after, placeholders)
    &&& placeholders.len() == examples.len()
    &&& forall|i: int|
        0 <= i < examples.len() ==> {
            &&& (#[trigger] placeholders[i]).id == before.nodes@.len() + i
            &&& placeholders[i].shape@ == examples[i].shape@
            &&& placeholders[i].device == device
            &&& after.nodes@[placeholders[i].id as int].op == Op::<T>::Placeholder(i as usize)
        }
}

/// The outcome of a trace whose function gave `out`.
pub open spec fn concludes(
    out: Result<Tensor>,
    examples: Seq<Tensor>,
    device: Device,
    r: Result<JitModule>,
) -> bool {
    match (out, r) {
        (Err(failed), Err(error)) => error@ == failed@,
        (Ok(tensor), Err(error)) => tensor.device != device && error@ == Failure::DeviceMismatch,
        (Ok(tensor), Ok(module)) => {
            &&& tensor.device == device
            &&& module.graph.same(tensor)
            &&& shapes_of(module.input_shapes@) == tensor_shapes(examples)
            &&& module.device == device
            &&& module.specializations@.len() == 0
        },
        (Err(_), Ok(_)) => false,
    }
}

/// Some example is on another device than the first.
pub open spec fn scattered(examples: Seq<Tensor>) -> bool {
    exists|i: int| 0 <= i < examples.len() && (#[trigger] examples[i]).device != examples[0].device
}

/// The only placeholders that the node is computed from are the `inputs` ones that start
/// with the node `first`.
pub open spec fn reads_own<T>(nodes: Seq<Node<T>>, root: int, first: nat, inputs: nat) -> bool {
    forall|i: int| #[trigger]
        reaches(nodes, root, i) && nodes[i].op is Placeholder ==> first <= i < first + inputs
}

/// A plan that is computed from no placeholders but its own agrees with their shapes.
proof fn lemma_closed<T>(
    before: Graph<T>,
    start: Graph<T>,
    after: Graph<T>,
    placeholders: Seq<Tensor>,
    examples: Seq<Tensor>,
    module: JitModule,
)
    requires
        examples.len() > 0,
        placed(before, start, placeholders, examples, examples[0].device),
        after.wf(),
        after.extends(start),
        after.has(module.graph),
        module.graph.device == module.device,
        shapes_of(module.input_shapes@) == tensor_shapes(examples),
        reads_own(
            after.nodes@,
            module.graph.id as int,
            before.nodes@.len(),
            examples.len(),
        ),
    ensures
        module.closed(after),
{
    let nodes = after.nodes@;
    assert forall|i: int, slot: usize|
        #![trigger nodes[i].op, module.input_shapes@[slot as int]]
        reaches(nodes, module.graph.id as int, i) && nodes[i].op == Op::<T>::Placeholder(slot)
            && slot < module.input_shapes@.len() implies module.input_shapes@[slot as int]@
        == nodes[i].shape@ by {
        lemma_reaches_below(nodes, module.graph.id as int, i);
        let k = i - before.nodes@.len();
        assert(placeholders[k].id == i);
        assert(start.has(placeholders[k]));
        assert(nodes[i] == start.nodes@[i]);
        assert(slot == k);
        assert(shapes_of(module.input_shapes@)[k] == tensor_shapes(examples)[k]);
    }
}

/// Records the graph that `function` builds on placeholders for the examples.
pub fn trace<T, F: FnOnce(&mut Graph<T>, &Vec<Tensor>) -> Result<Tensor>>(
    graph: &mut Graph<T>,
    examples: &Vec<Tensor>,
    function: F,
) -> (r: Result<JitModule>)
    requires
        old(graph).wf(),
        forall|g: &mut Graph<T>, p: &Vec<Tensor>|
            (*g).wf() && all_in(*g, p@) ==> #[trigger] call_requires(function, (g, p)),
        forall|g: &mut Graph<T>, p: &Vec<Tensor>, out: Result<Tensor>|
            (*g).wf() && all_in(*g, p@) && #[trigger] call_ensures(function, (g, p), out) ==> (
            *final(g)).wf() && (*final(g)).extends(*g) && (out matches Ok(t) ==> (*final(g)).has(
                t,
            )),
    ensures
        final(graph).wf(),
        final(graph).extends(*old(graph)),
        r matches Ok(module) ==> final(graph).has(module.graph) && module.wf(),
        r matches Ok(module) ==> reads_own(
            final(graph).nodes@,
            module.graph.id as int,
            old(graph).nodes@.len(),
            examples@.len(),
        ) ==> module.closed(*final(graph)),
        examples@.len() == 0 ==> {
            &&& r matches Err(error) && error@ == Failure::Trace(
                "at least one example input is required"@,
            )
            &&& *final(graph) == *old(graph)
        },
        examples@.len() > 0 && scattered(examples@) ==> {
            &&& r matches Err(error) && error@ == Failure::DeviceMismatch
            &&& *final(graph) == *old(graph)
        },
        examples@.len() > 0 && !scattered(examples@) ==> exists|
            g: &mut Graph<T>,
            p: &Vec<Tensor>,
            out: Result<Tensor>,
        |
            {
                &&& #[trigger] call_ensures(function, (g, p), out)
                &&& placed(*old(graph), *g, p@, examples@, examples@[0].device)
                &&& *final(g) == *final(graph)
                &&& concludes(out, examples@, examples@[0].device, r)
            },
{
    if examples.len() == 0 {
        return Err(Error::Trace(owned("at least one example input is required")));
    }
    let device = examples[0].device;
    let mut i: usize = 0;
    while i < examples.len()
        invariant
            *graph == *old(graph),
            old(graph).wf(),
            i <= examples.len(),
            examples.len() > 0,
            device == examples@[0].device,
            forall|j: int| 0 <= j < i ==> (#[trigger] examples@[j]).device == device,
        decreases examples.len() - i,
    {
        if examples[i].device != device {
            assert(scattered(examples@));
            return Err(Error::DeviceMismatch);
        }
        i = i + 1;
    }
    let mut placeholders: Vec<Tensor> = Vec::with_capacity(examples.len());
    let mut input_shapes: Vec<Vec<usize>> = Vec::with_capacity(examples.len());
    let ghost start = *graph;
    let mut i: usize = 0;
    while i < examples.len()
        invariant
            start == *old(graph),
            start.wf(),
            i <= examples.len(),
            placeholders.len() == i,
            input_shapes.len() == i,
            placed(start, *graph, placeholders@, examples@.take(i as int), device),
            forall|j: int| 0 <= j < i ==> (#[trigger] input_shapes@[j])@ == examples@[j].shape@,
        decreases examples.len() - i,
    {
        let ghost before = *graph;
        let ghost made = placeholders@;
        let tensor = Tensor::placeholder(graph, i, copied(&examples[i].shape), device);
        placeholders.push(tensor);
        input_shapes.push(copied(&examples[i].shape));
        proof {
            assert(graph.nodes@.drop_last() == before.nodes@);
            assert forall|j: int| 0 <= j < before.nodes@.len() implies graph.nodes@[j]
                == before.nodes@[j] by {
                assert(graph.nodes@.drop_last()[j] == graph.nodes@[j]);
            }
            lemma_extends(start, before, *graph);
            let now = placeholders@;
            assert forall|j: int| 0 <= j < now.len() implies graph.has(#[trigger] now[j]) by {
                if j < i {
                    assert(now[j] == made[j]);
                    assert(before.has(made[j]));
                }
            }
            assert forall|j: int| 0 <= j < examples@.take(i + 1).len() implies {
                &&& (#[trigger] now[j]).id == start.nodes@.len() + j
                &&& now[j].shape@ == examples@.take(i + 1)[j].shape@
                &&& now[j].device == device
                &&& graph.nodes@[now[j].id as int].op == Op::<T>::Placeholder(j as usize)
            } by {
                if j < i {
                    assert(now[j] == made[j]);
                    assert(made[j].shape@ == examples@.take(i as int)[j].shape@);
                }
            }
        }
        i = i + 1;
    }
    assert(examples@.take(i as int) =~= examples@);
    let ghost start_placed = *graph;
    let outcome = function(graph, &placeholders);
    match outcome {
        Err(error) => Err(error),
        Ok(tensor) => {
            if tensor.device != device {
                return Err(Error::DeviceMismatch);
            }
            proof {
                assert(shapes_of(input_shapes@) =~= tensor_shapes(examples@));
            }
            let module = JitModule {
                graph: tensor,
                input_shapes,
                device,
                specializations: Vec::new(),
            };
            proof {
                if reads_own(
                    graph.nodes@,
                    module.graph.id as int,
                    old(graph).nodes@.len(),
                    examples@.len(),
                ) {
                    lemma_closed(
                        *old(graph),
                        start_placed,
                        *graph,
                        placeholders@,
                        examples@,
                        module,
                    );
                }
            }
            Ok(module)
        },
    }
}

/// Records what `model` builds on a placeholder for the example.
pub fn compile<T, M: Module<T>>(graph: &mut Graph<T>, model: &M, example: &Tensor) -> (r: Result<
    JitModule,
>)
    requires
        old(graph).wf(),
        model.lives_in(*old(graph)),
        model.admits(example.form()),
    ensures
        final(graph).wf(),
        final(graph).extends(*old(graph)),
        final(graph).next_parameter == old(graph).next_parameter,
        match (model.output(example.form()), r) {
            (Ok(form), Ok(module)) => {
                let input = old(graph).nodes@.len() as int;
                &&& form.device == example.device
                &&& module.graph.form() == form
                &&& module.wf()
                &&& final(graph).has(module.graph)
                &&& final(graph).nodes@[input].op == Op::<T>::Placeholder(0)
                &&& final(graph).nodes@[input].shape@ == example.shape@
                &&& final(graph).nodes@[input].device == example.device
                &&& model.builds(final(graph).nodes@, input, module.graph.id as int)
                &&& shapes_of(module.input_shapes@) == seq![example.shape@]
                &&& module.device == example.device
                &&& module.specializations@.len() == 0
                &&& reads_own(
                    final(graph).nodes@,
                    module.graph.id as int,
                    old(graph).nodes@.len(),
                    1,
                ) ==> module.closed(*final(graph))
            },
            (Ok(form), Err(error)) => form.device != example.device && error@
                == Failure::DeviceMismatch,
            (Err(failure), Err(error)) => error@ == failure,
            (Err(_), Ok(_)) => false,
        },
{
    let device = example.device;
    let input = Tensor::placeholder(graph, 0, copied(&example.shape), device);
    let ghost start = *graph;
    proof {
        assert(start.nodes@.drop_last() == old(graph).nodes@);
        assert forall|j: int| 0 <= j < old(graph).nodes@.len() implies start.nodes@[j] == old(
            graph,
        ).nodes@[j] by {
            assert(start.nodes@.drop_last()[j] == start.nodes@[j]);
        }
        model.lemma_lives(*old(graph), start);
        assert(input.form() == example.form());
    }
    let output = match model.forward(graph, &input) {
        Ok(output) => output,
        Err(error) => {
            return Err(error);
        },
    };
    proof {
        lemma_extends(*old(graph), start, *graph);
    }
    if output.device != device {
        return Err(Error::DeviceMismatch);
    }
    let mut input_shapes: Vec<Vec<usize>> = Vec::with_capacity(1);
    input_shapes.push(copied(&example.shape));
    let module = JitModule { graph: output, input_shapes, device, specializations: Vec::new() };
    proof {
        let examples = seq![*example];
        assert(graph.nodes@[input.id as int] == start.nodes@[input.id as int]);
        assert(shapes_of(module.input_shapes@) =~= seq![example.shape@]);
        assert(shapes_of(module.input_shapes@) =~= tensor_shapes(examples));
        assert(placed(*old(graph), start, seq![input], examples, device));
        if reads_own(graph.nodes@, module.graph.id as int, old(graph).nodes@.len(), 1) {
            lemma_closed(*old(graph), start, *graph, seq![input], examples, module);
        }
    }
    Ok(module)
}

impl JitModule {
    /// Each remembered signature is the traced one, and it is remembered once.
    pub open spec fn wf(self) -> bool {
        &&& self.specializations@.len() <= 1
        &&& forall|i: int|
            0 <= i < self.specializations@.len() ==> {
                &&& shapes_of((#[trigger] self.specializations@[i]).shapes@) == shapes_of(
                    self.input_shapes@,
                )
                &&& self.specializations@[i].device == self.device
            }
    }
}

/// What is wrong with one input of a plan, if anything.
pub open spec fn fault(
    shapes: Seq<Seq<usize>>,
    device: Device,
    inputs: Seq<Tensor>,
    i: int,
) -> Option<Failure> {
    if inputs[i].shape@ != shapes[i] {
        Some(
            Failure::Trace(
                "input "@ + decimal(i as nat) + " expected shape "@ + shape_text(shapes[i])
                    + ", got "@ + shape_text(inputs[i].shape@),
            ),
        )
    } else if inputs[i].device != device {
        Some(Failure::DeviceMismatch)
    } else {
        None
    }
}

/// What is wrong with the first faulty input among the first `n`, if any.
pub open spec fn first_fault(
    shapes: Seq<Seq<usize>>,
    device: Device,
    inputs: Seq<Tensor>,
    n: nat,
) -> Option<Failure>
    decreases n,
{
    if n == 0 {
        None
    } else {
        match first_fault(shapes, device, inputs, (n - 1) as nat) {
            Some(failure) => Some(failure),
            None => fault(shapes, device, inputs, n - 1),
        }
    }
}

/// What is wrong with the inputs of a plan, if anything.
pub open spec fn rejection(shapes: Seq<Seq<usize>>, device: Device, inputs: Seq<Tensor>) -> Option<
    Failure,
> {
    if inputs.len() != shapes.len() {
        Some(
            Failure::Trace(
                "expected "@ + decimal(shapes.len()) + " inputs, got "@ + decimal(inputs.len()),
            ),
        )
    } else {
        first_fault(shapes, device, inputs, shapes.len())
    }
}

/// Inputs without a fault have the shapes and the device of the plan.
pub proof fn lemma_accepted(
    shapes: Seq<Seq<usize>>,
    device: Device,
    inputs: Seq<Tensor>,
    n: nat,
    i: int,
)
    requires
        first_fault(shapes, device, inputs, n) is None,
        0 <= i < n,
    ensures
        inputs[i].shape@ == shapes[i],
        inputs[i].device == device,
    decreases n,
{
    if i < n - 1 {
        lemma_accepted(shapes, device, inputs, (n - 1) as nat, i);
    }
}

/// Once an input is faulty, the first fault stands.
proof fn lemma_first_fault(
    shapes: Seq<Seq<usize>>,
    device: Device,
    inputs: Seq<Tensor>,
    m: nat,
    n: nat,
)
    requires
        m <= n,
        first_fault(shapes, device, inputs, m) is Some,
    ensures
        first_fault(shapes, device, inputs, n) == first_fault(shapes, device, inputs, m),
    decreases n,
{
    if m < n {
        lemma_first_fault(shapes, device, inputs, m, (n - 1) as nat);
    }
}

/// Evaluating the tensors one after the other gives the values.
pub open spec fn inputs_valued<T: Scalar>(
    nodes: Seq<Node<T>>,
    before: Memory<T>,
    tensors: Seq<Tensor>,
    values: Seq<Seq<T>>,
    after: Memory<T>,
) -> bool
    decreases values.len(),
{
    if values.len() == 0 {
        after == before
    } else {
        exists|middle: Memory<T>|
            {
                &&& inputs_valued(nodes, before, tensors, values.drop_last(), middle)
                &&& #[trigger] valued(
                    nodes,
                    None,
                    middle,
                    tensors[values.len() - 1].id as int,
                    values.last(),
                    after,
                )
            }
    }
}

/// A plan evaluates its inputs and then its graph on them.
pub open spec fn plan_valued<T: Scalar>(
    nodes: Seq<Node<T>>,
    before: Memory<T>,
    root: int,
    inputs: Seq<Tensor>,
    value: Seq<T>,
    after: Memory<T>,
) -> bool {
    exists|values: Seq<Seq<T>>, middle: Memory<T>|
        {
            &&& values.len() == inputs.len()
            &&& #[trigger] inputs_valued(nodes, before, inputs, values, middle)
            &&& #[trigger] valued(nodes, Some(values), middle, root, value, after)
        }
}

/// A plan fails: on an input, or on its graph.
pub open spec fn plan_fails<T: Scalar>(
    nodes: Seq<Node<T>>,
    before: Memory<T>,
    root: int,
    inputs: Seq<Tensor>,
    failure: Failure,
    after: Memory<T>,
) -> bool {
    exists|values: Seq<Seq<T>>, middle: Memory<T>|
        {
            &&& values.len() <= inputs.len()
            &&& #[trigger] inputs_valued(nodes, before, inputs, values, middle)
            &&& if values.len() < inputs.len() {
                fails(nodes, None, middle, inputs[values.len() as int].id as int, failure, after)
            } else {
                fails(nodes, Some(values), middle, root, failure, after)
            }
        }
}

/// The node is computed from a placeholder beyond the first `inputs` ones, which is what
/// the failure says.
pub open spec fn lacks_input<T>(
    nodes: Seq<Node<T>>,
    root: int,
    inputs: nat,
    failure: Failure,
) -> bool {
    exists|i: int, slot: usize|
        {
            &&& #[trigger] reaches(nodes, root, i)
            &&& nodes[i].op == Op::<T>::Placeholder(slot)
            &&& slot >= inputs
            &&& failure == Failure::Trace(#[trigger] missing_input(slot))
        }
}

impl JitModule {
    /// The placeholders that the plan is computed from have the traced shapes.
    pub open spec fn closed<T>(self, graph: Graph<T>) -> bool {
        &&& graph.has(self.graph)
        &&& self.graph.device == self.device
        &&& forall|i: int, slot: usize|
            #![trigger graph.nodes@[i].op, self.input_shapes@[slot as int]]
            reaches(graph.nodes@, self.graph.id as int, i) && graph.nodes@[i].op
                == Op::<T>::Placeholder(slot) && slot < self.input_shapes@.len()
                ==> self.input_shapes@[slot as int]@ == graph.nodes@[i].shape@
    }

    /// Whether the placeholders that the plan is computed from have the traced shapes.
    pub fn is_closed<T>(&self, graph: &Graph<T>) -> (r: bool)
        requires
            graph.wf(),
        ensures
            r == self.closed(*graph),
    {
        if !graph.holds(&self.graph) || self.graph.device != self.device {
            return false;
        }
        let reached = reachable(&graph.nodes, self.graph.id);
        let mut i: usize = 0;
        while i < graph.nodes.len()
            invariant
                graph.wf(),
                graph.has(self.graph),
                self.graph.device == self.device,
                i <= graph.nodes.len(),
                reached.len() == graph.nodes.len(),
                forall|j: int|
                    0 <= j < graph.nodes@.len() ==> #[trigger] reached@[j] == reaches(
                        graph.nodes@,
                        self.graph.id as int,
                        j,
                    ),
                forall|j: int, slot: usize|
                    #![trigger graph.nodes@[j].op, self.input_shapes@[slot as int]]
                    0 <= j < i && reached@[j] && graph.nodes@[j].op == Op::<T>::Placeholder(slot)
                        && slot < self.input_shapes@.len() ==> self.input_shapes@[slot as int]@
                        == graph.nodes@[j].shape@,
            decreases graph.nodes.len() - i,
        {
            if reached[i] {
                assert(reaches(graph.nodes@, self.graph.id as int, i as int));
                match &graph.nodes[i].op {
                    Op::Placeholder(slot) => {
                        let slot: usize = *slot;
                        assert(graph.nodes@[i as int].op == Op::<T>::Placeholder(slot));
                        if slot < self.input_shapes.len() && !same_shape(
                            &self.input_shapes[slot],
                            &graph.nodes[i].shape,
                        ) {
                            return false;
                        }
                    },
                    _ => {},
                }
            }
            i = i + 1;
        }
        assert forall|j: int, slot: usize|
            #![trigger graph.nodes@[j].op, self.input_shapes@[slot as int]]
            reaches(graph.nodes@, self.graph.id as int, j) && graph.nodes@[j].op
                == Op::<T>::Placeholder(slot) && slot < self.input_shapes@.len() implies
            self.input_shapes@[slot as int]@ == graph.nodes@[j].shape@ by {
            lemma_reaches_below(graph.nodes@, self.graph.id as int, j);
            assert(reached@[j]);
        }
        true
    }

    /// What is wrong with the inputs, if anything.
    pub open spec fn rejects(self, inputs: Seq<Tensor>) -> Option<Failure> {
        rejection(shapes_of(self.input_shapes@), self.device, inputs)
    }

    /// Whether the inputs have the traced shapes and device.
    fn validate_inputs(&self, inputs: &Vec<Tensor>) -> (r: Result<()>)
        ensures
            match r {
                Ok(_) => self.rejects(inputs@) is None,
                Err(error) => self.rejects(inputs@) == Some(error@),
            },
    {
        let ghost shapes = shapes_of(self.input_shapes@);
        if inputs.len() != self.input_shapes.len() {
            let mut message = owned("expected ");
            push_decimal(&mut message, self.input_shapes.len());
            message.append(" inputs, got ");
            push_decimal(&mut message, inputs.len());
            return Err(Error::Trace(message));
        }
        let mut i: usize = 0;
        while i < inputs.len()
            invariant
                shapes == shapes_of(self.input_shapes@),
                inputs.len() == self.input_shapes.len(),
                i <= inputs.len(),
                first_fault(shapes, self.device, inputs@, i as nat) is None,
            decreases inputs.len() - i,
        {
            proof {
                if fault(shapes, self.device, inputs@, i as int) is Some {
                    lemma_first_fault(
                        shapes,
                        self.device,
                        inputs@,
                        (i + 1) as nat,
                        shapes.len(),
                    );
                }
            }
            if !same_shape(&inputs[i].shape, &self.input_shapes[i]) {
                let mut message = owned("input ");
                push_decimal(&mut message, i);
                message.append(" expected shape ");
                push_shape(&mut message, &self.input_shapes[i]);
                message.append(", got ");
                push_shape(&mut message, &inputs[i].shape);
                return Err(Error::Trace(message));
            }
            if inputs[i].device != self.device {
                return Err(Error::DeviceMismatch);
            }
            i = i + 1;
        }
        Ok(())
    }

    /// The plan's graph with the inputs in place of its placeholders.
    pub fn bind<T: Copy>(&self, graph: &mut Graph<T>, inputs: &Vec<Tensor>) -> (r: Result<Tensor>)
        requires
            old(graph).wf(),
            self.closed(*old(graph)),
            all_in(*old(graph), inputs@),
        ensures
            final(graph).wf(),
            final(graph).extends(*old(graph)),
            final(graph).next_parameter == old(graph).next_parameter,
            match r {
                Ok(tensor) => {
                    &&& self.rejects(inputs@) is None
                    &&& final(graph).has(tensor)
                    &&& tensor.shape@ == self.graph.shape@
                    &&& tensor.device == self.device
                    &&& copies_anew(
                        *old(graph),
                        *final(graph),
                        Some(identifiers(inputs@)),
                        self.device,
                        self.graph.id as int,
                        tensor.id as int,
                    )
                    &&& copies(
                        final(graph).nodes@,
                        Some(identifiers(inputs@)),
                        self.device,
                        self.graph.id as int,
                        tensor.id as int,
                    )
                },
                Err(error) => {
                    ||| self.rejects(inputs@) == Some(error@) && *final(graph) == *old(graph)
                    ||| {
                        &&& self.rejects(inputs@) is None
                        &&& lacks_input(
                            old(graph).nodes@,
                            self.graph.id as int,
                            inputs@.len(),
                            error@,
                        )
                    }
                },
            },
    {
        match self.validate_inputs(inputs) {
            Ok(_) => {},
            Err(error) => {
                return Err(error);
            },
        }
        proof {
            assert forall|i: int| 0 <= i < inputs@.len() implies graph.has(#[trigger] inputs@[i])
                && inputs@[i].device == self.device by {
                lemma_accepted(
                    shapes_of(self.input_shapes@),
                    self.device,
                    inputs@,
                    inputs@.len(),
                    i,
                );
            }
            assert forall|i: int, slot: usize|
                #![trigger graph.nodes@[i].op, inputs@[slot as int]]
                reaches(graph.nodes@, self.graph.id as int, i) && graph.nodes@[i].op
                    == Op::<T>::Placeholder(slot) && slot < inputs@.len() implies
                inputs@[slot as int].shape@ == graph.nodes@[i].shape@ by {
                lemma_accepted(
                    shapes_of(self.input_shapes@),
                    self.device,
                    inputs@,
                    inputs@.len(),
                    slot as int,
                );
                assert(self.input_shapes@[slot as int]@ == graph.nodes@[i].shape@);
            }
        }
        rebuild(graph, self.graph.id, self.device, Some(inputs))
    }

    /// Remembers the traced signature.
    fn remember(&mut self)
        requires
            old(self).wf(),
        ensures
            final(self).wf(),
            final(self).specializations@.len() == 1,
            final(self).graph == old(self).graph,
            final(self).input_shapes == old(self).input_shapes,
            final(self).device == old(self).device,
    {
        if self.specializations.len() == 0 {
            let mut shapes: Vec<Vec<usize>> = Vec::with_capacity(self.input_shapes.len());
            let mut i: usize = 0;
            while i < self.input_shapes.len()
                invariant
                    i <= self.input_shapes.len(),
                    shapes.len() == i,
                    forall|j: int| 0 <= j < i ==> (#[trigger] shapes@[j])@ == self.input_shapes@[j]@,
                decreases self.input_shapes.len() - i,
            {
                shapes.push(copied(&self.input_shapes[i]));
                i = i + 1;
            }
            assert(shapes_of(shapes@) =~= shapes_of(self.input_shapes@));
            let device = self.device;
            self.specializations.push(Signature { shapes, device });
        }
    }

    /// Runs the plan on inputs of the traced shapes and device.
    pub fn run<T: Scalar>(&mut self, graph: &mut Graph<T>, inputs: &Vec<Tensor>) -> (r: Result<
        Tensor,
    >)
        requires
            old(self).wf(),
            old(graph).wf(),
            old(self).closed(*old(graph)),
            fits(old(graph).nodes@, old(self).graph.id as int),
            all_in(*old(graph), inputs@),
            forall|i: int|
                0 <= i < inputs@.len() ==> fits(
                    old(graph).nodes@,
                    (#[trigger] inputs@[i]).id as int,
                ),
        ensures
            final(self).wf(),
            final(graph).wf(),
            final(self).graph == old(self).graph,
            final(self).input_shapes == old(self).input_shapes,
            final(self).device == old(self).device,
            final(self).specializations@.len() == (if old(self).rejects(inputs@) is Some {
                old(self).specializations@.len()
            } else {
                1
            }),
            old(graph).nodes@.len() <= final(graph).nodes@.len(),
            forall|i: int|
                0 <= i < old(graph).nodes@.len() ==> #[trigger] final(graph).nodes@[i] == old(
                    graph,
                ).nodes@[i],
            forall|i: int|
                0 <= i < old(graph).grads@.len() ==> #[trigger] final(graph).grads@[i] == old(
                    graph,
                ).grads@[i],
            final(graph).ungraded_from(*old(graph)),
            final(graph).next_parameter == old(graph).next_parameter,
            old(self).rejects(inputs@) matches Some(failure) ==> (r matches Err(error) && error@
                == failure) && *final(graph) == *old(graph),
            old(self).rejects(inputs@) is None && old(self).device is Cuda ==> (r matches Err(error)
                && (error@ == Failure::CudaUnavailable || lacks_input(
                old(graph).nodes@,
                old(self).graph.id as int,
                inputs@.len(),
                error@,
            ))) && final(graph).extends(*old(graph)),
            old(self).rejects(inputs@) is None && old(self).device is Cpu ==> match r {
                Ok(tensor) => exists|value: Seq<T>|
                    {
                        &&& #[trigger] plan_valued(
                            old(graph).nodes@,
                            old(graph).norms@,
                            old(self).graph.id as int,
                            inputs@,
                            value,
                            final(graph).norms@,
                        )
                        &&& final(graph).has(tensor)
                        &&& tensor.id > old(graph).nodes@.len()
                        &&& tensor.shape@ == old(self).graph.shape@
                        &&& tensor.device == Device::Cpu
                        &&& final(graph).nodes@[tensor.id as int].op matches Op::Data(data)
                            && data@ == value
                    },
                Err(error) => {
                    &&& final(graph).nodes@ == old(graph).nodes@
                    &&& {
                        ||| plan_fails(
                            old(graph).nodes@,
                            old(graph).norms@,
                            old(self).graph.id as int,
                            inputs@,
                            error@,
                            final(graph).norms@,
                        )
                        ||| validated_numel(
                            numel(old(self).graph.shape@),
                            old(self).graph.shape@,
                        ) == std::result::Result::<(), Failure>::Err(error@) && exists|value: Seq<T>|
                         #[trigger]
                            plan_valued(
                                old(graph).nodes@,
                                old(graph).norms@,
                                old(self).graph.id as int,
                                inputs@,
                                value,
                                final(graph).norms@,
                            )
                    }
                },
            },
    {
        match self.validate_inputs(inputs) {
            Ok(_) => {},
            Err(error) => {
                return Err(error);
            },
        }
        self.remember();
        match self.device {
            Device::Cuda(_) => {
                return match self.bind(graph, inputs) {
                    Ok(_) => Err(Error::CudaUnavailable),
                    Err(error) => Err(error),
                };
            },
            Device::Cpu => {},
        }
        let ghost nodes = graph.nodes@;
        let ghost start = graph.norms@;
        let ghost shapes = shapes_of(self.input_shapes@);
        let mut values: Vec<Vec<T>> = Vec::with_capacity(inputs.len());
        let mut i: usize = 0;
        assert(given(Some(&values))->Some_0 =~= Seq::<Seq<T>>::empty());
        while i < inputs.len()
            invariant
                self.wf(),
                self.graph == old(self).graph,
                self.input_shapes == old(self).input_shapes,
                self.device == old(self).device,
                self.specializations@.len() == 1,
                old(self).rejects(inputs@) is None,
                self.device is Cpu,
                nodes == old(graph).nodes@,
                start == old(graph).norms@,
                graph.wf(),
                graph.nodes@ == nodes,
                graph.next_parameter == old(graph).next_parameter,
                graph.grads == old(graph).grads,
                all_in(*graph, inputs@),
                forall|i: int|
                    0 <= i < inputs@.len() ==> fits(nodes, (#[trigger] inputs@[i]).id as int),
                first_fault(shapes, Device::Cpu, inputs@, inputs@.len()) is None,
                i <= inputs.len(),
                values.len() == i,
                inputs_valued(nodes, start, inputs@, given(Some(&values))->Some_0, graph.norms@),
                forall|j: int|
                    0 <= j < i ==> (#[trigger] values@[j])@.len() == numel(inputs@[j].shape@),
            decreases inputs.len() - i,
        {
            let ghost before = given(Some(&values))->Some_0;
            let ghost memory = graph.norms@;
            proof {
                lemma_accepted(shapes, Device::Cpu, inputs@, inputs@.len(), i as int);
            }
            assert(graph.has(inputs@[i as int]));
            let value = match inputs[i].to_vec(graph) {
                Ok(value) => value,
                Err(error) => {
                    proof {
                        assert(inputs_valued(nodes, start, inputs@, before, memory));
                        assert(before.len() == i);
                        assert(plan_fails(
                            nodes,
                            start,
                            self.graph.id as int,
                            inputs@,
                            error@,
                            graph.norms@,
                        ));
                    }
                    return Err(error);
                },
            };
            let ghost result = value@;
            values.push(value);
            proof {
                let now = given(Some(&values))->Some_0;
                assert(now.drop_last() =~= before);
                assert(now.last() == result);
                assert(valued(
                    nodes,
                    None,
                    memory,
                    inputs@[now.len() - 1].id as int,
                    now.last(),
                    graph.norms@,
                ));
            }
            i = i + 1;
        }
        let ghost supply = given(Some(&values));
        let ghost memory = graph.norms@;
        proof {
            assert forall|j: int| #[trigger] reaches(nodes, self.graph.id as int, j) implies
                supplied_alone(nodes, supply, j) by {
                match nodes[j].op {
                    Op::Placeholder(slot) => {
                        if slot < inputs@.len() {
                            lemma_accepted(
                                shapes,
                                Device::Cpu,
                                inputs@,
                                inputs@.len(),
                                slot as int,
                            );
                            assert(nodes[j].op == Op::<T>::Placeholder(slot));
                            assert(self.input_shapes@[slot as int]@ == nodes[j].shape@);
                            assert(values@[slot as int]@.len() == numel(
                                inputs@[slot as int].shape@,
                            ));
                        }
                    },
                    _ => {},
                }
            }
        }
        let output = match graph.eval_cpu(self.graph.id, Some(&values)) {
            Ok(output) => output,
            Err(error) => {
                proof {
                    assert(inputs_valued(nodes, start, inputs@, supply->Some_0, memory));
                    assert(fails(
                        nodes,
                        Some(supply->Some_0),
                        memory,
                        self.graph.id as int,
                        error@,
                        graph.norms@,
                    ));
                    assert(plan_fails(
                        nodes,
                        start,
                        self.graph.id as int,
                        inputs@,
                        error@,
                        graph.norms@,
                    ));
                }
                return Err(error);
            },
        };
        let ghost result = output@;
        proof {
            assert(inputs_valued(nodes, start, inputs@, supply->Some_0, memory));
            assert(valued(
                nodes,
                Some(supply->Some_0),
                memory,
                self.graph.id as int,
                result,
                graph.norms@,
            ));
            assert(plan_valued(
                nodes,
                start,
                self.graph.id as int,
                inputs@,
                result,
                graph.norms@,
            ));
        }
        let shape = copied(&self.graph.shape);
        let made = Tensor::from_vec(graph, output, shape)?;
        let ghost middle = *graph;
        proof {
            lemma_data_memoryless(middle.nodes@, made.id as int);
        }
        let r = made.to(graph, Device::Cpu);
        proof {
            assert(graph.nodes@[made.id as int] == middle.nodes@[made.id as int]);
            lemma_copies_alike(graph.nodes@, Device::Cpu, made.id as int, r.id as int);
            assert forall|i: int| 0 <= i < nodes.len() implies #[trigger] graph.nodes@[i]
                == nodes[i] by {
                assert(middle.nodes@.drop_last()[i] == nodes[i]);
                assert(middle.nodes@[i] == nodes[i]);
            }
            assert forall|i: int| 0 <= i < old(graph).grads@.len() implies #[trigger]
                graph.grads@[i] == old(graph).grads@[i] by {
                assert(graph.grads@[i] == middle.grads@[i]);
            }
            assert forall|i: int|
                nodes.len() <= i < graph.nodes@.len() implies #[trigger] graph.grads@[i] is None by {
                if i < middle.nodes@.len() {
                    assert(graph.grads@[i] == middle.grads@[i]);
                }
            }
        }
        Ok(r)
    }

    /// The number of input signatures that the plan ran on.
    pub fn cached_specializations(&self) -> (r: usize)
        ensures
            r == self.specializations@.len(),
    {
        self.specializations.len()
    }

    /// The shape of what the plan gives.
    pub fn output_shape(&self) -> (r: &Vec<usize>)
        ensures
            r@ == self.graph.shape@,
    {
        &self.graph.shape
    }
}

} // verus!

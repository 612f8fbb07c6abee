//! What a step of the optimizer does to the parameters of a graph.

use crate::eval::{seen, valued};
use crate::exact::optimizer::{first_steps_follow_the_gradient, magnitude, Update};
use crate::exact::Reading;
use crate::graph::{Graph, Memory, Op};
use crate::nn::Slot;
use crate::optim::{
    counted_step, parameter_updated, updated_with, updates, AdamW, Moments, Optimizer,
};
use crate::scalar::Scalar;
use vstd::prelude::*;

verus! {

/// The graph keeps the nodes and the gradients of `before`.
pub open spec fn kept<T>(before: Graph<T>, after: Graph<T>) -> bool {
    &&& before.nodes@.len() <= after.nodes@.len()
    &&& before.grads@.len() <= after.grads@.len()
    &&& forall|i: int|
        0 <= i < before.nodes@.len() ==> #[trigger] after.nodes@[i] == before.nodes@[i]
    &&& forall|i: int|
        0 <= i < before.grads@.len() ==> #[trigger] after.grads@[i] == before.grads@[i]
}

/// The update of one parameter among several.
#[verifier::reject_recursive_types(T)]
pub struct Turn<T> {
    pub optimizer: AdamW<T>,
    pub graph: Graph<T>,
    pub new_optimizer: AdamW<T>,
    pub new_graph: Graph<T>,
}

proof fn lemma_turn_of<T: Scalar>(
    optimizer: AdamW<T>,
    graph: Graph<T>,
    parameters: Seq<Slot>,
    new_optimizer: AdamW<T>,
    new_graph: Graph<T>,
    new_parameters: Seq<Slot>,
    n: nat,
    k: int,
) -> (turn: Turn<T>)
    requires
        updates(optimizer, graph, parameters, new_optimizer, new_graph, new_parameters, n),
        0 <= k < n,
        graph.wf(),
    ensures
        parameter_updated(
            turn.optimizer,
            turn.graph,
            parameters[k],
            turn.new_optimizer,
            turn.new_graph,
            new_parameters[k],
        ),
        turn.optimizer.same_settings(optimizer),
        kept(graph, turn.graph),
        kept(turn.new_graph, new_graph),
        turn.graph.wf(),
        new_graph.wf(),
        new_optimizer.same_settings(optimizer),
        forall|id: u64|
            (forall|j: int| 0 <= j < k ==> (#[trigger] parameters[j]).id != id) ==> (
            #[trigger] turn.optimizer.states@.contains_key(id)
                == optimizer.states@.contains_key(id)),
    decreases n,
{
    let (middle, between) = choose|middle: AdamW<T>, between: Graph<T>|
        {
            &&& updates(
                optimizer,
                graph,
                parameters,
                middle,
                between,
                new_parameters,
                (n - 1) as nat,
            )
            &&& #[trigger] parameter_updated(
                middle,
                between,
                parameters[n - 1],
                new_optimizer,
                new_graph,
                new_parameters[n - 1],
            )
            &&& new_optimizer.same_settings(middle)
        };
    lemma_states(optimizer, graph, parameters, middle, between, new_parameters, (n - 1) as nat);
    lemma_kept(
        middle,
        between,
        parameters[n - 1],
        new_optimizer,
        new_graph,
        new_parameters[n - 1],
    );
    if k == n - 1 {
        Turn { optimizer: middle, graph: between, new_optimizer, new_graph }
    } else {
        lemma_turn_of(
            optimizer,
            graph,
            parameters,
            middle,
            between,
            new_parameters,
            (n - 1) as nat,
            k,
        )
    }
}

proof fn lemma_kept<T: Scalar>(
    optimizer: AdamW<T>,
    graph: Graph<T>,
    slot: Slot,
    new_optimizer: AdamW<T>,
    new_graph: Graph<T>,
    new_slot: Slot,
)
    requires
        parameter_updated(optimizer, graph, slot, new_optimizer, new_graph, new_slot),
        graph.wf(),
    ensures
        kept(graph, new_graph),
        new_graph.wf(),
        forall|id: u64|
            id != slot.id ==> (#[trigger] new_optimizer.states@.contains_key(id)
                == optimizer.states@.contains_key(id)),
{
}

proof fn lemma_states<T: Scalar>(
    optimizer: AdamW<T>,
    graph: Graph<T>,
    parameters: Seq<Slot>,
    new_optimizer: AdamW<T>,
    new_graph: Graph<T>,
    new_parameters: Seq<Slot>,
    n: nat,
)
    requires
        updates(optimizer, graph, parameters, new_optimizer, new_graph, new_parameters, n),
        graph.wf(),
    ensures
        kept(graph, new_graph),
        new_graph.wf(),
        new_optimizer.same_settings(optimizer),
        forall|id: u64|
            (forall|j: int| 0 <= j < n ==> (#[trigger] parameters[j]).id != id) ==> (
            #[trigger] new_optimizer.states@.contains_key(id)
                == optimizer.states@.contains_key(id)),
    decreases n,
{
    if n > 0 {
        let (middle, between) = choose|middle: AdamW<T>, between: Graph<T>|
            {
                &&& updates(
                    optimizer,
                    graph,
                    parameters,
                    middle,
                    between,
                    new_parameters,
                    (n - 1) as nat,
                )
                &&& #[trigger] parameter_updated(
                    middle,
                    between,
                    parameters[n - 1],
                    new_optimizer,
                    new_graph,
                    new_parameters[n - 1],
                )
                &&& new_optimizer.same_settings(middle)
            };
        lemma_states(optimizer, graph, parameters, middle, between, new_parameters, (n - 1) as nat);
        lemma_kept(
            middle,
            between,
            parameters[n - 1],
            new_optimizer,
            new_graph,
            new_parameters[n - 1],
        );
        assert forall|id: u64|
            (forall|j: int| 0 <= j < n ==> (#[trigger] parameters[j]).id != id) implies (
        #[trigger] new_optimizer.states@.contains_key(id) == optimizer.states@.contains_key(id)) by {
            assert(parameters[n - 1].id != id);
            assert(middle.states@.contains_key(id) == optimizer.states@.contains_key(id));
        }
    }
}

/// A step is counted once, whatever the number of parameters, and leaves the rates.
pub proof fn steps_are_counted_once<T: Scalar>(
    before: AdamW<T>,
    graph: Graph<T>,
    parameters: Seq<Slot>,
    after: AdamW<T>,
    new_graph: Graph<T>,
    new_parameters: Seq<Slot>,
)
    requires
        <AdamW<T> as Optimizer<T>>::steps(
            before,
            graph,
            parameters,
            after,
            new_graph,
            new_parameters,
        ),
        graph.wf(),
    ensures
        after.step == before.step + 1,
        after.rates() == before.rates(),
        kept(graph, new_graph),
{
    let started = choose|started: AdamW<T>|
        {
            &&& #[trigger] counted_step(before, started)
            &&& updates(
                started,
                graph,
                parameters,
                after,
                new_graph,
                new_parameters,
                parameters.len(),
            )
        };
    lemma_states(started, graph, parameters, after, new_graph, new_parameters, parameters.len());
}

/// The first step of an optimizer gives every parameter that has a gradient a tensor of
/// which each element is the old one, less the part that decays, less the learning rate
/// times the gradient over its magnitude and epsilon.
pub proof fn first_steps_move_every_parameter<T: Scalar>(
    reading: Reading<T>,
    before: AdamW<T>,
    graph: Graph<T>,
    parameters: Seq<Slot>,
    after: AdamW<T>,
    new_graph: Graph<T>,
    new_parameters: Seq<Slot>,
    gradient: Seq<T>,
    k: int,
    i: int,
) -> (r: (Graph<T>, Seq<T>, Memory<T>, real))
    requires
        reading.exact(),
        <AdamW<T> as Optimizer<T>>::steps(
            before,
            graph,
            parameters,
            after,
            new_graph,
            new_parameters,
        ),
        graph.wf(),
        before.step == 0,
        before.states@ == Map::<u64, crate::optim::State<T>>::empty(),
        0 <= k < parameters.len(),
        parameters[k].node < graph.grads@.len(),
        seen(graph.grads@)[parameters[k].node as int] == Some(gradient),
        forall|j: int| 0 <= j < k ==> (#[trigger] parameters[j]).id != parameters[k].id,
        0 as real <= reading.of(before.beta1) < 1 as real,
        0 as real <= reading.of(before.beta2) < 1 as real,
        reading.of(before.epsilon) > 0 as real,
    ensures
        kept(graph, r.0),
        valued(r.0.nodes@, None, r.0.norms@, parameters[k].node as int, r.1, r.2),
        match new_graph.nodes@[new_parameters[k].node as int].op {
            Op::Data(data) => {
                &&& data@.len() == r.1.len()
                &&& 0 <= i < r.1.len() ==> {
                    &&& r.3 * (magnitude(reading.of(gradient[i])) + reading.of(before.epsilon))
                        == reading.of(gradient[i])
                    &&& reading.of(data@[i]) == (1 as real - reading.of(before.learning_rate)
                        * reading.of(before.weight_decay)) * reading.of(r.1[i]) - reading.of(
                        before.learning_rate,
                    ) * r.3
                }
            },
            _ => false,
        },
{
    let started = choose|started: AdamW<T>|
        {
            &&& #[trigger] counted_step(before, started)
            &&& updates(
                started,
                graph,
                parameters,
                after,
                new_graph,
                new_parameters,
                parameters.len(),
            )
        };
    let turn = lemma_turn_of(
        started,
        graph,
        parameters,
        after,
        new_graph,
        new_parameters,
        parameters.len(),
        k,
    );
    let slot = parameters[k];
    assert(turn.graph.grads@[slot.node as int] == graph.grads@[slot.node as int]);
    assert(seen(turn.graph.grads@)[slot.node as int] == Some(gradient));
    let (values, memory, moments, new_values) = choose|
        values: Seq<T>,
        memory: Memory<T>,
        moments: Moments<T>,
        new_values: Seq<T>,
    | #[trigger]
        updated_with(
            turn.optimizer,
            turn.graph,
            slot,
            gradient,
            values,
            memory,
            moments,
            new_values,
            turn.new_optimizer,
            turn.new_graph,
            new_parameters[k],
        );
    assert(!started.states@.contains_key(slot.id));
    assert(!turn.optimizer.states@.contains_key(slot.id));
    let update = if 0 <= i < values.len() {
        assert(crate::scalar::zero(moments.first[i]));
        assert(crate::scalar::zero(moments.second[i]));
        first_steps_follow_the_gradient(
            reading,
            before.rates(),
            gradient,
            values,
            moments,
            new_values,
            turn.new_optimizer.states@[slot.id]@,
            i,
        )
    } else {
        Update {
            first: 0 as real,
            second: 0 as real,
            deviation: 0 as real,
            direction: 0 as real,
            value: 0 as real,
        }
    };
    let placed = new_parameters[k].node as int;
    assert(new_graph.nodes@[placed] == turn.new_graph.nodes@[placed]);
    (turn.graph, values, memory, update.direction)
}

} // verus!

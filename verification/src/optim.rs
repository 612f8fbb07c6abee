//! Optimizers.

use crate::error::{Error, Failure, Result};
use crate::eval::{fails, seen, valued};
use crate::graph::{fits, fits_alone, lemma_fits_prefix, operands, reaches, Graph, Memory, Op};
use crate::nn::{slots, Parameter, Slot, Trainable};
use crate::scalar::{
    all_zero, difference, one, product, quotient, raised, ratio, ratio_of, rooted, sum, Scalar,
};
use crate::shape::numel;
use crate::tensor::{check_positive, positive};
use std::collections::HashMap;
use vstd::prelude::*;
use vstd::std_specs::hash::*;

verus! {

broadcast use vstd::std_specs::hash::group_hash_axioms;

/// The moments that an optimizer keeps for a parameter.
#[derive(Debug)]
pub struct State<T> {
    pub first_moment: Vec<T>,
    pub second_moment: Vec<T>,
}

/// The moments as sequences.
pub struct Moments<T> {
    pub first: Seq<T>,
    pub second: Seq<T>,
}

impl<T> View for State<T> {
    type V = Moments<T>;

    open spec fn view(&self) -> Moments<T> {
        Moments { first: self.first_moment@, second: self.second_moment@ }
    }
}

/// The AdamW optimizer.
#[derive(Debug)]
pub struct AdamW<T> {
    pub learning_rate: T,
    pub weight_decay: T,
    pub beta1: T,
    pub beta2: T,
    pub epsilon: T,
    pub step: u32,
    pub states: HashMap<u64, State<T>>,
}

/// The rates of an optimizer.
pub struct Rates<T> {
    pub learning_rate: T,
    pub weight_decay: T,
    pub beta1: T,
    pub beta2: T,
    pub epsilon: T,
}

/// `r` answers whether a value is finite and not below zero.
pub open spec fn non_negative<T: Scalar>(value: T, r: bool) -> bool {
    ||| crate::scalar::is_finite(value, false) && !r
    ||| crate::scalar::is_finite(value, true) && crate::forward::negative(value, !r)
}

/// The parameter's tensor belongs to the graph.
pub open spec fn owned_by<T>(graph: Graph<T>, slot: Slot) -> bool {
    &&& slot.node < graph.nodes@.len()
    &&& graph.nodes@[slot.node as int].shape@ == slot.form.shape
    &&& graph.nodes@[slot.node as int].device == slot.form.device
}

/// Each parameter's tensor belongs to the graph and can be evaluated.
pub open spec fn all_owned<T>(graph: Graph<T>, parameters: Seq<Slot>) -> bool {
    forall|i: int|
        0 <= i < parameters.len() ==> owned_by(graph, #[trigger] parameters[i]) && fits(
            graph.nodes@,
            parameters[i].node as int,
        )
}

/// `r` is one less `beta` raised to the number of steps.
pub open spec fn correction<T: Scalar>(beta: T, step: i32, r: T) -> bool {
    exists|unit: T, decay: T|
        {
            &&& one(unit)
            &&& #[trigger] raised(beta, step, decay)
            &&& #[trigger] difference(unit, decay, r)
        }
}

/// `r` moves a moment towards a gradient: `beta * old + (1 - beta) * gradient`.
pub open spec fn first_moved<T: Scalar>(beta: T, old: T, gradient: T, r: T) -> bool {
    exists|kept: T, unit: T, share: T, taken: T|
        {
            &&& #[trigger] product(beta, old, kept)
            &&& one(unit)
            &&& #[trigger] difference(unit, beta, share)
            &&& #[trigger] product(share, gradient, taken)
            &&& #[trigger] sum(kept, taken, r)
        }
}

/// `r` moves a moment towards a squared gradient:
/// `beta * old + (1 - beta) * gradient * gradient`.
pub open spec fn second_moved<T: Scalar>(beta: T, old: T, gradient: T, r: T) -> bool {
    exists|kept: T, unit: T, share: T, once: T, taken: T|
        {
            &&& #[trigger] product(beta, old, kept)
            &&& one(unit)
            &&& #[trigger] difference(unit, beta, share)
            &&& #[trigger] product(share, gradient, once)
            &&& #[trigger] product(once, gradient, taken)
            &&& #[trigger] sum(kept, taken, r)
        }
}

/// `r` is the corrected first moment over the root of the corrected second, kept away from
/// zero by `epsilon`.
pub open spec fn direction<T: Scalar>(
    first: T,
    second: T,
    first_correction: T,
    second_correction: T,
    epsilon: T,
    r: T,
) -> bool {
    exists|a: T, b: T, c: T, d: T|
        {
            &&& #[trigger] quotient(first, first_correction, a)
            &&& #[trigger] quotient(second, second_correction, b)
            &&& #[trigger] rooted(b, c)
            &&& #[trigger] sum(c, epsilon, d)
            &&& #[trigger] quotient(a, d, r)
        }
}

/// `r` is `value` moved against a direction, and decayed.
pub open spec fn descended<T: Scalar>(
    value: T,
    normalized: T,
    learning_rate: T,
    weight_decay: T,
    r: T,
) -> bool {
    exists|decay: T, total: T, change: T|
        {
            &&& #[trigger] product(weight_decay, value, decay)
            &&& #[trigger] sum(normalized, decay, total)
            &&& #[trigger] product(learning_rate, total, change)
            &&& #[trigger] difference(value, change, r)
        }
}

/// One element after an update, from before it.
pub open spec fn element_updated<T: Scalar>(
    settings: Rates<T>,
    first_correction: T,
    second_correction: T,
    gradient: T,
    value: T,
    first: T,
    second: T,
    new_value: T,
    new_first: T,
    new_second: T,
) -> bool {
    &&& first_moved(settings.beta1, first, gradient, new_first)
    &&& second_moved(settings.beta2, second, gradient, new_second)
    &&& exists|normalized: T|
        {
            &&& #[trigger] direction(
                new_first,
                new_second,
                first_correction,
                second_correction,
                settings.epsilon,
                normalized,
            )
            &&& descended(
                value,
                normalized,
                settings.learning_rate,
                settings.weight_decay,
                new_value,
            )
        }
}

/// The elements and moments of a parameter after an update, from before it.
pub open spec fn elements_updated<T: Scalar>(
    settings: Rates<T>,
    step: i32,
    gradient: Seq<T>,
    values: Seq<T>,
    before: Moments<T>,
    new_values: Seq<T>,
    after: Moments<T>,
) -> bool {
    exists|first_correction: T, second_correction: T|
        {
            &&& #[trigger] correction(settings.beta1, step, first_correction)
            &&& #[trigger] correction(settings.beta2, step, second_correction)
            &&& new_values.len() == values.len()
            &&& after.first.len() == before.first.len()
            &&& after.second.len() == before.second.len()
            &&& forall|i: int|
                0 <= i < values.len() ==> if i < before.first.len() {
                    element_updated(
                        settings,
                        first_correction,
                        second_correction,
                        gradient[i],
                        values[i],
                        before.first[i],
                        before.second[i],
                        #[trigger] new_values[i],
                        after.first[i],
                        after.second[i],
                    )
                } else {
                    new_values[i] == values[i]
                }
            &&& forall|i: int|
                values.len() <= i < before.first.len() ==> (#[trigger] after.first[i]
                    == before.first[i]) && after.second[i] == before.second[i]
        }
}

/// The moments that are kept for a parameter, or zeros where none are.
pub open spec fn moments_for<T: Scalar>(
    states: Map<u64, State<T>>,
    id: u64,
    len: nat,
    moments: Moments<T>,
) -> bool {
    if states.contains_key(id) {
        moments == states[id]@
    } else {
        &&& moments.first.len() == len
        &&& moments.second.len() == len
        &&& all_zero(moments.first)
        &&& all_zero(moments.second)
    }
}

/// The states differ at most in what is kept for one parameter.
pub open spec fn only_at<T>(
    before: Map<u64, State<T>>,
    after: Map<u64, State<T>>,
    id: u64,
) -> bool {
    &&& after.dom() == before.dom().insert(id)
    &&& forall|other: u64|
        other != id && before.contains_key(other) ==> #[trigger] after[other] == before[other]
}

impl<T: Scalar> AdamW<T> {
    /// The two moments kept for each parameter have one size.
    pub open spec fn wf(self) -> bool {
        forall|id: u64|
            self.states@.contains_key(id) ==> (#[trigger] self.states@[id]).first_moment@.len()
                == self.states@[id].second_moment@.len()
    }

    /// The rates.
    pub open spec fn rates(self) -> Rates<T> {
        Rates {
            learning_rate: self.learning_rate,
            weight_decay: self.weight_decay,
            beta1: self.beta1,
            beta2: self.beta2,
            epsilon: self.epsilon,
        }
    }

    /// The optimizers differ at most in what they keep for parameters.
    pub open spec fn same_settings(self, other: AdamW<T>) -> bool {
        self.rates() == other.rates() && self.step == other.step
    }

    /// An optimizer with the usual decay rates.
    pub fn new(learning_rate: T, weight_decay: T) -> (r: Result<AdamW<T>>)
        ensures
            match r {
                Ok(optimizer) => {
                    &&& positive(learning_rate, true)
                    &&& non_negative(weight_decay, true)
                    &&& optimizer.learning_rate == learning_rate
                    &&& optimizer.weight_decay == weight_decay
                    &&& ratio(9, 10, optimizer.beta1)
                    &&& ratio(999, 1000, optimizer.beta2)
                    &&& ratio(1, 100000000, optimizer.epsilon)
                    &&& optimizer.step == 0
                    &&& optimizer.states@ == Map::<u64, State<T>>::empty()
                    &&& optimizer.wf()
                },
                Err(error) => {
                    ||| positive(learning_rate, false) && error@ == Failure::Execution(
                        "AdamW learning rate must be positive and finite"@,
                    )
                    ||| positive(learning_rate, true) && non_negative(weight_decay, false)
                        && error@ == Failure::Execution(
                        "AdamW weight decay must be non-negative and finite"@,
                    )
                },
            },
    {
        if !check_positive(learning_rate) {
            return Err(Error::execution("AdamW learning rate must be positive and finite"));
        }
        let mut refused = true;
        if weight_decay.finite() {
            let z = T::of_count(0);
            let below = weight_decay.below(z);
            assert(crate::scalar::zero(z) && crate::scalar::less(weight_decay, z, below));
            assert(crate::forward::negative(weight_decay, below));
            refused = below;
        }
        if refused {
            return Err(Error::execution("AdamW weight decay must be non-negative and finite"));
        }
        Ok(
            AdamW {
                learning_rate,
                weight_decay,
                beta1: ratio_of(9, 10),
                beta2: ratio_of(999, 1000),
                epsilon: ratio_of(1, 100000000),
                step: 0,
                states: HashMap::new(),
            },
        )
    }

    /// One less `beta` raised to the number of steps.
    fn corrected(beta: T, step: i32) -> (r: T)
        ensures
            correction(beta, step, r),
    {
        let unit = T::of_count(1);
        let decay = beta.power(step);
        let r = unit.minus(decay);
        assert(one(unit) && raised(beta, step, decay) && difference(unit, decay, r));
        r
    }

    /// Updates the elements and moments of a parameter.
    fn update_elements(
        &self,
        step: i32,
        gradient: &Vec<T>,
        values: &mut Vec<T>,
        state: &mut State<T>,
    )
        requires
            gradient.len() == old(values).len(),
            old(state).first_moment.len() == old(state).second_moment.len(),
        ensures
            elements_updated(
                self.rates(),
                step,
                gradient@,
                old(values)@,
                old(state)@,
                final(values)@,
                final(state)@,
            ),
    {
        let first_correction = Self::corrected(self.beta1, step);
        let second_correction = Self::corrected(self.beta2, step);
        let ghost old_values = values@;
        let ghost before = state@;
        let mut i: usize = 0;
        while i < values.len() && i < state.first_moment.len()
            invariant
                gradient.len() == old_values.len(),
                values.len() == old_values.len(),
                state.first_moment.len() == before.first.len(),
                state.second_moment.len() == before.second.len(),
                before.first.len() == before.second.len(),
                i <= values.len(),
                i <= state.first_moment.len(),
                forall|j: int|
                    0 <= j < i ==> element_updated(
                        self.rates(),
                        first_correction,
                        second_correction,
                        gradient@[j],
                        old_values[j],
                        before.first[j],
                        before.second[j],
                        #[trigger] values@[j],
                        state@.first[j],
                        state@.second[j],
                    ),
                forall|j: int| i <= j < values.len() ==> #[trigger] values@[j] == old_values[j],
                forall|j: int|
                    i <= j < before.first.len() ==> (#[trigger] state@.first[j] == before.first[j])
                        && state@.second[j] == before.second[j],
            decreases values.len() - i,
        {
            let ghost held = values@;
            let ghost kept_before = state@;
            assert(kept_before.first[i as int] == before.first[i as int]);
            assert(held[i as int] == old_values[i as int]);
            let g = gradient[i];
            let value = values[i];
            let old_first = state.first_moment[i];
            let old_second = state.second_moment[i];
            let unit = T::of_count(1);
            let kept = self.beta1.times(old_first);
            let share = unit.minus(self.beta1);
            let taken = share.times(g);
            let first = kept.plus(taken);
            assert(product(self.beta1, old_first, kept) && one(unit) && difference(
                unit,
                self.beta1,
                share,
            ) && product(share, g, taken) && sum(kept, taken, first));
            assert(first_moved(self.rates().beta1, old_first, g, first));
            let kept = self.beta2.times(old_second);
            let share = unit.minus(self.beta2);
            let once = share.times(g);
            let taken = once.times(g);
            let second = kept.plus(taken);
            assert(product(self.beta2, old_second, kept) && one(unit) && difference(
                unit,
                self.beta2,
                share,
            ) && product(share, g, once) && product(once, g, taken) && sum(kept, taken, second));
            assert(second_moved(self.rates().beta2, old_second, g, second));
            let a = first.over(first_correction);
            let b = second.over(second_correction);
            let c = b.root();
            let d = c.plus(self.epsilon);
            let normalized = a.over(d);
            assert(quotient(first, first_correction, a) && quotient(second, second_correction, b)
                && rooted(b, c) && sum(c, self.epsilon, d) && quotient(a, d, normalized));
            assert(direction(
                first,
                second,
                first_correction,
                second_correction,
                self.rates().epsilon,
                normalized,
            ));
            let decay = self.weight_decay.times(value);
            let total = normalized.plus(decay);
            let change = self.learning_rate.times(total);
            let next = value.minus(change);
            assert(product(self.weight_decay, value, decay) && sum(normalized, decay, total)
                && product(self.learning_rate, total, change) && difference(value, change, next));
            assert(descended(
                value,
                normalized,
                self.rates().learning_rate,
                self.rates().weight_decay,
                next,
            ));
            assert(element_updated(
                self.rates(),
                first_correction,
                second_correction,
                g,
                value,
                old_first,
                old_second,
                next,
                first,
                second,
            ));
            values.set(i, next);
            state.first_moment.set(i, first);
            state.second_moment.set(i, second);
            proof {
                assert(state@.first == kept_before.first.update(i as int, first));
                assert(state@.second == kept_before.second.update(i as int, second));
                assert(values@ == held.update(i as int, next));
                assert forall|j: int| 0 <= j < i + 1 implies element_updated(
                    self.rates(),
                    first_correction,
                    second_correction,
                    gradient@[j],
                    old_values[j],
                    before.first[j],
                    before.second[j],
                    #[trigger] values@[j],
                    state@.first[j],
                    state@.second[j],
                ) by {
                    if j < i {
                        assert(values@[j] == held[j]);
                    }
                }
                assert forall|j: int| i + 1 <= j < before.first.len() implies (
                #[trigger] state@.first[j] == before.first[j]) && state@.second[j]
                    == before.second[j] by {
                    assert(kept_before.first[j] == before.first[j]);
                }
            }
            i = i + 1;
        }
        assert(correction(self.rates().beta1, step, first_correction));
        assert(correction(self.rates().beta2, step, second_correction));
    }
}

/// A parameter after an update, from before it: one without a gradient stays as it is; one
/// with a gradient gets a new tensor, and its moments move.
pub open spec fn parameter_updated<T: Scalar>(
    settings: AdamW<T>,
    graph: Graph<T>,
    slot: Slot,
    new_settings: AdamW<T>,
    new_graph: Graph<T>,
    new_slot: Slot,
) -> bool {
    match seen(graph.grads@)[slot.node as int] {
        None => {
            &&& new_graph == graph
            &&& new_settings.states@ == settings.states@
            &&& new_slot == slot
        },
        Some(gradient) => exists|
            values: Seq<T>,
            memory: Memory<T>,
            moments: Moments<T>,
            new_values: Seq<T>,
        | #[trigger]
            updated_with(
                settings,
                graph,
                slot,
                gradient,
                values,
                memory,
                moments,
                new_values,
                new_settings,
                new_graph,
                new_slot,
            ),
    }
}

/// An update by a gradient, from the values of the parameter's tensor and its moments.
pub open spec fn updated_with<T: Scalar>(
    settings: AdamW<T>,
    graph: Graph<T>,
    slot: Slot,
    gradient: Seq<T>,
    values: Seq<T>,
    memory: Memory<T>,
    moments: Moments<T>,
    new_values: Seq<T>,
    new_settings: AdamW<T>,
    new_graph: Graph<T>,
    new_slot: Slot,
) -> bool {
    &&& valued(graph.nodes@, None, graph.norms@, slot.node as int, values, memory)
    &&& settings.step <= i32::MAX
    &&& moments_for(settings.states@, slot.id, values.len(), moments)
    &&& new_settings.states@.contains_key(slot.id)
    &&& elements_updated(
        settings.rates(),
        settings.step as i32,
        gradient,
        values,
        moments,
        new_values,
        new_settings.states@[slot.id]@,
    )
    &&& only_at(settings.states@, new_settings.states@, slot.id)
    &&& new_graph.norms@ == memory
    &&& new_slot.id == slot.id
    &&& new_slot.form == slot.form
    &&& owned_by(new_graph, new_slot)
    &&& new_graph.nodes@[new_slot.node as int].op matches Op::Data(data) && data@ == new_values
    &&& new_slot.node >= graph.nodes@.len()
    &&& new_graph.next_parameter == graph.next_parameter
    &&& new_graph.wf()
    &&& keeps_nodes(graph, new_graph)
}

/// `moments` are those that were kept for a parameter, or zeros where none were; the
/// optimizers differ at most in what is kept for it.
pub open spec fn moments_kept<T: Scalar>(
    settings: AdamW<T>,
    slot: Slot,
    values: Seq<T>,
    moments: Moments<T>,
    new_settings: AdamW<T>,
) -> bool {
    &&& moments_for(settings.states@, slot.id, values.len(), moments)
    &&& only_at(settings.states@, new_settings.states@, slot.id)
    &&& new_settings.states@.contains_key(slot.id)
}

/// A parameter cannot be updated: its tensor cannot be evaluated, the counter of steps has
/// run out, or its shape does not count its elements.  Besides what the evaluation leaves
/// in the memory of batch normalizations, only the parameter's moments may have changed.
pub open spec fn update_fails<T: Scalar>(
    settings: AdamW<T>,
    graph: Graph<T>,
    slot: Slot,
    failure: Failure,
    new_settings: AdamW<T>,
    new_graph: Graph<T>,
) -> bool {
    &&& seen(graph.grads@)[slot.node as int] is Some
    &&& new_graph.nodes == graph.nodes
    &&& new_graph.grads == graph.grads
    &&& new_graph.next_parameter == graph.next_parameter
    &&& new_settings.same_settings(settings)
    &&& {
        ||| slot.form.device is Cuda && failure == Failure::CudaUnavailable && new_graph == graph
            && new_settings == settings
        ||| slot.form.device is Cpu && new_settings == settings && fails(
            graph.nodes@,
            None,
            graph.norms@,
            slot.node as int,
            failure,
            new_graph.norms@,
        )
        ||| slot.form.device is Cpu && settings.step > i32::MAX && failure == Failure::Execution(
            "AdamW step counter exceeded i32"@,
        ) && exists|values: Seq<T>, moments: Moments<T>|
            {
                &&& #[trigger] valued(
                    graph.nodes@,
                    None,
                    graph.norms@,
                    slot.node as int,
                    values,
                    new_graph.norms@,
                )
                &&& #[trigger] moments_kept(settings, slot, values, moments, new_settings)
                &&& new_settings.states@[slot.id]@ == moments
            }
        ||| slot.form.device is Cpu && settings.step <= i32::MAX && crate::shape::validated_numel(
            numel(slot.form.shape),
            slot.form.shape,
        ) == std::result::Result::<(), Failure>::Err(failure) && exists|
            values: Seq<T>,
            moments: Moments<T>,
            new_values: Seq<T>,
        |
            {
                &&& #[trigger] valued(
                    graph.nodes@,
                    None,
                    graph.norms@,
                    slot.node as int,
                    values,
                    new_graph.norms@,
                )
                &&& moments_kept(settings, slot, values, moments, new_settings)
                &&& #[trigger] elements_updated(
                    settings.rates(),
                    settings.step as i32,
                    seen(graph.grads@)[slot.node as int]->Some_0,
                    values,
                    moments,
                    new_values,
                    new_settings.states@[slot.id]@,
                )
            }
    }
}

/// The graph keeps the nodes and the gradients of `before`; what it has besides is
/// without a gradient.
pub open spec fn keeps_nodes<T>(before: Graph<T>, after: Graph<T>) -> bool {
    &&& before.nodes@.len() <= after.nodes@.len()
    &&& forall|i: int|
        0 <= i < before.nodes@.len() ==> #[trigger] after.nodes@[i] == before.nodes@[i]
    &&& forall|i: int|
        0 <= i < before.grads@.len() ==> #[trigger] after.grads@[i] == before.grads@[i]
    &&& after.ungraded_from(before)
}

impl<T: Scalar> AdamW<T> {
    /// Updates one parameter from its gradient.
    pub fn update_parameter(&mut self, graph: &mut Graph<T>, parameter: &mut Parameter) -> (r:
        Result<()>)
        requires
            old(self).wf(),
            old(graph).wf(),
            owned_by(*old(graph), old(parameter)@),
            fits(old(graph).nodes@, old(parameter).value.id as int),
        ensures
            final(self).wf(),
            final(self).same_settings(*old(self)),
            final(graph).wf(),
            keeps_nodes(*old(graph), *final(graph)),
            owned_by(*final(graph), final(parameter)@),
            fits(final(graph).nodes@, final(parameter).value.id as int),
            final(parameter).id == old(parameter).id,
            match r {
                Ok(_) => parameter_updated(
                    *old(self),
                    *old(graph),
                    old(parameter)@,
                    *final(self),
                    *final(graph),
                    final(parameter)@,
                ),
                Err(error) => final(parameter)@ == old(parameter)@ && update_fails(
                    *old(self),
                    *old(graph),
                    old(parameter)@,
                    error@,
                    *final(self),
                    *final(graph),
                ),
            },
    {
        let gradient = match parameter.value.grad(graph) {
            Some(gradient) => gradient,
            None => {
                return Ok(());
            },
        };
        let mut data = match parameter.value.to_vec(graph) {
            Ok(data) => data,
            Err(error) => {
                return Err(error);
            },
        };
        let ghost values = data@;
        let ghost memory = graph.norms@;
        let ghost middle = *graph;
        let id: u64 = parameter.id;
        let ghost states = self.states@;
        let mut state = match self.states.remove(&id) {
            Some(state) => state,
            None => State {
                first_moment: crate::reverse::zeros(data.len()),
                second_moment: crate::reverse::zeros(data.len()),
            },
        };
        let ghost moments = state@;
        assert(moments_for(states, id, values.len(), moments));
        if self.step > 0x7fff_ffff {
            self.states.insert(id, state);
            proof {
                assert(self.states@.dom() =~= states.dom().insert(id));
                assert(only_at(states, self.states@, id));
                assert(valued(
                    old(graph).nodes@,
                    None,
                    old(graph).norms@,
                    old(parameter).value.id as int,
                    values,
                    graph.norms@,
                ));
                assert(moments_kept(*old(self), old(parameter)@, values, moments, *self));
            }
            return Err(Error::execution("AdamW step counter exceeded i32"));
        }
        let step: i32 = self.step as i32;
        self.update_elements(step, &gradient, &mut data, &mut state);
        let ghost new_values = data@;
        let ghost after = state@;
        self.states.insert(id, state);
        proof {
            assert(self.same_settings(*old(self)));
            assert(self.states@.dom() =~= states.dom().insert(id));
            assert(only_at(states, self.states@, id));
        }
        proof {
            let held = seen(old(graph).grads@)[old(parameter)@.node as int];
            assert(held is Some && held->Some_0 =~= gradient@);
            assert(valued(
                old(graph).nodes@,
                None,
                old(graph).norms@,
                old(parameter).value.id as int,
                values,
                graph.norms@,
            ));
            assert(moments_kept(*old(self), old(parameter)@, values, moments, *self));
            assert(elements_updated(
                old(self).rates(),
                old(self).step as i32,
                gradient@,
                values,
                moments,
                new_values,
                self.states@[id]@,
            ));
        }
        match parameter.replace_data(graph, data) {
            Ok(_) => {},
            Err(error) => {
                return Err(error);
            },
        }
        proof {
            assert forall|i: int| 0 <= i < old(graph).nodes@.len() implies #[trigger]
                graph.nodes@[i] == old(graph).nodes@[i] by {
                assert(graph.nodes@[i] == middle.nodes@[i]);
            }
            assert(valued(
                old(graph).nodes@,
                None,
                old(graph).norms@,
                old(parameter).value.id as int,
                values,
                memory,
            ));
            let held = seen(old(graph).grads@)[old(parameter)@.node as int];
            assert(held is Some && held->Some_0 =~= gradient@);
            let fresh = parameter.value.id as int;
            assert(reaches(old(graph).nodes@, old(parameter).value.id as int, old(
                parameter,
            ).value.id as int));
            assert forall|i: int| #[trigger] reaches(graph.nodes@, fresh, i) implies fits_alone(
                graph.nodes@,
                i,
            ) by {
                assert(operands(graph.nodes@[fresh].op).len() == 0);
                assert(i == fresh);
            }
            assert(updated_with(
                *old(self),
                *old(graph),
                old(parameter)@,
                gradient@,
                values,
                memory,
                moments,
                new_values,
                *self,
                *graph,
                parameter@,
            ));
        }
        Ok(())
    }
}

/// An optimizer of the parameters of layers.
pub trait Optimizer<T>: Sized {
    /// The optimizer's own state is in order.
    spec fn ready(&self) -> bool;

    /// What a step over all parameters does, where it succeeds.
    spec fn steps(
        before: Self,
        graph: Graph<T>,
        parameters: Seq<Slot>,
        after: Self,
        new_graph: Graph<T>,
        new_parameters: Seq<Slot>,
    ) -> bool;

    /// Why a step can fail, and what it leaves then.
    spec fn step_fails(
        before: Self,
        graph: Graph<T>,
        parameters: Seq<Slot>,
        failure: Failure,
        after: Self,
        new_graph: Graph<T>,
        new_parameters: Seq<Slot>,
    ) -> bool;

    /// Clears the gradients of a layer's parameters.
    fn zero_grad<M: Trainable>(&self, graph: &mut Graph<T>, model: &M)
        requires
            old(graph).wf(),
            all_owned(*old(graph), model.parameters()),
        ensures
            final(graph).wf(),
            final(graph).nodes == old(graph).nodes,
            final(graph).norms == old(graph).norms,
            final(graph).next_parameter == old(graph).next_parameter,
            forall|i: int|
                0 <= i < old(graph).grads@.len() ==> #[trigger] final(graph).grads@[i] == (
                if listed(model.parameters(), i) {
                    None
                } else {
                    old(graph).grads@[i]
                }),
    ;

    /// Updates a layer's parameters from their gradients.
    fn step<M: Trainable>(&mut self, graph: &mut Graph<T>, model: &mut M) -> (r: Result<()>)
        requires
            old(self).ready(),
            old(graph).wf(),
            all_owned(*old(graph), old(model).parameters()),
            old(model).parameters().len() <= usize::MAX,
        ensures
            final(self).ready(),
            final(graph).wf(),
            keeps_nodes(*old(graph), *final(graph)),
            all_owned(*final(graph), final(model).parameters()),
            *final(model) == *old(model) || final(model).resembles(old(model)),
            final(model).parameters().len() == old(model).parameters().len(),
            match r {
                Ok(_) => Self::steps(
                    *old(self),
                    *old(graph),
                    old(model).parameters(),
                    *final(self),
                    *final(graph),
                    final(model).parameters(),
                ),
                Err(error) => Self::step_fails(
                    *old(self),
                    *old(graph),
                    old(model).parameters(),
                    error@,
                    *final(self),
                    *final(graph),
                    final(model).parameters(),
                ),
            },
    ;
}

/// A parameter's tensor stands at the node.
pub open spec fn listed(parameters: Seq<Slot>, node: int) -> bool {
    exists|k: int| 0 <= k < parameters.len() && (#[trigger] parameters[k]).node == node
}

/// Updating the first `n` parameters one after the other leads from the first optimizer
/// and graph to the second, and gives the new parameters.
pub open spec fn updates<T: Scalar>(
    optimizer: AdamW<T>,
    graph: Graph<T>,
    parameters: Seq<Slot>,
    new_optimizer: AdamW<T>,
    new_graph: Graph<T>,
    new_parameters: Seq<Slot>,
    n: nat,
) -> bool
    decreases n,
{
    if n == 0 {
        new_optimizer == optimizer && new_graph == graph
    } else {
        exists|middle: AdamW<T>, between: Graph<T>|
            {
                &&& updates(
                    optimizer,
                    graph,
                    parameters,
                    middle,
                    between,
                    new_parameters,
                    (n - 1) as nat,
                )
                &&& #[trigger] parameter_updated(
                    middle,
                    between,
                    parameters[n - 1],
                    new_optimizer,
                    new_graph,
                    new_parameters[n - 1],
                )
                &&& new_optimizer.same_settings(middle)
            }
    }
}

proof fn lemma_updates_prefix<T: Scalar>(
    optimizer: AdamW<T>,
    graph: Graph<T>,
    parameters: Seq<Slot>,
    new_optimizer: AdamW<T>,
    new_graph: Graph<T>,
    a: Seq<Slot>,
    b: Seq<Slot>,
    n: nat,
)
    requires
        updates(optimizer, graph, parameters, new_optimizer, new_graph, a, n),
        forall|i: int| 0 <= i < n ==> a[i] == b[i],
    ensures
        updates(optimizer, graph, parameters, new_optimizer, new_graph, b, n),
    decreases n,
{
    if n > 0 {
        let (middle, between) = choose|middle: AdamW<T>, between: Graph<T>|
            {
                &&& updates(
                    optimizer,
                    graph,
                    parameters,
                    middle,
                    between,
                    a,
                    (n - 1) as nat,
                )
                &&& #[trigger] parameter_updated(
                    middle,
                    between,
                    parameters[n - 1],
                    new_optimizer,
                    new_graph,
                    a[n - 1],
                )
                &&& new_optimizer.same_settings(middle)
            };
        lemma_updates_prefix(
            optimizer,
            graph,
            parameters,
            middle,
            between,
            a,
            b,
            (n - 1) as nat,
        );
        assert(parameter_updated(
            middle,
            between,
            parameters[n - 1],
            new_optimizer,
            new_graph,
            b[n - 1],
        ));
    }
}

/// Parameters stay in a graph that keeps its nodes.
proof fn lemma_all_owned<T>(before: Graph<T>, after: Graph<T>, parameters: Seq<Slot>)
    requires
        all_owned(before, parameters),
        keeps_nodes(before, after),
    ensures
        all_owned(after, parameters),
{
    assert forall|i: int| 0 <= i < parameters.len() implies owned_by(
        after,
        #[trigger] parameters[i],
    ) && fits(after.nodes@, parameters[i].node as int) by {
        assert(after.nodes@[parameters[i].node as int]
            == before.nodes@[parameters[i].node as int]);
        lemma_fits_prefix(before.nodes@, after.nodes@, parameters[i].node as int);
    }
}

/// An optimizer with its step counted.
pub open spec fn counted_step<T>(before: AdamW<T>, after: AdamW<T>) -> bool {
    &&& after.learning_rate == before.learning_rate
    &&& after.weight_decay == before.weight_decay
    &&& after.beta1 == before.beta1
    &&& after.beta2 == before.beta2
    &&& after.epsilon == before.epsilon
    &&& after.states == before.states
    &&& after.step == before.step + 1
}

impl<T: Scalar> Optimizer<T> for AdamW<T> {
    open spec fn ready(&self) -> bool {
        self.wf()
    }

    open spec fn steps(
        before: Self,
        graph: Graph<T>,
        parameters: Seq<Slot>,
        after: Self,
        new_graph: Graph<T>,
        new_parameters: Seq<Slot>,
    ) -> bool {
        exists|started: AdamW<T>|
            {
                &&& #[trigger] counted_step(before, started)
                &&& updates(
                    started,
                    graph,
                    parameters,
                    after,
                    new_graph,
                    new_parameters,
                    parameters.len(),
                )
            }
    }

    open spec fn step_fails(
        before: Self,
        graph: Graph<T>,
        parameters: Seq<Slot>,
        failure: Failure,
        after: Self,
        new_graph: Graph<T>,
        new_parameters: Seq<Slot>,
    ) -> bool {
        if before.step == u32::MAX {
            &&& failure == Failure::Execution("AdamW step counter overflow"@)
            &&& after == before
            &&& new_graph == graph
            &&& new_parameters == parameters
        } else {
            exists|started: AdamW<T>, middle: AdamW<T>, between: Graph<T>, n: nat|
                {
                    &&& #[trigger] counted_step(before, started)
                    &&& n < parameters.len()
                    &&& #[trigger] updates(
                        started,
                        graph,
                        parameters,
                        middle,
                        between,
                        new_parameters,
                        n,
                    )
                    &&& update_fails(
                        middle,
                        between,
                        parameters[n as int],
                        failure,
                        after,
                        new_graph,
                    )
                    &&& forall|i: int|
                        n <= i < parameters.len() ==> #[trigger] new_parameters[i] == parameters[i]
                }
        }
    }

    fn zero_grad<M: Trainable>(&self, graph: &mut Graph<T>, model: &M) {
        let parameters = model.visit_parameters();
        let ghost all = model.parameters();
        let ghost before = graph.grads@;
        let mut i: usize = 0;
        while i < parameters.len()
            invariant
                graph.wf(),
                graph.nodes == old(graph).nodes,
                graph.norms == old(graph).norms,
                graph.next_parameter == old(graph).next_parameter,
                before == old(graph).grads@,
                graph.grads@.len() == before.len(),
                all == slots(parameters@),
                all_owned(*old(graph), all),
                i <= parameters.len(),
                forall|j: int|
                    0 <= j < before.len() ==> #[trigger] graph.grads@[j] == (if listed(
                        all.take(i as int),
                        j,
                    ) {
                        None
                    } else {
                        before[j]
                    }),
            decreases parameters.len() - i,
        {
            let ghost held = graph.grads@;
            assert(owned_by(*old(graph), all[i as int]));
            assert(all[i as int] == parameters@[i as int]@);
            parameters[i].value.zero_grad(graph);
            proof {
                let node = all[i as int].node as int;
                assert forall|j: int| 0 <= j < before.len() implies #[trigger] graph.grads@[j] == (
                if listed(all.take(i + 1), j) {
                    None
                } else {
                    before[j]
                }) by {
                    if j == node {
                        assert(all.take(i + 1)[i as int].node == j);
                        assert(listed(all.take(i + 1), j));
                    } else {
                        if listed(all.take(i + 1), j) {
                            let k = choose|k: int|
                                0 <= k < all.take(i + 1).len() && (#[trigger] all.take(
                                    i + 1,
                                )[k]).node == j;
                            assert(k < i);
                            assert(all.take(i as int)[k].node == j);
                        }
                        if listed(all.take(i as int), j) {
                            let k = choose|k: int|
                                0 <= k < all.take(i as int).len() && (#[trigger] all.take(
                                    i as int,
                                )[k]).node == j;
                            assert(all.take(i + 1)[k].node == j);
                        }
                    }
                }
            }
            i = i + 1;
        }
        assert(all.take(i as int) =~= all);
    }

    fn step<M: Trainable>(&mut self, graph: &mut Graph<T>, model: &mut M) -> (r: Result<()>) {
        if self.step == u32::MAX {
            return Err(Error::execution("AdamW step counter overflow"));
        }
        let ghost first = *self;
        self.step = self.step + 1;
        let ghost started = *self;
        let ghost start = *graph;
        let ghost all = model.parameters();
        let mut parameters = model.visit_parameters();
        let mut failed: Option<Error> = None;
        let mut i: usize = 0;
        let ghost mut done = all;
        while i < parameters.len() && failed.is_none()
            invariant
                self.wf(),
                start == *old(graph),
                start.wf(),
                first == *old(self),
                first.step < u32::MAX,
                counted_step(first, started),
                graph.wf(),
                keeps_nodes(start, *graph),
                all_owned(start, all),
                i <= parameters.len(),
                parameters.len() == all.len(),
                done.len() == all.len(),
                slots(parameters@) == done,
                all_owned(*graph, done),
                forall|j: int| i <= j < all.len() ==> done[j] == all[j],
                failed is None ==> updates(started, start, all, *self, *graph, done, i as nat),
                failed matches Some(error) ==> <AdamW<T> as Optimizer<T>>::step_fails(
                    first,
                    start,
                    all,
                    error@,
                    *self,
                    *graph,
                    done,
                ),
            decreases parameters.len() - i + (if failed is None {
                1int
            } else {
                0int
            }),
        {
            let ghost before = *self;
            let ghost between = *graph;
            let ghost listed_before = parameters@;
            proof {
                lemma_all_owned(start, *graph, all);
                assert(owned_by(*graph, all[i as int]));
                assert(done[i as int] == all[i as int]);
                assert(slots(parameters@)[i as int] == parameters@[i as int]@);
            }
            let mut parameter = parameters[i].copy();
            let outcome = self.update_parameter(graph, &mut parameter);
            let ghost changed = parameter@;
            parameters.set(i, parameter);
            proof {
                let now = slots(parameters@);
                assert(now =~= done.update(i as int, changed));
                lemma_all_owned(between, *graph, done);
                assert(all_owned(*graph, now)) by {
                    assert forall|j: int| 0 <= j < now.len() implies owned_by(
                        *graph,
                        #[trigger] now[j],
                    ) && fits(graph.nodes@, now[j].node as int) by {
                        if j != i {
                            assert(now[j] == done[j]);
                        }
                    }
                }
                assert(keeps_nodes(start, *graph)) by {
                    assert forall|j: int| 0 <= j < start.nodes@.len() implies #[trigger]
                        graph.nodes@[j] == start.nodes@[j] by {
                        assert(between.nodes@[j] == start.nodes@[j]);
                    }
                    assert forall|j: int| 0 <= j < start.grads@.len() implies #[trigger]
                        graph.grads@[j] == start.grads@[j] by {
                        assert(between.grads@[j] == start.grads@[j]);
                    }
                    assert forall|j: int|
                        start.nodes@.len() <= j < graph.nodes@.len() implies #[trigger]
                    graph.grads@[j] is None by {
                        if j < between.nodes@.len() {
                            assert(graph.grads@[j] == between.grads@[j]);
                        }
                    }
                }
                lemma_updates_prefix(
                    started,
                    start,
                    all,
                    before,
                    between,
                    done,
                    now,
                    i as nat,
                );
                done = now;
            }
            match outcome {
                Ok(_) => {
                    proof {
                        assert(parameter_updated(
                            before,
                            between,
                            all[i + 1 - 1],
                            *self,
                            *graph,
                            done[i + 1 - 1],
                        ));
                    }
                    i = i + 1;
                },
                Err(error) => {
                    proof {
                        assert(counted_step(first, started));
                        assert(updates(started, start, all, before, between, done, i as nat));
                        assert(update_fails(
                            before,
                            between,
                            all[i as nat as int],
                            error@,
                            *self,
                            *graph,
                        ));
                        assert(changed == all[i as int]);
                    }
                    failed = Some(error);
                },
            }
        }
        model.visit_parameters_mut(&parameters, 0);
        proof {
            assert(slots(parameters@).subrange(0, all.len() as int) =~= done);
        }
        match failed {
            None => Ok(()),
            Some(error) => Err(error),
        }
    }
}

/// After parameters were updated, none of them has a gradient.
proof fn lemma_updates_spend<T: Scalar>(
    optimizer: AdamW<T>,
    graph: Graph<T>,
    parameters: Seq<Slot>,
    new_optimizer: AdamW<T>,
    new_graph: Graph<T>,
    new_parameters: Seq<Slot>,
    n: nat,
)
    requires
        graph.wf(),
        all_owned(graph, parameters),
        n <= parameters.len(),
        updates(optimizer, graph, parameters, new_optimizer, new_graph, new_parameters, n),
    ensures
        new_graph.wf(),
        keeps_nodes(graph, new_graph),
        forall|i: int|
            0 <= i < n ==> (#[trigger] new_parameters[i]).node < new_graph.nodes@.len()
                && new_graph.grads@[new_parameters[i].node as int] is None,
    decreases n,
{
    if n > 0 {
        let (middle, between) = choose|middle: AdamW<T>, between: Graph<T>|
            {
                &&& updates(
                    optimizer,
                    graph,
                    parameters,
                    middle,
                    between,
                    new_parameters,
                    (n - 1) as nat,
                )
                &&& #[trigger] parameter_updated(
                    middle,
                    between,
                    parameters[n - 1],
                    new_optimizer,
                    new_graph,
                    new_parameters[n - 1],
                )
                &&& new_optimizer.same_settings(middle)
            };
        lemma_updates_spend(
            optimizer,
            graph,
            parameters,
            middle,
            between,
            new_parameters,
            (n - 1) as nat,
        );
        assert(owned_by(graph, parameters[n - 1]));
        assert(new_graph.wf() && keeps_nodes(between, new_graph));
        assert forall|j: int| 0 <= j < graph.nodes@.len() implies #[trigger] new_graph.nodes@[j]
            == graph.nodes@[j] by {
            assert(between.nodes@[j] == graph.nodes@[j]);
        }
        assert forall|j: int| 0 <= j < graph.grads@.len() implies #[trigger] new_graph.grads@[j]
            == graph.grads@[j] by {
            assert(between.grads@[j] == graph.grads@[j]);
        }
        assert forall|j: int| graph.nodes@.len() <= j < new_graph.nodes@.len() implies #[trigger]
        new_graph.grads@[j] is None by {
            if j < between.nodes@.len() {
                assert(new_graph.grads@[j] == between.grads@[j]);
            }
        }
        assert forall|i: int| 0 <= i < n implies (#[trigger] new_parameters[i]).node
            < new_graph.nodes@.len() && new_graph.grads@[new_parameters[i].node as int] is None by {
            if i < n - 1 {
                assert(new_graph.grads@[new_parameters[i].node as int]
                    == between.grads@[new_parameters[i].node as int]);
            } else if seen(between.grads@)[parameters[n - 1].node as int] is None {
                assert(new_parameters[i] == parameters[n - 1]);
                assert(new_graph == between);
            } else {
                assert(new_graph.grads@[new_parameters[i].node as int] is None);
            }
        }
    }
}

/// Updating parameters that have no gradient changes nothing.
proof fn lemma_updates_idle<T: Scalar>(
    optimizer: AdamW<T>,
    graph: Graph<T>,
    parameters: Seq<Slot>,
    new_optimizer: AdamW<T>,
    new_graph: Graph<T>,
    new_parameters: Seq<Slot>,
    n: nat,
)
    requires
        graph.wf(),
        n <= parameters.len(),
        forall|i: int|
            0 <= i < parameters.len() ==> (#[trigger] parameters[i]).node < graph.nodes@.len()
                && graph.grads@[parameters[i].node as int] is None,
        updates(optimizer, graph, parameters, new_optimizer, new_graph, new_parameters, n),
    ensures
        new_graph == graph,
        new_optimizer.states@ == optimizer.states@,
        forall|i: int| 0 <= i < n ==> #[trigger] new_parameters[i] == parameters[i],
    decreases n,
{
    if n > 0 {
        let (middle, between) = choose|middle: AdamW<T>, between: Graph<T>|
            {
                &&& updates(
                    optimizer,
                    graph,
                    parameters,
                    middle,
                    between,
                    new_parameters,
                    (n - 1) as nat,
                )
                &&& #[trigger] parameter_updated(
                    middle,
                    between,
                    parameters[n - 1],
                    new_optimizer,
                    new_graph,
                    new_parameters[n - 1],
                )
                &&& new_optimizer.same_settings(middle)
            };
        lemma_updates_idle(
            optimizer,
            graph,
            parameters,
            middle,
            between,
            new_parameters,
            (n - 1) as nat,
        );
        assert(parameters[n - 1].node < graph.nodes@.len());
        assert(seen(between.grads@)[parameters[n - 1].node as int] is None);
    }
}

/// A step spends the gradients: no parameter has one afterwards, and a second step changes
/// neither the graph, nor the parameters, nor their moments.
pub proof fn steps_spend_gradients<T: Scalar>(
    before: AdamW<T>,
    graph: Graph<T>,
    parameters: Seq<Slot>,
    after: AdamW<T>,
    new_graph: Graph<T>,
    new_parameters: Seq<Slot>,
    last: AdamW<T>,
    last_graph: Graph<T>,
    last_parameters: Seq<Slot>,
)
    requires
        graph.wf(),
        all_owned(graph, parameters),
        new_parameters.len() == parameters.len(),
        last_parameters.len() == parameters.len(),
        <AdamW<T> as Optimizer<T>>::steps(
            before,
            graph,
            parameters,
            after,
            new_graph,
            new_parameters,
        ),
        <AdamW<T> as Optimizer<T>>::steps(
            after,
            new_graph,
            new_parameters,
            last,
            last_graph,
            last_parameters,
        ),
    ensures
        forall|i: int|
            0 <= i < parameters.len() ==> new_graph.grads@[(
            #[trigger] new_parameters[i]).node as int] is None,
        last_graph == new_graph,
        last_parameters == new_parameters,
        last.states@ == after.states@,
{
    let first = choose|started: AdamW<T>|
        {
            &&& #[trigger] counted_step(before, started)
            &&& updates(
                started,
                graph,
                parameters,
                after,
                new_graph,
                new_parameters,
                parameters.len(),
            )
        };
    lemma_updates_spend(
        first,
        graph,
        parameters,
        after,
        new_graph,
        new_parameters,
        parameters.len(),
    );
    let second = choose|started: AdamW<T>|
        {
            &&& #[trigger] counted_step(after, started)
            &&& updates(
                started,
                new_graph,
                new_parameters,
                last,
                last_graph,
                last_parameters,
                new_parameters.len(),
            )
        };
    lemma_updates_idle(
        second,
        new_graph,
        new_parameters,
        last,
        last_graph,
        last_parameters,
        new_parameters.len(),
    );
    assert(last_parameters =~= new_parameters);
}

} // verus!

//! What is asked of a device: values, gradients, and steps of an optimizer.

use crate::copy::lemma_copies_alike;
use crate::cuda::command::Command;
use crate::cuda::executor::{
    all_evaluated, elements, evaluated, launchable, passes, Executor, Ledger, Moment, Passed,
};
use crate::cuda::launch::{grid_of, launch_config};
use crate::cuda::propagate::propagated;
use crate::error::{Error, Failure, Result};
use crate::graph::{
    fits, lemma_reaches_below, lemma_reaches_operand, lemma_reaches_transitive, operand_list,
    operands, ordered, reaches, shaped, Device, Graph, Memory, Node, Op,
};
use crate::nn::Parameter;
use crate::norm::{BatchNormState, State};
use crate::optim::Rates;
use crate::scalar::{all_zero, copied, Scalar};
use crate::shape::{count, counted_numel};
use crate::tensor::{lemma_extends, Tensor};
use std::collections::HashSet;
use vstd::prelude::*;

verus! {

broadcast use vstd::std_specs::hash::group_hash_axioms;

/// The nodes that a node is computed from, and itself, behind those that stand in
/// `order` already; each behind its operands.
pub open spec fn visited<T>(nodes: Seq<Node<T>>, order: Seq<usize>, i: int) -> Seq<usize>
    decreases i, 4nat,
{
    if order.contains(i as usize) {
        order
    } else {
        operands_visited(nodes, order, i, operands(nodes[i].op).len()).push(i as usize)
    }
}

/// The same for the first `k` operands of a node.
pub open spec fn operands_visited<T>(
    nodes: Seq<Node<T>>,
    order: Seq<usize>,
    i: int,
    k: nat,
) -> Seq<usize>
    decreases i, k,
{
    if k == 0 {
        order
    } else {
        let before = operands_visited(nodes, order, i, (k - 1) as nat);
        let operand = operands(nodes[i].op)[k - 1];
        if operand < i {
            visited(nodes, before, operand as int)
        } else {
            arbitrary()
        }
    }
}

/// Every node of a list stands behind its operands, and once.
pub open spec fn topological<T>(nodes: Seq<Node<T>>, order: Seq<usize>) -> bool {
    &&& order.no_duplicates()
    &&& forall|p: int|
        0 <= p < order.len() ==> (#[trigger] order[p]) < nodes.len() && behind(nodes, order, p)
}

/// The node at a place stands behind its operands.
pub open spec fn behind<T>(nodes: Seq<Node<T>>, order: Seq<usize>, p: int) -> bool {
    forall|k: int|
        0 <= k < operands(nodes[order[p] as int].op).len() ==> order.take(p).contains(
            #[trigger] operands(nodes[order[p] as int].op)[k],
        )
}

/// What visiting a node keeps and adds.
pub open spec fn visits<T>(nodes: Seq<Node<T>>, before: Seq<usize>, after: Seq<usize>, i: int) -> bool {
    &&& topological(nodes, after)
    &&& before.len() <= after.len()
    &&& after.take(before.len() as int) == before
    &&& forall|p: int|
        before.len() <= p < after.len() ==> reaches(nodes, i, (#[trigger] after[p]) as int)
}

proof fn lemma_visited<T>(graph: Graph<T>, order: Seq<usize>, i: usize)
    requires
        graph.wf(),
        i < graph.nodes@.len(),
        topological(graph.nodes@, order),
    ensures
        visits(graph.nodes@, order, visited(graph.nodes@, order, i as int), i as int),
        visited(graph.nodes@, order, i as int).contains(i),
    decreases i, 4nat,
{
    let nodes = graph.nodes@;
    assert(order.take(order.len() as int) =~= order);
    if !order.contains(i) {
        let n = operands(nodes[i as int].op).len();
        lemma_operands_visited(graph, order, i, n);
        let before = operands_visited(nodes, order, i as int, n);
        let after = before.push(i);
        assert(after == visited(nodes, order, i as int));
        assert(after.take(order.len() as int) =~= before.take(order.len() as int));
        if before.contains(i) {
            let p = choose|p: int| 0 <= p < before.len() && before[p] == i;
            if p < order.len() {
                assert(before.take(order.len() as int)[p] == i);
                assert(order[p] == i);
            }
            assert(false);
        }
        assert forall|p: int| 0 <= p < after.len() implies (#[trigger] after[p]) < nodes.len()
            && behind(nodes, after, p) by {
            if p < before.len() {
                assert(after[p] == before[p]);
                assert(after.take(p) =~= before.take(p));
                assert(behind(nodes, before, p));
            } else {
                assert(after.take(p) =~= before);
            }
        }
        assert(reaches(nodes, i as int, i as int));
        assert(after[after.len() - 1] == i);
        assert forall|p: int| order.len() <= p < after.len() implies reaches(
            nodes,
            i as int,
            (#[trigger] after[p]) as int,
        ) by {
            if p < before.len() {
                assert(after[p] == before[p]);
            }
        }
    }
}

proof fn lemma_operands_visited<T>(graph: Graph<T>, order: Seq<usize>, i: usize, k: nat)
    requires
        graph.wf(),
        i < graph.nodes@.len(),
        k <= operands(graph.nodes@[i as int].op).len(),
        topological(graph.nodes@, order),
    ensures
        ({
            let after = operands_visited(graph.nodes@, order, i as int, k);
            &&& visits(graph.nodes@, order, after, i as int)
            &&& forall|p: int| order.len() <= p < after.len() ==> (#[trigger] after[p]) < i
            &&& forall|j: int|
                0 <= j < k ==> after.contains(#[trigger] operands(graph.nodes@[i as int].op)[j])
        }),
    decreases i, k,
{
    let nodes = graph.nodes@;
    assert(order.take(order.len() as int) =~= order);
    if k > 0 {
        let ops = operands(nodes[i as int].op);
        let before = operands_visited(nodes, order, i as int, (k - 1) as nat);
        lemma_operands_visited(graph, order, i, (k - 1) as nat);
        assert(ordered(nodes, i as int));
        let operand = ops[k - 1];
        assert(operand < i);
        lemma_visited(graph, before, operand);
        let after = visited(nodes, before, operand as int);
        assert(after.take(order.len() as int) =~= after.take(before.len() as int).take(
            order.len() as int,
        ));
        assert forall|p: int| order.len() <= p < after.len() implies (#[trigger] after[p]) < i
            && reaches(nodes, i as int, after[p] as int) by {
            if p < before.len() {
                assert(after.take(before.len() as int)[p] == before[p]);
            } else {
                lemma_reaches_below(nodes, operand as int, after[p] as int);
                lemma_reaches_operand(nodes, i as int, k - 1, after[p] as int);
            }
        }
        assert forall|j: int| 0 <= j < k implies after.contains(#[trigger] ops[j]) by {
            if j < k - 1 {
                let p = choose|p: int| 0 <= p < before.len() && before[p] == ops[j];
                assert(before.contains(ops[j]));
                assert(after.take(before.len() as int)[p] == before[p]);
                assert(after[p] == ops[j]);
            }
        }
    }
}

proof fn lemma_order_closed<T>(nodes: Seq<Node<T>>, order: Seq<usize>, i: int, j: int)
    requires
        topological(nodes, order),
        0 <= i <= usize::MAX,
        order.contains(i as usize),
        reaches(nodes, i, j),
    ensures
        order.contains(j as usize),
    decreases i,
{
    if i != j {
        let k = choose|k: int|
            {
                let operand = #[trigger] operands(nodes[i].op)[k];
                &&& 0 <= k < operands(nodes[i].op).len()
                &&& 0 <= operand < i
                &&& reaches(nodes, operand as int, j)
            };
        let p = choose|p: int| 0 <= p < order.len() && order[p] == i as usize;
        assert(behind(nodes, order, p));
        let operand = operands(nodes[i].op)[k];
        assert(order.take(p).contains(operand));
        let q = choose|q: int| 0 <= q < p && order.take(p)[q] == operand;
        assert(order[q] == operand);
        lemma_order_closed(nodes, order, operand as int, j);
    }
}

/// The order in which gradients are carried, from its end, holds exactly the nodes that
/// the node is computed from, each once and each behind its operands, the node itself
/// last.
pub proof fn order_is_topological<T>(graph: Graph<T>, i: usize)
    requires
        graph.wf(),
        i < graph.nodes@.len(),
    ensures
        ({
            let order = visited(graph.nodes@, seq![], i as int);
            &&& topological(graph.nodes@, order)
            &&& order.len() > 0
            &&& order.last() == i
            &&& forall|j: usize|
                #![trigger order.contains(j)]
                order.contains(j) <==> reaches(graph.nodes@, i as int, j as int)
        }),
{
    let nodes = graph.nodes@;
    let order = visited(nodes, seq![], i as int);
    lemma_visited(graph, seq![], i);
    assert forall|j: usize|
        #![trigger order.contains(j)]
        order.contains(j) == reaches(nodes, i as int, j as int) by {
        if order.contains(j) {
            let p = choose|p: int| 0 <= p < order.len() && order[p] == j;
            assert(reaches(nodes, i as int, order[p] as int));
        }
        if reaches(nodes, i as int, j as int) {
            lemma_order_closed(nodes, order, i as int, j as int);
        }
    }
}

/// Collects the nodes that a node is computed from, and itself, each behind its
/// operands.
pub fn collect_topological<T>(
    graph: &Graph<T>,
    i: usize,
    seen: &mut HashSet<usize>,
    output: &mut Vec<usize>,
)
    requires
        graph.wf(),
        i < graph.nodes@.len(),
        old(seen)@ == old(output)@.to_set(),
    ensures
        final(output)@ == visited(graph.nodes@, old(output)@, i as int),
        final(seen)@ == final(output)@.to_set(),
    decreases i,
{
    let ghost nodes = graph.nodes@;
    let ghost start = output@;
    if seen.contains(&i) {
        return;
    }
    let list = operand_list(&graph.nodes[i].op);
    assert(ordered(nodes, i as int));
    let mut k: usize = 0;
    while k < list.len()
        invariant
            k <= list.len(),
            graph.wf(),
            nodes == graph.nodes@,
            i < nodes.len(),
            ordered(nodes, i as int),
            list@ == operands(nodes[i as int].op),
            seen@ == output@.to_set(),
            output@ == operands_visited(nodes, start, i as int, k as nat),
        decreases list.len() - k,
    {
        assert(operands(nodes[i as int].op)[k as int] < i);
        collect_topological(graph, list[k], seen, output);
        k = k + 1;
    }
    let ghost before = output@;
    seen.insert(i);
    output.push(i);
    assert(output@.to_set() =~= before.to_set().insert(i)) by {
        assert forall|x: usize| output@.contains(x) == (before.contains(x) || x == i) by {
            if before.contains(x) {
                let p = choose|p: int| 0 <= p < before.len() && before[p] == x;
                assert(output@[p] == x);
            }
            assert(output@[before.len() as int] == i);
        }
    }
}

/// Without the gradients of the nodes of a list.
pub open spec fn forgetting<T>(ledger: Ledger<T>, order: Seq<usize>) -> Ledger<T> {
    Ledger { gradients: ledger.gradients.remove_keys(order.to_set()), ..ledger }
}

/// Gradients carried from the end of a list to its start, up to the first that fails.
pub open spec fn swept<T>(nodes: Seq<Node<T>>, ledger: Ledger<T>, order: Seq<usize>) -> Passed<T>
    decreases order.len(),
{
    if order.len() == 0 {
        Passed { ledger, result: Ok(()) }
    } else {
        let node = order.last();
        if ledger.gradients.contains_key(node) {
            let done = propagated(nodes, ledger, node as int, ledger.gradients[node]);
            match done.result {
                Err(_) => done,
                Ok(_) => swept(nodes, done.ledger, order.drop_last()),
            }
        } else {
            swept(nodes, ledger, order.drop_last())
        }
    }
}

/// A node differentiated: the gradients of all that it is computed from are forgotten,
/// its value is evaluated, its own gradient is one, and gradients are carried from each
/// node to its operands.
pub open spec fn differentiated<T>(nodes: Seq<Node<T>>, ledger: Ledger<T>, i: int) -> Passed<T> {
    let order = visited(nodes, seq![], i);
    let done = evaluated(nodes, forgetting(ledger, order), i);
    match done.result {
        Err(failure) => Passed { ledger: done.ledger, result: Err(failure) },
        Ok(_) => swept(
            nodes,
            Ledger {
                gradients: done.ledger.gradients.insert(i as usize, done.ledger.root),
                ..done.ledger
            },
            order,
        ),
    }
}

proof fn lemma_reached_fits<T>(nodes: Seq<Node<T>>, i: int, j: int)
    requires
        fits(nodes, i),
        launchable(nodes, i),
        reaches(nodes, i, j),
    ensures
        fits(nodes, j),
        launchable(nodes, j),
{
    assert forall|k: int| #[trigger] reaches(nodes, j, k) implies reaches(nodes, i, k) by {
        lemma_reaches_transitive(nodes, i, j, k);
    }
}

impl<T: Scalar> Executor<T> {
    /// Evaluates a node, and waits until its value is there.
    pub fn materialize(&mut self, graph: &Graph<T>, i: usize) -> (r: Result<()>)
        requires
            graph.wf(),
            i < graph.nodes@.len(),
            fits(graph.nodes@, i as int),
            launchable(graph.nodes@, i as int),
        ensures
            ({
                let done = evaluated(graph.nodes@, old(self)@, i as int);
                passes(
                    final(self)@,
                    r,
                    match done.result {
                        Ok(_) => Passed { ledger: done.ledger.settled(), result: Ok(()) },
                        Err(failure) => Passed { ledger: done.ledger, result: Err(failure) },
                    },
                )
            }),
    {
        let _buffer: usize = self.eval_node(graph, i)?;
        self.synchronize();
        Ok(())
    }

    /// Computes the gradients of all that a node is computed from.
    pub fn backward(&mut self, graph: &Graph<T>, i: usize) -> (r: Result<()>)
        requires
            graph.wf(),
            i < graph.nodes@.len(),
            fits(graph.nodes@, i as int),
            launchable(graph.nodes@, i as int),
        ensures
            passes(final(self)@, r, differentiated(graph.nodes@, old(self)@, i as int)),
    {
        let ghost nodes = graph.nodes@;
        let ghost start = self@;
        let mut seen: HashSet<usize> = HashSet::new();
        let mut order: Vec<usize> = Vec::new();
        assert(order@ =~= seq![]);
        assert(seen@ =~= order@.to_set());
        collect_topological(graph, i, &mut seen, &mut order);
        proof {
            order_is_topological(*graph, i);
            assert forall|p: int| 0 <= p < order@.len() implies {
                &&& (#[trigger] order@[p]) < nodes.len()
                &&& fits(nodes, order@[p] as int)
                &&& launchable(nodes, order@[p] as int)
            } by {
                assert(order@.contains(order@[p]));
                lemma_reached_fits(nodes, i as int, order@[p] as int);
            }
        }
        let mut k: usize = 0;
        assert(forgetting(start, order@.take(0)) =~= start);
        while k < order.len()
            invariant
                k <= order.len(),
                start == old(self)@,
                self@ == forgetting(start, order@.take(k as int)),
            decreases order.len() - k,
        {
            self.gradients.remove(&order[k]);
            proof {
                let (a, b) = (order@.take(k as int), order@.take(k + 1));
                assert(b =~= a.push(order@[k as int]));
                assert(b.to_set() =~= a.to_set().insert(order@[k as int])) by {
                    assert forall|x: usize| b.contains(x) == (a.contains(x) || x == order@[k as int])
                        by {
                        if a.contains(x) {
                            let p = choose|p: int| 0 <= p < a.len() && a[p] == x;
                            assert(b[p] == x);
                        }
                        assert(b[k as int] == order@[k as int]);
                    }
                }
                assert(self@ =~= forgetting(start, b));
            }
            k = k + 1;
        }
        assert(order@.take(order@.len() as int) =~= order@);
        let _buffer: usize = self.eval_node(graph, i)?;
        self.gradients.insert(i, self.root);
        let ghost ready = self@;
        let mut left: usize = order.len();
        while left > 0
            invariant
                left <= order.len(),
                graph.wf(),
                nodes == graph.nodes@,
                forall|p: int|
                    0 <= p < order@.len() ==> {
                        &&& (#[trigger] order@[p]) < nodes.len()
                        &&& fits(nodes, order@[p] as int)
                        &&& launchable(nodes, order@[p] as int)
                    },
                differentiated(nodes, old(self)@, i as int) == swept(nodes, ready, order@),
                swept(nodes, ready, order@) == swept(nodes, self@, order@.take(left as int)),
            decreases left,
        {
            let ghost rest = order@.take(left as int);
            left = left - 1;
            let node: usize = order[left];
            assert(order@[left as int] == node);
            assert(rest.last() == node);
            assert(rest.drop_last() =~= order@.take(left as int));
            match self.gradients.get(&node) {
                Some(found) => {
                    let gradient: usize = *found;
                    self.propagate_node(graph, node, gradient)?;
                },
                None => {},
            }
        }
        Ok(())
    }

    /// The buffer that holds the gradient of a node.
    pub fn gradient(&self, node: usize) -> (r: Option<usize>)
        ensures
            r == (if self@.gradients.contains_key(node) {
                Some(self@.gradients[node])
            } else {
                None
            }),
    {
        match self.gradients.get(&node) {
            Some(found) => Some(*found),
            None => None,
        }
    }

    /// Forgets the gradient of a node.
    pub fn zero_gradient(&mut self, node: usize)
        ensures
            final(self)@ == (Ledger {
                gradients: old(self)@.gradients.remove(node),
                ..old(self)@
            }),
    {
        self.gradients.remove(&node);
        assert(self@.gradients =~= old(self)@.gradients.remove(node));
    }

    /// Forgets all about a node.
    pub fn release_node(&mut self, node: usize)
        ensures
            final(self)@ == (Ledger {
                values: old(self)@.values.remove(node),
                gradients: old(self)@.gradients.remove(node),
                statistics: old(self)@.statistics.remove(node),
                ..old(self)@
            }),
    {
        self.values.remove(&node);
        self.gradients.remove(&node);
        self.statistics.remove(&node);
        assert(self@.values =~= old(self)@.values.remove(node));
        assert(self@.gradients =~= old(self)@.gradients.remove(node));
        assert(self@.statistics =~= old(self)@.statistics.remove(node));
    }

    /// The buffers that hold the running statistics of a batch normalization, where the
    /// device has them.
    pub fn batch_norm_state(&self, state: usize) -> (r: Option<(usize, usize)>)
        ensures
            r == (if self@.states.contains_key(state) {
                Some(self@.states[state])
            } else {
                None
            }),
    {
        match self.states.get(&state) {
            Some(found) => Some(*found),
            None => None,
        }
    }
}

/// The buffers of the moments that an optimizer keeps for a parameter.
pub open spec fn moments_of(moments: Seq<Moment>, optimizer: u64, parameter: u64) -> Option<
    (usize, usize),
>
    decreases moments.len(),
{
    if moments.len() == 0 {
        None
    } else if moments.last().optimizer == optimizer && moments.last().parameter == parameter {
        Some((moments.last().first, moments.last().second))
    } else {
        moments_of(moments.drop_last(), optimizer, parameter)
    }
}

/// The moments of other optimizers and of other parameters.
pub open spec fn other_moments(moments: Seq<Moment>, optimizer: u64, parameter: u64) -> Seq<Moment>
    decreases moments.len(),
{
    if moments.len() == 0 {
        seq![]
    } else {
        let before = other_moments(moments.drop_last(), optimizer, parameter);
        if moments.last().optimizer == optimizer && moments.last().parameter == parameter {
            before
        } else {
            before.push(moments.last())
        }
    }
}

/// The moments of other optimizers.
pub open spec fn moments_besides(moments: Seq<Moment>, optimizer: u64) -> Seq<Moment>
    decreases moments.len(),
{
    if moments.len() == 0 {
        seq![]
    } else {
        let before = moments_besides(moments.drop_last(), optimizer);
        if moments.last().optimizer == optimizer {
            before
        } else {
            before.push(moments.last())
        }
    }
}

impl<T> Ledger<T> {
    /// With one buffer of zeros more.
    pub open spec fn zeroed(self, len: usize) -> Ledger<T> {
        self.with_buffer(len).given(Command::Clear { out: self.next() }, None)
    }

    /// The moments of a parameter taken out; zeros where there are none.
    pub open spec fn with_moments(self, optimizer: u64, parameter: u64, len: usize) -> (
        Ledger<T>,
        (usize, usize),
    ) {
        match moments_of(self.moments, optimizer, parameter) {
            Some(found) => (
                Ledger { moments: other_moments(self.moments, optimizer, parameter), ..self },
                found,
            ),
            None => (
                self.zeroed(len).zeroed(len),
                (self.next(), self.zeroed(len).next()),
            ),
        }
    }
}

/// A step of an optimizer on the value of a node: the buffer of the new value, where the
/// node has a gradient.
pub open spec fn stepped<T>(
    nodes: Seq<Node<T>>,
    ledger: Ledger<T>,
    node: usize,
    optimizer: u64,
    parameter: u64,
    rates: Rates<T>,
    first_correction: T,
    second_correction: T,
) -> (Ledger<T>, std::result::Result<Option<usize>, Failure>) {
    if !ledger.gradients.contains_key(node) {
        (ledger, Ok(None))
    } else {
        let gradient = ledger.gradients[node];
        let done = evaluated(nodes, ledger, node as int);
        match done.result {
            Err(failure) => (done.ledger, Err(failure)),
            Ok(value) => {
                let len = elements(nodes, node as int);
                let (ready, (first, second)) = done.ledger.with_moments(optimizer, parameter, len);
                let new_parameter = ready.next();
                let made = ready.with_buffer(len);
                let new_first = made.next();
                let made = made.with_buffer(len);
                let new_second = made.next();
                let made = made.with_buffer(len);
                match grid_of(len as nat) {
                    Err(failure) => (made, Err(failure)),
                    Ok(grid) => {
                        let after = made.given(
                            Command::AdamW {
                                parameter: value,
                                gradient,
                                first,
                                second,
                                new_parameter,
                                new_first,
                                new_second,
                                rates,
                                first_correction,
                                second_correction,
                            },
                            Some(grid),
                        );
                        (
                            Ledger {
                                moments: after.moments.push(
                                    Moment {
                                        optimizer,
                                        parameter,
                                        first: new_first,
                                        second: new_second,
                                    },
                                ),
                                ..after
                            },
                            Ok(Some(new_parameter)),
                        )
                    },
                }
            },
        }
    }
}

impl<T: Scalar> Executor<T> {
    /// Makes a buffer of zeros.
    pub fn zero_buffer(&mut self, len: usize) -> (r: usize)
        ensures
            final(self)@ == old(self)@.zeroed(len),
            r == old(self)@.next(),
    {
        let out: usize = self.output_buffer(len);
        self.give(Command::Clear { out }, None);
        out
    }

    /// Forgets the moments of an optimizer.
    pub fn release_optimizer(&mut self, optimizer: u64)
        ensures
            final(self)@ == (Ledger {
                moments: moments_besides(old(self)@.moments, optimizer),
                ..old(self)@
            }),
    {
        let ghost all = self.moments@;
        let mut kept: Vec<Moment> = Vec::new();
        let mut k: usize = 0;
        while k < self.moments.len()
            invariant
                k <= self.moments.len(),
                all == self.moments@,
                self@ == old(self)@,
                kept@ == moments_besides(all.take(k as int), optimizer),
            decreases self.moments.len() - k,
        {
            let moment = self.moments[k];
            assert(all.take(k + 1).drop_last() =~= all.take(k as int));
            if moment.optimizer != optimizer {
                kept.push(moment);
            }
            k = k + 1;
        }
        assert(all.take(all.len() as int) =~= all);
        self.moments = kept;
    }

    /// Takes the moments of a parameter out, or makes zeros.
    fn take_moments(&mut self, optimizer: u64, parameter: u64, len: usize) -> (r: (usize, usize))
        ensures
            old(self)@.with_moments(optimizer, parameter, len) == (final(self)@, r),
    {
        let ghost all = self.moments@;
        let mut kept: Vec<Moment> = Vec::new();
        let mut found: Option<(usize, usize)> = None;
        let mut k: usize = 0;
        while k < self.moments.len()
            invariant
                k <= self.moments.len(),
                all == self.moments@,
                self@ == old(self)@,
                kept@ == other_moments(all.take(k as int), optimizer, parameter),
                found == moments_of(all.take(k as int), optimizer, parameter),
            decreases self.moments.len() - k,
        {
            let moment = self.moments[k];
            assert(all.take(k + 1).drop_last() =~= all.take(k as int));
            if moment.optimizer == optimizer && moment.parameter == parameter {
                found = Some((moment.first, moment.second));
            } else {
                kept.push(moment);
            }
            k = k + 1;
        }
        assert(all.take(all.len() as int) =~= all);
        match found {
            Some(found) => {
                self.moments = kept;
                found
            },
            None => {
                let first: usize = self.zero_buffer(len);
                let second: usize = self.zero_buffer(len);
                (first, second)
            },
        }
    }

    /// Plans a step of an optimizer on the value of a node.
    pub fn adamw(
        &mut self,
        graph: &Graph<T>,
        node: usize,
        optimizer: u64,
        parameter: u64,
        rates: Rates<T>,
        first_correction: T,
        second_correction: T,
    ) -> (r: Result<Option<usize>>)
        requires
            graph.wf(),
            node < graph.nodes@.len(),
            fits(graph.nodes@, node as int),
            launchable(graph.nodes@, node as int),
        ensures
            ({
                let (ledger, result) = stepped(
                    graph.nodes@,
                    old(self)@,
                    node,
                    optimizer,
                    parameter,
                    rates,
                    first_correction,
                    second_correction,
                );
                &&& final(self)@ == ledger
                &&& match r {
                    Ok(found) => result == std::result::Result::<Option<usize>, Failure>::Ok(found),
                    Err(error) => result == std::result::Result::<Option<usize>, Failure>::Err(
                        error@,
                    ),
                }
            }),
    {
        let gradient: usize = match self.gradients.get(&node) {
            Some(found) => *found,
            None => {
                return Ok(None);
            },
        };
        let value: usize = self.eval_node(graph, node)?;
        assert(reaches(graph.nodes@, node as int, node as int));
        let len: usize = count(&graph.nodes[node].shape);
        let (first, second) = self.take_moments(optimizer, parameter, len);
        let new_parameter: usize = self.output_buffer(len);
        let new_first: usize = self.output_buffer(len);
        let new_second: usize = self.output_buffer(len);
        let grid = launch_config(len)?;
        self.give(
            Command::AdamW {
                parameter: value,
                gradient,
                first,
                second,
                new_parameter,
                new_first,
                new_second,
                rates,
                first_correction,
                second_correction,
            },
            Some(grid),
        );
        self.moments.push(Moment { optimizer, parameter, first: new_first, second: new_second });
        Ok(Some(new_parameter))
    }
}

/// The failure of stepping a parameter that is not on a device.
pub open spec fn not_on_device() -> Failure {
    Failure::Execution("CUDA AdamW received a CPU parameter"@)
}

/// Takes a step of an optimizer on a parameter: its tensor becomes a new one, of the same
/// shape on the same device, whose value the device holds.
pub fn adamw_step<T: Scalar>(
    executor: &mut Executor<T>,
    graph: &mut Graph<T>,
    parameter: &mut Parameter,
    optimizer: u64,
    rates: Rates<T>,
    first_correction: T,
    second_correction: T,
) -> (r: Result<()>)
    requires
        old(graph).wf(),
        old(graph).has(old(parameter).value),
        fits(old(graph).nodes@, old(parameter).value.id as int),
        launchable(old(graph).nodes@, old(parameter).value.id as int),
    ensures
        final(graph).wf(),
        final(graph).extends(*old(graph)),
        final(parameter).id == old(parameter).id,
        final(graph).has(final(parameter).value),
        final(parameter).value.form() == old(parameter).value.form(),
        !(old(parameter).value.device is Cuda) ==> {
            &&& r matches Err(error) && error@ == not_on_device()
            &&& final(executor)@ == old(executor)@
            &&& *final(graph) == *old(graph)
            &&& *final(parameter) == *old(parameter)
        },
        old(parameter).value.device is Cuda ==> ({
            let (ledger, result) = stepped(
                old(graph).nodes@,
                old(executor)@,
                old(parameter).value.id,
                optimizer,
                old(parameter).id,
                rates,
                first_correction,
                second_correction,
            );
            match result {
                Err(failure) => {
                    &&& r matches Err(error) && error@ == failure
                    &&& final(executor)@ == ledger
                    &&& *final(graph) == *old(graph)
                    &&& *final(parameter) == *old(parameter)
                },
                Ok(None) => {
                    &&& r is Ok
                    &&& final(executor)@ == ledger
                    &&& *final(graph) == *old(graph)
                    &&& *final(parameter) == *old(parameter)
                },
                Ok(Some(buffer)) => match counted_numel(old(parameter).value.shape@) {
                    Err(failure) => {
                        &&& r matches Err(error) && error@ == failure
                        &&& final(executor)@ == ledger
                        &&& *final(graph) == *old(graph)
                        &&& *final(parameter) == *old(parameter)
                    },
                    Ok(_) => {
                        &&& r is Ok
                        &&& final(executor)@ == ledger.caching(final(parameter).value.id, buffer)
                        &&& final(parameter).value.id >= old(graph).nodes@.len()
                        &&& final(graph).nodes@[final(parameter).value.id as int].op matches Op::Data(
                            data,
                        ) && all_zero(data@)
                        &&& final(graph).next_parameter == old(graph).next_parameter
                    },
                },
            }
        }),
{
    let device = parameter.value.device;
    match device {
        Device::Cuda(_) => {},
        _ => {
            return Err(Error::execution("CUDA AdamW received a CPU parameter"));
        },
    }
    let id: u64 = parameter.id;
    let buffer: usize = match executor.adamw(
        graph,
        parameter.value.id,
        optimizer,
        id,
        rates,
        first_correction,
        second_correction,
    )? {
        Some(buffer) => buffer,
        None => {
            return Ok(());
        },
    };
    let made = Tensor::zeros(graph, copied(&parameter.value.shape))?;
    let ghost middle = *graph;
    let moved = made.to(graph, device);
    proof {
        lemma_extends(*old(graph), middle, *graph);
        assert(graph.nodes@[made.id as int] == middle.nodes@[made.id as int]);
        lemma_copies_alike(graph.nodes@, device, made.id as int, moved.id as int);
    }
    executor.values.insert(moved.id, buffer);
    parameter.value = moved;
    Ok(())
}

/// A value is computed once: evaluating a node again gives the same buffer, and the
/// device nothing to do.
pub proof fn values_are_remembered<T>(graph: Graph<T>, ledger: Ledger<T>, i: usize)
    requires
        graph.wf(),
        i < graph.nodes@.len(),
        evaluated(graph.nodes@, ledger, i as int).result is Ok,
    ensures
        ({
            let done = evaluated(graph.nodes@, ledger, i as int);
            evaluated(graph.nodes@, done.ledger, i as int) == done
        }),
    decreases i,
{
    let nodes = graph.nodes@;
    let done = evaluated(nodes, ledger, i as int);
    if !ledger.values.contains_key(i) {
        assert(ordered(nodes, i as int));
        if let Op::Reshape(input) = nodes[i as int].op {
            assert(operands(nodes[i as int].op)[0] == input);
            values_are_remembered(graph, ledger, input);
            if done.ledger.values.contains_key(i) {
                lemma_values_below(graph, ledger, input, i);
            }
        }
    }
}

/// Evaluating a node computes no value of a later one.
proof fn lemma_values_below<T>(graph: Graph<T>, ledger: Ledger<T>, i: usize, j: usize)
    requires
        graph.wf(),
        i < j,
        i < graph.nodes@.len(),
    ensures
        evaluated(graph.nodes@, ledger, i as int).ledger.values.contains_key(j)
            == ledger.values.contains_key(j),
    decreases i, 4nat,
{
    let nodes = graph.nodes@;
    if !ledger.values.contains_key(i) {
        assert(ordered(nodes, i as int));
        match nodes[i as int].op {
            Op::Placeholder(_) => {},
            Op::Reshape(input) => {
                assert(operands(nodes[i as int].op)[0] == input);
                lemma_values_below(graph, ledger, input, j);
            },
            _ => {
                lemma_operand_values_below(
                    graph,
                    ledger,
                    i,
                    operands(nodes[i as int].op).len(),
                    j,
                );
            },
        }
    }
}

proof fn lemma_operand_values_below<T>(
    graph: Graph<T>,
    ledger: Ledger<T>,
    i: usize,
    k: nat,
    j: usize,
)
    requires
        graph.wf(),
        i < j,
        i < graph.nodes@.len(),
        k <= operands(graph.nodes@[i as int].op).len(),
    ensures
        all_evaluated(graph.nodes@, ledger, i as int, k).0.values.contains_key(j)
            == ledger.values.contains_key(j),
    decreases i, k,
{
    let nodes = graph.nodes@;
    if k > 0 {
        lemma_operand_values_below(graph, ledger, i, (k - 1) as nat, j);
        let before = all_evaluated(nodes, ledger, i as int, (k - 1) as nat);
        assert(ordered(nodes, i as int));
        let operand = operands(nodes[i as int].op)[k - 1];
        assert(operand < i);
        if before.1 is Ok {
            lemma_values_below(graph, before.0, operand, j);
        }
    }
}

/// Writes the running statistics that a device held back to the host, where it held any.
pub fn sync_batch_norm_state<T>(
    graph: &mut Graph<T>,
    state: usize,
    values: Option<(Vec<T>, Vec<T>)>,
)
    requires
        old(graph).wf(),
        state < old(graph).norms@.states.len(),
        values matches Some((mean, variance)) ==> {
            &&& mean@.len() == old(graph).norms@.states[state as int].mean.len()
            &&& variance@.len() == old(graph).norms@.states[state as int].variance.len()
        },
    ensures
        final(graph).wf(),
        final(graph).nodes == old(graph).nodes,
        final(graph).grads == old(graph).grads,
        final(graph).next_parameter == old(graph).next_parameter,
        final(graph).norms@ == (Memory {
            states: match values {
                Some((mean, variance)) => old(graph).norms@.states.update(
                    state as int,
                    State { mean: mean@, variance: variance@ },
                ),
                None => old(graph).norms@.states,
            },
            saved: old(graph).norms@.saved,
        }),
{
    if let Some((mean, variance)) = values {
        let ghost before = *graph;
        graph.norms.states.set(
            state,
            BatchNormState { running_mean: mean, running_variance: variance },
        );
        assert(graph.norms@ =~= (Memory {
            states: before.norms@.states.update(
                state as int,
                State { mean: mean@, variance: variance@ },
            ),
            saved: before.norms@.saved,
        }));
        assert forall|i: int| 0 <= i < graph.nodes@.len() implies #[trigger] shaped(
            graph.nodes@,
            graph.norms@,
            i,
        ) by {
            assert(shaped(before.nodes@, before.norms@, i));
        }
    }
}

} // verus!

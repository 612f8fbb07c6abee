//! Where every operation on elements has one result, so have graphs: one value, and one set
//! of gradients; and layers start with one set of weights.
//!
//! What is said of graphs is said of nodes that no batch normalization takes part in.

use crate::backward::{
    accumulates, cleared, differentiates, evaluates_all, flows, flows_all, needs, receives,
    spreads, Tape,
};
use crate::eval::{at, blank, computes, evaluates, ready, runs, step, valued, Machine};
use crate::forward::{
    averaged, classified, dot_product, mean_loss, normalizer, peak, rectified, row_loss, row_of,
    sample_loss, shifted_exponential, summed, Pooling,
};
use crate::graph::{
    convolution, lemma_reaches_operand, operands, ordered, pooling, reaches, Device, Graph, Memory,
    Node, Op,
};
use crate::jit::{inputs_valued, plan_valued};
use crate::meaning::{consistent, lemma_computes, lemma_step_consistent, memoryless};
use crate::nn::{initial_weights, seed, weight_drawn, weight_scale, Conv2d};
use crate::random::drawn_after;
use crate::reverse::{
    bumped, cross_entropy_gradients, gated, labelled_gradient, left_gradient, logit_gradient,
    pool_gradient, pool_updates, product_tally, resolves, right_gradient, shared_out, tallied,
    tally,
};
use crate::scalar::{
    added, all_zero, bottom, counted, difference, dotted, exponentiated, highest, less, logged,
    maximum, one, product, quotient, rooted, sum, truncated, zero, Scalar,
};
use crate::shape::numel;
use crate::tensor::Tensor;
use vstd::prelude::*;

verus! {

/// Every operation that graphs apply to elements has one result.
pub open spec fn determined<T: Scalar>() -> bool {
    &&& forall|a: T, b: T, r: T, s: T| #[trigger] sum(a, b, r) && #[trigger] sum(a, b, s) ==> r == s
    &&& forall|a: T, b: T, r: T, s: T| #[trigger]
        difference(a, b, r) && #[trigger] difference(a, b, s) ==> r == s
    &&& forall|a: T, b: T, r: T, s: T| #[trigger]
        product(a, b, r) && #[trigger] product(a, b, s) ==> r == s
    &&& forall|a: T, b: T, r: T, s: T| #[trigger]
        quotient(a, b, r) && #[trigger] quotient(a, b, s) ==> r == s
    &&& forall|a: T, b: T, r: T, s: T| #[trigger]
        maximum(a, b, r) && #[trigger] maximum(a, b, s) ==> r == s
    &&& forall|a: T, r: T, s: T| #[trigger]
        exponentiated(a, r) && #[trigger] exponentiated(a, s) ==> r == s
    &&& forall|a: T, r: T, s: T| #[trigger] logged(a, r) && #[trigger] logged(a, s) ==> r == s
    &&& forall|a: T, r: T, s: T| #[trigger] rooted(a, r) && #[trigger] rooted(a, s) ==> r == s
    &&& forall|n: usize, r: T, s: T| #[trigger] counted(n, r) && #[trigger] counted(n, s) ==> r == s
    &&& forall|r: T, s: T| #[trigger] bottom(r) && #[trigger] bottom(s) ==> r == s
    &&& forall|a: T, b: T, r: bool, s: bool| #[trigger]
        less(a, b, r) && #[trigger] less(a, b, s) ==> r == s
    &&& forall|a: T, r: usize, s: usize| #[trigger]
        truncated(a, r) && #[trigger] truncated(a, s) ==> r == s
}

proof fn lemma_dotted<T: Scalar>(start: T, pairs: Seq<(T, T)>, r: T, s: T)
    requires
        determined::<T>(),
        dotted(start, pairs, r),
        dotted(start, pairs, s),
    ensures
        r == s,
    decreases pairs.len(),
{
    if pairs.len() > 0 {
        let (a, p) = choose|before: T, part: T|
            {
                &&& dotted(start, pairs.drop_last(), before)
                &&& product(pairs.last().0, pairs.last().1, part)
                &&& #[trigger] sum(before, part, r)
            };
        let (b, q) = choose|before: T, part: T|
            {
                &&& dotted(start, pairs.drop_last(), before)
                &&& product(pairs.last().0, pairs.last().1, part)
                &&& #[trigger] sum(before, part, s)
            };
        lemma_dotted(start, pairs.drop_last(), a, b);
    }
}

proof fn lemma_added<T: Scalar>(start: T, terms: Seq<T>, r: T, s: T)
    requires
        determined::<T>(),
        added(start, terms, r),
        added(start, terms, s),
    ensures
        r == s,
    decreases terms.len(),
{
    if terms.len() > 0 {
        let a = choose|before: T|
            added(start, terms.drop_last(), before) && #[trigger] sum(before, terms.last(), r);
        let b = choose|before: T|
            added(start, terms.drop_last(), before) && #[trigger] sum(before, terms.last(), s);
        lemma_added(start, terms.drop_last(), a, b);
    }
}

proof fn lemma_highest<T: Scalar>(start: T, terms: Seq<T>, r: T, s: T)
    requires
        determined::<T>(),
        highest(start, terms, r),
        highest(start, terms, s),
    ensures
        r == s,
    decreases terms.len(),
{
    if terms.len() > 0 {
        let a = choose|before: T|
            highest(start, terms.drop_last(), before) && #[trigger] maximum(
                before,
                terms.last(),
                r,
            );
        let b = choose|before: T|
            highest(start, terms.drop_last(), before) && #[trigger] maximum(
                before,
                terms.last(),
                s,
            );
        lemma_highest(start, terms.drop_last(), a, b);
    }
}

proof fn lemma_dot_product<T: Scalar>(pairs: Seq<(T, T)>, r: T, s: T)
    requires
        determined::<T>(),
        dot_product(pairs, r),
        dot_product(pairs, s),
    ensures
        r == s,
{
    let a = choose|z: T| zero(z) && #[trigger] dotted(z, pairs, r);
    let b = choose|z: T| zero(z) && #[trigger] dotted(z, pairs, s);
    assert(a == b);
    lemma_dotted(a, pairs, r, s);
}

proof fn lemma_summed<T: Scalar>(terms: Seq<T>, r: T, s: T)
    requires
        determined::<T>(),
        summed(terms, r),
        summed(terms, s),
    ensures
        r == s,
{
    let a = choose|z: T| zero(z) && #[trigger] added(z, terms, r);
    let b = choose|z: T| zero(z) && #[trigger] added(z, terms, s);
    assert(a == b);
    lemma_added(a, terms, r, s);
}

proof fn lemma_peak<T: Scalar>(values: Seq<T>, r: T, s: T)
    requires
        determined::<T>(),
        peak(values, r),
        peak(values, s),
    ensures
        r == s,
{
    let a = choose|low: T| bottom(low) && #[trigger] highest(low, values, r);
    let b = choose|low: T| bottom(low) && #[trigger] highest(low, values, s);
    assert(a == b);
    lemma_highest(a, values, r, s);
}

proof fn lemma_averaged<T: Scalar>(terms: Seq<T>, count: usize, r: T, s: T)
    requires
        determined::<T>(),
        averaged(terms, count, r),
        averaged(terms, count, s),
    ensures
        r == s,
{
    let (a, t, d) = choose|z: T, total: T, divisor: T|
        {
            &&& zero(z)
            &&& #[trigger] added(z, terms, total)
            &&& counted(count, divisor)
            &&& #[trigger] quotient(total, divisor, r)
        };
    let (b, u, e) = choose|z: T, total: T, divisor: T|
        {
            &&& zero(z)
            &&& #[trigger] added(z, terms, total)
            &&& counted(count, divisor)
            &&& #[trigger] quotient(total, divisor, s)
        };
    assert(a == b && d == e);
    lemma_added(a, terms, t, u);
}

proof fn lemma_normalizer<T: Scalar>(values: Seq<T>, shift: T, r: T, s: T)
    requires
        determined::<T>(),
        normalizer(values, shift, r),
        normalizer(values, shift, s),
    ensures
        r == s,
{
    let a = choose|terms: Seq<T>|
        {
            &&& terms.len() == values.len()
            &&& forall|i: int|
                0 <= i < terms.len() ==> shifted_exponential(values[i], shift, #[trigger] terms[i])
            &&& #[trigger] summed(terms, r)
        };
    let b = choose|terms: Seq<T>|
        {
            &&& terms.len() == values.len()
            &&& forall|i: int|
                0 <= i < terms.len() ==> shifted_exponential(values[i], shift, #[trigger] terms[i])
            &&& #[trigger] summed(terms, s)
        };
    assert forall|i: int| 0 <= i < a.len() implies a[i] == b[i] by {
        lemma_shifted(values[i], shift, a[i], b[i]);
    }
    assert(a =~= b);
    lemma_summed(a, r, s);
}

proof fn lemma_shifted<T: Scalar>(value: T, shift: T, r: T, s: T)
    requires
        determined::<T>(),
        shifted_exponential(value, shift, r),
        shifted_exponential(value, shift, s),
    ensures
        r == s,
{
    let a = choose|d: T| difference(value, shift, d) && #[trigger] exponentiated(d, r);
    let b = choose|d: T| difference(value, shift, d) && #[trigger] exponentiated(d, s);
    assert(a == b);
}

proof fn lemma_row_loss<T: Scalar>(logits: Seq<T>, target: int, r: T, s: T)
    requires
        determined::<T>(),
        row_loss(logits, target, r),
        row_loss(logits, target, s),
    ensures
        r == s,
{
    let (a, n, l, u) = choose|top: T, norm: T, log: T, upper: T|
        {
            &&& peak(logits, top)
            &&& #[trigger] normalizer(logits, top, norm)
            &&& logged(norm, log)
            &&& sum(log, top, upper)
            &&& #[trigger] difference(upper, logits[target], r)
        } && #[trigger] logged(norm, log);
    let (b, m, k, v) = choose|top: T, norm: T, log: T, upper: T|
        {
            &&& peak(logits, top)
            &&& #[trigger] normalizer(logits, top, norm)
            &&& logged(norm, log)
            &&& sum(log, top, upper)
            &&& #[trigger] difference(upper, logits[target], s)
        } && #[trigger] logged(norm, log);
    lemma_peak(logits, a, b);
    lemma_normalizer(logits, a, n, m);
    assert(l == k);
    assert(u == v);
}

proof fn lemma_mean_loss<T: Scalar>(
    logits: Seq<T>,
    targets: Seq<T>,
    batch: usize,
    classes: usize,
    r: T,
    s: T,
)
    requires
        determined::<T>(),
        mean_loss(logits, targets, batch, classes, r),
        mean_loss(logits, targets, batch, classes, s),
    ensures
        r == s,
{
    let a = choose|losses: Seq<T>|
        {
            &&& losses.len() == batch
            &&& forall|b: int|
                0 <= b < batch ==> sample_loss(
                    row_of(logits, b, classes as int),
                    targets[b],
                    classes,
                    #[trigger] losses[b],
                )
            &&& #[trigger] averaged(losses, batch, r)
        };
    let b = choose|losses: Seq<T>|
        {
            &&& losses.len() == batch
            &&& forall|b: int|
                0 <= b < batch ==> sample_loss(
                    row_of(logits, b, classes as int),
                    targets[b],
                    classes,
                    #[trigger] losses[b],
                )
            &&& #[trigger] averaged(losses, batch, s)
        };
    assert forall|i: int| 0 <= i < batch implies a[i] == b[i] by {
        let row = row_of(logits, i, classes as int);
        let p = choose|target: usize|
            #[trigger] classified(targets[i], classes, Ok(target)) && row_loss(
                row,
                target as int,
                a[i],
            );
        let q = choose|target: usize|
            #[trigger] classified(targets[i], classes, Ok(target)) && row_loss(
                row,
                target as int,
                b[i],
            );
        assert(p == q);
        lemma_row_loss(row, p as int, a[i], b[i]);
    }
    assert(a =~= b);
    lemma_averaged(a, batch, r, s);
}

/// An operation has one result.
proof fn lemma_computes_one<T: Scalar>(
    nodes: Seq<Node<T>>,
    inputs: Option<Seq<Seq<T>>>,
    machine: Machine<T>,
    i: int,
    r: Seq<T>,
    s: Seq<T>,
    after: Memory<T>,
)
    requires
        determined::<T>(),
        !(nodes[i].op is BatchNorm2d),
        computes(nodes, inputs, machine, i, r, after),
        computes(nodes, inputs, machine, i, s, after),
    ensures
        r == s,
{
    let values = machine.values;
    assert(r.len() == s.len());
    assert forall|k: int| 0 <= k < r.len() implies r[k] == s[k] by {
        match nodes[i].op {
            Op::Relu(input) => {
                let x = at(values, input)[k];
                assert(rectified(x, r[k]) && rectified(x, s[k]));
                let y = choose|z: T| zero(z) && #[trigger] maximum(x, z, r[k]);
                let z = choose|z: T| zero(z) && #[trigger] maximum(x, z, s[k]);
                assert(y == z);
            },
            Op::MatMul(left, right) => {
                let columns = nodes[right as int].shape@[1] as int;
                lemma_dot_product(
                    crate::forward::row_by_column(
                        at(values, left),
                        at(values, right),
                        nodes[left as int].shape@[1] as int,
                        columns,
                        k / columns,
                        k % columns,
                    ),
                    r[k],
                    s[k],
                );
            },
            Op::Conv2d { input, weight, bias, stride, padding, groups } => {
                let geometry = convolution(
                    nodes,
                    input as int,
                    weight as int,
                    stride,
                    padding,
                    groups,
                );
                let place = geometry.output_place(k);
                lemma_dotted(
                    at(values, bias)[place.channel],
                    crate::forward::gathered(
                        at(values, input),
                        at(values, weight),
                        geometry.taps(place),
                    ),
                    r[k],
                    s[k],
                );
            },
            Op::AvgPool2d { input, kernel, stride } => {
                let geometry = pooling(nodes, input as int, kernel, stride);
                lemma_averaged(
                    geometry.window(at(values, input), geometry.output_place(k)),
                    geometry.area() as usize,
                    r[k],
                    s[k],
                );
            },
            Op::CrossEntropy { logits, targets } => {
                lemma_mean_loss(
                    at(values, logits),
                    at(values, targets),
                    nodes[logits as int].shape@[0],
                    nodes[logits as int].shape@[1],
                    r[0],
                    s[0],
                );
            },
            _ => {},
        }
    }
    assert(r =~= s);
}

/// The values of a machine are those that operations give on them, none of them batch
/// normalizations.
pub open spec fn settled<T: Scalar>(
    nodes: Seq<Node<T>>,
    inputs: Option<Seq<Seq<T>>>,
    machine: Machine<T>,
) -> bool {
    &&& machine.values.len() == nodes.len()
    &&& consistent(nodes, inputs, machine)
    &&& forall|i: int|
        0 <= i < nodes.len() && (#[trigger] machine.values[i]) is Some ==> !(
        nodes[i].op is BatchNorm2d)
}

/// Two such machines give a node the same value, where both give it one.
proof fn lemma_machines_agree<T: Scalar>(
    graph: Graph<T>,
    inputs: Option<Seq<Seq<T>>>,
    a: Machine<T>,
    b: Machine<T>,
    i: int,
)
    requires
        determined::<T>(),
        graph.wf(),
        settled(graph.nodes@, inputs, a),
        settled(graph.nodes@, inputs, b),
        a.norms == b.norms,
        0 <= i < graph.nodes@.len(),
        a.values[i] is Some,
        b.values[i] is Some,
    ensures
        a.values[i] == b.values[i],
    decreases i,
{
    let nodes = graph.nodes@;
    let list = operands(nodes[i].op);
    assert(ordered(nodes, i));
    assert(ready(nodes, a.values, i) && ready(nodes, b.values, i));
    assert forall|k: int| 0 <= k < list.len() implies a.values[(#[trigger] list[k]) as int]
        == b.values[list[k] as int] by {
        let operand = operands(nodes[i].op)[k] as int;
        assert(operand < i);
        lemma_machines_agree(graph, inputs, a, b, operand);
    }
    let (r, s) = (a.values[i]->Some_0, b.values[i]->Some_0);
    lemma_computes(nodes, inputs, a, b, i, r, a.norms);
    lemma_computes_one(nodes, inputs, b, i, r, s, b.norms);
}

/// A machine stays settled while nodes are evaluated.
proof fn lemma_runs_settled<T: Scalar>(
    graph: Graph<T>,
    inputs: Option<Seq<Seq<T>>>,
    before: Machine<T>,
    order: Seq<int>,
    root: int,
    after: Machine<T>,
)
    requires
        graph.wf(),
        memoryless(graph.nodes@, root),
        settled(graph.nodes@, inputs, before),
        runs(graph.nodes@, inputs, before, order, after),
        forall|k: int| 0 <= k < order.len() ==> reaches(graph.nodes@, root, #[trigger] order[k]),
    ensures
        settled(graph.nodes@, inputs, after),
        after.norms == before.norms,
    decreases order.len(),
{
    let nodes = graph.nodes@;
    if order.len() > 0 {
        let middle = choose|middle: Machine<T>|
            {
                &&& runs(nodes, inputs, before, order.drop_last(), middle)
                &&& #[trigger] step(nodes, inputs, middle, order.last(), after)
            };
        assert forall|k: int| 0 <= k < order.drop_last().len() implies reaches(
            nodes,
            root,
            #[trigger] order.drop_last()[k],
        ) by {
            assert(order.drop_last()[k] == order[k]);
        }
        lemma_runs_settled(graph, inputs, before, order.drop_last(), root, middle);
        let n = order.last();
        assert(n == order[order.len() - 1]);
        lemma_step_consistent(graph, inputs, middle, n, after);
        assert forall|i: int| 0 <= i < nodes.len() && (#[trigger] after.values[i]) is Some implies !(
        nodes[i].op is BatchNorm2d) by {
            if i != n {
                assert(middle.values[i] == after.values[i]);
            }
        }
    }
}

/// The same for an evaluation.
proof fn lemma_evaluates_settled<T: Scalar>(
    graph: Graph<T>,
    inputs: Option<Seq<Seq<T>>>,
    before: Machine<T>,
    root: int,
    after: Machine<T>,
)
    requires
        graph.wf(),
        memoryless(graph.nodes@, root),
        settled(graph.nodes@, inputs, before),
        evaluates(graph.nodes@, inputs, before, root, after),
    ensures
        settled(graph.nodes@, inputs, after),
        after.norms == before.norms,
{
    let order = choose|order: Seq<int>|
        {
            &&& #[trigger] runs(graph.nodes@, inputs, before, order, after)
            &&& forall|k: int|
                0 <= k < order.len() ==> reaches(graph.nodes@, root, #[trigger] order[k])
        };
    lemma_runs_settled(graph, inputs, before, order, root, after);
}

/// Where every operation has one result, evaluating a node gives one value, and leaves what
/// is remembered.
pub proof fn evaluations_agree<T: Scalar>(
    graph: Graph<T>,
    inputs: Option<Seq<Seq<T>>>,
    before: Memory<T>,
    node: int,
    first: Seq<T>,
    after_first: Memory<T>,
    second: Seq<T>,
    after_second: Memory<T>,
)
    requires
        determined::<T>(),
        graph.wf(),
        0 <= node < graph.nodes@.len(),
        memoryless(graph.nodes@, node),
        valued(graph.nodes@, inputs, before, node, first, after_first),
        valued(graph.nodes@, inputs, before, node, second, after_second),
    ensures
        first == second,
        after_first == before,
        after_second == before,
{
    let nodes = graph.nodes@;
    let start = Machine { values: blank::<T>(nodes.len()), norms: before };
    let one = choose|end: Machine<T>|
        {
            &&& #[trigger] evaluates(nodes, inputs, start, node, end)
            &&& end.values[node] == Some(first)
            &&& end.norms == after_first
        };
    let two = choose|end: Machine<T>|
        {
            &&& #[trigger] evaluates(nodes, inputs, start, node, end)
            &&& end.values[node] == Some(second)
            &&& end.norms == after_second
        };
    lemma_evaluates_settled(graph, inputs, start, node, one);
    lemma_evaluates_settled(graph, inputs, start, node, two);
    lemma_machines_agree(graph, inputs, one, two, node);
}

proof fn lemma_tallied<T: Scalar>(start: Seq<T>, entries: Seq<(int, T)>, r: Seq<T>, s: Seq<T>)
    requires
        determined::<T>(),
        tallied(start, entries, r),
        tallied(start, entries, s),
    ensures
        r == s,
    decreases entries.len(),
{
    if entries.len() > 0 {
        let (cell, term) = entries.last();
        let a = choose|before: Seq<T>|
            {
                &&& tallied(start, entries.drop_last(), before)
                &&& #[trigger] bumped(before, cell, term, r)
            };
        let b = choose|before: Seq<T>|
            {
                &&& tallied(start, entries.drop_last(), before)
                &&& #[trigger] bumped(before, cell, term, s)
            };
        lemma_tallied(start, entries.drop_last(), a, b);
        assert(r[cell] == s[cell]);
    }
}

proof fn lemma_tally<T: Scalar>(len: int, entries: Seq<(int, T)>, r: Seq<T>, s: Seq<T>)
    requires
        determined::<T>(),
        tally(len, entries, r),
        tally(len, entries, s),
    ensures
        r == s,
{
    let a = choose|start: Seq<T>|
        start.len() == len && all_zero(start) && #[trigger] tallied(start, entries, r);
    let b = choose|start: Seq<T>|
        start.len() == len && all_zero(start) && #[trigger] tallied(start, entries, s);
    assert forall|i: int| 0 <= i < a.len() implies a[i] == b[i] by {
        assert(zero(a[i]) && zero(b[i]));
    }
    assert(a =~= b);
    lemma_tallied(a, entries, r, s);
}

proof fn lemma_product_tally<T: Scalar>(
    len: int,
    updates: Seq<(int, T, T)>,
    r: Seq<T>,
    s: Seq<T>,
)
    requires
        determined::<T>(),
        product_tally(len, updates, r),
        product_tally(len, updates, s),
    ensures
        r == s,
{
    let a = choose|entries: Seq<(int, T)>|
        #[trigger] resolves(updates, entries) && tally(len, entries, r);
    let b = choose|entries: Seq<(int, T)>|
        #[trigger] resolves(updates, entries) && tally(len, entries, s);
    assert forall|k: int| 0 <= k < a.len() implies a[k] == b[k] by {
        assert(a[k].0 == updates[k].0 && b[k].0 == updates[k].0);
        assert(a[k].1 == b[k].1);
    }
    assert(a =~= b);
    lemma_tally(len, a, r, s);
}

proof fn lemma_pool_gradient<T: Scalar>(
    geometry: Pooling,
    gradient: Seq<T>,
    r: Seq<T>,
    s: Seq<T>,
)
    requires
        determined::<T>(),
        pool_gradient(geometry, gradient, r),
        pool_gradient(geometry, gradient, s),
    ensures
        r == s,
{
    let count = geometry.area() as usize;
    let a = choose|shares: Seq<T>|
        {
            &&& shares.len() == gradient.len()
            &&& forall|i: int|
                0 <= i < shares.len() ==> shared_out(gradient[i], count, #[trigger] shares[i])
            &&& tally(
                geometry.input_len(),
                #[trigger] pool_updates(geometry, shares, gradient.len()),
                r,
            )
        };
    let b = choose|shares: Seq<T>|
        {
            &&& shares.len() == gradient.len()
            &&& forall|i: int|
                0 <= i < shares.len() ==> shared_out(gradient[i], count, #[trigger] shares[i])
            &&& tally(
                geometry.input_len(),
                #[trigger] pool_updates(geometry, shares, gradient.len()),
                s,
            )
        };
    assert forall|i: int| 0 <= i < a.len() implies a[i] == b[i] by {
        lemma_shared_out(gradient[i], count, a[i], b[i]);
    }
    assert(a =~= b);
    lemma_tally(geometry.input_len(), pool_updates(geometry, a, gradient.len()), r, s);
}

proof fn lemma_shared_out<T: Scalar>(value: T, count: usize, r: T, s: T)
    requires
        determined::<T>(),
        shared_out(value, count, r),
        shared_out(value, count, s),
    ensures
        r == s,
{
    let a = choose|divisor: T| counted(count, divisor) && #[trigger] quotient(value, divisor, r);
    let b = choose|divisor: T| counted(count, divisor) && #[trigger] quotient(value, divisor, s);
    assert(a == b);
}

proof fn lemma_logit_gradient<T: Scalar>(
    logits: Seq<T>,
    class: int,
    target: int,
    scale: T,
    r: T,
    s: T,
)
    requires
        determined::<T>(),
        logit_gradient(logits, class, target, scale, r),
        logit_gradient(logits, class, target, scale, s),
    ensures
        r == s,
{
    let first = choose|top: T, norm: T, weight: T, probability: T, hit: T, gap: T|
        {
            &&& peak(logits, top)
            &&& #[trigger] normalizer(logits, top, norm)
            &&& shifted_exponential(logits[class], top, weight)
            &&& #[trigger] quotient(weight, norm, probability)
            &&& counted(
                if class == target {
                    1
                } else {
                    0
                },
                hit,
            )
            &&& #[trigger] difference(probability, hit, gap)
            &&& #[trigger] product(scale, gap, r)
        };
    let second = choose|top: T, norm: T, weight: T, probability: T, hit: T, gap: T|
        {
            &&& peak(logits, top)
            &&& #[trigger] normalizer(logits, top, norm)
            &&& shifted_exponential(logits[class], top, weight)
            &&& #[trigger] quotient(weight, norm, probability)
            &&& counted(
                if class == target {
                    1
                } else {
                    0
                },
                hit,
            )
            &&& #[trigger] difference(probability, hit, gap)
            &&& #[trigger] product(scale, gap, s)
        };
    lemma_peak(logits, first.0, second.0);
    lemma_normalizer(logits, first.0, first.1, second.1);
    lemma_shifted(logits[class], first.0, first.2, second.2);
    assert(first.3 == second.3);
    assert(first.4 == second.4);
    assert(first.5 == second.5);
}

proof fn lemma_cross_entropy_gradients<T: Scalar>(
    logits: Seq<T>,
    targets: Seq<T>,
    batch: usize,
    classes: usize,
    outer: T,
    r: Seq<T>,
    s: Seq<T>,
)
    requires
        determined::<T>(),
        cross_entropy_gradients(logits, targets, batch, classes, outer, r),
        cross_entropy_gradients(logits, targets, batch, classes, outer, s),
    ensures
        r == s,
{
    let size = classes as int;
    let a = choose|scale: T|
        {
            &&& #[trigger] shared_out(outer, batch, scale)
            &&& r.len() == batch * classes
            &&& forall|i: int|
                0 <= i < r.len() ==> labelled_gradient(
                    row_of(logits, i / size, size),
                    targets[i / size],
                    classes,
                    i % size,
                    scale,
                    #[trigger] r[i],
                )
        };
    let b = choose|scale: T|
        {
            &&& #[trigger] shared_out(outer, batch, scale)
            &&& s.len() == batch * classes
            &&& forall|i: int|
                0 <= i < s.len() ==> labelled_gradient(
                    row_of(logits, i / size, size),
                    targets[i / size],
                    classes,
                    i % size,
                    scale,
                    #[trigger] s[i],
                )
        };
    lemma_shared_out(outer, batch, a, b);
    assert forall|i: int| 0 <= i < r.len() implies r[i] == s[i] by {
        let row = row_of(logits, i / size, size);
        let label = targets[i / size];
        assert(labelled_gradient(row, label, classes, i % size, a, r[i]));
        assert(labelled_gradient(row, label, classes, i % size, a, s[i]));
        let p = choose|target: usize|
            #[trigger] classified(label, classes, Ok(target)) && logit_gradient(
                row,
                i % size,
                target as int,
                a,
                r[i],
            );
        let q = choose|target: usize|
            #[trigger] classified(label, classes, Ok(target)) && logit_gradient(
                row,
                i % size,
                target as int,
                a,
                s[i],
            );
        assert(p == q);
        lemma_logit_gradient(row, i % size, p as int, a, r[i], s[i]);
    }
    assert(r =~= s);
}

proof fn lemma_left_gradient<T: Scalar>(
    gradient: Seq<T>,
    rhs: Seq<T>,
    rows: int,
    inner: int,
    columns: int,
    r: Seq<T>,
    s: Seq<T>,
)
    requires
        determined::<T>(),
        left_gradient(gradient, rhs, rows, inner, columns, r),
        left_gradient(gradient, rhs, rows, inner, columns, s),
    ensures
        r == s,
{
    assert forall|i: int| 0 <= i < r.len() implies r[i] == s[i] by {
        lemma_dot_product(
            crate::reverse::left_factors(gradient, rhs, columns, i / inner, i % inner),
            r[i],
            s[i],
        );
    }
    assert(r =~= s);
}

proof fn lemma_right_gradient<T: Scalar>(
    gradient: Seq<T>,
    lhs: Seq<T>,
    rows: int,
    inner: int,
    columns: int,
    r: Seq<T>,
    s: Seq<T>,
)
    requires
        determined::<T>(),
        right_gradient(gradient, lhs, rows, inner, columns, r),
        right_gradient(gradient, lhs, rows, inner, columns, s),
    ensures
        r == s,
{
    assert forall|i: int| 0 <= i < r.len() implies r[i] == s[i] by {
        lemma_dot_product(
            crate::reverse::right_factors(
                gradient,
                lhs,
                rows,
                inner,
                columns,
                i / columns,
                i % columns,
            ),
            r[i],
            s[i],
        );
    }
    assert(r =~= s);
}

proof fn lemma_gated<T: Scalar>(value: T, gradient: T, r: T, s: T)
    requires
        determined::<T>(),
        gated(value, gradient, r),
        gated(value, gradient, s),
    ensures
        r == s,
{
    let (y, p) = choose|z: T, positive: bool|
        {
            &&& zero(z)
            &&& #[trigger] less(z, value, positive)
            &&& if positive {
                r == gradient
            } else {
                zero(r)
            }
        };
    let (z, q) = choose|z: T, positive: bool|
        {
            &&& zero(z)
            &&& #[trigger] less(z, value, positive)
            &&& if positive {
                s == gradient
            } else {
                zero(s)
            }
        };
    assert(y == z);
    assert(p == q);
}

/// A node hands its operands one set of gradients.
#[verifier::rlimit(40)]
proof fn lemma_spreads_one<T: Scalar>(
    nodes: Seq<Node<T>>,
    a: Machine<T>,
    b: Machine<T>,
    i: int,
    gradient: Seq<T>,
    p: Seq<(usize, Seq<T>)>,
    q: Seq<(usize, Seq<T>)>,
)
    requires
        determined::<T>(),
        !(nodes[i].op is BatchNorm2d),
        forall|k: int|
            0 <= k < needs(nodes[i].op).len() ==> a.values[(
            #[trigger] needs(nodes[i].op)[k]) as int] == b.values[needs(nodes[i].op)[k] as int],
        spreads(nodes, a, i, gradient, p),
        spreads(nodes, b, i, gradient, q),
    ensures
        p == q,
{
    let list = needs(nodes[i].op);
    match nodes[i].op {
        Op::Mul(left, right) => {
            assert(list[0] == left && list[1] == right);
            assert forall|k: int| 0 <= k < gradient.len() implies p[0].1[k] == q[0].1[k]
                && p[1].1[k] == q[1].1[k] by {}
            assert(p[0].1 =~= q[0].1 && p[1].1 =~= q[1].1);
        },
        Op::Relu(input) => {
            assert(list[0] == input);
            assert forall|k: int| 0 <= k < gradient.len() implies p[0].1[k] == q[0].1[k] by {
                lemma_gated(at(a.values, input)[k], gradient[k], p[0].1[k], q[0].1[k]);
            }
            assert(p[0].1 =~= q[0].1);
        },
        Op::MatMul(left, right) => {
            assert(list[0] == left && list[1] == right);
            let rows = nodes[left as int].shape@[0] as int;
            let inner = nodes[left as int].shape@[1] as int;
            let columns = nodes[right as int].shape@[1] as int;
            lemma_left_gradient(
                gradient,
                at(a.values, right),
                rows,
                inner,
                columns,
                p[0].1,
                q[0].1,
            );
            lemma_right_gradient(
                gradient,
                at(a.values, left),
                rows,
                inner,
                columns,
                p[1].1,
                q[1].1,
            );
        },
        Op::Conv2d { input, weight, stride, padding, groups, .. } => {
            assert(list[0] == input && list[1] == weight);
            let geometry = convolution(
                nodes,
                input as int,
                weight as int,
                stride,
                padding,
                groups,
            );
            let n = geometry.output_len() as nat;
            lemma_product_tally(
                geometry.input_len(),
                crate::reverse::input_updates(geometry, gradient, at(a.values, weight), n),
                p[0].1,
                q[0].1,
            );
            lemma_product_tally(
                geometry.weight_len(),
                crate::reverse::weight_updates(geometry, gradient, at(a.values, input), n),
                p[1].1,
                q[1].1,
            );
            lemma_tally(
                geometry.out_channels as int,
                crate::reverse::bias_updates(geometry, gradient, n),
                p[2].1,
                q[2].1,
            );
        },
        Op::AvgPool2d { input, kernel, stride } => {
            lemma_pool_gradient(
                pooling(nodes, input as int, kernel, stride),
                gradient,
                p[0].1,
                q[0].1,
            );
        },
        Op::CrossEntropy { logits, targets } => {
            assert(list[0] == logits && list[1] == targets);
            lemma_cross_entropy_gradients(
                at(a.values, logits),
                at(a.values, targets),
                nodes[logits as int].shape@[0],
                nodes[logits as int].shape@[1],
                gradient[0],
                p[0].1,
                q[0].1,
            );
        },
        _ => {},
    }
    assert(p =~= q);
}

/// What an operand is computed from, the node is too.
proof fn lemma_memoryless_operand<T>(nodes: Seq<Node<T>>, i: int, k: int)
    requires
        memoryless(nodes, i),
        ordered(nodes, i),
        0 <= k < operands(nodes[i].op).len(),
    ensures
        memoryless(nodes, operands(nodes[i].op)[k] as int),
{
    let operand = operands(nodes[i].op)[k] as int;
    assert forall|j: int| #[trigger] reaches(nodes, operand, j) implies !(
    nodes[j].op is BatchNorm2d) by {
        lemma_reaches_operand(nodes, i, k, j);
    }
}

/// A machine stays settled while operands are evaluated.
proof fn lemma_all_settled<T: Scalar>(
    graph: Graph<T>,
    before: Machine<T>,
    list: Seq<usize>,
    i: int,
    after: Machine<T>,
)
    requires
        graph.wf(),
        0 <= i < graph.nodes@.len(),
        memoryless(graph.nodes@, i),
        list.len() <= operands(graph.nodes@[i].op).len(),
        forall|k: int|
            0 <= k < list.len() ==> #[trigger] list[k] == operands(graph.nodes@[i].op)[k],
        settled(graph.nodes@, None, before),
        evaluates_all(graph.nodes@, before, list, after),
    ensures
        settled(graph.nodes@, None, after),
        after.norms == before.norms,
    decreases list.len(),
{
    let nodes = graph.nodes@;
    if list.len() > 0 {
        let middle = choose|middle: Machine<T>|
            {
                &&& evaluates_all(nodes, before, list.drop_last(), middle)
                &&& #[trigger] evaluates(nodes, None, middle, list.last() as int, after)
            };
        lemma_all_settled(graph, before, list.drop_last(), i, middle);
        assert(ordered(nodes, i));
        lemma_memoryless_operand(nodes, i, list.len() - 1);
        lemma_evaluates_settled(graph, None, middle, list.last() as int, after);
    }
}

/// Handing a gradient to a node gives one set of gradients.
proof fn lemma_flows_agree<T: Scalar>(
    graph: Graph<T>,
    a: Tape<T>,
    b: Tape<T>,
    i: int,
    gradient: Seq<T>,
    r: Tape<T>,
    s: Tape<T>,
)
    requires
        determined::<T>(),
        graph.wf(),
        0 <= i < graph.nodes@.len(),
        memoryless(graph.nodes@, i),
        a.grads == b.grads,
        a.machine.norms == b.machine.norms,
        settled(graph.nodes@, None, a.machine),
        settled(graph.nodes@, None, b.machine),
        flows(graph.nodes@, a, i, gradient, r),
        flows(graph.nodes@, b, i, gradient, s),
    ensures
        r.grads == s.grads,
        r.machine.norms == a.machine.norms,
        s.machine.norms == b.machine.norms,
        settled(graph.nodes@, None, r.machine),
        settled(graph.nodes@, None, s.machine),
    decreases i, 1nat, 0nat,
{
    let nodes = graph.nodes@;
    let op = nodes[i].op;
    assert(reaches(nodes, i, i));
    assert(ordered(nodes, i));
    let (m, p) = choose|middle: Tape<T>, parts: Seq<(usize, Seq<T>)>|
        {
            &&& #[trigger] receives(nodes, a, i, gradient, middle)
            &&& #[trigger] spreads(nodes, middle.machine, i, gradient, parts)
            &&& flows_all(nodes, i, middle, parts, r)
        };
    let (n, q) = choose|middle: Tape<T>, parts: Seq<(usize, Seq<T>)>|
        {
            &&& #[trigger] receives(nodes, b, i, gradient, middle)
            &&& #[trigger] spreads(nodes, middle.machine, i, gradient, parts)
            &&& flows_all(nodes, i, middle, parts, s)
        };
    let list = needs(op);
    assert forall|k: int| 0 <= k < list.len() implies k < operands(op).len()
        && #[trigger] needs(op)[k] == operands(op)[k] by {
        crate::backward::lemma_needs(op, k);
    }
    assert(list.len() <= operands(op).len());
    lemma_all_settled(graph, a.machine, list, i, m.machine);
    lemma_all_settled(graph, b.machine, list, i, n.machine);
    assert forall|k: int| 0 <= k < list.len() implies m.machine.values[(
    #[trigger] needs(op)[k]) as int] == n.machine.values[needs(op)[k] as int] by {
        let operand = operands(op)[k];
        assert(operand < i);
        assert(needs(op)[k] == operands(op)[k]);
        lemma_machines_agree(graph, None, m.machine, n.machine, operand as int);
    }
    lemma_spreads_one(nodes, m.machine, n.machine, i, gradient, p, q);
    lemma_accumulates_one(a.grads[i], gradient, m.grads[i], n.grads[i]);
    assert(m.grads == n.grads);
    crate::backward::lemma_spreads_operands(nodes, m.machine, i, gradient, p);
    lemma_flows_all_agree(graph, i, m, n, p, r, s);
}

proof fn lemma_accumulates_one<T: Scalar>(
    before: Option<Seq<T>>,
    incoming: Seq<T>,
    r: Option<Seq<T>>,
    s: Option<Seq<T>>,
)
    requires
        determined::<T>(),
        accumulates(before, incoming, r),
        accumulates(before, incoming, s),
    ensures
        r == s,
{
    if let Some(current) = before {
        let (x, y) = (r->Some_0, s->Some_0);
        assert forall|k: int| 0 <= k < x.len() implies x[k] == y[k] by {
            assert(sum(current[k], incoming[k], x[k]) && sum(current[k], incoming[k], y[k]));
        }
        assert(x =~= y);
    }
}

/// The same for several nodes, one after the other.
proof fn lemma_flows_all_agree<T: Scalar>(
    graph: Graph<T>,
    i: int,
    a: Tape<T>,
    b: Tape<T>,
    parts: Seq<(usize, Seq<T>)>,
    r: Tape<T>,
    s: Tape<T>,
)
    requires
        determined::<T>(),
        graph.wf(),
        0 <= i < graph.nodes@.len(),
        memoryless(graph.nodes@, i),
        parts.len() <= operands(graph.nodes@[i].op).len(),
        forall|k: int|
            0 <= k < parts.len() ==> (#[trigger] parts[k]).0 == operands(graph.nodes@[i].op)[k],
        a.grads == b.grads,
        a.machine.norms == b.machine.norms,
        settled(graph.nodes@, None, a.machine),
        settled(graph.nodes@, None, b.machine),
        flows_all(graph.nodes@, i, a, parts, r),
        flows_all(graph.nodes@, i, b, parts, s),
    ensures
        r.grads == s.grads,
        r.machine.norms == a.machine.norms,
        s.machine.norms == b.machine.norms,
        settled(graph.nodes@, None, r.machine),
        settled(graph.nodes@, None, s.machine),
    decreases i, 0nat, parts.len(),
{
    let nodes = graph.nodes@;
    if parts.len() > 0 {
        let rest = parts.drop_last();
        let (node, gradient) = parts.last();
        let m = choose|middle: Tape<T>|
            {
                &&& #[trigger] crate::backward::abreast(a, middle)
                &&& flows_all(nodes, i, a, rest, middle)
                &&& 0 <= node < i
                &&& flows(nodes, middle, node as int, gradient, r)
            };
        let n = choose|middle: Tape<T>|
            {
                &&& #[trigger] crate::backward::abreast(b, middle)
                &&& flows_all(nodes, i, b, rest, middle)
                &&& 0 <= node < i
                &&& flows(nodes, middle, node as int, gradient, s)
            };
        assert forall|k: int| 0 <= k < rest.len() implies (#[trigger] rest[k]).0 == operands(
            nodes[i].op,
        )[k] by {
            assert(parts[k] == rest[k]);
        }
        lemma_flows_all_agree(graph, i, a, b, rest, m, n);
        let last = parts.len() - 1;
        assert(parts[last].0 == operands(nodes[i].op)[last]);
        assert(ordered(nodes, i));
        lemma_memoryless_operand(nodes, i, last);
        lemma_flows_agree(graph, m, n, node as int, gradient, r, s);
    }
}

/// Where every operation has one result, differentiating a node gives one set of gradients:
/// a second differentiation, from what the first leaves, gives the same gradients again.
pub proof fn differentiations_agree<T: Scalar>(
    graph: Graph<T>,
    before: Memory<T>,
    grads: Seq<Option<Seq<T>>>,
    node: int,
    after: Memory<T>,
    first: Seq<Option<Seq<T>>>,
    last: Memory<T>,
    second: Seq<Option<Seq<T>>>,
)
    requires
        determined::<T>(),
        graph.wf(),
        0 <= node < graph.nodes@.len(),
        memoryless(graph.nodes@, node),
        grads.len() == graph.nodes@.len(),
        differentiates(graph.nodes@, before, grads, node, after, first),
        differentiates(graph.nodes@, after, first, node, last, second),
    ensures
        second == first,
        after == before,
        last == before,
{
    let nodes = graph.nodes@;
    crate::backward::differentiation_repeats(graph, before, grads, node, after, first);
    let start = Tape {
        machine: Machine { values: blank::<T>(nodes.len()), norms: before },
        grads: cleared(nodes, node, grads),
    };
    let again = Tape {
        machine: Machine { values: blank::<T>(nodes.len()), norms: after },
        grads: cleared(nodes, node, first),
    };
    let (u, r) = choose|unit: T, end: Tape<T>|
        {
            &&& one(unit)
            &&& #[trigger] flows(nodes, start, node, seq![unit], end)
            &&& end.machine.norms == after
            &&& end.grads == first
        };
    let (v, s) = choose|unit: T, end: Tape<T>|
        {
            &&& one(unit)
            &&& #[trigger] flows(nodes, again, node, seq![unit], end)
            &&& end.machine.norms == last
            &&& end.grads == second
        };
    assert(u == v);
    assert(start.grads =~= again.grads);
    assert(after == before) by {
        lemma_flows_agree(graph, start, start, node, seq![u], r, r);
    }
    lemma_flows_agree(graph, start, again, node, seq![u], r, s);
}

proof fn lemma_weight_scale<T: Scalar>(fan_in: usize, r: T, s: T)
    requires
        determined::<T>(),
        weight_scale(fan_in, r),
        weight_scale(fan_in, s),
    ensures
        r == s,
{
    let (a, b, c) = choose|two: T, fan: T, variance: T|
        {
            &&& counted(2, two)
            &&& counted(fan_in, fan)
            &&& #[trigger] quotient(two, fan, variance)
            &&& #[trigger] rooted(variance, r)
        };
    let (x, y, z) = choose|two: T, fan: T, variance: T|
        {
            &&& counted(2, two)
            &&& counted(fan_in, fan)
            &&& #[trigger] quotient(two, fan, variance)
            &&& #[trigger] rooted(variance, s)
        };
    assert(a == x && b == y);
    assert(c == z);
}

proof fn lemma_weight_drawn<T: Scalar>(state: u64, scale: T, r: T, s: T)
    requires
        determined::<T>(),
        weight_drawn(state, scale, r),
        weight_drawn(state, scale, s),
    ensures
        r == s,
{
    let one_way = choose|bits: T, range: T, unit: T, two: T, wide: T, single: T, centred: T|
        {
            &&& counted((state >> 40) as usize, bits)
            &&& counted(16777216, range)
            &&& #[trigger] quotient(bits, range, unit)
            &&& counted(2, two)
            &&& #[trigger] product(unit, two, wide)
            &&& one(single)
            &&& #[trigger] difference(wide, single, centred)
            &&& #[trigger] product(centred, scale, r)
        };
    let other = choose|bits: T, range: T, unit: T, two: T, wide: T, single: T, centred: T|
        {
            &&& counted((state >> 40) as usize, bits)
            &&& counted(16777216, range)
            &&& #[trigger] quotient(bits, range, unit)
            &&& counted(2, two)
            &&& #[trigger] product(unit, two, wide)
            &&& one(single)
            &&& #[trigger] difference(wide, single, centred)
            &&& #[trigger] product(centred, scale, s)
        };
    assert(one_way.0 == other.0 && one_way.1 == other.1);
    assert(one_way.2 == other.2);
    assert(one_way.3 == other.3);
    assert(one_way.4 == other.4);
    assert(one_way.5 == other.5);
    assert(one_way.6 == other.6);
}

/// Where every operation has one result, two convolutions that are made for the same
/// channels, kernels and groups start with the same weights and biases.
pub proof fn convolutions_start_equal<T: Scalar>(
    first: Conv2d,
    second: Conv2d,
    graph: Graph<T>,
    other: Graph<T>,
    in_channels: usize,
    out_channels: usize,
    kernel_size: usize,
    stride: usize,
    groups: usize,
    device: Device,
)
    requires
        determined::<T>(),
        first.fresh(graph, in_channels, out_channels, kernel_size, stride, groups, device),
        second.fresh(other, in_channels, out_channels, kernel_size, stride, groups, device),
    ensures
        graph.nodes@[first.weight.value.id as int].op->Data_0@
            == other.nodes@[second.weight.value.id as int].op->Data_0@,
        graph.nodes@[first.bias.value.id as int].op->Data_0@
            == other.nodes@[second.bias.value.id as int].op->Data_0@,
{
    let shape = seq![out_channels, in_channels / groups, kernel_size, kernel_size];
    let fan_in = ((in_channels / groups) * (kernel_size * kernel_size)) as usize;
    let a = graph.nodes@[first.weight.value.id as int].op->Data_0@;
    let b = other.nodes@[second.weight.value.id as int].op->Data_0@;
    assert(initial_weights(shape, fan_in, a) && initial_weights(shape, fan_in, b));
    let scale = choose|scale: T|
        {
            &&& #[trigger] weight_scale(fan_in, scale)
            &&& a.len() == numel(shape)
            &&& forall|i: int|
                0 <= i < a.len() ==> weight_drawn(
                    drawn_after(seed(shape), (i + 1) as nat),
                    scale,
                    #[trigger] a[i],
                )
        };
    let same = choose|scale: T|
        {
            &&& #[trigger] weight_scale(fan_in, scale)
            &&& b.len() == numel(shape)
            &&& forall|i: int|
                0 <= i < b.len() ==> weight_drawn(
                    drawn_after(seed(shape), (i + 1) as nat),
                    scale,
                    #[trigger] b[i],
                )
        };
    lemma_weight_scale(fan_in, scale, same);
    assert forall|i: int| 0 <= i < a.len() implies a[i] == b[i] by {
        lemma_weight_drawn(drawn_after(seed(shape), (i + 1) as nat), scale, a[i], b[i]);
    }
    assert(a =~= b);
    let x = graph.nodes@[first.bias.value.id as int].op->Data_0@;
    let y = other.nodes@[second.bias.value.id as int].op->Data_0@;
    assert forall|i: int| 0 <= i < x.len() implies x[i] == y[i] by {
        assert(zero(x[i]) && zero(y[i]));
    }
    assert(x =~= y);
}

/// Inputs that no batch normalization takes part in have one value each.
proof fn lemma_inputs_agree<T: Scalar>(
    graph: Graph<T>,
    before: Memory<T>,
    tensors: Seq<Tensor>,
    first: Seq<Seq<T>>,
    after_first: Memory<T>,
    second: Seq<Seq<T>>,
    after_second: Memory<T>,
)
    requires
        determined::<T>(),
        graph.wf(),
        first.len() == second.len() <= tensors.len(),
        forall|i: int|
            0 <= i < tensors.len() ==> (#[trigger] tensors[i]).id < graph.nodes@.len()
                && memoryless(graph.nodes@, tensors[i].id as int),
        inputs_valued(graph.nodes@, before, tensors, first, after_first),
        inputs_valued(graph.nodes@, before, tensors, second, after_second),
    ensures
        first == second,
        after_first == before,
        after_second == before,
    decreases first.len(),
{
    let nodes = graph.nodes@;
    if first.len() > 0 {
        let last = first.len() - 1;
        let node = tensors[last].id as int;
        let m = choose|middle: Memory<T>|
            {
                &&& inputs_valued(nodes, before, tensors, first.drop_last(), middle)
                &&& #[trigger] valued(
                    nodes,
                    None,
                    middle,
                    tensors[first.len() - 1].id as int,
                    first.last(),
                    after_first,
                )
            };
        let n = choose|middle: Memory<T>|
            {
                &&& inputs_valued(nodes, before, tensors, second.drop_last(), middle)
                &&& #[trigger] valued(
                    nodes,
                    None,
                    middle,
                    tensors[second.len() - 1].id as int,
                    second.last(),
                    after_second,
                )
            };
        lemma_inputs_agree(graph, before, tensors, first.drop_last(), m, second.drop_last(), n);
        evaluations_agree(
            graph,
            None,
            before,
            node,
            first.last(),
            after_first,
            second.last(),
            after_second,
        );
        assert(first =~= first.drop_last().push(first.last()));
        assert(second =~= second.drop_last().push(second.last()));
    } else {
        assert(first =~= second);
    }
}

/// Where every operation has one result, running a plan on inputs gives one value.
pub proof fn plans_agree<T: Scalar>(
    graph: Graph<T>,
    before: Memory<T>,
    root: int,
    inputs: Seq<Tensor>,
    first: Seq<T>,
    after_first: Memory<T>,
    second: Seq<T>,
    after_second: Memory<T>,
)
    requires
        determined::<T>(),
        graph.wf(),
        0 <= root < graph.nodes@.len(),
        memoryless(graph.nodes@, root),
        forall|i: int|
            0 <= i < inputs.len() ==> (#[trigger] inputs[i]).id < graph.nodes@.len()
                && memoryless(graph.nodes@, inputs[i].id as int),
        plan_valued(graph.nodes@, before, root, inputs, first, after_first),
        plan_valued(graph.nodes@, before, root, inputs, second, after_second),
    ensures
        first == second,
        after_first == before,
        after_second == before,
{
    let nodes = graph.nodes@;
    let (u, m) = choose|values: Seq<Seq<T>>, middle: Memory<T>|
        {
            &&& values.len() == inputs.len()
            &&& #[trigger] inputs_valued(nodes, before, inputs, values, middle)
            &&& #[trigger] valued(nodes, Some(values), middle, root, first, after_first)
        };
    let (v, n) = choose|values: Seq<Seq<T>>, middle: Memory<T>|
        {
            &&& values.len() == inputs.len()
            &&& #[trigger] inputs_valued(nodes, before, inputs, values, middle)
            &&& #[trigger] valued(nodes, Some(values), middle, root, second, after_second)
        };
    lemma_inputs_agree(graph, before, inputs, u, m, v, n);
    evaluations_agree(
        graph,
        Some(u),
        before,
        root,
        first,
        after_first,
        second,
        after_second,
    );
}

} // verus!

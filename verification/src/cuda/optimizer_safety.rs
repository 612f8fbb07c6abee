//! What the launches of optimizer steps can rely on.

use crate::cuda::command::{Command, Step};
use crate::cuda::executor::{all_evaluated, elements, evaluated, Ledger, Moment};
use crate::cuda::launch::grid_of;
use crate::cuda::safety::{
    holds_so_many, launches_are_safe, lemma_evaluated_lengthens, lemma_given, lemma_held,
    lemma_lengthens, lemma_more_buffers, lemma_remembered_stays, lemma_unwritten, lengthens,
    measured_well, reads, ready, remembered, safe, squares, stated_well, valued_well, writes,
    written,
};
use crate::cuda::session::{moments_besides, moments_of, other_moments, stepped};
use crate::graph::{fits, operands, ordered, reaches, Graph, Op};
use crate::optim::Rates;
use crate::shape::numel;
use vstd::prelude::*;

verus! {

/// The moments that optimizers keep of a parameter stand in buffers of the parameter's
/// length.
pub open spec fn moments_fit<T>(
    moments: Seq<Moment>,
    ledger: Ledger<T>,
    sizes: spec_fn(u64) -> int,
) -> bool {
    forall|k: int|
        0 <= k < moments.len() ==> {
            let size = sizes((#[trigger] moments[k]).parameter);
            &&& holds_so_many(ledger, moments[k].first, size)
            &&& holds_so_many(ledger, moments[k].second, size)
        }
}

/// The moments that are found for a parameter are among those that are kept.
proof fn lemma_found(moments: Seq<Moment>, optimizer: u64, parameter: u64) -> (k: int)
    requires
        moments_of(moments, optimizer, parameter) is Some,
    ensures
        0 <= k < moments.len(),
        moments[k].parameter == parameter,
        moments_of(moments, optimizer, parameter) == Some((moments[k].first, moments[k].second)),
    decreases moments.len(),
{
    if moments.last().optimizer == optimizer && moments.last().parameter == parameter {
        moments.len() - 1
    } else {
        lemma_found(moments.drop_last(), optimizer, parameter)
    }
}

/// Taking moments out leaves the others.
proof fn lemma_others(moments: Seq<Moment>, optimizer: u64, parameter: u64, j: int) -> (k: int)
    requires
        0 <= j < other_moments(moments, optimizer, parameter).len(),
    ensures
        0 <= k < moments.len(),
        other_moments(moments, optimizer, parameter)[j] == moments[k],
    decreases moments.len(),
{
    let before = other_moments(moments.drop_last(), optimizer, parameter);
    if j < before.len() {
        lemma_others(moments.drop_last(), optimizer, parameter, j)
    } else {
        moments.len() - 1
    }
}

/// Evaluating keeps the moments.
proof fn lemma_evaluated_moments<T>(graph: Graph<T>, ledger: Ledger<T>, i: usize)
    requires
        graph.wf(),
        i < graph.nodes@.len(),
    ensures
        evaluated(graph.nodes@, ledger, i as int).ledger.moments == ledger.moments,
    decreases i, 4nat,
{
    let nodes = graph.nodes@;
    if !ledger.values.contains_key(i) {
        assert(ordered(nodes, i as int));
        match nodes[i as int].op {
            Op::Placeholder(_) => {},
            Op::Reshape(input) => {
                assert(operands(nodes[i as int].op)[0] == input);
                lemma_evaluated_moments(graph, ledger, input);
            },
            _ => {
                lemma_all_moments(graph, ledger, i, operands(nodes[i as int].op).len());
            },
        }
    }
}

proof fn lemma_all_moments<T>(graph: Graph<T>, ledger: Ledger<T>, i: usize, k: nat)
    requires
        graph.wf(),
        i < graph.nodes@.len(),
        k <= operands(graph.nodes@[i as int].op).len(),
    ensures
        all_evaluated(graph.nodes@, ledger, i as int, k).0.moments == ledger.moments,
    decreases i, k,
{
    let nodes = graph.nodes@;
    if k > 0 {
        lemma_all_moments(graph, ledger, i, (k - 1) as nat);
        let before = all_evaluated(nodes, ledger, i as int, (k - 1) as nat);
        assert(ordered(nodes, i as int));
        let operand = operands(nodes[i as int].op)[k - 1];
        assert(operand < i);
        if before.1 is Ok {
            lemma_evaluated_moments(graph, before.0, operand);
        }
    }
}

/// A buffer of zeros.
proof fn lemma_zeroed<T>(ledger: Ledger<T>, len: usize)
    requires
        safe(ledger),
        ledger.lens.len() < usize::MAX,
    ensures
        safe(ledger.zeroed(len)),
        lengthens(ledger, ledger.zeroed(len)),
        holds_so_many(ledger.zeroed(len), ledger.next(), len as int),
{
    let out = ledger.next();
    let clear = Command::<T>::Clear { out };
    let made = ledger.with_buffer(len);
    lemma_more_buffers(ledger, made);
    lemma_unwritten(ledger, out);
    let w = writes(clear);
    assert(w.no_duplicates());
    lemma_given(made, clear, None);
    let after = made.given(clear, None);
    assert(written(after.log, after.log.len() as int, w[0]));
    lemma_lengthens(ledger, made, after);
}

/// The moments that a step starts from stand in buffers of the parameter's length.
proof fn lemma_with_moments<T>(
    ledger: Ledger<T>,
    optimizer: u64,
    parameter: u64,
    len: usize,
    sizes: spec_fn(u64) -> int,
)
    requires
        safe(ledger),
        ledger.with_moments(optimizer, parameter, len).0.lens.len() <= usize::MAX,
        moments_fit(ledger.moments, ledger, sizes),
        sizes(parameter) == len,
    ensures
        ({
            let (after, (first, second)) = ledger.with_moments(optimizer, parameter, len);
            &&& safe(after)
            &&& lengthens(ledger, after)
            &&& holds_so_many(after, first, len as int)
            &&& holds_so_many(after, second, len as int)
            &&& moments_fit(after.moments, after, sizes)
        }),
{
    let (after, (first, second)) = ledger.with_moments(optimizer, parameter, len);
    match moments_of(ledger.moments, optimizer, parameter) {
        Some(found) => {
            let k = lemma_found(ledger.moments, optimizer, parameter);
            lemma_more_buffers(ledger, after);
            lemma_held(ledger, after, first, len as int);
            lemma_held(ledger, after, second, len as int);
            assert forall|j: int| 0 <= j < after.moments.len() implies {
                let size = sizes((#[trigger] after.moments[j]).parameter);
                &&& holds_so_many(after, after.moments[j].first, size)
                &&& holds_so_many(after, after.moments[j].second, size)
            } by {
                let m = lemma_others(ledger.moments, optimizer, parameter, j);
                let size = sizes(ledger.moments[m].parameter);
                lemma_held(ledger, after, ledger.moments[m].first, size);
                lemma_held(ledger, after, ledger.moments[m].second, size);
            }
        },
        None => {
            let middle = ledger.zeroed(len);
            lemma_zeroed(ledger, len);
            lemma_zeroed(middle, len);
            lemma_held(middle, after, first, len as int);
            lemma_lengthens(ledger, middle, after);
            lemma_moments_stay(ledger.moments, ledger, after, sizes);
        },
    }
}

/// What is kept stays in its buffers.
proof fn lemma_moments_stay<T>(
    moments: Seq<Moment>,
    before: Ledger<T>,
    after: Ledger<T>,
    sizes: spec_fn(u64) -> int,
)
    requires
        moments_fit(moments, before, sizes),
        lengthens(before, after),
    ensures
        moments_fit(moments, after, sizes),
{
    assert forall|k: int| 0 <= k < moments.len() implies {
        let size = sizes((#[trigger] moments[k]).parameter);
        &&& holds_so_many(after, moments[k].first, size)
        &&& holds_so_many(after, moments[k].second, size)
    } by {
        let size = sizes(moments[k].parameter);
        lemma_held(before, after, moments[k].first, size);
        lemma_held(before, after, moments[k].second, size);
    }
}

/// A step of an optimizer launches safely too, and keeps moments of the lengths of their
/// parameters.
pub proof fn optimizer_launches_are_safe<T>(
    graph: Graph<T>,
    ledger: Ledger<T>,
    node: usize,
    optimizer: u64,
    parameter: u64,
    rates: Rates<T>,
    first_correction: T,
    second_correction: T,
    sizes: spec_fn(u64) -> int,
)
    requires
        graph.wf(),
        node < graph.nodes@.len(),
        fits(graph.nodes@, node as int),
        squares(graph.nodes@, node as int),
        safe(ledger),
        remembered(graph, ledger),
        moments_fit(ledger.moments, ledger, sizes),
        sizes(parameter) == numel(graph.nodes@[node as int].shape@),
        stepped(
            graph.nodes@,
            ledger,
            node,
            optimizer,
            parameter,
            rates,
            first_correction,
            second_correction,
        ).0.lens.len() <= usize::MAX,
    ensures
        ({
            let (after, result) = stepped(
                graph.nodes@,
                ledger,
                node,
                optimizer,
                parameter,
                rates,
                first_correction,
                second_correction,
            );
            &&& safe(after)
            &&& remembered(graph, after)
            &&& lengthens(ledger, after)
            &&& moments_fit(after.moments, after, sizes)
            &&& result matches Ok(Some(buffer)) ==> holds_so_many(
                after,
                buffer,
                numel(graph.nodes@[node as int].shape@) as int,
            )
        }),
{
    let nodes = graph.nodes@;
    if ledger.gradients.contains_key(node) {
        let gradient = ledger.gradients[node];
        let done = evaluated(nodes, ledger, node as int);
        lemma_evaluated_lengthens(graph, ledger, node);
        lemma_evaluated_moments(graph, ledger, node);
        launches_are_safe(graph, ledger, node);
        lemma_moments_stay(ledger.moments, ledger, done.ledger, sizes);
        if let Ok(value) = done.result {
            assert(reaches(nodes, node as int, node as int));
            let len = elements(nodes, node as int);
            let (start, (first, second)) = done.ledger.with_moments(optimizer, parameter, len);
            lemma_with_moments(done.ledger, optimizer, parameter, len, sizes);
            let one = start.with_buffer(len);
            let two = one.with_buffer(len);
            let made = two.with_buffer(len);
            lemma_more_buffers(start, made);
            lemma_unwritten(start, start.next());
            lemma_unwritten(start, one.next());
            lemma_unwritten(start, two.next());
            lemma_lengthens(ledger, done.ledger, start);
            lemma_lengthens(ledger, start, made);
            lemma_lengthens(done.ledger, start, made);
            lemma_held(ledger, made, gradient, len as int);
            lemma_held(done.ledger, made, value, len as int);
            lemma_held(start, made, first, len as int);
            lemma_held(start, made, second, len as int);
            lemma_moments_stay(start.moments, start, made, sizes);
            if let Ok(grid) = grid_of(len as nat) {
                let command = Command::AdamW {
                    parameter: value,
                    gradient,
                    first,
                    second,
                    new_parameter: start.next(),
                    new_first: one.next(),
                    new_second: two.next(),
                    rates,
                    first_correction,
                    second_correction,
                };
                let (r, w) = (reads(command), writes(command));
                assert(r =~= seq![value, gradient, first, second]);
                assert(w =~= seq![start.next(), one.next(), two.next()]);
                assert(w.no_duplicates());
                assert(ready(made.lens, (Step { command, grid: Some(grid) })));
                lemma_given(made, command, Some(grid));
                let given = made.given(command, Some(grid));
                let last = Moment {
                    optimizer,
                    parameter,
                    first: one.next(),
                    second: two.next(),
                };
                let after = Ledger { moments: given.moments.push(last), ..given };
                lemma_more_buffers(given, after);
                lemma_lengthens(ledger, made, after);
                lemma_lengthens(done.ledger, made, after);
                lemma_moments_stay(made.moments, made, after, sizes);
                assert(written(given.log, given.log.len() as int, w[0]));
                assert(written(given.log, given.log.len() as int, w[1]));
                assert(written(given.log, given.log.len() as int, w[2]));
                assert(holds_so_many(after, last.first, len as int));
                assert(holds_so_many(after, last.second, len as int));
                assert(moments_fit(after.moments, after, sizes));
                lemma_remembered_stays(graph, done.ledger, after);
            } else {
                lemma_remembered_stays(graph, done.ledger, made);
            }
        }
    }
}

/// A graph that grew has all that the device holds of it where it was.
pub proof fn grown_graphs_stay_remembered<T>(before: Graph<T>, after: Graph<T>, ledger: Ledger<T>)
    requires
        after.extends(before),
        remembered(before, ledger),
    ensures
        remembered(after, ledger),
{
    assert forall|i: usize| #[trigger] ledger.values.contains_key(i) implies valued_well(
        after,
        ledger,
        i,
        ledger.values[i],
    ) by {
        assert(valued_well(before, ledger, i, ledger.values[i]));
        assert(after.nodes@[i as int] == before.nodes@[i as int]);
    }
    assert forall|i: usize| #[trigger] ledger.gradients.contains_key(i) implies valued_well(
        after,
        ledger,
        i,
        ledger.gradients[i],
    ) by {
        assert(valued_well(before, ledger, i, ledger.gradients[i]));
        assert(after.nodes@[i as int] == before.nodes@[i as int]);
    }
    assert forall|s: usize| #[trigger] ledger.states.contains_key(s) implies stated_well(
        after,
        ledger,
        s,
    ) by {
        assert(stated_well(before, ledger, s));
    }
    assert forall|i: usize| #[trigger] ledger.statistics.contains_key(i) implies measured_well(
        after,
        ledger,
        i,
    ) by {
        assert(measured_well(before, ledger, i));
        assert(after.nodes@[i as int] == before.nodes@[i as int]);
    }
}

/// A parameter whose new value a step left in a buffer is one that the device holds.
pub proof fn stepped_parameters_are_remembered<T>(
    graph: Graph<T>,
    ledger: Ledger<T>,
    node: usize,
    buffer: usize,
)
    requires
        safe(ledger),
        remembered(graph, ledger),
        node < graph.nodes@.len(),
        holds_so_many(ledger, buffer, numel(graph.nodes@[node as int].shape@) as int),
    ensures
        safe(ledger.caching(node, buffer)),
        remembered(graph, ledger.caching(node, buffer)),
{
    let after = ledger.caching(node, buffer);
    lemma_more_buffers(ledger, after);
    lemma_held(ledger, after, buffer, numel(graph.nodes@[node as int].shape@) as int);
    lemma_remembered_stays(graph, ledger, after);
}

/// Forgetting a gradient, a node or an optimizer changes nothing for the rest.
pub proof fn forgetting_is_safe<T>(graph: Graph<T>, ledger: Ledger<T>, node: usize, optimizer: u64)
    requires
        safe(ledger),
        remembered(graph, ledger),
    ensures
        ({
            let after = Ledger { gradients: ledger.gradients.remove(node), ..ledger };
            safe(after) && remembered(graph, after)
        }),
        ({
            let after = Ledger {
                values: ledger.values.remove(node),
                gradients: ledger.gradients.remove(node),
                statistics: ledger.statistics.remove(node),
                ..ledger
            };
            safe(after) && remembered(graph, after)
        }),
        ({
            let after = Ledger { moments: moments_besides(ledger.moments, optimizer), ..ledger };
            safe(after) && remembered(graph, after)
        }),
{
    let ungraded = Ledger { gradients: ledger.gradients.remove(node), ..ledger };
    let released = Ledger {
        values: ledger.values.remove(node),
        gradients: ledger.gradients.remove(node),
        statistics: ledger.statistics.remove(node),
        ..ledger
    };
    let finished = Ledger { moments: moments_besides(ledger.moments, optimizer), ..ledger };
    lemma_more_buffers(ledger, ungraded);
    lemma_remembered_stays(graph, ledger, ungraded);
    lemma_more_buffers(ledger, released);
    lemma_remembered_stays(graph, ledger, released);
    lemma_more_buffers(ledger, finished);
    lemma_remembered_stays(graph, ledger, finished);
}

} // verus!

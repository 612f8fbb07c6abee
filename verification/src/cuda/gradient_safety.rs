//! What the launches that compute gradients can rely on.

use crate::cuda::command::{Command, Step};
use crate::cuda::conv_kernels::{reduction, square};
use crate::cuda::executor::{elements, evaluated, Ledger};
use crate::cuda::launch::{grid_of, Grid};
use crate::cuda::propagate::{
    accumulated, allocated, gradient_commands, gradient_lens, gradient_shares, hands_on,
    list_evaluated, needed, numbered, propagated, receivers, series, spread,
};
use crate::cuda::safety::{
    holds_so_many, launches_are_safe, lemma_evaluated_lengthens, lemma_given, lemma_held,
    lemma_launched, lemma_lengthens, lemma_more_buffers, lemma_remembered_stays,
    lemma_squares_operand, lemma_unwritten,
    lengthens, measured_well, reads, ready, remembered, safe, squares, valued_well, writes,
    written,
};
use crate::cuda::session::{differentiated, forgetting, order_is_topological, swept, visited};
use crate::error::Failure;
use crate::eval::{lemma_convolution, lemma_planes, lemma_pooling};
use crate::graph::{
    convolution, fits, fits_alone, lemma_fits_operand, lemma_reaches_below,
    lemma_reaches_transitive, operands, ordered, reaches, shaped, Graph, Node, Op,
};
use crate::shape::{lemma_numel_1, lemma_numel_2, numel};
use vstd::prelude::*;

verus! {

/// The commands of a list, with their grids.
pub type Series<T> = Seq<(Command<T>, std::result::Result<Grid, Failure>)>;

/// A command before the `k`-th writes the buffer.
pub open spec fn written_before<T>(commands: Series<T>, k: int, buffer: usize) -> bool {
    exists|m: int| 0 <= m < k && #[trigger] writes(commands[m].0).contains(buffer)
}

/// The `k`-th command of a list can be given in its turn: it reads what was written, before
/// the list or in it, and writes what was not.
pub open spec fn in_turn<T>(ledger: Ledger<T>, commands: Series<T>, k: int) -> bool {
    let command = commands[k].0;
    &&& forall|j: int|
        0 <= j < reads(command).len() ==> {
            let buffer = #[trigger] reads(command)[j];
            &&& buffer < ledger.lens.len()
            &&& written(ledger.log, ledger.log.len() as int, buffer) || written_before(
                commands,
                k,
                buffer,
            )
        }
    &&& forall|j: int|
        0 <= j < writes(command).len() ==> {
            let buffer = #[trigger] writes(command)[j];
            &&& buffer < ledger.lens.len()
            &&& !written(ledger.log, ledger.log.len() as int, buffer)
            &&& !written_before(commands, k, buffer)
        }
    &&& writes(command).no_duplicates()
    &&& commands[k].1 matches Ok(grid) ==> ready(ledger.lens, (Step { command, grid: Some(grid) }))
}

/// Commands that can be given in their turn are safe.
proof fn lemma_series<T>(ledger: Ledger<T>, commands: Series<T>)
    requires
        safe(ledger),
        forall|k: int| 0 <= k < commands.len() ==> #[trigger] in_turn(ledger, commands, k),
    ensures
        ({
            let done = series(ledger, commands);
            &&& safe(done.ledger)
            &&& lengthens(ledger, done.ledger)
            &&& done.ledger == (Ledger { log: done.ledger.log, ..ledger })
            &&& done.result is Ok ==> forall|k: int, j: int|
                0 <= k < commands.len() && 0 <= j < writes(commands[k].0).len() ==> written(
                    done.ledger.log,
                    done.ledger.log.len() as int,
                    #[trigger] writes(commands[k].0)[j],
                )
        }),
    decreases commands.len(),
{
    let done = series(ledger, commands);
    if commands.len() > 0 {
        if let Ok(grid) = commands[0].1 {
            let command = commands[0].0;
            let rest = commands.drop_first();
            assert(in_turn(ledger, commands, 0));
            lemma_given(ledger, command, Some(grid));
            let next = ledger.given(command, Some(grid));
            let n = ledger.log.len() as int;
            assert forall|k: int| 0 <= k < rest.len() implies #[trigger] in_turn(next, rest, k) by {
                assert(in_turn(ledger, commands, k + 1));
                assert(rest[k] == commands[k + 1]);
                lemma_turn(ledger, commands, grid, k);
            }
            lemma_series(next, rest);
            lemma_lengthens(ledger, next, done.ledger);
            if done.result is Ok {
                assert forall|k: int, j: int|
                    0 <= k < commands.len() && 0 <= j < writes(commands[k].0).len() implies written(
                    done.ledger.log,
                    done.ledger.log.len() as int,
                    #[trigger] writes(commands[k].0)[j],
                ) by {
                    let buffer = writes(commands[k].0)[j];
                    if k == 0 {
                        assert(holds_so_many(next, buffer, next.lens[buffer as int] as int));
                        lemma_held(next, done.ledger, buffer, next.lens[buffer as int] as int);
                    } else {
                        assert(rest[k - 1] == commands[k]);
                        assert(written(
                            done.ledger.log,
                            done.ledger.log.len() as int,
                            writes(rest[k - 1].0)[j],
                        ));
                    }
                }
            }
        }
    }
}

/// When the first command was given, the turn of the others stays.
proof fn lemma_turn<T>(ledger: Ledger<T>, commands: Series<T>, grid: Grid, k: int)
    requires
        0 <= k < commands.len() - 1,
        in_turn(ledger, commands, 0),
        in_turn(ledger, commands, k + 1),
    ensures
        in_turn(ledger.given(commands[0].0, Some(grid)), commands.drop_first(), k),
{
    let first = commands[0].0;
    let rest = commands.drop_first();
    let next = ledger.given(first, Some(grid));
    let n = ledger.log.len() as int;
    let command = rest[k].0;
    assert(command == commands[k + 1].0);
    assert(next.log[n].command == first);
    assert forall|b: usize| #[trigger] written(next.log, next.log.len() as int, b) == (written(
        ledger.log,
        n,
        b,
    ) || writes(first).contains(b)) by {
        if written(next.log, next.log.len() as int, b) {
            let j = choose|j: int|
                0 <= j < next.log.len() && #[trigger] writes(next.log[j].command).contains(b);
            if j < n {
                assert(next.log[j] == ledger.log[j]);
                assert(writes(ledger.log[j].command).contains(b));
            }
        }
        if written(ledger.log, n, b) {
            let j = choose|j: int|
                0 <= j < n && #[trigger] writes(ledger.log[j].command).contains(b);
            assert(next.log[j] == ledger.log[j]);
            assert(writes(next.log[j].command).contains(b));
        }
        if writes(first).contains(b) {
            assert(writes(next.log[n].command).contains(b));
        }
    }
    assert forall|b: usize| #[trigger] written_before(commands, k + 1, b) == (written_before(
        rest,
        k,
        b,
    ) || writes(first).contains(b)) by {
        if written_before(commands, k + 1, b) {
            let m = choose|m: int|
                0 <= m < k + 1 && #[trigger] writes(commands[m].0).contains(b);
            if m > 0 {
                assert(rest[m - 1] == commands[m]);
                assert(writes(rest[m - 1].0).contains(b));
            }
        }
        if written_before(rest, k, b) {
            let m = choose|m: int| 0 <= m < k && #[trigger] writes(rest[m].0).contains(b);
            assert(rest[m] == commands[m + 1]);
            assert(writes(commands[m + 1].0).contains(b));
        }
        if writes(first).contains(b) {
            assert(writes(commands[0].0).contains(b));
        }
    }
    assert forall|j: int| 0 <= j < reads(command).len() implies {
        let buffer = #[trigger] reads(command)[j];
        &&& buffer < next.lens.len()
        &&& written(next.log, next.log.len() as int, buffer) || written_before(rest, k, buffer)
    } by {
        let buffer = reads(commands[k + 1].0)[j];
        assert(written(ledger.log, n, buffer) || written_before(commands, k + 1, buffer));
    }
    assert forall|j: int| 0 <= j < writes(command).len() implies {
        let buffer = #[trigger] writes(command)[j];
        &&& buffer < next.lens.len()
        &&& !written(next.log, next.log.len() as int, buffer)
        &&& !written_before(rest, k, buffer)
    } by {
        let buffer = writes(commands[k + 1].0)[j];
        assert(!written(ledger.log, n, buffer) && !written_before(commands, k + 1, buffer));
    }
}

/// Evaluating a list only adds buffers and commands.
proof fn lemma_list_lengthens<T>(
    graph: Graph<T>,
    ledger: Ledger<T>,
    list: Seq<usize>,
    found: Seq<usize>,
)
    requires
        graph.wf(),
        forall|k: int| 0 <= k < list.len() ==> (#[trigger] list[k]) < graph.nodes@.len(),
    ensures
        lengthens(ledger, list_evaluated(graph.nodes@, ledger, list, found).0),
    decreases list.len(),
{
    if list.len() > 0 {
        let done = evaluated(graph.nodes@, ledger, list[0] as int);
        lemma_evaluated_lengthens(graph, ledger, list[0]);
        if let Ok(buffer) = done.result {
            lemma_list_lengthens(graph, done.ledger, list.drop_first(), found.push(buffer));
            lemma_lengthens(
                ledger,
                done.ledger,
                list_evaluated(graph.nodes@, ledger, list, found).0,
            );
        }
    }
}

/// Evaluating a list of nodes is safe.
proof fn lemma_list<T>(
    graph: Graph<T>,
    ledger: Ledger<T>,
    all: Seq<usize>,
    list: Seq<usize>,
    found: Seq<usize>,
)
    requires
        graph.wf(),
        safe(ledger),
        remembered(graph, ledger),
        forall|k: int|
            0 <= k < list.len() ==> {
                &&& (#[trigger] list[k]) < graph.nodes@.len()
                &&& fits(graph.nodes@, list[k] as int)
                &&& squares(graph.nodes@, list[k] as int)
            },
        found.len() + list.len() == all.len(),
        list == all.skip(found.len() as int),
        forall|k: int|
            0 <= k < found.len() ==> valued_well(graph, ledger, all[k], #[trigger] found[k]),
        list_evaluated(graph.nodes@, ledger, list, found).0.lens.len() <= usize::MAX,
    ensures
        ({
            let (after, result) = list_evaluated(graph.nodes@, ledger, list, found);
            &&& safe(after)
            &&& remembered(graph, after)
            &&& lengthens(ledger, after)
            &&& result matches Ok(values) ==> values.len() == all.len() && forall|k: int|
                0 <= k < all.len() ==> valued_well(graph, after, all[k], #[trigger] values[k])
        }),
    decreases list.len(),
{
    let nodes = graph.nodes@;
    lemma_list_lengthens(graph, ledger, list, found);
    if list.len() > 0 {
        let done = evaluated(nodes, ledger, list[0] as int);
        assert(list[0] == all[found.len() as int]);
        lemma_evaluated_lengthens(graph, ledger, list[0]);
        if let Ok(buffer) = done.result {
            let more = found.push(buffer);
            let rest = list.drop_first();
            lemma_list_lengthens(graph, done.ledger, rest, more);
            launches_are_safe(graph, ledger, list[0]);
            assert forall|k: int| 0 <= k < more.len() implies valued_well(
                graph,
                done.ledger,
                all[k],
                #[trigger] more[k],
            ) by {
                if k < found.len() {
                    assert(more[k] == found[k]);
                    assert(valued_well(graph, ledger, all[k], found[k]));
                    lemma_held(
                        ledger,
                        done.ledger,
                        found[k],
                        numel(nodes[all[k] as int].shape@) as int,
                    );
                }
            }
            assert(rest =~= all.skip(more.len() as int));
            lemma_list(graph, done.ledger, all, rest, more);
        } else {
            launches_are_safe(graph, ledger, list[0]);
        }
    } else {
        assert(found.len() == all.len());
    }
}

/// Adding to a gradient is safe.
proof fn lemma_accumulated<T>(graph: Graph<T>, ledger: Ledger<T>, node: usize, incoming: usize)
    requires
        graph.wf(),
        safe(ledger),
        remembered(graph, ledger),
        valued_well(graph, ledger, node, incoming),
        numel(graph.nodes@[node as int].shape@) <= usize::MAX,
        accumulated(graph.nodes@, ledger, node, incoming).ledger.lens.len() <= usize::MAX,
    ensures
        ({
            let done = accumulated(graph.nodes@, ledger, node, incoming);
            &&& safe(done.ledger)
            &&& remembered(graph, done.ledger)
            &&& lengthens(ledger, done.ledger)
        }),
{
    let nodes = graph.nodes@;
    let done = accumulated(nodes, ledger, node, incoming);
    if ledger.gradients.contains_key(node) {
        let current = ledger.gradients[node];
        let without = Ledger { gradients: ledger.gradients.remove(node), ..ledger };
        let len = elements(nodes, node as int);
        let command = Command::<T>::Accumulate { left: current, right: incoming, out: without.next() };
        assert(valued_well(graph, ledger, node, current));
        lemma_more_buffers(ledger, without);
        lemma_launched(without, len, grid_of(len as nat), command);
        let launched = without.launched(len, grid_of(len as nat), command);
        assert(done.ledger.lens == launched.ledger.lens && done.ledger.log == launched.ledger.log);
        lemma_more_buffers(launched.ledger, done.ledger);
        assert(lengthens(ledger, done.ledger));
        if let Ok(out) = launched.result {
            lemma_held(launched.ledger, done.ledger, out, len as int);
            assert(valued_well(graph, done.ledger, node, out));
        }
        lemma_remembered_stays(graph, ledger, done.ledger);
    } else {
        lemma_more_buffers(ledger, done.ledger);
        lemma_held(
            ledger,
            done.ledger,
            incoming,
            numel(nodes[node as int].shape@) as int,
        );
        assert(valued_well(graph, done.ledger, node, incoming));
        lemma_remembered_stays(graph, ledger, done.ledger);
    }
}

proof fn lemma_spread_lengthens<T>(graph: Graph<T>, ledger: Ledger<T>, shares: Seq<(usize, usize)>)
    ensures
        lengthens(ledger, spread(graph.nodes@, ledger, shares).ledger),
    decreases shares.len(),
{
    if shares.len() > 0 {
        let done = accumulated(graph.nodes@, ledger, shares[0].0, shares[0].1);
        assert(lengthens(ledger, done.ledger));
        if done.result is Ok {
            lemma_spread_lengthens(graph, done.ledger, shares.drop_first());
            lemma_lengthens(ledger, done.ledger, spread(graph.nodes@, ledger, shares).ledger);
        }
    }
}

/// Adding to several gradients is safe.
proof fn lemma_spread<T>(graph: Graph<T>, ledger: Ledger<T>, shares: Seq<(usize, usize)>)
    requires
        graph.wf(),
        safe(ledger),
        remembered(graph, ledger),
        forall|k: int|
            0 <= k < shares.len() ==> {
                &&& valued_well(graph, ledger, (#[trigger] shares[k]).0, shares[k].1)
                &&& numel(graph.nodes@[shares[k].0 as int].shape@) <= usize::MAX
            },
        spread(graph.nodes@, ledger, shares).ledger.lens.len() <= usize::MAX,
    ensures
        ({
            let done = spread(graph.nodes@, ledger, shares);
            &&& safe(done.ledger)
            &&& remembered(graph, done.ledger)
            &&& lengthens(ledger, done.ledger)
        }),
    decreases shares.len(),
{
    lemma_spread_lengthens(graph, ledger, shares);
    if shares.len() > 0 {
        let done = accumulated(graph.nodes@, ledger, shares[0].0, shares[0].1);
        let rest = shares.drop_first();
        if done.result is Ok {
            lemma_spread_lengthens(graph, done.ledger, rest);
            lemma_accumulated(graph, ledger, shares[0].0, shares[0].1);
            assert forall|k: int| 0 <= k < rest.len() implies {
                &&& valued_well(graph, done.ledger, (#[trigger] rest[k]).0, rest[k].1)
                &&& numel(graph.nodes@[rest[k].0 as int].shape@) <= usize::MAX
            } by {
                assert(rest[k] == shares[k + 1]);
                lemma_held(
                    ledger,
                    done.ledger,
                    rest[k].1,
                    numel(graph.nodes@[rest[k].0 as int].shape@) as int,
                );
            }
            lemma_spread(graph, done.ledger, rest);
        } else {
            lemma_accumulated(graph, ledger, shares[0].0, shares[0].1);
        }
    }
}

/// The buffers for the gradients of the operands of a node.
pub open spec fn made_for<T>(graph: Graph<T>, before: Ledger<T>, i: usize) -> Ledger<T> {
    allocated(before, gradient_lens(graph.nodes@, i as int))
}

/// The numbers of the buffers for the gradients of the operands of a node.
pub open spec fn outs_for<T>(graph: Graph<T>, before: Ledger<T>, i: usize) -> Seq<usize> {
    numbered(before.next(), gradient_lens(graph.nodes@, i as int).len())
}

/// Everything that the gradients of the operands of a node are computed from is there.
pub open spec fn supplied<T>(
    graph: Graph<T>,
    before: Ledger<T>,
    i: usize,
    gradient: usize,
    values: Seq<usize>,
    statistics: (usize, usize),
) -> bool {
    let nodes = graph.nodes@;
    &&& graph.wf()
    &&& i < nodes.len()
    &&& fits(nodes, i as int)
    &&& squares(nodes, i as int)
    &&& safe(before)
    &&& made_for(graph, before, i).lens.len() <= usize::MAX
    &&& !hands_on(nodes[i as int].op)
    &&& valued_well(graph, before, i, gradient)
    &&& values.len() == needed(nodes, i as int).len()
    &&& forall|k: int|
        0 <= k < values.len() ==> valued_well(
            graph,
            before,
            needed(nodes, i as int)[k],
            #[trigger] values[k],
        )
    &&& nodes[i as int].op is BatchNorm2d ==> {
        &&& holds_so_many(before, statistics.0, nodes[i as int].shape@[1] as int)
        &&& holds_so_many(before, statistics.1, nodes[i as int].shape@[1] as int)
    }
}

/// The new buffers have the lengths of the operands, and nothing is in them.
proof fn lemma_made<T>(
    graph: Graph<T>,
    before: Ledger<T>,
    i: usize,
    gradient: usize,
    values: Seq<usize>,
    statistics: (usize, usize),
)
    requires
        supplied(graph, before, i, gradient, values, statistics),
    ensures
        ({
            let made = made_for(graph, before, i);
            let outs = outs_for(graph, before, i);
            let to = receivers(graph.nodes@[i as int].op);
            &&& safe(made)
            &&& lengthens(before, made)
            &&& outs.len() == to.len()
            &&& forall|k: int|
                0 <= k < outs.len() ==> {
                    &&& (#[trigger] outs[k]) == before.lens.len() + k
                    &&& outs[k] < made.lens.len()
                    &&& !written(made.log, made.log.len() as int, outs[k])
                    &&& to[k] < i
                    &&& numel(graph.nodes@[to[k] as int].shape@) <= usize::MAX
                    &&& made.lens[outs[k] as int] == numel(graph.nodes@[to[k] as int].shape@)
                }
            &&& forall|b: usize, len: int| #[trigger]
                holds_so_many(before, b, len) ==> holds_so_many(made, b, len)
        }),
{
    let nodes = graph.nodes@;
    let n = i as int;
    let made = made_for(graph, before, i);
    let outs = outs_for(graph, before, i);
    let to = receivers(nodes[n].op);
    let lens = gradient_lens(nodes, n);
    assert(ordered(nodes, n));
    assert(lens.len() == to.len());
    assert(lengthens(before, made));
    lemma_more_buffers(before, made);
    assert forall|k: int| 0 <= k < outs.len() implies {
        &&& (#[trigger] outs[k]) == before.lens.len() + k
        &&& outs[k] < made.lens.len()
        &&& !written(made.log, made.log.len() as int, outs[k])
        &&& to[k] < i
        &&& numel(nodes[to[k] as int].shape@) <= usize::MAX
        &&& made.lens[outs[k] as int] == numel(nodes[to[k] as int].shape@)
    } by {
        assert(made.lens.len() == before.lens.len() + lens.len());
        lemma_unwritten(before, outs[k]);
        assert(to[k] == operands(nodes[n].op)[k]);
        lemma_fits_operand(nodes, n, k);
        assert(reaches(nodes, to[k] as int, to[k] as int));
        assert(fits_alone(nodes, to[k] as int));
        assert(lens[k] == elements(nodes, to[k] as int));
    }
    assert forall|b: usize, len: int| #[trigger] holds_so_many(before, b, len) implies
        holds_so_many(made, b, len) by {
        lemma_held(before, made, b, len);
    }
}

/// One of the commands writes the buffer.
pub open spec fn filled_by<T>(commands: Series<T>, buffer: usize) -> bool {
    exists|m: int, j: int|
        0 <= m < commands.len() && 0 <= j < writes(commands[m].0).len() && #[trigger] writes(
            commands[m].0,
        )[j] == buffer
}

/// The commands can be given, and fill the buffers.
pub open spec fn well_ordered<T>(
    graph: Graph<T>,
    before: Ledger<T>,
    i: usize,
    gradient: usize,
    values: Seq<usize>,
    statistics: (usize, usize),
) -> bool {
    let made = made_for(graph, before, i);
    let outs = outs_for(graph, before, i);
    let commands = gradient_commands(graph.nodes@, i as int, gradient, values, outs, statistics);
    &&& forall|k: int| 0 <= k < commands.len() ==> #[trigger] in_turn(made, commands, k)
    &&& forall|k: int| 0 <= k < outs.len() ==> filled_by(commands, #[trigger] outs[k])
}

/// Nothing is written before the first command.
proof fn lemma_first<T>(commands: Series<T>)
    ensures
        forall|b: usize| !(#[trigger] written_before(commands, 0, b)),
{
}

/// The gradients of a product, a rectifier, a pool and a loss are launched in order.
proof fn lemma_short_lists<T>(
    graph: Graph<T>,
    before: Ledger<T>,
    i: usize,
    gradient: usize,
    values: Seq<usize>,
    statistics: (usize, usize),
)
    requires
        supplied(graph, before, i, gradient, values, statistics),
        graph.nodes@[i as int].op is Relu || graph.nodes@[i as int].op is AvgPool2d
            || graph.nodes@[i as int].op is CrossEntropy,
    ensures
        well_ordered(graph, before, i, gradient, values, statistics),
{
    let nodes = graph.nodes@;
    let n = i as int;
    let made = made_for(graph, before, i);
    let outs = outs_for(graph, before, i);
    let commands = gradient_commands(nodes, n, gradient, values, outs, statistics);
    let need = needed(nodes, n);
    let to = receivers(nodes[n].op);
    lemma_made(graph, before, i, gradient, values, statistics);
    lemma_first(commands);
    assert(shaped(nodes, graph.norms@, n));
    assert(ordered(nodes, n));
    assert(reaches(nodes, n, n));
    assert(fits_alone(nodes, n));
    assert(holds_so_many(made, gradient, numel(nodes[n].shape@) as int));
    assert forall|k: int| 0 <= k < values.len() implies holds_so_many(
        made,
        #[trigger] values[k],
        numel(nodes[need[k] as int].shape@) as int,
    ) by {
        assert(valued_well(graph, before, need[k], values[k]));
    }
    match nodes[n].op {
        Op::Relu(input) => {
            assert(need[0] == input && to[0] == input);
            assert(holds_so_many(made, values[0], numel(nodes[input as int].shape@) as int));
        },
        Op::AvgPool2d { input, kernel, stride } => {
            assert(to[0] == input);
            assert(made.lens[outs[0] as int] == numel(nodes[input as int].shape@));
            lemma_pooling(nodes, graph.norms@, n, input, kernel, stride);
        },
        Op::CrossEntropy { logits, targets } => {
            assert(need[0] == logits && need[1] == targets && to[0] == logits);
            assert(holds_so_many(made, values[0], numel(nodes[logits as int].shape@) as int));
            assert(holds_so_many(made, values[1], numel(nodes[targets as int].shape@) as int));
            lemma_numel_2(nodes[logits as int].shape@);
            lemma_numel_1(nodes[targets as int].shape@);
            lemma_numel_1(nodes[n].shape@);
        },
        _ => {},
    }
    assert(made.lens[outs[0] as int] == numel(nodes[to[0] as int].shape@));
    assert(writes(commands[0].0) =~= seq![outs[0]]);
    assert(in_turn(made, commands, 0));
    assert(writes(commands[0].0)[0] == outs[0]);
    assert(filled_by(commands, outs[0]));
}

/// The gradients of the factors of a product are launched in order.
proof fn lemma_pairs<T>(
    graph: Graph<T>,
    before: Ledger<T>,
    i: usize,
    gradient: usize,
    values: Seq<usize>,
    statistics: (usize, usize),
)
    requires
        supplied(graph, before, i, gradient, values, statistics),
        graph.nodes@[i as int].op is Mul || graph.nodes@[i as int].op is MatMul,
    ensures
        well_ordered(graph, before, i, gradient, values, statistics),
{
    let nodes = graph.nodes@;
    let n = i as int;
    let made = made_for(graph, before, i);
    let outs = outs_for(graph, before, i);
    let commands = gradient_commands(nodes, n, gradient, values, outs, statistics);
    let need = needed(nodes, n);
    let to = receivers(nodes[n].op);
    lemma_made(graph, before, i, gradient, values, statistics);
    lemma_first(commands);
    assert(shaped(nodes, graph.norms@, n));
    assert(ordered(nodes, n));
    assert(reaches(nodes, n, n));
    assert(fits_alone(nodes, n));
    assert(holds_so_many(made, gradient, numel(nodes[n].shape@) as int));
    assert(valued_well(graph, before, need[0], values[0]));
    assert(valued_well(graph, before, need[1], values[1]));
    assert(holds_so_many(made, values[0], numel(nodes[need[0] as int].shape@) as int));
    assert(holds_so_many(made, values[1], numel(nodes[need[1] as int].shape@) as int));
    assert(made.lens[outs[0] as int] == numel(nodes[to[0] as int].shape@));
    assert(made.lens[outs[1] as int] == numel(nodes[to[1] as int].shape@));
    match nodes[n].op {
        Op::Mul(left, right) => {
            assert(need[0] == left && need[1] == right && to[0] == left && to[1] == right);
        },
        Op::MatMul(left, right) => {
            assert(need[0] == left && need[1] == right && to[0] == left && to[1] == right);
            lemma_numel_2(nodes[left as int].shape@);
            lemma_numel_2(nodes[right as int].shape@);
            lemma_numel_2(nodes[n].shape@);
        },
        _ => {},
    }
    assert(writes(commands[0].0) =~= seq![outs[0]]);
    assert(writes(commands[1].0) =~= seq![outs[1]]);
    assert(!written_before(commands, 1, outs[1])) by {
        if written_before(commands, 1, outs[1]) {
            let m = choose|m: int|
                0 <= m < 1 && #[trigger] writes(commands[m].0).contains(outs[1]);
            assert(writes(commands[0].0).contains(outs[1]));
        }
    }
    assert(in_turn(made, commands, 0));
    assert(in_turn(made, commands, 1));
    assert(writes(commands[0].0)[0] == outs[0]);
    assert(writes(commands[1].0)[0] == outs[1]);
    assert(filled_by(commands, outs[0]) && filled_by(commands, outs[1]));
}

/// The gradients of the operands of a convolution are launched in order.
proof fn lemma_convolved<T>(
    graph: Graph<T>,
    before: Ledger<T>,
    i: usize,
    gradient: usize,
    values: Seq<usize>,
    statistics: (usize, usize),
)
    requires
        supplied(graph, before, i, gradient, values, statistics),
        graph.nodes@[i as int].op is Conv2d,
    ensures
        well_ordered(graph, before, i, gradient, values, statistics),
{
    let nodes = graph.nodes@;
    let n = i as int;
    let made = made_for(graph, before, i);
    let outs = outs_for(graph, before, i);
    let commands = gradient_commands(nodes, n, gradient, values, outs, statistics);
    let need = needed(nodes, n);
    let to = receivers(nodes[n].op);
    lemma_made(graph, before, i, gradient, values, statistics);
    lemma_first(commands);
    assert(shaped(nodes, graph.norms@, n));
    assert(ordered(nodes, n));
    assert(reaches(nodes, n, n));
    assert(fits_alone(nodes, n));
    assert(holds_so_many(made, gradient, numel(nodes[n].shape@) as int));
    assert(valued_well(graph, before, need[0], values[0]));
    assert(valued_well(graph, before, need[1], values[1]));
    assert(holds_so_many(made, values[0], numel(nodes[need[0] as int].shape@) as int));
    assert(holds_so_many(made, values[1], numel(nodes[need[1] as int].shape@) as int));
    assert(made.lens[outs[0] as int] == numel(nodes[to[0] as int].shape@));
    assert(made.lens[outs[1] as int] == numel(nodes[to[1] as int].shape@));
    assert(made.lens[outs[2] as int] == numel(nodes[to[2] as int].shape@));
    if let Op::Conv2d { input, weight, bias, stride, padding, groups } = nodes[n].op {
        assert(need[0] == input && need[1] == weight);
        assert(to[0] == input && to[1] == weight && to[2] == bias);
        lemma_convolution(nodes, graph.norms@, n, input, weight, bias, stride, padding, groups);
        let geometry = convolution(nodes, input as int, weight as int, stride, padding, groups);
        let x = nodes[input as int].shape@;
        let w = nodes[weight as int].shape@;
        assert(square(geometry));
        assert(geometry.in_per_group() == w[1]);
        assert(reduction(geometry) == w[1] * w[2] * w[3]);
        assert(0 <= x[0] * x[1] && 0 <= x[2] * x[3]) by (nonlinear_arith);
        assert(0 <= w[1] * w[2] * w[3]) by (nonlinear_arith);
    }
    assert(writes(commands[0].0) =~= seq![outs[0]]);
    assert(writes(commands[1].0) =~= seq![outs[1]]);
    assert(writes(commands[2].0) =~= seq![outs[2]]);
    assert(!written_before(commands, 1, outs[1])) by {
        if written_before(commands, 1, outs[1]) {
            let m = choose|m: int|
                0 <= m < 1 && #[trigger] writes(commands[m].0).contains(outs[1]);
            assert(writes(commands[0].0).contains(outs[1]));
        }
    }
    assert(!written_before(commands, 2, outs[2])) by {
        if written_before(commands, 2, outs[2]) {
            let m = choose|m: int|
                0 <= m < 2 && #[trigger] writes(commands[m].0).contains(outs[2]);
            assert(writes(commands[0].0).contains(outs[2]) || writes(commands[1].0).contains(
                outs[2],
            ));
        }
    }
    assert(in_turn(made, commands, 0));
    assert(in_turn(made, commands, 1));
    assert(in_turn(made, commands, 2));
    assert(writes(commands[0].0)[0] == outs[0]);
    assert(writes(commands[1].0)[0] == outs[1]);
    assert(writes(commands[2].0)[0] == outs[2]);
    assert(filled_by(commands, outs[0]) && filled_by(commands, outs[1]) && filled_by(
        commands,
        outs[2],
    ));
}

/// The gradients of the operands of a batch normalization are launched in order.
proof fn lemma_normalized<T>(
    graph: Graph<T>,
    before: Ledger<T>,
    i: usize,
    gradient: usize,
    values: Seq<usize>,
    statistics: (usize, usize),
)
    requires
        supplied(graph, before, i, gradient, values, statistics),
        graph.nodes@[i as int].op is BatchNorm2d,
    ensures
        well_ordered(graph, before, i, gradient, values, statistics),
{
    let nodes = graph.nodes@;
    let n = i as int;
    let made = made_for(graph, before, i);
    let outs = outs_for(graph, before, i);
    let commands = gradient_commands(nodes, n, gradient, values, outs, statistics);
    let need = needed(nodes, n);
    let to = receivers(nodes[n].op);
    let channels = nodes[n].shape@[1] as int;
    lemma_made(graph, before, i, gradient, values, statistics);
    lemma_first(commands);
    assert(shaped(nodes, graph.norms@, n));
    assert(ordered(nodes, n));
    assert(reaches(nodes, n, n));
    assert(fits_alone(nodes, n));
    assert(holds_so_many(made, gradient, numel(nodes[n].shape@) as int));
    assert(holds_so_many(made, statistics.0, channels));
    assert(holds_so_many(made, statistics.1, channels));
    assert(valued_well(graph, before, need[1], values[1]));
    assert(valued_well(graph, before, need[2], values[2]));
    assert(holds_so_many(made, values[1], numel(nodes[need[1] as int].shape@) as int));
    assert(holds_so_many(made, values[2], numel(nodes[need[2] as int].shape@) as int));
    assert(made.lens[outs[0] as int] == numel(nodes[to[0] as int].shape@));
    assert(made.lens[outs[1] as int] == numel(nodes[to[1] as int].shape@));
    assert(made.lens[outs[2] as int] == numel(nodes[to[2] as int].shape@));
    if let Op::BatchNorm2d { input, weight, bias, .. } = nodes[n].op {
        assert(need[1] == input && need[2] == weight);
        assert(to[0] == input && to[1] == weight && to[2] == bias);
        lemma_planes(nodes[n].shape@);
        lemma_numel_1(nodes[weight as int].shape@);
        lemma_numel_1(nodes[bias as int].shape@);
    }
    assert(writes(commands[0].0) =~= seq![outs[1], outs[2]]);
    assert(writes(commands[1].0) =~= seq![outs[0]]);
    assert(writes(commands[0].0)[0] == outs[1]);
    assert(writes(commands[0].0)[1] == outs[2]);
    assert(writes(commands[1].0)[0] == outs[0]);
    assert(writes(commands[0].0).contains(outs[1]) && writes(commands[0].0).contains(outs[2]));
    assert(written_before(commands, 1, outs[1]) && written_before(commands, 1, outs[2]));
    assert(!written_before(commands, 1, outs[0])) by {
        if written_before(commands, 1, outs[0]) {
            let m = choose|m: int|
                0 <= m < 1 && #[trigger] writes(commands[m].0).contains(outs[0]);
            assert(writes(commands[0].0).contains(outs[0]));
        }
    }
    assert(in_turn(made, commands, 0));
    assert(in_turn(made, commands, 1));
    assert(filled_by(commands, outs[0]) && filled_by(commands, outs[1]) && filled_by(
        commands,
        outs[2],
    ));
}

/// The gradients of the operands of a node are launched in order.
proof fn lemma_well_ordered<T>(
    graph: Graph<T>,
    before: Ledger<T>,
    i: usize,
    gradient: usize,
    values: Seq<usize>,
    statistics: (usize, usize),
)
    requires
        supplied(graph, before, i, gradient, values, statistics),
    ensures
        well_ordered(graph, before, i, gradient, values, statistics),
{
    match graph.nodes@[i as int].op {
        Op::Mul(_, _) => {
            lemma_pairs(graph, before, i, gradient, values, statistics);
        },
        Op::MatMul(_, _) => {
            lemma_pairs(graph, before, i, gradient, values, statistics);
        },
        Op::Relu(_) => {
            lemma_short_lists(graph, before, i, gradient, values, statistics);
        },
        Op::AvgPool2d { .. } => {
            lemma_short_lists(graph, before, i, gradient, values, statistics);
        },
        Op::CrossEntropy { .. } => {
            lemma_short_lists(graph, before, i, gradient, values, statistics);
        },
        Op::Conv2d { .. } => {
            lemma_convolved(graph, before, i, gradient, values, statistics);
        },
        Op::BatchNorm2d { .. } => {
            lemma_normalized(graph, before, i, gradient, values, statistics);
        },
        _ => {},
    }
}

/// What carrying a gradient needs can be evaluated.
proof fn lemma_needed<T>(graph: Graph<T>, i: usize, k: int)
    requires
        graph.wf(),
        i < graph.nodes@.len(),
        fits(graph.nodes@, i as int),
        squares(graph.nodes@, i as int),
        0 <= k < needed(graph.nodes@, i as int).len(),
    ensures
        ({
            let node = needed(graph.nodes@, i as int)[k];
            &&& node < graph.nodes@.len()
            &&& fits(graph.nodes@, node as int)
            &&& squares(graph.nodes@, node as int)
        }),
{
    let nodes = graph.nodes@;
    let n = i as int;
    let node = needed(nodes, n)[k];
    assert(ordered(nodes, n));
    if node != i {
        let j = if nodes[n].op is BatchNorm2d {
            k - 1
        } else {
            k
        };
        assert(operands(nodes[n].op)[j] == node);
        lemma_fits_operand(nodes, n, j);
        lemma_squares_operand(nodes, n, j);
    }
}

/// Carrying a gradient from a node to its operands is safe.
proof fn lemma_propagated<T>(graph: Graph<T>, ledger: Ledger<T>, i: usize, gradient: usize)
    requires
        graph.wf(),
        i < graph.nodes@.len(),
        fits(graph.nodes@, i as int),
        squares(graph.nodes@, i as int),
        safe(ledger),
        remembered(graph, ledger),
        valued_well(graph, ledger, i, gradient),
        propagated(graph.nodes@, ledger, i as int, gradient).ledger.lens.len() <= usize::MAX,
    ensures
        ({
            let done = propagated(graph.nodes@, ledger, i as int, gradient);
            &&& safe(done.ledger)
            &&& remembered(graph, done.ledger)
            &&& lengthens(ledger, done.ledger)
        }),
{
    let nodes = graph.nodes@;
    let n = i as int;
    let list = needed(nodes, n);
    let end = propagated(nodes, ledger, n, gradient);
    assert forall|k: int| 0 <= k < list.len() implies {
        &&& (#[trigger] list[k]) < nodes.len()
        &&& fits(nodes, list[k] as int)
        &&& squares(nodes, list[k] as int)
    } by {
        lemma_needed(graph, i, k);
    }
    lemma_propagated_lengthens(graph, ledger, i, gradient);
    let (before, result) = list_evaluated(nodes, ledger, list, seq![]);
    assert(list =~= list.skip(0));
    lemma_list(graph, ledger, list, list, seq![]);
    if let Ok(values) = result {
        if !(nodes[n].op is BatchNorm2d && !before.statistics.contains_key(i)) {
            let statistics = before.statistics[i];
            let made = made_for(graph, before, i);
            let outs = outs_for(graph, before, i);
            let commands = gradient_commands(nodes, n, gradient, values, outs, statistics);
            let done = series(made, commands);
            lemma_held(ledger, before, gradient, numel(nodes[n].shape@) as int);
            if nodes[n].op is BatchNorm2d {
                assert(measured_well(graph, before, i));
            }
            assert(ordered(nodes, n));
            let to = receivers(nodes[n].op);
            let shares = gradient_shares(nodes[n].op, gradient, outs);
            if hands_on(nodes[n].op) {
                assert(made.lens =~= before.lens);
                assert(made == before);
                assert(commands =~= seq![]);
                assert(done.ledger == before);
                assert(shaped(nodes, graph.norms@, n));
                assert forall|k: int| 0 <= k < shares.len() implies {
                    &&& valued_well(graph, done.ledger, (#[trigger] shares[k]).0, shares[k].1)
                    &&& numel(nodes[shares[k].0 as int].shape@) <= usize::MAX
                } by {
                    assert(to[k] == operands(nodes[n].op)[k]);
                    lemma_fits_operand(nodes, n, k);
                    assert(reaches(nodes, to[k] as int, to[k] as int));
                    assert(fits_alone(nodes, to[k] as int));
                }
                lemma_spread(graph, done.ledger, shares);
                lemma_lengthens(ledger, before, end.ledger);
            } else {
                assert(supplied(graph, before, i, gradient, values, statistics));
                lemma_made(graph, before, i, gradient, values, statistics);
                lemma_well_ordered(graph, before, i, gradient, values, statistics);
                lemma_series(made, commands);
                lemma_lengthens(before, made, done.ledger);
                lemma_lengthens(ledger, before, done.ledger);
                lemma_remembered_stays(graph, before, done.ledger);
                if done.result is Ok {
                    assert forall|k: int| 0 <= k < shares.len() implies {
                        &&& valued_well(graph, done.ledger, (#[trigger] shares[k]).0, shares[k].1)
                        &&& numel(nodes[shares[k].0 as int].shape@) <= usize::MAX
                    } by {
                        let out = outs[k];
                        assert(filled_by(commands, out));
                        let (m, j) = choose|m: int, j: int|
                            0 <= m < commands.len() && 0 <= j < writes(commands[m].0).len()
                                && #[trigger] writes(commands[m].0)[j] == out;
                        assert(written(
                            done.ledger.log,
                            done.ledger.log.len() as int,
                            writes(commands[m].0)[j],
                        ));
                    }
                    lemma_spread(graph, done.ledger, shares);
                    lemma_lengthens(ledger, done.ledger, end.ledger);
                }
            }
        }
    }
}

/// Giving commands makes no buffers.
proof fn lemma_series_lengthens<T>(ledger: Ledger<T>, commands: Series<T>)
    ensures
        series(ledger, commands).ledger.lens == ledger.lens,
    decreases commands.len(),
{
    if commands.len() > 0 {
        if let Ok(grid) = commands[0].1 {
            lemma_series_lengthens(
                ledger.given(commands[0].0, Some(grid)),
                commands.drop_first(),
            );
        }
    }
}

/// Carrying a gradient makes no buffer less at any point than at its end.
proof fn lemma_propagated_lengthens<T>(
    graph: Graph<T>,
    ledger: Ledger<T>,
    i: usize,
    gradient: usize,
)
    requires
        graph.wf(),
        i < graph.nodes@.len(),
        fits(graph.nodes@, i as int),
        squares(graph.nodes@, i as int),
    ensures
        ({
            let nodes = graph.nodes@;
            let end = propagated(nodes, ledger, i as int, gradient).ledger.lens.len();
            let (before, result) = list_evaluated(nodes, ledger, needed(nodes, i as int), seq![]);
            &&& ledger.lens.len() <= before.lens.len() <= end
            &&& result is Ok && !(nodes[i as int].op is BatchNorm2d
                && !before.statistics.contains_key(i)) ==> made_for(graph, before, i).lens.len()
                <= end
        }),
{
    let nodes = graph.nodes@;
    let n = i as int;
    assert forall|k: int| 0 <= k < needed(nodes, n).len() implies (#[trigger] needed(nodes, n)[k])
        < nodes.len() by {
        lemma_needed(graph, i, k);
    }
    lemma_list_lengthens(graph, ledger, needed(nodes, n), seq![]);
    let (before, result) = list_evaluated(nodes, ledger, needed(nodes, n), seq![]);
    if let Ok(values) = result {
        let made = made_for(graph, before, i);
        let outs = outs_for(graph, before, i);
        let commands = gradient_commands(
            nodes,
            n,
            gradient,
            values,
            outs,
            before.statistics[i],
        );
        lemma_series_lengthens(made, commands);
        let done = series(made, commands);
        lemma_spread_lengthens(
            graph,
            done.ledger,
            gradient_shares(nodes[n].op, gradient, outs),
        );
    }
}

/// All that a node is computed from can be evaluated.
proof fn lemma_reached<T>(nodes: Seq<Node<T>>, i: int, j: int)
    requires
        fits(nodes, i),
        squares(nodes, i),
        reaches(nodes, i, j),
    ensures
        fits(nodes, j),
        squares(nodes, j),
{
    assert forall|k: int| #[trigger] reaches(nodes, j, k) implies fits_alone(nodes, k) by {
        lemma_reaches_transitive(nodes, i, j, k);
    }
    assert forall|k: int| #[trigger] reaches(nodes, j, k) implies (
    nodes[k].op matches Op::Conv2d { weight, .. } ==> nodes[weight as int].shape@[2]
        == nodes[weight as int].shape@[3]) by {
        lemma_reaches_transitive(nodes, i, j, k);
    }
}

/// The nodes of a list can be evaluated.
pub open spec fn manageable<T>(graph: Graph<T>, order: Seq<usize>) -> bool {
    forall|k: int|
        0 <= k < order.len() ==> {
            &&& (#[trigger] order[k]) < graph.nodes@.len()
            &&& fits(graph.nodes@, order[k] as int)
            &&& squares(graph.nodes@, order[k] as int)
        }
}

proof fn lemma_swept_lengthens<T>(graph: Graph<T>, ledger: Ledger<T>, order: Seq<usize>)
    requires
        graph.wf(),
        manageable(graph, order),
    ensures
        ledger.lens.len() <= swept(graph.nodes@, ledger, order).ledger.lens.len(),
    decreases order.len(),
{
    if order.len() > 0 {
        let node = order.last();
        let rest = order.drop_last();
        if ledger.gradients.contains_key(node) {
            let done = propagated(graph.nodes@, ledger, node as int, ledger.gradients[node]);
            lemma_propagated_lengthens(graph, ledger, node, ledger.gradients[node]);
            if done.result is Ok {
                lemma_swept_lengthens(graph, done.ledger, rest);
            }
        } else {
            lemma_swept_lengthens(graph, ledger, rest);
        }
    }
}

/// Carrying gradients through a list of nodes is safe.
proof fn lemma_swept<T>(graph: Graph<T>, ledger: Ledger<T>, order: Seq<usize>)
    requires
        graph.wf(),
        safe(ledger),
        remembered(graph, ledger),
        manageable(graph, order),
        swept(graph.nodes@, ledger, order).ledger.lens.len() <= usize::MAX,
    ensures
        ({
            let done = swept(graph.nodes@, ledger, order);
            &&& safe(done.ledger)
            &&& remembered(graph, done.ledger)
            &&& lengthens(ledger, done.ledger)
        }),
    decreases order.len(),
{
    if order.len() > 0 {
        let node = order.last();
        let rest = order.drop_last();
        assert(node == order[order.len() - 1]);
        if ledger.gradients.contains_key(node) {
            let gradient = ledger.gradients[node];
            let done = propagated(graph.nodes@, ledger, node as int, gradient);
            assert(valued_well(graph, ledger, node, gradient));
            if done.result is Ok {
                lemma_swept_lengthens(graph, done.ledger, rest);
                lemma_propagated(graph, ledger, node, gradient);
                lemma_swept(graph, done.ledger, rest);
                lemma_lengthens(
                    ledger,
                    done.ledger,
                    swept(graph.nodes@, ledger, order).ledger,
                );
            } else {
                lemma_propagated(graph, ledger, node, gradient);
            }
        } else {
            lemma_swept(graph, ledger, rest);
        }
    }
}

/// Differentiating a scalar launches safely too: every launch reads buffers that were
/// written before it, writes buffers of its own, and finds all of them of the lengths that
/// its kernel asks for, with a thread for every element that it writes.
pub proof fn gradient_launches_are_safe<T>(graph: Graph<T>, ledger: Ledger<T>, i: usize)
    requires
        graph.wf(),
        i < graph.nodes@.len(),
        numel(graph.nodes@[i as int].shape@) == 1,
        fits(graph.nodes@, i as int),
        squares(graph.nodes@, i as int),
        safe(ledger),
        remembered(graph, ledger),
        differentiated(graph.nodes@, ledger, i as int).ledger.lens.len() <= usize::MAX,
    ensures
        ({
            let done = differentiated(graph.nodes@, ledger, i as int);
            &&& safe(done.ledger)
            &&& remembered(graph, done.ledger)
            &&& lengthens(ledger, done.ledger)
        }),
{
    let nodes = graph.nodes@;
    let order = visited(nodes, seq![], i as int);
    let start = forgetting(ledger, order);
    lemma_more_buffers(ledger, start);
    lemma_remembered_stays(graph, ledger, start);
    let done = evaluated(nodes, start, i as int);
    order_is_topological(graph, i);
    assert(manageable(graph, order)) by {
        assert forall|k: int| 0 <= k < order.len() implies {
            &&& (#[trigger] order[k]) < nodes.len()
            &&& fits(nodes, order[k] as int)
            &&& squares(nodes, order[k] as int)
        } by {
            assert(order.contains(order[k]));
            lemma_reaches_below(nodes, i as int, order[k] as int);
            lemma_reached(nodes, i as int, order[k] as int);
        }
    }
    if done.result is Ok {
        let seeded = Ledger {
            gradients: done.ledger.gradients.insert(i, done.ledger.root),
            ..done.ledger
        };
        lemma_swept_lengthens(graph, seeded, order);
        launches_are_safe(graph, start, i);
        lemma_more_buffers(done.ledger, seeded);
        lemma_held(done.ledger, seeded, done.ledger.root, 1);
        assert(valued_well(graph, seeded, i, seeded.root));
        lemma_remembered_stays(graph, done.ledger, seeded);
        lemma_swept(graph, seeded, order);
        let end = differentiated(nodes, ledger, i as int).ledger;
        lemma_lengthens(ledger, start, done.ledger);
        lemma_lengthens(ledger, done.ledger, seeded);
        lemma_lengthens(ledger, seeded, end);
    } else {
        launches_are_safe(graph, start, i);
        lemma_lengthens(ledger, start, done.ledger);
    }
}

} // verus!

//! Gradients on a device: which commands carry a gradient from a node to its operands.

use crate::cuda::command::Command;
use crate::cuda::executor::{
    conv_geometry, elements, evaluated, launchable, launchable_alone, lemma_launchable_operand,
    passes, pool_geometry, Executor, Ledger, Passed,
};
use crate::cuda::launch::{
    grid_of, launch_config, tiled_grid, tiled_launch_config, tiled_launch_config_with_tile, Grid,
    GRADIENT_TILE, TILE,
};
use crate::error::{Error, Failure, Result};
use crate::forward::Convolution;
use crate::graph::{
    convolution, fits, fits_alone, lemma_fits_operand, operand_list, operands, ordered, planes_of,
    pooling, reaches, shaped, Graph, Node, Op,
};
use crate::norm::Planes;
use crate::scalar::Scalar;
use crate::shape::{count, numel};
use vstd::prelude::*;

verus! {

broadcast use vstd::std_specs::hash::group_hash_axioms;

/// A gradient added to the gradient that a node has.
pub open spec fn accumulated<T>(nodes: Seq<Node<T>>, ledger: Ledger<T>, node: usize, incoming: usize) -> Passed<
    T,
> {
    if ledger.gradients.contains_key(node) {
        let current = ledger.gradients[node];
        let without = Ledger { gradients: ledger.gradients.remove(node), ..ledger };
        let len = elements(nodes, node as int);
        let out = without.next();
        let done = without.launched(
            len,
            grid_of(len as nat),
            Command::Accumulate { left: current, right: incoming, out },
        );
        match done.result {
            Ok(out) => Passed {
                ledger: Ledger {
                    gradients: done.ledger.gradients.insert(node, out),
                    ..done.ledger
                },
                result: Ok(()),
            },
            Err(failure) => Passed { ledger: done.ledger, result: Err(failure) },
        }
    } else {
        Passed {
            ledger: Ledger { gradients: ledger.gradients.insert(node, incoming), ..ledger },
            result: Ok(()),
        }
    }
}

/// Gradients added to the gradients of several nodes, one after the other, up to the
/// first that fails.
pub open spec fn spread<T>(nodes: Seq<Node<T>>, ledger: Ledger<T>, shares: Seq<(usize, usize)>) -> Passed<
    T,
>
    decreases shares.len(),
{
    if shares.len() == 0 {
        Passed { ledger, result: Ok(()) }
    } else {
        let done = accumulated(nodes, ledger, shares[0].0, shares[0].1);
        match done.result {
            Err(_) => done,
            Ok(_) => spread(nodes, done.ledger, shares.drop_first()),
        }
    }
}

/// Nodes evaluated one after the other, up to the first that fails; `found` holds the
/// buffers of those before.
pub open spec fn list_evaluated<T>(
    nodes: Seq<Node<T>>,
    ledger: Ledger<T>,
    list: Seq<usize>,
    found: Seq<usize>,
) -> (Ledger<T>, std::result::Result<Seq<usize>, Failure>)
    decreases list.len(),
{
    if list.len() == 0 {
        (ledger, Ok(found))
    } else {
        let done = evaluated(nodes, ledger, list[0] as int);
        match done.result {
            Err(failure) => (done.ledger, Err(failure)),
            Ok(buffer) => list_evaluated(nodes, done.ledger, list.drop_first(), found.push(buffer)),
        }
    }
}

/// Commands given one after the other, up to the first that has no grid.
pub open spec fn series<T>(
    ledger: Ledger<T>,
    commands: Seq<(Command<T>, std::result::Result<Grid, Failure>)>,
) -> Passed<T>
    decreases commands.len(),
{
    if commands.len() == 0 {
        Passed { ledger, result: Ok(()) }
    } else {
        match commands[0].1 {
            Err(failure) => Passed { ledger, result: Err(failure) },
            Ok(grid) => series(ledger.given(commands[0].0, Some(grid)), commands.drop_first()),
        }
    }
}

/// With buffers more, of the given lengths.
pub open spec fn allocated<T>(ledger: Ledger<T>, lens: Seq<usize>) -> Ledger<T> {
    Ledger { lens: ledger.lens + lens, ..ledger }
}

/// The numbers of `n` new buffers.
pub open spec fn numbered(next: usize, n: nat) -> Seq<usize> {
    Seq::new(n, |k: int| (next + k) as usize)
}

/// The nodes whose values carrying a gradient needs.
pub open spec fn needed<T>(nodes: Seq<Node<T>>, i: int) -> Seq<usize> {
    match nodes[i].op {
        Op::Mul(left, right) => seq![left, right],
        Op::MatMul(left, right) => seq![left, right],
        Op::Relu(input) => seq![input],
        Op::Conv2d { input, weight, .. } => seq![input, weight],
        Op::CrossEntropy { logits, targets } => seq![logits, targets],
        Op::BatchNorm2d { input, weight, .. } => seq![i as usize, input, weight],
        _ => seq![],
    }
}

/// The nodes to which a gradient is carried, in order.
pub open spec fn receivers<T>(op: Op<T>) -> Seq<usize> {
    match op {
        Op::CrossEntropy { logits, .. } => seq![logits],
        _ => operands(op),
    }
}

/// The gradient of the node is the gradient of its operands.
pub open spec fn hands_on<T>(op: Op<T>) -> bool {
    op is Add || op is Reshape
}

/// The lengths of the gradients that are computed.
pub open spec fn gradient_lens<T>(nodes: Seq<Node<T>>, i: int) -> Seq<usize> {
    if hands_on(nodes[i].op) {
        seq![]
    } else {
        receivers(nodes[i].op).map_values(|node: usize| elements(nodes, node as int))
    }
}

/// The receivers with their gradients.
pub open spec fn gradient_shares<T>(op: Op<T>, gradient: usize, outs: Seq<usize>) -> Seq<
    (usize, usize),
> {
    let nodes = receivers(op);
    Seq::new(
        nodes.len(),
        |k: int|
            (
                nodes[k],
                if hands_on(op) {
                    gradient
                } else {
                    outs[k]
                },
            ),
    )
}

/// The commands that compute the gradients of the operands of a node, in `outs`, from
/// its own and the values of the nodes that are needed.
pub open spec fn gradient_commands<T>(
    nodes: Seq<Node<T>>,
    i: int,
    gradient: usize,
    values: Seq<usize>,
    outs: Seq<usize>,
    statistics: (usize, usize),
) -> Seq<(Command<T>, std::result::Result<Grid, Failure>)> {
    let lens = gradient_lens(nodes, i);
    match nodes[i].op {
        Op::Mul(_, _) => seq![
            (Command::MulBackward { gradient, other: values[1], out: outs[0] }, grid_of(lens[0] as nat)),
            (Command::MulBackward { gradient, other: values[0], out: outs[1] }, grid_of(lens[1] as nat)),
        ],
        Op::Relu(_) => seq![
            (
                Command::ReluBackward { gradient, input: values[0], out: outs[0] },
                grid_of(lens[0] as nat),
            ),
        ],
        Op::MatMul(left, right) => matmul_commands(
            nodes[left as int].shape@[0],
            nodes[left as int].shape@[1],
            nodes[right as int].shape@[1],
            gradient,
            values,
            outs,
            lens,
        ),
        Op::Conv2d { input, weight, bias, stride, padding, groups } => conv2d_commands(
            nodes[input as int].shape@,
            nodes[weight as int].shape@,
            convolution(nodes, input as int, weight as int, stride, padding, groups),
            gradient,
            values,
            outs,
            lens[2],
        ),
        Op::AvgPool2d { input, kernel, stride } => seq![
            (
                Command::AvgPool2dBackward {
                    gradient,
                    out: outs[0],
                    geometry: pooling(nodes, input as int, kernel, stride),
                },
                grid_of(lens[0] as nat),
            ),
        ],
        Op::CrossEntropy { logits, .. } => seq![
            (
                Command::CrossEntropyBackward {
                    logits: values[0],
                    targets: values[1],
                    gradient,
                    out: outs[0],
                    batch: nodes[logits as int].shape@[0],
                    classes: nodes[logits as int].shape@[1],
                },
                grid_of(lens[0] as nat),
            ),
        ],
        Op::BatchNorm2d { input, training, .. } => batch_norm_commands(
            planes_of(nodes[input as int].shape@),
            training,
            gradient,
            values,
            outs,
            statistics,
            lens[0],
        ),
        _ => seq![],
    }
}

/// The gradients of a matrix product.
pub open spec fn matmul_commands<T>(
    rows: usize,
    inner: usize,
    columns: usize,
    gradient: usize,
    values: Seq<usize>,
    outs: Seq<usize>,
    lens: Seq<usize>,
) -> Seq<(Command<T>, std::result::Result<Grid, Failure>)> {
    seq![
        (
            Command::MatMulLeftBackward {
                gradient,
                right: values[1],
                out: outs[0],
                rows,
                inner,
                columns,
            },
            grid_of(lens[0] as nat),
        ),
        (
            Command::MatMulRightBackward {
                gradient,
                left: values[0],
                out: outs[1],
                rows,
                inner,
                columns,
            },
            grid_of(lens[1] as nat),
        ),
    ]
}

/// The gradients of a convolution.
pub open spec fn conv2d_commands<T>(
    x: Seq<usize>,
    w: Seq<usize>,
    geometry: Convolution,
    gradient: usize,
    values: Seq<usize>,
    outs: Seq<usize>,
    bias_len: usize,
) -> Seq<(Command<T>, std::result::Result<Grid, Failure>)> {
    seq![
        (
            Command::Conv2dInputBackward { gradient, weight: values[1], out: outs[0], geometry },
            tiled_grid((x[0] * x[1]) as nat, (x[2] * x[3]) as nat, TILE as nat),
        ),
        (
            Command::Conv2dWeightBackward { gradient, input: values[0], out: outs[1], geometry },
            tiled_grid(w[0] as nat, (w[1] * w[2] * w[3]) as nat, GRADIENT_TILE as nat),
        ),
        (
            Command::Conv2dBiasBackward { gradient, out: outs[2], geometry },
            grid_of(bias_len as nat),
        ),
    ]
}

/// The gradients of a batch normalization: those of its weight and bias first, which
/// the gradient of its input is computed from.
pub open spec fn batch_norm_commands<T>(
    planes: Planes,
    training: bool,
    gradient: usize,
    values: Seq<usize>,
    outs: Seq<usize>,
    statistics: (usize, usize),
    len: usize,
) -> Seq<(Command<T>, std::result::Result<Grid, Failure>)> {
    seq![
        (
            Command::BatchNormAffineBackward {
                gradient,
                input: values[1],
                mean: statistics.0,
                inverse: statistics.1,
                weight_gradient: outs[1],
                bias_gradient: outs[2],
                planes,
            },
            grid_of(planes.channels as nat),
        ),
        (
            Command::BatchNormInputBackward {
                gradient,
                input: values[1],
                weight: values[2],
                mean: statistics.0,
                inverse: statistics.1,
                weight_gradient: outs[1],
                bias_gradient: outs[2],
                out: outs[0],
                planes,
                training,
            },
            grid_of(len as nat),
        ),
    ]
}

/// The gradient of a node carried to its operands: what is needed is evaluated, buffers
/// are made, commands fill them, and what they hold is added to the gradients.
pub open spec fn propagated<T>(nodes: Seq<Node<T>>, ledger: Ledger<T>, i: int, gradient: usize) -> Passed<
    T,
> {
    let (ready, result) = list_evaluated(nodes, ledger, needed(nodes, i), seq![]);
    match result {
        Err(failure) => Passed { ledger: ready, result: Err(failure) },
        Ok(values) => if nodes[i].op is BatchNorm2d && !ready.statistics.contains_key(i as usize) {
            Passed {
                ledger: ready,
                result: Err(Failure::Execution("missing BatchNorm CUDA statistics"@)),
            }
        } else {
            let lens = gradient_lens(nodes, i);
            let outs = numbered(ready.next(), lens.len());
            let done = series(
                allocated(ready, lens),
                gradient_commands(
                    nodes,
                    i,
                    gradient,
                    values,
                    outs,
                    ready.statistics[i as usize],
                ),
            );
            match done.result {
                Err(_) => done,
                Ok(_) => spread(
                    nodes,
                    done.ledger,
                    gradient_shares(nodes[i].op, gradient, outs),
                ),
            }
        },
    }
}

/// Commands with their grids, as a plan has them.
pub open spec fn listed<T>(commands: Seq<(Command<T>, Result<Grid>)>) -> Seq<
    (Command<T>, std::result::Result<Grid, Failure>),
> {
    commands.map_values(
        |entry: (Command<T>, Result<Grid>)|
            (
                entry.0,
                match entry.1 {
                    Ok(grid) => std::result::Result::<Grid, Failure>::Ok(grid),
                    Err(error) => std::result::Result::<Grid, Failure>::Err(error@),
                },
            ),
    )
}

/// The list of nodes whose values carrying a gradient needs.
fn needed_list<T>(graph: &Graph<T>, i: usize) -> (r: Vec<usize>)
    requires
        i < graph.nodes@.len(),
    ensures
        r@ == needed(graph.nodes@, i as int),
{
    let mut r: Vec<usize> = Vec::new();
    match &graph.nodes[i].op {
        Op::Mul(left, right) => {
            r.push(*left);
            r.push(*right);
        },
        Op::MatMul(left, right) => {
            r.push(*left);
            r.push(*right);
        },
        Op::Relu(input) => {
            r.push(*input);
        },
        Op::Conv2d { input, weight, .. } => {
            r.push(*input);
            r.push(*weight);
        },
        Op::CrossEntropy { logits, targets } => {
            r.push(*logits);
            r.push(*targets);
        },
        Op::BatchNorm2d { input, weight, .. } => {
            r.push(i);
            r.push(*input);
            r.push(*weight);
        },
        _ => {},
    }
    assert(r@ =~= needed(graph.nodes@, i as int));
    r
}

/// The list of nodes to which a gradient is carried.
fn receiver_list<T>(op: &Op<T>) -> (r: Vec<usize>)
    ensures
        r@ == receivers(*op),
{
    match op {
        Op::CrossEntropy { logits, .. } => {
            let mut r: Vec<usize> = Vec::new();
            r.push(*logits);
            assert(r@ =~= receivers(*op));
            r
        },
        _ => operand_list(op),
    }
}

/// Whether the gradient of the node is the gradient of its operands.
fn passes_on<T>(op: &Op<T>) -> (r: bool)
    ensures
        r == hands_on(*op),
{
    matches!(op, Op::Add(_, _) | Op::Reshape(_))
}

impl<T: Scalar> Executor<T> {
    /// Evaluates nodes one after the other.
    fn eval_list(&mut self, graph: &Graph<T>, list: &Vec<usize>) -> (r: Result<Vec<usize>>)
        requires
            graph.wf(),
            forall|k: int|
                0 <= k < list@.len() ==> {
                    &&& (#[trigger] list@[k]) < graph.nodes@.len()
                    &&& fits(graph.nodes@, list@[k] as int)
                    &&& launchable(graph.nodes@, list@[k] as int)
                },
        ensures
            ({
                let (ledger, result) = list_evaluated(graph.nodes@, old(self)@, list@, seq![]);
                &&& final(self)@ == ledger
                &&& match r {
                    Ok(found) => {
                        &&& result == std::result::Result::<Seq<usize>, Failure>::Ok(found@)
                        &&& found@.len() == list@.len()
                    },
                    Err(error) => result == std::result::Result::<Seq<usize>, Failure>::Err(error@),
                }
            }),
    {
        let ghost nodes = graph.nodes@;
        let ghost start = self@;
        let mut found: Vec<usize> = Vec::new();
        let mut k: usize = 0;
        assert(list@.skip(0) =~= list@);
        assert(found@ =~= seq![]);
        while k < list.len()
            invariant
                k <= list.len(),
                nodes == graph.nodes@,
                graph.wf(),
                start == old(self)@,
                forall|k: int|
                    0 <= k < list@.len() ==> {
                        &&& (#[trigger] list@[k]) < nodes.len()
                        &&& fits(nodes, list@[k] as int)
                        &&& launchable(nodes, list@[k] as int)
                    },
                found@.len() == k,
                list_evaluated(nodes, start, list@, seq![]) == list_evaluated(
                    nodes,
                    self@,
                    list@.skip(k as int),
                    found@,
                ),
            decreases list.len() - k,
        {
            let ghost rest = list@.skip(k as int);
            assert(rest[0] == list@[k as int]);
            assert(rest.drop_first() =~= list@.skip(k + 1));
            let buffer: usize = self.eval_node(graph, list[k])?;
            found.push(buffer);
            k = k + 1;
        }
        Ok(found)
    }

    /// Makes buffers of the given lengths.
    fn output_buffers(&mut self, lens: &Vec<usize>) -> (r: Vec<usize>)
        ensures
            final(self)@ == allocated(old(self)@, lens@),
            r@ == numbered(old(self)@.next(), lens@.len()),
    {
        let ghost start = self@;
        let mut r: Vec<usize> = Vec::new();
        let mut k: usize = 0;
        assert(allocated(start, lens@.take(0)) =~= start);
        while k < lens.len()
            invariant
                k <= lens.len(),
                start == old(self)@,
                self@ == allocated(start, lens@.take(k as int)),
                r@.len() == k,
                k > 0 ==> start.lens.len() <= usize::MAX,
                forall|j: int| 0 <= j < k ==> #[trigger] r@[j] == start.lens.len() + j,
            decreases lens.len() - k,
        {
            let buffer: usize = self.output_buffer(lens[k]);
            r.push(buffer);
            assert(lens@.take(k + 1) =~= lens@.take(k as int).push(lens@[k as int]));
            assert(self@ =~= allocated(start, lens@.take(k + 1)));
            k = k + 1;
        }
        assert(lens@.take(lens@.len() as int) =~= lens@);
        assert forall|j: int| 0 <= j < lens@.len() implies r@[j] == numbered(
            start.next(),
            lens@.len(),
        )[j] by {
            assert(r@[j] == start.lens.len() + j);
        }
        assert(r@ =~= numbered(start.next(), lens@.len()));
        r
    }

    /// Gives commands one after the other.
    fn give_all(&mut self, commands: Vec<(Command<T>, Result<Grid>)>) -> (r: Result<()>)
        ensures
            passes(final(self)@, r, series(old(self)@, listed(commands@))),
    {
        let ghost start = self@;
        let ghost all = listed(commands@);
        let mut left = commands;
        while left.len() > 0
            invariant
                start == old(self)@,
                all == listed(commands@),
                series(start, all) == series(self@, listed(left@)),
            decreases left.len(),
        {
            let ghost before = left@;
            let (command, grid) = left.remove(0);
            assert(listed(before)[0].0 == command);
            assert(listed(before).drop_first() =~= listed(left@));
            let grid = grid?;
            self.give(command, Some(grid));
        }
        Ok(())
    }

    /// Adds a gradient to the gradient that a node has.
    pub fn accumulate_gradient(&mut self, graph: &Graph<T>, node: usize, incoming: usize) -> (r:
        Result<()>)
        requires
            node < graph.nodes@.len(),
            numel(graph.nodes@[node as int].shape@) <= usize::MAX,
        ensures
            passes(final(self)@, r, accumulated(graph.nodes@, old(self)@, node, incoming)),
    {
        let ghost start = self@;
        match self.gradients.remove(&node) {
            Some(current) => {
                let len: usize = count(&graph.nodes[node].shape);
                let out: usize = self.output_buffer(len);
                let grid = launch_config(len)?;
                self.give(Command::Accumulate { left: current, right: incoming, out }, Some(grid));
                self.gradients.insert(node, out);
            },
            None => {
                assert(start.gradients.remove(node) =~= start.gradients);
                self.gradients.insert(node, incoming);
            },
        }
        Ok(())
    }

    /// Adds gradients to the gradients of nodes, one after the other.
    fn accumulate_all(&mut self, graph: &Graph<T>, shares: &Vec<(usize, usize)>) -> (r: Result<()>)
        requires
            forall|k: int|
                0 <= k < shares@.len() ==> {
                    &&& (#[trigger] shares@[k]).0 < graph.nodes@.len()
                    &&& numel(graph.nodes@[shares@[k].0 as int].shape@) <= usize::MAX
                },
        ensures
            passes(final(self)@, r, spread(graph.nodes@, old(self)@, shares@)),
    {
        let ghost nodes = graph.nodes@;
        let ghost start = self@;
        let mut k: usize = 0;
        assert(shares@.skip(0) =~= shares@);
        while k < shares.len()
            invariant
                k <= shares.len(),
                nodes == graph.nodes@,
                start == old(self)@,
                forall|k: int|
                    0 <= k < shares@.len() ==> {
                        &&& (#[trigger] shares@[k]).0 < nodes.len()
                        &&& numel(nodes[shares@[k].0 as int].shape@) <= usize::MAX
                    },
                spread(nodes, start, shares@) == spread(nodes, self@, shares@.skip(k as int)),
            decreases shares.len() - k,
        {
            let (node, buffer) = shares[k];
            assert(shares@[k as int].0 < nodes.len());
            let ghost rest = shares@.skip(k as int);
            assert(rest[0] == shares@[k as int]);
            assert(rest.drop_first() =~= shares@.skip(k + 1));
            self.accumulate_gradient(graph, node, buffer)?;
            k = k + 1;
        }
        Ok(())
    }
}

/// The commands for the gradients of a matrix product.
fn backward_matmul<T>(
    graph: &Graph<T>,
    left: usize,
    right: usize,
    gradient: usize,
    values: &Vec<usize>,
    outs: &Vec<usize>,
    lens: &Vec<usize>,
) -> (r: Vec<(Command<T>, Result<Grid>)>)
    requires
        left < graph.nodes@.len(),
        right < graph.nodes@.len(),
        graph.nodes@[left as int].shape@.len() == 2,
        graph.nodes@[right as int].shape@.len() == 2,
        values@.len() == 2,
        outs@.len() == 2,
        lens@.len() == 2,
    ensures
        listed(r@) == matmul_commands::<T>(
            graph.nodes@[left as int].shape@[0],
            graph.nodes@[left as int].shape@[1],
            graph.nodes@[right as int].shape@[1],
            gradient,
            values@,
            outs@,
            lens@,
        ),
{
    let rows: usize = graph.nodes[left].shape[0];
    let inner: usize = graph.nodes[left].shape[1];
    let columns: usize = graph.nodes[right].shape[1];
    let mut r: Vec<(Command<T>, Result<Grid>)> = Vec::new();
    r.push(
        (
            Command::MatMulLeftBackward {
                gradient,
                right: values[1],
                out: outs[0],
                rows,
                inner,
                columns,
            },
            launch_config(lens[0]),
        ),
    );
    r.push(
        (
            Command::MatMulRightBackward {
                gradient,
                left: values[0],
                out: outs[1],
                rows,
                inner,
                columns,
            },
            launch_config(lens[1]),
        ),
    );
    assert(listed(r@) =~= matmul_commands::<T>(rows, inner, columns, gradient, values@, outs@, lens@));
    r
}

/// The commands for the gradients of a convolution.
fn backward_conv2d<T>(
    graph: &Graph<T>,
    input: usize,
    weight: usize,
    stride: usize,
    padding: usize,
    groups: usize,
    gradient: usize,
    values: &Vec<usize>,
    outs: &Vec<usize>,
    bias_len: usize,
) -> (r: Vec<(Command<T>, Result<Grid>)>)
    requires
        input < graph.nodes@.len(),
        weight < graph.nodes@.len(),
        graph.nodes@[input as int].shape@.len() == 4,
        graph.nodes@[weight as int].shape@.len() == 4,
        ({
            let (x, w) = (graph.nodes@[input as int].shape@, graph.nodes@[weight as int].shape@);
            &&& x[0] * x[1] <= usize::MAX
            &&& x[2] * x[3] <= usize::MAX
            &&& w[1] * w[2] <= usize::MAX
            &&& w[1] * w[2] * w[3] <= usize::MAX
        }),
        values@.len() == 2,
        outs@.len() == 3,
    ensures
        listed(r@) == conv2d_commands::<T>(
            graph.nodes@[input as int].shape@,
            graph.nodes@[weight as int].shape@,
            convolution(graph.nodes@, input as int, weight as int, stride, padding, groups),
            gradient,
            values@,
            outs@,
            bias_len,
        ),
{
    let geometry = conv_geometry(graph, input, weight, stride, padding, groups);
    let x = &graph.nodes[input].shape;
    let w = &graph.nodes[weight].shape;
    let mut r: Vec<(Command<T>, Result<Grid>)> = Vec::new();
    r.push(
        (
            Command::Conv2dInputBackward { gradient, weight: values[1], out: outs[0], geometry },
            tiled_launch_config(x[0] * x[1], x[2] * x[3]),
        ),
    );
    r.push(
        (
            Command::Conv2dWeightBackward { gradient, input: values[0], out: outs[1], geometry },
            tiled_launch_config_with_tile(w[0], w[1] * w[2] * w[3], GRADIENT_TILE),
        ),
    );
    r.push(
        (
            Command::Conv2dBiasBackward { gradient, out: outs[2], geometry },
            launch_config(bias_len),
        ),
    );
    assert(listed(r@) =~= conv2d_commands::<T>(
        x@,
        w@,
        geometry,
        gradient,
        values@,
        outs@,
        bias_len,
    ));
    r
}

/// The commands for the gradient of an average pool.
fn backward_avg_pool<T>(
    graph: &Graph<T>,
    input: usize,
    kernel: [usize; 2],
    stride: [usize; 2],
    gradient: usize,
    out: usize,
    len: usize,
) -> (r: (Command<T>, Result<Grid>))
    requires
        input < graph.nodes@.len(),
        graph.nodes@[input as int].shape@.len() == 4,
    ensures
        listed(seq![r]) == seq![
            (
                Command::<T>::AvgPool2dBackward {
                    gradient,
                    out,
                    geometry: pooling(graph.nodes@, input as int, kernel, stride),
                },
                grid_of(len as nat),
            ),
        ],
{
    (
        Command::AvgPool2dBackward {
            gradient,
            out,
            geometry: pool_geometry(graph, input, kernel, stride),
        },
        launch_config(len),
    )
}

/// The commands for the gradients of a batch normalization.
fn backward_batch_norm<T>(
    planes: Planes,
    training: bool,
    gradient: usize,
    values: &Vec<usize>,
    outs: &Vec<usize>,
    statistics: (usize, usize),
    len: usize,
) -> (r: Vec<(Command<T>, Result<Grid>)>)
    requires
        values@.len() == 3,
        outs@.len() == 3,
    ensures
        listed(r@) == batch_norm_commands::<T>(
            planes,
            training,
            gradient,
            values@,
            outs@,
            statistics,
            len,
        ),
{
    let (mean, inverse) = statistics;
    let mut r: Vec<(Command<T>, Result<Grid>)> = Vec::new();
    r.push(
        (
            Command::BatchNormAffineBackward {
                gradient,
                input: values[1],
                mean,
                inverse,
                weight_gradient: outs[1],
                bias_gradient: outs[2],
                planes,
            },
            launch_config(planes.channels),
        ),
    );
    r.push(
        (
            Command::BatchNormInputBackward {
                gradient,
                input: values[1],
                weight: values[2],
                mean,
                inverse,
                weight_gradient: outs[1],
                bias_gradient: outs[2],
                out: outs[0],
                planes,
                training,
            },
            launch_config(len),
        ),
    );
    assert(listed(r@) =~= batch_norm_commands::<T>(
        planes,
        training,
        gradient,
        values@,
        outs@,
        statistics,
        len,
    ));
    r
}

/// What a gradient is carried to, and what that needs, can be evaluated.
proof fn lemma_carried<T>(graph: Graph<T>, node: usize)
    requires
        graph.wf(),
        node < graph.nodes@.len(),
        fits(graph.nodes@, node as int),
        launchable(graph.nodes@, node as int),
    ensures
        forall|k: int|
            0 <= k < needed(graph.nodes@, node as int).len() ==> {
                &&& (#[trigger] needed(graph.nodes@, node as int)[k]) < graph.nodes@.len()
                &&& fits(graph.nodes@, needed(graph.nodes@, node as int)[k] as int)
                &&& launchable(graph.nodes@, needed(graph.nodes@, node as int)[k] as int)
            },
        forall|k: int|
            0 <= k < receivers(graph.nodes@[node as int].op).len() ==> {
                &&& (#[trigger] receivers(graph.nodes@[node as int].op)[k]) < node as int
                &&& numel(graph.nodes@[receivers(graph.nodes@[node as int].op)[k] as int].shape@)
                    <= usize::MAX
            },
        fits_alone(graph.nodes@, node as int),
        launchable_alone(graph.nodes@, node as int),
{
    let i = node as int;
    let nodes = graph.nodes@;
    let ops = operands(nodes[i].op);
    assert(ordered(nodes, i));
    assert(reaches(nodes, i, i));
    assert forall|k: int| 0 <= k < ops.len() implies {
        &&& (#[trigger] ops[k]) < i
        &&& fits(nodes, ops[k] as int)
        &&& launchable(nodes, ops[k] as int)
        &&& numel(nodes[ops[k] as int].shape@) <= usize::MAX
    } by {
        lemma_fits_operand(nodes, i, k);
        lemma_launchable_operand(nodes, i, k);
        assert(reaches(nodes, ops[k] as int, ops[k] as int));
    }
    assert forall|k: int| 0 <= k < needed(nodes, i).len() implies {
        &&& (#[trigger] needed(nodes, i)[k]) < nodes.len()
        &&& fits(nodes, needed(nodes, i)[k] as int)
        &&& launchable(nodes, needed(nodes, i)[k] as int)
    } by {
        if nodes[i].op is BatchNorm2d {
            if k > 0 {
                assert(needed(nodes, i)[k] == ops[k - 1]);
            }
        } else {
            assert(needed(nodes, i)[k] == ops[k]);
        }
    }
    assert forall|k: int| 0 <= k < receivers(nodes[i].op).len() implies {
        &&& (#[trigger] receivers(nodes[i].op)[k]) < i
        &&& numel(nodes[receivers(nodes[i].op)[k] as int].shape@) <= usize::MAX
    } by {
        assert(receivers(nodes[i].op)[k] == ops[k]);
    }
}

impl<T: Scalar> Executor<T> {
    /// The lengths of the gradients that are computed.
    fn backward_lens(graph: &Graph<T>, i: usize) -> (r: Vec<usize>)
        requires
            graph.wf(),
            i < graph.nodes@.len(),
            fits(graph.nodes@, i as int),
            launchable(graph.nodes@, i as int),
        ensures
            r@ == gradient_lens(graph.nodes@, i as int),
    {
        let mut r: Vec<usize> = Vec::new();
        let ghost goal = gradient_lens(graph.nodes@, i as int);
        let op = &graph.nodes[i].op;
        if !passes_on(op) {
            let list = receiver_list(op);
            proof {
                lemma_carried(*graph, i);
            }
            let mut k: usize = 0;
            while k < list.len()
                invariant
                    k <= list.len(),
                    i < graph.nodes@.len(),
                    list@ == receivers(graph.nodes@[i as int].op),
                    goal == list@.map_values(|node: usize| elements(graph.nodes@, node as int)),
                    forall|k: int|
                        0 <= k < list@.len() ==> {
                            &&& (#[trigger] list@[k]) < i
                            &&& numel(graph.nodes@[list@[k] as int].shape@) <= usize::MAX
                        },
                    r@ == goal.take(k as int),
                decreases list.len() - k,
            {
                assert(list@[k as int] < i);
                let len: usize = count(&graph.nodes[list[k]].shape);
                r.push(len);
                assert(goal.take(k + 1) =~= goal.take(k as int).push(goal[k as int]));
                k = k + 1;
            }
            assert(goal.take(list@.len() as int) =~= goal);
        }
        assert(r@ =~= goal);
        r
    }

    /// The commands that compute the gradients of the operands of a node.
    fn backward_commands(
        graph: &Graph<T>,
        i: usize,
        gradient: usize,
        values: &Vec<usize>,
        outs: &Vec<usize>,
        lens: &Vec<usize>,
        statistics: (usize, usize),
    ) -> (r: Vec<(Command<T>, Result<Grid>)>)
        requires
            graph.wf(),
            i < graph.nodes@.len(),
            fits(graph.nodes@, i as int),
            launchable(graph.nodes@, i as int),
            values@.len() == needed(graph.nodes@, i as int).len(),
            lens@ == gradient_lens(graph.nodes@, i as int),
            outs@.len() == lens@.len(),
        ensures
            listed(r@) == gradient_commands(
                graph.nodes@,
                i as int,
                gradient,
                values@,
                outs@,
                statistics,
            ),
    {
        let ghost nodes = graph.nodes@;
        proof {
            lemma_carried(*graph, i);
            assert(shaped(nodes, graph.norms@, i as int));
            let to = receivers(nodes[i as int].op);
            assert(to.len() > 0 ==> to[0] < i);
            assert(to.len() > 1 ==> to[1] < i);
        }
        let mut r: Vec<(Command<T>, Result<Grid>)> = Vec::new();
        match &graph.nodes[i].op {
            Op::Mul(_, _) => {
                r.push(
                    (
                        Command::MulBackward { gradient, other: values[1], out: outs[0] },
                        launch_config(lens[0]),
                    ),
                );
                r.push(
                    (
                        Command::MulBackward { gradient, other: values[0], out: outs[1] },
                        launch_config(lens[1]),
                    ),
                );
            },
            Op::Relu(_) => {
                r.push(
                    (
                        Command::ReluBackward { gradient, input: values[0], out: outs[0] },
                        launch_config(lens[0]),
                    ),
                );
            },
            Op::MatMul(left, right) => {
                return backward_matmul(graph, *left, *right, gradient, values, outs, lens);
            },
            Op::Conv2d { input, weight, stride, padding, groups, .. } => {
                return backward_conv2d(
                    graph,
                    *input,
                    *weight,
                    *stride,
                    *padding,
                    *groups,
                    gradient,
                    values,
                    outs,
                    lens[2],
                );
            },
            Op::AvgPool2d { input, kernel, stride } => {
                r.push(
                    backward_avg_pool(
                        graph,
                        *input,
                        *kernel,
                        *stride,
                        gradient,
                        outs[0],
                        lens[0],
                    ),
                );
                assert(r@ =~= seq![r@[0]]);
            },
            Op::CrossEntropy { logits, .. } => {
                let shape = &graph.nodes[*logits].shape;
                r.push(
                    (
                        Command::CrossEntropyBackward {
                            logits: values[0],
                            targets: values[1],
                            gradient,
                            out: outs[0],
                            batch: shape[0],
                            classes: shape[1],
                        },
                        launch_config(lens[0]),
                    ),
                );
            },
            Op::BatchNorm2d { input, training, .. } => {
                let shape = &graph.nodes[*input].shape;
                let planes = Planes {
                    batch: shape[0],
                    channels: shape[1],
                    spatial: shape[2] * shape[3],
                };
                return backward_batch_norm(
                    planes,
                    *training,
                    gradient,
                    values,
                    outs,
                    statistics,
                    lens[0],
                );
            },
            _ => {},
        }
        assert(listed(r@) =~= gradient_commands(
            nodes,
            i as int,
            gradient,
            values@,
            outs@,
            statistics,
        ));
        r
    }

    /// Carries the gradient of a node to its operands.
    pub fn propagate_node(&mut self, graph: &Graph<T>, i: usize, gradient: usize) -> (r: Result<()>)
        requires
            graph.wf(),
            i < graph.nodes@.len(),
            fits(graph.nodes@, i as int),
            launchable(graph.nodes@, i as int),
        ensures
            passes(
                final(self)@,
                r,
                propagated(graph.nodes@, old(self)@, i as int, gradient),
            ),
    {
        let ghost nodes = graph.nodes@;
        proof {
            lemma_carried(*graph, i);
        }
        let list = needed_list(graph, i);
        let values = self.eval_list(graph, &list)?;
        let op = &graph.nodes[i].op;
        let statistics = match self.statistics.get(&i) {
            Some(found) => *found,
            None => {
                if let Op::BatchNorm2d { .. } = op {
                    return Err(Error::execution("missing BatchNorm CUDA statistics"));
                }
                (0, 0)
            },
        };
        let ghost ready = self@;
        let lens = Self::backward_lens(graph, i);
        let outs = self.output_buffers(&lens);
        let commands = Self::backward_commands(
            graph,
            i,
            gradient,
            &values,
            &outs,
            &lens,
            statistics,
        );
        proof {
            assert(gradient_commands(nodes, i as int, gradient, values@, outs@, statistics)
                == gradient_commands(
                nodes,
                i as int,
                gradient,
                values@,
                outs@,
                ready.statistics[i],
            ));
        }
        self.give_all(commands)?;
        let to = receiver_list(op);
        let kept = passes_on(op);
        let ghost goal = gradient_shares(nodes[i as int].op, gradient, outs@);
        let mut shares: Vec<(usize, usize)> = Vec::new();
        let mut k: usize = 0;
        while k < to.len()
            invariant
                k <= to.len(),
                goal == gradient_shares(nodes[i as int].op, gradient, outs@),
                to@ == receivers(nodes[i as int].op),
                kept == hands_on(nodes[i as int].op),
                kept || outs@.len() == to@.len(),
                shares@ == goal.take(k as int),
            decreases to.len() - k,
        {
            let buffer: usize = if kept {
                gradient
            } else {
                outs[k]
            };
            shares.push((to[k], buffer));
            assert(goal.take(k + 1) =~= goal.take(k as int).push(goal[k as int]));
            k = k + 1;
        }
        assert(goal.take(to@.len() as int) =~= goal);
        assert forall|k: int| 0 <= k < shares@.len() implies {
            &&& (#[trigger] shares@[k]).0 < nodes.len()
            &&& numel(nodes[shares@[k].0 as int].shape@) <= usize::MAX
        } by {
            assert(shares@[k].0 == receivers(nodes[i as int].op)[k]);
        }
        self.accumulate_all(graph, &shares)
    }
}

} // verus!

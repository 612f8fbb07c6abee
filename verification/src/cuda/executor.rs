//! The executor of a device: it turns graphs into commands, and remembers which buffer
//! holds what.

use crate::cuda::command::{Command, Step};
use crate::cuda::launch::{grid_of, launch_config, tiled_grid, tiled_launch_config, Grid, TILE};
use crate::error::{Error, Failure, Result};
use crate::forward::{Convolution, Pooling};
use crate::graph::{
    convolution, fits, fits_alone, lemma_fits_operand, operand_list, operands, ordered, planes_of,
    pooling, reaches, shaped, Graph, Node, Op,
};
use crate::norm::{too_few_samples, Planes};
use crate::scalar::Scalar;
use crate::shape::{count, numel};
use crate::text::{decimal, owned, push_decimal};
use std::collections::HashMap;
use vstd::prelude::*;

verus! {

broadcast use vstd::std_specs::hash::group_hash_axioms;

/// The buffers that an optimizer keeps for a parameter.
#[derive(Clone, Copy, Debug, PartialEq, Eq, Structural)]
pub struct Moment {
    pub optimizer: u64,
    pub parameter: u64,
    pub first: usize,
    pub second: usize,
}

/// The bytes that may be on their way to the device at a time.
pub const MAX_PENDING_HOST_BYTES: usize = 67108864;

/// The bytes of an element.
pub const ELEMENT_BYTES: usize = 4;

/// What an executor remembers of its device.
#[verifier::ext_equal]
pub struct Ledger<T> {
    /// The length of each buffer.
    pub lens: Seq<usize>,
    /// What the device was given.
    pub log: Seq<Step<T>>,
    /// The buffer that holds the value of a node.
    pub values: Map<usize, usize>,
    /// The buffer that holds the gradient of a node.
    pub gradients: Map<usize, usize>,
    /// The buffers that hold the running mean and variance of a batch normalization.
    pub states: Map<usize, (usize, usize)>,
    /// The buffers that hold the mean and the inverse deviation that a node applied.
    pub statistics: Map<usize, (usize, usize)>,
    /// The moments that optimizers keep.
    pub moments: Seq<Moment>,
    /// The buffer that holds a single one.
    pub root: usize,
    /// The bytes that are on their way to the device.
    pub pending: nat,
}

/// The executor of a device.
pub struct Executor<T> {
    pub lens: Vec<usize>,
    pub log: Vec<Step<T>>,
    pub values: HashMap<usize, usize>,
    pub gradients: HashMap<usize, usize>,
    pub states: HashMap<usize, (usize, usize)>,
    pub statistics: HashMap<usize, (usize, usize)>,
    pub moments: Vec<Moment>,
    pub root: usize,
    pub pending: usize,
}

impl<T> View for Executor<T> {
    type V = Ledger<T>;

    open spec fn view(&self) -> Ledger<T> {
        Ledger {
            lens: self.lens@,
            log: self.log@,
            values: self.values@,
            gradients: self.gradients@,
            states: self.states@,
            statistics: self.statistics@,
            moments: self.moments@,
            root: self.root,
            pending: self.pending as nat,
        }
    }
}

/// The outcome of planning: the ledger after it, and a buffer or a failure.
pub struct Planned<T> {
    pub ledger: Ledger<T>,
    pub result: std::result::Result<usize, Failure>,
}

/// The outcome of a step that makes no buffer.
pub struct Passed<T> {
    pub ledger: Ledger<T>,
    pub result: std::result::Result<(), Failure>,
}

/// `a + b`, or the largest count.
pub open spec fn saturated(n: nat) -> nat {
    if n <= usize::MAX {
        n
    } else {
        usize::MAX as nat
    }
}

impl<T> Ledger<T> {
    /// The number of the next buffer.
    pub open spec fn next(self) -> usize {
        self.lens.len() as usize
    }

    /// With one buffer more.
    pub open spec fn with_buffer(self, len: usize) -> Ledger<T> {
        Ledger { lens: self.lens.push(len), ..self }
    }

    /// With one command more.
    pub open spec fn given(self, command: Command<T>, grid: Option<Grid>) -> Ledger<T> {
        Ledger { log: self.log.push(Step { command, grid }), ..self }
    }

    /// With the value of a node in a buffer.
    pub open spec fn caching(self, node: usize, buffer: usize) -> Ledger<T> {
        Ledger { values: self.values.insert(node, buffer), ..self }
    }

    /// A buffer made by one launch.
    pub open spec fn launched(
        self,
        len: usize,
        grid: std::result::Result<Grid, Failure>,
        command: Command<T>,
    ) -> Planned<T> {
        let ledger = self.with_buffer(len);
        match grid {
            Ok(grid) => Planned {
                ledger: ledger.given(command, Some(grid)),
                result: Ok(self.next()),
            },
            Err(failure) => Planned { ledger, result: Err(failure) },
        }
    }

    /// The ledger when everything on its way has arrived.
    pub open spec fn settled(self) -> Ledger<T> {
        Ledger { pending: 0, ..self.given(Command::Synchronize, None) }
    }

    /// The data of a node copied to a new buffer.  Where too many bytes would be on
    /// their way, those before are waited for.
    pub open spec fn uploaded(self, node: usize, len: usize) -> Planned<T> {
        let bytes = saturated((len * ELEMENT_BYTES) as nat);
        let before = if saturated(self.pending + bytes) > MAX_PENDING_HOST_BYTES {
            self.settled()
        } else {
            self
        };
        let out = before.next();
        Planned {
            ledger: Ledger {
                pending: saturated(before.pending + bytes),
                ..before.with_buffer(len).given(Command::Upload { node, out }, None)
            },
            result: Ok(out),
        }
    }

    /// The running statistics of a batch normalization on the device.
    pub open spec fn with_state(self, state: usize, channels: usize) -> Ledger<T> {
        if self.states.contains_key(state) {
            self
        } else {
            let mean = self.next();
            let first = self.with_buffer(channels).given(
                Command::UploadMean { state, out: mean },
                None,
            );
            let variance = first.next();
            let second = first.with_buffer(channels).given(
                Command::UploadVariance { state, out: variance },
                None,
            );
            Ledger { states: second.states.insert(state, (mean, variance)), ..second }
        }
    }

    /// The statistics of a batch measured, and the running statistics moved towards
    /// them.
    pub open spec fn measured(
        self,
        input: usize,
        state: usize,
        planes: Planes,
        momentum: T,
        epsilon: T,
    ) -> Planned<T> {
        let channels = planes.channels;
        let mean = self.next();
        let inverse = (mean + 1) as usize;
        let variance = (mean + 2) as usize;
        let made = self.with_buffer(channels).with_buffer(channels).with_buffer(channels);
        match grid_of(channels as nat) {
            Err(failure) => Planned { ledger: made, result: Err(failure) },
            Ok(grid) => {
                let new_mean = (mean + 3) as usize;
                let new_variance = (mean + 4) as usize;
                let (old_mean, old_variance) = self.states[state];
                let after = made.given(
                    Command::BatchNormStatistics { input, mean, inverse, variance, planes, epsilon },
                    Some(grid),
                ).with_buffer(channels).with_buffer(channels).given(
                    Command::BatchNormUpdate {
                        batch_mean: mean,
                        batch_variance: variance,
                        old_mean,
                        old_variance,
                        mean: new_mean,
                        variance: new_variance,
                        momentum,
                    },
                    Some(grid),
                );
                Planned {
                    ledger: Ledger {
                        states: after.states.insert(state, (new_mean, new_variance)),
                        ..after
                    },
                    result: Ok(mean),
                }
            },
        }
    }

    /// The statistics that a batch normalization applies: a mean, and the inverse
    /// deviation in the buffer that is made for it.
    pub open spec fn prepared(
        self,
        input: usize,
        state: usize,
        planes: Planes,
        training: bool,
        momentum: T,
        epsilon: T,
    ) -> (Ledger<T>, std::result::Result<(usize, usize), Failure>) {
        let ready = self.with_state(state, planes.channels);
        if training {
            let done = ready.measured(input, state, planes, momentum, epsilon);
            (
                done.ledger,
                match done.result {
                    Ok(mean) => Ok((mean, (mean + 1) as usize)),
                    Err(failure) => Err(failure),
                },
            )
        } else {
            let (mean, variance) = ready.states[state];
            let out = ready.next();
            let done = ready.launched(
                planes.channels,
                grid_of(planes.channels as nat),
                Command::BatchNormInverse { variance, out, epsilon },
            );
            (
                done.ledger,
                match done.result {
                    Ok(inverse) => Ok((mean, inverse)),
                    Err(failure) => Err(failure),
                },
            )
        }
    }

    /// A batch normalization.
    pub open spec fn normed(
        self,
        node: usize,
        len: usize,
        buffers: Seq<usize>,
        state: usize,
        planes: Planes,
        training: bool,
        momentum: T,
        epsilon: T,
    ) -> Planned<T> {
        if training && planes.samples() <= 1 {
            Planned { ledger: self, result: Err(too_few_samples()) }
        } else {
            let (ready, statistics) = self.prepared(
                buffers[0],
                state,
                planes,
                training,
                momentum,
                epsilon,
            );
            match statistics {
                Err(failure) => Planned { ledger: ready, result: Err(failure) },
                Ok((mean, inverse)) => {
                    let out = ready.next();
                    let done = ready.launched(
                        len,
                        grid_of(len as nat),
                        Command::BatchNormApply {
                            input: buffers[0],
                            weight: buffers[1],
                            bias: buffers[2],
                            mean,
                            inverse,
                            out,
                            planes,
                        },
                    );
                    match done.result {
                        Err(_) => done,
                        Ok(_) => Planned {
                            ledger: Ledger {
                                statistics: done.ledger.statistics.insert(node, (mean, inverse)),
                                ..done.ledger
                            },
                            result: done.result,
                        },
                    }
                },
            }
        }
    }
}

/// The failure of evaluating an input that was never given.
pub open spec fn unbound(slot: usize) -> Failure {
    Failure::Execution("unbound CUDA JIT placeholder "@ + decimal(slot as nat))
}

/// The number of elements of a node.
pub open spec fn elements<T>(nodes: Seq<Node<T>>, i: int) -> usize {
    numel(nodes[i].shape@) as usize
}

/// The command that computes a node by one launch, and its threads.
pub open spec fn command_for<T>(
    nodes: Seq<Node<T>>,
    i: int,
    buffers: Seq<usize>,
    out: usize,
) -> (Command<T>, std::result::Result<Grid, Failure>) {
    let len = elements(nodes, i);
    let each = grid_of(len as nat);
    match nodes[i].op {
        Op::Add(_, _) => (Command::Add { left: buffers[0], right: buffers[1], out }, each),
        Op::Mul(_, _) => (Command::Mul { left: buffers[0], right: buffers[1], out }, each),
        Op::Relu(_) => (Command::Relu { input: buffers[0], out }, each),
        Op::MatMul(left, right) => (
            Command::MatMul {
                left: buffers[0],
                right: buffers[1],
                out,
                rows: nodes[left as int].shape@[0],
                inner: nodes[left as int].shape@[1],
                columns: nodes[right as int].shape@[1],
            },
            each,
        ),
        Op::Conv2d { input, weight, stride, padding, groups, .. } => (
            Command::Conv2d {
                input: buffers[0],
                weight: buffers[1],
                bias: buffers[2],
                out,
                geometry: convolution(nodes, input as int, weight as int, stride, padding, groups),
            },
            tiled_grid(
                (nodes[input as int].shape@[0] * nodes[weight as int].shape@[0]) as nat,
                (nodes[i].shape@[2] * nodes[i].shape@[3]) as nat,
                TILE as nat,
            ),
        ),
        Op::AvgPool2d { input, kernel, stride } => (
            Command::AvgPool2d {
                input: buffers[0],
                out,
                geometry: pooling(nodes, input as int, kernel, stride),
            },
            each,
        ),
        Op::CrossEntropy { logits, .. } => (
            Command::CrossEntropy {
                logits: buffers[0],
                targets: buffers[1],
                out,
                batch: nodes[logits as int].shape@[0],
                classes: nodes[logits as int].shape@[1],
            },
            each,
        ),
        _ => (Command::Synchronize, each),
    }
}

/// A node computed from the buffers of its operands.
pub open spec fn computed<T>(
    nodes: Seq<Node<T>>,
    ledger: Ledger<T>,
    i: int,
    buffers: Seq<usize>,
) -> Planned<T> {
    let len = elements(nodes, i);
    let done = match nodes[i].op {
        Op::Data(_) => ledger.uploaded(i as usize, len),
        Op::BatchNorm2d { input, state, training, momentum, epsilon, .. } => ledger.normed(
            i as usize,
            len,
            buffers,
            state,
            planes_of(nodes[input as int].shape@),
            training,
            momentum,
            epsilon,
        ),
        _ => {
            let (command, grid) = command_for(nodes, i, buffers, ledger.next());
            ledger.launched(len, grid, command)
        },
    };
    match done.result {
        Err(_) => done,
        Ok(out) => Planned { ledger: done.ledger.caching(i as usize, out), result: Ok(out) },
    }
}

/// A node evaluated: the buffer that holds its value already, or a new one, computed
/// from its operands, which are evaluated first.
pub open spec fn evaluated<T>(nodes: Seq<Node<T>>, ledger: Ledger<T>, i: int) -> Planned<T>
    decreases i, 4nat,
{
    if ledger.values.contains_key(i as usize) {
        Planned { ledger, result: Ok(ledger.values[i as usize]) }
    } else {
        match nodes[i].op {
            Op::Placeholder(slot) => Planned { ledger, result: Err(unbound(slot)) },
            Op::Reshape(input) => if input < i {
                evaluated(nodes, ledger, input as int)
            } else {
                arbitrary()
            },
            _ => {
                let (after, result) = all_evaluated(
                    nodes,
                    ledger,
                    i,
                    operands(nodes[i].op).len(),
                );
                match result {
                    Err(failure) => Planned { ledger: after, result: Err(failure) },
                    Ok(buffers) => computed(nodes, after, i, buffers),
                }
            },
        }
    }
}

/// The first `k` operands of a node evaluated, in order, up to the first that fails.
pub open spec fn all_evaluated<T>(nodes: Seq<Node<T>>, ledger: Ledger<T>, i: int, k: nat) -> (
    Ledger<T>,
    std::result::Result<Seq<usize>, Failure>,
)
    decreases i, k,
{
    if k == 0 {
        (ledger, Ok(seq![]))
    } else {
        let (before, result) = all_evaluated(nodes, ledger, i, (k - 1) as nat);
        match result {
            Err(failure) => (before, Err(failure)),
            Ok(buffers) => {
                let operand = operands(nodes[i].op)[k - 1];
                if operand < i {
                    let done = evaluated(nodes, before, operand as int);
                    match done.result {
                        Err(failure) => (done.ledger, Err(failure)),
                        Ok(buffer) => (done.ledger, Ok(buffers.push(buffer))),
                    }
                } else {
                    arbitrary()
                }
            },
        }
    }
}

/// The planes of a convolution, and what is in them, can be counted.
pub open spec fn launchable_alone<T>(nodes: Seq<Node<T>>, i: int) -> bool {
    match nodes[i].op {
        Op::Conv2d { input, weight, .. } => {
            let (x, w) = (nodes[input as int].shape@, nodes[weight as int].shape@);
            &&& x[0] * w[0] <= usize::MAX
            &&& x[0] * x[1] <= usize::MAX
            &&& x[2] * x[3] <= usize::MAX
            &&& nodes[i].shape@[2] * nodes[i].shape@[3] <= usize::MAX
            &&& w[1] * w[2] <= usize::MAX
            &&& w[1] * w[2] * w[3] <= usize::MAX
        },
        _ => true,
    }
}

/// The same holds for all that a node is computed from.
pub open spec fn launchable<T>(nodes: Seq<Node<T>>, node: int) -> bool {
    forall|i: int| #[trigger] reaches(nodes, node, i) ==> launchable_alone(nodes, i)
}

/// Whether the planes of a convolution, and what is in them, can be counted.
fn launches_alone<T>(graph: &Graph<T>, i: usize) -> (r: bool)
    requires
        graph.wf(),
        i < graph.nodes@.len(),
    ensures
        r == launchable_alone(graph.nodes@, i as int),
{
    proof {
        assert(shaped(graph.nodes@, graph.norms@, i as int));
        assert(ordered(graph.nodes@, i as int));
    }
    match &graph.nodes[i].op {
        Op::Conv2d { input, weight, .. } => {
            proof {
                assert(operands(graph.nodes@[i as int].op)[0] == *input);
                assert(operands(graph.nodes@[i as int].op)[1] == *weight);
            }
            let x = &graph.nodes[*input].shape;
            let w = &graph.nodes[*weight].shape;
            let y = &graph.nodes[i].shape;
            let window: bool = match w[1].checked_mul(w[2]) {
                Some(part) => part.checked_mul(w[3]).is_some(),
                None => false,
            };
            x[0].checked_mul(w[0]).is_some() && x[0].checked_mul(x[1]).is_some()
                && x[2].checked_mul(x[3]).is_some() && y[2].checked_mul(y[3]).is_some() && window
        },
        _ => true,
    }
}

impl<T> Graph<T> {
    /// Whether a node, and all that it is computed from, can be launched.
    pub fn launches(&self, node: usize) -> (r: bool)
        requires
            self.wf(),
            node < self.nodes@.len(),
        ensures
            r == launchable(self.nodes@, node as int),
    {
        let reached = crate::graph::reachable(&self.nodes, node);
        let mut i: usize = 0;
        while i < self.nodes.len()
            invariant
                self.wf(),
                i <= self.nodes.len(),
                reached.len() == self.nodes.len(),
                forall|j: int|
                    0 <= j < self.nodes@.len() ==> #[trigger] reached@[j] == reaches(
                        self.nodes@,
                        node as int,
                        j,
                    ),
                forall|j: int|
                    0 <= j < i && #[trigger] reached@[j] ==> launchable_alone(self.nodes@, j),
            decreases self.nodes.len() - i,
        {
            if reached[i] && !launches_alone(self, i) {
                assert(reaches(self.nodes@, node as int, i as int));
                return false;
            }
            i = i + 1;
        }
        assert forall|j: int| #[trigger]
            reaches(self.nodes@, node as int, j) implies launchable_alone(self.nodes@, j) by {
            crate::graph::lemma_reaches_below(self.nodes@, node as int, j);
            assert(reached@[j]);
        }
        true
    }
}

pub proof fn lemma_launchable_operand<T>(nodes: Seq<Node<T>>, node: int, k: int)
    requires
        launchable(nodes, node),
        0 <= k < operands(nodes[node].op).len(),
        operands(nodes[node].op)[k] < node,
    ensures
        launchable(nodes, operands(nodes[node].op)[k] as int),
{
    let operand = operands(nodes[node].op)[k] as int;
    assert forall|i: int| #[trigger] reaches(nodes, operand, i) implies launchable_alone(
        nodes,
        i,
    ) by {
        crate::graph::lemma_reaches_operand(nodes, node, k, i);
    }
}

/// The outcome of an executor is the outcome of a plan.
pub open spec fn follows<T>(after: Ledger<T>, r: Result<usize>, plan: Planned<T>) -> bool {
    &&& after == plan.ledger
    &&& match r {
        Ok(buffer) => plan.result == std::result::Result::<usize, Failure>::Ok(buffer),
        Err(error) => plan.result == std::result::Result::<usize, Failure>::Err(error@),
    }
}

/// The outcome of an executor is the outcome of a step.
pub open spec fn passes<T>(after: Ledger<T>, r: Result<()>, plan: Passed<T>) -> bool {
    &&& after == plan.ledger
    &&& match r {
        Ok(_) => plan.result is Ok,
        Err(error) => plan.result == std::result::Result::<(), Failure>::Err(error@),
    }
}

/// The ledger of a new executor: a single one on the device.
pub open spec fn blank<T>() -> Ledger<T> {
    Ledger {
        lens: seq![1usize],
        log: seq![Step { command: Command::One { out: 0 }, grid: None }],
        values: Map::empty(),
        gradients: Map::empty(),
        states: Map::empty(),
        statistics: Map::empty(),
        moments: seq![],
        root: 0,
        pending: 0,
    }
}

impl<T: Scalar> Executor<T> {
    /// The executor of a device that nothing was given yet.
    pub fn new() -> (r: Executor<T>)
        ensures
            r@ == blank::<T>(),
    {
        let mut lens: Vec<usize> = Vec::new();
        lens.push(1);
        let mut log: Vec<Step<T>> = Vec::new();
        log.push(Step { command: Command::One { out: 0 }, grid: None });
        let r = Executor {
            lens,
            log,
            values: HashMap::new(),
            gradients: HashMap::new(),
            states: HashMap::new(),
            statistics: HashMap::new(),
            moments: Vec::new(),
            root: 0,
            pending: 0,
        };
        assert(r@ =~= blank::<T>());
        r
    }

    /// Makes a buffer.
    pub fn output_buffer(&mut self, len: usize) -> (r: usize)
        ensures
            final(self)@ == old(self)@.with_buffer(len),
            r == old(self)@.next(),
            r == old(self)@.lens.len(),
    {
        let r: usize = self.lens.len();
        self.lens.push(len);
        r
    }

    /// Gives the device a command.
    pub(crate) fn give(&mut self, command: Command<T>, grid: Option<Grid>)
        ensures
            final(self)@ == old(self)@.given(command, grid),
    {
        self.log.push(Step { command, grid });
    }

    /// Waits until everything on its way has arrived.
    pub fn synchronize(&mut self)
        ensures
            final(self)@ == old(self)@.settled(),
    {
        self.give(Command::Synchronize, None);
        self.pending = 0;
    }

    /// Notes that everything on its way has arrived.
    pub fn clear_completed_host_copies(&mut self)
        ensures
            final(self)@ == (Ledger { pending: 0, ..old(self)@ }),
    {
        self.pending = 0;
    }

    /// Copies the data of a node to a new buffer.
    pub fn upload(&mut self, node: usize, len: usize) -> (r: usize)
        ensures
            final(self)@ == old(self)@.uploaded(node, len).ledger,
            old(self)@.uploaded(node, len).result == std::result::Result::<usize, Failure>::Ok(r),
    {
        let bytes: usize = match len.checked_mul(ELEMENT_BYTES) {
            Some(bytes) => bytes,
            None => usize::MAX,
        };
        let total: usize = match self.pending.checked_add(bytes) {
            Some(total) => total,
            None => usize::MAX,
        };
        if total > MAX_PENDING_HOST_BYTES {
            self.synchronize();
        }
        let out: usize = self.output_buffer(len);
        self.give(Command::Upload { node, out }, None);
        self.pending = match self.pending.checked_add(bytes) {
            Some(total) => total,
            None => usize::MAX,
        };
        out
    }

    /// Brings the running statistics of a batch normalization to the device.
    fn load_state(&mut self, state: usize, channels: usize)
        ensures
            final(self)@ == old(self)@.with_state(state, channels),
            final(self)@.states.contains_key(state),
    {
        if !self.states.contains_key(&state) {
            let mean: usize = self.output_buffer(channels);
            self.give(Command::UploadMean { state, out: mean }, None);
            let variance: usize = self.output_buffer(channels);
            self.give(Command::UploadVariance { state, out: variance }, None);
            self.states.insert(state, (mean, variance));
        }
    }

    /// The buffers of the running statistics of a batch normalization.
    fn state_buffers(&self, state: usize) -> (r: (usize, usize))
        requires
            self@.states.contains_key(state),
        ensures
            r == self@.states[state],
    {
        match self.states.get(&state) {
            Some(found) => *found,
            None => (0, 0),
        }
    }

    /// The statistics that a batch normalization applies.
    fn prepare(
        &mut self,
        input: usize,
        state: usize,
        planes: Planes,
        training: bool,
        momentum: T,
        epsilon: T,
    ) -> (r: Result<(usize, usize)>)
        ensures
            ({
                let (ledger, result) = old(self)@.prepared(
                    input,
                    state,
                    planes,
                    training,
                    momentum,
                    epsilon,
                );
                &&& final(self)@ == ledger
                &&& match r {
                    Ok(pair) => result == std::result::Result::<(usize, usize), Failure>::Ok(pair),
                    Err(error) => result == std::result::Result::<(usize, usize), Failure>::Err(
                        error@,
                    ),
                }
            }),
    {
        let channels: usize = planes.channels;
        self.load_state(state, channels);
        let (old_mean, old_variance) = self.state_buffers(state);
        if training {
            let mean: usize = self.output_buffer(channels);
            let inverse: usize = self.output_buffer(channels);
            let variance: usize = self.output_buffer(channels);
            let grid = launch_config(channels)?;
            self.give(
                Command::BatchNormStatistics { input, mean, inverse, variance, planes, epsilon },
                Some(grid),
            );
            let new_mean: usize = self.output_buffer(channels);
            let new_variance: usize = self.output_buffer(channels);
            self.give(
                Command::BatchNormUpdate {
                    batch_mean: mean,
                    batch_variance: variance,
                    old_mean,
                    old_variance,
                    mean: new_mean,
                    variance: new_variance,
                    momentum,
                },
                Some(grid),
            );
            self.states.insert(state, (new_mean, new_variance));
            Ok((mean, inverse))
        } else {
            let out: usize = self.output_buffer(channels);
            let grid = launch_config(channels)?;
            self.give(
                Command::BatchNormInverse { variance: old_variance, out, epsilon },
                Some(grid),
            );
            Ok((old_mean, out))
        }
    }

    /// Plans a batch normalization.
    pub fn eval_batch_norm(
        &mut self,
        node: usize,
        len: usize,
        buffers: &Vec<usize>,
        state: usize,
        planes: Planes,
        training: bool,
        momentum: T,
        epsilon: T,
    ) -> (r: Result<usize>)
        requires
            buffers@.len() == 3,
            planes.samples() <= usize::MAX,
        ensures
            follows(
                final(self)@,
                r,
                old(self)@.normed(
                    node,
                    len,
                    buffers@,
                    state,
                    planes,
                    training,
                    momentum,
                    epsilon,
                ),
            ),
    {
        let samples: usize = planes.batch * planes.spatial;
        if training && samples <= 1 {
            return Err(
                Error::execution("BatchNorm training requires more than one value per channel"),
            );
        }
        let (mean, inverse) = self.prepare(
            buffers[0],
            state,
            planes,
            training,
            momentum,
            epsilon,
        )?;
        let out: usize = self.output_buffer(len);
        let grid = launch_config(len)?;
        self.give(
            Command::BatchNormApply {
                input: buffers[0],
                weight: buffers[1],
                bias: buffers[2],
                mean,
                inverse,
                out,
                planes,
            },
            Some(grid),
        );
        self.statistics.insert(node, (mean, inverse));
        Ok(out)
    }

    /// The command that computes a node by one launch, and its threads.
    fn command(&self, graph: &Graph<T>, i: usize, len: usize, buffers: &Vec<usize>, out: usize) -> (r:
        (Command<T>, Result<Grid>))
        requires
            graph.wf(),
            i < graph.nodes@.len(),
            len == elements(graph.nodes@, i as int),
            launchable_alone(graph.nodes@, i as int),
            buffers@.len() == operands(graph.nodes@[i as int].op).len(),
            !(graph.nodes@[i as int].op is Data),
            !(graph.nodes@[i as int].op is Placeholder),
            !(graph.nodes@[i as int].op is Reshape),
            !(graph.nodes@[i as int].op is BatchNorm2d),
        ensures
            ({
                let (command, grid) = command_for(graph.nodes@, i as int, buffers@, out);
                &&& r.0 == command
                &&& match r.1 {
                    Ok(found) => grid == std::result::Result::<Grid, Failure>::Ok(found),
                    Err(error) => grid == std::result::Result::<Grid, Failure>::Err(error@),
                }
            }),
    {
        proof {
            assert(shaped(graph.nodes@, graph.norms@, i as int));
            assert(ordered(graph.nodes@, i as int));
            let ops = operands(graph.nodes@[i as int].op);
            assert(forall|k: int| 0 <= k < ops.len() ==> #[trigger] ops[k] < i);
            assert(ops.len() > 0 ==> ops[0] < i);
            assert(ops.len() > 1 ==> ops[1] < i);
        }
        match &graph.nodes[i].op {
            Op::Add(_, _) => (
                Command::Add { left: buffers[0], right: buffers[1], out },
                launch_config(len),
            ),
            Op::Mul(_, _) => (
                Command::Mul { left: buffers[0], right: buffers[1], out },
                launch_config(len),
            ),
            Op::Relu(_) => (Command::Relu { input: buffers[0], out }, launch_config(len)),
            Op::MatMul(left, right) => (
                Command::MatMul {
                    left: buffers[0],
                    right: buffers[1],
                    out,
                    rows: graph.nodes[*left].shape[0],
                    inner: graph.nodes[*left].shape[1],
                    columns: graph.nodes[*right].shape[1],
                },
                launch_config(len),
            ),
            Op::Conv2d { input, weight, stride, padding, groups, .. } => {
                let geometry = conv_geometry(graph, *input, *weight, *stride, *padding, *groups);
                (
                    Command::Conv2d {
                        input: buffers[0],
                        weight: buffers[1],
                        bias: buffers[2],
                        out,
                        geometry,
                    },
                    tiled_launch_config(
                        geometry.batch * geometry.out_channels,
                        graph.nodes[i].shape[2] * graph.nodes[i].shape[3],
                    ),
                )
            },
            Op::AvgPool2d { input, kernel, stride } => (
                Command::AvgPool2d {
                    input: buffers[0],
                    out,
                    geometry: pool_geometry(graph, *input, *kernel, *stride),
                },
                launch_config(len),
            ),
            Op::CrossEntropy { logits, .. } => (
                Command::CrossEntropy {
                    logits: buffers[0],
                    targets: buffers[1],
                    out,
                    batch: graph.nodes[*logits].shape[0],
                    classes: graph.nodes[*logits].shape[1],
                },
                launch_config(len),
            ),
            _ => (Command::Synchronize, launch_config(len)),
        }
    }

    /// Plans the computation of a node from the buffers of its operands.
    fn compute(&mut self, graph: &Graph<T>, i: usize, buffers: &Vec<usize>) -> (r: Result<usize>)
        requires
            graph.wf(),
            i < graph.nodes@.len(),
            fits_alone(graph.nodes@, i as int),
            launchable_alone(graph.nodes@, i as int),
            buffers@.len() == operands(graph.nodes@[i as int].op).len(),
            !(graph.nodes@[i as int].op is Placeholder),
            !(graph.nodes@[i as int].op is Reshape),
        ensures
            follows(
                final(self)@,
                r,
                computed(graph.nodes@, old(self)@, i as int, buffers@),
            ),
    {
        let len: usize = count(&graph.nodes[i].shape);
        proof {
            assert(shaped(graph.nodes@, graph.norms@, i as int));
            assert(ordered(graph.nodes@, i as int));
            let ops = operands(graph.nodes@[i as int].op);
            assert(ops.len() > 0 ==> ops[0] < i);
        }
        let out: usize = match &graph.nodes[i].op {
            Op::Data(_) => self.upload(i, len),
            Op::BatchNorm2d { input, state, training, momentum, epsilon, .. } => {
                let shape = &graph.nodes[*input].shape;
                let planes = Planes {
                    batch: shape[0],
                    channels: shape[1],
                    spatial: shape[2] * shape[3],
                };
                self.eval_batch_norm(
                    i,
                    len,
                    buffers,
                    *state,
                    planes,
                    *training,
                    *momentum,
                    *epsilon,
                )?
            },
            _ => {
                let next: usize = self.lens.len();
                let (command, grid) = self.command(graph, i, len, buffers, next);
                let out: usize = self.output_buffer(len);
                let grid = grid?;
                self.give(command, Some(grid));
                out
            },
        };
        self.values.insert(i, out);
        Ok(out)
    }

    /// Plans the evaluation of a node.
    pub fn eval_node(&mut self, graph: &Graph<T>, i: usize) -> (r: Result<usize>)
        requires
            graph.wf(),
            i < graph.nodes@.len(),
            fits(graph.nodes@, i as int),
            launchable(graph.nodes@, i as int),
        ensures
            follows(final(self)@, r, evaluated(graph.nodes@, old(self)@, i as int)),
        decreases i,
    {
        let ghost nodes = graph.nodes@;
        let ghost start = self@;
        match self.values.get(&i) {
            Some(found) => {
                return Ok(*found);
            },
            None => {},
        }
        proof {
            assert(ordered(nodes, i as int));
            assert(reaches(nodes, i as int, i as int));
        }
        match &graph.nodes[i].op {
            Op::Placeholder(slot) => {
                let mut message = owned("unbound CUDA JIT placeholder ");
                push_decimal(&mut message, *slot);
                return Err(Error::Execution(message));
            },
            Op::Reshape(input) => {
                let input: usize = *input;
                proof {
                    assert(operands(nodes[i as int].op)[0] == input);
                    lemma_fits_operand(nodes, i as int, 0);
                    lemma_launchable_operand(nodes, i as int, 0);
                }
                return self.eval_node(graph, input);
            },
            _ => {},
        }
        let list = operand_list(&graph.nodes[i].op);
        let mut buffers: Vec<usize> = Vec::with_capacity(list.len());
        let mut k: usize = 0;
        while k < list.len()
            invariant
                k <= list.len(),
                nodes == graph.nodes@,
                graph.wf(),
                i < nodes.len(),
                list@ == operands(nodes[i as int].op),
                ordered(nodes, i as int),
                fits(nodes, i as int),
                launchable(nodes, i as int),
                buffers@.len() == k,
                !start.values.contains_key(i),
                start == old(self)@,
                !(nodes[i as int].op is Placeholder),
                !(nodes[i as int].op is Reshape),
                all_evaluated(nodes, start, i as int, k as nat) == (
                    self@,
                    std::result::Result::<Seq<usize>, Failure>::Ok(buffers@),
                ),
            decreases list.len() - k,
        {
            let operand: usize = list[k];
            proof {
                assert(operands(nodes[i as int].op)[k as int] == operand);
                lemma_fits_operand(nodes, i as int, k as int);
                lemma_launchable_operand(nodes, i as int, k as int);
            }
            match self.eval_node(graph, operand) {
                Ok(buffer) => {
                    buffers.push(buffer);
                },
                Err(error) => {
                    proof {
                        lemma_all_stuck(
                            nodes,
                            start,
                            i as int,
                            (k + 1) as nat,
                            list@.len(),
                            self@,
                            error@,
                        );
                    }
                    return Err(error);
                },
            }
            k = k + 1;
        }
        self.compute(graph, i, &buffers)
    }
}

/// The extents of a convolution node.
pub(crate) fn conv_geometry<T>(
    graph: &Graph<T>,
    input: usize,
    weight: usize,
    stride: usize,
    padding: usize,
    groups: usize,
) -> (r: Convolution)
    requires
        input < graph.nodes@.len(),
        weight < graph.nodes@.len(),
        graph.nodes@[input as int].shape@.len() == 4,
        graph.nodes@[weight as int].shape@.len() == 4,
    ensures
        r == convolution(graph.nodes@, input as int, weight as int, stride, padding, groups),
{
    let x = &graph.nodes[input].shape;
    let w = &graph.nodes[weight].shape;
    Convolution {
        batch: x[0],
        in_channels: x[1],
        height: x[2],
        width: x[3],
        out_channels: w[0],
        kernel_h: w[2],
        kernel_w: w[3],
        stride,
        padding,
        groups,
    }
}

/// The extents of an average pool node.
pub(crate) fn pool_geometry<T>(graph: &Graph<T>, input: usize, kernel: [usize; 2], stride: [usize; 2]) -> (r:
    Pooling)
    requires
        input < graph.nodes@.len(),
        graph.nodes@[input as int].shape@.len() == 4,
    ensures
        r == pooling(graph.nodes@, input as int, kernel, stride),
{
    let x = &graph.nodes[input].shape;
    Pooling { batch: x[0], channels: x[1], height: x[2], width: x[3], kernel, stride }
}

/// Once an operand fails, no further operand is evaluated.
proof fn lemma_all_stuck<T>(
    nodes: Seq<Node<T>>,
    start: Ledger<T>,
    i: int,
    k: nat,
    n: nat,
    after: Ledger<T>,
    failure: Failure,
)
    requires
        k <= n,
        all_evaluated(nodes, start, i, k) == (
            after,
            std::result::Result::<Seq<usize>, Failure>::Err(failure),
        ),
    ensures
        all_evaluated(nodes, start, i, n) == (
            after,
            std::result::Result::<Seq<usize>, Failure>::Err(failure),
        ),
    decreases n - k,
{
    if k < n {
        lemma_all_stuck(nodes, start, i, k, (n - 1) as nat, after, failure);
    }
}

} // verus!

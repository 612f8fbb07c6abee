//! Plans with fixed buffers: every operation reads buffers before the one that it writes.

use crate::cuda::command::{Command, Step};
use crate::cuda::launch::Grid;
use crate::error::{Error, Failure, Result};
use crate::text::{decimal, owned, push_decimal};
use vstd::prelude::*;

verus! {

/// An operation of a plan.  Buffers are named by their number.
#[derive(Clone, Copy, Debug, PartialEq, Eq, Structural)]
pub enum PlanOperation {
    Add { left: usize, right: usize, output: usize },
    Mul { left: usize, right: usize, output: usize },
    Relu { input: usize, output: usize },
    MatMul {
        left: usize,
        right: usize,
        output: usize,
        rows: usize,
        columns: usize,
        inner: usize,
    },
}

/// A buffer of a plan.
pub enum BufferPlan<T> {
    /// Filled before every run.
    Input { elements: usize },
    /// Filled once.
    Constant(Vec<T>),
    /// Written by an operation.
    Workspace { elements: usize },
}

/// A plan: its buffers, which of them are inputs, which is the output, and what is run.
pub struct GraphPlan<T> {
    pub buffers: Vec<BufferPlan<T>>,
    pub inputs: Vec<usize>,
    pub output: usize,
    pub operations: Vec<PlanOperation>,
}

impl<T> BufferPlan<T> {
    /// The length of the buffer.
    pub open spec fn len_of(self) -> nat {
        match self {
            BufferPlan::Input { elements } => elements as nat,
            BufferPlan::Constant(values) => values@.len(),
            BufferPlan::Workspace { elements } => elements as nat,
        }
    }

    /// The length of the buffer.
    pub fn elements(&self) -> (r: usize)
        ensures
            r == self.len_of(),
    {
        match self {
            BufferPlan::Input { elements } => *elements,
            BufferPlan::Constant(values) => values.len(),
            BufferPlan::Workspace { elements } => *elements,
        }
    }
}

impl PlanOperation {
    /// The buffer that is written.
    pub open spec fn writes(self) -> usize {
        match self {
            PlanOperation::Add { output, .. } => output,
            PlanOperation::Mul { output, .. } => output,
            PlanOperation::Relu { output, .. } => output,
            PlanOperation::MatMul { output, .. } => output,
        }
    }

    /// The buffers that are read.
    pub open spec fn reads(self) -> Seq<usize> {
        match self {
            PlanOperation::Add { left, right, .. } => seq![left, right],
            PlanOperation::Mul { left, right, .. } => seq![left, right],
            PlanOperation::Relu { input, .. } => seq![input],
            PlanOperation::MatMul { left, right, .. } => seq![left, right],
        }
    }

    /// The threads that are needed, where the buffer that is written has `len` elements.
    pub open spec fn threads(self, len: nat) -> int {
        match self {
            PlanOperation::MatMul { rows, columns, .. } => rows * columns,
            _ => len as int,
        }
    }

    /// What is launched.
    pub open spec fn command<T>(self) -> Command<T> {
        match self {
            PlanOperation::Add { left, right, output } => Command::Add { left, right, out: output },
            PlanOperation::Mul { left, right, output } => Command::Mul { left, right, out: output },
            PlanOperation::Relu { input, output } => Command::Relu { input, out: output },
            PlanOperation::MatMul { left, right, output, rows, columns, inner } => Command::MatMul {
                left,
                right,
                out: output,
                rows,
                inner,
                columns,
            },
        }
    }
}

impl<T> GraphPlan<T> {
    /// Every operation reads buffers before the one that it writes, and its threads can be
    /// counted.
    pub open spec fn wf(self) -> bool {
        &&& self.output < self.buffers@.len()
        &&& forall|i: int|
            0 <= i < self.inputs@.len() ==> (#[trigger] self.inputs@[i]) < self.buffers@.len()
        &&& forall|i: int| 0 <= i < self.operations@.len() ==> #[trigger] self.sound(i)
    }

    /// An operation reads buffers before the one that it writes, and its threads can be
    /// counted.
    pub open spec fn sound(self, i: int) -> bool {
        let operation = self.operations@[i];
        &&& operation.writes() < self.buffers@.len()
        &&& forall|k: int|
            0 <= k < operation.reads().len() ==> (#[trigger] operation.reads()[k])
                < operation.writes()
        &&& operation.threads(self.buffers@[operation.writes() as int].len_of()) <= usize::MAX
    }

    /// The threads of an operation.
    pub open spec fn threads(self, i: int) -> int {
        let operation = self.operations@[i];
        operation.threads(self.buffers@[operation.writes() as int].len_of())
    }

    /// What is launched for an operation.
    pub open spec fn step(self, i: int) -> Step<T> {
        Step {
            command: self.operations@[i].command(),
            grid: Some(Grid::Elements(self.threads(i) as u32)),
        }
    }
}

/// The failure for an operation with too many threads.
pub open spec fn too_large() -> Failure {
    Failure::Execution("CUDA JIT launch is too large"@)
}

/// The launches of a plan, in the order of its operations.
pub fn launch_operations<T>(plan: &GraphPlan<T>) -> (r: Result<Vec<Step<T>>>)
    requires
        plan.wf(),
    ensures
        match r {
            Ok(steps) => {
                &&& steps@ == Seq::new(plan.operations@.len(), |i: int| plan.step(i))
                &&& forall|i: int|
                    0 <= i < plan.operations@.len() ==> #[trigger] plan.threads(i) <= u32::MAX
            },
            Err(error) => {
                &&& error@ == too_large()
                &&& exists|i: int|
                    0 <= i < plan.operations@.len() && #[trigger] plan.threads(i) > u32::MAX
            },
        },
{
    let mut steps: Vec<Step<T>> = Vec::new();
    let mut i: usize = 0;
    while i < plan.operations.len()
        invariant
            plan.wf(),
            i <= plan.operations.len(),
            steps@ == Seq::new(i as nat, |j: int| plan.step(j)),
            forall|j: int| 0 <= j < i ==> #[trigger] plan.threads(j) <= u32::MAX,
        decreases plan.operations.len() - i,
    {
        assert(plan.sound(i as int));
        let (command, elements) = match plan.operations[i] {
            PlanOperation::Add { left, right, output } => (
                Command::Add { left, right, out: output },
                plan.buffers[output].elements(),
            ),
            PlanOperation::Mul { left, right, output } => (
                Command::Mul { left, right, out: output },
                plan.buffers[output].elements(),
            ),
            PlanOperation::Relu { input, output } => (
                Command::Relu { input, out: output },
                plan.buffers[output].elements(),
            ),
            PlanOperation::MatMul { left, right, output, rows, columns, inner } => {
                proof {
                    assert(0 <= rows * columns) by (nonlinear_arith);
                }
                (
                    Command::MatMul { left, right, out: output, rows, inner, columns },
                    rows * columns,
                )
            },
        };
        assert(elements == plan.threads(i as int));
        if elements as u64 > 0xffff_ffff {
            return Err(Error::execution("CUDA JIT launch is too large"));
        }
        steps.push(Step { command, grid: Some(Grid::Elements(elements as u32)) });
        i = i + 1;
        assert(steps@ =~= Seq::new(i as nat, |j: int| plan.step(j)));
    }
    Ok(steps)
}

/// An integer as it is shown.
pub open spec fn signed(n: i32) -> Seq<char> {
    if n < 0 {
        "-"@ + decimal((-(n as int)) as nat)
    } else {
        decimal(n as nat)
    }
}

/// The outcome of a call of the multiplier, by the status that it returned.
pub fn check(status: i32, operation: &str) -> (r: Result<()>)
    ensures
        match r {
            Ok(_) => status == 0,
            Err(error) => status != 0 && error@ == Failure::Execution(
                operation@ + " failed with cuBLAS status "@ + signed(status),
            ),
        },
{
    if status == 0 {
        return Ok(());
    }
    let mut message = owned(operation);
    message.append(" failed with cuBLAS status ");
    let ghost start = message@;
    if status < 0 {
        message.append("-");
        push_decimal(&mut message, (-(status as i64)) as usize);
        assert(message@ =~= start + signed(status));
    } else {
        push_decimal(&mut message, status as usize);
    }
    Err(Error::Execution(message))
}

} // verus!

//! The launches of a Gemma model on a device, recorded in order.
//!
//! Every launch but those into the key and value caches writes a buffer of its own.

use crate::cuda::attention_kernels::{Heads, Ring};
use crate::cuda::launch::Grid;
use crate::cuda::model_kernels::Rotation;
use crate::error::{Failure, Result};
use crate::scalar::{counted, decoded, one, quotient, rooted, Scalar};
use vstd::prelude::*;

verus! {

/// The rows of a prompt at most, and the positions that a block attends to at most.
pub const MOST_ROWS: usize = 4096;

/// A factor that does not depend on data.
#[derive(Clone, Copy, Debug, PartialEq, Eq, Structural)]
pub enum Factor {
    /// The root of a count.
    Root(usize),
    /// One over the root of a count.
    InverseRoot(usize),
    /// One over the root of two.
    HalfRoot,
}

/// A part of a key and value cache.
#[derive(Clone, Copy, Debug, PartialEq, Eq, Structural)]
pub enum Side {
    Key,
    Value,
}

/// What is launched.  Buffers and weights are named by their number, caches by their
/// layer.
#[derive(Clone, Copy)]
pub enum Launch<T> {
    /// Sets the token and the position of the decoder's state.
    SetState { token: usize, position: usize },
    /// The same, and marks the token where that is asked.
    UpdateState { token: usize, position: usize, mark: bool },
    /// Makes a map of the tokens that were seen, none of them.
    ClearSeen { tokens: usize },
    /// Marks a token as seen.
    MarkSeen { token: usize },
    /// A range of a weight, scaled.
    WeightRange { weight: usize, offset: usize, factor: Factor, out: usize },
    /// The row of a weight that the decoder's state names, scaled.
    WeightRowState { weight: usize, width: usize, factor: Factor, out: usize },
    /// The rows of a weight that the tokens of the prompt name, scaled.
    WeightRows { weight: usize, width: usize, factor: Factor, out: usize },
    /// Rounded to sixteen bits.
    Shorten { input: usize, out: usize },
    RmsNorm { input: usize, weight: usize, hidden: usize, epsilon: T, out: usize },
    /// The same, rounded to sixteen bits.
    RmsNormShort { input: usize, weight: usize, hidden: usize, epsilon: T, out: usize },
    RmsNormUnit { input: usize, hidden: usize, epsilon: T, out: usize },
    Rope { input: usize, rotation: Rotation, position: usize, theta: T, factor: T, out: usize },
    RopeState { input: usize, rotation: Rotation, theta: T, factor: T, out: usize },
    /// `block`: by blocks that share the weights of their head.
    Attend {
        query: usize,
        key: usize,
        value: usize,
        heads: Heads,
        ring: Ring,
        sequence: usize,
        window: usize,
        block: bool,
        out: usize,
    },
    /// Attention to what a cache keeps.
    AttendCache {
        query: usize,
        layer: usize,
        heads: Heads,
        ring: Ring,
        sequence: usize,
        window: usize,
        block: bool,
        out: usize,
    },
    /// Attention to what a cache keeps, at the position of the decoder's state.
    AttendState {
        query: usize,
        layer: usize,
        heads: Heads,
        window: usize,
        capacity: usize,
        block: bool,
        out: usize,
    },
    /// Causal attention of a whole prompt to what a cache keeps.
    AttendPrompt {
        query: usize,
        layer: usize,
        rows: usize,
        heads: Heads,
        window: usize,
        out: usize,
    },
    CacheWrite { layer: usize, side: Side, offset: usize, input: usize },
    /// At the position of the decoder's state.
    CacheWriteState { layer: usize, side: Side, width: usize, capacity: usize, input: usize },
    /// The product with the transpose of a weight.
    Linear {
        input: usize,
        weight: usize,
        rows: usize,
        outputs: usize,
        inputs: usize,
        out: usize,
    },
    Slice { input: usize, offset: usize, out: usize },
    SliceRows { input: usize, input_width: usize, offset: usize, output_width: usize, out: usize },
    Gelu { input: usize, out: usize },
    GeluMul { gate: usize, up: usize, out: usize },
    Add { left: usize, right: usize, out: usize },
    Mul { left: usize, right: usize, out: usize },
    Scale { input: usize, factor: Factor, out: usize },
    ScaleByWeight { input: usize, weight: usize, out: usize },
    /// The best tokens of each block.
    PickBlocks { logits: usize, picks: usize, penalty: T, scores: usize, ids: usize },
    /// The best of the tokens of all blocks.
    PickBest {
        picks: usize,
        block_scores: usize,
        block_ids: usize,
        scores: usize,
        ids: usize,
    },
}

/// A launch and its threads; products and copies have none.
#[derive(Clone, Copy)]
pub struct Order<T> {
    pub launch: Launch<T>,
    pub grid: Option<Grid>,
}

/// What was recorded, and why recording stopped, where it did.
#[verifier::ext_equal]
pub struct Tape<T> {
    /// The length of each buffer.
    pub lens: Seq<usize>,
    pub log: Seq<Order<T>>,
    /// There is a map of the tokens that were seen.
    pub seen: bool,
    pub failure: Option<Failure>,
}

impl<T> Tape<T> {
    pub open spec fn stopped(self) -> bool {
        self.failure is Some
    }

    /// The number of the next buffer.
    pub open spec fn next(self) -> usize {
        self.lens.len() as usize
    }

    /// Recording stops.
    pub open spec fn stop(self, failure: Failure) -> (Tape<T>, usize) {
        (Tape { failure: Some(failure), ..self }, 0)
    }

    /// With one buffer more.
    pub open spec fn with_buffer(self, len: usize) -> Tape<T> {
        Tape { lens: self.lens.push(len), ..self }
    }

    /// With one launch more.
    pub open spec fn ordered(self, launch: Launch<T>, grid: Option<Grid>) -> Tape<T> {
        Tape { log: self.log.push(Order { launch, grid }), ..self }
    }

    /// A launch that has to have a grid.
    pub open spec fn launched(
        self,
        launch: Launch<T>,
        grid: std::result::Result<Grid, Failure>,
    ) -> Tape<T> {
        match grid {
            Ok(grid) => self.ordered(launch, Some(grid)),
            Err(failure) => Tape { failure: Some(failure), ..self },
        }
    }

    /// A buffer filled by one launch.
    pub open spec fn filled(
        self,
        len: usize,
        launch: Launch<T>,
        grid: std::result::Result<Grid, Failure>,
    ) -> (Tape<T>, usize) {
        (self.with_buffer(len).launched(launch, grid), self.next())
    }
}

/// Recording went on as planned, or stopped where the plan does.
pub open spec fn obeys<T>(after: Tape<T>, r: Result<usize>, plan: (Tape<T>, usize)) -> bool {
    match r {
        Ok(buffer) => plan == (after, buffer),
        Err(error) => plan.0 == (Tape { failure: Some(error@), ..after }),
    }
}

/// The same where there is no buffer.
pub open spec fn heeds<T>(after: Tape<T>, r: Result<()>, plan: Tape<T>) -> bool {
    match r {
        Ok(_) => plan == after,
        Err(error) => plan == (Tape { failure: Some(error@), ..after }),
    }
}

/// Buffers stay, and what comes of a success is one of them.
pub open spec fn keeps<T>(before: Tape<T>, after: Tape<T>, r: Result<usize>) -> bool {
    &&& extends(before, after)
    &&& r matches Ok(buffer) ==> buffer < after.lens.len()
}

/// Buffers stay.
pub open spec fn extends<T>(before: Tape<T>, after: Tape<T>) -> bool {
    &&& before.lens.len() <= after.lens.len()
    &&& forall|i: int|
        0 <= i < before.lens.len() ==> #[trigger] after.lens[i] == before.lens[i]
}

/// A recording.
pub struct Recorder<T> {
    pub lens: Vec<usize>,
    pub log: Vec<Order<T>>,
    pub seen: bool,
}

impl<T> View for Recorder<T> {
    type V = Tape<T>;

    open spec fn view(&self) -> Tape<T> {
        Tape { lens: self.lens@, log: self.log@, seen: self.seen, failure: None }
    }
}

impl<T> Recorder<T> {
    /// An empty recording.
    pub fn new() -> (r: Recorder<T>)
        ensures
            r@ == (Tape::<T> { lens: seq![], log: seq![], seen: false, failure: None }),
    {
        let r = Recorder { lens: Vec::new(), log: Vec::new(), seen: false };
        assert(r@ =~= (Tape::<T> { lens: seq![], log: seq![], seen: false, failure: None }));
        r
    }

    /// The length of a buffer.
    pub fn len_of(&self, buffer: usize) -> (r: usize)
        requires
            buffer < self@.lens.len(),
        ensures
            r == self@.lens[buffer as int],
    {
        self.lens[buffer]
    }

    /// Makes a buffer.
    pub fn output(&mut self, len: usize) -> (r: usize)
        ensures
            final(self)@ == old(self)@.with_buffer(len),
            r == old(self)@.next(),
            r == old(self)@.lens.len(),
    {
        let r: usize = self.lens.len();
        self.lens.push(len);
        r
    }

    /// Records a launch.
    pub fn order(&mut self, launch: Launch<T>, grid: Option<Grid>)
        ensures
            final(self)@ == old(self)@.ordered(launch, grid),
    {
        self.log.push(Order { launch, grid });
    }

    /// Records a launch that has to have a grid.
    pub fn launch(&mut self, launch: Launch<T>, grid: Result<Grid>) -> (r: Result<()>)
        ensures
            heeds(final(self)@, r, old(self)@.launched(launch, grid_view(grid))),
            extends(old(self)@, final(self)@),
    {
        let grid = grid?;
        self.order(launch, Some(grid));
        Ok(())
    }
}

/// The outcome of laying out a launch.
pub open spec fn grid_view(grid: Result<Grid>) -> std::result::Result<Grid, Failure> {
    match grid {
        Ok(grid) => Ok(grid),
        Err(error) => Err(error@),
    }
}

/// `r` is a factor.
pub open spec fn factor_is<T: Scalar>(factor: Factor, r: T) -> bool {
    match factor {
        Factor::Root(n) => exists|count: T| counted(n, count) && #[trigger] rooted(count, r),
        Factor::InverseRoot(n) => exists|count: T, root: T, unit: T|
            {
                &&& counted(n, count)
                &&& #[trigger] rooted(count, root)
                &&& one(unit)
                &&& #[trigger] quotient(unit, root, r)
            },
        Factor::HalfRoot => decoded(HALF_ROOT, r),
    }
}

/// The bits of one over the root of two.
pub const HALF_ROOT: u32 = 0x3f35_04f3;

impl Factor {
    /// The factor as an element.
    pub fn value<T: Scalar>(self) -> (r: T)
        ensures
            factor_is(self, r),
    {
        match self {
            Factor::Root(n) => {
                let count = T::of_count(n);
                let r = count.root();
                assert(counted(n, count) && rooted(count, r));
                r
            },
            Factor::InverseRoot(n) => {
                let count = T::of_count(n);
                let root = count.root();
                let unit = T::of_count(1);
                let r = unit.over(root);
                assert(counted(n, count) && rooted(count, root) && one(unit) && quotient(
                    unit,
                    root,
                    r,
                ));
                r
            },
            Factor::HalfRoot => T::of_bits(HALF_ROOT),
        }
    }
}

} // verus!

//! The single operations of a Gemma model: what each checks, makes and launches.
//!
//! An operation on a recording that has stopped does nothing.

use crate::cuda::launch::{model_grid, model_launch_config, row_grid, row_launch_config};
use crate::cuda::model_kernels::Rotation;
use crate::error::{Error, Failure, Result};
use crate::gemma4_cuda::tape::{keeps, obeys, Launch, Recorder, Tape, MOST_ROWS};
use crate::gemma4_cuda::weights::{
    bad_number, is_product, small, usable_shape, weight_missing, Gemma4CudaState,
};
use crate::text::{decimal, owned, push_decimal};
use vstd::prelude::*;

verus! {

/// What a message calls a weight: by its name, or as one of the plan.
pub enum Label<'a> {
    Named(&'a str),
    Planned,
}

impl<'a> View for Label<'a> {
    type V = Option<Seq<char>>;

    open spec fn view(&self) -> Option<Seq<char>> {
        match self {
            Label::Named(name) => Some(name@),
            Label::Planned => None,
        }
    }
}

/// The failure for a norm whose weight is no vector.
pub open spec fn not_a_vector(label: Option<Seq<char>>) -> Failure {
    Failure::InvalidShape(
        match label {
            Some(name) => name + " is not one-dimensional"@,
            None => "decode-plan RMSNorm weight is invalid"@,
        },
    )
}

/// The failure for a norm whose input does not consist of rows.
pub open spec fn not_in_rows(label: Option<Seq<char>>) -> Failure {
    Failure::InvalidShape(
        match label {
            Some(name) => name + " does not match its RMSNorm input"@,
            None => "decode-plan RMSNorm input mismatch"@,
        },
    )
}

/// The failure for a product whose weight is no matrix.
pub open spec fn not_a_matrix(label: Option<Seq<char>>) -> Failure {
    Failure::InvalidShape(
        match label {
            Some(name) => name + " is not a matrix"@,
            None => "decode-plan linear weight is not a matrix"@,
        },
    )
}

/// The failure for a product whose input has another length.
pub open spec fn input_mismatch(
    label: Option<Seq<char>>,
    kind: Seq<char>,
    found: usize,
    expected: int,
) -> Failure {
    Failure::InvalidShape(
        match label {
            Some(name) => name + kind + " has "@ + decimal(found as nat) + " elements, expected "@
                + decimal(expected as nat),
            None => "decode-plan BF16 linear input mismatch"@,
        },
    )
}

/// A failure that names a weight, or that does not.
fn label_error(label: &Label, named: &str, planned: &str) -> (r: Error)
    ensures
        r@ == Failure::InvalidShape(
            match label@ {
                Some(name) => name + named@,
                None => planned@,
            },
        ),
{
    match label {
        Label::Named(name) => {
            let mut message = owned(*name);
            message.append(named);
            Error::InvalidShape(message)
        },
        Label::Planned => Error::shape(planned),
    }
}

impl<T: Copy> Gemma4CudaState<T> {
    /// A buffer rounded to sixteen bits.
    pub open spec fn shortened(self, t: Tape<T>, input: usize) -> (Tape<T>, usize) {
        if t.stopped() {
            (t, 0)
        } else {
            let len = t.lens[input as int];
            t.filled(len, Launch::Shorten { input, out: t.next() }, model_grid(len as nat))
        }
    }

    pub(crate) fn to_bf16(&self, tape: &mut Recorder<T>, input: usize) -> (r: Result<usize>)
        requires
            input < old(tape)@.lens.len(),
        ensures
            obeys(final(tape)@, r, self.shortened(old(tape)@, input)),
            keeps(old(tape)@, final(tape)@, r),
    {
        let len: usize = tape.len_of(input);
        let out: usize = tape.output(len);
        tape.launch(Launch::Shorten { input, out }, model_launch_config(len))?;
        Ok(out)
    }

    /// Rows normalized by a weight that was found.
    pub open spec fn normed_by(
        self,
        t: Tape<T>,
        input: usize,
        weight: usize,
        label: Option<Seq<char>>,
        epsilon: T,
        short: bool,
    ) -> (Tape<T>, usize) {
        let shape = self.weights@[weight as int].shape@;
        let len = t.lens[input as int];
        if shape.len() != 1 {
            t.stop(not_a_vector(label))
        } else if len % shape[0] != 0 {
            t.stop(not_in_rows(label))
        } else {
            let (hidden, out) = (shape[0], t.next());
            t.filled(
                len,
                if short {
                    Launch::RmsNormShort { input, weight, hidden, epsilon, out }
                } else {
                    Launch::RmsNorm { input, weight, hidden, epsilon, out }
                },
                row_grid((len / hidden) as nat),
            )
        }
    }

    fn norm_by(
        &self,
        tape: &mut Recorder<T>,
        input: usize,
        weight: usize,
        label: Label,
        epsilon: T,
        short: bool,
    ) -> (r: Result<usize>)
        requires
            self.wf(),
            input < old(tape)@.lens.len(),
            weight < self.weights@.len(),
        ensures
            obeys(
                final(tape)@,
                r,
                self.normed_by(old(tape)@, input, weight, label@, epsilon, short),
            ),
            keeps(old(tape)@, final(tape)@, r),
    {
        let shape = &self.weights[weight].shape;
        assert(usable_shape(self.weights@[weight as int].shape@));
        if shape.len() != 1 {
            return Err(
                label_error(
                    &label,
                    " is not one-dimensional",
                    "decode-plan RMSNorm weight is invalid",
                ),
            );
        }
        let hidden: usize = shape[0];
        let len: usize = tape.len_of(input);
        if len % hidden != 0 {
            return Err(
                label_error(
                    &label,
                    " does not match its RMSNorm input",
                    "decode-plan RMSNorm input mismatch",
                ),
            );
        }
        let out: usize = tape.output(len);
        let launch = if short {
            Launch::RmsNormShort { input, weight, hidden, epsilon, out }
        } else {
            Launch::RmsNorm { input, weight, hidden, epsilon, out }
        };
        tape.launch(launch, row_launch_config(len / hidden))?;
        Ok(out)
    }

    /// Rows normalized by a weight, by its name.
    pub open spec fn normed(
        self,
        t: Tape<T>,
        input: usize,
        name: Seq<char>,
        epsilon: T,
        short: bool,
    ) -> (Tape<T>, usize) {
        if t.stopped() {
            (t, 0)
        } else {
            match self.weight_number(name) {
                None => t.stop(weight_missing(name)),
                Some(weight) => self.normed_by(t, input, weight, Some(name), epsilon, short),
            }
        }
    }

    pub(crate) fn rms_norm(&self, tape: &mut Recorder<T>, input: usize, name: &str, epsilon: T) -> (r:
        Result<usize>)
        requires
            self.wf(),
            input < old(tape)@.lens.len(),
        ensures
            obeys(final(tape)@, r, self.normed(old(tape)@, input, name@, epsilon, false)),
            keeps(old(tape)@, final(tape)@, r),
    {
        let weight: usize = self.weight(name)?;
        self.norm_by(tape, input, weight, Label::Named(name), epsilon, false)
    }

    pub(crate) fn rms_norm_bf16(
        &self,
        tape: &mut Recorder<T>,
        input: usize,
        name: &str,
        epsilon: T,
    ) -> (r: Result<usize>)
        requires
            self.wf(),
            input < old(tape)@.lens.len(),
        ensures
            obeys(final(tape)@, r, self.normed(old(tape)@, input, name@, epsilon, true)),
            keeps(old(tape)@, final(tape)@, r),
    {
        let weight: usize = self.weight(name)?;
        self.norm_by(tape, input, weight, Label::Named(name), epsilon, true)
    }

    /// Rows normalized by a weight, by its number.
    pub open spec fn normed_at(
        self,
        t: Tape<T>,
        input: usize,
        weight: usize,
        epsilon: T,
        short: bool,
    ) -> (Tape<T>, usize) {
        if t.stopped() {
            (t, 0)
        } else if weight >= self.weights@.len() {
            t.stop(bad_number())
        } else {
            self.normed_by(t, input, weight, None, epsilon, short)
        }
    }

    pub(crate) fn rms_norm_at(
        &self,
        tape: &mut Recorder<T>,
        input: usize,
        index: usize,
        epsilon: T,
    ) -> (r: Result<usize>)
        requires
            self.wf(),
            input < old(tape)@.lens.len(),
        ensures
            obeys(final(tape)@, r, self.normed_at(old(tape)@, input, index, epsilon, false)),
            keeps(old(tape)@, final(tape)@, r),
    {
        let weight: usize = self.weight_at(index)?;
        self.norm_by(tape, input, weight, Label::Planned, epsilon, false)
    }

    pub(crate) fn rms_norm_bf16_at(
        &self,
        tape: &mut Recorder<T>,
        input: usize,
        index: usize,
        epsilon: T,
    ) -> (r: Result<usize>)
        requires
            self.wf(),
            input < old(tape)@.lens.len(),
        ensures
            obeys(final(tape)@, r, self.normed_at(old(tape)@, input, index, epsilon, true)),
            keeps(old(tape)@, final(tape)@, r),
    {
        let weight: usize = self.weight_at(index)?;
        self.norm_by(tape, input, weight, Label::Planned, epsilon, true)
    }

    /// Rows normalized without a weight.
    pub open spec fn normed_unit(self, t: Tape<T>, input: usize, hidden: usize, epsilon: T) -> (
        Tape<T>,
        usize,
    ) {
        let len = t.lens[input as int];
        if t.stopped() {
            (t, 0)
        } else if hidden == 0 || len % hidden != 0 {
            t.stop(Failure::InvalidShape("unit RMSNorm shape mismatch"@))
        } else {
            t.filled(
                len,
                Launch::RmsNormUnit { input, hidden, epsilon, out: t.next() },
                row_grid((len / hidden) as nat),
            )
        }
    }

    pub(crate) fn rms_norm_unit(
        &self,
        tape: &mut Recorder<T>,
        input: usize,
        hidden: usize,
        epsilon: T,
    ) -> (r: Result<usize>)
        requires
            input < old(tape)@.lens.len(),
        ensures
            obeys(final(tape)@, r, self.normed_unit(old(tape)@, input, hidden, epsilon)),
            keeps(old(tape)@, final(tape)@, r),
    {
        let len: usize = tape.len_of(input);
        if hidden == 0 || len % hidden != 0 {
            return Err(Error::shape("unit RMSNorm shape mismatch"));
        }
        let out: usize = tape.output(len);
        tape.launch(
            Launch::RmsNormUnit { input, hidden, epsilon, out },
            row_launch_config(len / hidden),
        )?;
        Ok(out)
    }

    /// The heads of a buffer are whole.
    pub open spec fn whole_heads(len: usize, rotation: Rotation) -> bool {
        &&& rotation.heads != 0
        &&& rotation.head_dim != 0
        &&& len as int % (rotation.heads * rotation.head_dim) == 0
    }

    fn has_whole_heads(len: usize, rotation: Rotation) -> (r: bool)
        ensures
            r == Self::whole_heads(len, rotation),
    {
        if rotation.heads == 0 || rotation.head_dim == 0 {
            return false;
        }
        proof {
            let (a, b) = (rotation.heads, rotation.head_dim);
            assert(0 < a * b <= usize::MAX * usize::MAX) by (nonlinear_arith)
                requires
                    0 < a <= usize::MAX,
                    0 < b <= usize::MAX,
            ;
            assert(usize::MAX * usize::MAX <= u128::MAX) by (nonlinear_arith)
                requires
                    usize::MAX <= u64::MAX,
            ;
        }
        len as u128 % (rotation.heads as u128 * rotation.head_dim as u128) == 0
    }

    /// Heads rotated by their positions.
    pub open spec fn rotated(
        self,
        t: Tape<T>,
        input: usize,
        rotation: Rotation,
        position: usize,
        theta: T,
        factor: T,
    ) -> (Tape<T>, usize) {
        let len = t.lens[input as int];
        if t.stopped() {
            (t, 0)
        } else if !Self::whole_heads(len, rotation) {
            t.stop(Failure::InvalidShape("RoPE shape mismatch"@))
        } else {
            t.filled(
                len,
                Launch::Rope { input, rotation, position, theta, factor, out: t.next() },
                model_grid(len as nat),
            )
        }
    }

    pub(crate) fn rope(
        &self,
        tape: &mut Recorder<T>,
        input: usize,
        rotation: Rotation,
        position: usize,
        theta: T,
        factor: T,
    ) -> (r: Result<usize>)
        requires
            input < old(tape)@.lens.len(),
        ensures
            obeys(
                final(tape)@,
                r,
                self.rotated(old(tape)@, input, rotation, position, theta, factor),
            ),
            keeps(old(tape)@, final(tape)@, r),
    {
        let len: usize = tape.len_of(input);
        if !Self::has_whole_heads(len, rotation) {
            return Err(Error::shape("RoPE shape mismatch"));
        }
        let out: usize = tape.output(len);
        tape.launch(
            Launch::Rope { input, rotation, position, theta, factor, out },
            model_launch_config(len),
        )?;
        Ok(out)
    }

    /// Heads rotated by the position of the decoder's state.
    pub open spec fn rotated_state(
        self,
        t: Tape<T>,
        input: usize,
        rotation: Rotation,
        theta: T,
        factor: T,
    ) -> (Tape<T>, usize) {
        let len = t.lens[input as int];
        if t.stopped() {
            (t, 0)
        } else if !Self::whole_heads(len, rotation) {
            t.stop(Failure::InvalidShape("state RoPE shape mismatch"@))
        } else {
            t.filled(
                len,
                Launch::RopeState { input, rotation, theta, factor, out: t.next() },
                model_grid(len as nat),
            )
        }
    }

    pub(crate) fn rope_state(
        &self,
        tape: &mut Recorder<T>,
        input: usize,
        rotation: Rotation,
        theta: T,
        factor: T,
    ) -> (r: Result<usize>)
        requires
            input < old(tape)@.lens.len(),
        ensures
            obeys(
                final(tape)@,
                r,
                self.rotated_state(old(tape)@, input, rotation, theta, factor),
            ),
            keeps(old(tape)@, final(tape)@, r),
    {
        let len: usize = tape.len_of(input);
        if !Self::has_whole_heads(len, rotation) {
            return Err(Error::shape("state RoPE shape mismatch"));
        }
        let out: usize = tape.output(len);
        tape.launch(
            Launch::RopeState { input, rotation, theta, factor, out },
            model_launch_config(len),
        )?;
        Ok(out)
    }

    /// A product by a matrix, whose extents the multiplier holds against the buffers.
    pub open spec fn multiplied(
        self,
        t: Tape<T>,
        input: usize,
        weight: usize,
        rows: usize,
        outputs: usize,
        inputs: usize,
    ) -> (Tape<T>, usize) {
        let out = t.next();
        let made = t.with_buffer((rows * outputs) as usize);
        if t.lens[input as int] != rows * inputs || self.weights@[weight as int].len != outputs
            * inputs {
            made.stop(Failure::InvalidShape("cuBLAS linear buffer length mismatch"@))
        } else if rows > i32::MAX || outputs > i32::MAX || inputs > i32::MAX {
            made.stop(Failure::Execution("cuBLAS dimension exceeds i32"@))
        } else {
            (made.ordered(Launch::Linear { input, weight, rows, outputs, inputs, out }, None), out)
        }
    }

    pub(crate) fn multiply(
        &self,
        tape: &mut Recorder<T>,
        input: usize,
        weight: usize,
        rows: usize,
        outputs: usize,
        inputs: usize,
    ) -> (r: Result<usize>)
        requires
            input < old(tape)@.lens.len(),
            weight < self.weights@.len(),
            rows * outputs <= usize::MAX,
        ensures
            obeys(
                final(tape)@,
                r,
                self.multiplied(old(tape)@, input, weight, rows, outputs, inputs),
            ),
            keeps(old(tape)@, final(tape)@, r),
    {
        let len: usize = tape.len_of(input);
        let out: usize = tape.output(rows * outputs);
        if !is_product(len, rows, inputs) || !is_product(
            self.weights[weight].len,
            outputs,
            inputs,
        ) {
            return Err(Error::shape("cuBLAS linear buffer length mismatch"));
        }
        if rows > 0x7fff_ffff || outputs > 0x7fff_ffff || inputs > 0x7fff_ffff {
            return Err(Error::execution("cuBLAS dimension exceeds i32"));
        }
        tape.order(Launch::Linear { input, weight, rows, outputs, inputs, out }, None);
        Ok(out)
    }

    /// Rows of sixteen bits multiplied by a weight that was found.
    pub open spec fn projected_by(
        self,
        t: Tape<T>,
        input: usize,
        rows: usize,
        weight: usize,
        label: Option<Seq<char>>,
    ) -> (Tape<T>, usize) {
        let shape = self.weights@[weight as int].shape@;
        let len = t.lens[input as int];
        if shape.len() != 2 {
            t.stop(not_a_matrix(label))
        } else if len != rows * shape[1] {
            t.stop(input_mismatch(label, " BF16 input"@, len, rows * shape[1]))
        } else {
            self.multiplied(t, input, weight, rows, shape[0], shape[1])
        }
    }

    fn project_by(
        &self,
        tape: &mut Recorder<T>,
        input: usize,
        rows: usize,
        weight: usize,
        label: Label,
    ) -> (r: Result<usize>)
        requires
            self.wf(),
            rows <= MOST_ROWS,
            input < old(tape)@.lens.len(),
            weight < self.weights@.len(),
        ensures
            obeys(
                final(tape)@,
                r,
                self.projected_by(old(tape)@, input, rows, weight, label@),
            ),
            keeps(old(tape)@, final(tape)@, r),
    {
        let shape = &self.weights[weight].shape;
        assert(usable_shape(self.weights@[weight as int].shape@));
        if shape.len() != 2 {
            return Err(
                label_error(
                    &label,
                    " is not a matrix",
                    "decode-plan linear weight is not a matrix",
                ),
            );
        }
        let (outputs, inputs) = (shape[0], shape[1]);
        proof {
            assert(small(shape@[0]) && small(shape@[1]));
            lemma_rows(rows, outputs);
            lemma_rows(rows, inputs);
        }
        let len: usize = tape.len_of(input);
        if len != rows * inputs {
            return Err(mismatch_error(&label, " BF16 input", len, rows * inputs));
        }
        self.multiply(tape, input, weight, rows, outputs, inputs)
    }

    /// Rows of sixteen bits multiplied by a weight, by its name.
    pub open spec fn projected(self, t: Tape<T>, input: usize, rows: usize, name: Seq<char>) -> (
        Tape<T>,
        usize,
    ) {
        if t.stopped() {
            (t, 0)
        } else {
            match self.weight_number(name) {
                None => t.stop(weight_missing(name)),
                Some(weight) => self.projected_by(t, input, rows, weight, Some(name)),
            }
        }
    }

    pub(crate) fn linear_bf16(&self, tape: &mut Recorder<T>, input: usize, rows: usize, name: &str) -> (r:
        Result<usize>)
        requires
            self.wf(),
            rows <= MOST_ROWS,
            input < old(tape)@.lens.len(),
        ensures
            obeys(final(tape)@, r, self.projected(old(tape)@, input, rows, name@)),
            keeps(old(tape)@, final(tape)@, r),
    {
        let weight: usize = self.weight(name)?;
        self.project_by(tape, input, rows, weight, Label::Named(name))
    }

    /// Rows of sixteen bits multiplied by a weight, by its number.
    pub open spec fn projected_at(self, t: Tape<T>, input: usize, rows: usize, weight: usize) -> (
        Tape<T>,
        usize,
    ) {
        if t.stopped() {
            (t, 0)
        } else if weight >= self.weights@.len() {
            t.stop(bad_number())
        } else {
            self.projected_by(t, input, rows, weight, None)
        }
    }

    pub(crate) fn linear_bf16_at(
        &self,
        tape: &mut Recorder<T>,
        input: usize,
        rows: usize,
        index: usize,
    ) -> (r: Result<usize>)
        requires
            self.wf(),
            rows <= MOST_ROWS,
            input < old(tape)@.lens.len(),
        ensures
            obeys(final(tape)@, r, self.projected_at(old(tape)@, input, rows, index)),
            keeps(old(tape)@, final(tape)@, r),
    {
        let weight: usize = self.weight_at(index)?;
        self.project_by(tape, input, rows, weight, Label::Planned)
    }

    /// Rows rounded to sixteen bits and multiplied by a weight, by its number.
    pub open spec fn mapped_at(self, t: Tape<T>, input: usize, rows: usize, weight: usize) -> (
        Tape<T>,
        usize,
    ) {
        if t.stopped() {
            (t, 0)
        } else {
            let (t, short) = self.shortened(t, input);
            self.projected_at(t, short, rows, weight)
        }
    }

    pub(crate) fn linear_at(
        &self,
        tape: &mut Recorder<T>,
        input: usize,
        rows: usize,
        index: usize,
    ) -> (r: Result<usize>)
        requires
            self.wf(),
            rows <= MOST_ROWS,
            input < old(tape)@.lens.len(),
        ensures
            obeys(final(tape)@, r, self.mapped_at(old(tape)@, input, rows, index)),
            keeps(old(tape)@, final(tape)@, r),
    {
        let short: usize = self.to_bf16(tape, input)?;
        self.linear_bf16_at(tape, short, rows, index)
    }

    /// Rows rounded to sixteen bits and multiplied by a weight, by its name.
    pub open spec fn mapped(self, t: Tape<T>, input: usize, rows: usize, name: Seq<char>) -> (
        Tape<T>,
        usize,
    ) {
        let len = t.lens[input as int];
        if t.stopped() {
            (t, 0)
        } else {
            match self.weight_number(name) {
                None => t.stop(weight_missing(name)),
                Some(weight) => {
                    let shape = self.weights@[weight as int].shape@;
                    if shape.len() != 2 {
                        t.stop(not_a_matrix(Some(name)))
                    } else if len != rows * shape[1] {
                        t.stop(input_mismatch(Some(name), " input"@, len, rows * shape[1]))
                    } else {
                        let (t, short) = self.shortened(t, input);
                        self.projected(t, short, rows, name)
                    }
                },
            }
        }
    }

    pub(crate) fn linear(&self, tape: &mut Recorder<T>, input: usize, rows: usize, name: &str) -> (r:
        Result<usize>)
        requires
            self.wf(),
            rows <= MOST_ROWS,
            input < old(tape)@.lens.len(),
        ensures
            obeys(final(tape)@, r, self.mapped(old(tape)@, input, rows, name@)),
            keeps(old(tape)@, final(tape)@, r),
    {
        let weight: usize = self.weight(name)?;
        let shape = &self.weights[weight].shape;
        assert(usable_shape(self.weights@[weight as int].shape@));
        if shape.len() != 2 {
            return Err(label_error(&Label::Named(name), " is not a matrix", ""));
        }
        let inputs: usize = shape[1];
        proof {
            assert(small(shape@[1]));
            lemma_rows(rows, inputs);
        }
        let len: usize = tape.len_of(input);
        if len != rows * inputs {
            return Err(mismatch_error(&Label::Named(name), " input", len, rows * inputs));
        }
        let short: usize = self.to_bf16(tape, input)?;
        self.linear_bf16(tape, short, rows, name)
    }
}

/// Rows of a small width can be counted.
pub proof fn lemma_rows(rows: usize, width: usize)
    requires
        rows <= MOST_ROWS,
        small(width),
    ensures
        0 <= rows * width <= usize::MAX,
{
    assert(0 <= rows * width <= width * MOST_ROWS) by (nonlinear_arith)
        requires
            0 <= rows <= MOST_ROWS,
            0 <= width,
    ;
}

/// The failure for an input of another length.
fn mismatch_error(label: &Label, kind: &str, found: usize, expected: usize) -> (r: Error)
    ensures
        r@ == input_mismatch(label@, kind@, found, expected as int),
{
    match label {
        Label::Named(name) => {
            let mut message = owned(*name);
            message.append(kind);
            message.append(" has ");
            push_decimal(&mut message, found);
            message.append(" elements, expected ");
            push_decimal(&mut message, expected);
            Error::InvalidShape(message)
        },
        Label::Planned => Error::shape("decode-plan BF16 linear input mismatch"),
    }
}

} // verus!

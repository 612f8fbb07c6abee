//! Operations of a Gemma model on single elements, on ranges, and on rows of weights.

use crate::cuda::launch::{model_grid, model_launch_config};
use crate::error::{Error, Failure, Result};
use crate::gemma4_cuda::ops::lemma_rows;
use crate::gemma4_cuda::tape::{extends, keeps, obeys, Factor, Launch, Recorder, Tape, MOST_ROWS};
use crate::gemma4_cuda::weights::{
    bad_number, is_product, small, usable_shape, weight_missing, whole, Gemma4CudaState,
};
use crate::index::lemma_flat;
use crate::text::{owned, push_shape, shape_text};
use vstd::prelude::*;

verus! {

/// Which operation joins two buffers, element by element.
#[derive(Clone, Copy, Debug, PartialEq, Eq, Structural)]
pub enum Join {
    Add,
    Mul,
    GeluMul,
}

/// The failure for buffers of different lengths.
pub open spec fn unequal(join: Join) -> Failure {
    Failure::InvalidShape(
        match join {
            Join::Add => "residual length mismatch"@,
            Join::Mul => "elementwise multiply mismatch"@,
            Join::GeluMul => "GELU gate/up length mismatch"@,
        },
    )
}

/// The launch that joins two buffers.
pub open spec fn joining<T>(join: Join, left: usize, right: usize, out: usize) -> Launch<T> {
    match join {
        Join::Add => Launch::Add { left, right, out },
        Join::Mul => Launch::Mul { left, right, out },
        Join::GeluMul => Launch::GeluMul { gate: left, up: right, out },
    }
}

impl<T: Copy> Gemma4CudaState<T> {
    /// Two buffers joined, element by element.
    pub open spec fn joined(self, t: Tape<T>, join: Join, left: usize, right: usize) -> (
        Tape<T>,
        usize,
    ) {
        let len = t.lens[left as int];
        if t.stopped() {
            (t, 0)
        } else if len != t.lens[right as int] {
            t.stop(unequal(join))
        } else {
            t.filled(len, joining(join, left, right, t.next()), model_grid(len as nat))
        }
    }

    pub(crate) fn join(&self, tape: &mut Recorder<T>, join: Join, left: usize, right: usize) -> (r:
        Result<usize>)
        requires
            left < old(tape)@.lens.len(),
            right < old(tape)@.lens.len(),
        ensures
            obeys(final(tape)@, r, self.joined(old(tape)@, join, left, right)),
            keeps(old(tape)@, final(tape)@, r),
    {
        let len: usize = tape.len_of(left);
        if len != tape.len_of(right) {
            return match join {
                Join::Add => Err(Error::shape("residual length mismatch")),
                Join::Mul => Err(Error::shape("elementwise multiply mismatch")),
                Join::GeluMul => Err(Error::shape("GELU gate/up length mismatch")),
            };
        }
        let out: usize = tape.output(len);
        let launch = match join {
            Join::Add => Launch::Add { left, right, out },
            Join::Mul => Launch::Mul { left, right, out },
            Join::GeluMul => Launch::GeluMul { gate: left, up: right, out },
        };
        tape.launch(launch, model_launch_config(len))?;
        Ok(out)
    }

    /// A buffer scaled.
    pub open spec fn scaled(self, t: Tape<T>, input: usize, factor: Factor) -> (Tape<T>, usize) {
        let len = t.lens[input as int];
        if t.stopped() {
            (t, 0)
        } else {
            t.filled(len, Launch::Scale { input, factor, out: t.next() }, model_grid(len as nat))
        }
    }

    pub(crate) fn scale(&self, tape: &mut Recorder<T>, input: usize, factor: Factor) -> (r: Result<
        usize,
    >)
        requires
            input < old(tape)@.lens.len(),
        ensures
            obeys(final(tape)@, r, self.scaled(old(tape)@, input, factor)),
            keeps(old(tape)@, final(tape)@, r),
    {
        let len: usize = tape.len_of(input);
        let out: usize = tape.output(len);
        tape.launch(Launch::Scale { input, factor, out }, model_launch_config(len))?;
        Ok(out)
    }

    /// A buffer scaled by a weight of one element.
    pub open spec fn scaled_at(self, t: Tape<T>, input: usize, weight: usize) -> (Tape<T>, usize) {
        let len = t.lens[input as int];
        if t.stopped() {
            (t, 0)
        } else if weight >= self.weights@.len() {
            t.stop(bad_number())
        } else if self.weights@[weight as int].len != 1 {
            t.stop(Failure::InvalidShape("decode-plan scalar weight is invalid"@))
        } else {
            t.filled(
                len,
                Launch::ScaleByWeight { input, weight, out: t.next() },
                model_grid(len as nat),
            )
        }
    }

    pub(crate) fn scale_by_weight_at(&self, tape: &mut Recorder<T>, input: usize, index: usize) -> (r:
        Result<usize>)
        requires
            input < old(tape)@.lens.len(),
        ensures
            obeys(final(tape)@, r, self.scaled_at(old(tape)@, input, index)),
            keeps(old(tape)@, final(tape)@, r),
    {
        let weight: usize = self.weight_at(index)?;
        if self.weights[weight].len != 1 {
            return Err(Error::shape("decode-plan scalar weight is invalid"));
        }
        let len: usize = tape.len_of(input);
        let out: usize = tape.output(len);
        tape.launch(Launch::ScaleByWeight { input, weight, out }, model_launch_config(len))?;
        Ok(out)
    }

    /// A buffer through the Gaussian error linear unit.
    pub open spec fn bent(self, t: Tape<T>, input: usize) -> (Tape<T>, usize) {
        let len = t.lens[input as int];
        if t.stopped() {
            (t, 0)
        } else {
            t.filled(len, Launch::Gelu { input, out: t.next() }, model_grid(len as nat))
        }
    }

    pub(crate) fn gelu(&self, tape: &mut Recorder<T>, input: usize) -> (r: Result<usize>)
        requires
            input < old(tape)@.lens.len(),
        ensures
            obeys(final(tape)@, r, self.bent(old(tape)@, input)),
            keeps(old(tape)@, final(tape)@, r),
    {
        let len: usize = tape.len_of(input);
        let out: usize = tape.output(len);
        tape.launch(Launch::Gelu { input, out }, model_launch_config(len))?;
        Ok(out)
    }

    /// A range of a buffer.
    pub open spec fn sliced(self, t: Tape<T>, input: usize, offset: int, len: usize) -> (
        Tape<T>,
        usize,
    ) {
        if t.stopped() {
            (t, 0)
        } else if offset + len > t.lens[input as int] {
            t.stop(Failure::InvalidShape("CUDA slice is out of bounds"@))
        } else {
            t.filled(
                len,
                Launch::Slice { input, offset: offset as usize, out: t.next() },
                model_grid(len as nat),
            )
        }
    }

    pub(crate) fn slice(&self, tape: &mut Recorder<T>, input: usize, offset: usize, len: usize) -> (r:
        Result<usize>)
        requires
            input < old(tape)@.lens.len(),
        ensures
            obeys(final(tape)@, r, self.sliced(old(tape)@, input, offset as int, len)),
            keeps(old(tape)@, final(tape)@, r),
    {
        let inside: bool = match offset.checked_add(len) {
            Some(end) => end <= tape.len_of(input),
            None => false,
        };
        if !inside {
            return Err(Error::shape("CUDA slice is out of bounds"));
        }
        let out: usize = tape.output(len);
        tape.launch(Launch::Slice { input, offset, out }, model_launch_config(len))?;
        Ok(out)
    }

    /// A range of the columns of rows.
    pub open spec fn rows_sliced(
        self,
        t: Tape<T>,
        input: usize,
        rows: usize,
        input_width: usize,
        offset: usize,
        output_width: usize,
    ) -> (Tape<T>, usize) {
        if t.stopped() {
            (t, 0)
        } else if rows == 0 || t.lens[input as int] != rows * input_width || offset + output_width
            > input_width {
            t.stop(Failure::InvalidShape("CUDA row slice is out of bounds"@))
        } else {
            let len = (rows * output_width) as usize;
            t.filled(
                len,
                Launch::SliceRows { input, input_width, offset, output_width, out: t.next() },
                model_grid(len as nat),
            )
        }
    }

    pub(crate) fn slice_rows(
        &self,
        tape: &mut Recorder<T>,
        input: usize,
        rows: usize,
        input_width: usize,
        offset: usize,
        output_width: usize,
    ) -> (r: Result<usize>)
        requires
            input < old(tape)@.lens.len(),
        ensures
            obeys(
                final(tape)@,
                r,
                self.rows_sliced(old(tape)@, input, rows, input_width, offset, output_width),
            ),
            keeps(old(tape)@, final(tape)@, r),
    {
        let inside: bool = match offset.checked_add(output_width) {
            Some(end) => end <= input_width,
            None => false,
        };
        if rows == 0 || !is_product(tape.len_of(input), rows, input_width) || !inside {
            return Err(Error::shape("CUDA row slice is out of bounds"));
        }
        proof {
            assert(0 <= rows * output_width <= rows * input_width) by (nonlinear_arith)
                requires
                    output_width <= input_width,
            ;
        }
        let len: usize = rows * output_width;
        let out: usize = tape.output(len);
        tape.launch(
            Launch::SliceRows { input, input_width, offset, output_width, out },
            model_launch_config(len),
        )?;
        Ok(out)
    }

    /// The embedding table is a matrix of rows of the given width.
    pub open spec fn table_of(self, weight: usize, width: usize) -> bool {
        let shape = self.weights@[weight as int].shape@;
        shape.len() == 2 && shape[1] == width
    }

    /// The embedding of a token.
    pub open spec fn embedded(self, t: Tape<T>, token: u32, hidden: usize) -> (Tape<T>, usize) {
        let name = "embed_tokens.weight"@;
        if t.stopped() {
            (t, 0)
        } else {
            match self.weight_number(name) {
                None => t.stop(weight_missing(name)),
                Some(weight) => {
                    let shape = self.weights@[weight as int].shape@;
                    if !self.table_of(weight, hidden) {
                        t.stop(
                            Failure::InvalidShape(
                                "embed_tokens.weight has unexpected shape "@ + shape_text(shape),
                            ),
                        )
                    } else if token >= shape[0] {
                        t.stop(Failure::Execution("token id exceeds CUDA embedding table"@))
                    } else {
                        t.filled(
                            hidden,
                            Launch::WeightRange {
                                weight,
                                offset: (token * hidden) as usize,
                                factor: Factor::Root(hidden),
                                out: t.next(),
                            },
                            model_grid(hidden as nat),
                        )
                    }
                },
            }
        }
    }

    pub(crate) fn embedding(&self, tape: &mut Recorder<T>, token: u32, hidden: usize) -> (r: Result<
        usize,
    >)
        requires
            self.wf(),
        ensures
            obeys(final(tape)@, r, self.embedded(old(tape)@, token, hidden)),
            keeps(old(tape)@, final(tape)@, r),
    {
        let weight: usize = self.weight("embed_tokens.weight")?;
        let shape = &self.weights[weight].shape;
        if shape.len() != 2 || shape[1] != hidden {
            let mut message = owned("embed_tokens.weight has unexpected shape ");
            push_shape(&mut message, shape);
            return Err(Error::InvalidShape(message));
        }
        if token as u64 >= shape[0] as u64 {
            return Err(Error::execution("token id exceeds CUDA embedding table"));
        }
        proof {
            assert(whole(self.weights@[weight as int]));
            if hidden > 0 {
                lemma_flat(token as int, shape@[0] as int, 0, hidden as int);
            }
        }
        let offset: usize = token as usize * hidden;
        let out: usize = tape.output(hidden);
        tape.launch(
            Launch::WeightRange { weight, offset, factor: Factor::Root(hidden), out },
            model_launch_config(hidden),
        )?;
        Ok(out)
    }

    /// The embedding of the token of the decoder's state.
    pub open spec fn embedded_state(self, t: Tape<T>, hidden: usize) -> (Tape<T>, usize) {
        let name = "embed_tokens.weight"@;
        if t.stopped() {
            (t, 0)
        } else {
            match self.weight_number(name) {
                None => t.stop(weight_missing(name)),
                Some(weight) => if !self.table_of(weight, hidden) {
                    t.stop(Failure::InvalidShape("decode-state embedding shape mismatch"@))
                } else {
                    t.filled(
                        hidden,
                        Launch::WeightRowState {
                            weight,
                            width: hidden,
                            factor: Factor::Root(hidden),
                            out: t.next(),
                        },
                        model_grid(hidden as nat),
                    )
                },
            }
        }
    }

    pub(crate) fn embedding_state(&self, tape: &mut Recorder<T>, hidden: usize) -> (r: Result<usize>)
        requires
            self.wf(),
        ensures
            obeys(final(tape)@, r, self.embedded_state(old(tape)@, hidden)),
            keeps(old(tape)@, final(tape)@, r),
    {
        let weight: usize = self.weight("embed_tokens.weight")?;
        let shape = &self.weights[weight].shape;
        if shape.len() != 2 || shape[1] != hidden {
            return Err(Error::shape("decode-state embedding shape mismatch"));
        }
        let out: usize = tape.output(hidden);
        tape.launch(
            Launch::WeightRowState { weight, width: hidden, factor: Factor::Root(hidden), out },
            model_launch_config(hidden),
        )?;
        Ok(out)
    }

    /// The embeddings of the tokens of a prompt.
    pub open spec fn embedded_rows(self, t: Tape<T>, tokens: Seq<u32>, hidden: usize) -> (
        Tape<T>,
        usize,
    ) {
        let name = "embed_tokens.weight"@;
        if t.stopped() {
            (t, 0)
        } else {
            match self.weight_number(name) {
                None => t.stop(weight_missing(name)),
                Some(weight) => if tokens.len() == 0 || !self.table_of(weight, hidden) || !within(
                    tokens,
                    self.weights@[weight as int].shape@[0],
                ) {
                    t.stop(Failure::InvalidShape("invalid batched CUDA embedding input"@))
                } else {
                    let len = (tokens.len() * hidden) as usize;
                    t.filled(
                        len,
                        Launch::WeightRows {
                            weight,
                            width: hidden,
                            factor: Factor::Root(hidden),
                            out: t.next(),
                        },
                        model_grid(len as nat),
                    )
                },
            }
        }
    }

    pub(crate) fn embedding_rows(&self, tape: &mut Recorder<T>, tokens: &Vec<u32>, hidden: usize) -> (r:
        Result<usize>)
        requires
            self.wf(),
            tokens@.len() <= MOST_ROWS,
        ensures
            obeys(final(tape)@, r, self.embedded_rows(old(tape)@, tokens@, hidden)),
            keeps(old(tape)@, final(tape)@, r),
    {
        let weight: usize = self.weight("embed_tokens.weight")?;
        let shape = &self.weights[weight].shape;
        if tokens.len() == 0 || shape.len() != 2 || shape[1] != hidden || !all_within(
            tokens,
            shape[0],
        ) {
            return Err(Error::shape("invalid batched CUDA embedding input"));
        }
        proof {
            assert(usable_shape(self.weights@[weight as int].shape@));
            assert(small(shape@[1]));
            lemma_rows(tokens.len(), hidden);
        }
        let len: usize = tokens.len() * hidden;
        let out: usize = tape.output(len);
        tape.launch(
            Launch::WeightRows { weight, width: hidden, factor: Factor::Root(hidden), out },
            model_launch_config(len),
        )?;
        Ok(out)
    }

    /// A fused projection split into queries, keys and values.
    pub open spec fn split_qkv(
        self,
        t: Tape<T>,
        fused: usize,
        rows: usize,
        widths: (usize, usize, usize),
        mismatch: Failure,
    ) -> (Tape<T>, (usize, usize, usize)) {
        let width = widths.0 + widths.1 + widths.2;
        if t.stopped() {
            (t, (0, 0, 0))
        } else if t.lens[fused as int] != rows * width {
            (Tape { failure: Some(mismatch), ..t }, (0, 0, 0))
        } else {
            let (t, query) = self.rows_sliced(t, fused, rows, width as usize, 0, widths.0);
            let (t, key) = self.rows_sliced(t, fused, rows, width as usize, widths.0, widths.1);
            let (t, value) = self.rows_sliced(
                t,
                fused,
                rows,
                width as usize,
                (widths.0 + widths.1) as usize,
                widths.2,
            );
            (t, (query, key, value))
        }
    }

    fn split(
        &self,
        tape: &mut Recorder<T>,
        fused: usize,
        rows: usize,
        widths: (usize, usize, usize),
        mismatch: Error,
    ) -> (r: Result<(usize, usize, usize)>)
        requires
            fused < old(tape)@.lens.len(),
            rows <= MOST_ROWS,
            widths.0 + widths.1 + widths.2 <= usize::MAX,
        ensures
            obeys_three(
                final(tape)@,
                r,
                self.split_qkv(old(tape)@, fused, rows, widths, mismatch@),
            ),
            keeps_three(old(tape)@, final(tape)@, r),
    {
        let (query_width, key_width, value_width) = widths;
        let width: usize = query_width + key_width + value_width;
        if !is_product(tape.len_of(fused), rows, width) {
            return Err(mismatch);
        }
        let query: usize = self.slice_rows(tape, fused, rows, width, 0, query_width)?;
        let key: usize = self.slice_rows(tape, fused, rows, width, query_width, key_width)?;
        let value: usize = self.slice_rows(
            tape,
            fused,
            rows,
            width,
            query_width + key_width,
            value_width,
        )?;
        Ok((query, key, value))
    }

    /// Queries, keys and values by one projection, by the number of its weight.
    pub open spec fn projected_qkv_at(
        self,
        t: Tape<T>,
        input: usize,
        rows: usize,
        weight: usize,
        widths: (usize, usize, usize),
    ) -> (Tape<T>, (usize, usize, usize)) {
        if t.stopped() {
            (t, (0, 0, 0))
        } else {
            let (t, fused) = self.projected_at(t, input, rows, weight);
            self.split_qkv(
                t,
                fused,
                rows,
                widths,
                Failure::InvalidShape("decode-plan fused QKV output mismatch"@),
            )
        }
    }

    pub(crate) fn linear_qkv_bf16_at(
        &self,
        tape: &mut Recorder<T>,
        input: usize,
        rows: usize,
        index: usize,
        widths: (usize, usize, usize),
    ) -> (r: Result<(usize, usize, usize)>)
        requires
            self.wf(),
            input < old(tape)@.lens.len(),
            rows <= MOST_ROWS,
            widths.0 + widths.1 + widths.2 <= usize::MAX,
        ensures
            obeys_three(
                final(tape)@,
                r,
                self.projected_qkv_at(old(tape)@, input, rows, index, widths),
            ),
            keeps_three(old(tape)@, final(tape)@, r),
    {
        let fused: usize = self.linear_bf16_at(tape, input, rows, index)?;
        self.split(
            tape,
            fused,
            rows,
            widths,
            Error::shape("decode-plan fused QKV output mismatch"),
        )
    }

    /// Queries, keys and values by one projection, by the name of its layer.
    pub open spec fn projected_qkv(
        self,
        t: Tape<T>,
        input: usize,
        rows: usize,
        prefix: Seq<char>,
        widths: (usize, usize, usize),
    ) -> (Tape<T>, (usize, usize, usize)) {
        let name = prefix + ".self_attn.qkv_proj.weight"@;
        if t.stopped() {
            (t, (0, 0, 0))
        } else {
            let (t, fused) = self.projected(t, input, rows, name);
            self.split_qkv(
                t,
                fused,
                rows,
                widths,
                Failure::InvalidShape(name + " output has an unexpected extent"@),
            )
        }
    }

    pub(crate) fn linear_qkv_bf16(
        &self,
        tape: &mut Recorder<T>,
        input: usize,
        rows: usize,
        prefix: &str,
        widths: (usize, usize, usize),
    ) -> (r: Result<(usize, usize, usize)>)
        requires
            self.wf(),
            input < old(tape)@.lens.len(),
            rows <= MOST_ROWS,
            widths.0 + widths.1 + widths.2 <= usize::MAX,
        ensures
            obeys_three(
                final(tape)@,
                r,
                self.projected_qkv(old(tape)@, input, rows, prefix@, widths),
            ),
            keeps_three(old(tape)@, final(tape)@, r),
    {
        let mut name = owned(prefix);
        name.append(".self_attn.qkv_proj.weight");
        let fused: usize = self.linear_bf16(tape, input, rows, name.as_str())?;
        let mut message = name;
        message.append(" output has an unexpected extent");
        self.split(tape, fused, rows, widths, Error::InvalidShape(message))
    }
}

/// Recording went on as planned, or stopped where the plan does.
pub open spec fn obeys_three<T>(
    after: Tape<T>,
    r: Result<(usize, usize, usize)>,
    plan: (Tape<T>, (usize, usize, usize)),
) -> bool {
    match r {
        Ok(buffers) => plan == (after, buffers),
        Err(error) => plan.0 == (Tape { failure: Some(error@), ..after }),
    }
}

/// Buffers stay, and what comes of a success are three of them.
pub open spec fn keeps_three<T>(
    before: Tape<T>,
    after: Tape<T>,
    r: Result<(usize, usize, usize)>,
) -> bool {
    &&& extends(before, after)
    &&& r matches Ok((a, b, c)) ==> a < after.lens.len() && b < after.lens.len() && c
        < after.lens.len()
}

/// Every token has a row.
pub open spec fn within(tokens: Seq<u32>, rows: usize) -> bool {
    forall|i: int| 0 <= i < tokens.len() ==> (#[trigger] tokens[i]) < rows
}

/// Whether every token has a row.
pub fn all_within(tokens: &Vec<u32>, rows: usize) -> (r: bool)
    ensures
        r == within(tokens@, rows),
{
    let mut i: usize = 0;
    while i < tokens.len()
        invariant
            i <= tokens.len(),
            forall|j: int| 0 <= j < i ==> (#[trigger] tokens@[j]) < rows,
        decreases tokens.len() - i,
    {
        if tokens[i] as u64 >= rows as u64 {
            assert(!(tokens@[i as int] < rows));
            return false;
        }
        i = i + 1;
    }
    true
}

} // verus!

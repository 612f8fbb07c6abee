//! The embeddings per layer of a Gemma model: one row for a token, a range of it for each
//! layer.

use crate::cuda::launch::{model_grid, model_launch_config};
use crate::error::{Error, Failure, Result};
use crate::gemma4_cuda::elements::{all_within, within, Join};
use crate::gemma4_cuda::layers::layer_missing;
use crate::gemma4_cuda::ops::lemma_rows;
use crate::gemma4_cuda::tape::{extends, keeps, obeys, Factor, Launch, Recorder, Tape, MOST_ROWS};
use crate::gemma4_cuda::weights::{
    small, usable_shape, weight_missing, whole, Gemma4CudaState,
};
use crate::models::gemma4::Gemma4TextConfig;
use crate::text::{owned, push_shape, shape_text};
use vstd::prelude::*;

verus! {

/// The width of the embeddings of all layers.
pub open spec fn packed_width<T>(config: Gemma4TextConfig<T>) -> int {
    config.num_hidden_layers * config.hidden_size_per_layer_input
}

/// As many rows of the embeddings of all layers as a prompt has can be counted.
pub open spec fn ple_countable<T>(config: Gemma4TextConfig<T>) -> bool {
    packed_width(config) * MOST_ROWS <= usize::MAX
}

proof fn lemma_packed<T>(config: Gemma4TextConfig<T>)
    requires
        ple_countable(config),
    ensures
        0 <= packed_width(config) <= usize::MAX,
{
    assert(0 <= config.num_hidden_layers * config.hidden_size_per_layer_input) by (nonlinear_arith);
}

/// Where the tokens of a row come from.
pub enum Tokens<'a> {
    One(u32),
    State,
    Prompt(&'a Vec<u32>),
}

/// The same, as sequences.
pub enum Source {
    One(u32),
    State,
    Prompt(Seq<u32>),
}

impl<'a> View for Tokens<'a> {
    type V = Source;

    open spec fn view(&self) -> Source {
        match self {
            Tokens::One(token) => Source::One(*token),
            Tokens::State => Source::State,
            Tokens::Prompt(tokens) => Source::Prompt(tokens@),
        }
    }
}

/// The number of rows.
pub open spec fn source_rows(source: Source) -> nat {
    match source {
        Source::Prompt(tokens) => tokens.len(),
        _ => 1,
    }
}

/// Recording went on as planned, or stopped where the plan does.
pub open spec fn obeys_option<T>(
    after: Tape<T>,
    r: Result<Option<usize>>,
    plan: (Tape<T>, Option<usize>),
) -> bool {
    match r {
        Ok(buffer) => plan == (after, buffer),
        Err(error) => plan.0 == (Tape { failure: Some(error@), ..after }),
    }
}

/// Buffers stay, and what comes of a success is one of them.
pub open spec fn keeps_option<T>(
    before: Tape<T>,
    after: Tape<T>,
    r: Result<Option<usize>>,
) -> bool {
    &&& extends(before, after)
    &&& r matches Ok(Some(buffer)) ==> buffer < after.lens.len()
}

impl<T: Copy> Gemma4CudaState<T> {
    /// The table has a row for each token, of the width of all layers.
    pub open spec fn ple_table(self, weight: usize, config: Gemma4TextConfig<T>) -> bool {
        let shape = self.weights@[weight as int].shape@;
        &&& shape.len() == 2
        &&& shape[0] == config.vocab_size_per_layer_input
        &&& shape[1] == packed_width(config)
    }

    /// The rows of the table for tokens.
    pub open spec fn ple_rows(self, t: Tape<T>, source: Source, config: Gemma4TextConfig<T>) -> (
        Tape<T>,
        usize,
    ) {
        let name = "embed_tokens_per_layer.weight"@;
        let packed = packed_width(config) as usize;
        let factor = Factor::Root(config.hidden_size_per_layer_input);
        let out = t.next();
        if t.stopped() {
            (t, 0)
        } else {
            match self.weight_number(name) {
                None => t.stop(weight_missing(name)),
                Some(weight) => {
                    let shape = self.weights@[weight as int].shape@;
                    let fits = self.ple_table(weight, config);
                    match source {
                        Source::One(token) => if !fits {
                            t.stop(
                                Failure::InvalidShape(
                                    "embed_tokens_per_layer.weight has shape "@ + shape_text(shape),
                                ),
                            )
                        } else if token >= shape[0] {
                            t.stop(Failure::Execution("PLE token exceeds vocabulary"@))
                        } else {
                            t.filled(
                                packed,
                                Launch::WeightRange {
                                    weight,
                                    offset: (token * packed) as usize,
                                    factor,
                                    out,
                                },
                                model_grid(packed as nat),
                            )
                        },
                        Source::State => if !fits {
                            t.stop(
                                Failure::InvalidShape("decode-state PLE embedding shape mismatch"@),
                            )
                        } else {
                            t.filled(
                                packed,
                                Launch::WeightRowState { weight, width: packed, factor, out },
                                model_grid(packed as nat),
                            )
                        },
                        Source::Prompt(tokens) => if !fits || !within(tokens, shape[0]) {
                            t.stop(Failure::InvalidShape("invalid batched PLE input"@))
                        } else {
                            let len = (tokens.len() * packed) as usize;
                            t.filled(
                                len,
                                Launch::WeightRows { weight, width: packed, factor, out },
                                model_grid(len as nat),
                            )
                        },
                    }
                },
            }
        }
    }

    fn take_rows(&self, tape: &mut Recorder<T>, source: &Tokens, config: &Gemma4TextConfig<T>) -> (r:
        Result<usize>)
        requires
            self.wf(),
            ple_countable(*config),
            source_rows(source@) <= MOST_ROWS,
        ensures
            obeys(final(tape)@, r, self.ple_rows(old(tape)@, source@, *config)),
            keeps(old(tape)@, final(tape)@, r),
    {
        proof {
            lemma_packed(*config);
        }
        let packed: usize = config.num_hidden_layers * config.hidden_size_per_layer_input;
        let factor = Factor::Root(config.hidden_size_per_layer_input);
        let weight: usize = self.weight("embed_tokens_per_layer.weight")?;
        let shape = &self.weights[weight].shape;
        let fits: bool = shape.len() == 2 && shape[0] == config.vocab_size_per_layer_input
            && shape[1] == packed;
        match source {
            Tokens::One(token) => {
                if !fits {
                    let mut message = owned("embed_tokens_per_layer.weight has shape ");
                    push_shape(&mut message, shape);
                    return Err(Error::InvalidShape(message));
                }
                if *token as u64 >= shape[0] as u64 {
                    return Err(Error::execution("PLE token exceeds vocabulary"));
                }
                proof {
                    assert(whole(self.weights@[weight as int]));
                    let (a, b) = (*token as int, shape@[0] as int);
                    assert(0 <= a * packed <= b * packed) by (nonlinear_arith)
                        requires
                            0 <= a <= b,
                            packed >= 0,
                    ;
                }
                let offset: usize = *token as usize * packed;
                let out: usize = tape.output(packed);
                tape.launch(
                    Launch::WeightRange { weight, offset, factor, out },
                    model_launch_config(packed),
                )?;
                Ok(out)
            },
            Tokens::State => {
                if !fits {
                    return Err(Error::shape("decode-state PLE embedding shape mismatch"));
                }
                let out: usize = tape.output(packed);
                tape.launch(
                    Launch::WeightRowState { weight, width: packed, factor, out },
                    model_launch_config(packed),
                )?;
                Ok(out)
            },
            Tokens::Prompt(tokens) => {
                if !fits || !all_within(*tokens, shape[0]) {
                    return Err(Error::shape("invalid batched PLE input"));
                }
                proof {
                    assert(usable_shape(self.weights@[weight as int].shape@));
                    assert(small(shape@[1]));
                    lemma_rows(tokens.len(), packed);
                }
                let len: usize = tokens.len() * packed;
                let out: usize = tape.output(len);
                tape.launch(
                    Launch::WeightRows { weight, width: packed, factor, out },
                    model_launch_config(len),
                )?;
                Ok(out)
            },
        }
    }

    /// The embeddings of all layers: the rows for the tokens, joined with a projection of
    /// their embeddings.  A model without them has none.
    pub open spec fn packed(
        self,
        t: Tape<T>,
        source: Source,
        embedding: usize,
        config: Gemma4TextConfig<T>,
    ) -> (Tape<T>, Option<usize>) {
        let rows = source_rows(source) as usize;
        if t.stopped() || config.hidden_size_per_layer_input == 0 {
            (t, None)
        } else {
            let (t, taken) = self.ple_rows(t, source, config);
            let (t, context) = self.mapped(
                t,
                embedding,
                rows,
                "per_layer_model_projection.weight"@,
            );
            let (t, context) = self.scaled(t, context, Factor::InverseRoot(config.hidden_size));
            let (t, context) = self.normed(
                t,
                context,
                "per_layer_projection_norm.weight"@,
                config.rms_norm_eps,
                false,
            );
            let (t, combined) = self.joined(t, Join::Add, context, taken);
            let (t, out) = self.scaled(t, combined, Factor::HalfRoot);
            (t, Some(out))
        }
    }

    fn pack(
        &self,
        tape: &mut Recorder<T>,
        source: &Tokens,
        embedding: usize,
        config: &Gemma4TextConfig<T>,
    ) -> (r: Result<Option<usize>>)
        requires
            self.wf(),
            ple_countable(*config),
            source_rows(source@) <= MOST_ROWS,
            embedding < old(tape)@.lens.len(),
        ensures
            obeys_option(
                final(tape)@,
                r,
                self.packed(old(tape)@, source@, embedding, *config),
            ),
            keeps_option(old(tape)@, final(tape)@, r),
            r matches Ok(found) ==> (found is None) == (config.hidden_size_per_layer_input == 0),
    {
        if config.hidden_size_per_layer_input == 0 {
            return Ok(None);
        }
        let rows: usize = match source {
            Tokens::Prompt(tokens) => tokens.len(),
            _ => 1,
        };
        let taken: usize = self.take_rows(tape, source, config)?;
        let context: usize = self.linear(
            tape,
            embedding,
            rows,
            "per_layer_model_projection.weight",
        )?;
        let context: usize = self.scale(tape, context, Factor::InverseRoot(config.hidden_size))?;
        let context: usize = self.rms_norm(
            tape,
            context,
            "per_layer_projection_norm.weight",
            config.rms_norm_eps,
        )?;
        let combined: usize = self.join(tape, Join::Add, context, taken)?;
        let out: usize = self.scale(tape, combined, Factor::HalfRoot)?;
        Ok(Some(out))
    }

    pub(crate) fn packed_ple(
        &self,
        tape: &mut Recorder<T>,
        token: u32,
        embedding: usize,
        config: &Gemma4TextConfig<T>,
    ) -> (r: Result<Option<usize>>)
        requires
            self.wf(),
            ple_countable(*config),
            embedding < old(tape)@.lens.len(),
        ensures
            obeys_option(
                final(tape)@,
                r,
                self.packed(old(tape)@, Source::One(token), embedding, *config),
            ),
            keeps_option(old(tape)@, final(tape)@, r),
    {
        self.pack(tape, &Tokens::One(token), embedding, config)
    }

    pub(crate) fn packed_ple_state(
        &self,
        tape: &mut Recorder<T>,
        embedding: usize,
        config: &Gemma4TextConfig<T>,
    ) -> (r: Result<Option<usize>>)
        requires
            self.wf(),
            ple_countable(*config),
            embedding < old(tape)@.lens.len(),
        ensures
            obeys_option(
                final(tape)@,
                r,
                self.packed(old(tape)@, Source::State, embedding, *config),
            ),
            keeps_option(old(tape)@, final(tape)@, r),
            r matches Ok(found) ==> (found is None) == (config.hidden_size_per_layer_input == 0),
    {
        self.pack(tape, &Tokens::State, embedding, config)
    }

    pub(crate) fn packed_ple_rows(
        &self,
        tape: &mut Recorder<T>,
        tokens: &Vec<u32>,
        embedding: usize,
        config: &Gemma4TextConfig<T>,
    ) -> (r: Result<Option<usize>>)
        requires
            self.wf(),
            ple_countable(*config),
            tokens@.len() <= MOST_ROWS,
            embedding < old(tape)@.lens.len(),
        ensures
            obeys_option(
                final(tape)@,
                r,
                self.packed(old(tape)@, Source::Prompt(tokens@), embedding, *config),
            ),
            keeps_option(old(tape)@, final(tape)@, r),
            r matches Ok(found) ==> (found is None) == (config.hidden_size_per_layer_input == 0),
    {
        self.pack(tape, &Tokens::Prompt(tokens), embedding, config)
    }

    /// The range of the embeddings that belongs to a layer.
    pub open spec fn layer_range(
        self,
        t: Tape<T>,
        packed: usize,
        rows: Option<usize>,
        layer: usize,
        config: Gemma4TextConfig<T>,
    ) -> (Tape<T>, usize) {
        let dimension = config.hidden_size_per_layer_input;
        match rows {
            None => self.sliced(t, packed, layer * dimension, dimension),
            Some(rows) => self.rows_sliced(
                t,
                packed,
                rows,
                packed_width(config) as usize,
                (layer * dimension) as usize,
                dimension,
            ),
        }
    }

    /// The embeddings of a layer gated by the hidden state, projected, and added to it.
    pub open spec fn ple_applied(
        self,
        t: Tape<T>,
        hidden: usize,
        packed: usize,
        rows: Option<usize>,
        layer: usize,
        config: Gemma4TextConfig<T>,
    ) -> (Tape<T>, usize) {
        let n = match rows {
            Some(rows) => rows,
            None => 1,
        };
        if t.stopped() {
            (t, 0)
        } else {
            let (t, part) = self.layer_range(t, packed, rows, layer, config);
            if t.stopped() {
                (t, 0)
            } else if layer >= self.decode_plan@.len() {
                t.stop(layer_missing())
            } else {
                let plan = self.decode_plan@[layer as int];
                match plan.ple_gate {
                    None => t.stop(Failure::Execution("Gemma PLE gate is missing"@)),
                    Some(gate_weight) => {
                        let (t, gate) = self.mapped_at(t, hidden, n, gate_weight);
                        let (t, gate) = self.bent(t, gate);
                        let (t, gated) = self.joined(t, Join::Mul, gate, part);
                        if t.stopped() {
                            (t, 0)
                        } else {
                            match plan.ple_projection {
                                None => t.stop(
                                    Failure::Execution("Gemma PLE projection is missing"@),
                                ),
                                Some(projection) => {
                                    let (t, projected) = self.mapped_at(t, gated, n, projection);
                                    if t.stopped() {
                                        (t, 0)
                                    } else {
                                        match plan.ple_norm {
                                            None => t.stop(
                                                Failure::Execution("Gemma PLE norm is missing"@),
                                            ),
                                            Some(norm) => {
                                                let (t, projected) = self.normed_at(
                                                    t,
                                                    projected,
                                                    norm,
                                                    config.rms_norm_eps,
                                                    false,
                                                );
                                                self.joined(t, Join::Add, hidden, projected)
                                            },
                                        }
                                    }
                                },
                            }
                        }
                    },
                }
            }
        }
    }

    fn apply(
        &self,
        tape: &mut Recorder<T>,
        hidden: usize,
        packed: usize,
        rows: Option<usize>,
        layer: usize,
        config: &Gemma4TextConfig<T>,
    ) -> (r: Result<usize>)
        requires
            self.wf(),
            ple_countable(*config),
            rows matches Some(n) ==> n <= MOST_ROWS,
            layer < config.num_hidden_layers,
            hidden < old(tape)@.lens.len(),
            packed < old(tape)@.lens.len(),
        ensures
            obeys(
                final(tape)@,
                r,
                self.ple_applied(old(tape)@, hidden, packed, rows, layer, *config),
            ),
            keeps(old(tape)@, final(tape)@, r),
    {
        proof {
            lemma_packed(*config);
            assert(0 <= layer * config.hidden_size_per_layer_input <= packed_width(*config))
                by (nonlinear_arith)
                requires
                    layer < config.num_hidden_layers,
                    packed_width(*config) == config.num_hidden_layers
                        * config.hidden_size_per_layer_input,
            ;
        }
        let dimension: usize = config.hidden_size_per_layer_input;
        let offset: usize = layer * dimension;
        let part: usize = match rows {
            None => self.slice(tape, packed, offset, dimension)?,
            Some(rows) => {
                let width: usize = config.num_hidden_layers * dimension;
                self.slice_rows(tape, packed, rows, width, offset, dimension)?
            },
        };
        let n: usize = match rows {
            Some(rows) => rows,
            None => 1,
        };
        if layer >= self.decode_plan.len() {
            return Err(Error::execution("Gemma decode layer is missing"));
        }
        let plan = self.decode_plan[layer];
        let gate_weight: usize = match plan.ple_gate {
            Some(weight) => weight,
            None => {
                return Err(Error::execution("Gemma PLE gate is missing"));
            },
        };
        let gate: usize = self.linear_at(tape, hidden, n, gate_weight)?;
        let gate: usize = self.gelu(tape, gate)?;
        let gated: usize = self.join(tape, Join::Mul, gate, part)?;
        let projection: usize = match plan.ple_projection {
            Some(weight) => weight,
            None => {
                return Err(Error::execution("Gemma PLE projection is missing"));
            },
        };
        let projected: usize = self.linear_at(tape, gated, n, projection)?;
        let norm: usize = match plan.ple_norm {
            Some(weight) => weight,
            None => {
                return Err(Error::execution("Gemma PLE norm is missing"));
            },
        };
        let projected: usize = self.rms_norm_at(tape, projected, norm, config.rms_norm_eps)?;
        self.join(tape, Join::Add, hidden, projected)
    }

    pub(crate) fn apply_ple(
        &self,
        tape: &mut Recorder<T>,
        hidden: usize,
        packed: usize,
        layer: usize,
        config: &Gemma4TextConfig<T>,
    ) -> (r: Result<usize>)
        requires
            self.wf(),
            ple_countable(*config),
            layer < config.num_hidden_layers,
            hidden < old(tape)@.lens.len(),
            packed < old(tape)@.lens.len(),
        ensures
            obeys(
                final(tape)@,
                r,
                self.ple_applied(old(tape)@, hidden, packed, None, layer, *config),
            ),
            keeps(old(tape)@, final(tape)@, r),
    {
        self.apply(tape, hidden, packed, None, layer, config)
    }

    pub(crate) fn apply_ple_rows(
        &self,
        tape: &mut Recorder<T>,
        hidden: usize,
        packed: usize,
        rows: usize,
        layer: usize,
        config: &Gemma4TextConfig<T>,
    ) -> (r: Result<usize>)
        requires
            self.wf(),
            ple_countable(*config),
            rows <= MOST_ROWS,
            layer < config.num_hidden_layers,
            hidden < old(tape)@.lens.len(),
            packed < old(tape)@.lens.len(),
        ensures
            obeys(
                final(tape)@,
                r,
                self.ple_applied(old(tape)@, hidden, packed, Some(rows), layer, *config),
            ),
            keeps(old(tape)@, final(tape)@, r),
    {
        self.apply(tape, hidden, packed, Some(rows), layer, config)
    }
}

} // verus!

//! Decoding token by token with a Gemma model.

use crate::cuda::launch::{model_grid, model_launch_config};
use crate::error::{Error, Failure, Result};
use crate::gemma4_cuda::cache::{advanced_all, countable, Gemma4CudaCacheTable};
use crate::gemma4_cuda::layers::{layer_missing, plan_fits};
use crate::gemma4_cuda::ple::{ple_countable, Source};
use crate::gemma4_cuda::tape::{extends, heeds, keeps, obeys, Launch, Recorder, Tape};
use crate::gemma4_cuda::weights::{weight_missing, Gemma4CudaState};
use crate::models::gemma4::Gemma4TextConfig;
use vstd::prelude::*;

verus! {

/// The table after one token more.
pub open spec fn stepped(before: Gemma4CudaCacheTable, after: Gemma4CudaCacheTable) -> bool {
    &&& after.layers@ == advanced_all(before.layers@)
    &&& after.sources == before.sources
    &&& after.position == before.position + 1
}

/// One token more can be counted.
pub open spec fn has_room(table: Gemma4CudaCacheTable) -> bool {
    table.position < usize::MAX && countable(table.layers@)
}

/// Plans agree with the caches after one token more.
pub proof fn lemma_fits_stepped<T>(
    state: Gemma4CudaState<T>,
    heads: usize,
    before: Gemma4CudaCacheTable,
    after: Gemma4CudaCacheTable,
)
    requires
        state.fits_table(heads, before),
        after.wf(),
        stepped(before, after),
    ensures
        state.fits_table(heads, after),
{
    assert forall|layer: int| 0 <= layer < state.decode_plan@.len() implies plan_fits(
        #[trigger] state.decode_plan@[layer],
        layer,
        heads,
        after,
    ) by {
        assert(plan_fits(state.decode_plan@[layer], layer, heads, before));
        assert(before.entry_wf(layer));
        let source = before.sources@[layer] as int;
        assert(after.layers@[source] == advanced_all(before.layers@)[source]);
    }
}

impl<T: Copy> Gemma4CudaState<T> {
    /// One layer.
    #[verifier::opaque]
    pub open spec fn layer_run(
        self,
        t: Tape<T>,
        hidden: usize,
        packed: Option<usize>,
        layer: usize,
        config: Gemma4TextConfig<T>,
        table: Gemma4CudaCacheTable,
    ) -> (Tape<T>, usize) {
        if t.stopped() {
            (t, 0)
        } else {
            let (t, hidden) = self.attentive(t, hidden, layer, config, table);
            let (t, hidden) = self.fed_forward(t, hidden, 1, layer, config.rms_norm_eps);
            let (t, hidden) = match packed {
                Some(packed) => self.ple_applied(t, hidden, packed, None, layer, config),
                None => (t, hidden),
            };
            self.finished(t, hidden, layer)
        }
    }

    /// The scale at the end of a layer.
    pub open spec fn finished(self, t: Tape<T>, hidden: usize, layer: usize) -> (Tape<T>, usize) {
        if t.stopped() {
            (t, 0)
        } else if layer >= self.decode_plan@.len() {
            t.stop(layer_missing())
        } else {
            self.scaled_at(t, hidden, self.decode_plan@[layer as int].layer_scalar)
        }
    }

    pub(crate) fn finish_layer(&self, tape: &mut Recorder<T>, hidden: usize, layer: usize) -> (r: Result<
        usize,
    >)
        requires
            hidden < old(tape)@.lens.len(),
        ensures
            obeys(final(tape)@, r, self.finished(old(tape)@, hidden, layer)),
            keeps(old(tape)@, final(tape)@, r),
    {
        if layer >= self.decode_plan.len() {
            return Err(Error::execution("Gemma decode layer is missing"));
        }
        self.scale_by_weight_at(tape, hidden, self.decode_plan[layer].layer_scalar)
    }

    fn run_layer(
        &self,
        tape: &mut Recorder<T>,
        hidden: usize,
        packed: Option<usize>,
        layer: usize,
        config: &Gemma4TextConfig<T>,
        table: &Gemma4CudaCacheTable,
    ) -> (r: Result<usize>)
        requires
            self.wf(),
            self.fits_table(config.num_attention_heads, *table),
            ple_countable(*config),
            layer < config.num_hidden_layers,
            hidden < old(tape)@.lens.len(),
            packed matches Some(buffer) ==> buffer < old(tape)@.lens.len(),
        ensures
            obeys(
                final(tape)@,
                r,
                self.layer_run(old(tape)@, hidden, packed, layer, *config, *table),
            ),
            keeps(old(tape)@, final(tape)@, r),
    {
        reveal(Gemma4CudaState::layer_run);
        let hidden: usize = self.decoder_attention(tape, hidden, layer, config, table)?;
        let hidden: usize = self.decoder_mlp(tape, hidden, layer, config.rms_norm_eps)?;
        let hidden: usize = match packed {
            Some(packed) => self.apply_ple(tape, hidden, packed, layer, config)?,
            None => hidden,
        };
        self.finish_layer(tape, hidden, layer)
    }

    /// The layers from one on.
    pub open spec fn layers_run(
        self,
        t: Tape<T>,
        hidden: usize,
        packed: Option<usize>,
        layer: usize,
        config: Gemma4TextConfig<T>,
        table: Gemma4CudaCacheTable,
    ) -> (Tape<T>, usize)
        decreases config.num_hidden_layers - layer,
    {
        if t.stopped() || layer >= config.num_hidden_layers {
            (t, hidden)
        } else {
            let (t, hidden) = self.layer_run(t, hidden, packed, layer, config, table);
            self.layers_run(t, hidden, packed, (layer + 1) as usize, config, table)
        }
    }

    /// All layers, for the token of the decoder's state.
    pub open spec fn forwarded(
        self,
        t: Tape<T>,
        config: Gemma4TextConfig<T>,
        table: Gemma4CudaCacheTable,
    ) -> (Tape<T>, usize) {
        if t.stopped() {
            (t, 0)
        } else {
            let (t, embedding) = self.embedded_state(t, config.hidden_size);
            let (t, packed) = self.packed(t, Source::State, embedding, config);
            self.layers_run(t, embedding, packed, 0, config, table)
        }
    }

    fn forward_state(
        &self,
        tape: &mut Recorder<T>,
        config: &Gemma4TextConfig<T>,
        table: &Gemma4CudaCacheTable,
    ) -> (r: Result<usize>)
        requires
            self.wf(),
            self.fits_table(config.num_attention_heads, *table),
            ple_countable(*config),
        ensures
            obeys(final(tape)@, r, self.forwarded(old(tape)@, *config, *table)),
            keeps(old(tape)@, final(tape)@, r),
    {
        let embedding: usize = self.embedding_state(tape, config.hidden_size)?;
        let packed = self.packed_ple_state(tape, embedding, config)?;
        let ghost goal = self.forwarded(old(tape)@, *config, *table);
        let mut hidden: usize = embedding;
        let mut layer: usize = 0;
        while layer < config.num_hidden_layers
            invariant
                self.wf(),
                self.fits_table(config.num_attention_heads, *table),
                ple_countable(*config),
                layer <= config.num_hidden_layers,
                hidden < tape@.lens.len(),
                packed matches Some(buffer) ==> buffer < tape@.lens.len(),
                extends(old(tape)@, tape@),
                goal == self.forwarded(old(tape)@, *config, *table),
                goal == self.layers_run(
                    tape@,
                    hidden,
                    packed,
                    layer,
                    *config,
                    *table,
                ),
            decreases config.num_hidden_layers - layer,
        {
            proof {
                reveal_with_fuel(Gemma4CudaState::layers_run, 2);
            }
            hidden = self.run_layer(tape, hidden, packed, layer, config, table)?;
            layer = layer + 1;
        }
        Ok(hidden)
    }

    /// All layers for the token of the decoder's state.  The table counts the token where
    /// that is asked.
    pub(crate) fn forward_token_state(
        &self,
        tape: &mut Recorder<T>,
        config: &Gemma4TextConfig<T>,
        table: &mut Gemma4CudaCacheTable,
        advance: bool,
    ) -> (r: Result<usize>)
        requires
            self.wf(),
            self.fits_table(config.num_attention_heads, *old(table)),
            ple_countable(*config),
            advance ==> has_room(*old(table)),
        ensures
            obeys(final(tape)@, r, self.forwarded(old(tape)@, *config, *old(table))),
            keeps(old(tape)@, final(tape)@, r),
            self.fits_table(config.num_attention_heads, *final(table)),
            final(table).decode_graph == old(table).decode_graph,
            final(table).decode_graph_attempted == old(table).decode_graph_attempted,
            if r is Ok && advance {
                stepped(*old(table), *final(table))
            } else {
                *final(table) == *old(table)
            },
    {
        let hidden: usize = self.forward_state(tape, config, table)?;
        if advance {
            table.advance();
            proof {
                lemma_fits_stepped(*self, config.num_attention_heads, *old(table), *table);
            }
        }
        Ok(hidden)
    }

    /// The decoder's state set to a token at the position of the table.
    pub open spec fn state_set(self, t: Tape<T>, token: u32, position: usize) -> Tape<T> {
        if t.stopped() {
            t
        } else {
            t.launched(Launch::SetState { token: token as usize, position }, model_grid(1))
        }
    }

    pub(crate) fn set_decode_state(&self, tape: &mut Recorder<T>, token: u32, position: usize) -> (r:
        Result<()>)
        ensures
            heeds(final(tape)@, r, self.state_set(old(tape)@, token, position)),
            extends(old(tape)@, final(tape)@),
            r is Ok,
    {
        tape.launch(Launch::SetState { token: token as usize, position }, model_launch_config(1))
    }

    /// All layers for a token.
    pub open spec fn token_forwarded(
        self,
        t: Tape<T>,
        token: u32,
        config: Gemma4TextConfig<T>,
        table: Gemma4CudaCacheTable,
    ) -> (Tape<T>, usize) {
        if t.stopped() {
            (t, 0)
        } else if token >= config.vocab_size {
            t.stop(Failure::Execution("token id exceeds CUDA embedding vocabulary"@))
        } else {
            self.forwarded(self.state_set(t, token, table.position), config, table)
        }
    }

    pub(crate) fn forward_token(
        &self,
        tape: &mut Recorder<T>,
        token: u32,
        config: &Gemma4TextConfig<T>,
        table: &mut Gemma4CudaCacheTable,
    ) -> (r: Result<usize>)
        requires
            self.wf(),
            self.fits_table(config.num_attention_heads, *old(table)),
            ple_countable(*config),
            has_room(*old(table)),
        ensures
            obeys(
                final(tape)@,
                r,
                self.token_forwarded(old(tape)@, token, *config, *old(table)),
            ),
            keeps(old(tape)@, final(tape)@, r),
            self.fits_table(config.num_attention_heads, *final(table)),
            final(table).decode_graph == old(table).decode_graph,
            final(table).decode_graph_attempted == old(table).decode_graph_attempted,
            if r is Ok {
                stepped(*old(table), *final(table))
            } else {
                *final(table) == *old(table)
            },
    {
        if token as u64 >= config.vocab_size as u64 {
            return Err(Error::execution("token id exceeds CUDA embedding vocabulary"));
        }
        self.set_decode_state(tape, token, table.position)?;
        self.forward_token_state(tape, config, table, true)
    }

    /// The scores of all tokens, from the last hidden state.
    pub open spec fn headed(self, t: Tape<T>, hidden: usize, config: Gemma4TextConfig<T>) -> (
        Tape<T>,
        usize,
    ) {
        let name = "embed_tokens.weight"@;
        if t.stopped() {
            (t, 0)
        } else {
            let (t, hidden) = self.normed(
                t,
                hidden,
                "norm.weight"@,
                config.rms_norm_eps,
                false,
            );
            if t.stopped() {
                (t, 0)
            } else {
                match self.weight_number(name) {
                    None => t.stop(weight_missing(name)),
                    Some(weight) => {
                        let (t, short) = self.shortened(t, hidden);
                        if t.stopped() {
                            (t, 0)
                        } else {
                            self.multiplied(
                                t,
                                short,
                                weight,
                                1,
                                config.vocab_size,
                                config.hidden_size,
                            )
                        }
                    },
                }
            }
        }
    }

    pub(crate) fn head(&self, tape: &mut Recorder<T>, hidden: usize, config: &Gemma4TextConfig<T>) -> (r:
        Result<usize>)
        requires
            self.wf(),
            hidden < old(tape)@.lens.len(),
        ensures
            obeys(final(tape)@, r, self.headed(old(tape)@, hidden, *config)),
            keeps(old(tape)@, final(tape)@, r),
    {
        let hidden: usize = self.rms_norm(tape, hidden, "norm.weight", config.rms_norm_eps)?;
        let weight: usize = self.weight("embed_tokens.weight")?;
        let short: usize = self.to_bf16(tape, hidden)?;
        self.multiply(tape, short, weight, 1, config.vocab_size, config.hidden_size)
    }

    /// The scores of all tokens behind a token.
    pub open spec fn scored(
        self,
        t: Tape<T>,
        token: u32,
        config: Gemma4TextConfig<T>,
        table: Gemma4CudaCacheTable,
    ) -> (Tape<T>, usize) {
        let (t, hidden) = self.token_forwarded(t, token, config, table);
        self.headed(t, hidden, config)
    }

    /// Runs a token through all layers, for the scores of the tokens behind it.
    pub fn decode_token(
        &self,
        tape: &mut Recorder<T>,
        token: u32,
        config: &Gemma4TextConfig<T>,
        table: &mut Gemma4CudaCacheTable,
    ) -> (r: Result<usize>)
        requires
            self.wf(),
            self.fits_table(config.num_attention_heads, *old(table)),
            ple_countable(*config),
            has_room(*old(table)),
        ensures
            obeys(final(tape)@, r, self.scored(old(tape)@, token, *config, *old(table))),
            keeps(old(tape)@, final(tape)@, r),
            self.fits_table(config.num_attention_heads, *final(table)),
            final(table).decode_graph == old(table).decode_graph,
            final(table).decode_graph_attempted == old(table).decode_graph_attempted,
            if self.token_forwarded(old(tape)@, token, *config, *old(table)).0.stopped() {
                *final(table) == *old(table)
            } else {
                stepped(*old(table), *final(table))
            },
    {
        let hidden: usize = self.forward_token(tape, token, config, table)?;
        self.head(tape, hidden, config)
    }

    /// Runs a token through all layers, without the scores of the tokens behind it.
    pub fn prefill_token(
        &self,
        tape: &mut Recorder<T>,
        token: u32,
        config: &Gemma4TextConfig<T>,
        table: &mut Gemma4CudaCacheTable,
    ) -> (r: Result<()>)
        requires
            self.wf(),
            self.fits_table(config.num_attention_heads, *old(table)),
            ple_countable(*config),
            has_room(*old(table)),
        ensures
            heeds(
                final(tape)@,
                r,
                self.token_forwarded(old(tape)@, token, *config, *old(table)).0,
            ),
            self.fits_table(config.num_attention_heads, *final(table)),
            if r is Ok {
                stepped(*old(table), *final(table))
            } else {
                *final(table) == *old(table)
            },
    {
        let _hidden: usize = self.forward_token(tape, token, config, table)?;
        Ok(())
    }

    /// The scores of all tokens behind the token of the decoder's state.
    pub open spec fn scored_state(
        self,
        t: Tape<T>,
        config: Gemma4TextConfig<T>,
        table: Gemma4CudaCacheTable,
    ) -> (Tape<T>, usize) {
        let (t, hidden) = self.forwarded(t, config, table);
        self.headed(t, hidden, config)
    }

    pub(crate) fn decode_logits_state(
        &self,
        tape: &mut Recorder<T>,
        config: &Gemma4TextConfig<T>,
        table: &Gemma4CudaCacheTable,
    ) -> (r: Result<usize>)
        requires
            self.wf(),
            self.fits_table(config.num_attention_heads, *table),
            ple_countable(*config),
        ensures
            obeys(final(tape)@, r, self.scored_state(old(tape)@, *config, *table)),
            keeps(old(tape)@, final(tape)@, r),
    {
        let hidden: usize = self.forward_state(tape, config, table)?;
        self.head(tape, hidden, config)
    }
}

} // verus!

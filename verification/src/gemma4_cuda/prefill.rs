//! All layers of a Gemma model for a whole prompt.

use crate::error::{Error, Failure, Result};
use crate::gemma4_cuda::cache::{Gemma4CudaCacheTable, Gemma4CudaKvCache};
use crate::gemma4_cuda::ple::{ple_countable, Source};
use crate::gemma4_cuda::prompt::{filled, find_rope, prompt_fits, rope_of, rotary_dims, rotates};
use crate::gemma4_cuda::tape::{extends, keeps, obeys, Recorder, Tape, MOST_ROWS};
use crate::gemma4_cuda::weights::Gemma4CudaState;
use crate::models::gemma4::Gemma4TextConfig;
use crate::scalar::Scalar;
use crate::text::owned;
use vstd::prelude::*;

verus! {

/// The rotary dimensions of every layer whose kind has a rotation.
pub open spec fn all_rotate<T: Scalar>(config: Gemma4TextConfig<T>, rotaries: Seq<usize>) -> bool {
    &&& rotaries.len() == config.num_hidden_layers
    &&& forall|l: int|
        0 <= l < rotaries.len() && turning(config, l) ==> rotates(
            config,
            l as usize,
            #[trigger] rotaries[l],
        )
}

/// The kind of a layer has a rotation.
pub open spec fn turning<T>(config: Gemma4TextConfig<T>, layer: int) -> bool {
    config.layer_types matches Some(kinds) && rope_of(config, kinds@[layer]@) is Some
}

/// The rotary dimensions of every layer.
pub fn all_rotary_dims<T: Scalar>(config: &Gemma4TextConfig<T>) -> (r: Vec<usize>)
    requires
        config.layer_types matches Some(kinds) ==> kinds@.len() == config.num_hidden_layers,
    ensures
        all_rotate(*config, r@),
{
    let mut r: Vec<usize> = Vec::new();
    let mut layer: usize = 0;
    while layer < config.num_hidden_layers
        invariant
            config.layer_types matches Some(kinds) ==> kinds@.len() == config.num_hidden_layers,
            layer <= config.num_hidden_layers,
            r@.len() == layer,
            forall|l: int|
                0 <= l < layer && turning(*config, l) ==> rotates(
                    *config,
                    l as usize,
                    #[trigger] r@[l],
                ),
        decreases config.num_hidden_layers - layer,
    {
        let mut dims: usize = 0;
        if let Some(kinds) = &config.layer_types {
            let kind = &kinds[layer];
            let head_dim: usize = if *kind == owned("sliding_attention") {
                config.head_dim
            } else {
                config.global_head_dim
            };
            if let Ok(turning) = find_rope(config, kind) {
                dims = rotary_dims(turning.partial, head_dim);
                assert(rotates(*config, layer, dims));
            }
        }
        r.push(dims);
        layer = layer + 1;
    }
    r
}

/// Every cache is empty and has room for the rows.
pub open spec fn all_empty(layers: Seq<Option<Gemma4CudaKvCache>>, rows: int) -> bool {
    forall|i: int|
        0 <= i < layers.len() ==> ((#[trigger] layers[i]) matches Some(cache) ==> cache.capacity
            >= rows && cache.len == 0)
}

/// Whether every cache is empty and has room for the rows.
fn are_empty(table: &Gemma4CudaCacheTable, rows: usize) -> (r: bool)
    ensures
        r == all_empty(table.layers@, rows as int),
{
    let mut i: usize = 0;
    while i < table.layers.len()
        invariant
            i <= table.layers.len(),
            forall|j: int|
                0 <= j < i ==> ((#[trigger] table.layers@[j]) matches Some(cache)
                    ==> cache.capacity >= rows && cache.len == 0),
        decreases table.layers.len() - i,
    {
        if let Some(cache) = table.layers[i] {
            if cache.capacity < rows || !cache.is_empty() {
                assert(table.layers@[i as int] == Some(cache));
                return false;
            }
        }
        i = i + 1;
    }
    true
}

/// The caches once the first layers have kept the rows of a prompt.
pub open spec fn filled_to(
    before: Seq<Option<Gemma4CudaKvCache>>,
    after: Seq<Option<Gemma4CudaKvCache>>,
    rows: usize,
    n: int,
) -> bool {
    &&& after.len() == before.len()
    &&& forall|i: int|
        0 <= i < after.len() ==> #[trigger] after[i] == match before[i] {
            Some(cache) => Some(
                if i < n {
                    filled(cache, rows)
                } else {
                    cache
                },
            ),
            None => None,
        }
}

impl<T: Scalar> Gemma4CudaState<T> {
    /// One layer, for a prompt.
    #[verifier::opaque]
    pub open spec fn prompt_layer(
        self,
        t: Tape<T>,
        hidden: usize,
        packed: Option<usize>,
        rows: usize,
        layer: usize,
        config: Gemma4TextConfig<T>,
        source: usize,
        cache: Gemma4CudaKvCache,
        rotary_dim: usize,
    ) -> (Tape<T>, usize) {
        if t.stopped() {
            (t, 0)
        } else {
            let (t, hidden) = self.prompt_attentive(
                t,
                hidden,
                rows,
                layer,
                config,
                source,
                cache,
                rotary_dim,
            );
            let (t, hidden) = self.fed_forward(t, hidden, rows, layer, config.rms_norm_eps);
            let (t, hidden) = match packed {
                Some(packed) => self.ple_applied(t, hidden, packed, Some(rows), layer, config),
                None => (t, hidden),
            };
            self.finished(t, hidden, layer)
        }
    }

    /// The layers from one on, for a prompt.
    pub open spec fn prompt_layers(
        self,
        t: Tape<T>,
        hidden: usize,
        packed: Option<usize>,
        rows: usize,
        layer: usize,
        config: Gemma4TextConfig<T>,
        table: Gemma4CudaCacheTable,
        rotaries: Seq<usize>,
    ) -> (Tape<T>, usize)
        decreases config.num_hidden_layers - layer,
    {
        if t.stopped() || layer >= config.num_hidden_layers {
            (t, hidden)
        } else {
            let source = table.sources@[layer as int];
            let (t, hidden) = self.prompt_layer(
                t,
                hidden,
                packed,
                rows,
                layer,
                config,
                source,
                table.layers@[source as int]->Some_0,
                rotaries[layer as int],
            );
            self.prompt_layers(
                t,
                hidden,
                packed,
                rows,
                (layer + 1) as usize,
                config,
                table,
                rotaries,
            )
        }
    }

    /// All layers for a prompt.
    pub open spec fn prompt_forwarded(
        self,
        t: Tape<T>,
        tokens: Seq<u32>,
        config: Gemma4TextConfig<T>,
        table: Gemma4CudaCacheTable,
        rotaries: Seq<usize>,
    ) -> (Tape<T>, usize) {
        if t.stopped() {
            (t, 0)
        } else if tokens.len() == 0 || tokens.len() > MOST_ROWS || table.position != 0 {
            t.stop(
                Failure::Execution(
                    "batched prefill requires 1..=4096 tokens and an empty cache table"@,
                ),
            )
        } else if !all_empty(table.layers@, tokens.len() as int) {
            t.stop(
                Failure::Execution("prompt does not fit the contiguous batched-prefill cache"@),
            )
        } else {
            let (t, embedding) = self.embedded_rows(t, tokens, config.hidden_size);
            let (t, packed) = self.packed(t, Source::Prompt(tokens), embedding, config);
            self.prompt_layers(
                t,
                embedding,
                packed,
                tokens.len() as usize,
                0,
                config,
                table,
                rotaries,
            )
        }
    }

    /// A layer that attends to the cache of another reads its sizes only.
    proof fn lemma_cache_sizes(
        self,
        t: Tape<T>,
        hidden: usize,
        packed: Option<usize>,
        rows: usize,
        layer: usize,
        config: Gemma4TextConfig<T>,
        source: usize,
        a: Gemma4CudaKvCache,
        b: Gemma4CudaKvCache,
        rotary_dim: usize,
    )
        requires
            source != layer,
            a.kv_heads == b.kv_heads,
            a.head_dim == b.head_dim,
            a.capacity == b.capacity,
        ensures
            self.prompt_layer(t, hidden, packed, rows, layer, config, source, a, rotary_dim)
                == self.prompt_layer(
                t,
                hidden,
                packed,
                rows,
                layer,
                config,
                source,
                b,
                rotary_dim,
            ),
    {
        reveal(Gemma4CudaState::prompt_layer);
        assert(self.prompt_prepared(t, hidden, rows, layer, config, source, a, rotary_dim)
            == self.prompt_prepared(t, hidden, rows, layer, config, source, b, rotary_dim));
        let (u, query) = self.prompt_prepared(
            t,
            hidden,
            rows,
            layer,
            config,
            source,
            a,
            rotary_dim,
        );
        assert(a.elements() == b.elements());
        assert(self.prompt_concluded(u, hidden, query, rows, layer, config, source, a)
            == self.prompt_concluded(u, hidden, query, rows, layer, config, source, b));
    }

    /// Runs the attention part of a layer for a prompt.  The cache of the layer, where it
    /// has its own, keeps the rows.
    pub(crate) fn decoder_attention_rows(
        &self,
        tape: &mut Recorder<T>,
        hidden: usize,
        rows: usize,
        layer: usize,
        config: &Gemma4TextConfig<T>,
        table: &mut Gemma4CudaCacheTable,
        rotary_dim: usize,
    ) -> (r: Result<usize>)
        requires
            self.wf(),
            rows <= MOST_ROWS,
            hidden < old(tape)@.lens.len(),
            prompt_fits(*config, *old(table)),
            layer < config.num_hidden_layers,
        ensures
            ({
                let source = old(table).sources@[layer as int];
                let cache = old(table).layers@[source as int]->Some_0;
                let prepared = self.prompt_prepared(
                    old(tape)@,
                    hidden,
                    rows,
                    layer,
                    *config,
                    source,
                    cache,
                    rotary_dim,
                );
                &&& obeys(
                    final(tape)@,
                    r,
                    self.prompt_attentive(
                        old(tape)@,
                        hidden,
                        rows,
                        layer,
                        *config,
                        source,
                        cache,
                        rotary_dim,
                    ),
                )
                &&& final(table).layers@ == if source == layer && !prepared.0.stopped() {
                    old(table).layers@.update(layer as int, Some(filled(cache, rows)))
                } else {
                    old(table).layers@
                }
                &&& r is Ok ==> !prepared.0.stopped()
            }),
            keeps(old(tape)@, final(tape)@, r),
            prompt_fits(*config, *final(table)),
            final(table).sources == old(table).sources,
            final(table).position == old(table).position,
            final(table).decode_graph == old(table).decode_graph,
            final(table).decode_graph_attempted == old(table).decode_graph_attempted,
    {
        let ghost given = *table;
        assert(table.entry_wf(layer as int));
        let source: usize = table.sources[layer];
        let cache = table.layers[source].unwrap();
        assert(table.layers@[source as int] == Some(cache));
        let query: usize = self.prompt_prepare(
            tape,
            hidden,
            rows,
            layer,
            config,
            source,
            &cache,
            rotary_dim,
        )?;
        if source == layer {
            let kept = Gemma4CudaKvCache { len: rows, total_seen: rows, ..cache };
            table.layers.set(layer, Some(kept));
            proof {
                assert(kept.wf());
                assert forall|i: int| 0 <= i < table.layers@.len() implies #[trigger]
                    table.entry_wf(i) by {
                    assert(given.entry_wf(i));
                }
                assert forall|i: int| 0 <= i < table.layers@.len() implies ((
                #[trigger] table.layers@[i]) matches Some(c) ==> {
                    &&& c.wf()
                    &&& crate::gemma4_cuda::prompt::rows_fit(
                        config.num_attention_heads,
                        c.kv_heads,
                        config.head_dim,
                    )
                    &&& crate::gemma4_cuda::prompt::rows_fit(
                        config.num_attention_heads,
                        c.kv_heads,
                        config.global_head_dim,
                    )
                }) by {
                    assert(given.layers@[i] is Some ==> given.layers@[i]->Some_0.wf());
                }
            }
        }
        self.prompt_conclude(tape, hidden, query, rows, layer, config, source, &cache)
    }
}

impl<T: Scalar> Gemma4CudaState<T> {
    /// Runs one layer for a prompt.
    fn run_prompt_layer(
        &self,
        tape: &mut Recorder<T>,
        hidden: usize,
        packed: Option<usize>,
        rows: usize,
        layer: usize,
        config: &Gemma4TextConfig<T>,
        table: &mut Gemma4CudaCacheTable,
        rotary_dim: usize,
    ) -> (r: Result<usize>)
        requires
            self.wf(),
            rows <= MOST_ROWS,
            hidden < old(tape)@.lens.len(),
            packed matches Some(buffer) ==> buffer < old(tape)@.lens.len(),
            prompt_fits(*config, *old(table)),
            ple_countable(*config),
            layer < config.num_hidden_layers,
        ensures
            ({
                let source = old(table).sources@[layer as int];
                let cache = old(table).layers@[source as int]->Some_0;
                &&& obeys(
                    final(tape)@,
                    r,
                    self.prompt_layer(
                        old(tape)@,
                        hidden,
                        packed,
                        rows,
                        layer,
                        *config,
                        source,
                        cache,
                        rotary_dim,
                    ),
                )
                &&& final(table).layers@ == old(table).layers@ || (source == layer
                    && final(table).layers@ == old(table).layers@.update(
                    layer as int,
                    Some(filled(cache, rows)),
                ))
                &&& r is Ok && source == layer ==> final(table).layers@
                    == old(table).layers@.update(layer as int, Some(filled(cache, rows)))
            }),
            keeps(old(tape)@, final(tape)@, r),
            prompt_fits(*config, *final(table)),
            final(table).sources == old(table).sources,
            final(table).position == old(table).position,
            final(table).decode_graph == old(table).decode_graph,
            final(table).decode_graph_attempted == old(table).decode_graph_attempted,
    {
        reveal(Gemma4CudaState::prompt_layer);
        let hidden: usize = self.decoder_attention_rows(
            tape,
            hidden,
            rows,
            layer,
            config,
            table,
            rotary_dim,
        )?;
        let hidden: usize = self.decoder_mlp_rows(
            tape,
            hidden,
            rows,
            layer,
            config.rms_norm_eps,
        )?;
        let hidden: usize = match packed {
            Some(packed) => self.apply_ple_rows(tape, hidden, packed, rows, layer, config)?,
            None => hidden,
        };
        self.finish_layer(tape, hidden, layer)
    }

    /// Runs all layers for a prompt.
    pub(crate) fn forward_prompt_rows(
        &self,
        tape: &mut Recorder<T>,
        tokens: &Vec<u32>,
        config: &Gemma4TextConfig<T>,
        table: &mut Gemma4CudaCacheTable,
    ) -> (r: Result<usize>)
        requires
            self.wf(),
            prompt_fits(*config, *old(table)),
            ple_countable(*config),
        ensures
            exists|rotaries: Seq<usize>| #[trigger]
                all_rotate(*config, rotaries) && obeys(
                    final(tape)@,
                    r,
                    self.prompt_forwarded(
                        old(tape)@,
                        tokens@,
                        *config,
                        *old(table),
                        rotaries,
                    ),
                ),
            keeps(old(tape)@, final(tape)@, r),
            final(table).sources == old(table).sources,
            final(table).decode_graph == old(table).decode_graph,
            final(table).decode_graph_attempted == old(table).decode_graph_attempted,
            final(table).wf(),
            match r {
                Ok(_) => {
                    &&& 0 < tokens@.len() <= MOST_ROWS
                    &&& final(table).position == tokens@.len()
                    &&& filled_to(
                        old(table).layers@,
                        final(table).layers@,
                        tokens.len(),
                        config.num_hidden_layers as int,
                    )
                },
                Err(_) => {
                    &&& final(table).position == old(table).position
                    &&& exists|n: int| #[trigger]
                        filled_to(old(table).layers@, final(table).layers@, tokens.len(), n)
                },
            },
    {
        let rotaries = all_rotary_dims(config);
        let ghost given = *table;
        let ghost goal = self.prompt_forwarded(tape@, tokens@, *config, given, rotaries@);
        assert(filled_to(given.layers@, table.layers@, tokens.len(), 0));
        if tokens.len() == 0 || tokens.len() > MOST_ROWS || table.position != 0 {
            return Err(
                Error::execution(
                    "batched prefill requires 1..=4096 tokens and an empty cache table",
                ),
            );
        }
        if !are_empty(table, tokens.len()) {
            return Err(
                Error::execution("prompt does not fit the contiguous batched-prefill cache"),
            );
        }
        let rows: usize = tokens.len();
        let embedding: usize = self.embedding_rows(tape, tokens, config.hidden_size)?;
        let packed = self.packed_ple_rows(tape, tokens, embedding, config)?;
        let mut hidden: usize = embedding;
        let mut layer: usize = 0;
        while layer < config.num_hidden_layers
            invariant
                self.wf(),
                ple_countable(*config),
                rows == tokens@.len(),
                0 < rows <= MOST_ROWS,
                given == *old(table),
                prompt_fits(*config, given),
                prompt_fits(*config, *table),
                all_empty(given.layers@, rows as int),
                all_rotate(*config, rotaries@),
                layer <= config.num_hidden_layers,
                hidden < tape@.lens.len(),
                packed matches Some(buffer) ==> buffer < tape@.lens.len(),
                extends(old(tape)@, tape@),
                table.sources == given.sources,
                table.position == given.position,
                table.decode_graph == given.decode_graph,
                table.decode_graph_attempted == given.decode_graph_attempted,
                filled_to(given.layers@, table.layers@, rows, layer as int),
                goal == self.prompt_forwarded(old(tape)@, tokens@, *config, given, rotaries@),
                goal == self.prompt_layers(
                    tape@,
                    hidden,
                    packed,
                    rows,
                    layer,
                    *config,
                    given,
                    rotaries@,
                ),
            decreases config.num_hidden_layers - layer,
        {
            let ghost now = *table;
            let ghost source = given.sources@[layer as int];
            proof {
                reveal_with_fuel(Gemma4CudaState::prompt_layers, 2);
                assert(given.entry_wf(layer as int));
                assert(now.layers@[source as int] is Some);
                if source != layer {
                    self.lemma_cache_sizes(
                        tape@,
                        hidden,
                        packed,
                        rows,
                        layer,
                        *config,
                        source,
                        given.layers@[source as int]->Some_0,
                        now.layers@[source as int]->Some_0,
                        rotaries@[layer as int],
                    );
                }
            }
            let done = self.run_prompt_layer(
                tape,
                hidden,
                packed,
                rows,
                layer,
                config,
                table,
                rotaries[layer],
            );
            proof {
                if table.layers@ == now.layers@ {
                    assert(filled_to(given.layers@, table.layers@, tokens.len(), layer as int));
                    if source != layer {
                        assert(given.layers@[layer as int] is None);
                        assert(filled_to(given.layers@, table.layers@, rows, layer + 1));
                    }
                } else {
                    assert(filled_to(given.layers@, table.layers@, tokens.len(), layer + 1));
                }
            }
            hidden = done?;
            layer = layer + 1;
        }
        table.position = rows;
        proof {
            assert forall|i: int| 0 <= i < table.layers@.len() implies #[trigger]
                table.entry_wf(i) by {
                assert(given.entry_wf(i));
            }
        }
        Ok(hidden)
    }

    /// The scores of all tokens behind a prompt.
    pub open spec fn prompt_scored(
        self,
        t: Tape<T>,
        tokens: Seq<u32>,
        config: Gemma4TextConfig<T>,
        table: Gemma4CudaCacheTable,
        rotaries: Seq<usize>,
    ) -> (Tape<T>, usize) {
        let (t, hidden) = self.prompt_forwarded(t, tokens, config, table, rotaries);
        let (t, last) = self.sliced(
            t,
            hidden,
            (tokens.len() - 1) * config.hidden_size,
            config.hidden_size,
        );
        self.headed(t, last, config)
    }

    /// Runs a whole prompt, for the scores of the tokens behind it.
    pub fn prefill_prompt(
        &self,
        tape: &mut Recorder<T>,
        tokens: &Vec<u32>,
        config: &Gemma4TextConfig<T>,
        table: &mut Gemma4CudaCacheTable,
    ) -> (r: Result<usize>)
        requires
            self.wf(),
            prompt_fits(*config, *old(table)),
            ple_countable(*config),
        ensures
            exists|rotaries: Seq<usize>| #[trigger]
                all_rotate(*config, rotaries) && obeys(
                    final(tape)@,
                    r,
                    self.prompt_scored(
                        old(tape)@,
                        tokens@,
                        *config,
                        *old(table),
                        rotaries,
                    ),
                ),
            final(table).sources == old(table).sources,
            final(table).decode_graph == old(table).decode_graph,
            final(table).decode_graph_attempted == old(table).decode_graph_attempted,
            final(table).wf(),
            r is Ok ==> {
                &&& final(table).position == tokens@.len()
                &&& filled_to(
                    old(table).layers@,
                    final(table).layers@,
                    tokens.len(),
                    config.num_hidden_layers as int,
                )
            },
    {
        let ghost start = tape@;
        let ghost given = *table;
        let done = self.forward_prompt_rows(tape, tokens, config, table);
        let ghost rotaries = choose|rotaries: Seq<usize>| #[trigger]
            all_rotate(*config, rotaries) && obeys(
                tape@,
                done,
                self.prompt_forwarded(start, tokens@, *config, given, rotaries),
            );
        let hidden: usize = match done {
            Ok(hidden) => hidden,
            Err(error) => {
                assert(obeys(
                    tape@,
                    Err::<usize, Error>(error),
                    self.prompt_scored(start, tokens@, *config, given, rotaries),
                ));
                return Err(error);
            },
        };
        proof {
            crate::gemma4_cuda::ops::lemma_rows((tokens.len() - 1) as usize, config.hidden_size);
        }
        let offset: usize = (tokens.len() - 1) * config.hidden_size;
        let last = self.slice(tape, hidden, offset, config.hidden_size);
        let r = match last {
            Ok(last) => self.head(tape, last, config),
            Err(error) => Err(error),
        };
        assert(obeys(
            tape@,
            r,
            self.prompt_scored(start, tokens@, *config, given, rotaries),
        ));
        r
    }
}

} // verus!

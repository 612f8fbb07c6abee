//! Decoding with a Gemma model for the best tokens only, and running again what was
//! captured.

use crate::cuda::launch::{model_grid, model_launch_config, Grid};
use crate::cuda::sampling_kernels::{BLOCK_TOKENS, MOST_PICKS};
use crate::error::{Error, Failure, Result};
use crate::gemma4_cuda::cache::{DecodeGraph, Gemma4CudaCacheTable, Gemma4CudaKvCache};
use crate::gemma4_cuda::decode::{has_room, lemma_fits_stepped, stepped};
use crate::gemma4_cuda::ple::ple_countable;
use crate::gemma4_cuda::tape::{extends, Launch, Recorder, Tape, MOST_ROWS};
use crate::gemma4_cuda::weights::{small, Gemma4CudaState};
use crate::models::gemma4::Gemma4TextConfig;
use crate::scalar::{encoded, product, quotient, squashed, truncated, Scalar};
use vstd::prelude::*;

verus! {

/// The number of tokens that are picked: as many as asked, but one at least, and no more
/// than can be picked or there are.
pub open spec fn picked_count(asked: usize, tokens: usize) -> usize {
    let most = if asked < 1 {
        1
    } else if asked > MOST_PICKS {
        MOST_PICKS
    } else {
        asked
    };
    if most < tokens {
        most
    } else {
        tokens
    }
}

/// The blocks that look at all tokens.
pub open spec fn token_blocks(tokens: usize) -> int {
    (tokens + BLOCK_TOKENS - 1) / BLOCK_TOKENS as int
}

/// The buffers of the scores and the numbers of the best tokens.
#[derive(Clone, Copy, Debug, PartialEq, Eq, Structural)]
pub struct Picked {
    pub scores: usize,
    pub ids: usize,
}

/// The best tokens of each block, and of all blocks, in the buffers that are given.
pub open spec fn picks<T>(
    t: Tape<T>,
    logits: usize,
    tokens: usize,
    count: usize,
    penalty: T,
) -> (Tape<T>, (usize, usize)) {
    let len = (token_blocks(tokens) * count) as usize;
    let block_scores = t.next();
    let made = t.with_buffer(len);
    let block_ids = made.next();
    let made = made.with_buffer(len);
    (
        made.ordered(
            Launch::PickBlocks {
                logits,
                picks: count,
                penalty,
                scores: block_scores,
                ids: block_ids,
            },
            Some(
                Grid::Blocks {
                    blocks: (token_blocks(tokens) as nat % 0x1_0000_0000) as u32,
                    threads: 256,
                },
            ),
        ),
        (block_scores, block_ids),
    )
}

/// The best of the tokens of all blocks.
pub open spec fn best<T>(
    t: Tape<T>,
    count: usize,
    blocks: (usize, usize),
    scores: usize,
    ids: usize,
) -> Tape<T> {
    t.launched(
        Launch::PickBest {
            picks: count,
            block_scores: blocks.0,
            block_ids: blocks.1,
            scores,
            ids,
        },
        model_grid(1),
    )
}

/// A decoding step for the best tokens.
pub open spec fn picked<T: Copy>(
    state: Gemma4CudaState<T>,
    t: Tape<T>,
    token: u32,
    config: Gemma4TextConfig<T>,
    table: Gemma4CudaCacheTable,
    count: usize,
    penalty: T,
) -> (Tape<T>, Picked) {
    let (t, logits) = state.scored(t, token, config, table);
    if t.stopped() {
        (t, Picked { scores: 0, ids: 0 })
    } else {
        let (t, blocks) = picks(t, logits, config.vocab_size, count, penalty);
        let scores = t.next();
        let t = t.with_buffer(count);
        let ids = t.next();
        let t = t.with_buffer(count);
        (best(t, count, blocks, scores, ids), Picked { scores, ids })
    }
}

/// With a map of the tokens that were seen.
pub open spec fn with_seen<T>(t: Tape<T>, tokens: usize) -> Tape<T> {
    if t.seen {
        t
    } else {
        Tape { seen: true, ..t.ordered(Launch::ClearSeen { tokens }, None) }
    }
}

/// With a token marked as seen, where that is asked.
pub open spec fn marking<T>(t: Tape<T>, token: u32, mark: bool) -> Tape<T> {
    if mark {
        t.launched(Launch::MarkSeen { token: token as usize }, model_grid(1))
    } else {
        t
    }
}

/// What a decoding step comes to: launches of its own, or what was captured run again.
#[derive(Clone, Copy, Debug, PartialEq, Eq, Structural)]
pub enum Decoding {
    Launched(Picked),
    Replayed,
}

/// The captured step picks as many tokens with the same penalty.
pub open spec fn compatible(graph: Option<DecodeGraph>, count: usize, bits: u32) -> bool {
    graph matches Some(graph) && graph.top_k == count && graph.penalty_bits == bits
}

/// A decoding step for the best tokens: what was captured is run again where it fits, and
/// forgotten where it does not.
pub open spec fn decodes<T: Copy>(
    state: Gemma4CudaState<T>,
    before: Tape<T>,
    table: Gemma4CudaCacheTable,
    token: u32,
    config: Gemma4TextConfig<T>,
    asked: usize,
    penalty: T,
    bits: u32,
    mark: bool,
    after: Tape<T>,
    left: Gemma4CudaCacheTable,
    r: Result<Decoding>,
) -> bool {
    let count = picked_count(asked, config.vocab_size);
    let t = with_seen(before, config.vocab_size);
    if compatible(table.decode_graph, count, bits) {
        &&& r matches Ok(decoding) && decoding == Decoding::Replayed
        &&& after == t.launched(
            Launch::UpdateState { token: token as usize, position: table.position, mark },
            model_grid(1),
        )
        &&& stepped(table, left)
        &&& left.decode_graph == table.decode_graph
        &&& left.decode_graph_attempted == table.decode_graph_attempted
    } else {
        let marked = marking(t, token, mark);
        let (plan, buffers) = picked(state, marked, token, config, table, count, penalty);
        &&& left.decode_graph is None
        &&& left.decode_graph_attempted == (table.decode_graph is None
            && table.decode_graph_attempted)
        &&& match r {
            Ok(decoding) => {
                &&& decoding == Decoding::Launched(buffers)
                &&& plan == after
                &&& stepped(table, left)
            },
            Err(error) => {
                &&& plan == (Tape { failure: Some(error@), ..after })
                &&& if state.token_forwarded(marked, token, config, table).0.stopped() {
                    left.layers@ == table.layers@ && left.position == table.position
                } else {
                    stepped(table, left)
                }
            },
        }
    }
}

/// The number of tokens that are picked.
pub fn pick_count(asked: usize, tokens: usize) -> (r: usize)
    ensures
        r == picked_count(asked, tokens),
{
    let most: usize = if asked < 1 {
        1
    } else if asked > MOST_PICKS {
        MOST_PICKS
    } else {
        asked
    };
    if most < tokens {
        most
    } else {
        tokens
    }
}

/// As many tokens are picked as asked, within the limits.
pub proof fn picks_are_within_limits(asked: usize, tokens: usize)
    requires
        tokens > 0,
    ensures
        1 <= picked_count(asked, tokens) <= MOST_PICKS,
        picked_count(asked, tokens) <= tokens,
        1 <= asked <= MOST_PICKS && asked <= tokens ==> picked_count(asked, tokens) == asked,
{
}

impl<T: Scalar> Gemma4CudaState<T> {
    /// Picks the best tokens of each block.
    fn pick_blocks(
        &self,
        tape: &mut Recorder<T>,
        logits: usize,
        tokens: usize,
        count: usize,
        penalty: T,
    ) -> (r: (usize, usize))
        requires
            count <= MOST_PICKS,
            small(tokens),
        ensures
            picks(old(tape)@, logits, tokens, count, penalty) == (final(tape)@, r),
            extends(old(tape)@, final(tape)@),
    {
        let blocks: usize = tokens / BLOCK_TOKENS + if tokens % BLOCK_TOKENS != 0 {
            1
        } else {
            0
        };
        proof {
            assert(blocks == token_blocks(tokens));
            assert(0 <= blocks * count <= blocks * 64) by (nonlinear_arith)
                requires
                    0 <= count <= 64,
                    0 <= blocks,
            ;
        }
        let len: usize = blocks * count;
        let scores: usize = tape.output(len);
        let ids: usize = tape.output(len);
        tape.order(
            Launch::PickBlocks { logits, picks: count, penalty, scores, ids },
            Some(
                Grid::Blocks { blocks: (blocks as u64 % 0x1_0000_0000) as u32, threads: 256 },
            ),
        );
        (scores, ids)
    }

    /// Decodes a token for the best tokens behind it.  The scores stay on the device
    /// until [`candidates`] takes them.
    pub fn decode_topk(
        &self,
        tape: &mut Recorder<T>,
        token: u32,
        config: &Gemma4TextConfig<T>,
        table: &mut Gemma4CudaCacheTable,
        top_k: usize,
        penalty: T,
        mark: bool,
    ) -> (r: Result<Decoding>)
        requires
            self.wf(),
            self.fits_table(config.num_attention_heads, *old(table)),
            ple_countable(*config),
            has_room(*old(table)),
            small(config.vocab_size),
        ensures
            self.fits_table(config.num_attention_heads, *final(table)),
            final(table).sources == old(table).sources,
            token >= config.vocab_size ==> {
                &&& r matches Err(error) && error@ == Failure::Execution(
                    "token id exceeds CUDA decode vocabulary"@,
                )
                &&& final(tape)@ == old(tape)@
                &&& *final(table) == *old(table)
            },
            token < config.vocab_size ==> exists|bits: u32| #[trigger]
                encoded(penalty, bits) && decodes(
                    *self,
                    old(tape)@,
                    *old(table),
                    token,
                    *config,
                    top_k,
                    penalty,
                    bits,
                    mark,
                    final(tape)@,
                    *final(table),
                    r,
                ),
    {
        if token as u64 >= config.vocab_size as u64 {
            return Err(Error::execution("token id exceeds CUDA decode vocabulary"));
        }
        let count: usize = pick_count(top_k, config.vocab_size);
        let bits: u32 = penalty.bits();
        assert(encoded(penalty, bits));
        let ghost start = tape@;
        let ghost given = *table;
        if !tape.seen {
            tape.order(Launch::ClearSeen { tokens: config.vocab_size }, None);
            tape.seen = true;
        }
        assert(tape@ == with_seen(start, config.vocab_size));
        if let Some(graph) = table.decode_graph {
            if graph.top_k == count && graph.penalty_bits == bits {
                let _ = tape.launch(
                    Launch::UpdateState { token: token as usize, position: table.position, mark },
                    model_launch_config(1),
                );
                table.advance();
                proof {
                    lemma_fits_stepped(*self, config.num_attention_heads, given, *table);
                }
                return Ok(Decoding::Replayed);
            }
            table.decode_graph = None;
            table.decode_graph_attempted = false;
            proof {
                assert forall|i: int| 0 <= i < table.layers@.len() implies table.entry_wf(i) by {
                    assert(given.entry_wf(i));
                }
                assert(self.fits_table(config.num_attention_heads, *table)) by {
                    assert forall|layer: int| 0 <= layer < self.decode_plan@.len() implies
                        crate::gemma4_cuda::layers::plan_fits(
                        #[trigger] self.decode_plan@[layer],
                        layer,
                        config.num_attention_heads,
                        *table,
                    ) by {
                        assert(crate::gemma4_cuda::layers::plan_fits(
                            self.decode_plan@[layer],
                            layer,
                            config.num_attention_heads,
                            given,
                        ));
                    }
                }
            }
        }
        let ghost middle = *table;
        if mark {
            let _ = tape.launch(Launch::MarkSeen { token: token as usize }, model_launch_config(1));
        }
        let ghost marked = tape@;
        assert(marked == marking(with_seen(start, config.vocab_size), token, mark));
        proof {
            self.lemma_scored_by_layers(marked, token, *config, given, middle);
        }
        let logits: usize = self.decode_token(tape, token, config, table)?;
        let (block_scores, block_ids) = self.pick_blocks(
            tape,
            logits,
            config.vocab_size,
            count,
            penalty,
        );
        let scores: usize = tape.output(count);
        let ids: usize = tape.output(count);
        let _ = tape.launch(
            Launch::PickBest { picks: count, block_scores, block_ids, scores, ids },
            model_launch_config(1),
        );
        Ok(Decoding::Launched(Picked { scores, ids }))
    }

    /// What is launched for a token does not depend on what was captured.
    proof fn lemma_scored_by_layers(
        self,
        t: Tape<T>,
        token: u32,
        config: Gemma4TextConfig<T>,
        a: Gemma4CudaCacheTable,
        b: Gemma4CudaCacheTable,
    )
        requires
            a.layers == b.layers,
            a.sources == b.sources,
            a.position == b.position,
        ensures
            self.scored(t, token, config, a) == self.scored(t, token, config, b),
            self.token_forwarded(t, token, config, a) == self.token_forwarded(t, token, config, b),
    {
        if !t.stopped() && token < config.vocab_size {
            let set = self.state_set(t, token, a.position);
            if !set.stopped() {
                let (u, embedding) = self.embedded_state(set, config.hidden_size);
                let (u, packed) = self.packed(
                    u,
                    crate::gemma4_cuda::ple::Source::State,
                    embedding,
                    config,
                );
                self.lemma_layers_by_layers(u, embedding, packed, 0, config, a, b);
            }
        }
    }

    proof fn lemma_layers_by_layers(
        self,
        t: Tape<T>,
        hidden: usize,
        packed: Option<usize>,
        layer: usize,
        config: Gemma4TextConfig<T>,
        a: Gemma4CudaCacheTable,
        b: Gemma4CudaCacheTable,
    )
        requires
            a.layers == b.layers,
            a.sources == b.sources,
        ensures
            self.layers_run(t, hidden, packed, layer, config, a) == self.layers_run(
                t,
                hidden,
                packed,
                layer,
                config,
                b,
            ),
        decreases config.num_hidden_layers - layer,
    {
        if !t.stopped() && layer < config.num_hidden_layers {
            assert(self.layer_run(t, hidden, packed, layer, config, a) == self.layer_run(
                t,
                hidden,
                packed,
                layer,
                config,
                b,
            )) by {
                reveal(Gemma4CudaState::layer_run);
            }
            let (u, h) = self.layer_run(t, hidden, packed, layer, config, a);
            self.lemma_layers_by_layers(u, h, packed, (layer + 1) as usize, config, a, b);
        }
    }
}

/// Every cache fits in a block.
pub open spec fn all_in_blocks(layers: Seq<Option<Gemma4CudaKvCache>>) -> bool {
    forall|i: int|
        0 <= i < layers.len() ==> ((#[trigger] layers[i]) matches Some(cache) ==> cache.capacity
            <= MOST_ROWS)
}

/// Whether every cache fits in a block.
fn fit_in_blocks(table: &Gemma4CudaCacheTable) -> (r: bool)
    ensures
        r == all_in_blocks(table.layers@),
{
    let mut i: usize = 0;
    while i < table.layers.len()
        invariant
            i <= table.layers.len(),
            forall|j: int|
                0 <= j < i ==> ((#[trigger] table.layers@[j]) matches Some(cache)
                    ==> cache.capacity <= MOST_ROWS),
        decreases table.layers.len() - i,
    {
        if let Some(cache) = table.layers[i] {
            if cache.capacity > MOST_ROWS {
                assert(table.layers@[i as int] == Some(cache));
                return false;
            }
        }
        i = i + 1;
    }
    true
}

/// Whether a decoding step is to be captured: none was, none was tried, every cache fits
/// in a block, and capturing is not switched off.  What is to be captured counts as tried.
pub fn begin_capture(table: &mut Gemma4CudaCacheTable, disabled: bool) -> (r: bool)
    ensures
        r == (!disabled && old(table).decode_graph is None && !old(table).decode_graph_attempted
            && all_in_blocks(old(table).layers@)),
        final(table).decode_graph_attempted == (old(table).decode_graph_attempted || r),
        final(table).layers == old(table).layers,
        final(table).sources == old(table).sources,
        final(table).position == old(table).position,
        final(table).decode_graph == old(table).decode_graph,
{
    if disabled || table.decode_graph.is_some() || table.decode_graph_attempted || !fit_in_blocks(
        table,
    ) {
        return false;
    }
    table.decode_graph_attempted = true;
    true
}

/// The launches of a decoding step that can be run again: the token is that of the
/// decoder's state.
pub open spec fn captured<T: Copy>(
    state: Gemma4CudaState<T>,
    t: Tape<T>,
    config: Gemma4TextConfig<T>,
    table: Gemma4CudaCacheTable,
    count: usize,
    penalty: T,
) -> (Tape<T>, Picked) {
    if !all_in_blocks(table.layers@) {
        (
            Tape {
                failure: Some(
                    Failure::Execution(
                        "CUDA Graph decode currently requires KV capacities <= 4096"@,
                    ),
                ),
                ..t
            },
            Picked { scores: 0, ids: 0 },
        )
    } else {
        let scores = t.next();
        let t = t.with_buffer(count);
        let ids = t.next();
        let t = t.with_buffer(count);
        let (t, logits) = state.scored_state(t, config, table);
        if t.stopped() {
            (t, Picked { scores, ids })
        } else {
            let (t, blocks) = picks(t, logits, config.vocab_size, count, penalty);
            (best(t, count, blocks, scores, ids), Picked { scores, ids })
        }
    }
}

impl<T: Scalar> Gemma4CudaState<T> {
    /// Records a decoding step that can be run again.
    pub fn build_decode_graph(
        &self,
        tape: &mut Recorder<T>,
        config: &Gemma4TextConfig<T>,
        table: &Gemma4CudaCacheTable,
        count: usize,
        penalty: T,
    ) -> (r: Result<Picked>)
        requires
            self.wf(),
            self.fits_table(config.num_attention_heads, *table),
            ple_countable(*config),
            small(config.vocab_size),
            count <= MOST_PICKS,
        ensures
            ({
                let (plan, buffers) = captured(
                    *self,
                    old(tape)@,
                    *config,
                    *table,
                    count,
                    penalty,
                );
                match r {
                    Ok(picked) => plan == final(tape)@ && buffers == picked,
                    Err(error) => plan == (Tape { failure: Some(error@), ..final(tape)@ }),
                }
            }),
    {
        if !fit_in_blocks(table) {
            return Err(
                Error::execution("CUDA Graph decode currently requires KV capacities <= 4096"),
            );
        }
        let scores: usize = tape.output(count);
        let ids: usize = tape.output(count);
        let logits: usize = self.decode_logits_state(tape, config, table)?;
        let (block_scores, block_ids) = self.pick_blocks(
            tape,
            logits,
            config.vocab_size,
            count,
            penalty,
        );
        let _ = tape.launch(
            Launch::PickBest { picks: count, block_scores, block_ids, scores, ids },
            model_launch_config(1),
        );
        Ok(Picked { scores, ids })
    }
}

/// Keeps a decoding step that was captured.
pub fn keep_capture<T: Scalar>(table: &mut Gemma4CudaCacheTable, count: usize, penalty: T)
    ensures
        final(table).decode_graph matches Some(graph) && graph.top_k == count && encoded(
            penalty,
            graph.penalty_bits,
        ),
        final(table).layers == old(table).layers,
        final(table).sources == old(table).sources,
        final(table).position == old(table).position,
        final(table).decode_graph_attempted == old(table).decode_graph_attempted,
{
    table.decode_graph = Some(DecodeGraph { top_k: count, penalty_bits: penalty.bits() });
}

/// `r` is a score bent to stay below a cap.
pub open spec fn softcapped<T: Scalar>(score: T, cap: T, r: T) -> bool {
    exists|part: T, bent: T|
        {
            &&& #[trigger] quotient(score, cap, part)
            &&& #[trigger] squashed(part, bent)
            &&& product(bent, cap, r)
        }
}

/// Bends scores to stay below a cap, where there is one.
pub fn apply_logit_softcap<T: Scalar>(logits: &mut Vec<T>, softcap: Option<T>)
    ensures
        final(logits)@.len() == old(logits)@.len(),
        match softcap {
            None => final(logits)@ == old(logits)@,
            Some(cap) => forall|i: int|
                0 <= i < final(logits)@.len() ==> softcapped(
                    old(logits)@[i],
                    cap,
                    #[trigger] final(logits)@[i],
                ),
        },
{
    if let Some(cap) = softcap {
        let ghost start = logits@;
        let mut i: usize = 0;
        while i < logits.len()
            invariant
                i <= logits@.len(),
                logits@.len() == start.len(),
                forall|j: int|
                    0 <= j < i ==> softcapped(start[j], cap, #[trigger] logits@[j]),
                forall|j: int| i <= j < start.len() ==> #[trigger] logits@[j] == start[j],
            decreases logits@.len() - i,
        {
            let score = logits[i];
            let part = score.over(cap);
            let bent = part.hyperbolic_tangent();
            let capped = bent.times(cap);
            assert(quotient(score, cap, part) && squashed(part, bent) && product(bent, cap, capped));
            logits.set(i, capped);
            i = i + 1;
        }
    }
}

/// `id` is the number that an element names.
pub open spec fn names<T: Scalar>(element: T, id: u32) -> bool {
    crate::cuda::sampling_kernels::named(element, id)
}

/// Pairs the numbers of the best tokens with their scores, bent where there is a cap.
pub fn candidates<T: Scalar>(ids: &Vec<T>, scores: Vec<T>, softcap: Option<T>) -> (r: Vec<(u32, T)>)
    requires
        ids@.len() == scores@.len(),
    ensures
        r@.len() == ids@.len(),
        forall|i: int|
            0 <= i < r@.len() ==> {
                &&& names(ids@[i], (#[trigger] r@[i]).0)
                &&& match softcap {
                    None => r@[i].1 == scores@[i],
                    Some(cap) => softcapped(scores@[i], cap, r@[i].1),
                }
            },
{
    let mut bent = scores;
    apply_logit_softcap(&mut bent, softcap);
    let mut r: Vec<(u32, T)> = Vec::new();
    let mut i: usize = 0;
    while i < ids.len()
        invariant
            i <= ids@.len(),
            ids@.len() == scores@.len(),
            bent@.len() == scores@.len(),
            r@.len() == i,
            match softcap {
                None => bent@ == scores@,
                Some(cap) => forall|j: int|
                    0 <= j < bent@.len() ==> softcapped(scores@[j], cap, #[trigger] bent@[j]),
            },
            forall|j: int|
                0 <= j < i ==> {
                    &&& names(ids@[j], (#[trigger] r@[j]).0)
                    &&& r@[j].1 == bent@[j]
                },
        decreases ids@.len() - i,
    {
        let count: usize = ids[i].count();
        let id: u32 = if count <= 0xffff_ffff {
            count as u32
        } else {
            0xffff_ffff
        };
        assert(truncated(ids@[i as int], count));
        assert(names(ids@[i as int], id));
        r.push((id, bent[i]));
        i = i + 1;
    }
    r
}

} // verus!

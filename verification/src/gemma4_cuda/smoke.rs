//! Single parts of a Gemma model, run for one token.

use crate::cuda::attention_kernels::{Heads, Ring};
use crate::cuda::model_kernels::Rotation;
use crate::error::{Error, Failure, Result};
use crate::gemma4_cuda::cache::Gemma4CudaKvCache;
use crate::gemma4_cuda::elements::{keeps_three, obeys_three, Join};
use crate::gemma4_cuda::layers::widths_fit;
use crate::gemma4_cuda::prompt::{layer_prefix, name_of, prefix_of};
use crate::gemma4_cuda::tape::{keeps, obeys, Recorder, Tape};
use crate::gemma4_cuda::weights::{find_number, number_of, weight_missing, Gemma4CudaState};
use crate::scalar::{counted, one, Scalar};
use crate::text::{decimal, owned, push_decimal, push_shape, shape_text};
use vstd::prelude::*;

verus! {

impl<T: Scalar> Gemma4CudaState<T> {
    /// The scores of all tokens from the embedding of one.
    pub open spec fn embedding_scored(self, t: Tape<T>, token: u32, hidden: usize) -> (
        Tape<T>,
        usize,
    ) {
        let name = "embed_tokens.weight"@;
        match self.weight_number(name) {
            None => t.stop(weight_missing(name)),
            Some(weight) => {
                let shape = self.weights@[weight as int].shape@;
                if !self.table_of(weight, hidden) {
                    t.stop(
                        Failure::InvalidShape(
                            "embed_tokens.weight has unexpected shape "@ + shape_text(shape),
                        ),
                    )
                } else {
                    let (t, embedding) = self.embedded(t, token, hidden);
                    let (t, short) = self.shortened(t, embedding);
                    if t.stopped() {
                        (t, 0)
                    } else {
                        self.multiplied(t, short, weight, 1, shape[0], hidden)
                    }
                }
            },
        }
    }

    /// Computes the scores of all tokens from the embedding of one.
    pub fn embedding_logits(&self, tape: &mut Recorder<T>, token: u32, hidden: usize) -> (r: Result<
        usize,
    >)
        requires
            self.wf(),
        ensures
            obeys(final(tape)@, r, self.embedding_scored(old(tape)@, token, hidden)),
            keeps(old(tape)@, final(tape)@, r),
    {
        let weight: usize = self.weight("embed_tokens.weight")?;
        let shape = &self.weights[weight].shape;
        if shape.len() != 2 || shape[1] != hidden {
            let mut message = owned("embed_tokens.weight has unexpected shape ");
            push_shape(&mut message, shape);
            return Err(Error::InvalidShape(message));
        }
        let embedding: usize = self.embedding(tape, token, hidden)?;
        let short: usize = self.to_bf16(tape, embedding)?;
        self.multiply(tape, short, weight, 1, shape[0], hidden)
    }

    /// The feed-forward part of a layer, for the embedding of a token.
    pub open spec fn mlp_smoked(
        self,
        t: Tape<T>,
        token: u32,
        layer: usize,
        hidden: usize,
        epsilon: T,
    ) -> (Tape<T>, usize) {
        let p = layer_prefix(layer);
        let (t, start) = self.embedded(t, token, hidden);
        let (t, normalized) = self.normed(
            t,
            start,
            p + ".pre_feedforward_layernorm.weight"@,
            epsilon,
            false,
        );
        let (t, gate) = self.mapped(t, normalized, 1, p + ".mlp.gate_proj.weight"@);
        let (t, up) = self.mapped(t, normalized, 1, p + ".mlp.up_proj.weight"@);
        let (t, activated) = self.joined(t, Join::GeluMul, gate, up);
        let (t, down) = self.mapped(t, activated, 1, p + ".mlp.down_proj.weight"@);
        let (t, down) = self.normed(
            t,
            down,
            p + ".post_feedforward_layernorm.weight"@,
            epsilon,
            false,
        );
        self.joined(t, Join::Add, start, down)
    }

    /// Runs the feed-forward part of a layer for the embedding of a token.
    pub fn decoder_mlp_smoke(
        &self,
        tape: &mut Recorder<T>,
        token: u32,
        layer: usize,
        hidden: usize,
        epsilon: T,
    ) -> (r: Result<usize>)
        requires
            self.wf(),
        ensures
            obeys(
                final(tape)@,
                r,
                self.mlp_smoked(old(tape)@, token, layer, hidden, epsilon),
            ),
            keeps(old(tape)@, final(tape)@, r),
    {
        let p = prefix_of(layer);
        let start: usize = self.embedding(tape, token, hidden)?;
        let name = name_of(&p, ".pre_feedforward_layernorm.weight");
        let normalized: usize = self.rms_norm(tape, start, name.as_str(), epsilon)?;
        let name = name_of(&p, ".mlp.gate_proj.weight");
        let gate: usize = self.linear(tape, normalized, 1, name.as_str())?;
        let name = name_of(&p, ".mlp.up_proj.weight");
        let up: usize = self.linear(tape, normalized, 1, name.as_str())?;
        let activated: usize = self.join(tape, Join::GeluMul, gate, up)?;
        let name = name_of(&p, ".mlp.down_proj.weight");
        let down: usize = self.linear(tape, activated, 1, name.as_str())?;
        let name = name_of(&p, ".post_feedforward_layernorm.weight");
        let down: usize = self.rms_norm(tape, down, name.as_str(), epsilon)?;
        self.join(tape, Join::Add, start, down)
    }

    /// Queries, keys and values, by one projection where the layer has it fused.
    pub open spec fn smoke_queried(
        self,
        t: Tape<T>,
        normalized: usize,
        layer: usize,
        widths: (usize, usize, usize),
    ) -> (Tape<T>, (usize, usize, usize)) {
        let p = layer_prefix(layer);
        if t.stopped() {
            (t, (0, 0, 0))
        } else if number_of(self.names@, p + ".self_attn.qkv_proj.weight"@) is Some {
            let (t, short) = self.shortened(t, normalized);
            self.projected_qkv(t, short, 1, p, widths)
        } else {
            let (t, query) = self.mapped(t, normalized, 1, p + ".self_attn.q_proj.weight"@);
            let (t, key) = self.mapped(t, normalized, 1, p + ".self_attn.k_proj.weight"@);
            let (t, value) = self.mapped(t, normalized, 1, p + ".self_attn.v_proj.weight"@);
            (t, (query, key, value))
        }
    }

    fn smoke_query(
        &self,
        tape: &mut Recorder<T>,
        normalized: usize,
        layer: usize,
        widths: (usize, usize, usize),
    ) -> (r: Result<(usize, usize, usize)>)
        requires
            self.wf(),
            normalized < old(tape)@.lens.len(),
            widths.0 + widths.1 + widths.2 <= usize::MAX,
        ensures
            obeys_three(
                final(tape)@,
                r,
                self.smoke_queried(old(tape)@, normalized, layer, widths),
            ),
            keeps_three(old(tape)@, final(tape)@, r),
    {
        let p = prefix_of(layer);
        let name = name_of(&p, ".self_attn.qkv_proj.weight");
        if find_number(&self.names, &name).is_some() {
            let short: usize = self.to_bf16(tape, normalized)?;
            return self.linear_qkv_bf16(tape, short, 1, p.as_str(), widths);
        }
        let name = name_of(&p, ".self_attn.q_proj.weight");
        let query: usize = self.linear(tape, normalized, 1, name.as_str())?;
        let name = name_of(&p, ".self_attn.k_proj.weight");
        let key: usize = self.linear(tape, normalized, 1, name.as_str())?;
        let name = name_of(&p, ".self_attn.v_proj.weight");
        let value: usize = self.linear(tape, normalized, 1, name.as_str())?;
        Ok((query, key, value))
    }

    /// Queries and keys normalized and rotated, values normalized.
    pub open spec fn smoke_turned(
        self,
        t: Tape<T>,
        buffers: (usize, usize, usize),
        layer: usize,
        h: Heads,
        position: usize,
        theta: T,
        unit: T,
        epsilon: T,
    ) -> (Tape<T>, (usize, usize, usize)) {
        let p = layer_prefix(layer);
        if t.stopped() {
            (t, (0, 0, 0))
        } else {
            let (t, query) = self.normed(
                t,
                buffers.0,
                p + ".self_attn.q_norm.weight"@,
                epsilon,
                false,
            );
            let (t, key) = self.normed(
                t,
                buffers.1,
                p + ".self_attn.k_norm.weight"@,
                epsilon,
                false,
            );
            let (t, value) = self.normed_unit(t, buffers.2, h.head_dim, epsilon);
            let (t, query) = self.rotated(
                t,
                query,
                Rotation { heads: h.heads, head_dim: h.head_dim, rotary_dim: h.head_dim },
                position,
                theta,
                unit,
            );
            let (t, key) = self.rotated(
                t,
                key,
                Rotation { heads: h.kv_heads, head_dim: h.head_dim, rotary_dim: h.head_dim },
                position,
                theta,
                unit,
            );
            (t, (query, key, value))
        }
    }

    fn smoke_turn(
        &self,
        tape: &mut Recorder<T>,
        buffers: (usize, usize, usize),
        layer: usize,
        h: Heads,
        position: usize,
        theta: T,
        unit: T,
        epsilon: T,
    ) -> (r: Result<(usize, usize, usize)>)
        requires
            self.wf(),
            buffers.0 < old(tape)@.lens.len(),
            buffers.1 < old(tape)@.lens.len(),
            buffers.2 < old(tape)@.lens.len(),
        ensures
            obeys_three(
                final(tape)@,
                r,
                self.smoke_turned(
                    old(tape)@,
                    buffers,
                    layer,
                    h,
                    position,
                    theta,
                    unit,
                    epsilon,
                ),
            ),
            keeps_three(old(tape)@, final(tape)@, r),
    {
        let (query, key, value) = buffers;
        let p = prefix_of(layer);
        let name = name_of(&p, ".self_attn.q_norm.weight");
        let query: usize = self.rms_norm(tape, query, name.as_str(), epsilon)?;
        let name = name_of(&p, ".self_attn.k_norm.weight");
        let key: usize = self.rms_norm(tape, key, name.as_str(), epsilon)?;
        let value: usize = self.rms_norm_unit(tape, value, h.head_dim, epsilon)?;
        let turn = Rotation { heads: h.heads, head_dim: h.head_dim, rotary_dim: h.head_dim };
        let query: usize = self.rope(tape, query, turn, position, theta, unit)?;
        let turn = Rotation { heads: h.kv_heads, head_dim: h.head_dim, rotary_dim: h.head_dim };
        let key: usize = self.rope(tape, key, turn, position, theta, unit)?;
        Ok((query, key, value))
    }

    /// The attention part of a layer, for the embedding of a token alone.
    pub open spec fn attention_smoked(
        self,
        t: Tape<T>,
        token: u32,
        layer: usize,
        hidden: usize,
        h: Heads,
        epsilon: T,
        window: usize,
        theta: T,
        unit: T,
    ) -> (Tape<T>, usize) {
        let p = layer_prefix(layer);
        let (t, start) = self.embedded(t, token, hidden);
        let (t, normalized) = self.normed(
            t,
            start,
            p + ".input_layernorm.weight"@,
            epsilon,
            false,
        );
        let (t, buffers) = self.smoke_queried(
            t,
            normalized,
            layer,
            (
                (h.heads * h.head_dim) as usize,
                (h.kv_heads * h.head_dim) as usize,
                (h.kv_heads * h.head_dim) as usize,
            ),
        );
        if t.stopped() {
            (t, 0)
        } else if t.lens[buffers.0 as int] != h.heads * h.head_dim || t.lens[buffers.1 as int]
            != h.kv_heads * h.head_dim {
            t.stop(
                Failure::InvalidShape(
                    "layer "@ + decimal(layer as nat) + " attention projection shape mismatch"@,
                ),
            )
        } else {
            let (t, buffers) = self.smoke_turned(t, buffers, layer, h, 0, theta, unit, epsilon);
            let (t, attended) = self.attended(
                t,
                buffers.0,
                buffers.1,
                buffers.2,
                h,
                Ring { start: 0, capacity: 1 },
                1,
                window,
            );
            let (t, projected) = self.mapped(t, attended, 1, p + ".self_attn.o_proj.weight"@);
            let (t, projected) = self.normed(
                t,
                projected,
                p + ".post_attention_layernorm.weight"@,
                epsilon,
                false,
            );
            self.joined(t, Join::Add, start, projected)
        }
    }

    /// Runs the attention part of a layer for the embedding of a token alone.
    pub fn decoder_attention_smoke(
        &self,
        tape: &mut Recorder<T>,
        token: u32,
        layer: usize,
        hidden: usize,
        h: Heads,
        epsilon: T,
        window: usize,
    ) -> (r: Result<usize>)
        requires
            self.wf(),
            h.kv_heads > 0,
            widths_fit(h.heads, h.kv_heads, h.head_dim),
        ensures
            exists|theta: T, unit: T|
                {
                    &&& #[trigger] counted(10000, theta)
                    &&& #[trigger] one(unit)
                    &&& obeys(
                        final(tape)@,
                        r,
                        self.attention_smoked(
                            old(tape)@,
                            token,
                            layer,
                            hidden,
                            h,
                            epsilon,
                            window,
                            theta,
                            unit,
                        ),
                    )
                },
            keeps(old(tape)@, final(tape)@, r),
    {
        let theta = T::of_count(10000);
        let unit = T::of_count(1);
        assert(counted(10000, theta) && one(unit));
        proof {
            let (a, b, d) = (h.heads as int, h.kv_heads as int, h.head_dim as int);
            assert(0 <= a * d && 0 <= b * d) by (nonlinear_arith)
                requires
                    0 <= a,
                    0 <= b,
                    0 <= d,
            ;
        }
        let p = prefix_of(layer);
        let start: usize = self.embedding(tape, token, hidden)?;
        let name = name_of(&p, ".input_layernorm.weight");
        let normalized: usize = self.rms_norm(tape, start, name.as_str(), epsilon)?;
        let widths = (h.heads * h.head_dim, h.kv_heads * h.head_dim, h.kv_heads * h.head_dim);
        let buffers = self.smoke_query(tape, normalized, layer, widths)?;
        if tape.len_of(buffers.0) != widths.0 || tape.len_of(buffers.1) != widths.1 {
            let mut message = owned("layer ");
            push_decimal(&mut message, layer);
            message.append(" attention projection shape mismatch");
            return Err(Error::InvalidShape(message));
        }
        let (query, key, value) = self.smoke_turn(
            tape,
            buffers,
            layer,
            h,
            0,
            theta,
            unit,
            epsilon,
        )?;
        let attended: usize = self.gqa(
            tape,
            query,
            key,
            value,
            h,
            Ring { start: 0, capacity: 1 },
            1,
            window,
        )?;
        let name = name_of(&p, ".self_attn.o_proj.weight");
        let projected: usize = self.linear(tape, attended, 1, name.as_str())?;
        let name = name_of(&p, ".post_attention_layernorm.weight");
        let projected: usize = self.rms_norm(tape, projected, name.as_str(), epsilon)?;
        self.join(tape, Join::Add, start, projected)
    }

    /// A token written to a cache, up to the write.
    pub open spec fn cache_written(
        self,
        t: Tape<T>,
        token: u32,
        layer: usize,
        hidden: usize,
        heads: usize,
        epsilon: T,
        cache: Gemma4CudaKvCache,
        theta: T,
        unit: T,
    ) -> (Tape<T>, usize) {
        let p = layer_prefix(layer);
        let h = Heads { heads, kv_heads: cache.kv_heads, head_dim: cache.head_dim };
        let (t, start) = self.embedded(t, token, hidden);
        let (t, normalized) = self.normed(
            t,
            start,
            p + ".input_layernorm.weight"@,
            epsilon,
            false,
        );
        let (t, buffers) = self.smoke_queried(
            t,
            normalized,
            layer,
            (
                (h.heads * h.head_dim) as usize,
                (h.kv_heads * h.head_dim) as usize,
                (h.kv_heads * h.head_dim) as usize,
            ),
        );
        let (t, buffers) = self.smoke_turned(
            t,
            buffers,
            layer,
            h,
            cache.total_seen,
            theta,
            unit,
            epsilon,
        );
        (self.appended(t, layer, cache, buffers.1, buffers.2), buffers.0)
    }

    /// A token written to a cache, and its attention to what the cache keeps.
    pub open spec fn cache_smoked(
        self,
        t: Tape<T>,
        token: u32,
        layer: usize,
        hidden: usize,
        heads: usize,
        epsilon: T,
        cache: Gemma4CudaKvCache,
        theta: T,
        unit: T,
    ) -> (Tape<T>, usize) {
        let (t, query) = self.cache_written(
            t,
            token,
            layer,
            hidden,
            heads,
            epsilon,
            cache,
            theta,
            unit,
        );
        self.attended_cache(t, query, layer, cache.advanced(), heads, cache.capacity)
    }

    /// Writes a token to a cache, and computes its attention to what the cache keeps.
    pub fn cached_attention_smoke(
        &self,
        tape: &mut Recorder<T>,
        token: u32,
        layer: usize,
        hidden: usize,
        heads: usize,
        epsilon: T,
        cache: &mut Gemma4CudaKvCache,
    ) -> (r: Result<usize>)
        requires
            self.wf(),
            old(cache).wf(),
            old(cache).total_seen < usize::MAX,
            widths_fit(heads, old(cache).kv_heads, old(cache).head_dim),
        ensures
            final(cache).wf(),
            exists|theta: T, unit: T|
                {
                    &&& #[trigger] counted(10000, theta)
                    &&& #[trigger] one(unit)
                    &&& obeys(
                        final(tape)@,
                        r,
                        self.cache_smoked(
                            old(tape)@,
                            token,
                            layer,
                            hidden,
                            heads,
                            epsilon,
                            *old(cache),
                            theta,
                            unit,
                        ),
                    )
                    &&& *final(cache) == if self.cache_written(
                        old(tape)@,
                        token,
                        layer,
                        hidden,
                        heads,
                        epsilon,
                        *old(cache),
                        theta,
                        unit,
                    ).0.stopped() {
                        *old(cache)
                    } else {
                        old(cache).advanced()
                    }
                },
            keeps(old(tape)@, final(tape)@, r),
    {
        let theta = T::of_count(10000);
        let unit = T::of_count(1);
        assert(counted(10000, theta) && one(unit));
        let h = Heads { heads, kv_heads: cache.kv_heads, head_dim: cache.head_dim };
        proof {
            let (a, b, d) = (h.heads as int, h.kv_heads as int, h.head_dim as int);
            assert(0 <= a * d && 0 <= b * d) by (nonlinear_arith)
                requires
                    0 <= a,
                    0 <= b,
                    0 <= d,
            ;
        }
        let p = prefix_of(layer);
        let start: usize = self.embedding(tape, token, hidden)?;
        let name = name_of(&p, ".input_layernorm.weight");
        let normalized: usize = self.rms_norm(tape, start, name.as_str(), epsilon)?;
        let widths = (h.heads * h.head_dim, h.kv_heads * h.head_dim, h.kv_heads * h.head_dim);
        let buffers = self.smoke_query(tape, normalized, layer, widths)?;
        let (query, key, value) = self.smoke_turn(
            tape,
            buffers,
            layer,
            h,
            cache.total_seen,
            theta,
            unit,
            epsilon,
        )?;
        self.append_kv(tape, layer, cache, key, value)?;
        self.gqa_cache(tape, query, layer, cache, heads, cache.capacity)
    }
}

} // verus!

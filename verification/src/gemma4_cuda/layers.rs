//! The parts of a decoder layer of a Gemma model, when tokens are decoded one by one.

use crate::cuda::model_kernels::Rotation;
use crate::error::{Error, Failure, Result};
use crate::gemma4_cuda::cache::{Gemma4CudaCacheTable, Gemma4CudaKvCache};
use crate::gemma4_cuda::elements::Join;
use crate::gemma4_cuda::tape::{extends, heeds, keeps, obeys, Recorder, Tape, MOST_ROWS};
use crate::gemma4_cuda::weights::{Gemma4CudaState, LayerPlan};
use crate::models::gemma4::Gemma4TextConfig;
use vstd::prelude::*;

verus! {

/// The failure for a layer that the plan lacks.
pub open spec fn layer_missing() -> Failure {
    Failure::Execution("Gemma decode layer is missing"@)
}

/// The widths of queries, keys and values can be counted together.
pub open spec fn widths_fit(heads: usize, kv_heads: usize, head_dim: usize) -> bool {
    heads * head_dim + kv_heads * head_dim + kv_heads * head_dim <= usize::MAX
}

/// The plan of a layer agrees with itself and with the caches.
pub open spec fn plan_fits<T>(
    plan: LayerPlan<T>,
    layer: int,
    heads: usize,
    table: Gemma4CudaCacheTable,
) -> bool {
    &&& plan.source == table.sources@[layer]
    &&& plan.fused_qkv == (plan.source == layer)
    &&& plan.fused_qkv ==> plan.key_norm is Some
    &&& table.layers@[plan.source as int] matches Some(cache) && widths_fit(
        heads,
        cache.kv_heads,
        plan.head_dim,
    )
}

impl<T> Gemma4CudaState<T> {
    /// The plans of all layers agree with the caches.
    pub open spec fn fits_table(self, heads: usize, table: Gemma4CudaCacheTable) -> bool {
        &&& table.wf()
        &&& table.layers@.len() == self.decode_plan@.len()
        &&& forall|layer: int|
            0 <= layer < self.decode_plan@.len() ==> plan_fits(
                #[trigger] self.decode_plan@[layer],
                layer,
                heads,
                table,
            )
    }
}

impl<T: Copy> Gemma4CudaState<T> {
    /// The feed-forward part of a layer.
    pub open spec fn fed_forward(
        self,
        t: Tape<T>,
        hidden: usize,
        rows: usize,
        layer: usize,
        epsilon: T,
    ) -> (Tape<T>, usize) {
        if t.stopped() {
            (t, 0)
        } else if layer >= self.decode_plan@.len() {
            t.stop(layer_missing())
        } else {
            let plan = self.decode_plan@[layer as int];
            let (t, normalized) = self.normed_at(
                t,
                hidden,
                plan.pre_feedforward_norm,
                epsilon,
                true,
            );
            let (t, gate) = self.projected_at(t, normalized, rows, plan.gate_projection);
            let (t, up) = self.projected_at(t, normalized, rows, plan.up_projection);
            let (t, activated) = self.joined(t, Join::GeluMul, gate, up);
            let (t, down) = self.mapped_at(t, activated, rows, plan.down_projection);
            let (t, down) = self.normed_at(t, down, plan.post_feedforward_norm, epsilon, false);
            self.joined(t, Join::Add, hidden, down)
        }
    }

    pub(crate) fn decoder_mlp_rows(
        &self,
        tape: &mut Recorder<T>,
        hidden: usize,
        rows: usize,
        layer: usize,
        epsilon: T,
    ) -> (r: Result<usize>)
        requires
            self.wf(),
            rows <= MOST_ROWS,
            hidden < old(tape)@.lens.len(),
        ensures
            obeys(
                final(tape)@,
                r,
                self.fed_forward(old(tape)@, hidden, rows, layer, epsilon),
            ),
            keeps(old(tape)@, final(tape)@, r),
    {
        if layer >= self.decode_plan.len() {
            return Err(Error::execution("Gemma decode layer is missing"));
        }
        let plan = self.decode_plan[layer];
        let normalized: usize = self.rms_norm_bf16_at(
            tape,
            hidden,
            plan.pre_feedforward_norm,
            epsilon,
        )?;
        let gate: usize = self.linear_bf16_at(tape, normalized, rows, plan.gate_projection)?;
        let up: usize = self.linear_bf16_at(tape, normalized, rows, plan.up_projection)?;
        let activated: usize = self.join(tape, Join::GeluMul, gate, up)?;
        let down: usize = self.linear_at(tape, activated, rows, plan.down_projection)?;
        let down: usize = self.rms_norm_at(tape, down, plan.post_feedforward_norm, epsilon)?;
        self.join(tape, Join::Add, hidden, down)
    }

    pub(crate) fn decoder_mlp(
        &self,
        tape: &mut Recorder<T>,
        hidden: usize,
        layer: usize,
        epsilon: T,
    ) -> (r: Result<usize>)
        requires
            self.wf(),
            hidden < old(tape)@.lens.len(),
        ensures
            obeys(final(tape)@, r, self.fed_forward(old(tape)@, hidden, 1, layer, epsilon)),
            keeps(old(tape)@, final(tape)@, r),
    {
        self.decoder_mlp_rows(tape, hidden, 1, layer, epsilon)
    }

    /// The queries of a token, and its keys and values where the layer has its own.
    pub open spec fn queried(
        self,
        t: Tape<T>,
        normalized: usize,
        plan: LayerPlan<T>,
        heads: usize,
        kv_heads: usize,
    ) -> (Tape<T>, (usize, usize, usize)) {
        if t.stopped() {
            (t, (0, 0, 0))
        } else if plan.fused_qkv {
            self.projected_qkv_at(
                t,
                normalized,
                1,
                plan.query_projection,
                (
                    (heads * plan.head_dim) as usize,
                    (kv_heads * plan.head_dim) as usize,
                    (kv_heads * plan.head_dim) as usize,
                ),
            )
        } else {
            let (t, query) = self.projected_at(t, normalized, 1, plan.query_projection);
            (t, (query, 0, 0))
        }
    }

    /// The keys and values of a token normalized, rotated and written to the cache.
    pub open spec fn remembered(
        self,
        t: Tape<T>,
        key: usize,
        value: usize,
        plan: LayerPlan<T>,
        layer: usize,
        cache: Gemma4CudaKvCache,
        epsilon: T,
    ) -> Tape<T> {
        if t.stopped() {
            t
        } else {
            let (t, key) = self.normed_at(t, key, plan.key_norm->Some_0, epsilon, false);
            let (t, key) = self.rotated_state(
                t,
                key,
                Rotation {
                    heads: cache.kv_heads,
                    head_dim: plan.head_dim,
                    rotary_dim: plan.rotary_dim,
                },
                plan.rope_theta,
                plan.rope_factor,
            );
            let (t, value) = self.normed_unit(t, value, plan.head_dim, epsilon);
            self.appended_state(t, layer, cache, key, value)
        }
    }

    fn remember(
        &self,
        tape: &mut Recorder<T>,
        key: usize,
        value: usize,
        plan: LayerPlan<T>,
        layer: usize,
        cache: &Gemma4CudaKvCache,
        epsilon: T,
    ) -> (r: Result<()>)
        requires
            self.wf(),
            key < old(tape)@.lens.len(),
            value < old(tape)@.lens.len(),
            plan.key_norm is Some,
            cache.wf(),
        ensures
            heeds(
                final(tape)@,
                r,
                self.remembered(old(tape)@, key, value, plan, layer, *cache, epsilon),
            ),
            extends(old(tape)@, final(tape)@),
    {
        let key_norm: usize = plan.key_norm.unwrap();
        let key: usize = self.rms_norm_at(tape, key, key_norm, epsilon)?;
        let rotation = Rotation {
            heads: cache.kv_heads,
            head_dim: plan.head_dim,
            rotary_dim: plan.rotary_dim,
        };
        let key: usize = self.rope_state(
            tape,
            key,
            rotation,
            plan.rope_theta,
            plan.rope_factor,
        )?;
        let value: usize = self.rms_norm_unit(tape, value, plan.head_dim, epsilon)?;
        self.append_kv_state(tape, layer, cache, key, value)
    }

    /// The attention part of a layer, for one token.
    pub open spec fn attentive(
        self,
        t: Tape<T>,
        hidden: usize,
        layer: usize,
        config: Gemma4TextConfig<T>,
        table: Gemma4CudaCacheTable,
    ) -> (Tape<T>, usize) {
        if t.stopped() {
            (t, 0)
        } else if layer >= self.decode_plan@.len() {
            t.stop(layer_missing())
        } else {
            let plan = self.decode_plan@[layer as int];
            let cache = table.layers@[plan.source as int]->Some_0;
            let heads = config.num_attention_heads;
            let epsilon = config.rms_norm_eps;
            let (t, normalized) = self.normed_at(t, hidden, plan.input_norm, epsilon, true);
            let (t, (query, key, value)) = self.queried(
                t,
                normalized,
                plan,
                heads,
                cache.kv_heads,
            );
            let (t, query) = self.normed_at(t, query, plan.query_norm, epsilon, false);
            let (t, query) = self.rotated_state(
                t,
                query,
                Rotation { heads, head_dim: plan.head_dim, rotary_dim: plan.rotary_dim },
                plan.rope_theta,
                plan.rope_factor,
            );
            let t = if plan.fused_qkv {
                self.remembered(t, key, value, plan, layer, cache, epsilon)
            } else {
                t
            };
            let (t, attended) = self.attended_state(
                t,
                query,
                plan.source,
                cache,
                heads,
                plan.head_dim,
                if plan.sliding {
                    config.sliding_window
                } else {
                    0
                },
            );
            let (t, projected) = self.mapped_at(t, attended, 1, plan.output_projection);
            let (t, projected) = self.normed_at(
                t,
                projected,
                plan.post_attention_norm,
                epsilon,
                false,
            );
            self.joined(t, Join::Add, hidden, projected)
        }
    }

    pub(crate) fn decoder_attention(
        &self,
        tape: &mut Recorder<T>,
        hidden: usize,
        layer: usize,
        config: &Gemma4TextConfig<T>,
        table: &Gemma4CudaCacheTable,
    ) -> (r: Result<usize>)
        requires
            self.wf(),
            self.fits_table(config.num_attention_heads, *table),
            hidden < old(tape)@.lens.len(),
        ensures
            obeys(
                final(tape)@,
                r,
                self.attentive(old(tape)@, hidden, layer, *config, *table),
            ),
            keeps(old(tape)@, final(tape)@, r),
    {
        if layer >= self.decode_plan.len() {
            return Err(Error::execution("Gemma decode layer is missing"));
        }
        let plan = self.decode_plan[layer];
        let heads: usize = config.num_attention_heads;
        let epsilon = config.rms_norm_eps;
        proof {
            assert(plan_fits(self.decode_plan@[layer as int], layer as int, heads, *table));
            assert(table.entry_wf(layer as int));
        }
        let cache = table.layers[plan.source].unwrap();
        proof {
            assert(table.layers@[plan.source as int] == Some(cache));
            let (h, k, d) = (heads as int, cache.kv_heads as int, plan.head_dim as int);
            assert(0 <= h * d && 0 <= k * d) by (nonlinear_arith)
                requires
                    0 <= h,
                    0 <= k,
                    0 <= d,
            ;
        }
        let normalized: usize = self.rms_norm_bf16_at(tape, hidden, plan.input_norm, epsilon)?;
        let (query, key, value) = if plan.fused_qkv {
            self.linear_qkv_bf16_at(
                tape,
                normalized,
                1,
                plan.query_projection,
                (
                    heads * plan.head_dim,
                    cache.kv_heads * plan.head_dim,
                    cache.kv_heads * plan.head_dim,
                ),
            )?
        } else {
            let query: usize = self.linear_bf16_at(tape, normalized, 1, plan.query_projection)?;
            (query, 0, 0)
        };
        let query: usize = self.rms_norm_at(tape, query, plan.query_norm, epsilon)?;
        let rotation = Rotation { heads, head_dim: plan.head_dim, rotary_dim: plan.rotary_dim };
        let query: usize = self.rope_state(
            tape,
            query,
            rotation,
            plan.rope_theta,
            plan.rope_factor,
        )?;
        if plan.fused_qkv {
            self.remember(tape, key, value, plan, layer, &cache, epsilon)?;
        }
        let window: usize = if plan.sliding {
            config.sliding_window
        } else {
            0
        };
        let attended: usize = self.gqa_state(
            tape,
            query,
            plan.source,
            &cache,
            heads,
            plan.head_dim,
            window,
        )?;
        let projected: usize = self.linear_at(tape, attended, 1, plan.output_projection)?;
        let projected: usize = self.rms_norm_at(
            tape,
            projected,
            plan.post_attention_norm,
            epsilon,
        )?;
        self.join(tape, Join::Add, hidden, projected)
    }
}

} // verus!

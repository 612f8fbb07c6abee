//! Running a whole prompt through a Gemma model.

use crate::cuda::launch::{model_grid, model_launch_config};
use crate::cuda::model_kernels::Rotation;
use crate::error::{Error, Failure, Result};
use crate::gemma4_cuda::cache::{is_sliding, Gemma4CudaCacheTable, Gemma4CudaKvCache};
use crate::gemma4_cuda::elements::Join;
use crate::gemma4_cuda::tape::{
    extends, heeds, keeps, obeys, Launch, Recorder, Side, Tape, MOST_ROWS,
};
use crate::gemma4_cuda::weights::{small, Gemma4CudaState};
use crate::models::gemma4::{Gemma4RopeParameters, Gemma4TextConfig};
use crate::scalar::{counted, product, truncated, Scalar};
use crate::text::{decimal, owned, push_decimal};
use vstd::prelude::*;

verus! {

/// What the names of the weights of a layer start with.
pub open spec fn layer_prefix(layer: usize) -> Seq<char> {
    "layers."@ + decimal(layer as nat)
}

/// What the names of the weights of a layer start with.
pub fn prefix_of(layer: usize) -> (r: String)
    ensures
        r@ == layer_prefix(layer),
{
    let mut r = owned("layers.");
    push_decimal(&mut r, layer);
    r
}

/// Two parts of a name.
pub fn name_of(prefix: &String, rest: &str) -> (r: String)
    ensures
        r@ == prefix@ + rest@,
{
    let mut r = owned(prefix.as_str());
    r.append(rest);
    r
}

/// The rotation of a kind of layer.
pub open spec fn rope_among<T>(
    ropes: Seq<(String, Gemma4RopeParameters<T>)>,
    kind: Seq<char>,
) -> Option<int>
    decreases ropes.len(),
{
    if ropes.len() == 0 {
        None
    } else if ropes.last().0@ == kind {
        Some(ropes.len() - 1)
    } else {
        rope_among(ropes.drop_last(), kind)
    }
}

/// The rotation of a kind of layer, as the configuration has it.
pub open spec fn rope_of<T>(config: Gemma4TextConfig<T>, kind: Seq<char>) -> Option<
    Gemma4RopeParameters<T>,
> {
    match config.rope_parameters {
        Some(ropes) => match rope_among(ropes@, kind) {
            Some(i) => Some(ropes@[i].1),
            None => None,
        },
        None => None,
    }
}

/// The failure for a kind of layer without a rotation.
pub open spec fn rope_missing(kind: Seq<char>) -> Failure {
    Failure::Execution("RoPE parameters for "@ + kind + " missing"@)
}

/// What is used of a rotation: its base, its factor, and the part of a head that turns.
pub struct Turning<T> {
    pub theta: T,
    pub factor: T,
    pub partial: T,
}

/// The rotation of a kind of layer.
pub fn find_rope<T: Copy>(config: &Gemma4TextConfig<T>, kind: &String) -> (r: Result<Turning<T>>)
    ensures
        match r {
            Ok(turning) => rope_of(*config, kind@) matches Some(rope) && turning.theta
                == rope.rope_theta && turning.factor == rope.factor && turning.partial
                == rope.partial_rotary_factor,
            Err(error) => rope_of(*config, kind@) is None && error@ == rope_missing(kind@),
        },
{
    if let Some(ropes) = &config.rope_parameters {
        let mut found: Option<usize> = None;
        let mut i: usize = 0;
        while i < ropes.len()
            invariant
                i <= ropes.len(),
                match found {
                    Some(j) => j < i && rope_among(ropes@.take(i as int), kind@) == Some(j as int),
                    None => rope_among(ropes@.take(i as int), kind@) is None,
                },
            decreases ropes.len() - i,
        {
            assert(ropes@.take(i + 1).drop_last() =~= ropes@.take(i as int));
            if ropes[i].0 == *kind {
                found = Some(i);
            }
            i = i + 1;
        }
        assert(ropes@.take(ropes@.len() as int) =~= ropes@);
        if let Some(j) = found {
            let rope = &ropes[j].1;
            return Ok(
                Turning {
                    theta: rope.rope_theta,
                    factor: rope.factor,
                    partial: rope.partial_rotary_factor,
                },
            );
        }
    }
    let mut message = owned("RoPE parameters for ");
    message.append(kind.as_str());
    message.append(" missing");
    Err(Error::Execution(message))
}

/// `r` is the number of dimensions of a head that turn.
pub open spec fn rotary<T: Scalar>(partial: T, head_dim: usize, r: usize) -> bool {
    exists|size: T, part: T|
        {
            &&& counted(head_dim, size)
            &&& #[trigger] product(partial, size, part)
            &&& truncated(part, r)
        }
}

/// The number of dimensions of a head that turn.
pub fn rotary_dims<T: Scalar>(partial: T, head_dim: usize) -> (r: usize)
    ensures
        rotary(partial, head_dim, r),
{
    let size = T::of_count(head_dim);
    let part = partial.times(size);
    let r: usize = part.count();
    assert(counted(head_dim, size) && product(partial, size, part) && truncated(part, r));
    r
}

/// The width of a head of a kind of layer.
pub open spec fn head_width<T>(config: Gemma4TextConfig<T>, sliding: bool) -> usize {
    if sliding {
        config.head_dim
    } else {
        config.global_head_dim
    }
}

/// Rows of queries, keys and values can be counted.
pub open spec fn rows_fit(heads: usize, kv_heads: usize, head_dim: usize) -> bool {
    (heads * head_dim + kv_heads * head_dim + kv_heads * head_dim) * MOST_ROWS <= usize::MAX
}

/// The table and the configuration agree about the layers, and rows can be counted.
pub open spec fn prompt_fits<T>(config: Gemma4TextConfig<T>, table: Gemma4CudaCacheTable) -> bool {
    &&& table.wf()
    &&& table.layers@.len() == config.num_hidden_layers
    &&& config.layer_types matches Some(kinds) ==> kinds@.len() == config.num_hidden_layers
    &&& small(config.hidden_size)
    &&& forall|i: int|
        0 <= i < table.layers@.len() ==> ((#[trigger] table.layers@[i]) matches Some(cache) ==> {
            &&& rows_fit(config.num_attention_heads, cache.kv_heads, config.head_dim)
            &&& rows_fit(config.num_attention_heads, cache.kv_heads, config.global_head_dim)
        })
}

/// A cache that keeps the rows of a prompt.
pub open spec fn filled(cache: Gemma4CudaKvCache, rows: usize) -> Gemma4CudaKvCache {
    Gemma4CudaKvCache { len: rows, total_seen: rows, ..cache }
}

proof fn lemma_widths(heads: usize, kv_heads: usize, head_dim: usize, rows: usize)
    requires
        rows_fit(heads, kv_heads, head_dim),
        rows <= MOST_ROWS,
    ensures
        0 <= heads * head_dim,
        0 <= kv_heads * head_dim,
        heads * head_dim + kv_heads * head_dim + kv_heads * head_dim <= usize::MAX,
        0 <= rows * (kv_heads * head_dim) <= usize::MAX,
{
    let (a, b, d) = (heads as int, kv_heads as int, head_dim as int);
    let (q, k, n) = (a * d, b * d, rows as int);
    assert(0 <= q && 0 <= k) by (nonlinear_arith)
        requires
            q == a * d,
            k == b * d,
            0 <= a,
            0 <= b,
            0 <= d,
    ;
    assert(q + k + k <= (q + k + k) * 4096) by (nonlinear_arith)
        requires
            0 <= q,
            0 <= k,
    ;
    assert(0 <= n * k <= (q + k + k) * 4096) by (nonlinear_arith)
        requires
            0 <= q,
            0 <= k,
            0 <= n <= 4096,
    ;
}

impl<T: Scalar> Gemma4CudaState<T> {
    /// The queries of a prompt, and its keys and values where the layer has its own.
    pub open spec fn prompt_queried(
        self,
        t: Tape<T>,
        normalized: usize,
        rows: usize,
        prefix: Seq<char>,
        own: bool,
        widths: (usize, usize, usize),
    ) -> (Tape<T>, (usize, usize, usize)) {
        if t.stopped() {
            (t, (0, 0, 0))
        } else if own {
            self.projected_qkv(t, normalized, rows, prefix, widths)
        } else {
            let (t, query) = self.projected(
                t,
                normalized,
                rows,
                prefix + ".self_attn.q_proj.weight"@,
            );
            (t, (query, 0, 0))
        }
    }

    /// The keys and values of a prompt normalized, rotated and written to the cache.
    pub open spec fn prompt_remembered(
        self,
        t: Tape<T>,
        key: usize,
        value: usize,
        rows: usize,
        layer: usize,
        cache: Gemma4CudaKvCache,
        rotation: Rotation,
        theta: T,
        factor: T,
        epsilon: T,
    ) -> Tape<T> {
        if t.stopped() {
            t
        } else {
            let (t, key) = self.normed(
                t,
                key,
                layer_prefix(layer) + ".self_attn.k_norm.weight"@,
                epsilon,
                false,
            );
            let (t, key) = self.rotated(t, key, rotation, 0, theta, factor);
            let (t, value) = self.normed_unit(t, value, rotation.head_dim, epsilon);
            if t.stopped() {
                t
            } else if cache.len != 0 || cache.start != 0 || rows > cache.capacity {
                t.stop(
                    Failure::Execution("batched prefill requires an empty contiguous KV cache"@),
                ).0
            } else {
                let len = rows * (cache.kv_heads * rotation.head_dim);
                t.launched(
                    Launch::CacheWrite { layer, side: Side::Key, offset: 0, input: key },
                    model_grid(len as nat),
                ).launched(
                    Launch::CacheWrite { layer, side: Side::Value, offset: 0, input: value },
                    model_grid(len as nat),
                )
            }
        }
    }

    fn prompt_remember(
        &self,
        tape: &mut Recorder<T>,
        key: usize,
        value: usize,
        rows: usize,
        layer: usize,
        cache: &Gemma4CudaKvCache,
        rotation: Rotation,
        theta: T,
        factor: T,
        epsilon: T,
    ) -> (r: Result<()>)
        requires
            self.wf(),
            key < old(tape)@.lens.len(),
            value < old(tape)@.lens.len(),
            cache.wf(),
            0 <= rows * (cache.kv_heads * rotation.head_dim) <= usize::MAX,
            0 <= cache.kv_heads * rotation.head_dim <= usize::MAX,
        ensures
            heeds(
                final(tape)@,
                r,
                self.prompt_remembered(
                    old(tape)@,
                    key,
                    value,
                    rows,
                    layer,
                    *cache,
                    rotation,
                    theta,
                    factor,
                    epsilon,
                ),
            ),
            extends(old(tape)@, final(tape)@),
            r is Ok ==> cache.len == 0 && cache.start == 0 && rows <= cache.capacity,
    {
        let prefix = prefix_of(layer);
        let name = name_of(&prefix, ".self_attn.k_norm.weight");
        let key: usize = self.rms_norm(tape, key, name.as_str(), epsilon)?;
        let key: usize = self.rope(tape, key, rotation, 0, theta, factor)?;
        let value: usize = self.rms_norm_unit(tape, value, rotation.head_dim, epsilon)?;
        if cache.len != 0 || cache.start != 0 || rows > cache.capacity {
            return Err(Error::execution("batched prefill requires an empty contiguous KV cache"));
        }
        let width: usize = cache.kv_heads * rotation.head_dim;
        let len: usize = rows * width;
        tape.launch(
            Launch::CacheWrite { layer, side: Side::Key, offset: 0, input: key },
            model_launch_config(len),
        )?;
        tape.launch(
            Launch::CacheWrite { layer, side: Side::Value, offset: 0, input: value },
            model_launch_config(len),
        )?;
        Ok(())
    }

    /// The attention part of a layer up to the queries and the cache, for a prompt.
    pub open spec fn prompt_prepared(
        self,
        t: Tape<T>,
        hidden: usize,
        rows: usize,
        layer: usize,
        config: Gemma4TextConfig<T>,
        source: usize,
        cache: Gemma4CudaKvCache,
        rotary_dim: usize,
    ) -> (Tape<T>, usize) {
        let prefix = layer_prefix(layer);
        let epsilon = config.rms_norm_eps;
        let heads = config.num_attention_heads;
        if t.stopped() {
            (t, 0)
        } else {
            let (t, normalized) = self.normed(
                t,
                hidden,
                prefix + ".input_layernorm.weight"@,
                epsilon,
                true,
            );
            if t.stopped() {
                (t, 0)
            } else {
                match config.layer_types {
                    None => t.stop(Failure::Execution("Gemma 4 layer_types are missing"@)),
                    Some(kinds) => {
                        let kind = kinds@[layer as int]@;
                        let head_dim = head_width(config, is_sliding(kind));
                        match rope_of(config, kind) {
                            None => t.stop(rope_missing(kind)),
                            Some(rope) => {
                                let (t, (query, key, value)) = self.prompt_queried(
                                    t,
                                    normalized,
                                    rows,
                                    prefix,
                                    source == layer,
                                    (
                                        (heads * head_dim) as usize,
                                        (cache.kv_heads * head_dim) as usize,
                                        (cache.kv_heads * head_dim) as usize,
                                    ),
                                );
                                let (t, query) = self.normed(
                                    t,
                                    query,
                                    prefix + ".self_attn.q_norm.weight"@,
                                    epsilon,
                                    false,
                                );
                                let (t, query) = self.rotated(
                                    t,
                                    query,
                                    Rotation { heads, head_dim, rotary_dim },
                                    0,
                                    rope.rope_theta,
                                    rope.factor,
                                );
                                let t = if source == layer {
                                    self.prompt_remembered(
                                        t,
                                        key,
                                        value,
                                        rows,
                                        layer,
                                        cache,
                                        Rotation {
                                            heads: cache.kv_heads,
                                            head_dim,
                                            rotary_dim,
                                        },
                                        rope.rope_theta,
                                        rope.factor,
                                        epsilon,
                                    )
                                } else {
                                    t
                                };
                                (t, query)
                            },
                        }
                    },
                }
            }
        }
    }

    /// The rest of the attention part of a layer, for a prompt.
    pub open spec fn prompt_concluded(
        self,
        t: Tape<T>,
        hidden: usize,
        query: usize,
        rows: usize,
        layer: usize,
        config: Gemma4TextConfig<T>,
        source: usize,
        cache: Gemma4CudaKvCache,
    ) -> (Tape<T>, usize) {
        let prefix = layer_prefix(layer);
        let sliding = is_sliding(config.layer_types->Some_0@[layer as int]@);
        if t.stopped() {
            (t, 0)
        } else {
            let (t, attended) = self.attended_prompt(
                t,
                query,
                source,
                cache,
                rows,
                config.num_attention_heads,
                head_width(config, sliding),
                if sliding {
                    config.sliding_window
                } else {
                    0
                },
            );
            let (t, projected) = self.mapped(
                t,
                attended,
                rows,
                prefix + ".self_attn.o_proj.weight"@,
            );
            let (t, projected) = self.normed(
                t,
                projected,
                prefix + ".post_attention_layernorm.weight"@,
                config.rms_norm_eps,
                false,
            );
            self.joined(t, Join::Add, hidden, projected)
        }
    }

    /// The attention part of a layer, for a prompt.
    pub open spec fn prompt_attentive(
        self,
        t: Tape<T>,
        hidden: usize,
        rows: usize,
        layer: usize,
        config: Gemma4TextConfig<T>,
        source: usize,
        cache: Gemma4CudaKvCache,
        rotary_dim: usize,
    ) -> (Tape<T>, usize) {
        let (t, query) = self.prompt_prepared(
            t,
            hidden,
            rows,
            layer,
            config,
            source,
            cache,
            rotary_dim,
        );
        self.prompt_concluded(t, hidden, query, rows, layer, config, source, cache)
    }

    pub(crate) fn prompt_prepare(
        &self,
        tape: &mut Recorder<T>,
        hidden: usize,
        rows: usize,
        layer: usize,
        config: &Gemma4TextConfig<T>,
        source: usize,
        cache: &Gemma4CudaKvCache,
        rotary_dim: usize,
    ) -> (r: Result<usize>)
        requires
            self.wf(),
            rows <= MOST_ROWS,
            hidden < old(tape)@.lens.len(),
            cache.wf(),
            rows_fit(config.num_attention_heads, cache.kv_heads, config.head_dim),
            rows_fit(config.num_attention_heads, cache.kv_heads, config.global_head_dim),
            config.layer_types matches Some(kinds) ==> layer < kinds@.len(),
        ensures
            obeys(
                final(tape)@,
                r,
                self.prompt_prepared(
                    old(tape)@,
                    hidden,
                    rows,
                    layer,
                    *config,
                    source,
                    *cache,
                    rotary_dim,
                ),
            ),
            keeps(old(tape)@, final(tape)@, r),
            r is Ok && source == layer ==> cache.len == 0 && cache.start == 0 && rows
                <= cache.capacity,
    {
        let heads: usize = config.num_attention_heads;
        let epsilon = config.rms_norm_eps;
        let prefix = prefix_of(layer);
        let name = name_of(&prefix, ".input_layernorm.weight");
        let normalized: usize = self.rms_norm_bf16(tape, hidden, name.as_str(), epsilon)?;
        let kinds = match &config.layer_types {
            Some(kinds) => kinds,
            None => {
                return Err(Error::execution("Gemma 4 layer_types are missing"));
            },
        };
        let kind = &kinds[layer];
        let sliding: bool = *kind == owned("sliding_attention");
        let head_dim: usize = if sliding {
            config.head_dim
        } else {
            config.global_head_dim
        };
        let turning = find_rope(config, kind)?;
        proof {
            lemma_widths(heads, cache.kv_heads, head_dim, rows);
        }
        let widths = (heads * head_dim, cache.kv_heads * head_dim, cache.kv_heads * head_dim);
        self.prompt_project(
            tape,
            normalized,
            rows,
            layer,
            source,
            cache,
            widths,
            heads,
            head_dim,
            rotary_dim,
            turning,
            epsilon,
        )
    }

    fn prompt_project(
        &self,
        tape: &mut Recorder<T>,
        normalized: usize,
        rows: usize,
        layer: usize,
        source: usize,
        cache: &Gemma4CudaKvCache,
        widths: (usize, usize, usize),
        heads: usize,
        head_dim: usize,
        rotary_dim: usize,
        turning: Turning<T>,
        epsilon: T,
    ) -> (r: Result<usize>)
        requires
            self.wf(),
            rows <= MOST_ROWS,
            normalized < old(tape)@.lens.len(),
            cache.wf(),
            widths.0 + widths.1 + widths.2 <= usize::MAX,
            0 <= rows * (cache.kv_heads * head_dim) <= usize::MAX,
            0 <= cache.kv_heads * head_dim <= usize::MAX,
        ensures
            obeys(
                final(tape)@,
                r,
                self.prompt_projected(
                    old(tape)@,
                    normalized,
                    rows,
                    layer,
                    source,
                    *cache,
                    widths,
                    heads,
                    head_dim,
                    rotary_dim,
                    turning.theta,
                    turning.factor,
                    epsilon,
                ),
            ),
            keeps(old(tape)@, final(tape)@, r),
            r is Ok && source == layer ==> cache.len == 0 && cache.start == 0 && rows
                <= cache.capacity,
    {
        let prefix = prefix_of(layer);
        let (query, key, value) = if source == layer {
            self.linear_qkv_bf16(tape, normalized, rows, prefix.as_str(), widths)?
        } else {
            let name = name_of(&prefix, ".self_attn.q_proj.weight");
            let query: usize = self.linear_bf16(tape, normalized, rows, name.as_str())?;
            (query, 0, 0)
        };
        let name = name_of(&prefix, ".self_attn.q_norm.weight");
        let query: usize = self.rms_norm(tape, query, name.as_str(), epsilon)?;
        let query: usize = self.rope(
            tape,
            query,
            Rotation { heads, head_dim, rotary_dim },
            0,
            turning.theta,
            turning.factor,
        )?;
        if source == layer {
            self.prompt_remember(
                tape,
                key,
                value,
                rows,
                layer,
                cache,
                Rotation { heads: cache.kv_heads, head_dim, rotary_dim },
                turning.theta,
                turning.factor,
                epsilon,
            )?;
        }
        Ok(query)
    }

    /// From the normalized rows to the queries and the cache.
    pub open spec fn prompt_projected(
        self,
        t: Tape<T>,
        normalized: usize,
        rows: usize,
        layer: usize,
        source: usize,
        cache: Gemma4CudaKvCache,
        widths: (usize, usize, usize),
        heads: usize,
        head_dim: usize,
        rotary_dim: usize,
        theta: T,
        factor: T,
        epsilon: T,
    ) -> (Tape<T>, usize) {
        let prefix = layer_prefix(layer);
        let (t, (query, key, value)) = self.prompt_queried(
            t,
            normalized,
            rows,
            prefix,
            source == layer,
            widths,
        );
        let (t, query) = self.normed(
            t,
            query,
            prefix + ".self_attn.q_norm.weight"@,
            epsilon,
            false,
        );
        let (t, query) = self.rotated(
            t,
            query,
            Rotation { heads, head_dim, rotary_dim },
            0,
            theta,
            factor,
        );
        let t = if source == layer {
            self.prompt_remembered(
                t,
                key,
                value,
                rows,
                layer,
                cache,
                Rotation { heads: cache.kv_heads, head_dim, rotary_dim },
                theta,
                factor,
                epsilon,
            )
        } else {
            t
        };
        (t, query)
    }

    pub(crate) fn prompt_conclude(
        &self,
        tape: &mut Recorder<T>,
        hidden: usize,
        query: usize,
        rows: usize,
        layer: usize,
        config: &Gemma4TextConfig<T>,
        source: usize,
        cache: &Gemma4CudaKvCache,
    ) -> (r: Result<usize>)
        requires
            self.wf(),
            rows <= MOST_ROWS,
            hidden < old(tape)@.lens.len(),
            query < old(tape)@.lens.len(),
            cache.wf(),
            config.layer_types matches Some(kinds) && layer < kinds@.len(),
        ensures
            obeys(
                final(tape)@,
                r,
                self.prompt_concluded(
                    old(tape)@,
                    hidden,
                    query,
                    rows,
                    layer,
                    *config,
                    source,
                    *cache,
                ),
            ),
            keeps(old(tape)@, final(tape)@, r),
    {
        let sliding: bool = match &config.layer_types {
            Some(kinds) => kinds[layer] == owned("sliding_attention"),
            None => false,
        };
        let head_dim: usize = if sliding {
            config.head_dim
        } else {
            config.global_head_dim
        };
        let window: usize = if sliding {
            config.sliding_window
        } else {
            0
        };
        let attended: usize = self.gqa_prefill(
            tape,
            query,
            source,
            cache,
            rows,
            config.num_attention_heads,
            head_dim,
            window,
        )?;
        let prefix = prefix_of(layer);
        let name = name_of(&prefix, ".self_attn.o_proj.weight");
        let projected: usize = self.linear(tape, attended, rows, name.as_str())?;
        let name = name_of(&prefix, ".post_attention_layernorm.weight");
        let projected: usize = self.rms_norm(
            tape,
            projected,
            name.as_str(),
            config.rms_norm_eps,
        )?;
        self.join(tape, Join::Add, hidden, projected)
    }
}

/// The rotary dimensions are those of the kind of the layer.
pub open spec fn rotates<T: Scalar>(
    config: Gemma4TextConfig<T>,
    layer: usize,
    rotary_dim: usize,
) -> bool {
    config.layer_types matches Some(kinds) && {
        let kind = kinds@[layer as int]@;
        rope_of(config, kind) matches Some(rope) && rotary(
            rope.partial_rotary_factor,
            head_width(config, is_sliding(kind)),
            rotary_dim,
        )
    }
}

} // verus!

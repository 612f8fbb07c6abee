//! A small Gemma model on a device that is run on the host.

use oxide_torch::cuda::attention_kernels::{
    gqa_decode, gqa_decode_block, gqa_decode_block_state, gqa_decode_state, gqa_prefill_block,
    Heads,
};
use oxide_torch::cuda::kernels;
use oxide_torch::cuda::model_kernels::{
    bf16_row_scaled_state, bf16_to_f32_scaled, cache_write_f32, cache_write_f32_state,
    decode_state_set, decode_state_update, embedding_rows_bf16, f32_to_bf16, gelu_f32,
    gelu_mul_f32, mark_seen, mul_bf16_scalar, of_brain, rms_norm, rms_norm_bf16, rms_norm_unit,
    rms_scale, rope, rope_state, scale_f32, shorten, slice_f32, slice_rows_f32,
};
use oxide_torch::cuda::sampling_kernels::{topk_stage1, topk_stage2};
use oxide_torch::gemma4_cuda::cache::{new_cache_table, new_kv_cache, Gemma4CudaCacheTable};
use oxide_torch::gemma4_cuda::fit::{ple_fits, prompt_suits};
use oxide_torch::gemma4_cuda::pick::{
    apply_logit_softcap, begin_capture, candidates, keep_capture, pick_count, Decoding,
};
use oxide_torch::gemma4_cuda::shelf::{CheckpointTensor, TensorView};
use oxide_torch::gemma4_cuda::tape::{Launch, Order, Recorder, Side};
use oxide_torch::gemma4_cuda::weights::Gemma4CudaState;
use oxide_torch::models::gemma4::{Gemma4ForCausalLM, Gemma4TextConfig};
use oxide_torch::safetensors::{Dtype, SafeTensorLoader};
use oxide_torch::scalar::Scalar;
use oxide_torch::Device;

/// Single precision, as elements.
#[derive(Clone, Copy, Debug, PartialEq)]
struct Real(f32);

impl Scalar for Real {
    fn plus(self, other: Self) -> Self {
        Real(self.0 + other.0)
    }

    fn minus(self, other: Self) -> Self {
        Real(self.0 - other.0)
    }

    fn times(self, other: Self) -> Self {
        Real(self.0 * other.0)
    }

    fn over(self, other: Self) -> Self {
        Real(self.0 / other.0)
    }

    fn larger(self, other: Self) -> Self {
        Real(self.0.max(other.0))
    }

    fn power(self, exponent: i32) -> Self {
        Real(self.0.powi(exponent))
    }

    fn root(self) -> Self {
        Real(self.0.sqrt())
    }

    fn reciprocal(self) -> Self {
        Real(self.0.recip())
    }

    fn exponential(self) -> Self {
        Real(self.0.exp())
    }

    fn logarithm(self) -> Self {
        Real(self.0.ln())
    }

    fn hyperbolic_tangent(self) -> Self {
        Real(self.0.tanh())
    }

    fn sine(self) -> Self {
        Real(self.0.sin())
    }

    fn cosine(self) -> Self {
        Real(self.0.cos())
    }

    fn raised_to(self, exponent: Self) -> Self {
        Real(self.0.powf(exponent.0))
    }

    fn opposite(self) -> Self {
        Real(-self.0)
    }

    fn fraction(self) -> Self {
        Real(self.0.fract())
    }

    fn below(self, other: Self) -> bool {
        self.0 < other.0
    }

    fn same(self, other: Self) -> bool {
        self.0 == other.0
    }

    fn finite(self) -> bool {
        self.0.is_finite()
    }

    fn of_count(count: usize) -> Self {
        Real(count as f32)
    }

    fn of_bits(bits: u32) -> Self {
        Real(f32::from_bits(bits))
    }

    fn bits(self) -> u32 {
        self.0.to_bits()
    }

    fn lowest() -> Self {
        Real(f32::NEG_INFINITY)
    }

    fn count(self) -> usize {
        self.0 as usize
    }

    fn rank(self) -> i32 {
        let bits = self.0.to_bits() as i32;
        bits ^ ((((bits >> 31) as u32) >> 1) as i32)
    }

    fn shown(self) -> String {
        format!("{}", self.0)
    }
}

fn reals(values: &[f32]) -> Vec<Real> {
    values.iter().map(|value| Real(*value)).collect()
}

fn floats(values: &[Real]) -> Vec<f32> {
    values.iter().map(|value| value.0).collect()
}

/// Two layers with caches of their own, and one that shares the cache of the second.
fn config() -> Gemma4TextConfig<Real> {
    Gemma4TextConfig {
        vocab_size: 6,
        hidden_size: 4,
        intermediate_size: 4,
        num_hidden_layers: 3,
        num_attention_heads: 2,
        num_key_value_heads: 1,
        num_global_key_value_heads: None,
        head_dim: 2,
        global_head_dim: 4,
        max_position_embeddings: 16,
        sliding_window: 4,
        rms_norm_eps: Real(1e-6),
        layer_types: Some(vec![
            "sliding_attention".to_string(),
            "full_attention".to_string(),
            "full_attention".to_string(),
        ]),
        vocab_size_per_layer_input: 6,
        hidden_size_per_layer_input: 2,
        attention_k_eq_v: false,
        num_kv_shared_layers: 1,
        enable_moe_block: false,
        use_double_wide_mlp: false,
        final_logit_softcapping: None,
        rope_parameters: None,
        tie_word_embeddings: true,
    }
    .finish()
    .unwrap()
}

/// The tensors of a checkpoint, by name and shape.
fn shapes() -> Vec<(String, Vec<usize>)> {
    let mut all = vec![
        ("embed_tokens.weight".to_string(), vec![6, 4]),
        ("norm.weight".to_string(), vec![4]),
        ("embed_tokens_per_layer.weight".to_string(), vec![6, 6]),
        ("per_layer_model_projection.weight".to_string(), vec![6, 4]),
        ("per_layer_projection_norm.weight".to_string(), vec![2]),
    ];
    for layer in 0..3 {
        let dim = if layer == 0 { 2 } else { 4 };
        let mut put = |name: &str, shape: Vec<usize>| {
            all.push((format!("layers.{layer}.{name}"), shape));
        };
        put("input_layernorm.weight", vec![4]);
        put("self_attn.q_proj.weight", vec![2 * dim, 4]);
        put("self_attn.k_proj.weight", vec![dim, 4]);
        put("self_attn.v_proj.weight", vec![dim, 4]);
        put("self_attn.q_norm.weight", vec![dim]);
        put("self_attn.k_norm.weight", vec![dim]);
        put("self_attn.o_proj.weight", vec![4, 2 * dim]);
        put("post_attention_layernorm.weight", vec![4]);
        put("pre_feedforward_layernorm.weight", vec![4]);
        put("mlp.gate_proj.weight", vec![4, 4]);
        put("mlp.up_proj.weight", vec![4, 4]);
        put("mlp.down_proj.weight", vec![4, 4]);
        put("post_feedforward_layernorm.weight", vec![4]);
        put("per_layer_input_gate.weight", vec![2, 4]);
        put("per_layer_projection.weight", vec![4, 2]);
        put("post_per_layer_input_norm.weight", vec![4]);
        put("layer_scalar", vec![1]);
    }
    all.into_iter()
        .map(|(name, shape)| (format!("model.language_model.{name}"), shape))
        .collect()
}

fn tensors() -> Vec<CheckpointTensor> {
    shapes()
        .into_iter()
        .map(|(name, shape)| CheckpointTensor {
            name,
            view: Ok(TensorView {
                dtype: Dtype::BF16,
                bytes: shape.iter().product::<usize>() * 2,
                shape,
                aligned: true,
            }),
        })
        .collect()
}

/// The elements of a tensor, chosen by its name.
fn contents(name: &str) -> Vec<u16> {
    let (_, shape) = shapes().into_iter().find(|(known, _)| known == name).unwrap();
    let len = shape.iter().product::<usize>();
    let seed: usize = name.bytes().map(usize::from).sum();
    (0..len)
        .map(|i| shorten((((i * 13 + seed) % 17) as f32 / 16.0 - 0.4).to_bits()))
        .collect()
}

struct Machine {
    buffers: Vec<Vec<Real>>,
    weights: Vec<Vec<u16>>,
    keys: Vec<Vec<Real>>,
    values: Vec<Vec<Real>>,
    tokens: Vec<u32>,
    state: [usize; 2],
    seen: Vec<u8>,
    done: usize,
}

impl Machine {
    fn new(state: &Gemma4CudaState<Real>, table: &Gemma4CudaCacheTable) -> Machine {
        let ring = |layer: usize| match &table.layers[layer] {
            Some(cache) => vec![Real(f32::NAN); cache.capacity * cache.kv_heads * cache.head_dim],
            None => Vec::new(),
        };
        Machine {
            buffers: Vec::new(),
            weights: state
                .weights
                .iter()
                .map(|weight| weight.parts.iter().flat_map(|part| contents(part)).collect())
                .collect(),
            keys: (0..table.layers.len()).map(ring).collect(),
            values: (0..table.layers.len()).map(ring).collect(),
            tokens: Vec::new(),
            state: [0, 0],
            seen: Vec::new(),
            done: 0,
        }
    }

    fn catch_up(&mut self, tape: &Recorder<Real>) {
        while self.buffers.len() < tape.lens.len() {
            self.buffers.push(vec![Real(f32::NAN); tape.lens[self.buffers.len()]]);
        }
        while self.done < tape.log.len() {
            self.run(&tape.log[self.done]);
            self.done += 1;
        }
    }

    fn each(&mut self, out: usize, value: impl Fn(usize, &Machine) -> Real) {
        let made: Vec<Real> = (0..self.buffers[out].len()).map(|raw| value(raw, self)).collect();
        self.buffers[out] = made;
    }

    fn normed(
        &mut self,
        out: usize,
        input: usize,
        hidden: usize,
        epsilon: Real,
        value: impl Fn(usize, usize, Real, &Machine) -> Real,
    ) {
        self.each(out, |raw, machine| {
            let (row, column) = (raw / hidden, raw % hidden);
            let scale = rms_scale(row, hidden, epsilon, &machine.buffers[input]);
            value(row, column, scale, machine)
        });
    }

    fn attended(&mut self, out: usize, heads: Heads, value: impl Fn(usize, usize, usize, &Machine) -> Real) {
        let width = heads.head_dim;
        self.each(out, |raw, machine| value(raw, raw / width, raw % width, machine));
    }

    fn run(&mut self, order: &Order<Real>) {
        match order.launch {
            Launch::SetState { token, position } => {
                decode_state_set(0, token, position, &mut self.state);
            }
            Launch::UpdateState { token, position, mark } => {
                decode_state_update(0, token, position, mark, &mut self.state, &mut self.seen);
            }
            Launch::ClearSeen { tokens } => self.seen = vec![0; tokens],
            Launch::MarkSeen { token } => mark_seen(0, token, &mut self.seen),
            Launch::WeightRange { weight, offset, factor, out } => self.each(out, |raw, m| {
                bf16_to_f32_scaled(raw, offset, factor.value(), &m.weights[weight])
            }),
            Launch::WeightRowState { weight, width, factor, out } => self.each(out, |raw, m| {
                bf16_row_scaled_state(raw, width, factor.value(), &m.state, &m.weights[weight])
            }),
            Launch::WeightRows { weight, width, factor, out } => self.each(out, |raw, m| {
                embedding_rows_bf16(raw, width, factor.value(), &m.tokens, &m.weights[weight])
            }),
            Launch::Shorten { input, out } => {
                self.each(out, |raw, m| of_brain(f32_to_bf16(raw, &m.buffers[input])));
            }
            Launch::RmsNorm { input, weight, hidden, epsilon, out } => {
                self.normed(out, input, hidden, epsilon, |row, column, scale, m| {
                    rms_norm(row, column, hidden, scale, &m.buffers[input], &m.weights[weight])
                });
            }
            Launch::RmsNormShort { input, weight, hidden, epsilon, out } => {
                self.normed(out, input, hidden, epsilon, |row, column, scale, m| {
                    of_brain(rms_norm_bf16(
                        row,
                        column,
                        hidden,
                        scale,
                        &m.buffers[input],
                        &m.weights[weight],
                    ))
                });
            }
            Launch::RmsNormUnit { input, hidden, epsilon, out } => {
                self.normed(out, input, hidden, epsilon, |row, column, scale, m| {
                    rms_norm_unit(row, column, hidden, scale, &m.buffers[input])
                });
            }
            Launch::Rope { input, rotation, position, theta, factor, out } => {
                self.each(out, |raw, m| {
                    rope(raw, rotation, position, theta, factor, &m.buffers[input])
                });
            }
            Launch::RopeState { input, rotation, theta, factor, out } => self.each(out, |raw, m| {
                rope_state(raw, rotation, theta, factor, &m.state, &m.buffers[input])
            }),
            Launch::Attend { query, key, value, heads, ring, sequence, window, block, out } => {
                self.attended(out, heads, |raw, head, d, m| {
                    let (q, k, v) = (&m.buffers[query], &m.buffers[key], &m.buffers[value]);
                    if block {
                        gqa_decode_block(head, d, heads, ring, sequence, window, q, k, v).unwrap()
                    } else {
                        gqa_decode(raw, heads, ring, sequence, window, q, k, v)
                    }
                });
            }
            Launch::AttendCache { query, layer, heads, ring, sequence, window, block, out } => {
                self.attended(out, heads, |raw, head, d, m| {
                    let (q, k, v) = (&m.buffers[query], &m.keys[layer], &m.values[layer]);
                    if block {
                        gqa_decode_block(head, d, heads, ring, sequence, window, q, k, v).unwrap()
                    } else {
                        gqa_decode(raw, heads, ring, sequence, window, q, k, v)
                    }
                });
            }
            Launch::AttendState { query, layer, heads, window, capacity, block, out } => {
                self.attended(out, heads, |raw, head, d, m| {
                    let (q, k, v) = (&m.buffers[query], &m.keys[layer], &m.values[layer]);
                    if block {
                        gqa_decode_block_state(head, d, heads, window, capacity, &m.state, q, k, v)
                            .unwrap()
                    } else {
                        gqa_decode_state(raw, heads, window, capacity, &m.state, q, k, v)
                    }
                });
            }
            Launch::AttendPrompt { query, layer, rows, heads, window, out } => {
                self.attended(out, heads, |_, block, d, m| {
                    let (q, k, v) = (&m.buffers[query], &m.keys[layer], &m.values[layer]);
                    gqa_prefill_block(block, d, rows, heads, window, q, k, v).unwrap()
                });
            }
            Launch::CacheWrite { layer, side, offset, input } => {
                for raw in 0..self.buffers[input].len() {
                    if let Some((at, value)) = cache_write_f32(raw, offset, &self.buffers[input]) {
                        self.ring(layer, side)[at] = value;
                    }
                }
            }
            Launch::CacheWriteState { layer, side, width, capacity, input } => {
                for raw in 0..width {
                    let found =
                        cache_write_f32_state(raw, width, capacity, &self.state, &self.buffers[input]);
                    if let Some((at, value)) = found {
                        self.ring(layer, side)[at] = value;
                    }
                }
            }
            Launch::Linear { input, weight, rows, outputs, inputs, out } => {
                assert_eq!(self.buffers[out].len(), rows * outputs);
                self.each(out, |raw, m| {
                    let (row, output) = (raw / outputs, raw % outputs);
                    let terms = (0..inputs).map(|i| {
                        let wide: Real = of_brain(m.weights[weight][output * inputs + i]);
                        m.buffers[input][row * inputs + i].0 * wide.0
                    });
                    Real(terms.sum())
                });
            }
            Launch::Slice { input, offset, out } => {
                self.each(out, |raw, m| slice_f32(raw, offset, &m.buffers[input]));
            }
            Launch::SliceRows { input, input_width, offset, output_width, out } => {
                let rows = self.buffers[out].len() / output_width;
                self.each(out, |raw, m| {
                    slice_rows_f32(raw, rows, input_width, output_width, offset, &m.buffers[input])
                });
            }
            Launch::Gelu { input, out } => {
                self.each(out, |raw, m| gelu_f32(raw, &m.buffers[input]));
            }
            Launch::GeluMul { gate, up, out } => {
                self.each(out, |raw, m| gelu_mul_f32(raw, &m.buffers[gate], &m.buffers[up]));
            }
            Launch::Add { left, right, out } => {
                self.each(out, |raw, m| kernels::add(raw, &m.buffers[left], &m.buffers[right]));
            }
            Launch::Mul { left, right, out } => {
                self.each(out, |raw, m| kernels::mul(raw, &m.buffers[left], &m.buffers[right]));
            }
            Launch::Scale { input, factor, out } => {
                self.each(out, |raw, m| scale_f32(raw, factor.value(), &m.buffers[input]));
            }
            Launch::ScaleByWeight { input, weight, out } => self.each(out, |raw, m| {
                mul_bf16_scalar(raw, &m.buffers[input], &m.weights[weight])
            }),
            Launch::PickBlocks { logits, picks, penalty, scores, ids } => {
                let blocks = self.buffers[scores].len() / picks;
                for block in 0..blocks {
                    let found =
                        topk_stage1(block, picks, penalty, &self.buffers[logits], &self.seen);
                    for (i, pick) in found.iter().enumerate() {
                        self.buffers[scores][block * picks + i] = pick.score;
                        self.buffers[ids][block * picks + i] = Real(pick.id as f32);
                    }
                }
            }
            Launch::PickBest { picks, block_scores, block_ids, scores, ids } => {
                let found =
                    topk_stage2(picks, &self.buffers[block_scores], &self.buffers[block_ids]);
                for (i, pick) in found.iter().enumerate() {
                    self.buffers[scores][i] = pick.score;
                    self.buffers[ids][i] = Real(pick.id as f32);
                }
            }
        }
    }

    fn ring(&mut self, layer: usize, side: Side) -> &mut Vec<Real> {
        match side {
            Side::Key => &mut self.keys[layer],
            Side::Value => &mut self.values[layer],
        }
    }
}

/// The scores behind the last token, when the tokens are decoded one by one.
fn decoded(tokens: &[u32]) -> Vec<Real> {
    let config = config();
    let state = Gemma4CudaState::load(tensors(), &config).unwrap();
    let mut table = new_cache_table(&config, 8).unwrap();
    assert!(state.usable());
    assert!(state.suits(config.num_attention_heads, &table));
    assert!(ple_fits(&config));
    let mut tape = Recorder::new();
    let mut machine = Machine::new(&state, &table);
    let mut logits = 0;
    for token in tokens {
        assert!(table.roomy());
        logits = state.decode_token(&mut tape, *token, &config, &mut table).unwrap();
        machine.catch_up(&tape);
    }
    assert_eq!(table.position, tokens.len());
    machine.buffers[logits].clone()
}

fn close(left: &[Real], right: &[Real]) {
    assert_eq!(left.len(), right.len());
    for (a, b) in left.iter().zip(right) {
        assert!((a.0 - b.0).abs() < 0.05, "{left:?} {right:?}");
    }
}

#[test]
fn prompts_score_like_their_tokens() {
    let tokens = vec![1, 4, 2];
    let config = config();
    let state = Gemma4CudaState::load(tensors(), &config).unwrap();
    let mut table = new_cache_table(&config, 8).unwrap();
    assert!(prompt_suits(&config, &table));
    let mut tape = Recorder::new();
    let mut machine = Machine::new(&state, &table);
    machine.tokens = tokens.clone();
    let logits = state.prefill_prompt(&mut tape, &tokens, &config, &mut table).unwrap();
    machine.catch_up(&tape);
    assert_eq!(table.position, 3);
    close(&machine.buffers[logits], &decoded(&tokens));
}

#[test]
fn rings_forget_what_leaves_the_window() {
    // With a window of four, the scores still depend on all tokens through the layers that
    // attend to everything.
    let long = decoded(&[1, 4, 2, 5, 0, 3]);
    assert!(long.iter().all(|score| score.0.is_finite()));
    let other = decoded(&[5, 4, 2, 5, 0, 3]);
    assert_ne!(long, other);
}

#[test]
fn the_best_tokens_are_picked() {
    let tokens = [1, 4, 2];
    let config = config();
    let state = Gemma4CudaState::load(tensors(), &config).unwrap();
    let mut table = new_cache_table(&config, 8).unwrap();
    let mut tape = Recorder::new();
    let mut machine = Machine::new(&state, &table);
    let mut picked = None;
    for token in tokens {
        match state
            .decode_topk(&mut tape, token, &config, &mut table, 2, Real(1.0), true)
            .unwrap()
        {
            Decoding::Launched(found) => picked = Some(found),
            Decoding::Replayed => panic!("nothing was captured"),
        }
        machine.catch_up(&tape);
    }
    let picked = picked.unwrap();
    let logits = decoded(&tokens);
    let mut order: Vec<usize> = (0..6).collect();
    order.sort_by(|a, b| logits[*b].0.total_cmp(&logits[*a].0));
    let found = candidates(
        &machine.buffers[picked.ids],
        machine.buffers[picked.scores].clone(),
        None,
    );
    assert_eq!(found.len(), 2);
    assert_eq!(found[0].0 as usize, order[0]);
    close(&[found[0].1], &[logits[order[0]]]);
    // What was captured is run again, where it fits.
    assert!(begin_capture(&mut table, false));
    keep_capture(&mut table, 2, Real(1.0));
    let again = state
        .decode_topk(&mut tape, 3, &config, &mut table, 2, Real(1.0), true)
        .unwrap();
    assert!(matches!(again, Decoding::Replayed));
    assert_eq!(
        state
            .decode_topk(&mut tape, 6, &config, &mut table, 2, Real(1.0), true)
            .map(|_| ())
            .unwrap_err()
            .message(),
        "execution failed: token id exceeds CUDA decode vocabulary"
    );
}

#[test]
fn shared_layers_use_the_last_cache_of_their_kind() {
    let table = new_cache_table(&config(), 8).unwrap();
    assert_eq!(table.layer_count(), 3);
    assert_eq!(table.physical_cache_count(), 2);
    assert_eq!(table.shared_layer_count(), 1);
    assert_eq!(table.source_layer(2), Some(1));
    assert_eq!(table.source_layer(3), None);
    let mut cache = new_kv_cache(1, 2, 2).unwrap();
    assert!(cache.is_empty());
    cache.advance();
    cache.advance();
    cache.advance();
    assert_eq!((cache.len(), cache.start), (2, 1));
    assert!(new_kv_cache(0, 2, 2).is_err());
}

#[test]
fn incomplete_weights_are_reported() {
    let mut some = tensors();
    some.retain(|tensor| !tensor.name.ends_with("layers.1.mlp.up_proj.weight"));
    assert_eq!(
        Gemma4CudaState::load(some, &config()).map(|_| ()).unwrap_err().message(),
        "execution failed: missing CUDA weight `layers.1.mlp.up_proj.weight`"
    );
    let mut wide = tensors();
    if let Ok(view) = &mut wide[0].view {
        view.dtype = Dtype::F32;
    }
    assert_eq!(
        Gemma4CudaState::load(wide, &config()).map(|_| ()).unwrap_err().message(),
        "execution failed: Gemma 4 CUDA weight `model.language_model.embed_tokens.weight` is F32, \
         expected BF16"
    );
    let state: Gemma4CudaState<Real> = Gemma4CudaState::load(tensors(), &config()).unwrap();
    assert!(state.weight("norm.weight").is_ok());
    assert_eq!(
        state.weight("absent").unwrap_err().message(),
        "execution failed: CUDA weight `absent` is missing"
    );
    assert_eq!(state.weight_count(), shapes().len() - 4);
    assert!(state.weight_bytes() > 0);
}

#[test]
fn models_are_prepared_for_their_device() {
    let weights = SafeTensorLoader { root: "dir".to_string(), weight_map: Vec::new() };
    let mut model: Gemma4ForCausalLM<Real> = Gemma4ForCausalLM {
        config: config(),
        weights,
        device: Device::Cpu,
        root: "dir".to_string(),
    };
    assert_eq!(
        model.prepare_cuda(tensors()).map(|_| ()).unwrap_err().message(),
        "execution failed: prepare_cuda requires a model on Device::Cuda"
    );
    model.device = Device::Cuda(1);
    let (device, state) = model.prepare_cuda(tensors()).unwrap();
    assert_eq!(device, 1);
    assert_eq!(state.weight_count(), shapes().len() - 4);
    assert_eq!(
        model.prepare_cuda(Vec::new()).map(|_| ()).unwrap_err().message(),
        Gemma4CudaState::load(Vec::new(), &config()).map(|_| ()).unwrap_err().message()
    );
}

#[test]
fn smoke_runs_have_their_widths() {
    let config = config();
    let state: Gemma4CudaState<Real> = Gemma4CudaState::load(tensors(), &config).unwrap();
    let table = new_cache_table(&config, 8).unwrap();
    let mut tape = Recorder::new();
    let mut machine = Machine::new(&state, &table);
    let logits = state.embedding_logits(&mut tape, 1, 4).unwrap();
    assert_eq!(tape.len_of(logits), 6);
    let mlp = state.decoder_mlp_smoke(&mut tape, 1, 0, 4, Real(1e-6)).unwrap();
    assert_eq!(tape.len_of(mlp), 4);
    let heads = Heads { heads: 2, kv_heads: 1, head_dim: 2 };
    let attended = state
        .decoder_attention_smoke(&mut tape, 1, 0, 4, heads, Real(1e-6), 4)
        .unwrap();
    assert_eq!(tape.len_of(attended), 4);
    machine.catch_up(&tape);
    assert!(machine.buffers[attended].iter().all(|value| value.0.is_finite()));
    assert!(machine.buffers[logits].iter().all(|value| value.0.is_finite()));
}

#[test]
fn scores_are_capped() {
    let mut logits = reals(&[0.0, 1000.0]);
    apply_logit_softcap(&mut logits, Some(Real(30.0)));
    assert_eq!(floats(&logits), vec![0.0, 30.0]);
    assert_eq!(pick_count(0, 6), 1);
    assert_eq!(pick_count(100, 6), 6);
    assert_eq!(pick_count(100, 600), 64);
}

#[test]
fn loading_keeps_every_element() {
    let config = config();
    let all = tensors();
    let used: Vec<&CheckpointTensor> = all
        .iter()
        .filter(|tensor| tensor.name.starts_with("model.language_model."))
        .collect();
    let elements: usize = used
        .iter()
        .map(|tensor| tensor.view.as_ref().map(|view| view.shape.iter().product()).unwrap_or(0))
        .sum();
    let count = used.len();
    let layers = config.num_hidden_layers - config.num_kv_shared_layers;
    let state = Gemma4CudaState::load(tensors(), &config).unwrap();
    assert_eq!(state.weight_count(), count - 2 * layers);
    assert_eq!(state.weight_bytes(), 2 * elements);
}

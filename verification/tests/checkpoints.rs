//! Checkpoints, configurations and tokenizers on concrete values.

use oxide_torch::graph::Graph;
use oxide_torch::models::gemma4::{
    default_eps, default_rope_theta, expect_shape, Gemma4ForCausalLM, Gemma4RopeParameters,
    Gemma4TextConfig,
};
use oxide_torch::models::tokenizer::Gemma4Tokenizer;
use oxide_torch::safetensors::{
    decode_f32, distinct_shards, take_tensor, widen_half, Dtype, LoadedTensor, Place,
    SafeTensorLoader, Source,
};
use oxide_torch::scalar::Scalar;
use oxide_torch::{Device, Error};

/// Single precision, as elements.
#[derive(Clone, Copy, Debug, PartialEq)]
struct Real(f32);

impl Scalar for Real {
    fn plus(self, other: Self) -> Self {
        Real(self.0 + other.0)
    }

    fn minus(self, other: Self) -> Self {
        Real(self.0 - other.0)
    }

    fn times(self, other: Self) -> Self {
        Real(self.0 * other.0)
    }

    fn over(self, other: Self) -> Self {
        Real(self.0 / other.0)
    }

    fn larger(self, other: Self) -> Self {
        Real(self.0.max(other.0))
    }

    fn power(self, exponent: i32) -> Self {
        Real(self.0.powi(exponent))
    }

    fn root(self) -> Self {
        Real(self.0.sqrt())
    }

    fn reciprocal(self) -> Self {
        Real(self.0.recip())
    }

    fn exponential(self) -> Self {
        Real(self.0.exp())
    }

    fn logarithm(self) -> Self {
        Real(self.0.ln())
    }

    fn hyperbolic_tangent(self) -> Self {
        Real(self.0.tanh())
    }

    fn sine(self) -> Self {
        Real(self.0.sin())
    }

    fn cosine(self) -> Self {
        Real(self.0.cos())
    }

    fn raised_to(self, exponent: Self) -> Self {
        Real(self.0.powf(exponent.0))
    }

    fn opposite(self) -> Self {
        Real(-self.0)
    }

    fn fraction(self) -> Self {
        Real(self.0.fract())
    }

    fn below(self, other: Self) -> bool {
        self.0 < other.0
    }

    fn same(self, other: Self) -> bool {
        self.0 == other.0
    }

    fn finite(self) -> bool {
        self.0.is_finite()
    }

    fn of_count(count: usize) -> Self {
        Real(count as f32)
    }

    fn of_bits(bits: u32) -> Self {
        Real(f32::from_bits(bits))
    }

    fn bits(self) -> u32 {
        self.0.to_bits()
    }

    fn lowest() -> Self {
        Real(f32::NEG_INFINITY)
    }

    fn count(self) -> usize {
        self.0 as usize
    }

    fn rank(self) -> i32 {
        let bits = self.0.to_bits() as i32;
        bits ^ ((((bits >> 31) as u32) >> 1) as i32)
    }

    fn shown(self) -> String {
        format!("{}", self.0)
    }
}

fn reals(values: &[f32]) -> Vec<Real> {
    values.iter().map(|value| Real(*value)).collect()
}

fn floats(values: &[Real]) -> Vec<f32> {
    values.iter().map(|value| value.0).collect()
}

/// The bytes of a checkpoint file: the length of its header, the header, the data.
fn archive(header: &str, data: &[u8]) -> Vec<u8> {
    let mut file = (header.len() as u64).to_le_bytes().to_vec();
    file.extend_from_slice(header.as_bytes());
    file.extend_from_slice(data);
    file
}

fn single(values: &[f32]) -> Vec<u8> {
    values.iter().flat_map(|value| value.to_le_bytes()).collect()
}

fn small_archive() -> Vec<u8> {
    let mut data = single(&[1.5, -2.0]);
    data.extend_from_slice(&[0xc0, 0x3f]);
    archive(
        concat_header(&[
            ("a", "F32", "[2]", "[0,8]"),
            ("b", "BF16", "[1]", "[8,10]"),
        ])
        .as_str(),
        &data,
    )
}

fn concat_header(entries: &[(&str, &str, &str, &str)]) -> String {
    let parts: Vec<String> = entries
        .iter()
        .map(|(name, dtype, shape, offsets)| {
            format!(
                "\"{name}\":{{\"dtype\":\"{dtype}\",\"shape\":{shape},\"data_offsets\":{offsets}}}"
            )
        })
        .collect();
    format!("{{{}}}", parts.join(","))
}

#[test]
fn converts_common_hugging_face_float_types() {
    let f32_bytes = [1.5_f32.to_le_bytes(), (-2.0_f32).to_le_bytes()].concat();
    assert_eq!(
        decode_f32::<Real>(&Dtype::F32, &f32_bytes).unwrap(),
        reals(&[1.5, -2.0])
    );

    let f16_bytes = [0x3E00_u16.to_le_bytes(), 0xC000_u16.to_le_bytes()].concat();
    assert_eq!(
        decode_f32::<Real>(&Dtype::F16, &f16_bytes).unwrap(),
        reals(&[1.5, -2.0])
    );

    let bf16_bytes = [0x3FC0_u16.to_le_bytes(), 0xC000_u16.to_le_bytes()].concat();
    assert_eq!(
        decode_f32::<Real>(&Dtype::BF16, &bf16_bytes).unwrap(),
        reals(&[1.5, -2.0])
    );
}

#[test]
fn half_precision_widens_exactly() {
    for bits in 0..=u16::MAX {
        let half = half::f16::from_bits(bits);
        let wide = f32::from_bits(widen_half(bits));
        if half.is_nan() {
            assert!(wide.is_nan());
        } else {
            assert_eq!(wide.to_bits(), half.to_f32().to_bits());
        }
    }
}

#[test]
fn brain_floats_widen_exactly() {
    let bits = [0x0000_u16, 0x8000, 0x0001, 0x3F80, 0xC2F7, 0x7F80];
    let bytes: Vec<u8> = bits.iter().flat_map(|bits| bits.to_le_bytes()).collect();
    let wide: Vec<Real> = decode_f32(&Dtype::BF16, &bytes).unwrap();
    for (bits, wide) in bits.iter().zip(&wide) {
        assert_eq!(wide.0.to_bits(), u32::from(*bits) << 16);
    }
}

#[test]
fn other_element_types_are_rejected() {
    assert!(decode_f32::<Real>(&Dtype::F32, &vec![0; 3]).is_err());
    assert!(decode_f32::<Real>(&Dtype::F16, &vec![0; 3]).is_err());
    assert_eq!(
        decode_f32::<Real>(&Dtype::Other("I64".to_string()), &vec![0; 8])
            .unwrap_err()
            .message(),
        "execution failed: unsupported SafeTensors dtype I64; Gemma weights must be F32, F16, or BF16"
    );
}

#[test]
fn tensors_are_taken_with_their_shape() {
    let bytes = single(&[1.0, 2.0]);
    let taken: LoadedTensor<Real> = take_tensor("x", &Dtype::F32, vec![2, 1], &bytes).unwrap();
    assert_eq!(taken.shape, vec![2, 1]);
    assert_eq!(taken.data, reals(&[1.0, 2.0]));
    assert_eq!(
        take_tensor::<Real>("x", &Dtype::F32, vec![3], &bytes).unwrap_err().message(),
        "execution failed: tensor `x` contains 2 values, shape requires 3"
    );
    assert_eq!(
        take_tensor::<Real>("x", &Dtype::F32, vec![usize::MAX, 2], &bytes)
            .unwrap_err()
            .message(),
        "execution failed: tensor `x` shape overflows usize"
    );
    let mut graph: Graph<Real> = Graph::new();
    let tensor = taken.into_tensor(&mut graph, Device::Cpu, true).unwrap();
    assert_eq!(tensor.shape(), &[2, 1]);
}

#[test]
fn files_open_as_checkpoints() {
    let loader = SafeTensorLoader::from_file(
        "dir".to_string(),
        Some("m.safetensors".to_string()),
        Ok(small_archive()),
    )
    .unwrap();
    assert!(loader.contains("a"));
    assert!(!loader.contains("c"));
    assert!(loader.contains_any(&vec!["c", "b"]));
    assert!(!loader.contains_any(&vec!["c", "d"]));
    let mut names = loader.names();
    names.sort();
    assert_eq!(names, vec!["a", "b"]);
    assert_eq!(loader.shard("a").unwrap(), "m.safetensors");
    let a: LoadedTensor<Real> = loader.load("a", Ok(small_archive())).unwrap();
    assert_eq!(a.data, reals(&[1.5, -2.0]));
    let b: LoadedTensor<Real> =
        loader.load_any(&vec!["c", "b"], Ok(small_archive())).unwrap();
    assert_eq!(b.data, reals(&[1.5]));
    let described = loader.metadata("b", Ok(small_archive())).unwrap();
    assert_eq!(described.dtype, Dtype::BF16);
    assert_eq!(described.shape, vec![1]);
    let (dtype, shape, bytes) = loader.view_of("a", Ok(small_archive())).unwrap();
    assert_eq!((dtype, shape), (Dtype::F32, vec![2]));
    assert_eq!(bytes, single(&[1.5, -2.0]));
}

#[test]
fn missing_tensors_are_reported() {
    let loader = SafeTensorLoader::from_file(
        "dir".to_string(),
        Some("m.safetensors".to_string()),
        Ok(small_archive()),
    )
    .unwrap();
    assert_eq!(
        loader.load::<Real>("c", Ok(small_archive())).unwrap_err().message(),
        "execution failed: tensor `c` is missing"
    );
    assert_eq!(
        loader.load::<Real>("a", Err(Error::Execution("gone".to_string()))).unwrap_err().message(),
        "execution failed: gone"
    );
    assert_eq!(
        loader.load_any::<Real>(&vec!["c", "d"], Ok(small_archive())).unwrap_err().message(),
        "execution failed: none of the tensor aliases exist: c, d"
    );
    // The index names a tensor that the shard does not hold.
    let stale = SafeTensorLoader::from_index(
        "dir".to_string(),
        vec![("c".to_string(), "m.safetensors".to_string())],
        &vec![true],
    )
    .unwrap();
    assert!(stale
        .load::<Real>("c", Ok(small_archive()))
        .unwrap_err()
        .message()
        .starts_with("execution failed: invalid SafeTensors data: "));
}

#[test]
fn broken_files_are_rejected() {
    assert!(SafeTensorLoader::from_file("dir".to_string(), Some("m".to_string()), Ok(vec![1, 2]))
        .unwrap_err()
        .message()
        .starts_with("execution failed: invalid SafeTensors data: "));
    assert_eq!(
        SafeTensorLoader::from_file("dir".to_string(), None, Ok(small_archive()))
            .unwrap_err()
            .message(),
        "execution failed: SafeTensors path has no file name"
    );
}

#[test]
fn indices_open_as_checkpoints() {
    let map = vec![
        ("a".to_string(), "1.safetensors".to_string()),
        ("b".to_string(), "2.safetensors".to_string()),
        ("c".to_string(), "1.safetensors".to_string()),
    ];
    assert_eq!(distinct_shards(&map), vec!["1.safetensors", "2.safetensors"]);
    let loader =
        SafeTensorLoader::from_index("dir".to_string(), map.clone(), &vec![true, true]).unwrap();
    assert_eq!(loader.shard("c").unwrap(), "1.safetensors");
    assert_eq!(
        SafeTensorLoader::from_index("dir".to_string(), map, &vec![true, false])
            .unwrap_err()
            .message(),
        "execution failed: missing SafeTensors shard 2.safetensors"
    );
}

#[test]
fn checkpoints_open_by_their_place() {
    let place = |directory, indexed, single, json| Place {
        path: "p".to_string(),
        directory,
        indexed,
        single,
        json,
    };
    let opened = |place: Place| SafeTensorLoader::open(&place);
    assert!(matches!(opened(place(true, true, true, false)), Ok(Source::DirectoryIndex)));
    assert!(matches!(opened(place(true, false, true, false)), Ok(Source::DirectoryFile)));
    assert_eq!(
        opened(place(true, false, false, false)).map(|_| ()).unwrap_err().message(),
        "execution failed: no model.safetensors or model.safetensors.index.json in p"
    );
    assert!(matches!(opened(place(false, false, false, true)), Ok(Source::Index)));
    assert!(matches!(opened(place(false, false, false, false)), Ok(Source::File)));
}

fn small_config() -> Gemma4TextConfig<Real> {
    Gemma4TextConfig {
        vocab_size: 3,
        hidden_size: 2,
        intermediate_size: 4,
        num_hidden_layers: 1,
        num_attention_heads: 2,
        num_key_value_heads: 1,
        num_global_key_value_heads: None,
        head_dim: 2,
        global_head_dim: 2,
        max_position_embeddings: 8,
        sliding_window: 4,
        rms_norm_eps: default_eps(),
        layer_types: None,
        vocab_size_per_layer_input: 3,
        hidden_size_per_layer_input: 0,
        attention_k_eq_v: false,
        num_kv_shared_layers: 0,
        enable_moe_block: false,
        use_double_wide_mlp: false,
        final_logit_softcapping: None,
        rope_parameters: None,
        tie_word_embeddings: true,
    }
}

#[test]
fn configurations_are_completed() {
    let config = Gemma4TextConfig { num_hidden_layers: 7, ..small_config() }.finish().unwrap();
    let types = config.layer_types.unwrap();
    assert_eq!(types.len(), 7);
    for (layer, kind) in types.iter().enumerate() {
        let expected = if layer == 5 || layer == 6 { "full_attention" } else { "sliding_attention" };
        assert_eq!(kind, expected);
    }
    let ropes = config.rope_parameters.unwrap();
    assert_eq!(ropes[0].0, "sliding_attention");
    assert_eq!(ropes[0].1.rope_theta, Real(10_000.0));
    assert_eq!(ropes[1].1.rope_theta, Real(1_000_000.0));
    assert_eq!(ropes[1].1.partial_rotary_factor, Real(0.25));
    assert_eq!(default_rope_theta::<Real>(), Real(10_000.0));
    assert_eq!(default_eps::<Real>(), Real(1e-6));
}

#[test]
fn unusable_configurations_are_rejected() {
    let message = |config: Gemma4TextConfig<Real>| config.finish().unwrap_err().message();
    assert_eq!(
        message(Gemma4TextConfig { num_attention_heads: 3, num_key_value_heads: 2, ..small_config() }),
        "invalid shape: invalid Gemma 4 attention configuration"
    );
    assert_eq!(
        message(Gemma4TextConfig { layer_types: Some(Vec::new()), ..small_config() }),
        "invalid shape: Gemma 4 layer_types length does not match num_hidden_layers"
    );
    let kept = Gemma4TextConfig {
        rope_parameters: Some(vec![(
            "full_attention".to_string(),
            Gemma4RopeParameters {
                rope_theta: Real(5.0),
                rope_type: String::new(),
                partial_rotary_factor: Real(1.0),
                factor: Real(1.0),
            },
        )]),
        ..small_config()
    }
    .finish()
    .unwrap();
    assert_eq!(kept.rope_parameters.unwrap()[0].1.rope_theta, Real(5.0));
}

fn model_archive() -> Vec<u8> {
    let names = [
        "model.embed_tokens.weight",
        "model.norm.weight",
        "model.layers.0.input_layernorm.weight",
        "model.layers.0.post_attention_layernorm.weight",
        "model.layers.0.pre_feedforward_layernorm.weight",
        "model.layers.0.post_feedforward_layernorm.weight",
    ];
    let data = single(&[0.0, 1.0, 2.0, 3.0, 4.0, 5.0]);
    let entries: Vec<(&str, &str, &str, &str)> = names
        .iter()
        .enumerate()
        .map(|(i, name)| {
            if i == 0 {
                (*name, "F32", "[3,2]", "[0,24]")
            } else {
                (*name, "F32", "[0]", "[24,24]")
            }
        })
        .collect();
    archive(concat_header(&entries).as_str(), &data)
}

fn small_model() -> Gemma4ForCausalLM<Real> {
    let loader = SafeTensorLoader::from_file(
        "dir".to_string(),
        Some("model.safetensors".to_string()),
        Ok(model_archive()),
    );
    Gemma4ForCausalLM::from_pretrained("dir".to_string(), Ok(small_config()), loader, Device::Cpu)
        .unwrap()
}

#[test]
fn models_embed_tokens() {
    let model = small_model();
    assert_eq!(model.checkpoint_directory(), "dir");
    assert_eq!(model.device(), Device::Cpu);
    assert_eq!(model.config().hidden_size, 2);
    assert_eq!(model.weight_name("norm.weight").unwrap(), "model.norm.weight");
    let mut graph: Graph<Real> = Graph::new();
    let embedded = model.embed(&mut graph, &vec![2, 0], Ok(model_archive())).unwrap();
    assert_eq!(embedded.shape(), &[1, 2, 2]);
    let scale = 2.0_f32.sqrt();
    assert_eq!(
        floats(&embedded.to_vec(&mut graph).unwrap()),
        vec![4.0 * scale, 5.0 * scale, 0.0, scale]
    );
    assert!(model.embed(&mut graph, &vec![3], Ok(model_archive())).is_err());
    assert_eq!(
        model.weight("norm.bias", Ok(model_archive())).map(|_| ()).unwrap_err().message(),
        "execution failed: none of the tensor aliases exist: model.norm.bias, \
         model.language_model.norm.bias, language_model.norm.bias, norm.bias"
    );
    assert_eq!(
        model.weight_metadata("norm.bias", Ok(model_archive())).map(|_| ()).unwrap_err().message(),
        "execution failed: required Gemma 4 tensor `norm.bias` is missing"
    );
    let table = model.weight("embed_tokens.weight", Ok(model_archive())).unwrap();
    assert!(expect_shape(&table, &vec![3, 2], "table").is_ok());
    assert_eq!(
        expect_shape(&table, &vec![2, 3], "table").unwrap_err().message(),
        "invalid shape: Gemma 4 tensor table has shape [3, 2], expected [2, 3]"
    );
    assert_eq!(model.weight_metadata("norm.weight", Ok(model_archive())).unwrap().shape, vec![0]);
    let seen = model
        .with_weight_view("embed_tokens.weight", Ok(model_archive()), |_, shape, bytes| {
            Ok((shape.len(), bytes.len()))
        })
        .unwrap();
    assert_eq!(seen, (2, 24));
}

#[test]
fn incomplete_checkpoints_are_rejected() {
    let loader = SafeTensorLoader::from_file(
        "dir".to_string(),
        Some("model.safetensors".to_string()),
        Ok(small_archive()),
    );
    let refused: Result<Gemma4ForCausalLM<Real>, Error> = Gemma4ForCausalLM::from_pretrained(
        "dir".to_string(),
        Ok(small_config()),
        loader,
        Device::Cpu,
    );
    assert_eq!(
        refused.map(|_| ()).unwrap_err().message(),
        "execution failed: required Gemma 4 tensor `embed_tokens.weight` is missing"
    );
}

fn tokenizer_file() -> Vec<u8> {
    let text = "{\"version\":\"1.0\",\"truncation\":null,\"padding\":null,\"added_tokens\":[],\
        \"normalizer\":null,\"pre_tokenizer\":{\"type\":\"WhitespaceSplit\"},\
        \"post_processor\":null,\"decoder\":null,\
        \"model\":{\"type\":\"WordLevel\",\"vocab\":{\"one\":0,\"two\":1,\"[UNK]\":2,\
        \"<|turn>user\":3,\"one<turn|>\":4,\"<|turn>model\":5},\"unk_token\":\"[UNK]\"}}";
    text.as_bytes().to_vec()
}

#[test]
fn tokenizers_encode_and_decode() {
    let tokenizer = Gemma4Tokenizer::from_pretrained("t.json", Ok(tokenizer_file())).unwrap();
    assert_eq!(tokenizer.vocabulary_size(), 6);
    assert_eq!(tokenizer.encode("two one three", false).unwrap(), vec![1, 0, 2]);
    assert_eq!(tokenizer.decode(&vec![0, 1], false).unwrap(), "one two");
    // The prompt is trimmed and put into a turn.
    assert_eq!(tokenizer.encode_user_turn(" \n one\t").unwrap(), vec![3, 4, 5]);
}

#[test]
fn broken_tokenizers_are_rejected() {
    let failed = |file| {
        Gemma4Tokenizer::from_pretrained("t.json", file).map(|_| ()).unwrap_err().message()
    };
    assert_eq!(
        failed(Err("gone".to_string())),
        "execution failed: failed to load t.json: gone"
    );
    assert!(failed(Ok(vec![0])).starts_with("execution failed: failed to load t.json: "));
}

#[test]
fn devices_have_to_be_available() {
    let taken = || take_tensor("x", &Dtype::F32, vec![1], &single(&[1.0])).unwrap();
    let mut graph: Graph<Real> = Graph::new();
    let failed: LoadedTensor<Real> = taken();
    assert!(matches!(
        failed.into_tensor(&mut graph, Device::Cuda(0), false),
        Err(Error::CudaUnavailable)
    ));
    assert_eq!(graph.nodes.len(), 0);
    let placed: LoadedTensor<Real> = taken();
    let tensor = placed.into_tensor(&mut graph, Device::Cuda(0), true).unwrap();
    assert_eq!(tensor.device(), Device::Cuda(0));
    assert!(tensor.grad(&graph).is_none());
    let host: LoadedTensor<Real> = taken();
    assert!(host.into_tensor(&mut graph, Device::Cpu, false).is_ok());
    let odd: LoadedTensor<Real> = LoadedTensor { shape: vec![2], data: reals(&[1.0]) };
    assert!(matches!(
        odd.into_tensor(&mut graph, Device::Cuda(0), false),
        Err(Error::InvalidShape(_))
    ));
}

#[test]
fn immoderate_headers_are_rejected() {
    let open = |header: &str, data: &[u8]| {
        SafeTensorLoader::from_file(
            "dir".to_string(),
            Some("m.safetensors".to_string()),
            Ok(archive(header, data)),
        )
    };
    let large = format!("[0,{}]", u64::MAX);
    let header = concat_header(&[("a", "F32", "[2]", large.as_str())]);
    let message = "execution failed: invalid SafeTensors data: number too large";
    assert_eq!(open(&header, &[0; 8]).map(|_| ()).unwrap_err().message(), message);
    let loader = open(&concat_header(&[("a", "F32", "[2]", "[0,8]")]), &[0; 8]).unwrap();
    let file = || Ok(archive(&header, &[0; 8]));
    assert_eq!(loader.load::<Real>("a", file()).unwrap_err().message(), message);
    assert_eq!(loader.metadata("a", file()).unwrap_err().message(), message);
    assert_eq!(loader.view_of("a", file()).unwrap_err().message(), message);
    // Digits inside names do not count, also behind an escaped quote.
    let named = "99999999999999999999999999";
    let quoted = "a\\\"99999999999999999999999999";
    let header = concat_header(&[
        (named, "F32", "[1]", "[0,4]"),
        (quoted, "F32", "[1]", "[4,8]"),
    ]);
    let loader = open(&header, &[0; 8]).unwrap();
    assert!(loader.contains(named));
    assert!(loader.contains("a\"99999999999999999999999999"));
    // A file that is too short, or says that its header is longer than it is, is refused.
    for file in [vec![], vec![255; 8], vec![9, 0, 0, 0, 0, 0, 0, 0, 123]] {
        assert!(SafeTensorLoader::from_file("dir".to_string(), None, Ok(file)).is_err());
    }
}

/// A description of a tokenizer with the given parts.
fn described(normalizer: &str, splitter: &str, template: &str, decoder: &str, model: &str) -> Vec<u8> {
    format!(
        "{{\"version\":\"1.0\",\"truncation\":null,\"padding\":null,\"added_tokens\":[],\
        \"normalizer\":{normalizer},\"pre_tokenizer\":{splitter},\
        \"post_processor\":{template},\"decoder\":{decoder},\"model\":{model}}}"
    )
    .into_bytes()
}

const PAIRS: &str = "{\"type\":\"BPE\",\"dropout\":null,\"unk_token\":null,\
    \"continuing_subword_prefix\":null,\"end_of_word_suffix\":null,\"fuse_unk\":false,\
    \"byte_fallback\":false,\"ignore_merges\":false,\
    \"vocab\":{\"a\":0,\"b\":1,\"ab\":2,\"_\":3,\"<s>\":4},\"merges\":[[\"a\",\"b\"]]}";

#[test]
fn byte_pair_tokenizers_encode_and_decode() {
    let file = described(
        "{\"type\":\"Replace\",\"pattern\":{\"String\":\" \"},\"content\":\"_\"}",
        "{\"type\":\"Split\",\"pattern\":{\"String\":\" \"},\"behavior\":\"MergedWithPrevious\",\
         \"invert\":false}",
        "{\"type\":\"TemplateProcessing\",\
         \"single\":[{\"SpecialToken\":{\"id\":\"<s>\",\"type_id\":0}},\
                     {\"Sequence\":{\"id\":\"A\",\"type_id\":0}}],\
         \"pair\":[{\"Sequence\":{\"id\":\"A\",\"type_id\":0}},\
                   {\"Sequence\":{\"id\":\"B\",\"type_id\":1}}],\
         \"special_tokens\":{\"<s>\":{\"id\":\"<s>\",\"ids\":[4],\"tokens\":[\"<s>\"]}}}",
        "{\"type\":\"Sequence\",\"decoders\":[\
         {\"type\":\"Replace\",\"pattern\":{\"String\":\"_\"},\"content\":\" \"},\
         {\"type\":\"ByteFallback\"},{\"type\":\"Fuse\"}]}",
        PAIRS,
    );
    let tokenizer = Gemma4Tokenizer::from_pretrained("t.json", Ok(file)).unwrap();
    assert_eq!(tokenizer.encode("ab ba", false).unwrap(), vec![2, 3, 1, 0]);
    assert_eq!(tokenizer.encode("ab", true).unwrap(), vec![4, 2]);
    assert_eq!(tokenizer.decode(&vec![2, 3, 1], false).unwrap(), "ab b");
    assert_eq!(tokenizer.decode(&vec![], false).unwrap(), "");
}

#[test]
fn unplain_tokenizers_are_rejected() {
    let refused = |file: Vec<u8>| {
        assert_eq!(
            Gemma4Tokenizer::from_pretrained("t.json", Ok(file)).map(|_| ()).unwrap_err().message(),
            "execution failed: failed to load t.json: unsupported tokenizer"
        );
    };
    let none = "null";
    // A merge that is longer than every token.
    let long = PAIRS.replace("[\"a\",\"b\"]", "[\"ab\",\"ab\"]");
    refused(described(none, none, none, none, &long));
    // A decoder that strips, one that is none, and one that takes the last of no tokens.
    let strip = "{\"type\":\"Strip\",\"content\":\" \",\"start\":1,\"stop\":0}";
    refused(described(none, none, none, strip, PAIRS));
    refused(described(none, none, none, "{\"type\":17}", PAIRS));
    refused(described(none, none, none, "{\"type\":\"BPEDecoder\",\"suffix\":\"x\"}", PAIRS));
    // A template that names a token that is not there.
    let template = "{\"type\":\"TemplateProcessing\",\
        \"single\":[{\"SpecialToken\":{\"id\":\"<s>\",\"type_id\":0}}],\
        \"pair\":[],\"special_tokens\":{}}";
    refused(described(none, none, template, none, PAIRS));
    // One that cuts.
    let cut = "{\"direction\":\"Right\",\"max_length\":1,\"strategy\":\"LongestFirst\",\"stride\":5}";
    let text = String::from_utf8(tokenizer_file()).unwrap();
    refused(text.replace("\"truncation\":null", &format!("\"truncation\":{cut}")).into_bytes());
    refused(b"[]".to_vec());
}

#[test]
fn byte_level_tokenizers_encode_and_decode() {
    let level = "{\"type\":\"ByteLevel\",\"add_prefix_space\":false,\"trim_offsets\":true,\
        \"use_regex\":true}";
    let splitter = format!("{{\"type\":\"Sequence\",\"pretokenizers\":[\
        {{\"type\":\"Digits\",\"individual_digits\":true}},{level}]}}");
    let file = described("{\"type\":\"Lowercase\"}", &splitter, level, level, PAIRS);
    let tokenizer = Gemma4Tokenizer::from_pretrained("t.json", Ok(file)).unwrap();
    assert_eq!(tokenizer.encode("ABa", true).unwrap(), vec![2, 0]);
    assert_eq!(tokenizer.encode("", true).unwrap(), Vec::<u32>::new());
    assert_eq!(tokenizer.decode(&vec![2, 0], true).unwrap(), "aba");
}

#[test]
fn tokenizers_cut_where_something_is_left() {
    let text = String::from_utf8(tokenizer_file()).unwrap();
    let cut = |most: usize, stride: usize| {
        let part = format!(
            "\"truncation\":{{\"direction\":\"Right\",\"max_length\":{most},\
             \"strategy\":\"LongestFirst\",\"stride\":{stride}}}"
        );
        let file = text.replace("\"truncation\":null", &part).into_bytes();
        Gemma4Tokenizer::from_pretrained("t.json", Ok(file))
    };
    let tokenizer = cut(2, 1).unwrap();
    assert_eq!(tokenizer.encode("two one two one", true).unwrap(), vec![1, 0]);
    assert_eq!(tokenizer.encode("two", true).unwrap(), vec![1]);
    assert!(cut(2, 2).is_err());
    assert!(cut(0, 0).is_err());
    // A template adds a token, which has to be left room for.
    let template = "{\"type\":\"TemplateProcessing\",\
        \"single\":[{\"SpecialToken\":{\"id\":\"s\",\"type_id\":0}},\
                    {\"Sequence\":{\"id\":\"A\",\"type_id\":0}}],\"pair\":[],\
        \"special_tokens\":{\"s\":{\"id\":\"s\",\"ids\":[5],\"tokens\":[\"s\"]}}}";
    let both = |most: usize| {
        let part = format!(
            "\"truncation\":{{\"max_length\":{most},\"strategy\":\"OnlyFirst\",\"stride\":0}}"
        );
        let file = text
            .replace("\"truncation\":null", &part)
            .replace("\"post_processor\":null", &format!("\"post_processor\":{template}"));
        Gemma4Tokenizer::from_pretrained("t.json", Ok(file.into_bytes()))
    };
    assert_eq!(both(2).unwrap().encode("two one", true).unwrap(), vec![5, 1]);
    assert!(both(1).is_err());
}

#[test]
fn tokenizers_prepend_something() {
    let prepending = |text: &str| {
        let normalizer = format!("{{\"type\":\"Prepend\",\"prepend\":\"{text}\"}}");
        let file = described(&normalizer, "null", "null", "null", PAIRS);
        Gemma4Tokenizer::from_pretrained("t.json", Ok(file))
    };
    let tokenizer = prepending("_").unwrap();
    assert_eq!(tokenizer.encode("ab", false).unwrap(), vec![3, 2]);
    assert_eq!(tokenizer.encode("", false).unwrap(), Vec::<u32>::new());
    assert_eq!(
        prepending("").map(|_| ()).unwrap_err().message(),
        "execution failed: failed to load t.json: unsupported tokenizer"
    );
}

#[test]
fn merges_join_parts_that_go_on() {
    let merging = |second: &str| {
        let model = format!(
            "{{\"type\":\"BPE\",\"dropout\":null,\"unk_token\":null,\
             \"continuing_subword_prefix\":\"##\",\"end_of_word_suffix\":null,\
             \"fuse_unk\":false,\"byte_fallback\":false,\"ignore_merges\":false,\
             \"vocab\":{{\"a\":0,\"##b\":1,\"ab\":2,\"bcb\":3}},\"merges\":[[\"a\",\"{second}\"]]}}"
        );
        let file = described("null", "null", "null", "null", &model);
        Gemma4Tokenizer::from_pretrained("t.json", Ok(file))
    };
    assert_eq!(merging("##b").unwrap().encode("ab", false).unwrap(), vec![2]);
    assert!(merging("bcb").is_err());
}

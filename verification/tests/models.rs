//! Data, layers, models and optimizers on concrete values.

use oxide_torch::data::mnist::{
    be_u32, deterministic_shuffle, parse_images, parse_labels, Mnist, MnistBatches, IMAGE_MAGIC,
    LABEL_MAGIC,
};
use oxide_torch::graph::Graph;
use oxide_torch::models::attention::grouped_query_attention;
use oxide_torch::models::kv_cache::KvCache;
use oxide_torch::models::mobilenet_v4::MobileNetV4ConvSmall;
use oxide_torch::models::sampling::{sample_token, GenerationConfig};
use oxide_torch::nn::{
    initialized_weights, Conv2d, ConvNormAct, FusedInvertedBottleneck, Module, Parameter,
    Trainable, UniversalInvertedBottleneck,
};
use oxide_torch::optim::{AdamW, Optimizer};
use oxide_torch::random::draw;
use oxide_torch::scalar::Scalar;
use oxide_torch::{Device, Error, Tensor};

/// Single precision, as elements.
#[derive(Clone, Copy, Debug, PartialEq)]
struct Real(f32);

impl Scalar for Real {
    fn plus(self, other: Self) -> Self {
        Real(self.0 + other.0)
    }

    fn minus(self, other: Self) -> Self {
        Real(self.0 - other.0)
    }

    fn times(self, other: Self) -> Self {
        Real(self.0 * other.0)
    }

    fn over(self, other: Self) -> Self {
        Real(self.0 / other.0)
    }

    fn larger(self, other: Self) -> Self {
        Real(self.0.max(other.0))
    }

    fn power(self, exponent: i32) -> Self {
        Real(self.0.powi(exponent))
    }

    fn root(self) -> Self {
        Real(self.0.sqrt())
    }

    fn reciprocal(self) -> Self {
        Real(self.0.recip())
    }

    fn exponential(self) -> Self {
        Real(self.0.exp())
    }

    fn logarithm(self) -> Self {
        Real(self.0.ln())
    }

    fn hyperbolic_tangent(self) -> Self {
        Real(self.0.tanh())
    }

    fn sine(self) -> Self {
        Real(self.0.sin())
    }

    fn cosine(self) -> Self {
        Real(self.0.cos())
    }

    fn raised_to(self, exponent: Self) -> Self {
        Real(self.0.powf(exponent.0))
    }

    fn opposite(self) -> Self {
        Real(-self.0)
    }

    fn fraction(self) -> Self {
        Real(self.0.fract())
    }

    fn below(self, other: Self) -> bool {
        self.0 < other.0
    }

    fn same(self, other: Self) -> bool {
        self.0 == other.0
    }

    fn finite(self) -> bool {
        self.0.is_finite()
    }

    fn of_count(count: usize) -> Self {
        Real(count as f32)
    }

    fn of_bits(bits: u32) -> Self {
        Real(f32::from_bits(bits))
    }

    fn bits(self) -> u32 {
        self.0.to_bits()
    }

    fn lowest() -> Self {
        Real(f32::NEG_INFINITY)
    }

    fn count(self) -> usize {
        self.0 as usize
    }

    fn rank(self) -> i32 {
        let bits = self.0.to_bits() as i32;
        bits ^ ((((bits >> 31) as u32) >> 1) as i32)
    }

    fn shown(self) -> String {
        format!("{}", self.0)
    }
}

fn reals(values: &[f32]) -> Vec<Real> {
    values.iter().map(|value| Real(*value)).collect()
}

fn floats(values: &[Real]) -> Vec<f32> {
    values.iter().map(|value| value.0).collect()
}

fn image_file(count: u32, pixels: &[u8]) -> Vec<u8> {
    let mut file = Vec::new();
    file.extend_from_slice(&IMAGE_MAGIC.to_be_bytes());
    file.extend_from_slice(&count.to_be_bytes());
    file.extend_from_slice(&28_u32.to_be_bytes());
    file.extend_from_slice(&28_u32.to_be_bytes());
    file.extend_from_slice(pixels);
    file
}

fn label_file(labels: &[u8]) -> Vec<u8> {
    let mut file = Vec::new();
    file.extend_from_slice(&LABEL_MAGIC.to_be_bytes());
    file.extend_from_slice(&(labels.len() as u32).to_be_bytes());
    file.extend_from_slice(labels);
    file
}

#[test]
fn parses_and_batches_idx_data() {
    let mut images = Vec::new();
    images.extend_from_slice(&IMAGE_MAGIC.to_be_bytes());
    images.extend_from_slice(&2_u32.to_be_bytes());
    images.extend_from_slice(&28_u32.to_be_bytes());
    images.extend_from_slice(&28_u32.to_be_bytes());
    images.extend(vec![0_u8; 28 * 28]);
    images.extend(vec![255_u8; 28 * 28]);
    let (images, count) = parse_images(&images).unwrap();
    assert_eq!(count, 2);

    let mut labels = Vec::new();
    labels.extend_from_slice(&LABEL_MAGIC.to_be_bytes());
    labels.extend_from_slice(&2_u32.to_be_bytes());
    labels.extend_from_slice(&[3, 7]);
    let labels = parse_labels(&labels).unwrap();
    let mut graph: Graph<Real> = Graph::new();
    let mut batches = MnistBatches::new(&images, &labels, 2, false).unwrap();
    let (batch, targets) = batches.next(&mut graph).unwrap().unwrap();
    assert_eq!(batch.shape(), &[2, 1, 28, 28]);
    assert_eq!(floats(&targets.to_vec(&mut graph).unwrap()), vec![3.0, 7.0]);
}

#[test]
fn pixels_are_normalized() {
    let mut graph: Graph<Real> = Graph::new();
    let mut pixels = vec![0_u8; 28 * 28];
    pixels[1] = 255;
    let labels = vec![4];
    let mut batches = MnistBatches::new(&pixels, &labels, 8, false).unwrap();
    let (batch, _) = batches.next(&mut graph).unwrap().unwrap();
    let values = batch.to_vec(&mut graph).unwrap();
    assert_eq!(values[0], Real((0.0 / 255.0 - 0.1307) / 0.3081));
    assert_eq!(values[1], Real((255.0 / 255.0 - 0.1307) / 0.3081));
    assert!(batches.next(&mut graph).is_none());
}

#[test]
fn idx_files_read_back() {
    let pixels: Vec<u8> = (0..3 * 784).map(|i| (i % 251) as u8).collect();
    assert_eq!(parse_images(&image_file(3, &pixels)).unwrap(), (pixels, 3));
    assert_eq!(parse_labels(&label_file(&[0, 9, 5])).unwrap(), vec![0, 9, 5]);
    assert_eq!(be_u32(&vec![0, 0, 8, 3, 9], 0).unwrap(), IMAGE_MAGIC);
    assert!(be_u32(&vec![0, 0, 8], 0).is_err());
}

#[test]
fn broken_idx_files_are_rejected() {
    assert!(parse_images(&vec![0; 15]).is_err());
    assert!(parse_images(&label_file(&[1])).is_err());
    assert!(parse_images(&image_file(2, &[0; 784])).is_err());
    assert!(parse_labels(&image_file(0, &[])).is_err());
    assert!(parse_labels(&label_file(&[1, 10])).is_err());
    let mut long = label_file(&[1]);
    long.push(0);
    assert!(parse_labels(&long).is_err());
}

#[test]
fn data_sets_load_or_fail() {
    let images = image_file(2, &[0; 2 * 784]);
    let labels = label_file(&[1, 2]);
    let data = Mnist::load(
        Ok(images.clone()),
        Ok(labels.clone()),
        Ok(image_file(1, &[0; 784])),
        Ok(label_file(&[3])),
    )
    .unwrap();
    assert_eq!(data.train_len(), 2);
    assert_eq!(data.test_len(), 1);
    let mut graph: Graph<Real> = Graph::new();
    let mut batches = data.test_batches(4).unwrap();
    let (_, targets) = batches.next(&mut graph).unwrap().unwrap();
    assert_eq!(floats(&targets.to_vec(&mut graph).unwrap()), vec![3.0]);
    assert!(data.train_batches(0, false).is_err());
    assert!(Mnist::load(
        Ok(images.clone()),
        Ok(label_file(&[1])),
        Ok(images.clone()),
        Ok(labels.clone()),
    )
    .is_err());
    assert_eq!(
        Mnist::load(
            Ok(images.clone()),
            Ok(labels.clone()),
            Err(Error::Execution("no file".to_string())),
            Ok(labels),
        )
        .unwrap_err()
        .message(),
        "execution failed: no file"
    );
}

#[test]
fn an_epoch_visits_every_example_once() {
    let images = vec![0_u8; 10 * 784];
    let labels: Vec<u8> = (0..10).collect();
    let mut graph: Graph<Real> = Graph::new();
    let mut batches = MnistBatches::new(&images, &labels, 4, true).unwrap();
    let mut seen = Vec::new();
    let mut sizes = Vec::new();
    while let Some(batch) = batches.next(&mut graph) {
        let (_, targets) = batch.unwrap();
        sizes.push(targets.numel());
        seen.extend(floats(&targets.to_vec(&mut graph).unwrap()));
    }
    assert_eq!(sizes, vec![4, 4, 2]);
    assert_ne!(seen, (0..10).map(|i| i as f32).collect::<Vec<f32>>());
    seen.sort_by(f32::total_cmp);
    assert_eq!(seen, (0..10).map(|i| i as f32).collect::<Vec<f32>>());
}

#[test]
fn shuffles_are_the_same_every_time() {
    let mut first: Vec<usize> = (0..5).collect();
    let mut second: Vec<usize> = (0..5).collect();
    deterministic_shuffle(&mut first);
    deterministic_shuffle(&mut second);
    assert_eq!(first, second);
    let mut state: u64 = 0xD1B5_4A32_D192_ED03;
    let mut expected: Vec<usize> = (0..5).collect();
    for index in (1..5).rev() {
        state ^= state << 13;
        state ^= state >> 7;
        state ^= state << 17;
        expected.swap(index, (state % (index as u64 + 1)) as usize);
    }
    assert_eq!(first, expected);
}

#[test]
fn the_generator_steps() {
    assert_eq!(draw(1), 0x4082_2041);
    assert_eq!(draw(0), 0);
}

#[test]
fn kv_cache_applies_sliding_window() {
    let mut cache: KvCache<Real> = KvCache::default();
    cache
        .append(&reals(&[1.0, 2.0]), &reals(&[3.0, 4.0]), 1, 2, 1, Some(3))
        .unwrap();
    cache
        .append(&reals(&[5.0, 6.0]), &reals(&[7.0, 8.0]), 1, 2, 1, Some(3))
        .unwrap();
    assert_eq!(cache.sequence_len(), 3);
    assert_eq!(floats(cache.key()), &[2.0, 5.0, 6.0]);
    assert_eq!(floats(cache.value()), &[4.0, 7.0, 8.0]);
}

#[test]
fn kv_caches_keep_their_layout() {
    let mut cache: KvCache<Real> = KvCache::default();
    let row = reals(&[1.0, 2.0]);
    cache.append(&row, &row, 1, 1, 2, None).unwrap();
    assert!(cache.append(&row, &row, 2, 1, 1, None).is_err());
    assert!(cache.append(&row, &reals(&[1.0]), 1, 1, 2, None).is_err());
    assert_eq!(cache.sequence_len(), 1);
    cache.append(&row, &row, 1, 1, 2, Some(0)).unwrap();
    assert_eq!(cache.sequence_len(), 0);
    assert!(cache.key().is_empty());
    // Two appends give what one of both gives.
    let mut twice: KvCache<Real> = KvCache::default();
    twice.append(&row, &row, 1, 2, 1, Some(3)).unwrap();
    twice.append(&reals(&[3.0, 4.0]), &row, 1, 2, 1, Some(3)).unwrap();
    let mut once: KvCache<Real> = KvCache::default();
    once.append(&reals(&[1.0, 2.0, 3.0, 4.0]), &reals(&[1.0, 2.0, 1.0, 2.0]), 1, 4, 1, Some(3))
        .unwrap();
    assert_eq!(twice.key(), once.key());
    assert_eq!(twice.value(), once.value());
}

#[test]
fn grouped_query_attention_obeys_causality() {
    let output = grouped_query_attention(
        &reals(&[1.0, 1.0]),
        &reals(&[1.0, 1.0]),
        &reals(&[2.0, 6.0]),
        2,
        2,
        1,
        1,
        1,
        None,
    )
    .unwrap();
    assert!((output[0].0 - 2.0).abs() < 1e-6);
    assert!((output[1].0 - 4.0).abs() < 1e-6);
}

#[test]
fn attention_shares_key_heads_and_windows() {
    // Two heads read the one key head; the window lets a query see itself alone.
    let output = grouped_query_attention(
        &reals(&[1.0, 5.0]),
        &reals(&[1.0, 1.0]),
        &reals(&[2.0, 6.0]),
        1,
        2,
        2,
        1,
        1,
        Some(1),
    )
    .unwrap();
    assert_eq!(floats(&output), vec![6.0, 6.0]);
    assert_eq!(
        grouped_query_attention(&reals(&[1.0]), &reals(&[1.0]), &reals(&[1.0]), 1, 1, 3, 2, 1, None)
            .unwrap_err()
            .message(),
        "invalid shape: invalid grouped-query attention shape"
    );
}

#[test]
fn attention_does_not_see_later_values() {
    let query = reals(&[1.0, 2.0, 3.0]);
    let key = reals(&[1.0, 2.0, 3.0]);
    let first =
        grouped_query_attention(&query, &key, &reals(&[1.0, 2.0, 3.0]), 3, 3, 1, 1, 1, None).unwrap();
    let second =
        grouped_query_attention(&query, &key, &reals(&[1.0, 2.0, 9.0]), 3, 3, 1, 1, 1, None).unwrap();
    assert_eq!(first[..2], second[..2]);
    assert_ne!(first[2], second[2]);
}

#[test]
fn sampling_respects_top_k_one() {
    let config = GenerationConfig {
        top_k: 1,
        ..GenerationConfig::default()
    };
    let mut random = config.seed;
    assert_eq!(
        sample_token(&reals(&[0.0, 5.0, 1.0]), &config, &mut random).unwrap(),
        1
    );
}

#[test]
fn sampling_rejects_unusable_inputs() {
    let config: GenerationConfig<Real> = GenerationConfig::default();
    let mut random = config.seed;
    let message = |logits: &[f32], config: &GenerationConfig<Real>, random: &mut u64| {
        sample_token(&reals(logits), config, random).unwrap_err().message()
    };
    assert_eq!(
        message(&[], &config, &mut random),
        "execution failed: invalid sampling input"
    );
    assert_eq!(
        message(&[f32::NAN, f32::INFINITY], &config, &mut random),
        "execution failed: all logits are non-finite"
    );
    let cold = GenerationConfig { temperature: Real(0.0), ..config.clone() };
    assert_eq!(
        message(&[1.0], &cold, &mut random),
        "execution failed: invalid sampling input"
    );
    let wide = GenerationConfig { top_p: Real(1.5), ..config };
    assert_eq!(
        message(&[1.0], &wide, &mut random),
        "execution failed: invalid sampling input"
    );
}

#[test]
fn sampling_draws_among_the_best() {
    let config = GenerationConfig {
        top_k: 2,
        top_p: Real(1.0),
        ..GenerationConfig::default()
    };
    let mut random = 0;
    let mut seen = [false; 4];
    for _ in 0..64 {
        let token =
            sample_token(&reals(&[1.0, 0.0, 1.0, f32::NAN]), &config, &mut random).unwrap();
        seen[token as usize] = true;
    }
    assert_eq!(seen, [true, false, true, false]);
    assert_ne!(random, 0);
}

#[test]
fn conv_small_matches_supplement_table_11_shapes() {
    let mut graph: Graph<Real> = Graph::new();
    let model = MobileNetV4ConvSmall::new(&mut graph, 1000, Device::Cpu).unwrap();
    let input = Tensor::zeros(&mut graph, vec![1, 3, 224, 224]).unwrap();
    let (output, shapes) = model.forward_with_shapes(&mut graph, &input).unwrap();
    assert_eq!(output.shape(), &[1, 1000]);
    assert_eq!(shapes.len(), 19);
    assert_eq!(shapes[0], [1, 32, 112, 112]);
    assert_eq!(shapes[1], [1, 32, 56, 56]);
    assert_eq!(shapes[2], [1, 64, 28, 28]);
    assert_eq!(shapes[3], [1, 96, 14, 14]);
    assert!(shapes[3..9].iter().all(|shape| shape == &[1, 96, 14, 14]));
    assert!(shapes[9..15].iter().all(|shape| shape == &[1, 128, 7, 7]));
    assert_eq!(shapes[15], [1, 960, 7, 7]);
    assert_eq!(shapes[16], [1, 960, 1, 1]);
    assert_eq!(shapes[17], [1, 1280, 1, 1]);
    assert_eq!(shapes[18], [1, 1000]);
}

#[test]
fn classifiers_reject_other_images() {
    let mut graph: Graph<Real> = Graph::new();
    assert!(MobileNetV4ConvSmall::new(&mut graph, 0, Device::Cpu).is_err());
    let model = MobileNetV4ConvSmall::new(&mut graph, 10, Device::Cpu).unwrap();
    assert_eq!(model.device(), Device::Cpu);
    let gray = Tensor::zeros(&mut graph, vec![1, 1, 224, 224]).unwrap();
    assert!(matches!(model.forward(&mut graph, &gray), Err(Error::InvalidShape(_))));
    let far = Tensor::zeros(&mut graph, vec![1, 3, 224, 224])
        .unwrap()
        .to(&mut graph, Device::Cuda(0));
    assert_eq!(model.forward(&mut graph, &far).unwrap_err(), Error::DeviceMismatch);
}

#[test]
fn layers_have_their_shapes() {
    let mut graph: Graph<Real> = Graph::new();
    let input = Tensor::ones(&mut graph, vec![1, 4, 8, 8]).unwrap();
    let conv = Conv2d::new(&mut graph, 4, 6, 3, 2, 2, Device::Cpu).unwrap();
    assert_eq!(conv.forward(&mut graph, &input).unwrap().shape(), &[1, 6, 4, 4]);
    assert_eq!(conv.weight().shape(), &[6, 2, 3, 3]);
    assert_eq!(conv.bias().shape(), &[6]);
    let block = ConvNormAct::new(&mut graph, 4, 8, 3, 1, 1, true, Device::Cpu).unwrap();
    assert_eq!(block.forward(&mut graph, &input).unwrap().shape(), &[1, 8, 8, 8]);
    let bottleneck = UniversalInvertedBottleneck::new(
        &mut graph,
        4,
        4,
        8,
        Some(3),
        Some(5),
        1,
        Device::Cpu,
    )
    .unwrap();
    assert_eq!(bottleneck.forward(&mut graph, &input).unwrap().shape(), &[1, 4, 8, 8]);
    let fused =
        FusedInvertedBottleneck::new(&mut graph, 4, 6, 8, 3, 2, Device::Cpu).unwrap();
    assert_eq!(fused.forward(&mut graph, &input).unwrap().shape(), &[1, 6, 4, 4]);
    assert!(Conv2d::new::<Real>(&mut graph, 4, 6, 3, 1, 3, Device::Cpu).is_err());
    assert!(Conv2d::new::<Real>(&mut graph, 4, 6, 0, 1, 1, Device::Cpu).is_err());
}

#[test]
fn weights_are_drawn_within_their_bound() {
    let weights: Vec<Real> = initialized_weights(&vec![4, 2, 3, 3], 2);
    assert_eq!(weights.len(), 72);
    let bound = (6.0_f32 / 18.0).sqrt();
    assert!(weights.iter().all(|weight| weight.0.abs() <= bound));
    assert_ne!(weights[0], weights[1]);
}

#[test]
fn parameters_are_replaced() {
    let mut graph: Graph<Real> = Graph::new();
    let value = Tensor::zeros(&mut graph, vec![2]).unwrap();
    let mut parameter = Parameter::new(&mut graph, value);
    let other_value = Tensor::zeros(&mut graph, vec![2]).unwrap();
    let other = Parameter::new(&mut graph, other_value);
    assert_ne!(parameter.id(), other.id());
    parameter.replace_data(&mut graph, reals(&[1.0, 2.0])).unwrap();
    let value = parameter.value().clone();
    assert_eq!(floats(&value.to_vec(&mut graph).unwrap()), vec![1.0, 2.0]);
    assert!(parameter.replace_data(&mut graph, reals(&[1.0])).is_err());
    let conv = Conv2d::new::<Real>(&mut graph, 1, 1, 1, 1, 1, Device::Cpu).unwrap();
    assert_eq!(conv.visit_parameters().len(), 2);
}

#[test]
fn adamw_moves_against_the_gradient() {
    let mut graph: Graph<Real> = Graph::new();
    let weight = Tensor::from_vec(&mut graph, reals(&[1.0]), vec![1, 1, 1, 1]).unwrap();
    let bias = Tensor::zeros(&mut graph, vec![1]).unwrap();
    let mut model = Conv2d::from_tensors(&mut graph, weight, bias, 1, 0, 1).unwrap();
    let mut optimizer = AdamW::new(Real(0.1), Real(0.0)).unwrap();
    let input = Tensor::from_vec(&mut graph, reals(&[2.0]), vec![1, 1, 1, 1]).unwrap();
    let output = model.forward(&mut graph, &input).unwrap();
    output.backward(&mut graph).unwrap();
    optimizer.step(&mut graph, &mut model).unwrap();
    let moved = model.weight().clone();
    // The first step has the length of the learning rate.
    assert!((moved.to_vec(&mut graph).unwrap()[0].0 - 0.9).abs() < 1e-5);
    optimizer.zero_grad(&mut graph, &model);
    assert!(model.weight().grad(&graph).is_none());
}

#[test]
fn adamw_rejects_unusable_rates() {
    assert_eq!(
        AdamW::new(Real(0.0), Real(0.0)).map(|_| ()).unwrap_err().message(),
        "execution failed: AdamW learning rate must be positive and finite"
    );
    assert_eq!(
        AdamW::new(Real(0.1), Real(f32::NAN)).map(|_| ()).unwrap_err().message(),
        "execution failed: AdamW weight decay must be non-negative and finite"
    );
}

#[test]
fn steps_spend_gradients() {
    let mut graph: Graph<Real> = Graph::new();
    let weight = Tensor::from_vec(&mut graph, reals(&[1.0]), vec![1, 1, 1, 1]).unwrap();
    let bias = Tensor::zeros(&mut graph, vec![1]).unwrap();
    let mut model = Conv2d::from_tensors(&mut graph, weight, bias, 1, 0, 1).unwrap();
    let mut optimizer = AdamW::new(Real(0.1), Real(0.0)).unwrap();
    let input = Tensor::from_vec(&mut graph, reals(&[2.0]), vec![1, 1, 1, 1]).unwrap();
    let output = model.forward(&mut graph, &input).unwrap();
    output.backward(&mut graph).unwrap();
    optimizer.step(&mut graph, &mut model).unwrap();
    assert!(model.weight().grad(&graph).is_none());
    assert!(model.bias().grad(&graph).is_none());
    let moved = model.weight().clone();
    let nodes = graph.nodes.len();
    optimizer.step(&mut graph, &mut model).unwrap();
    assert_eq!(model.weight().id, moved.id);
    assert_eq!(graph.nodes.len(), nodes);
}

#[test]
fn convolutions_start_alike() {
    let mut graph: Graph<Real> = Graph::new();
    let first = Conv2d::new(&mut graph, 2, 3, 3, 1, 1, Device::Cpu).unwrap();
    let second = Conv2d::new(&mut graph, 2, 3, 3, 1, 1, Device::Cpu).unwrap();
    let weights = first.weight().to_vec(&mut graph).unwrap();
    assert_eq!(weights, second.weight().to_vec(&mut graph).unwrap());
    let bound = (2.0_f32 / 18.0).sqrt();
    assert!(weights.iter().all(|weight| weight.0.abs() <= bound));
    assert!(weights.iter().any(|weight| weight.0 != 0.0));
}

#[test]
fn bottlenecks_divide_extents() {
    let mut graph: Graph<Real> = Graph::new();
    let layer = UniversalInvertedBottleneck::new(
        &mut graph, 2, 4, 6, Some(7), Some(3), 3, Device::Cpu,
    )
    .unwrap();
    let input = Tensor::zeros(&mut graph, vec![1, 2, 10, 7]).unwrap();
    let output = layer.forward(&mut graph, &input).unwrap();
    assert_eq!(output.shape(), &[1, 4, 4, 3]);
}

#[test]
fn queries_attend_alone() {
    // Two queries on two heads of two elements, against two keys.
    let query = reals(&[1., 0., 0., 1., 0.5, 0.5, -1., 2.]);
    let key = reals(&[1., 2., 0.5, -1., 0., 1., 1., 1.]);
    let value = reals(&[1., 2., 3., 4., 5., 6., 7., 8.]);
    let all = grouped_query_attention(&query, &key, &value, 2, 2, 2, 2, 2, None).unwrap();
    let last =
        grouped_query_attention(&query[4..].to_vec(), &key, &value, 1, 2, 2, 2, 2, None).unwrap();
    assert_eq!(all[4..], last[..]);
    let first = grouped_query_attention(
        &query[..4].to_vec(), &key[..4].to_vec(), &value[..4].to_vec(), 1, 1, 2, 2, 2, None,
    )
    .unwrap();
    assert_eq!(all[..4], first[..]);
    // A window that holds every key leaves nothing out.
    let wide = grouped_query_attention(&query, &key, &value, 2, 2, 2, 2, 2, Some(2)).unwrap();
    assert_eq!(all, wide);
}

#[test]
fn steps_follow_one_another() {
    let mut graph: Graph<Real> = Graph::new();
    let weight = Tensor::from_vec(&mut graph, reals(&[1.0]), vec![1, 1, 1, 1]).unwrap();
    let bias = Tensor::zeros(&mut graph, vec![1]).unwrap();
    let mut model = Conv2d::from_tensors(&mut graph, weight, bias, 1, 0, 1).unwrap();
    let mut optimizer = AdamW::new(Real(0.1), Real(0.0)).unwrap();
    let input = Tensor::from_vec(&mut graph, reals(&[2.0]), vec![1, 1, 1, 1]).unwrap();
    for expected in [0.9, 0.8] {
        let output = model.forward(&mut graph, &input).unwrap();
        output.backward(&mut graph).unwrap();
        optimizer.step(&mut graph, &mut model).unwrap();
        assert!(graph.holds(model.weight()));
        assert!(graph.evaluable(model.weight().id));
        let moved = model.weight().clone();
        assert!((moved.to_vec(&mut graph).unwrap()[0].0 - expected).abs() < 1e-4);
    }
}

#[test]
fn parameters_are_numbered_in_order() {
    let mut graph: Graph<Real> = Graph::new();
    let first = graph.next_parameter;
    let layer =
        UniversalInvertedBottleneck::new(&mut graph, 2, 3, 4, Some(3), Some(5), 1, Device::Cpu)
            .unwrap();
    let parameters = layer.visit_parameters();
    assert_eq!(parameters.len(), 8);
    for (k, parameter) in parameters.iter().enumerate() {
        assert_eq!(parameter.id, first + k as u64);
        assert!(k == 0 || parameter.value().id > parameters[k - 1].value().id);
    }
    assert_eq!(graph.next_parameter, first + 8);
}

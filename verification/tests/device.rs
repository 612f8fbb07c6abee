//! What a device is told to do, run thread by thread on the host.

use oxide_torch::cuda::attention_kernels::{
    gqa_decode, gqa_decode_block, gqa_decode_state, gqa_prefill_block, kept_positions, Heads, Ring,
};
use oxide_torch::cuda::command::{Command, Step};
use oxide_torch::cuda::conv_kernels::{
    conv2d, conv2d_bias_backward, conv2d_input_backward, conv2d_weight_backward,
};
use oxide_torch::cuda::executor::Executor;
use oxide_torch::cuda::kernels;
use oxide_torch::cuda::launch::{
    launch_config, model_launch_config, row_launch_config, tiled_launch_config, Grid,
};
use oxide_torch::cuda::loss_kernels::{cross_entropy_backward, cross_entropy_forward};
use oxide_torch::cuda::model_kernels::{
    bf16_to_f32_scaled, cache_write_f32_state, copy_bf16, decode_state_set, decode_state_update,
    embedding_rows_bf16, f32_to_bf16, gelu_f32, gelu_mul_f32, mark_seen, mul_bf16_scalar,
    of_brain, rms_norm, rms_norm_bf16, rms_norm_unit, rms_scale, rope, rope_state, scale_f32,
    shorten, slice_f32, slice_rows_f32, Rotation,
};
use oxide_torch::cuda::norm_kernels::{
    batch_norm_affine_backward, batch_norm_apply, batch_norm_input_backward,
    batch_norm_running_inverse_std, batch_norm_statistics, batch_norm_update_running,
};
use oxide_torch::cuda::plan::{
    check, launch_operations, BufferPlan, GraphPlan, PlanOperation,
};
use oxide_torch::cuda::pool_kernels::{avg_pool2d, avg_pool2d_backward};
use oxide_torch::cuda::sampling_kernels::{topk_stage1, topk_stage2};
use oxide_torch::cuda::session::{adamw_step, collect_topological, sync_batch_norm_state};
use oxide_torch::graph::{Graph, Op};
use oxide_torch::nn::Parameter;
use oxide_torch::optim::Rates;
use oxide_torch::scalar::Scalar;
use oxide_torch::{Device, Tensor};
use std::collections::HashSet;

/// Single precision, as elements.
#[derive(Clone, Copy, Debug, PartialEq)]
struct Real(f32);

impl Scalar for Real {
    fn plus(self, other: Self) -> Self {
        Real(self.0 + other.0)
    }

    fn minus(self, other: Self) -> Self {
        Real(self.0 - other.0)
    }

    fn times(self, other: Self) -> Self {
        Real(self.0 * other.0)
    }

    fn over(self, other: Self) -> Self {
        Real(self.0 / other.0)
    }

    fn larger(self, other: Self) -> Self {
        Real(self.0.max(other.0))
    }

    fn power(self, exponent: i32) -> Self {
        Real(self.0.powi(exponent))
    }

    fn root(self) -> Self {
        Real(self.0.sqrt())
    }

    fn reciprocal(self) -> Self {
        Real(self.0.recip())
    }

    fn exponential(self) -> Self {
        Real(self.0.exp())
    }

    fn logarithm(self) -> Self {
        Real(self.0.ln())
    }

    fn hyperbolic_tangent(self) -> Self {
        Real(self.0.tanh())
    }

    fn sine(self) -> Self {
        Real(self.0.sin())
    }

    fn cosine(self) -> Self {
        Real(self.0.cos())
    }

    fn raised_to(self, exponent: Self) -> Self {
        Real(self.0.powf(exponent.0))
    }

    fn opposite(self) -> Self {
        Real(-self.0)
    }

    fn fraction(self) -> Self {
        Real(self.0.fract())
    }

    fn below(self, other: Self) -> bool {
        self.0 < other.0
    }

    fn same(self, other: Self) -> bool {
        self.0 == other.0
    }

    fn finite(self) -> bool {
        self.0.is_finite()
    }

    fn of_count(count: usize) -> Self {
        Real(count as f32)
    }

    fn of_bits(bits: u32) -> Self {
        Real(f32::from_bits(bits))
    }

    fn bits(self) -> u32 {
        self.0.to_bits()
    }

    fn lowest() -> Self {
        Real(f32::NEG_INFINITY)
    }

    fn count(self) -> usize {
        self.0 as usize
    }

    fn rank(self) -> i32 {
        let bits = self.0.to_bits() as i32;
        bits ^ ((((bits >> 31) as u32) >> 1) as i32)
    }

    fn shown(self) -> String {
        format!("{}", self.0)
    }
}

fn reals(values: &[f32]) -> Vec<Real> {
    values.iter().map(|value| Real(*value)).collect()
}

fn floats(values: &[Real]) -> Vec<f32> {
    values.iter().map(|value| value.0).collect()
}

/// The buffers of a device.
struct Machine {
    buffers: Vec<Vec<Real>>,
    done: usize,
}

impl Machine {
    fn new() -> Machine {
        Machine { buffers: Vec::new(), done: 0 }
    }

    /// Runs what the executor planned since the last time.
    fn catch_up(&mut self, executor: &Executor<Real>, graph: &Graph<Real>) {
        while self.buffers.len() < executor.lens.len() {
            let len = executor.lens[self.buffers.len()];
            self.buffers.push(vec![Real(f32::NAN); len]);
        }
        while self.done < executor.log.len() {
            self.run(&executor.log[self.done], graph);
            self.done += 1;
        }
    }

    fn each(&mut self, out: usize, value: impl Fn(usize, &Vec<Vec<Real>>) -> Real) {
        let made: Vec<Real> =
            (0..self.buffers[out].len()).map(|raw| value(raw, &self.buffers)).collect();
        self.buffers[out] = made;
    }

    fn tiles(
        &mut self,
        out: usize,
        grid: &Option<Grid>,
        value: impl Fn(usize, usize, &Vec<Vec<Real>>) -> Option<(usize, Real)>,
    ) {
        if let Some(Grid::Blocks { blocks, threads }) = grid {
            let mut made = self.buffers[out].clone();
            for block in 0..*blocks {
                for thread in 0..*threads {
                    if let Some((at, found)) = value(block as usize, thread as usize, &self.buffers)
                    {
                        made[at] = found;
                    }
                }
            }
            self.buffers[out] = made;
        } else {
            panic!("not a tiled launch");
        }
    }

    fn run(&mut self, step: &Step<Real>, graph: &Graph<Real>) {
        match &step.command {
            Command::Upload { node, out } => match &graph.nodes[*node].op {
                Op::Data(data) => self.buffers[*out] = data.clone(),
                _ => panic!("nothing to upload"),
            },
            Command::UploadMean { state, out } => {
                self.buffers[*out] = graph.norms.states[*state].running_mean.clone();
            }
            Command::UploadVariance { state, out } => {
                self.buffers[*out] = graph.norms.states[*state].running_variance.clone();
            }
            Command::Synchronize => {}
            Command::Clear { out } => self.each(*out, |_, _| Real(0.0)),
            Command::One { out } => self.each(*out, |_, _| Real(1.0)),
            Command::Add { left, right, out } => {
                self.each(*out, |raw, held| kernels::add(raw, &held[*left], &held[*right]));
            }
            Command::Accumulate { left, right, out } => {
                self.each(*out, |raw, held| {
                    kernels::accumulate(raw, &held[*left], &held[*right])
                });
            }
            Command::Mul { left, right, out } => {
                self.each(*out, |raw, held| kernels::mul(raw, &held[*left], &held[*right]));
            }
            Command::MulBackward { gradient, other, out } => {
                self.each(*out, |raw, held| {
                    kernels::mul_backward(raw, &held[*gradient], &held[*other])
                });
            }
            Command::Relu { input, out } => {
                self.each(*out, |raw, held| kernels::relu(raw, &held[*input]));
            }
            Command::ReluBackward { gradient, input, out } => {
                self.each(*out, |raw, held| {
                    kernels::relu_backward(raw, &held[*gradient], &held[*input])
                });
            }
            Command::MatMul { left, right, out, rows, inner, columns } => {
                self.each(*out, |raw, held| {
                    kernels::matmul(raw, *rows, *columns, *inner, &held[*left], &held[*right])
                });
            }
            Command::MatMulLeftBackward { gradient, right, out, rows, inner, columns } => {
                self.each(*out, |raw, held| {
                    kernels::matmul_left_backward(
                        raw,
                        *rows,
                        *inner,
                        *columns,
                        &held[*gradient],
                        &held[*right],
                    )
                });
            }
            Command::MatMulRightBackward { gradient, left, out, rows, inner, columns } => {
                self.each(*out, |raw, held| {
                    kernels::matmul_right_backward(
                        raw,
                        *rows,
                        *inner,
                        *columns,
                        &held[*gradient],
                        &held[*left],
                    )
                });
            }
            Command::Conv2d { input, weight, bias, out, geometry } => {
                self.tiles(*out, &step.grid, |block, thread, held| {
                    conv2d(block, thread, *geometry, &held[*input], &held[*weight], &held[*bias])
                });
            }
            Command::Conv2dInputBackward { gradient, weight, out, geometry } => {
                self.tiles(*out, &step.grid, |block, thread, held| {
                    conv2d_input_backward(block, thread, *geometry, &held[*gradient], &held[*weight])
                });
            }
            Command::Conv2dWeightBackward { gradient, input, out, geometry } => {
                self.tiles(*out, &step.grid, |block, thread, held| {
                    conv2d_weight_backward(block, thread, *geometry, &held[*gradient], &held[*input])
                });
            }
            Command::Conv2dBiasBackward { gradient, out, geometry } => {
                self.each(*out, |raw, held| {
                    conv2d_bias_backward(raw, *geometry, &held[*gradient])
                });
            }
            Command::AvgPool2d { input, out, geometry } => {
                self.each(*out, |raw, held| avg_pool2d(raw, *geometry, &held[*input]));
            }
            Command::AvgPool2dBackward { gradient, out, geometry } => {
                self.each(*out, |raw, held| avg_pool2d_backward(raw, *geometry, &held[*gradient]));
            }
            Command::CrossEntropy { logits, targets, out, batch, classes } => {
                self.each(*out, |_, held| {
                    cross_entropy_forward(*batch, *classes, &held[*logits], &held[*targets])
                });
            }
            Command::CrossEntropyBackward { logits, targets, gradient, out, batch, classes } => {
                self.each(*out, |raw, held| {
                    cross_entropy_backward(
                        raw,
                        *batch,
                        *classes,
                        &held[*logits],
                        &held[*targets],
                        &held[*gradient],
                    )
                });
            }
            Command::BatchNormStatistics { input, mean, inverse, variance, planes, epsilon } => {
                for channel in 0..planes.channels {
                    let found =
                        batch_norm_statistics(channel, *planes, *epsilon, &self.buffers[*input]);
                    self.buffers[*mean][channel] = found.0;
                    self.buffers[*inverse][channel] = found.1;
                    self.buffers[*variance][channel] = found.2;
                }
            }
            Command::BatchNormUpdate {
                batch_mean,
                batch_variance,
                old_mean,
                old_variance,
                mean,
                variance,
                momentum,
            } => {
                for raw in 0..self.buffers[*mean].len() {
                    let found = batch_norm_update_running(
                        raw,
                        *momentum,
                        &self.buffers[*batch_mean],
                        &self.buffers[*batch_variance],
                        &self.buffers[*old_mean],
                        &self.buffers[*old_variance],
                    );
                    self.buffers[*mean][raw] = found.0;
                    self.buffers[*variance][raw] = found.1;
                }
            }
            Command::BatchNormInverse { variance, out, epsilon } => {
                self.each(*out, |raw, held| {
                    batch_norm_running_inverse_std(raw, *epsilon, &held[*variance])
                });
            }
            Command::BatchNormApply { input, weight, bias, mean, inverse, out, planes } => {
                self.each(*out, |raw, held| {
                    batch_norm_apply(
                        raw,
                        *planes,
                        &held[*input],
                        &held[*weight],
                        &held[*bias],
                        &held[*mean],
                        &held[*inverse],
                    )
                });
            }
            Command::BatchNormAffineBackward {
                gradient,
                input,
                mean,
                inverse,
                weight_gradient,
                bias_gradient,
                planes,
            } => {
                for channel in 0..planes.channels {
                    let found = batch_norm_affine_backward(
                        channel,
                        *planes,
                        &self.buffers[*gradient],
                        &self.buffers[*input],
                        &self.buffers[*mean],
                        &self.buffers[*inverse],
                    );
                    self.buffers[*weight_gradient][channel] = found.0;
                    self.buffers[*bias_gradient][channel] = found.1;
                }
            }
            Command::BatchNormInputBackward {
                gradient,
                input,
                weight,
                mean,
                inverse,
                weight_gradient,
                bias_gradient,
                out,
                planes,
                training,
            } => {
                self.each(*out, |raw, held| {
                    batch_norm_input_backward(
                        raw,
                        *planes,
                        *training,
                        &held[*gradient],
                        &held[*input],
                        &held[*weight],
                        &held[*mean],
                        &held[*inverse],
                        &held[*weight_gradient],
                        &held[*bias_gradient],
                    )
                });
            }
            Command::AdamW {
                parameter,
                gradient,
                first,
                second,
                new_parameter,
                new_first,
                new_second,
                rates,
                first_correction,
                second_correction,
            } => {
                for raw in 0..self.buffers[*new_parameter].len() {
                    let found = kernels::adamw(
                        raw,
                        rates,
                        *first_correction,
                        *second_correction,
                        &self.buffers[*parameter],
                        &self.buffers[*gradient],
                        &self.buffers[*first],
                        &self.buffers[*second],
                    );
                    self.buffers[*new_parameter][raw] = found.0;
                    self.buffers[*new_first][raw] = found.1;
                    self.buffers[*new_second][raw] = found.2;
                }
            }
        }
    }
}

fn close(left: &[Real], right: &[Real]) {
    assert_eq!(left.len(), right.len());
    for (a, b) in left.iter().zip(right) {
        assert!((a.0 - b.0).abs() < 1e-4, "{left:?} {right:?}");
    }
}

/// A tensor of small values, some of them negative.
fn spread(graph: &mut Graph<Real>, shape: Vec<usize>) -> Tensor {
    let len = shape.iter().product::<usize>();
    let data = (0..len).map(|i| Real(((i * 7 + 3) % 11) as f32 / 5.0 - 1.0)).collect();
    Tensor::from_vec(graph, data, shape).unwrap()
}

/// A small network with every operation, and the tensors that it is computed from.
fn network(graph: &mut Graph<Real>, training: bool) -> (Tensor, Vec<Tensor>) {
    let image = spread(graph, vec![2, 2, 5, 5]);
    let weight = spread(graph, vec![4, 1, 3, 3]);
    let bias = spread(graph, vec![4]);
    let scale = spread(graph, vec![4]);
    let shift = spread(graph, vec![4]);
    let state = graph.add_norm_state(vec![Real(0.1); 4], vec![Real(1.5); 4]);
    let dense = spread(graph, vec![4, 3]);
    let mask = spread(graph, vec![2, 3]);
    let targets = Tensor::from_vec(graph, reals(&[2.0, 0.0]), vec![2]).unwrap();
    let convolved = image.conv2d(graph, &weight, &bias, 2, 1, 2).unwrap();
    let normed = convolved
        .batch_norm2d(graph, &scale, &shift, state, training, Real(0.1), Real(1e-5))
        .unwrap();
    let active = normed.relu(graph);
    let pooled = active.avg_pool2d(graph, [3, 3], [3, 3]).unwrap();
    let flat = pooled.reshape(graph, vec![2, 4]).unwrap();
    let scores = flat.matmul(graph, &dense).unwrap();
    let masked = scores.mul(graph, &mask).unwrap();
    let logits = masked.add(graph, &scores).unwrap();
    let loss = logits.cross_entropy(graph, &targets).unwrap();
    (loss, vec![image, weight, bias, scale, shift, dense, mask])
}

#[test]
fn devices_compute_what_the_host_computes() {
    for training in [false, true] {
        let mut graph: Graph<Real> = Graph::new();
        let (loss, leaves) = network(&mut graph, training);
        let mut executor: Executor<Real> = Executor::new();
        let mut machine = Machine::new();
        executor.backward(&graph, loss.id).unwrap();
        machine.catch_up(&executor, &graph);
        let value = machine.buffers[executor.values[&loss.id]].clone();
        close(&value, &loss.to_vec(&mut graph).unwrap());
        loss.backward(&mut graph).unwrap();
        for leaf in &leaves {
            let found = machine.buffers[executor.gradient(leaf.id).unwrap()].clone();
            close(&found, &leaf.grad(&graph).unwrap());
        }
    }
}

#[test]
fn devices_keep_values_and_statistics() {
    let mut graph: Graph<Real> = Graph::new();
    let (loss, leaves) = network(&mut graph, true);
    let mut executor: Executor<Real> = Executor::new();
    executor.materialize(&graph, loss.id).unwrap();
    let planned = executor.log.len();
    let buffer = executor.eval_node(&graph, loss.id).unwrap();
    // A value that is there is not computed again.
    assert_eq!(executor.log.len(), planned);
    assert_eq!(executor.values[&loss.id], buffer);
    let mut machine = Machine::new();
    machine.catch_up(&executor, &graph);
    let (mean, variance) = executor.batch_norm_state(0).unwrap();
    let found = (machine.buffers[mean].clone(), machine.buffers[variance].clone());
    loss.to_vec(&mut graph).unwrap();
    close(&found.0, &graph.norms.states[0].running_mean);
    close(&found.1, &graph.norms.states[0].running_variance);
    sync_batch_norm_state(&mut graph, 0, Some((reals(&[1.0; 4]), reals(&[2.0; 4]))));
    assert_eq!(graph.norms.states[0].running_mean, reals(&[1.0; 4]));
    executor.release_node(loss.id);
    assert!(!executor.values.contains_key(&loss.id));
    assert!(executor.gradient(leaves[0].id).is_none());
}

#[test]
fn gradients_on_devices_are_cleared() {
    let mut graph: Graph<Real> = Graph::new();
    let (loss, leaves) = network(&mut graph, false);
    let mut executor: Executor<Real> = Executor::new();
    executor.backward(&graph, loss.id).unwrap();
    assert!(executor.gradient(leaves[0].id).is_some());
    executor.zero_gradient(leaves[0].id);
    assert!(executor.gradient(leaves[0].id).is_none());
}

#[test]
fn operands_come_before_what_uses_them() {
    let mut graph: Graph<Real> = Graph::new();
    let (loss, _) = network(&mut graph, false);
    let mut seen = HashSet::new();
    let mut order = Vec::new();
    collect_topological(&graph, loss.id, &mut seen, &mut order);
    assert_eq!(*order.last().unwrap(), loss.id);
    assert_eq!(order.len(), seen.len());
    let mut sorted = order.clone();
    sorted.sort();
    sorted.dedup();
    assert_eq!(sorted.len(), order.len());
}

#[test]
fn optimizers_step_on_devices() {
    let mut graph: Graph<Real> = Graph::new();
    let value = Tensor::from_vec(&mut graph, reals(&[1.0, -1.0]), vec![2]).unwrap();
    let value = value.to(&mut graph, Device::Cuda(0));
    let mut parameter = Parameter::new(&mut graph, value);
    let other = Tensor::from_vec(&mut graph, reals(&[2.0, 3.0]), vec![2, 1]).unwrap();
    let other = other.to(&mut graph, Device::Cuda(0));
    let row = parameter.value().clone().reshape(&mut graph, vec![1, 2]).unwrap();
    let output = row.matmul(&mut graph, &other).unwrap();
    let mut executor: Executor<Real> = Executor::new();
    executor.backward(&graph, output.id).unwrap();
    let rates = Rates {
        learning_rate: Real(0.1),
        weight_decay: Real(0.0),
        beta1: Real(0.9),
        beta2: Real(0.999),
        epsilon: Real(1e-8),
    };
    let old = parameter.value().id;
    adamw_step(&mut executor, &mut graph, &mut parameter, 7, rates, Real(0.1), Real(0.001)).unwrap();
    assert_ne!(parameter.value().id, old);
    let mut machine = Machine::new();
    machine.catch_up(&executor, &graph);
    close(
        &machine.buffers[executor.values[&parameter.value().id]],
        &reals(&[0.9, -1.1]),
    );
    assert_eq!(executor.moments.len(), 1);
    executor.release_optimizer(7);
    assert_eq!(executor.moments.len(), 0);
    let zeros = executor.zero_buffer(3);
    machine.catch_up(&executor, &graph);
    assert_eq!(machine.buffers[zeros], reals(&[0.0; 3]));
}

#[test]
fn launches_cover_their_elements() {
    assert_eq!(launch_config(10).unwrap(), Grid::Elements(10));
    assert!(launch_config(1 << 33).is_err());
    assert_eq!(
        tiled_launch_config(3, 257).unwrap(),
        Grid::Blocks { blocks: 6, threads: 256 }
    );
    assert_eq!(
        tiled_launch_config(usize::MAX, 257).unwrap_err().message(),
        "execution failed: CUDA tiled grid size overflow"
    );
    assert_eq!(
        tiled_launch_config(1 << 32, 1).unwrap_err().message(),
        "execution failed: CUDA tiled grid exceeds u32"
    );
    assert!(model_launch_config(5).is_ok());
    assert!(row_launch_config(5).is_ok());
}

#[test]
fn plans_launch_their_operations() {
    let plan: GraphPlan<Real> = GraphPlan {
        buffers: vec![
            BufferPlan::Input { elements: 2 },
            BufferPlan::Constant(reals(&[1.0, 2.0])),
            BufferPlan::Workspace { elements: 2 },
        ],
        inputs: vec![0],
        output: 2,
        operations: vec![PlanOperation::Add { left: 0, right: 1, output: 2 }],
    };
    let steps = launch_operations(&plan).unwrap();
    assert_eq!(steps.len(), 1);
    assert!(matches!(steps[0].command, Command::Add { left: 0, right: 1, out: 2 }));
    assert_eq!(plan.buffers[1].elements(), 2);
    assert!(check(0, "cublasCreate").is_ok());
    assert!(check(3, "cublasCreate").is_err());
}

#[test]
fn brain_floats_round_to_nearest() {
    assert_eq!(shorten(1.0_f32.to_bits()), 0x3F80);
    for value in [0.1_f32, -3.3, 65504.7, 1e-30, f32::INFINITY, -0.0] {
        let nearest = half::bf16::from_f32(value);
        assert_eq!(shorten(value.to_bits()), nearest.to_bits());
        assert_eq!(of_brain::<Real>(nearest.to_bits()).0, nearest.to_f32());
    }
    // A value of the upper half alone is kept.
    assert_eq!(shorten(0x4049_0000), 0x4049);
}

#[test]
fn model_kernels_compute_rows() {
    let input = reals(&[3.0, 4.0]);
    let weight = [0x3F80_u16, 0x4000];
    let scale: Real = rms_scale(0, 2, Real(0.0), &input);
    let expected = 1.0 / 12.5_f32.sqrt();
    assert!((scale.0 - expected).abs() < 1e-6);
    assert!((rms_norm(0, 1, 2, scale, &input, &weight).0 - 8.0 * expected).abs() < 1e-5);
    assert!((rms_norm_unit(0, 1, 2, scale, &input).0 - 4.0 * expected).abs() < 1e-5);
    let short = rms_norm_bf16(0, 0, 2, scale, &input, &weight);
    assert!((of_brain::<Real>(short).0 - 3.0 * expected).abs() < 1e-2);
    assert_eq!(mul_bf16_scalar(1, &input, &[0x4000]), Real(8.0));
    assert_eq!(bf16_to_f32_scaled::<Real>(0, 1, Real(3.0), &weight), Real(6.0));
    assert_eq!(
        embedding_rows_bf16::<Real>(1, 1, Real(2.0), &[0, 1], &weight),
        Real(4.0)
    );
    assert_eq!(f32_to_bf16(0, &input), 0x4040);
    assert_eq!(copy_bf16(1, 5, &weight), Some((6, 0x4000)));
    assert_eq!(scale_f32(0, Real(2.0), &input), Real(6.0));
    assert_eq!(slice_f32(0, 1, &input), Real(4.0));
    assert_eq!(slice_rows_f32(1, 2, 2, 1, 1, &reals(&[1.0, 2.0, 3.0, 4.0])), Real(4.0));
    assert_eq!(gelu_f32(0, &reals(&[0.0])), Real(0.0));
    let gate: Real = gelu_f32(0, &reals(&[1.0]));
    assert!((gate.0 - 0.841_192).abs() < 1e-4);
    assert_eq!(gelu_mul_f32(0, &reals(&[1.0]), &reals(&[2.0])), gate.times(Real(2.0)));
}

#[test]
fn decode_state_follows_the_tokens() {
    let mut state = [0_usize; 2];
    decode_state_set(0, 5, 9, &mut state);
    assert_eq!(state, [5, 9]);
    let mut seen = vec![0_u8; 8];
    decode_state_update(0, 6, 10, true, &mut state, &mut seen);
    assert_eq!(state, [6, 10]);
    mark_seen(0, 2, &mut seen);
    assert_eq!(seen, vec![0, 0, 1, 0, 0, 0, 1, 0]);
    // The row is where the position falls in a ring.
    assert_eq!(
        cache_write_f32_state(1, 2, 4, &state, &reals(&[7.0, 8.0])),
        Some((5, Real(8.0)))
    );
}

#[test]
fn rotations_turn_pairs() {
    let rotation = Rotation { heads: 1, head_dim: 2, rotary_dim: 2 };
    let input = reals(&[1.0, 0.0]);
    let first: Real = rope(0, rotation, 1, Real(10_000.0), Real(1.0), &input);
    let second: Real = rope(1, rotation, 1, Real(10_000.0), Real(1.0), &input);
    assert!((first.0 - 1.0_f32.cos()).abs() < 1e-6);
    assert!((second.0 - 1.0_f32.sin()).abs() < 1e-6);
    assert_eq!(
        rope_state(1, rotation, Real(10_000.0), Real(1.0), &[0, 1], &input),
        second
    );
}

#[test]
fn attention_kernels_agree() {
    let heads = Heads { heads: 2, kv_heads: 1, head_dim: 1 };
    let query = reals(&[1.0, 2.0]);
    let keys = reals(&[1.0, 0.5, 0.25]);
    let values = reals(&[1.0, 2.0, 3.0]);
    let ring = Ring { start: 0, capacity: 3 };
    for raw in 0..2 {
        let alone: Real = gqa_decode(raw, heads, ring, 3, 0, &query, &keys, &values);
        let mut total = 0.0;
        let mut mixed = 0.0;
        for position in 0..3 {
            let weight = (query[raw].0 * keys[position].0 - query[raw].0).exp();
            total += weight;
            mixed += weight * values[position].0;
        }
        assert!((alone.0 - mixed / total).abs() < 1e-5);
        let block: Option<Real> =
            gqa_decode_block(raw, 0, heads, ring, 3, 0, &query, &keys, &values);
        assert!((block.unwrap().0 - alone.0).abs() < 1e-5);
        let state: Real = gqa_decode_state(raw, heads, 0, 3, &[0, 2], &query, &keys, &values);
        assert!((state.0 - alone.0).abs() < 1e-5);
        let prefilled: Option<Real> =
            gqa_prefill_block(raw, 0, 1, heads, 0, &query, &keys[..1], &values[..1]);
        assert!((prefilled.unwrap().0 - 1.0).abs() < 1e-6);
    }
    assert_eq!(kept_positions(2, 3), (2, 0));
    assert_eq!(kept_positions(5, 3), (3, 2));
}

#[test]
fn top_picks_are_found_in_blocks() {
    let logits: Vec<Real> = (0..300).map(|i| Real(((i * 37) % 101) as f32)).collect();
    let seen = vec![0_u8; 300];
    let mut scores = Vec::new();
    let mut ids = Vec::new();
    for block in 0..2 {
        for pick in topk_stage1(block, 3, Real(1.0), &logits, &seen) {
            scores.push(pick.score);
            ids.push(Real(pick.id as f32));
        }
    }
    let picks = topk_stage2(3, &scores, &ids);
    let mut best: Vec<f32> = floats(&logits);
    best.sort_by(|a, b| b.total_cmp(a));
    assert_eq!(picks.iter().map(|pick| pick.score.0).collect::<Vec<f32>>(), best[..3].to_vec());
}

#[test]
fn two_stages_pick_the_best() {
    // Scores in no order, over two full blocks and a short one.
    let count = 600;
    let logits: Vec<Real> = (0..count).map(|i| Real(((i * 7919) % 601) as f32)).collect();
    let seen = vec![0; count];
    for k in [1, 3, 64] {
        let mut scores = Vec::new();
        let mut ids = Vec::new();
        for block in 0..3 {
            for pick in topk_stage1(block, k, Real(1.0), &logits, &seen) {
                scores.push(pick.score);
                ids.push(Real(pick.id as f32));
            }
        }
        let picks = topk_stage2(k, &scores, &ids);
        let mut sorted: Vec<usize> = (0..count).collect();
        sorted.sort_by(|a, b| logits[*b].0.total_cmp(&logits[*a].0));
        let found: Vec<usize> = picks.iter().map(|pick| pick.id as usize).collect();
        assert_eq!(found, sorted[..k].to_vec());
        assert!(picks.iter().all(|pick| pick.score == logits[pick.id as usize]));
    }
}

//! Tensors, gradients and traced plans on concrete values.

use oxide_torch::graph::Graph;
use oxide_torch::jit::{compile, trace};
use oxide_torch::nn::Conv2d;
use oxide_torch::scalar::Scalar;
use oxide_torch::{tensor, Device, Error, Tensor};

/// Single precision, as elements.
#[derive(Clone, Copy, Debug, PartialEq)]
struct Real(f32);

impl Scalar for Real {
    fn plus(self, other: Self) -> Self {
        Real(self.0 + other.0)
    }

    fn minus(self, other: Self) -> Self {
        Real(self.0 - other.0)
    }

    fn times(self, other: Self) -> Self {
        Real(self.0 * other.0)
    }

    fn over(self, other: Self) -> Self {
        Real(self.0 / other.0)
    }

    fn larger(self, other: Self) -> Self {
        Real(self.0.max(other.0))
    }

    fn power(self, exponent: i32) -> Self {
        Real(self.0.powi(exponent))
    }

    fn root(self) -> Self {
        Real(self.0.sqrt())
    }

    fn reciprocal(self) -> Self {
        Real(self.0.recip())
    }

    fn exponential(self) -> Self {
        Real(self.0.exp())
    }

    fn logarithm(self) -> Self {
        Real(self.0.ln())
    }

    fn hyperbolic_tangent(self) -> Self {
        Real(self.0.tanh())
    }

    fn sine(self) -> Self {
        Real(self.0.sin())
    }

    fn cosine(self) -> Self {
        Real(self.0.cos())
    }

    fn raised_to(self, exponent: Self) -> Self {
        Real(self.0.powf(exponent.0))
    }

    fn opposite(self) -> Self {
        Real(-self.0)
    }

    fn fraction(self) -> Self {
        Real(self.0.fract())
    }

    fn below(self, other: Self) -> bool {
        self.0 < other.0
    }

    fn same(self, other: Self) -> bool {
        self.0 == other.0
    }

    fn finite(self) -> bool {
        self.0.is_finite()
    }

    fn of_count(count: usize) -> Self {
        Real(count as f32)
    }

    fn of_bits(bits: u32) -> Self {
        Real(f32::from_bits(bits))
    }

    fn bits(self) -> u32 {
        self.0.to_bits()
    }

    fn lowest() -> Self {
        Real(f32::NEG_INFINITY)
    }

    fn count(self) -> usize {
        self.0 as usize
    }

    fn rank(self) -> i32 {
        let bits = self.0.to_bits() as i32;
        bits ^ ((((bits >> 31) as u32) >> 1) as i32)
    }

    fn shown(self) -> String {
        format!("{}", self.0)
    }
}

fn reals(values: &[f32]) -> Vec<Real> {
    values.iter().map(|value| Real(*value)).collect()
}

fn floats(values: &[Real]) -> Vec<f32> {
    values.iter().map(|value| value.0).collect()
}

#[test]
fn lazy_elementwise_graph_evaluates() {
    let mut graph: Graph<Real> = Graph::new();
    let x = Tensor::from_vec(&mut graph, reals(&[-1.0, 2.0, -3.0, 4.0]), vec![2, 2]).unwrap();
    let y = Tensor::ones(&mut graph, vec![2, 2]).unwrap();
    let output = x.add(&mut graph, &y).unwrap().relu(&mut graph);
    assert_eq!(floats(&output.to_vec(&mut graph).unwrap()), vec![0.0, 3.0, 0.0, 5.0]);
}

#[test]
fn matrix_multiply_evaluates() {
    let mut graph: Graph<Real> = Graph::new();
    let a = Tensor::from_vec(&mut graph, reals(&[1.0, 2.0, 3.0, 4.0]), vec![2, 2]).unwrap();
    let b = Tensor::from_vec(&mut graph, reals(&[5.0, 6.0, 7.0, 8.0]), vec![2, 2]).unwrap();
    assert_eq!(
        floats(&a.matmul(&mut graph, &b).unwrap().to_vec(&mut graph).unwrap()),
        vec![19.0, 22.0, 43.0, 50.0]
    );
}

#[test]
fn grouped_convolution_and_average_pool_evaluate() {
    let mut graph: Graph<Real> = Graph::new();
    let input = Tensor::from_vec(
        &mut graph,
        (1_i16..=9).map(|value| Real(f32::from(value))).collect(),
        vec![1, 1, 3, 3],
    )
    .unwrap();
    let weight = Tensor::from_vec(&mut graph, vec![Real(1.0); 4], vec![1, 1, 2, 2]).unwrap();
    let bias = Tensor::zeros(&mut graph, vec![1]).unwrap();
    let convolved = input.conv2d(&mut graph, &weight, &bias, 1, 0, 1).unwrap();
    assert_eq!(convolved.shape(), &[1, 1, 2, 2]);
    assert_eq!(
        floats(&convolved.to_vec(&mut graph).unwrap()),
        vec![12.0, 16.0, 24.0, 28.0]
    );

    let pooled = Tensor::from_vec(
        &mut graph,
        (1_i16..=16).map(|value| Real(f32::from(value))).collect(),
        vec![1, 1, 4, 4],
    )
    .unwrap()
    .avg_pool2d(&mut graph, [2, 2], [2, 2])
    .unwrap();
    assert_eq!(
        floats(&pooled.to_vec(&mut graph).unwrap()),
        vec![3.5, 5.5, 11.5, 13.5]
    );

    let depthwise_input = Tensor::from_vec(
        &mut graph,
        reals(&[1., 2., 3., 4., 5., 6., 7., 8.]),
        vec![1, 2, 2, 2],
    )
    .unwrap();
    let depthwise_weight =
        Tensor::from_vec(&mut graph, reals(&[2., 3.]), vec![2, 1, 1, 1]).unwrap();
    let depthwise_bias = Tensor::zeros(&mut graph, vec![2]).unwrap();
    assert_eq!(
        floats(
            &depthwise_input
                .conv2d(&mut graph, &depthwise_weight, &depthwise_bias, 1, 0, 2)
                .unwrap()
                .to_vec(&mut graph)
                .unwrap()
        ),
        vec![2., 4., 6., 8., 15., 18., 21., 24.]
    );
}

#[test]
fn cross_entropy_backpropagates_softmax_gradient() {
    let mut graph: Graph<Real> = Graph::new();
    let logits = Tensor::zeros(&mut graph, vec![2, 2]).unwrap();
    let targets = Tensor::from_vec(&mut graph, reals(&[0.0, 1.0]), vec![2]).unwrap();
    let loss = logits.cross_entropy(&mut graph, &targets).unwrap();
    assert!((loss.item(&mut graph).unwrap().0 - 2.0_f32.ln()).abs() < 1e-6);
    loss.backward(&mut graph).unwrap();
    let gradient = logits.grad(&graph).unwrap();
    assert_eq!(floats(&gradient), vec![-0.25, 0.25, 0.25, -0.25]);
}

#[test]
fn trace_caches_and_reuses_a_graph() {
    let mut graph: Graph<Real> = Graph::new();
    let x = Tensor::from_vec(&mut graph, reals(&[-2.0, 3.0]), vec![2]).unwrap();
    let bias = Tensor::ones(&mut graph, vec![2]).unwrap();
    let mut module = trace(&mut graph, &vec![x.clone(), bias.clone()], |graph, inputs| {
        Ok(inputs[0].add(graph, &inputs[1])?.relu(graph))
    })
    .unwrap();

    assert_eq!(module.cached_specializations(), 0);
    let output = module.run(&mut graph, &vec![x, bias]).unwrap();
    assert_eq!(floats(&output.to_vec(&mut graph).unwrap()), vec![0.0, 4.0]);
    assert_eq!(module.cached_specializations(), 1);
}

#[test]
fn failures_have_their_messages() {
    assert_eq!(
        Error::InvalidShape("x".to_string()).message(),
        "invalid shape: x"
    );
    assert_eq!(
        Error::DeviceMismatch.message(),
        "all tensors must be on the same device"
    );
    assert_eq!(
        Error::CudaUnavailable.message(),
        "CUDA support is disabled; rebuild with --features cuda"
    );
    assert_eq!(
        Error::Execution("x".to_string()).message(),
        "execution failed: x"
    );
    assert_eq!(Error::Trace("x".to_string()).message(), "JIT trace failed: x");
}

#[test]
fn tensors_are_made_of_matching_data() {
    let mut graph: Graph<Real> = Graph::new();
    let x = tensor(&mut graph, reals(&[1.0, 2.0, 3.0]), vec![3]).unwrap();
    assert_eq!(x.numel(), 3);
    assert_eq!(x.device(), Device::Cpu);
    assert_eq!(
        tensor(&mut graph, reals(&[1.0, 2.0, 3.0]), vec![2, 2]).unwrap_err().message(),
        "invalid shape: shape [2, 2] contains 4 elements, but data contains 3"
    );
    assert_eq!(
        Tensor::zeros(&mut graph, vec![usize::MAX, 2]).unwrap_err().message(),
        "invalid shape: element count overflow"
    );
    let counted = Tensor::arange(&mut graph, 4);
    assert_eq!(floats(&counted.to_vec(&mut graph).unwrap()), vec![0.0, 1.0, 2.0, 3.0]);
    let square = counted.reshape(&mut graph, vec![2, 2]).unwrap();
    assert_eq!(square.shape(), &[2, 2]);
    assert_eq!(floats(&square.to_vec(&mut graph).unwrap()), vec![0.0, 1.0, 2.0, 3.0]);
    assert!(counted.reshape(&mut graph, vec![3]).is_err());
    assert!(counted.item(&mut graph).is_err());
}

#[test]
fn operands_agree_in_shape_and_device() {
    let mut graph: Graph<Real> = Graph::new();
    let x = Tensor::ones(&mut graph, vec![2]).unwrap();
    let y = Tensor::ones(&mut graph, vec![3]).unwrap();
    assert!(matches!(x.add(&mut graph, &y), Err(Error::InvalidShape(_))));
    assert!(matches!(x.mul(&mut graph, &y), Err(Error::InvalidShape(_))));
    assert!(matches!(x.matmul(&mut graph, &y), Err(Error::InvalidShape(_))));
    let far = x.to(&mut graph, Device::Cuda(0));
    assert_eq!(far.device(), Device::Cuda(0));
    assert_eq!(x.add(&mut graph, &far).unwrap_err(), Error::DeviceMismatch);
    assert_eq!(far.to_vec(&mut graph).unwrap_err(), Error::CudaUnavailable);
    let back = far.to(&mut graph, Device::Cpu);
    assert_eq!(floats(&back.to_vec(&mut graph).unwrap()), vec![1.0, 1.0]);
}

#[test]
fn gradients_follow_products_and_gates() {
    let mut graph: Graph<Real> = Graph::new();
    let x = Tensor::from_vec(&mut graph, reals(&[3.0]), vec![1]).unwrap();
    let y = Tensor::from_vec(&mut graph, reals(&[-2.0]), vec![1]).unwrap();
    let product = x.mul(&mut graph, &y).unwrap();
    let total = product.add(&mut graph, &x).unwrap();
    total.backward(&mut graph).unwrap();
    // d(xy + x) = (y + 1) dx + x dy
    assert_eq!(floats(&x.grad(&graph).unwrap()), vec![-1.0]);
    assert_eq!(floats(&y.grad(&graph).unwrap()), vec![3.0]);
    x.zero_grad(&mut graph);
    assert!(x.grad(&graph).is_none());
    let gated = y.relu(&mut graph);
    gated.backward(&mut graph).unwrap();
    assert_eq!(floats(&y.grad(&graph).unwrap()), vec![0.0]);
}

#[test]
fn gradients_start_from_a_scalar() {
    let mut graph: Graph<Real> = Graph::new();
    let x = Tensor::ones(&mut graph, vec![2]).unwrap();
    assert_eq!(
        x.backward(&mut graph).unwrap_err().message(),
        "execution failed: backward requires a scalar loss tensor"
    );
    let one = Tensor::ones(&mut graph, vec![1]).unwrap();
    one.backward(&mut graph).unwrap();
    assert_eq!(floats(&one.grad(&graph).unwrap()), vec![1.0]);
}

#[test]
fn gradients_follow_matrix_products() {
    let mut graph: Graph<Real> = Graph::new();
    let a = Tensor::from_vec(&mut graph, reals(&[2.0, 3.0]), vec![1, 2]).unwrap();
    let b = Tensor::from_vec(&mut graph, reals(&[5.0, 7.0]), vec![2, 1]).unwrap();
    let product = a.matmul(&mut graph, &b).unwrap();
    assert_eq!(product.item(&mut graph).unwrap(), Real(31.0));
    product.backward(&mut graph).unwrap();
    assert_eq!(floats(&a.grad(&graph).unwrap()), vec![5.0, 7.0]);
    assert_eq!(floats(&b.grad(&graph).unwrap()), vec![2.0, 3.0]);
}

#[test]
fn gradients_follow_convolutions_and_pools() {
    let mut graph: Graph<Real> = Graph::new();
    let input = Tensor::from_vec(&mut graph, reals(&[1.0, 2.0, 3.0, 4.0]), vec![1, 1, 2, 2]).unwrap();
    let weight = Tensor::from_vec(&mut graph, reals(&[10.0]), vec![1, 1, 1, 1]).unwrap();
    let bias = Tensor::from_vec(&mut graph, reals(&[1.0]), vec![1]).unwrap();
    let convolved = input.conv2d(&mut graph, &weight, &bias, 1, 0, 1).unwrap();
    let pooled = convolved.global_avg_pool2d(&mut graph).unwrap();
    assert_eq!(floats(&pooled.to_vec(&mut graph).unwrap()), vec![26.0]);
    pooled.backward(&mut graph).unwrap();
    assert_eq!(floats(&input.grad(&graph).unwrap()), vec![2.5, 2.5, 2.5, 2.5]);
    assert_eq!(floats(&weight.grad(&graph).unwrap()), vec![2.5]);
    assert_eq!(floats(&bias.grad(&graph).unwrap()), vec![1.0]);
}

#[test]
fn convolutions_reject_unfit_operands() {
    let mut graph: Graph<Real> = Graph::new();
    let input = Tensor::ones(&mut graph, vec![1, 2, 3, 3]).unwrap();
    let weight = Tensor::ones(&mut graph, vec![2, 1, 3, 3]).unwrap();
    let bias = Tensor::zeros(&mut graph, vec![2]).unwrap();
    let short = Tensor::zeros(&mut graph, vec![1]).unwrap();
    assert!(input.conv2d(&mut graph, &weight, &bias, 1, 1, 2).is_ok());
    assert!(input.conv2d(&mut graph, &weight, &bias, 1, 1, 1).is_err());
    assert!(input.conv2d(&mut graph, &weight, &bias, 0, 1, 2).is_err());
    assert!(input.conv2d(&mut graph, &weight, &bias, 1, 1, 0).is_err());
    assert!(input.conv2d(&mut graph, &weight, &short, 1, 1, 2).is_err());
    assert!(input.avg_pool2d(&mut graph, [4, 1], [1, 1]).is_err());
    assert!(input.avg_pool2d(&mut graph, [1, 1], [0, 1]).is_err());
}

#[test]
fn batch_normalization_centers_and_remembers() {
    let mut graph: Graph<Real> = Graph::new();
    let input = Tensor::from_vec(&mut graph, reals(&[1.0, 3.0]), vec![2, 1, 1, 1]).unwrap();
    let weight = Tensor::ones(&mut graph, vec![1]).unwrap();
    let bias = Tensor::zeros(&mut graph, vec![1]).unwrap();
    let state = graph.add_norm_state(reals(&[0.0]), reals(&[1.0]));
    let trained = input
        .batch_norm2d(&mut graph, &weight, &bias, state, true, Real(0.5), Real(1e-5))
        .unwrap();
    let output = trained.to_vec(&mut graph).unwrap();
    assert!((output[0].0 + 1.0).abs() < 1e-3);
    assert!((output[1].0 - 1.0).abs() < 1e-3);
    // The mean moved half the way from 0 to 2, the variance from 1 to 2.
    let evaluated = input
        .batch_norm2d(&mut graph, &weight, &bias, state, false, Real(0.5), Real(0.5))
        .unwrap();
    let output = evaluated.to_vec(&mut graph).unwrap();
    assert!((output[0].0 - 0.0).abs() < 1e-3);
    assert!((output[1].0 - 2.0 / 2.0_f32.sqrt()).abs() < 1e-3);
}

#[test]
fn plans_reject_other_inputs() {
    let mut graph: Graph<Real> = Graph::new();
    let x = Tensor::ones(&mut graph, vec![2]).unwrap();
    let longer = Tensor::ones(&mut graph, vec![3]).unwrap();
    assert_eq!(
        trace(&mut graph, &Vec::new(), |_, _| unreachable!())
            .map(|_| ())
            .unwrap_err()
            .message(),
        "JIT trace failed: at least one example input is required"
    );
    let far = x.to(&mut graph, Device::Cuda(1));
    assert_eq!(
        trace(&mut graph, &vec![x.clone(), far.clone()], |_, inputs| Ok(inputs[0].clone()))
            .map(|_| ())
            .unwrap_err(),
        Error::DeviceMismatch
    );
    let mut plan = trace(&mut graph, &vec![x.clone()], |graph, inputs| {
        inputs[0].add(graph, &inputs[0])
    })
    .unwrap();
    assert_eq!(plan.output_shape(), &[2]);
    assert_eq!(
        plan.run(&mut graph, &Vec::new()).unwrap_err().message(),
        "JIT trace failed: expected 1 inputs, got 0"
    );
    assert_eq!(
        plan.run(&mut graph, &vec![longer]).unwrap_err().message(),
        "JIT trace failed: input 0 expected shape [2], got [3]"
    );
    assert_eq!(plan.run(&mut graph, &vec![far.clone()]).unwrap_err(), Error::DeviceMismatch);
    assert_eq!(plan.cached_specializations(), 0);
    for _ in 0..2 {
        let doubled = plan.run(&mut graph, &vec![x.clone()]).unwrap();
        assert_eq!(floats(&doubled.to_vec(&mut graph).unwrap()), vec![2.0, 2.0]);
        assert_eq!(plan.cached_specializations(), 1);
    }
    let mut distant = trace(&mut graph, &vec![far.clone()], |graph, inputs| {
        Ok(inputs[0].relu(graph))
    })
    .unwrap();
    assert_eq!(distant.run(&mut graph, &vec![far]).unwrap_err(), Error::CudaUnavailable);
    assert_eq!(distant.cached_specializations(), 1);
}

#[test]
fn plans_bind_inputs() {
    let mut graph: Graph<Real> = Graph::new();
    let x = Tensor::from_vec(&mut graph, reals(&[4.0]), vec![1]).unwrap();
    let y = Tensor::from_vec(&mut graph, reals(&[6.0]), vec![1]).unwrap();
    let plan = trace(&mut graph, &vec![x], |graph, inputs| inputs[0].mul(graph, &inputs[0])).unwrap();
    let bound = plan.bind(&mut graph, &vec![y]).unwrap();
    assert_eq!(floats(&bound.to_vec(&mut graph).unwrap()), vec![36.0]);
}

#[test]
fn bound_plans_compute_what_plans_run() {
    let mut graph: Graph<Real> = Graph::new();
    let x = Tensor::ones(&mut graph, vec![2]).unwrap();
    let mut plan = trace(&mut graph, &vec![x.clone(), x], |graph, inputs| {
        let product = inputs[0].mul(graph, &inputs[1])?;
        product.add(graph, &inputs[1])
    })
    .unwrap();
    let y = Tensor::from_vec(&mut graph, reals(&[2.0, 3.0]), vec![2]).unwrap();
    let z = y.add(&mut graph, &y).unwrap();
    let bound = plan.bind(&mut graph, &vec![y.clone(), z.clone()]).unwrap();
    let run = plan.run(&mut graph, &vec![y, z]).unwrap();
    assert_eq!(floats(&bound.to_vec(&mut graph).unwrap()), vec![12.0, 24.0]);
    assert_eq!(floats(&run.to_vec(&mut graph).unwrap()), vec![12.0, 24.0]);
}

#[test]
fn differentiation_starts_afresh() {
    let mut graph: Graph<Real> = Graph::new();
    let x = Tensor::from_vec(&mut graph, reals(&[3.0]), vec![1]).unwrap();
    let square = x.mul(&mut graph, &x).unwrap();
    let double = x.add(&mut graph, &x).unwrap();
    square.backward(&mut graph).unwrap();
    assert_eq!(floats(&x.grad(&graph).unwrap()), vec![6.0]);
    square.backward(&mut graph).unwrap();
    assert_eq!(floats(&x.grad(&graph).unwrap()), vec![6.0]);
    double.backward(&mut graph).unwrap();
    assert_eq!(floats(&x.grad(&graph).unwrap()), vec![2.0]);
    assert_eq!(floats(&square.grad(&graph).unwrap()), vec![1.0]);
}

#[test]
fn copies_compute_the_same() {
    let mut graph: Graph<Real> = Graph::new();
    let x = Tensor::from_vec(&mut graph, reals(&[1.0, -2.0]), vec![2]).unwrap();
    let square = x.mul(&mut graph, &x).unwrap();
    let total = square.add(&mut graph, &x).unwrap();
    let copy = total.to(&mut graph, Device::Cpu);
    assert_ne!(copy.id, total.id);
    assert_eq!(floats(&total.to_vec(&mut graph).unwrap()), vec![2.0, 2.0]);
    assert_eq!(floats(&copy.to_vec(&mut graph).unwrap()), vec![2.0, 2.0]);
}

#[test]
fn models_compile_to_plans() {
    let mut graph: Graph<Real> = Graph::new();
    let weight = Tensor::from_vec(&mut graph, reals(&[2.0]), vec![1, 1, 1, 1]).unwrap();
    let bias = Tensor::from_vec(&mut graph, reals(&[1.0]), vec![1]).unwrap();
    let model = Conv2d::from_tensors(&mut graph, weight, bias, 1, 0, 1).unwrap();
    let example = Tensor::zeros(&mut graph, vec![1, 1, 1, 2]).unwrap();
    let mut plan = compile(&mut graph, &model, &example).unwrap();
    let input = Tensor::from_vec(&mut graph, reals(&[3.0, 5.0]), vec![1, 1, 1, 2]).unwrap();
    let output = plan.run(&mut graph, &vec![input]).unwrap();
    assert_eq!(floats(&output.to_vec(&mut graph).unwrap()), vec![7.0, 11.0]);
    let flat = Tensor::zeros(&mut graph, vec![2]).unwrap();
    assert!(compile(&mut graph, &model, &flat).is_err());
}

#[test]
fn cross_entropy_looks_at_labels_it_can_see() {
    let mut graph: Graph<Real> = Graph::new();
    let logits = Tensor::zeros(&mut graph, vec![1, 2]).unwrap();
    for (label, message) in [
        (2.0, Some("invalid shape: target class 2 is outside 0..2")),
        (0.5, None),
        (-1.0, None),
        (f32::NAN, None),
    ] {
        let targets = Tensor::from_vec(&mut graph, reals(&[label]), vec![1]).unwrap();
        let nodes = graph.nodes.len();
        let error = logits.cross_entropy(&mut graph, &targets).unwrap_err();
        assert!(matches!(error, Error::InvalidShape(_)));
        if let Some(message) = message {
            assert_eq!(error.message(), message);
        }
        assert_eq!(graph.nodes.len(), nodes);
    }
    // Labels that are computed are evaluated first.
    let one = Tensor::ones(&mut graph, vec![1]).unwrap();
    let two = one.add(&mut graph, &one).unwrap();
    assert!(logits.cross_entropy(&mut graph, &two).is_err());
    assert!(logits.cross_entropy(&mut graph, &one).is_ok());
    let other = Tensor::zeros(&mut graph, vec![2]).unwrap();
    assert!(logits.cross_entropy(&mut graph, &other).is_err());
}

#[test]
fn cross_entropy_looks_at_inputs_when_it_runs() {
    let mut graph: Graph<Real> = Graph::new();
    let logits = Tensor::zeros(&mut graph, vec![1, 2]).unwrap();
    let good = Tensor::zeros(&mut graph, vec![1]).unwrap();
    let bad = Tensor::from_vec(&mut graph, reals(&[2.0]), vec![1]).unwrap();
    let mut plan = trace(&mut graph, &vec![logits.clone(), good.clone()], |graph, inputs| {
        inputs[0].cross_entropy(graph, &inputs[1])
    })
    .unwrap();
    assert!(plan.run(&mut graph, &vec![logits.clone(), good]).is_ok());
    assert_eq!(
        plan.run(&mut graph, &vec![logits, bad]).unwrap_err().message(),
        "invalid shape: target class 2 is outside 0..2"
    );
}

#[test]
fn moved_tensors_have_no_gradient() {
    let mut graph: Graph<Real> = Graph::new();
    let x = Tensor::from_vec(&mut graph, reals(&[3.0]), vec![1]).unwrap();
    x.mul(&mut graph, &x).unwrap().backward(&mut graph).unwrap();
    assert_eq!(floats(&x.grad(&graph).unwrap()), vec![6.0]);
    let moved = x.to(&mut graph, Device::Cpu);
    assert!(moved.grad(&graph).is_none());
    assert_eq!(floats(&x.grad(&graph).unwrap()), vec![6.0]);
}

#[test]
fn differentiation_repeats() {
    let mut graph: Graph<Real> = Graph::new();
    let x = Tensor::from_vec(&mut graph, reals(&[3.0]), vec![1]).unwrap();
    let square = x.mul(&mut graph, &x).unwrap();
    for _ in 0..2 {
        square.backward(&mut graph).unwrap();
        assert_eq!(floats(&square.grad(&graph).unwrap()), vec![1.0]);
        assert_eq!(floats(&x.grad(&graph).unwrap()), vec![6.0]);
    }
}

#[test]
fn reshapes_come_back() {
    let mut graph: Graph<Real> = Graph::new();
    let x = Tensor::from_vec(&mut graph, reals(&[1., 2., 3., 4., 5., 6.]), vec![2, 3]).unwrap();
    let away = x.reshape(&mut graph, vec![6]).unwrap();
    let back = away.reshape(&mut graph, vec![2, 3]).unwrap();
    assert_eq!(away.to_vec(&mut graph).unwrap(), x.to_vec(&mut graph).unwrap());
    assert_eq!(back.to_vec(&mut graph).unwrap(), x.to_vec(&mut graph).unwrap());
    assert_eq!(back.shape(), x.shape());
    assert!(x.reshape(&mut graph, vec![5]).is_err());
}

#[test]
fn graphs_know_what_they_hold() {
    let mut graph: Graph<Real> = Graph::new();
    let x = Tensor::from_vec(&mut graph, reals(&[1., 2.]), vec![2]).unwrap();
    assert!(graph.holds(&x));
    assert!(graph.evaluable(x.id));
    assert!(graph.launches(x.id));
    assert!(graph.is_settled(x.id));
    let plan = trace(&mut graph, &vec![x.clone()], |graph, inputs| Ok(inputs[0].relu(graph))).unwrap();
    assert!(plan.is_closed(&graph));
    assert!(!graph.is_settled(plan.graph.id));
    let other: Graph<Real> = Graph::new();
    assert!(!other.holds(&x));
    assert!(!plan.is_closed(&other));
}

#[test]
fn plans_leave_gradients_alone() {
    let mut graph: Graph<Real> = Graph::new();
    let x = Tensor::from_vec(&mut graph, reals(&[3.0]), vec![1]).unwrap();
    x.mul(&mut graph, &x).unwrap().backward(&mut graph).unwrap();
    let mut plan =
        trace(&mut graph, &vec![x.clone()], |graph, inputs| inputs[0].add(graph, &inputs[0]))
            .unwrap();
    let output = plan.run(&mut graph, &vec![x.clone()]).unwrap();
    assert_eq!(floats(&output.to_vec(&mut graph).unwrap()), vec![6.0]);
    assert!(output.grad(&graph).is_none());
    assert_eq!(floats(&x.grad(&graph).unwrap()), vec![6.0]);
    // The function gives the same on the input itself.
    let direct = x.add(&mut graph, &x).unwrap();
    assert_eq!(
        direct.to_vec(&mut graph).unwrap(),
        output.to_vec(&mut graph).unwrap()
    );
}

#[test]
fn differentiated_copies_leave_the_first() {
    let mut graph: Graph<Real> = Graph::new();
    let x = Tensor::from_vec(&mut graph, reals(&[3.0]), vec![1]).unwrap();
    let square = x.mul(&mut graph, &x).unwrap();
    square.backward(&mut graph).unwrap();
    let before = graph.nodes.len();
    let copy = square.to(&mut graph, Device::Cpu);
    let held = graph.grads[..before].to_vec();
    copy.backward(&mut graph).unwrap();
    assert!(copy.id >= before);
    assert_eq!(graph.grads[..before].to_vec(), held);
    assert_eq!(floats(&x.grad(&graph).unwrap()), vec![6.0]);
    assert_eq!(floats(&copy.grad(&graph).unwrap()), vec![1.0]);
    // The copy of the factor got the gradient that the factor had.
    assert!(graph.grads[before..].contains(&Some(reals(&[6.0]))));
}

#[test]
fn copies_of_copies_are_copies() {
    let mut graph: Graph<Real> = Graph::new();
    let x = Tensor::from_vec(&mut graph, reals(&[-1.0, 2.0]), vec![2]).unwrap();
    let total = x.relu(&mut graph).add(&mut graph, &x).unwrap();
    let moved = total.to(&mut graph, Device::Cuda(0));
    assert_eq!(moved.device(), Device::Cuda(0));
    let back = moved.to(&mut graph, Device::Cpu);
    assert_eq!(back.device(), Device::Cpu);
    assert_eq!(back.shape(), total.shape());
    assert_eq!(
        back.to_vec(&mut graph).unwrap(),
        total.to_vec(&mut graph).unwrap()
    );
}

#[test]
fn copied_normalizations_start_without_statistics() {
    let mut graph: Graph<Real> = Graph::new();
    let input = Tensor::from_vec(&mut graph, reals(&[1.0, 3.0]), vec![2, 1, 1, 1]).unwrap();
    let weight = Tensor::ones(&mut graph, vec![1]).unwrap();
    let bias = Tensor::zeros(&mut graph, vec![1]).unwrap();
    let state = graph.add_norm_state(reals(&[0.0]), reals(&[1.0]));
    let first = input
        .batch_norm2d(&mut graph, &weight, &bias, state, true, Real(0.5), Real(1e-5))
        .unwrap();
    first.to_vec(&mut graph).unwrap();
    assert!(graph.norms.saved[0].is_some());
    first.to(&mut graph, Device::Cpu);
    assert_eq!(graph.norms.saved.len(), 2);
    assert!(graph.norms.saved[0].is_some());
    assert!(graph.norms.saved[1].is_none());
}

#[test]
fn reshapes_keep_the_values_of_normalizations() {
    let mut graph: Graph<Real> = Graph::new();
    let input = Tensor::from_vec(&mut graph, reals(&[1.0, 3.0]), vec![2, 1, 1, 1]).unwrap();
    let weight = Tensor::ones(&mut graph, vec![1]).unwrap();
    let bias = Tensor::zeros(&mut graph, vec![1]).unwrap();
    let state = graph.add_norm_state(reals(&[0.0]), reals(&[1.0]));
    let normed = input
        .batch_norm2d(&mut graph, &weight, &bias, state, true, Real(0.5), Real(1e-5))
        .unwrap();
    let flat = normed.reshape(&mut graph, vec![2]).unwrap();
    let values = flat.to_vec(&mut graph).unwrap();
    assert_eq!(floats(&graph.norms.states[state].running_mean), vec![1.0]);
    assert_eq!(normed.to_vec(&mut graph).unwrap(), values);
    assert_eq!(floats(&graph.norms.states[state].running_mean), vec![1.0]);
}

#[test]
fn plans_traced_behind_others_are_closed() {
    let mut graph: Graph<Real> = Graph::new();
    let x = Tensor::ones(&mut graph, vec![2]).unwrap();
    let longer = Tensor::ones(&mut graph, vec![3]).unwrap();
    let first = trace(&mut graph, &vec![x.clone()], |graph, inputs| {
        inputs[0].add(graph, &inputs[0])
    })
    .unwrap();
    let mut second = trace(&mut graph, &vec![longer.clone()], |graph, inputs| {
        Ok(inputs[0].relu(graph))
    })
    .unwrap();
    assert!(first.is_closed(&graph));
    assert!(second.is_closed(&graph));
    let output = second.run(&mut graph, &vec![longer]).unwrap();
    assert_eq!(floats(&output.to_vec(&mut graph).unwrap()), vec![1.0, 1.0, 1.0]);
}

#[test]
fn failed_differentiations_leave_what_flowed() {
    let mut graph: Graph<Real> = Graph::new();
    let x = Tensor::from_vec(&mut graph, reals(&[3.0]), vec![1]).unwrap();
    let plan = trace(&mut graph, &vec![x], |graph, inputs| {
        let square = inputs[0].mul(graph, &inputs[0])?;
        square.add(graph, &square)?.backward(graph)?;
        Ok(square)
    });
    assert!(plan.is_err());
    // The sum has its gradient, the product one of the two that come to it.
    let held: Vec<Vec<f32>> =
        graph.grads.iter().flatten().map(|gradient| floats(gradient)).collect();
    assert_eq!(held, vec![vec![1.0], vec![1.0]]);
}

#[test]
fn evaluations_and_plans_agree() {
    let mut graph: Graph<Real> = Graph::new();
    let x = Tensor::from_vec(&mut graph, reals(&[0.1, -0.7, 0.3]), vec![1, 3]).unwrap();
    let w = Tensor::from_vec(&mut graph, reals(&[0.2, 0.9, -0.4]), vec![3, 1]).unwrap();
    let direct = x.matmul(&mut graph, &w).unwrap().relu(&mut graph);
    let value = direct.to_vec(&mut graph).unwrap();
    assert_eq!(direct.to_vec(&mut graph).unwrap(), value);
    let mut plan = trace(&mut graph, &vec![x.clone(), w.clone()], |graph, inputs| {
        Ok(inputs[0].matmul(graph, &inputs[1])?.relu(graph))
    })
    .unwrap();
    for _ in 0..2 {
        let output = plan.run(&mut graph, &vec![x.clone(), w.clone()]).unwrap();
        assert_eq!(output.to_vec(&mut graph).unwrap(), value);
    }
}

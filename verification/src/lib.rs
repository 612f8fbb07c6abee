//! A compact tensor library: a lazy graph of tensor operations, its evaluation and
//! differentiation, traced execution plans, layers and models.

pub mod backward;
pub mod copy;
pub mod cuda;
pub mod data;
pub mod error;
pub mod eval;
pub mod exact;
pub mod forward;
pub mod gemma4_cuda;
pub mod graph;
pub mod index;
pub mod jit;
pub mod meaning;
pub mod determined;
pub mod mirror;
pub mod models;
pub mod nn;
pub mod norm;
pub mod optim;
pub mod random;
pub mod reverse;
pub mod safetensors;
pub mod scalar;
pub mod shape;
pub mod tensor;
pub mod text;

pub use error::{Error, Result};
pub use graph::Device;
pub use tensor::Tensor;

use graph::{Graph, Op};
use shape::validated_numel;
use vstd::prelude::*;

verus! {

/// A CPU tensor of the given data and shape.
pub fn tensor<T>(graph: &mut Graph<T>, data: Vec<T>, shape: Vec<usize>) -> (r: Result<Tensor>)
    requires
        old(graph).wf(),
    ensures
        final(graph).wf(),
        final(graph).attempts(
            *old(graph),
            r,
            match validated_numel(data@.len(), shape@) {
                Ok(_) => Ok(shape@),
                Err(failure) => Err(failure),
            },
            Device::Cpu,
            Op::Data(data),
        ),
{
    Tensor::from_vec(graph, data, shape)
}

} // verus!

//! The CUDA backend: what is launched on a device, on which buffers, and what each
//! thread computes.

pub mod launch;
pub mod kernels;
pub mod pool_kernels;
pub mod conv_kernels;
pub mod norm_kernels;
pub mod loss_kernels;
pub mod command;
pub mod executor;
pub mod propagate;
pub mod session;
pub mod model_kernels;
pub mod attention_kernels;
pub mod sampling_kernels;
pub mod top_tokens;
pub mod plan;
pub mod agreement;
pub mod equations;
pub mod safety;
pub mod gradient_safety;
pub mod optimizer_safety;

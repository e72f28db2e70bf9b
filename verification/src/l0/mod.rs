//! Level Zero backend: memory layout, kernel geometry, device choice.

pub mod decode;
pub mod device;
pub mod kernel;
pub mod q4_decoder;
pub mod shader;
pub mod spirv_gen;
pub mod usm;

pub use device::{L0Context, L0Device};
pub use kernel::{L0Kernel, L0Module};
pub use usm::UsmAllocator;

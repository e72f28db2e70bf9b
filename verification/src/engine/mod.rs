//! Engine configuration.

pub mod svm;

use std::path::PathBuf;
use vstd::prelude::*;

verus! {

/// Engine configuration.
#[derive(Debug, Clone)]
pub struct EngineConfig {
    /// Run on the integrated GPU, which shares memory with the CPU.
    pub use_integrated_gpu: bool,
    /// Compress the key/value cache.
    pub shannon_prime: bool,
    /// Head dimension of the transform.
    pub head_dim: usize,
    /// Device path for spilled cache entries, if any.
    pub optane_path: Option<PathBuf>,
}

impl Default for EngineConfig {
    fn default() -> (r: Self)
        ensures
            r == (EngineConfig {
                use_integrated_gpu: false,
                shannon_prime: false,
                head_dim: 128,
                optane_path: None,
            }),
    {
        EngineConfig {
            use_integrated_gpu: false,
            shannon_prime: false,
            head_dim: 128,
            optane_path: None,
        }
    }
}

impl EngineConfig {
    /// Shared memory between CPU and integrated GPU, with compression.
    pub fn nuc_svm() -> (r: Self)
        ensures
            r == (EngineConfig {
                use_integrated_gpu: true,
                shannon_prime: true,
                head_dim: 128,
                optane_path: None,
            }),
    {
        EngineConfig {
            use_integrated_gpu: true,
            shannon_prime: true,
            head_dim: 128,
            optane_path: None,
        }
    }

    /// Discrete GPU with compression.
    pub fn discrete_with_compression() -> (r: Self)
        ensures
            r == (EngineConfig {
                use_integrated_gpu: false,
                shannon_prime: true,
                head_dim: 128,
                optane_path: None,
            }),
    {
        EngineConfig {
            use_integrated_gpu: false,
            shannon_prime: true,
            head_dim: 128,
            optane_path: None,
        }
    }

    /// Sets the spill device.
    pub fn with_optane(self, path: PathBuf) -> (r: Self)
        ensures
            r == (EngineConfig { optane_path: Some(path), ..self }),
    {
        let mut cfg = self;
        cfg.optane_path = Some(path);
        cfg
    }
}

} // verus!

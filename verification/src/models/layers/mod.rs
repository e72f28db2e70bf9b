//! Layers shared by the decoders.

pub mod kv_cache;
pub mod shannon_prime;
pub mod tensor;
pub mod vht2_exact;

//! Device choice and cache memory estimates.

use vstd::prelude::*;

verus! {

/// A compute device, by kind and number.
#[derive(Debug, Clone, Copy, PartialEq, Eq, Structural)]
pub enum ComputeDevice {
    IntegratedGpu(usize),
    DiscreteGpu(usize),
    DefaultDevice,
}

/// The device that shares memory with the CPU.
pub fn select_svm_device() -> (r: ComputeDevice)
    ensures
        r == ComputeDevice::IntegratedGpu(0),
{
    ComputeDevice::IntegratedGpu(0)
}

/// The device that a name on the command line stands for.
pub open spec fn named_device(name: Seq<char>) -> ComputeDevice {
    if name == "integrated"@ {
        ComputeDevice::IntegratedGpu(0)
    } else if name == "discrete"@ {
        ComputeDevice::DiscreteGpu(0)
    } else {
        ComputeDevice::DefaultDevice
    }
}

/// The device that a name on the command line stands for.
pub fn select_device(name: &str) -> (r: ComputeDevice)
    ensures
        r == named_device(name@),
{
    let name = name.to_owned();
    if name == "integrated".to_owned() {
        ComputeDevice::IntegratedGpu(0)
    } else if name == "discrete".to_owned() {
        ComputeDevice::DiscreteGpu(0)
    } else {
        ComputeDevice::DefaultDevice
    }
}

/// Bytes of one key or value tensor of single-precision numbers.
pub open spec fn tensor_bytes(n_kv_heads: int, head_dim: int, seq_len: int) -> int {
    n_kv_heads * seq_len * head_dim * 4
}

/// Bytes of the keys and values of all layers.
pub open spec fn cache_bytes(
    n_layers: int,
    n_kv_heads: int,
    head_dim: int,
    seq_len: int,
) -> int {
    n_layers * 2 * tensor_bytes(n_kv_heads, head_dim, seq_len)
}

/// Memory of the whole decoder's cache in bytes: uncompressed, and compressed
/// by the factor 4.6.
pub fn estimate_kv_memory(
    n_layers: usize,
    n_kv_heads: usize,
    head_dim: usize,
    seq_len: usize,
) -> (r: (usize, usize))
    requires
        n_kv_heads * seq_len <= usize::MAX,
        n_kv_heads * seq_len * head_dim <= usize::MAX,
        tensor_bytes(n_kv_heads as int, head_dim as int, seq_len as int) <= usize::MAX,
        n_layers * 2 <= usize::MAX,
        cache_bytes(n_layers as int, n_kv_heads as int, head_dim as int, seq_len as int) * 100
            <= usize::MAX,
    ensures
        r.0 == cache_bytes(n_layers as int, n_kv_heads as int, head_dim as int, seq_len as int),
        r.1 == r.0 * 100 / 460,
        23 * r.1 <= 5 * r.0 < 23 * (r.1 + 1),
{
    proof {
        assert(0 <= n_kv_heads * seq_len) by (nonlinear_arith)
            requires
                n_kv_heads >= 0,
                seq_len >= 0,
        ;
        assert(0 <= n_kv_heads * seq_len * head_dim) by (nonlinear_arith)
            requires
                0 <= n_kv_heads * seq_len,
                head_dim >= 0,
        ;
        let per = tensor_bytes(n_kv_heads as int, head_dim as int, seq_len as int);
        assert(0 <= n_layers * 2 * per) by (nonlinear_arith)
            requires
                n_layers >= 0,
                per >= 0,
        ;
    }
    let per_tensor: usize = n_kv_heads * seq_len * head_dim * 4;
    let uncompressed: usize = n_layers * 2 * per_tensor;
    let compressed: usize = uncompressed * 100 / 460;
    (uncompressed, compressed)
}

/// The estimate grows in proportion to the length of the sequence.
pub proof fn lemma_cache_bytes_is_linear(
    n_layers: int,
    n_kv_heads: int,
    head_dim: int,
    seq_len: int,
)
    ensures
        cache_bytes(n_layers, n_kv_heads, head_dim, seq_len) == seq_len * cache_bytes(
            n_layers,
            n_kv_heads,
            head_dim,
            1,
        ),
{
    let a = n_layers * 2;
    assert(a * (n_kv_heads * seq_len * head_dim * 4) == seq_len * (a * (n_kv_heads * 1 * head_dim
        * 4))) by (nonlinear_arith);
}

/// Two names choose a GPU, each its own kind and the first of it; every other
/// name leaves the choice to the system.
pub proof fn lemma_device_names(name: Seq<char>)
    ensures
        named_device(name) == ComputeDevice::IntegratedGpu(0) <==> name == "integrated"@,
        named_device(name) == ComputeDevice::DiscreteGpu(0) <==> name == "discrete"@,
        named_device(name) == ComputeDevice::DefaultDevice <==> name != "integrated"@ && name
            != "discrete"@,
{
    reveal_strlit("integrated");
    reveal_strlit("discrete");
    assert("integrated"@.len() == 10 && "discrete"@.len() == 8);
}

/// The cache takes eight bytes for every layer, head, position and dimension:
/// four for a key and four for a value.
pub proof fn lemma_cache_bytes_per_element(
    n_layers: int,
    n_kv_heads: int,
    head_dim: int,
    seq_len: int,
)
    ensures
        cache_bytes(n_layers, n_kv_heads, head_dim, seq_len) == 8 * (n_layers * n_kv_heads
            * head_dim * seq_len),
{
    assert(n_layers * 2 * (n_kv_heads * seq_len * head_dim * 4) == 8 * (n_layers * n_kv_heads
        * head_dim * seq_len)) by (nonlinear_arith);
}

} // verus!

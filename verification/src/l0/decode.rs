//! Decode pipeline: cache size, launch shapes, padding.

use crate::audio::chunks::copy_range;
use crate::l0::kernel::{groups_for, matmul_groups, ze_group_count_t};
use crate::l0::usm::{
    elements, lanes, lanes_written, lemma_read_after_write, vector_at, write_at, KvLayout,
    UsmKvCache,
};
use crate::models::layers::shannon_prime::{
    codec_ok, is_roundtrip, only_twos_and_threes, roundtrip_kv_vector, roundtrip_vectors,
    vector_fits, vector_of, vectors_related, BandConfig,
};
use crate::models::layers::vht2_exact::{
    computes_exactly, keeps_numbers, lemma_roundtrip_loses_only_by_quantising, numbers, Roots,
};
use vstd::arithmetic::power2::pow2;
use vstd::prelude::*;

verus! {

/// Size of the cache of the whole decoder.
#[derive(Debug, Clone)]
pub struct L0DecodeConfig {
    pub batch: usize,
    pub kv_heads: usize,
    pub max_seq_len: usize,
    pub head_dim: usize,
    pub band_config: BandConfig,
}

/// Kernels kept ready: the most products in one submission.
pub const KERNEL_POOL: usize = 3;

/// A product of `[b, m, k]` activations with quantised `[n, k]` weights.
#[derive(Debug, Clone, Copy, PartialEq, Eq, Structural)]
pub struct MatmulShape {
    pub b: u32,
    pub m: u32,
    pub k: u32,
    pub n: u32,
}

/// What a kernel launch needs besides the buffers.
#[derive(Debug, Clone, Copy, PartialEq, Eq, Structural)]
pub struct MatmulLaunch {
    pub shape: MatmulShape,
    pub blocks_per_row: u32,
    pub groups: ze_group_count_t,
}

/// The launch of a product.
pub fn matmul_launch(shape: MatmulShape) -> (r: MatmulLaunch)
    requires
        shape.n + 15 <= u32::MAX,
        shape.b * shape.m + 15 <= u32::MAX,
    ensures
        r.shape == shape,
        r.blocks_per_row == shape.k / 32,
        r.groups.groupCountX == groups_for(shape.n as int),
        r.groups.groupCountY == groups_for(shape.b * shape.m),
        r.groups.groupCountZ == 1,
{
    MatmulLaunch {
        shape,
        blocks_per_row: shape.k / 32,
        groups: matmul_groups(shape.b, shape.m, shape.n),
    }
}

/// Whether that many products fit into one submission.
pub fn batch_fits(ops: usize) -> (r: bool)
    ensures
        r == (ops <= KERNEL_POOL),
        r == (ops <= 3),
{
    ops <= KERNEL_POOL
}

/// A power of two.
pub open spec fn is_pow2(n: int) -> bool
    decreases n,
{
    n == 1 || (n > 1 && n % 2 == 0 && is_pow2(n / 2))
}

/// The length a vector is padded to for the transform: the smallest power of
/// two that is not smaller.
pub fn padded_len(n: usize) -> (r: usize)
    requires
        1 <= n <= usize::MAX / 2 + 1,
    ensures
        is_pow2(r as int),
        n <= r,
        r < 2 * n,
{
    let mut p: usize = 1;
    while p < n
        invariant
            1 <= n <= usize::MAX / 2 + 1,
            is_pow2(p as int),
            p < 2 * n,
            p >= 1,
        decreases 2 * n - p,
    {
        assert((2 * p) / 2 == p);
        p = p * 2;
    }
    p
}

/// A power of two is not padded.
pub proof fn lemma_pow2_is_not_padded(n: int, r: int)
    requires
        is_pow2(n),
        is_pow2(r),
        n <= r < 2 * n,
    ensures
        r == n,
    decreases n,
{
    if n > 1 {
        lemma_pow2_is_not_padded(n / 2, r / 2);
    }
}

/// A power of two has no other prime factor.
proof fn lemma_pow2_has_only_twos(n: int)
    requires
        is_pow2(n),
    ensures
        only_twos_and_threes(n as nat),
    decreases n,
{
    if n > 1 {
        lemma_pow2_has_only_twos(n / 2);
    }
}

// ---------------------------------------------------------------------------
// Compressed cache entries
// ---------------------------------------------------------------------------

/// `after` is `before` with `data`, every vector of it compressed and
/// decompressed, written at position `s` of all lanes.
pub open spec fn roundtrip_written<
    T,
    F2: Fn(T, T) -> (T, T),
    F3: Fn(T, T, T) -> (T, T, T),
    Q: Fn(Vec<T>, i32) -> Vec<T>,
>(
    layout: KvLayout,
    before: Seq<T>,
    after: Seq<T>,
    s: int,
    data: Seq<T>,
    cfg: BandConfig,
    f2: F2,
    f3: F3,
    q: Q,
) -> bool {
    exists|stored: Seq<T>|
        #![trigger lanes_written(layout, before, after, 0, lanes(layout), s, stored)]
        {
            &&& vectors_related(
                data,
                stored,
                cfg.head_dim as int,
                |a: Seq<T>, b: Seq<T>| is_roundtrip(a, b, cfg, f2, f3, q),
            )
            &&& lanes_written(layout, before, after, 0, lanes(layout), s, stored)
        }
}

/// Appends one key and one value vector per lane, each compressed and
/// decompressed first.
pub fn append_kv_with_vht2<
    T: Copy,
    F2: Fn(T, T) -> (T, T),
    F3: Fn(T, T, T) -> (T, T, T),
    Q: Fn(Vec<T>, i32) -> Vec<T>,
>(
    cache: &mut UsmKvCache<T>,
    key_data: &[T],
    value_data: &[T],
    cfg: &BandConfig,
    f2: &F2,
    f3: &F3,
    q: &Q,
)
    requires
        old(cache).wf(),
        old(cache).current_len < old(cache).layout.max_seq_len,
        key_data@.len() == lanes(old(cache).layout) * old(cache).layout.head_dim,
        value_data@.len() == lanes(old(cache).layout) * old(cache).layout.head_dim,
        lanes(old(cache).layout) <= usize::MAX,
        codec_ok(*f2, *f3, *q),
        vector_fits(old(cache).layout.head_dim as nat, *cfg),
    ensures
        final(cache).wf(),
        final(cache).layout == old(cache).layout,
        final(cache).current_len == old(cache).current_len + 1,
        roundtrip_written(
            old(cache).layout,
            old(cache).key@,
            final(cache).key@,
            old(cache).current_len as int,
            key_data@,
            *cfg,
            *f2,
            *f3,
            *q,
        ),
        roundtrip_written(
            old(cache).layout,
            old(cache).value@,
            final(cache).value@,
            old(cache).current_len as int,
            value_data@,
            *cfg,
            *f2,
            *f3,
            *q,
        ),
{
    proof {
        vstd::arithmetic::div_mod::lemma_mod_multiples_basic(
            lanes(cache.layout),
            cfg.head_dim as int,
        );
    }
    let key = roundtrip_vectors(key_data, cfg, f2, f3, q);
    let value = roundtrip_vectors(value_data, cfg, f2, f3, q);
    cache.append_kv(key.as_slice(), value.as_slice());
}

/// `s` followed by `fill` up to length `n`.
pub open spec fn padded<T>(s: Seq<T>, fill: T, n: int) -> Seq<T> {
    s + Seq::new((n - s.len()) as nat, |i: int| fill)
}

/// The bands that a padded vector of `n` values is compressed with.
pub open spec fn is_padded_config(cfg: BandConfig, n: int) -> bool {
    &&& cfg.n_bands == 4
    &&& cfg.band_bits@ == seq![5u8, 5u8, 4u8, 3u8]
    &&& cfg.head_dim == n
}

/// `after` is `before` compressed and decompressed: with the bands given where
/// its length is a power of two, otherwise padded to one and cut off again.
pub open spec fn is_slice_roundtrip<
    T,
    F2: Fn(T, T) -> (T, T),
    F3: Fn(T, T, T) -> (T, T, T),
    Q: Fn(Vec<T>, i32) -> Vec<T>,
>(before: Seq<T>, after: Seq<T>, cfg: BandConfig, fill: T, f2: F2, f3: F3, q: Q) -> bool {
    &&& after.len() == before.len()
    &&& is_pow2(before.len() as int) ==> is_roundtrip(before, after, cfg, f2, f3, q)
    &&& !is_pow2(before.len() as int) ==> exists|wide: Seq<T>, c: BandConfig|
        #![trigger is_padded_config(c, wide.len() as int)]
        {
            &&& is_pow2(wide.len() as int)
            &&& before.len() <= wide.len() < 2 * before.len()
            &&& is_padded_config(c, wide.len() as int)
            &&& is_roundtrip(padded(before, fill, wide.len() as int), wide, c, f2, f3, q)
            &&& after == wide.subrange(0, before.len() as int)
        }
}

/// Compresses and decompresses a vector in place, whatever its length.
pub fn vht2_compress_slice<
    T: Copy,
    F2: Fn(T, T) -> (T, T),
    F3: Fn(T, T, T) -> (T, T, T),
    Q: Fn(Vec<T>, i32) -> Vec<T>,
>(slice: &mut [T], cfg: &BandConfig, fill: T, f2: &F2, f3: &F3, q: &Q)
    requires
        1 <= old(slice)@.len() <= usize::MAX / 2 + 1,
        codec_ok(*f2, *f3, *q),
        is_pow2(old(slice)@.len() as int) ==> vector_fits(old(slice)@.len(), *cfg),
    ensures
        is_slice_roundtrip(old(slice)@, final(slice)@, *cfg, fill, *f2, *f3, *q),
{
    let n: usize = slice.len();
    let ghost before = slice@;
    let wide_len: usize = padded_len(n);
    proof {
        if is_pow2(n as int) {
            lemma_pow2_is_not_padded(n as int, wide_len as int);
        }
        lemma_pow2_has_only_twos(wide_len as int);
    }
    if wide_len == n {
        roundtrip_kv_vector(slice, cfg, f2, f3, q);
    } else {
        let mut wide: Vec<T> = copy_range(slice, 0, n);
        let mut i: usize = n;
        assert(wide@ =~= padded(before, fill, n as int));
        while i < wide_len
            invariant
                n == before.len(),
                n <= i <= wide_len,
                wide@ == padded(before, fill, i as int),
            decreases wide_len - i,
        {
            wide.push(fill);
            i = i + 1;
            assert(wide@ =~= padded(before, fill, i as int));
        }
        let wide_cfg = BandConfig::default_k(wide_len);
        roundtrip_kv_vector(wide.as_mut_slice(), &wide_cfg, f2, f3, q);
        let cut = copy_range(wide.as_slice(), 0, n);
        write_at(slice, 0, cut.as_slice());
        proof {
            assert(slice@ =~= wide@.subrange(0, n as int));
            assert(is_padded_config(wide_cfg, wide@.len() as int));
        }
    }
}

/// The powers of two are the powers of two.
pub proof fn lemma_powers_of_two(k: nat, n: int)
    ensures
        is_pow2(pow2(k) as int),
        is_pow2(n) ==> exists|j: nat| n == #[trigger] pow2(j),
        is_pow2(n) ==> n >= 1,
{
    lemma_pow2_is_power(k);
    if is_pow2(n) {
        let j = lemma_power_of(n);
        assert(n == pow2(j));
    }
}

proof fn lemma_pow2_is_power(k: nat)
    ensures
        is_pow2(pow2(k) as int),
    decreases k,
{
    if k == 0 {
        vstd::arithmetic::power2::lemma2_to64();
    } else {
        lemma_pow2_is_power((k - 1) as nat);
        vstd::arithmetic::power2::lemma_pow2_unfold(k);
        vstd::arithmetic::power2::lemma_pow2_pos((k - 1) as nat);
    }
}

proof fn lemma_power_of(n: int) -> (j: nat)
    requires
        is_pow2(n),
    ensures
        n == pow2(j),
        n >= 1,
    decreases n,
{
    if n == 1 {
        vstd::arithmetic::power2::lemma2_to64();
        0
    } else {
        let j = lemma_power_of(n / 2);
        vstd::arithmetic::power2::lemma_pow2_unfold(j + 1);
        j + 1
    }
}

/// A padded vector starts with the vector itself and goes on with the filling,
/// up to the length asked for.
pub proof fn lemma_padding_follows_the_vector<T>(s: Seq<T>, fill: T, n: int)
    requires
        s.len() <= n,
    ensures
        padded(s, fill, n).len() == n,
        padded(s, fill, n).take(s.len() as int) == s,
        forall|i: int| s.len() <= i < n ==> #[trigger] padded(s, fill, n)[i] == fill,
{
    assert(padded(s, fill, n).take(s.len() as int) =~= s);
}

/// Whatever the length of a vector, quantisation is all that its compression
/// loses: where the butterflies compute without rounding and the quantiser
/// keeps the numbers, every value comes back.
pub proof fn lemma_slice_roundtrip_loses_only_by_quantising<
    T,
    F2: Fn(T, T) -> (T, T),
    F3: Fn(T, T, T) -> (T, T, T),
    Q: Fn(Vec<T>, i32) -> Vec<T>,
>(
    before: Seq<T>,
    after: Seq<T>,
    cfg: BandConfig,
    fill: T,
    f2: F2,
    f3: F3,
    q: Q,
    val: spec_fn(T) -> real,
    k: Roots,
)
    requires
        is_slice_roundtrip(before, after, cfg, fill, f2, f3, q),
        is_pow2(before.len() as int) ==> vector_fits(before.len(), cfg),
        computes_exactly(f2, f3, val, k),
        k.exact(),
        keeps_numbers(q, val),
    ensures
        numbers(after, val) == numbers(before, val),
{
    if is_pow2(before.len() as int) {
        lemma_roundtrip_loses_only_by_quantising(before, after, cfg, f2, f3, q, val, k);
    } else {
        let (wide, c) = choose|wide: Seq<T>, c: BandConfig|
            #![trigger is_padded_config(c, wide.len() as int)]
            {
                &&& is_pow2(wide.len() as int)
                &&& before.len() <= wide.len() < 2 * before.len()
                &&& is_padded_config(c, wide.len() as int)
                &&& is_roundtrip(padded(before, fill, wide.len() as int), wide, c, f2, f3, q)
                &&& after == wide.subrange(0, before.len() as int)
            };
        let full = padded(before, fill, wide.len() as int);
        lemma_pow2_has_only_twos(wide.len() as int);
        assert(vector_fits(full.len(), c));
        lemma_roundtrip_loses_only_by_quantising(full, wide, c, f2, f3, q, val, k);
        assert forall|i: int| 0 <= i < before.len() implies val(#[trigger] after[i]) == val(
            before[i],
        ) by {
            assert(numbers(wide, val)[i] == numbers(full, val)[i]);
        }
        assert(numbers(after, val) =~= numbers(before, val));
    }
}

/// A compressed write fills the present position of every lane, each with its
/// own vector compressed and decompressed, and leaves all other positions as
/// they were.
pub proof fn lemma_roundtrip_written_fills_the_present<
    T,
    F2: Fn(T, T) -> (T, T),
    F3: Fn(T, T, T) -> (T, T, T),
    Q: Fn(Vec<T>, i32) -> Vec<T>,
>(
    layout: KvLayout,
    before: Seq<T>,
    after: Seq<T>,
    s: int,
    data: Seq<T>,
    cfg: BandConfig,
    f2: F2,
    f3: F3,
    q: Q,
    l: int,
    t: int,
)
    requires
        roundtrip_written(layout, before, after, s, data, cfg, f2, f3, q),
        before.len() == elements(layout),
        data.len() == lanes(layout) * layout.head_dim,
        cfg.head_dim == layout.head_dim,
        layout.head_dim > 0,
        0 <= l < lanes(layout),
        0 <= s < layout.max_seq_len,
        0 <= t < layout.max_seq_len,
    ensures
        after.len() == before.len(),
        t != s ==> vector_at(layout, after, l, t) == vector_at(layout, before, l, t),
        is_roundtrip(
            data.subrange(l * layout.head_dim, l * layout.head_dim + layout.head_dim),
            vector_at(layout, after, l, s),
            cfg,
            f2,
            f3,
            q,
        ),
{
    let hd = layout.head_dim as int;
    let stored = choose|stored: Seq<T>|
        #![trigger lanes_written(layout, before, after, 0, lanes(layout), s, stored)]
        {
            &&& vectors_related(
                data,
                stored,
                cfg.head_dim as int,
                |a: Seq<T>, b: Seq<T>| is_roundtrip(a, b, cfg, f2, f3, q),
            )
            &&& lanes_written(layout, before, after, 0, lanes(layout), s, stored)
        };
    lemma_read_after_write(layout, before, after, 0, lanes(layout), s, stored, l, t);
    lemma_read_after_write(layout, before, after, 0, lanes(layout), s, stored, l, s);
    vstd::arithmetic::div_mod::lemma_div_by_multiple(lanes(layout), hd);
    let rel = |a: Seq<T>, b: Seq<T>| is_roundtrip(a, b, cfg, f2, f3, q);
    assert(rel(vector_of(data, hd, l), vector_of(stored, hd, l)));
}

} // verus!

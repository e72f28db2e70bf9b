//! Key/value cache of a decoder.
//!
//! A dynamic cache appends to what it holds. A pre-allocated cache writes into
//! buffers of a fixed length and hands out the part filled so far. To the
//! attention both look the same.

use crate::models::layers::shannon_prime::{
    codec_ok, is_roundtrip, roundtrip_kv_tensor, tensors_related, vector_fits, ShannonPrimeConfig,
};
use crate::models::layers::tensor::{
    lemma_assign_extends_prefix, lemma_slice_of_cat, lemma_span, KvModel, KvTensor,
};
use vstd::prelude::*;

verus! {

/// Key/value cache of one layer.
#[derive(Debug, Clone)]
pub struct KVCache<T> {
    pub k: Option<KvTensor<T>>,
    pub v: Option<KvTensor<T>>,
    /// Positions filled, in pre-allocated mode.
    pub len: usize,
    /// Positions allocated; 0 in dynamic mode.
    pub capacity: usize,
    /// What the buffers are filled with where nothing was written.
    pub fill: Option<T>,
    /// Compression that new keys and values go through, if any.
    pub shannon_prime: Option<ShannonPrimeConfig>,
}

/// What a cache holds.
#[verifier::ext_equal]
pub struct CacheModel<T> {
    pub k: Option<KvModel<T>>,
    pub v: Option<KvModel<T>>,
    pub len: nat,
    pub capacity: nat,
    pub fill: Option<T>,
    pub shannon_prime: Option<ShannonPrimeConfig>,
}

pub open spec fn view_of<T>(t: Option<KvTensor<T>>) -> Option<KvModel<T>> {
    match t {
        Some(t) => Some(t@),
        None => None,
    }
}

/// The tensor fits the one held, if there is one.
pub open spec fn fits_held<T>(held: Option<KvModel<T>>, new: KvModel<T>) -> bool {
    held matches Some(h) ==> h.fits(new)
}

/// What is held with `new` appended.
pub open spec fn appended<T>(held: Option<KvModel<T>>, new: KvModel<T>) -> KvModel<T> {
    match held {
        Some(h) => h.cat(new),
        None => new,
    }
}

/// The appended tensor is within machine limits.
pub open spec fn append_fits<T>(held: Option<KvModel<T>>, new: KvModel<T>) -> bool {
    held matches Some(h) ==> h.seq + new.seq <= usize::MAX && (h.seq + new.seq) * h.head_dim
        <= usize::MAX
}

/// The last `window` positions.
pub open spec fn windowed<T>(held: Option<KvModel<T>>, window: nat) -> Option<KvModel<T>> {
    match held {
        Some(h) => if h.seq > window {
            Some(h.slice((h.seq - window) as nat, h.seq))
        } else {
            Some(h)
        },
        None => None,
    }
}

impl<T> CacheModel<T> {
    /// Tensors are well formed; a pre-allocated cache has both buffers at
    /// their full length.
    pub open spec fn wf(self) -> bool {
        &&& self.k matches Some(k) ==> k.wf()
        &&& self.v matches Some(v) ==> v.wf()
        &&& self.capacity > 0 ==> {
            &&& self.k is Some
            &&& self.v is Some
            &&& self.fill is Some
            &&& self.k->0.fits(self.v->0)
            &&& self.k->0.seq == self.capacity
            &&& self.v->0.seq == self.capacity
            &&& self.len <= self.capacity
        }
    }

    /// New keys and values of these shapes can be taken.
    pub open spec fn accepts(self, k: KvModel<T>, v: KvModel<T>) -> bool {
        &&& fits_held(self.k, k)
        &&& fits_held(self.v, v)
        &&& self.capacity > 0 ==> k.seq == v.seq && self.len + k.seq <= self.capacity
    }

    /// The cache with them is within machine limits.
    pub open spec fn grown_fits(self, k: KvModel<T>, v: KvModel<T>) -> bool {
        self.capacity == 0 ==> append_fits(self.k, k) && append_fits(self.v, v)
    }

    /// The cache with new keys and values.
    pub open spec fn updated(self, k: KvModel<T>, v: KvModel<T>) -> CacheModel<T> {
        if self.capacity > 0 {
            CacheModel {
                k: Some(self.k->0.assign(self.len, k)),
                v: Some(self.v->0.assign(self.len, v)),
                len: self.len + k.seq,
                ..self
            }
        } else {
            CacheModel { k: Some(appended(self.k, k)), v: Some(appended(self.v, v)), ..self }
        }
    }

    /// Keys `k` are stored as `stored`: as they are, or compressed and
    /// decompressed.
    pub open spec fn stores_key<
        F2: Fn(T, T) -> (T, T),
        F3: Fn(T, T, T) -> (T, T, T),
        Q: Fn(Vec<T>, i32) -> Vec<T>,
    >(self, k: KvModel<T>, stored: KvModel<T>, f2: F2, f3: F3, q: Q) -> bool {
        match self.shannon_prime {
            Some(c) => tensors_related(
                k,
                stored,
                |a: Seq<T>, b: Seq<T>| is_roundtrip(a, b, c.k_config, f2, f3, q),
            ),
            None => stored == k,
        }
    }

    /// Values `v` are stored as `stored`: as they are, or compressed and
    /// decompressed.
    pub open spec fn stores_value<
        F2: Fn(T, T) -> (T, T),
        F3: Fn(T, T, T) -> (T, T, T),
        Q: Fn(Vec<T>, i32) -> Vec<T>,
    >(self, v: KvModel<T>, stored: KvModel<T>, f2: F2, f3: F3, q: Q) -> bool {
        match self.shannon_prime {
            Some(c) => tensors_related(
                v,
                stored,
                |a: Seq<T>, b: Seq<T>| is_roundtrip(a, b, c.v_config, f2, f3, q),
            ),
            None => stored == v,
        }
    }

    /// The keys that attention sees.
    pub open spec fn visible_k(self) -> KvModel<T> {
        if self.capacity > 0 {
            self.k->0.slice(0, self.len)
        } else {
            self.k->0
        }
    }

    /// The values that attention sees.
    pub open spec fn visible_v(self) -> KvModel<T> {
        if self.capacity > 0 {
            self.v->0.slice(0, self.len)
        } else {
            self.v->0
        }
    }

    /// Positions held.
    pub open spec fn seq_len(self) -> nat {
        if self.capacity > 0 {
            self.len
        } else {
            match self.k {
                Some(k) => k.seq,
                None => 0,
            }
        }
    }

    /// The cache with nothing in it; buffers keep their length.
    pub open spec fn cleared(self) -> CacheModel<T> {
        if self.capacity > 0 {
            let k = self.k->0;
            let blank = KvModel::filled(k.batch, k.heads, k.seq, k.head_dim, self.fill->0);
            CacheModel { k: Some(blank), v: Some(blank), len: 0, ..self }
        } else {
            CacheModel { k: None, v: None, len: 0, ..self }
        }
    }
}

impl<T> View for KVCache<T> {
    type V = CacheModel<T>;

    open spec fn view(&self) -> CacheModel<T> {
        CacheModel {
            k: view_of(self.k),
            v: view_of(self.v),
            len: self.len as nat,
            capacity: self.capacity as nat,
            fill: self.fill,
            shannon_prime: self.shannon_prime,
        }
    }
}

impl<T> KVCache<T> {
    /// Well-formed, with tensors within machine limits.
    pub open spec fn wf(self) -> bool {
        &&& self@.wf()
        &&& self.k matches Some(k) ==> k.wf()
        &&& self.v matches Some(v) ==> v.wf()
    }
}

/// An empty dynamic cache.
pub open spec fn empty_cache<T>(shannon_prime: Option<ShannonPrimeConfig>) -> CacheModel<T> {
    CacheModel { k: None, v: None, len: 0, capacity: 0, fill: None, shannon_prime }
}

/// An empty cache with buffers for `max_seq` positions.
pub open spec fn blank_cache<T>(
    batch: nat,
    heads: nat,
    max_seq: nat,
    head_dim: nat,
    fill: T,
    shannon_prime: Option<ShannonPrimeConfig>,
) -> CacheModel<T> {
    let blank = KvModel::filled(batch, heads, max_seq, head_dim, fill);
    CacheModel {
        k: Some(blank),
        v: Some(blank),
        len: 0,
        capacity: max_seq,
        fill: Some(fill),
        shannon_prime,
    }
}

/// The configuration where it is enabled.
pub open spec fn if_enabled(config: ShannonPrimeConfig) -> Option<ShannonPrimeConfig> {
    if config.enabled {
        Some(config)
    } else {
        None
    }
}

fn append_tensor<T: Copy>(held: &Option<KvTensor<T>>, new: KvTensor<T>) -> (r: KvTensor<T>)
    requires
        held matches Some(h) ==> h.wf(),
        new.wf(),
        fits_held(view_of(*held), new@),
        append_fits(view_of(*held), new@),
    ensures
        r.wf(),
        r@ == appended(view_of(*held), new@),
{
    match held {
        None => new,
        Some(h) => h.cat(&new),
    }
}

fn window_tensor<T: Copy>(held: &mut Option<KvTensor<T>>, window: usize)
    requires
        *old(held) matches Some(h) ==> h.wf(),
    ensures
        *final(held) matches Some(h) ==> h.wf(),
        view_of(*final(held)) == windowed(view_of(*old(held)), window as nat),
{
    let cut = match held {
        Some(h) => {
            if h.seq > window {
                Some(h.slice(h.seq - window, h.seq))
            } else {
                None
            }
        },
        None => None,
    };
    if cut.is_some() {
        *held = cut;
    }
}

impl<T: Copy> KVCache<T> {
    /// An empty dynamic cache.
    pub fn new() -> (r: Self)
        ensures
            r.wf(),
            r@ == empty_cache::<T>(None),
            r.k is None,
            r.v is None,
    {
        KVCache { k: None, v: None, len: 0, capacity: 0, fill: None, shannon_prime: None }
    }

    /// An empty dynamic cache whose updates are compressed.
    pub fn new_with_shannon_prime(config: ShannonPrimeConfig) -> (r: Self)
        ensures
            r.wf(),
            r@ == empty_cache::<T>(if_enabled(config)),
    {
        KVCache {
            k: None,
            v: None,
            len: 0,
            capacity: 0,
            fill: None,
            shannon_prime: if config.enabled {
                Some(config)
            } else {
                None
            },
        }
    }

    /// A cache with buffers for `max_seq` positions, filled with `fill`.
    pub fn preallocated(batch: usize, heads: usize, max_seq: usize, head_dim: usize, fill: T) -> (r:
        Self)
        requires
            batch * heads <= usize::MAX,
            max_seq * head_dim <= usize::MAX,
        ensures
            r.wf(),
            r@ == blank_cache(
                batch as nat,
                heads as nat,
                max_seq as nat,
                head_dim as nat,
                fill,
                None,
            ),
    {
        KVCache {
            k: Some(KvTensor::filled(batch, heads, max_seq, head_dim, fill)),
            v: Some(KvTensor::filled(batch, heads, max_seq, head_dim, fill)),
            len: 0,
            capacity: max_seq,
            fill: Some(fill),
            shannon_prime: None,
        }
    }

    /// A cache with buffers for `max_seq` positions whose updates are
    /// compressed.
    pub fn preallocated_with_shannon_prime(
        batch: usize,
        heads: usize,
        max_seq: usize,
        head_dim: usize,
        fill: T,
        config: ShannonPrimeConfig,
    ) -> (r: Self)
        requires
            batch * heads <= usize::MAX,
            max_seq * head_dim <= usize::MAX,
        ensures
            r.wf(),
            r@ == blank_cache(
                batch as nat,
                heads as nat,
                max_seq as nat,
                head_dim as nat,
                fill,
                if_enabled(config),
            ),
    {
        KVCache {
            k: Some(KvTensor::filled(batch, heads, max_seq, head_dim, fill)),
            v: Some(KvTensor::filled(batch, heads, max_seq, head_dim, fill)),
            len: 0,
            capacity: max_seq,
            fill: Some(fill),
            shannon_prime: if config.enabled {
                Some(config)
            } else {
                None
            },
        }
    }

    /// Whether the cache appends rather than writing into fixed buffers.
    pub fn is_dynamic(&self) -> (r: bool)
        ensures
            r == (self@.capacity == 0),
    {
        self.capacity == 0
    }

    /// Appends keys and returns all keys held. Only for a dynamic cache.
    pub fn update_k(&mut self, k: KvTensor<T>) -> (r: KvTensor<T>)
        requires
            old(self).wf(),
            old(self)@.capacity == 0,
            k.wf(),
            fits_held(old(self)@.k, k@),
            append_fits(old(self)@.k, k@),
        ensures
            final(self).wf(),
            r.wf(),
            r@ == appended(old(self)@.k, k@),
            final(self)@ == (CacheModel { k: Some(r@), ..old(self)@ }),
    {
        let full = append_tensor(&self.k, k);
        let r = full.duplicate();
        self.k = Some(full);
        proof {
            assert(full@.wf());
        }
        r
    }

    /// Appends values and returns all values held. Only for a dynamic cache.
    pub fn update_v(&mut self, v: KvTensor<T>) -> (r: KvTensor<T>)
        requires
            old(self).wf(),
            old(self)@.capacity == 0,
            v.wf(),
            fits_held(old(self)@.v, v@),
            append_fits(old(self)@.v, v@),
        ensures
            final(self).wf(),
            r.wf(),
            r@ == appended(old(self)@.v, v@),
            final(self)@ == (CacheModel { v: Some(r@), ..old(self)@ }),
    {
        let full = append_tensor(&self.v, v);
        let r = full.duplicate();
        self.v = Some(full);
        proof {
            assert(full@.wf());
        }
        r
    }

    /// Adds keys and values to a cache without compression and returns what
    /// attention sees of each.
    pub fn update(&mut self, k: KvTensor<T>, v: KvTensor<T>) -> (r: (KvTensor<T>, KvTensor<T>))
        requires
            old(self).wf(),
            old(self)@.shannon_prime is None,
            old(self)@.accepts(k@, v@),
            old(self)@.grown_fits(k@, v@),
            k.wf(),
            v.wf(),
        ensures
            final(self).wf(),
            r.0.wf(),
            r.1.wf(),
            final(self)@ == old(self)@.updated(k@, v@),
            r.0@ == final(self)@.visible_k(),
            r.1@ == final(self)@.visible_v(),
    {
        self.store(k, v)
    }

    /// Adds keys and values and returns what attention sees of each. Where the
    /// cache compresses, every new vector is compressed and decompressed
    /// first: keys with the bands for keys, values with those for values.
    pub fn update_compressed<
        F2: Fn(T, T) -> (T, T),
        F3: Fn(T, T, T) -> (T, T, T),
        Q: Fn(Vec<T>, i32) -> Vec<T>,
    >(&mut self, k: KvTensor<T>, v: KvTensor<T>, f2: &F2, f3: &F3, q: &Q) -> (r: (
        KvTensor<T>,
        KvTensor<T>,
    ))
        requires
            old(self).wf(),
            old(self)@.accepts(k@, v@),
            old(self)@.grown_fits(k@, v@),
            k.wf(),
            v.wf(),
            codec_ok(*f2, *f3, *q),
            old(self)@.shannon_prime matches Some(c) ==> vector_fits(k.head_dim as nat, c.k_config)
                && vector_fits(v.head_dim as nat, c.v_config),
        ensures
            final(self).wf(),
            r.0.wf(),
            r.1.wf(),
            exists|k_stored: KvModel<T>, v_stored: KvModel<T>|
                #![trigger old(self)@.updated(k_stored, v_stored)]
                {
                    &&& old(self)@.stores_key(k@, k_stored, *f2, *f3, *q)
                    &&& old(self)@.stores_value(v@, v_stored, *f2, *f3, *q)
                    &&& final(self)@ == old(self)@.updated(k_stored, v_stored)
                },
            r.0@ == final(self)@.visible_k(),
            r.1@ == final(self)@.visible_v(),
    {
        let ghost before = self@;
        let (k_stored, v_stored) = match &self.shannon_prime {
            Some(sp) => (
                roundtrip_kv_tensor(&k, &sp.k_config, f2, f3, q),
                roundtrip_kv_tensor(&v, &sp.v_config, f2, f3, q),
            ),
            None => (k, v),
        };
        proof {
            assert(before.stores_key(k@, k_stored@, *f2, *f3, *q));
            assert(before.stores_value(v@, v_stored@, *f2, *f3, *q));
        }
        let r = self.store(k_stored, v_stored);
        assert(self@ == before.updated(k_stored@, v_stored@));
        r
    }

    fn store(&mut self, k: KvTensor<T>, v: KvTensor<T>) -> (r: (KvTensor<T>, KvTensor<T>))
        requires
            old(self).wf(),
            old(self)@.accepts(k@, v@),
            old(self)@.grown_fits(k@, v@),
            k.wf(),
            v.wf(),
        ensures
            final(self).wf(),
            r.0.wf(),
            r.1.wf(),
            final(self)@ == old(self)@.updated(k@, v@),
            r.0@ == final(self)@.visible_k(),
            r.1@ == final(self)@.visible_v(),
    {
        if self.capacity > 0 {
            let ghost before = self@;
            let pos: usize = self.len;
            let new_len: usize = pos + k.seq;
            proof {
                lemma_assign_extends_prefix(before.k->0, before.len, k@);
                lemma_assign_extends_prefix(before.v->0, before.len, v@);
            }
            let mut k_buf = self.k.take().unwrap();
            let mut v_buf = self.v.take().unwrap();
            k_buf.assign(pos, &k);
            v_buf.assign(pos, &v);
            self.len = new_len;
            let k_view = k_buf.slice(0, new_len);
            let v_view = v_buf.slice(0, new_len);
            self.k = Some(k_buf);
            self.v = Some(v_buf);
            (k_view, v_view)
        } else {
            let k_full = self.update_k(k);
            let v_full = self.update_v(v);
            (k_full, v_full)
        }
    }

    /// Positions held.
    pub fn seq_len(&self) -> (r: usize)
        requires
            self.wf(),
        ensures
            r == self@.seq_len(),
    {
        if self.capacity > 0 {
            self.len
        } else {
            match &self.k {
                Some(k) => k.seq,
                None => 0,
            }
        }
    }

    /// Forgets everything.
    pub fn reset(&mut self)
        requires
            old(self).wf(),
        ensures
            final(self).wf(),
            final(self)@ == old(self)@.cleared(),
    {
        if self.capacity > 0 {
            let blank = match (&self.k, self.fill) {
                (Some(k), Some(fill)) => {
                    proof {
                        assert(k@.lanes.len() == k.batch * k.heads);
                        assert(k.lanes.len() == k.lanes@.len());
                    }
                    Some(
                        (
                            KvTensor::filled(k.batch, k.heads, k.seq, k.head_dim, fill),
                            KvTensor::filled(k.batch, k.heads, k.seq, k.head_dim, fill),
                        ),
                    )
                },
                _ => None,
            };
            if let Some((k, v)) = blank {
                self.k = Some(k);
                self.v = Some(v);
            }
            self.len = 0;
        } else {
            self.k = None;
            self.v = None;
            self.len = 0;
        }
    }

    /// Whether updates are compressed.
    pub fn is_shannon_prime_enabled(&self) -> (r: bool)
        ensures
            r == (self@.shannon_prime is Some),
    {
        self.shannon_prime.is_some()
    }

    /// The compression that new keys and values go through, if any.
    pub fn shannon_prime(&self) -> (r: Option<&ShannonPrimeConfig>)
        ensures
            match (r, self@.shannon_prime) {
                (Some(a), Some(b)) => *a == b,
                (None, None) => true,
                _ => false,
            },
    {
        match &self.shannon_prime {
            Some(config) => Some(config),
            None => None,
        }
    }

    /// Drops all but the last `window_size` positions. Only for a dynamic
    /// cache.
    pub fn apply_sliding_window(&mut self, window_size: usize)
        requires
            old(self).wf(),
            old(self)@.capacity == 0,
        ensures
            final(self).wf(),
            final(self)@ == (CacheModel {
                k: windowed(old(self)@.k, window_size as nat),
                v: windowed(old(self)@.v, window_size as nat),
                ..old(self)@
            }),
    {
        window_tensor(&mut self.k, window_size);
        window_tensor(&mut self.v, window_size);
    }
}

impl<T: Copy> Default for KVCache<T> {
    fn default() -> (r: Self)
        ensures
            r.wf(),
            r@ == empty_cache::<T>(None),
    {
        Self::new()
    }
}

/// Both modes show attention the same: after an update it sees what it saw
/// before, followed by the new keys and values.
pub proof fn lemma_update_appends<T>(cache: CacheModel<T>, k: KvModel<T>, v: KvModel<T>)
    requires
        cache.wf(),
        cache.accepts(k, v),
        k.wf(),
        v.wf(),
        cache.k is Some,
        cache.v is Some,
    ensures
        cache.updated(k, v).visible_k() == cache.visible_k().cat(k),
        cache.updated(k, v).visible_v() == cache.visible_v().cat(v),
        cache.updated(k, v).seq_len() == cache.seq_len() + k.seq,
{
    if cache.capacity > 0 {
        lemma_assign_extends_prefix(cache.k->0, cache.len, k);
        lemma_assign_extends_prefix(cache.v->0, cache.len, v);
    }
}

/// After a sliding window no more than `window` positions are left, and they
/// are the latest ones.
pub proof fn lemma_window_keeps_latest<T>(held: KvModel<T>, window: nat)
    ensures
        windowed(Some(held), window)->0.seq == if held.seq > window {
            window
        } else {
            held.seq
        },
        held.seq > window ==> windowed(Some(held), window) == Some(
            held.slice((held.seq - window) as nat, held.seq),
        ),
{
}

/// The caches of all layers.
#[derive(Debug)]
pub struct LayerCaches<T> {
    pub caches: Vec<KVCache<T>>,
}

impl<T> LayerCaches<T> {
    /// Every cache is well formed.
    pub open spec fn wf(self) -> bool {
        forall|i: int| 0 <= i < self.caches@.len() ==> (#[trigger] self.caches@[i]).wf()
    }

    /// Every cache holds what `f` says of its number.
    pub open spec fn each(self, n: int, f: spec_fn(int) -> CacheModel<T>) -> bool {
        &&& self.caches@.len() == n
        &&& forall|i: int| 0 <= i < n ==> (#[trigger] self.caches@[i])@ == f(i)
    }
}

impl<T: Copy> LayerCaches<T> {
    /// Dynamic caches for `n_layers` layers.
    pub fn new(n_layers: usize) -> (r: Self)
        ensures
            r.wf(),
            r.each(n_layers as int, |i: int| empty_cache::<T>(None)),
    {
        let mut caches: Vec<KVCache<T>> = Vec::new();
        let mut i: usize = 0;
        while i < n_layers
            invariant
                i <= n_layers,
                caches@.len() == i,
                forall|j: int|
                    0 <= j < i ==> (#[trigger] caches@[j]).wf() && caches@[j]@ == empty_cache::<
                        T,
                    >(None),
            decreases n_layers - i,
        {
            caches.push(KVCache::new());
            i = i + 1;
        }
        LayerCaches { caches }
    }

    /// Pre-allocated caches for `n_layers` layers.
    pub fn new_preallocated(
        n_layers: usize,
        batch: usize,
        n_kv_heads: usize,
        max_seq: usize,
        head_dim: usize,
        fill: T,
    ) -> (r: Self)
        requires
            batch * n_kv_heads <= usize::MAX,
            max_seq * head_dim <= usize::MAX,
        ensures
            r.wf(),
            r.each(
                n_layers as int,
                |i: int|
                    blank_cache(
                        batch as nat,
                        n_kv_heads as nat,
                        max_seq as nat,
                        head_dim as nat,
                        fill,
                        None,
                    ),
            ),
    {
        let mut caches: Vec<KVCache<T>> = Vec::new();
        let mut i: usize = 0;
        while i < n_layers
            invariant
                i <= n_layers,
                batch * n_kv_heads <= usize::MAX,
                max_seq * head_dim <= usize::MAX,
                caches@.len() == i,
                forall|j: int|
                    0 <= j < i ==> (#[trigger] caches@[j]).wf() && caches@[j]@ == blank_cache(
                        batch as nat,
                        n_kv_heads as nat,
                        max_seq as nat,
                        head_dim as nat,
                        fill,
                        None,
                    ),
            decreases n_layers - i,
        {
            caches.push(KVCache::preallocated(batch, n_kv_heads, max_seq, head_dim, fill));
            i = i + 1;
        }
        LayerCaches { caches }
    }

    /// Dynamic caches whose updates are compressed as configured.
    pub fn new_shannon_prime(n_layers: usize, config: ShannonPrimeConfig) -> (r: Self)
        ensures
            r.wf(),
            r.caches@.len() == n_layers,
            forall|i: int|
                0 <= i < n_layers ==> {
                    &&& (#[trigger] r.caches@[i])@.shannon_prime is Some == config.enabled
                    &&& r.caches@[i]@ == empty_cache::<T>(r.caches@[i]@.shannon_prime)
                    &&& r.caches@[i]@.shannon_prime matches Some(c) ==> same_config(c, config)
                },
    {
        let mut caches: Vec<KVCache<T>> = Vec::new();
        let mut i: usize = 0;
        while i < n_layers
            invariant
                i <= n_layers,
                caches@.len() == i,
                forall|j: int|
                    0 <= j < i ==> {
                        &&& (#[trigger] caches@[j]).wf()
                        &&& caches@[j]@.shannon_prime is Some == config.enabled
                        &&& caches@[j]@ == empty_cache::<T>(caches@[j]@.shannon_prime)
                        &&& caches@[j]@.shannon_prime matches Some(c) ==> same_config(c, config)
                    },
            decreases n_layers - i,
        {
            caches.push(KVCache::new_with_shannon_prime(config.duplicate()));
            i = i + 1;
        }
        LayerCaches { caches }
    }

    /// Pre-allocated caches whose updates are compressed.
    pub fn new_preallocated_shannon_prime(
        n_layers: usize,
        batch: usize,
        n_kv_heads: usize,
        max_seq: usize,
        head_dim: usize,
        fill: T,
        config: ShannonPrimeConfig,
    ) -> (r: Self)
        requires
            batch * n_kv_heads <= usize::MAX,
            max_seq * head_dim <= usize::MAX,
        ensures
            r.wf(),
            r.caches@.len() == n_layers,
            forall|i: int|
                0 <= i < n_layers ==> {
                    &&& (#[trigger] r.caches@[i])@.shannon_prime is Some == config.enabled
                    &&& r.caches@[i]@ == blank_cache(
                        batch as nat,
                        n_kv_heads as nat,
                        max_seq as nat,
                        head_dim as nat,
                        fill,
                        r.caches@[i]@.shannon_prime,
                    )
                    &&& r.caches@[i]@.shannon_prime matches Some(c) ==> same_config(c, config)
                },
    {
        let mut caches: Vec<KVCache<T>> = Vec::new();
        let mut i: usize = 0;
        while i < n_layers
            invariant
                i <= n_layers,
                batch * n_kv_heads <= usize::MAX,
                max_seq * head_dim <= usize::MAX,
                caches@.len() == i,
                forall|j: int|
                    0 <= j < i ==> {
                        &&& (#[trigger] caches@[j]).wf()
                        &&& caches@[j]@.shannon_prime is Some == config.enabled
                        &&& caches@[j]@ == blank_cache(
                            batch as nat,
                            n_kv_heads as nat,
                            max_seq as nat,
                            head_dim as nat,
                            fill,
                            caches@[j]@.shannon_prime,
                        )
                        &&& caches@[j]@.shannon_prime matches Some(c) ==> same_config(c, config)
                    },
            decreases n_layers - i,
        {
            caches.push(
                KVCache::preallocated_with_shannon_prime(
                    batch,
                    n_kv_heads,
                    max_seq,
                    head_dim,
                    fill,
                    config.duplicate(),
                ),
            );
            i = i + 1;
        }
        LayerCaches { caches }
    }

    /// The cache of a layer, if there is such a layer.
    pub fn get_mut(&mut self, layer: usize) -> (r: Option<&mut KVCache<T>>)
        ensures
            match r {
                Some(c) => {
                    &&& layer < old(self).caches@.len()
                    &&& *c == old(self).caches@[layer as int]
                    &&& final(self).caches@ == old(self).caches@.update(layer as int, *final(c))
                },
                None => layer >= old(self).caches@.len() && *final(self) == *old(self),
            },
    {
        if layer < self.caches.len() {
            Some(&mut self.caches[layer])
        } else {
            None
        }
    }

    /// Positions held by the first layer; 0 without layers.
    pub fn seq_len(&self) -> (r: usize)
        requires
            self.wf(),
        ensures
            r == if self.caches@.len() == 0 {
                0
            } else {
                self.caches@[0]@.seq_len()
            },
    {
        if self.caches.len() == 0 {
            0
        } else {
            self.caches[0].seq_len()
        }
    }

    /// Forgets everything in every layer.
    pub fn reset(&mut self)
        requires
            old(self).wf(),
        ensures
            final(self).wf(),
            final(self).each(
                old(self).caches@.len() as int,
                |i: int| old(self).caches@[i]@.cleared(),
            ),
    {
        let ghost start = self.caches@;
        let n: usize = self.caches.len();
        let mut i: usize = 0;
        while i < n
            invariant
                n == start.len(),
                i <= n,
                self.caches@.len() == n,
                forall|j: int| 0 <= j < n ==> (#[trigger] self.caches@[j]).wf(),
                forall|j: int| 0 <= j < i ==> (#[trigger] self.caches@[j])@ == start[j]@.cleared(),
                forall|j: int| i <= j < n ==> #[trigger] self.caches@[j] == start[j],
            decreases n - i,
        {
            self.caches[i].reset();
            i = i + 1;
        }
    }

    /// Keeps the last `window_size` positions of every layer. Only for dynamic
    /// caches.
    pub fn apply_sliding_window(&mut self, window_size: usize)
        requires
            old(self).wf(),
            forall|i: int|
                0 <= i < old(self).caches@.len() ==> (#[trigger] old(self).caches@[i])@.capacity
                    == 0,
        ensures
            final(self).wf(),
            final(self).each(
                old(self).caches@.len() as int,
                |i: int|
                    CacheModel {
                        k: windowed(old(self).caches@[i]@.k, window_size as nat),
                        v: windowed(old(self).caches@[i]@.v, window_size as nat),
                        ..old(self).caches@[i]@
                    },
            ),
    {
        let ghost start = self.caches@;
        let n: usize = self.caches.len();
        let mut i: usize = 0;
        while i < n
            invariant
                n == start.len(),
                i <= n,
                self.caches@.len() == n,
                forall|j: int| 0 <= j < n ==> (#[trigger] start[j])@.capacity == 0,
                forall|j: int| 0 <= j < n ==> (#[trigger] self.caches@[j]).wf(),
                forall|j: int|
                    0 <= j < i ==> (#[trigger] self.caches@[j])@ == (CacheModel {
                        k: windowed(start[j]@.k, window_size as nat),
                        v: windowed(start[j]@.v, window_size as nat),
                        ..start[j]@
                    }),
                forall|j: int| i <= j < n ==> #[trigger] self.caches@[j] == start[j],
            decreases n - i,
        {
            self.caches[i].apply_sliding_window(window_size);
            i = i + 1;
        }
    }
}

/// The two configurations say the same.
pub open spec fn same_config(a: ShannonPrimeConfig, b: ShannonPrimeConfig) -> bool {
    &&& a.enabled == b.enabled
    &&& a.head_dim == b.head_dim
    &&& a.k_config.n_bands == b.k_config.n_bands
    &&& a.k_config.band_bits@ == b.k_config.band_bits@
    &&& a.k_config.head_dim == b.k_config.head_dim
    &&& a.v_config.n_bands == b.v_config.n_bands
    &&& a.v_config.band_bits@ == b.v_config.band_bits@
    &&& a.v_config.head_dim == b.v_config.head_dim
}

impl ShannonPrimeConfig {
    /// A copy that says the same.
    pub fn duplicate(&self) -> (r: Self)
        ensures
            same_config(r, *self),
    {
        let k_bits = self.k_config.band_bits.clone();
        let v_bits = self.v_config.band_bits.clone();
        assert(k_bits@ =~= self.k_config.band_bits@);
        assert(v_bits@ =~= self.v_config.band_bits@);
        ShannonPrimeConfig {
            enabled: self.enabled,
            k_config: crate::models::layers::shannon_prime::BandConfig {
                n_bands: self.k_config.n_bands,
                band_bits: k_bits,
                head_dim: self.k_config.head_dim,
            },
            v_config: crate::models::layers::shannon_prime::BandConfig {
                n_bands: self.v_config.n_bands,
                band_bits: v_bits,
                head_dim: self.v_config.head_dim,
            },
            head_dim: self.head_dim,
        }
    }
}

/// A window of as many positions as were added last holds exactly those.
pub proof fn lemma_window_is_what_came_last<T>(old_part: KvModel<T>, new: KvModel<T>)
    requires
        old_part.wf(),
        new.wf(),
        old_part.fits(new),
        old_part.seq > 0,
    ensures
        windowed(Some(old_part.cat(new)), new.seq) == Some(new),
        windowed(Some(new), new.seq) == Some(new),
        windowed(Some(old_part.cat(new)), old_part.seq + new.seq) == Some(old_part.cat(new)),
{
    lemma_slice_of_cat(old_part, new);
}

/// The cache after a run of updates.
pub open spec fn updated_all<T>(
    cache: CacheModel<T>,
    run: Seq<(KvModel<T>, KvModel<T>)>,
) -> CacheModel<T>
    decreases run.len(),
{
    if run.len() == 0 {
        cache
    } else {
        updated_all(cache, run.drop_last()).updated(run.last().0, run.last().1)
    }
}

/// The keys of a run, one after the other.
pub open spec fn all_keys<T>(run: Seq<(KvModel<T>, KvModel<T>)>) -> KvModel<T>
    decreases run.len(),
{
    if run.len() <= 1 {
        run[0].0
    } else {
        all_keys(run.drop_last()).cat(run.last().0)
    }
}

/// The values of a run, one after the other.
pub open spec fn all_values<T>(run: Seq<(KvModel<T>, KvModel<T>)>) -> KvModel<T>
    decreases run.len(),
{
    if run.len() <= 1 {
        run[0].1
    } else {
        all_values(run.drop_last()).cat(run.last().1)
    }
}

/// Positions of a run in all.
pub open spec fn all_positions<T>(run: Seq<(KvModel<T>, KvModel<T>)>) -> nat
    decreases run.len(),
{
    if run.len() == 0 {
        0
    } else {
        all_positions(run.drop_last()) + run.last().0.seq
    }
}

/// Every update of the run has the same shape, as many keys as values.
pub open spec fn even_run<T>(
    run: Seq<(KvModel<T>, KvModel<T>)>,
    batch: nat,
    heads: nat,
    head_dim: nat,
) -> bool {
    forall|i: int|
        #![trigger run[i]]
        0 <= i < run.len() ==> {
            &&& run[i].0.wf()
            &&& run[i].1.wf()
            &&& run[i].0.seq == run[i].1.seq
            &&& run[i].0.batch == batch && run[i].1.batch == batch
            &&& run[i].0.heads == heads && run[i].1.heads == heads
            &&& run[i].0.head_dim == head_dim && run[i].1.head_dim == head_dim
        }
}

proof fn lemma_blank_prefix<T>(blank: KvModel<T>, k: KvModel<T>)
    requires
        blank.wf(),
        k.wf(),
        blank.fits(k),
    ensures
        blank.slice(0, 0).cat(k) == k,
{
    let x = blank.slice(0, 0).cat(k);
    assert(0 * blank.head_dim == 0) by (nonlinear_arith);
    assert forall|l: int| 0 <= l < x.lanes.len() implies x.lanes[l] == k.lanes[l] by {
        assert(blank.lanes[l].len() == blank.seq * blank.head_dim);
        lemma_span(0, 0, blank.seq as int, blank.head_dim as int);
        assert(x.lanes[l] =~= k.lanes[l]);
    }
    assert(x.lanes =~= k.lanes);
    assert(x =~= k);
}

proof fn lemma_filled_wf<T>(batch: nat, heads: nat, seq: nat, head_dim: nat, value: T)
    ensures
        KvModel::filled(batch, heads, seq, head_dim, value).wf(),
{
    assert(0 <= batch * heads && 0 <= seq * head_dim) by (nonlinear_arith);
}

/// Nothing that was put into a cache is lost or moved, in either mode: after
/// any run of updates attention sees the keys and the values of all of them,
/// one after the other, and the cache counts their positions.
pub proof fn lemma_cache_holds_every_update<T>(
    run: Seq<(KvModel<T>, KvModel<T>)>,
    batch: nat,
    heads: nat,
    max_seq: nat,
    head_dim: nat,
    fill: T,
    codec: Option<ShannonPrimeConfig>,
)
    requires
        run.len() > 0,
        even_run(run, batch, heads, head_dim),
        max_seq > 0,
        all_positions(run) <= max_seq,
    ensures
        ({
            let grown = updated_all(empty_cache::<T>(codec), run);
            let written = updated_all(
                blank_cache(batch, heads, max_seq, head_dim, fill, codec),
                run,
            );
            &&& grown.visible_k() == all_keys(run)
            &&& grown.visible_v() == all_values(run)
            &&& written.visible_k() == all_keys(run)
            &&& written.visible_v() == all_values(run)
            &&& grown.seq_len() == all_positions(run)
            &&& written.seq_len() == all_positions(run)
            &&& grown.wf() && written.wf()
            &&& grown.capacity == 0 && written.capacity == max_seq
        }),
    decreases run.len(),
{
    let c0 = empty_cache::<T>(codec);
    let c1 = blank_cache(batch, heads, max_seq, head_dim, fill, codec);
    let init = run.drop_last();
    let (k, v) = run.last();
    assert(run[run.len() - 1] == run.last());
    lemma_filled_wf(batch, heads, max_seq, head_dim, fill);
    if run.len() == 1 {
        assert(init =~= Seq::empty());
        assert(all_positions(init) == 0);
        assert(updated_all(c0, init) == c0);
        assert(updated_all(c1, init) == c1);
        lemma_update_appends(c1, k, v);
        lemma_blank_prefix(c1.k->0, k);
        lemma_blank_prefix(c1.v->0, v);
        lemma_assign_extends_prefix(c1.k->0, 0, k);
        lemma_assign_extends_prefix(c1.v->0, 0, v);
    } else {
        assert forall|i: int|
            #![trigger init[i]]
            0 <= i < init.len() implies {
            &&& init[i].0.wf()
            &&& init[i].1.wf()
            &&& init[i].0.seq == init[i].1.seq
            &&& init[i].0.batch == batch && init[i].1.batch == batch
            &&& init[i].0.heads == heads && init[i].1.heads == heads
            &&& init[i].0.head_dim == head_dim && init[i].1.head_dim == head_dim
        } by {
            assert(init[i] == run[i]);
        }
        lemma_cache_holds_every_update(init, batch, heads, max_seq, head_dim, fill, codec);
        let grown = updated_all(c0, init);
        let written = updated_all(c1, init);
        lemma_run_shape(init, batch, heads, head_dim);
        lemma_update_appends(grown, k, v);
        assert(written.accepts(k, v)) by {
            lemma_written_shape(c1, init);
        }
        lemma_update_appends(written, k, v);
        lemma_slice_of_cat(all_keys(init), k);
        lemma_slice_of_cat(all_values(init), v);
        lemma_assign_extends_prefix(written.k->0, written.len, k);
        lemma_assign_extends_prefix(written.v->0, written.len, v);
    }
}

proof fn lemma_written_shape<T>(cache: CacheModel<T>, run: Seq<(KvModel<T>, KvModel<T>)>)
    requires
        cache.capacity > 0,
        cache.k is Some,
        cache.v is Some,
    ensures
        updated_all(cache, run).k matches Some(k) && k.fits(cache.k->0) && k.seq == cache.k->0.seq,
        updated_all(cache, run).v matches Some(v) && v.fits(cache.v->0) && v.seq == cache.v->0.seq,
        updated_all(cache, run).capacity == cache.capacity,
    decreases run.len(),
{
    if run.len() > 0 {
        lemma_written_shape(cache, run.drop_last());
    }
}

proof fn lemma_run_shape<T>(
    run: Seq<(KvModel<T>, KvModel<T>)>,
    batch: nat,
    heads: nat,
    head_dim: nat,
)
    requires
        run.len() > 0,
        even_run(run, batch, heads, head_dim),
    ensures
        all_keys(run).wf(),
        all_values(run).wf(),
        all_keys(run).batch == batch && all_values(run).batch == batch,
        all_keys(run).heads == heads && all_values(run).heads == heads,
        all_keys(run).head_dim == head_dim && all_values(run).head_dim == head_dim,
    decreases run.len(),
{
    assert(run[run.len() - 1] == run.last());
    if run.len() > 1 {
        let init = run.drop_last();
        assert forall|i: int|
            #![trigger init[i]]
            0 <= i < init.len() implies {
            &&& init[i].0.wf()
            &&& init[i].1.wf()
            &&& init[i].0.seq == init[i].1.seq
            &&& init[i].0.batch == batch && init[i].1.batch == batch
            &&& init[i].0.heads == heads && init[i].1.heads == heads
            &&& init[i].0.head_dim == head_dim && init[i].1.head_dim == head_dim
        } by {
            assert(init[i] == run[i]);
        }
        lemma_run_shape(init, batch, heads, head_dim);
        lemma_slice_of_cat(all_keys(init), run.last().0);
        lemma_slice_of_cat(all_values(init), run.last().1);
    } else {
        assert(run[0].0.wf());
    }
}

/// A reset cache is as good as new: it holds no position, keeps its mode,
/// buffers and compression, and attention sees of the next update that update
/// alone.
pub proof fn lemma_reset_cache_is_like_new<T>(
    cache: CacheModel<T>,
    k: KvModel<T>,
    v: KvModel<T>,
)
    requires
        cache.wf(),
        cache.cleared().accepts(k, v),
        k.wf(),
        v.wf(),
    ensures
        cache.cleared().seq_len() == 0,
        cache.cleared().capacity == cache.capacity,
        cache.cleared().shannon_prime == cache.shannon_prime,
        cache.cleared().updated(k, v).visible_k() == k,
        cache.cleared().updated(k, v).visible_v() == v,
        cache.cleared().updated(k, v).seq_len() == k.seq,
{
    let c = cache.cleared();
    if cache.capacity > 0 {
        let b = cache.k->0;
        lemma_filled_wf(b.batch, b.heads, b.seq, b.head_dim, cache.fill->0);
        lemma_update_appends(c, k, v);
        lemma_blank_prefix(c.k->0, k);
        lemma_blank_prefix(c.v->0, v);
    }
}

/// Keys go through the bands for keys alone and values through those for
/// values alone: two caches whose key bands agree store keys alike, whatever
/// their value bands, and the other way round.
pub proof fn lemma_keys_and_values_have_their_own_bands<
    T,
    F2: Fn(T, T) -> (T, T),
    F3: Fn(T, T, T) -> (T, T, T),
    Q: Fn(Vec<T>, i32) -> Vec<T>,
>(
    a: CacheModel<T>,
    b: CacheModel<T>,
    x: KvModel<T>,
    stored: KvModel<T>,
    f2: F2,
    f3: F3,
    q: Q,
)
    requires
        a.shannon_prime is Some,
        b.shannon_prime is Some,
    ensures
        a.shannon_prime->0.k_config == b.shannon_prime->0.k_config ==> a.stores_key(
            x,
            stored,
            f2,
            f3,
            q,
        ) == b.stores_key(x, stored, f2, f3, q),
        a.shannon_prime->0.v_config == b.shannon_prime->0.v_config ==> a.stores_value(
            x,
            stored,
            f2,
            f3,
            q,
        ) == b.stores_value(x, stored, f2, f3, q),
        a.shannon_prime->0.k_config == b.shannon_prime->0.v_config ==> a.stores_key(
            x,
            stored,
            f2,
            f3,
            q,
        ) == b.stores_value(x, stored, f2, f3, q),
{
}

/// Without compression everything is stored as it came.
pub proof fn lemma_plain_cache_stores_as_is<
    T,
    F2: Fn(T, T) -> (T, T),
    F3: Fn(T, T, T) -> (T, T, T),
    Q: Fn(Vec<T>, i32) -> Vec<T>,
>(c: ShannonPrimeConfig, x: KvModel<T>, stored: KvModel<T>, f2: F2, f3: F3, q: Q)
    requires
        !c.enabled,
    ensures
        empty_cache::<T>(if_enabled(c)).stores_key(x, stored, f2, f3, q) <==> stored == x,
        empty_cache::<T>(if_enabled(c)).stores_value(x, stored, f2, f3, q) <==> stored == x,
{
}

/// A new cache holds nothing, in either mode, and a pre-allocated one has room
/// for what it was made for, all of it still blank.
pub proof fn lemma_new_caches_are_empty<T>(
    batch: nat,
    heads: nat,
    max_seq: nat,
    head_dim: nat,
    fill: T,
    codec: Option<ShannonPrimeConfig>,
    l: int,
    i: int,
)
    requires
        0 <= l < batch * heads,
        0 <= i < max_seq * head_dim,
    ensures
        ({
            let c = empty_cache::<T>(codec);
            c.k is None && c.v is None && c.len == 0 && c.seq_len() == 0 && c.capacity == 0
                && c.shannon_prime == codec
        }),
        ({
            let c = blank_cache(batch, heads, max_seq, head_dim, fill, codec);
            &&& c.seq_len() == 0
            &&& c.capacity == max_seq
            &&& c.shannon_prime == codec
            &&& c.k->0.seq == max_seq && c.v->0.seq == max_seq
            &&& c.k->0.lanes[l][i] == fill && c.v->0.lanes[l][i] == fill
        }),
{
    assert(max_seq > 0) by (nonlinear_arith)
        requires
            0 < max_seq * head_dim,
            head_dim >= 0,
            max_seq >= 0,
    ;
}

} // verus!

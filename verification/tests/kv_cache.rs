use voxtral_mini_realtime::models::layers::kv_cache::{KVCache, LayerCaches};
use voxtral_mini_realtime::models::layers::shannon_prime::ShannonPrimeConfig;
use voxtral_mini_realtime::models::layers::tensor::KvTensor;

fn zeros(d: [usize; 4]) -> KvTensor<f32> {
    KvTensor::filled(d[0], d[1], d[2], d[3], 0.0)
}

fn ones(d: [usize; 4]) -> KvTensor<f32> {
    KvTensor::filled(d[0], d[1], d[2], d[3], 1.0)
}

#[test]
fn test_kv_cache_empty() {
    let cache: KVCache<f32> = KVCache::new();
    assert!(cache.k.is_none());
    assert!(cache.v.is_none());
    assert_eq!(cache.seq_len(), 0);
}

#[test]
fn test_kv_cache_update() {
    let mut cache: KVCache<f32> = KVCache::new();

    let k1 = zeros([1, 4, 5, 16]);
    let k_out = cache.update_k(k1);
    assert_eq!(k_out.dims(), [1, 4, 5, 16]);
    assert_eq!(cache.seq_len(), 5);

    let k2 = zeros([1, 4, 3, 16]);
    let k_out = cache.update_k(k2);
    assert_eq!(k_out.dims(), [1, 4, 8, 16]);
    assert_eq!(cache.seq_len(), 8);
}

#[test]
fn test_kv_cache_sliding_window() {
    let mut cache: KVCache<f32> = KVCache::new();
    let k = zeros([1, 4, 10, 16]);
    cache.update_k(k);
    assert_eq!(cache.seq_len(), 10);
    cache.apply_sliding_window(5);
    assert_eq!(cache.seq_len(), 5);
}

#[test]
fn test_kv_cache_preallocated() {
    let mut cache: KVCache<f32> = KVCache::preallocated(1, 4, 32, 16, 0.0);
    assert_eq!(cache.seq_len(), 0);

    let (k_out, v_out) = cache.update(ones([1, 4, 5, 16]), ones([1, 4, 5, 16]));
    assert_eq!(k_out.dims(), [1, 4, 5, 16]);
    assert_eq!(v_out.dims(), [1, 4, 5, 16]);
    assert_eq!(cache.seq_len(), 5);

    let (k_out, v_out) = cache.update(ones([1, 4, 1, 16]), ones([1, 4, 1, 16]));
    assert_eq!(k_out.dims(), [1, 4, 6, 16]);
    assert_eq!(v_out.dims(), [1, 4, 6, 16]);
    assert_eq!(cache.seq_len(), 6);

    cache.reset();
    assert_eq!(cache.seq_len(), 0);
}

#[test]
fn test_layer_caches() {
    let mut caches: LayerCaches<f32> = LayerCaches::new(4);
    if let Some(cache) = caches.get_mut(0) {
        let k = zeros([1, 4, 5, 16]);
        let v = zeros([1, 4, 5, 16]);
        cache.update(k, v);
    }
    assert_eq!(caches.caches[0].seq_len(), 5);
    assert_eq!(caches.caches[1].seq_len(), 0);
}

/// A tensor of one head whose values are the position.
fn steps(from: usize, to: usize, hd: usize) -> KvTensor<u32> {
    let mut t = KvTensor::filled(1, 1, to - from, hd, 0u32);
    for s in from..to {
        for d in 0..hd {
            t.lanes[0][(s - from) * hd + d] = s as u32;
        }
    }
    t
}

#[test]
fn both_modes_show_the_same() {
    let mut dynamic: KVCache<u32> = KVCache::default();
    let mut fixed: KVCache<u32> = KVCache::preallocated(1, 1, 8, 2, 99);
    assert!(dynamic.is_dynamic() && !fixed.is_dynamic());
    for (a, b) in [(0, 3), (3, 4), (4, 6)] {
        let (k1, v1) = dynamic.update(steps(a, b, 2), steps(a, b, 2));
        let (k2, v2) = fixed.update(steps(a, b, 2), steps(a, b, 2));
        assert_eq!(k1.lanes, k2.lanes);
        assert_eq!(v1.lanes, v2.lanes);
    }
    let want: Vec<u32> = vec![0, 0, 1, 1, 2, 2, 3, 3, 4, 4, 5, 5];
    assert_eq!(dynamic.k.as_ref().unwrap().lanes[0], want);
    // Unused room keeps its fill; a reset brings it back everywhere.
    assert_eq!(fixed.k.as_ref().unwrap().lanes[0][12..], [99, 99, 99, 99]);
    fixed.reset();
    assert_eq!(fixed.v.as_ref().unwrap().lanes[0], vec![99; 16]);
    dynamic.apply_sliding_window(2);
    assert_eq!(dynamic.k.as_ref().unwrap().lanes[0], vec![4, 4, 5, 5]);
    assert_eq!(dynamic.v.as_ref().unwrap().lanes[0], vec![4, 4, 5, 5]);
    dynamic.apply_sliding_window(7);
    assert_eq!(dynamic.seq_len(), 2);
    dynamic.reset();
    assert!(dynamic.k.is_none() && dynamic.v.is_none());
}

#[test]
fn values_append_on_their_own() {
    let mut cache: KVCache<u32> = KVCache::new();
    cache.update_v(steps(0, 2, 1));
    assert_eq!(cache.update_v(steps(2, 3, 1)).lanes[0], vec![0, 1, 2]);
    assert_eq!(cache.seq_len(), 0);
}

#[test]
fn lanes_stay_apart() {
    let a = KvTensor {
        batch: 2,
        heads: 1,
        seq: 1,
        head_dim: 2,
        lanes: vec![vec![1, 2], vec![3, 4]],
    };
    let b = KvTensor {
        batch: 2,
        heads: 1,
        seq: 1,
        head_dim: 2,
        lanes: vec![vec![5, 6], vec![7, 8]],
    };
    let c = a.cat(&b);
    assert_eq!(c.lanes, vec![vec![1, 2, 5, 6], vec![3, 4, 7, 8]]);
    assert_eq!(c.slice(1, 2).lanes, b.lanes);
    let mut d = c.duplicate();
    d.assign(0, &b);
    assert_eq!(d.lanes, vec![vec![5, 6, 5, 6], vec![7, 8, 7, 8]]);
}

#[test]
fn caches_of_all_layers() {
    let mut caches: LayerCaches<u32> = LayerCaches::new_preallocated(3, 1, 2, 4, 2, 0);
    assert_eq!(caches.seq_len(), 0);
    let kv = || KvTensor::filled(1, 2, 2, 2, 7u32);
    for i in 0..3 {
        caches.get_mut(i).unwrap().update(kv(), kv());
    }
    assert!(caches.get_mut(3).is_none());
    assert_eq!(caches.seq_len(), 2);
    caches.reset();
    assert_eq!(caches.seq_len(), 0);
    let mut dynamic: LayerCaches<u32> =
        LayerCaches::new_shannon_prime(2, ShannonPrimeConfig::new(2));
    for i in 0..2 {
        let cache = dynamic.get_mut(i).unwrap();
        assert!(cache.is_shannon_prime_enabled());
        cache.update_compressed(
            kv(),
            kv(),
            &|a: u32, b: u32| (a, b),
            &|a: u32, b: u32, c: u32| (a, b, c),
            &|band: Vec<u32>, _max: i32| band,
        );
    }
    dynamic.apply_sliding_window(1);
    assert_eq!(dynamic.seq_len(), 1);
    let off: LayerCaches<u32> = LayerCaches::new_preallocated_shannon_prime(
        1,
        1,
        2,
        4,
        2,
        0,
        ShannonPrimeConfig::disabled(2),
    );
    assert!(!off.caches[0].is_shannon_prime_enabled());
    let none: LayerCaches<u32> = LayerCaches::new(0);
    assert_eq!(none.seq_len(), 0);
}

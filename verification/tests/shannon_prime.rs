use voxtral_mini_realtime::models::layers::kv_cache::KVCache;
use voxtral_mini_realtime::models::layers::shannon_prime::{
    butterfly_position, clamp_level, compress_kv_tensor, compress_kv_vector, decompress_kv_tensor,
    decompress_kv_vector, factorize_vht2, max_level, quantize_bands, roundtrip_kv_tensor,
    roundtrip_kv_vector, roundtrip_vectors, supports_len, vht2_inplace, vht2_stages, BandConfig,
    ShannonPrimeConfig, ShannonPrimeKVCache,
};
use voxtral_mini_realtime::models::layers::tensor::KvTensor;

fn pair(a: f32, b: f32) -> (f32, f32) {
    let s = std::f32::consts::FRAC_1_SQRT_2;
    ((a + b) * s, (a - b) * s)
}

fn triple(a: f32, b: f32, c: f32) -> (f32, f32, f32) {
    let s = 1.0 / 3.0_f32.sqrt();
    let u = -0.5 + (3.0_f32.sqrt() / 2.0);
    let v = -0.5 - (3.0_f32.sqrt() / 2.0);
    ((a + b + c) * s, (a + b * u + c * v) * s, (a + b * v + c * u) * s)
}

fn levels(band: Vec<f32>, max: i32) -> Vec<f32> {
    let scale = band.iter().fold(0.0f32, |m, v| m.max(v.abs())).max(1e-8);
    band.iter()
        .map(|v| {
            let q = clamp_level((v * (max as f32 / scale)).round() as i32, max);
            q as f32 / max as f32 * scale
        })
        .collect()
}

fn vht2(data: &mut [f32]) {
    vht2_inplace(data, &pair, &triple);
}

fn max_error(a: &[f32], b: &[f32]) -> f32 {
    a.iter().zip(b).map(|(x, y)| (x - y).abs()).fold(0.0, f32::max)
}

#[test]
fn test_vht2_self_inverse() {
    let original: Vec<f32> = (0..128).map(|i| (i as f32) * 0.1 - 6.4).collect();
    let mut data = original.clone();
    vht2(&mut data);
    assert!((data[0] - original[0]).abs() > 0.01);
    vht2(&mut data);
    for (a, b) in data.iter().zip(original.iter()) {
        assert!((a - b).abs() < 1e-5, "VHT2 round-trip error: {} vs {}", a, b);
    }
}

#[test]
fn test_vht2_energy_preservation() {
    let mut data: Vec<f32> = (0..128)
        .map(|i| ((i * 7 + 13) % 100) as f32 / 50.0 - 1.0)
        .collect();
    let energy_before: f32 = data.iter().map(|x| x * x).sum();
    vht2(&mut data);
    let energy_after: f32 = data.iter().map(|x| x * x).sum();
    let rel_diff = (energy_after - energy_before).abs() / energy_before;
    assert!(rel_diff < 1e-5);
}

#[test]
fn test_band_quantize_roundtrip() {
    let config = BandConfig::default_k(128);
    let original: Vec<f32> = (0..128).map(|i| (i as f32) * 0.05 - 3.2).collect();
    let mut data = original.clone();
    vht2(&mut data);
    quantize_bands(&mut data, &config, &levels);
    vht2(&mut data);
    assert!(
        max_error(&data, &original) < 0.5,
        "Banded quantization error too large: {}",
        max_error(&data, &original)
    );
}

#[test]
fn test_compress_decompress_vector() {
    let config = BandConfig::default_k(128);
    let original: Vec<f32> = (0..128).map(|i| (i as f32) * 0.05 - 3.2).collect();
    let mut compressed = original.clone();
    compress_kv_vector(&mut compressed, &config, &pair, &triple, &levels);
    let mut decompressed = compressed.clone();
    decompress_kv_vector(&mut decompressed, &pair, &triple);
    assert!(
        max_error(&decompressed, &original) < 0.5,
        "Compress/decompress error too large: {}",
        max_error(&decompressed, &original)
    );
}

#[test]
fn test_vht2_composite_96_self_inverse() {
    let original: Vec<f32> = (0..96).map(|i| (i as f32) * 0.1 - 4.8).collect();
    let mut data = original.clone();
    vht2(&mut data);
    assert!((data[0] - original[0]).abs() > 0.01, "Transform should change data");
    vht2(&mut data);
    assert!(max_error(&data, &original) < 1e-4);
}

#[test]
fn test_vht2_composite_96_energy_preservation() {
    let mut data: Vec<f32> = (0..96)
        .map(|i| ((i * 7 + 13) % 100) as f32 / 50.0 - 1.0)
        .collect();
    let energy_before: f32 = data.iter().map(|x| x * x).sum();
    vht2(&mut data);
    let energy_after: f32 = data.iter().map(|x| x * x).sum();
    let rel_diff = (energy_after - energy_before).abs() / energy_before;
    assert!(rel_diff < 1e-4);
}

#[test]
fn test_vht2_composite_compress_decompress_96() {
    let config = BandConfig::default_k(96);
    let original: Vec<f32> = (0..96).map(|i| (i as f32) * 0.05 - 2.4).collect();
    let mut data = original.clone();
    compress_kv_vector(&mut data, &config, &pair, &triple, &levels);
    decompress_kv_vector(&mut data, &pair, &triple);
    assert!(
        max_error(&data, &original) < 0.5,
        "Composite VHT2 compress/decompress error too large: {}",
        max_error(&data, &original)
    );
}

#[test]
fn test_vht2_composite_factorize() {
    let factors = factorize_vht2(96);
    assert_eq!(factors, vec![3, 2, 2, 2, 2, 2]);

    let factors = factorize_vht2(48);
    assert_eq!(factors, vec![3, 2, 2, 2, 2]);

    let factors = factorize_vht2(9);
    assert_eq!(factors, vec![3, 3]);

    let factors = factorize_vht2(128);
    assert_eq!(factors, vec![2, 2, 2, 2, 2, 2, 2]);
}

#[test]
fn test_vht2_composite_dim_9_self_inverse() {
    let original: Vec<f32> = (0..9).map(|i| (i as f32) * 0.5 - 2.0).collect();
    let mut data = original.clone();
    vht2(&mut data);
    vht2(&mut data);
    assert!(max_error(&data, &original) < 1e-4);
}

#[test]
fn transform_of_an_impulse_is_flat() {
    let mut data = vec![0i64; 8];
    data[0] = 1;
    vht2_inplace(
        &mut data,
        &|a: i64, b: i64| (a + b, a - b),
        &|a: i64, b: i64, c: i64| (a, b, c),
    );
    assert_eq!(data, vec![1; 8]);
    let mut step: Vec<i64> = vec![1, 2, 3, 4];
    vht2_inplace(
        &mut step,
        &|a: i64, b: i64| (a + b, a - b),
        &|a: i64, b: i64, c: i64| (a, b, c),
    );
    assert_eq!(step, vec![10, -2, -4, 0]);
}

#[test]
fn supported_lengths() {
    for n in [1, 2, 3, 4, 6, 9, 48, 96, 128, 512] {
        assert!(supports_len(n), "{n}");
        assert_eq!(factorize_vht2(n).iter().product::<usize>(), n);
    }
    for n in [0, 5, 7, 10, 100] {
        assert!(!supports_len(n), "{n}");
    }
}

#[test]
fn stages_touch_every_coefficient_once() {
    for n in [8usize, 9, 48, 96] {
        for stage in vht2_stages(n) {
            let mut seen = vec![0; n];
            for g in 0..n / stage.radix {
                for slot in 0..stage.radix {
                    seen[butterfly_position(stage, n, g, slot)] += 1;
                }
            }
            assert!(seen.iter().all(|&c| c == 1));
        }
    }
    let stages = vht2_stages(12);
    let shape: Vec<(usize, usize)> = stages.iter().map(|s| (s.radix, s.block)).collect();
    assert_eq!(shape, vec![(3, 12), (2, 4), (2, 2)]);
}

#[test]
fn bands_divide_the_vector() {
    let k = BandConfig::default_k(96);
    let spans: Vec<(usize, usize)> = (0..4).map(|b| k.band_span(b)).collect();
    assert_eq!(spans, vec![(0, 24), (24, 24), (48, 24), (72, 24)]);
    // What does not divide goes to the last band.
    let odd = BandConfig::default_k(10);
    let spans: Vec<(usize, usize)> = (0..4).map(|b| odd.band_span(b)).collect();
    assert_eq!(spans, vec![(0, 2), (2, 2), (4, 2), (6, 4)]);
    assert_eq!(BandConfig::default_v(96).band_span(0), (0, 96));
}

#[test]
fn levels_of_bands() {
    assert_eq!(max_level(5), 15);
    assert_eq!(max_level(3), 3);
    assert_eq!(max_level(1), 0);
    assert_eq!(max_level(31), (1 << 30) - 1);
    assert_eq!(clamp_level(-9, 7), -7);
    assert_eq!(clamp_level(9, 7), 7);
    assert_eq!(clamp_level(3, 7), 3);
}

#[test]
fn compression_configurations() {
    let on = ShannonPrimeConfig::new(128);
    assert!(on.enabled);
    assert_eq!(on.k_config.band_bits, vec![5, 5, 4, 3]);
    assert_eq!(on.v_config.band_bits, vec![3]);
    assert!(!ShannonPrimeConfig::disabled(128).enabled);
    let copy = on.duplicate();
    assert_eq!(copy.k_config.band_bits, on.k_config.band_bits);
    let cache: KVCache<f32> = KVCache::new_with_shannon_prime(on);
    assert!(cache.is_shannon_prime_enabled());
    assert_eq!(cache.shannon_prime().unwrap().head_dim, 128);
    let cache: KVCache<f32> = KVCache::new_with_shannon_prime(ShannonPrimeConfig::disabled(128));
    assert!(!cache.is_shannon_prime_enabled());
}

/// Integer stand-ins whose effects can be followed.
fn swap(a: i32, b: i32) -> (i32, i32) {
    (b, a)
}

fn turn(a: i32, b: i32, c: i32) -> (i32, i32, i32) {
    (b, c, a)
}

fn clip(band: Vec<i32>, max: i32) -> Vec<i32> {
    band.into_iter().map(|v| clamp_level(v, max)).collect()
}

#[test]
fn round_trip_goes_there_and_back() {
    let cfg = BandConfig::default_k(4);
    let mut data = vec![100, 2, -100, 7];
    // Two stages of swaps reverse the vector; the bands have one value each.
    compress_kv_vector(&mut data, &cfg, &swap, &turn, &clip);
    assert_eq!(data, vec![7, -15, 2, 3]);
    decompress_kv_vector(&mut data, &swap, &turn);
    assert_eq!(data, vec![3, 2, -15, 7]);
    let mut again = vec![100, 2, -100, 7];
    roundtrip_kv_vector(&mut again, &cfg, &swap, &turn, &clip);
    assert_eq!(again, data);
    assert_eq!(
        roundtrip_vectors(&[100, 2, -100, 7, 0, 0, 0, 99], &cfg, &swap, &turn, &clip),
        vec![3, 2, -15, 7, 0, 0, 0, 15]
    );
}

fn tensor(values: Vec<i32>) -> KvTensor<i32> {
    KvTensor {
        batch: 1,
        heads: 1,
        seq: values.len() / 4,
        head_dim: 4,
        lanes: vec![values],
    }
}

#[test]
fn tensors_are_compressed_vector_by_vector() {
    let cfg = BandConfig::default_k(4);
    let t = tensor(vec![100, 2, -100, 7, 0, 0, 0, 99]);
    let c = compress_kv_tensor(&t, &cfg, &swap, &turn, &clip);
    assert_eq!(c.lanes[0], vec![7, -15, 2, 3, 15, 0, 0, 0]);
    let d = decompress_kv_tensor(&c, &swap, &turn);
    assert_eq!(d.lanes[0], vec![3, 2, -15, 7, 0, 0, 0, 15]);
    assert_eq!(roundtrip_kv_tensor(&t, &cfg, &swap, &turn, &clip).lanes, d.lanes);
}

#[test]
fn compressed_cache_holds_compressed_vectors() {
    let mut cache = ShannonPrimeKVCache::new(ShannonPrimeConfig::new(4));
    let (k, v) = cache.update(
        tensor(vec![100, 2, -100, 7]),
        tensor(vec![100, 2, -100, 7]),
        &swap,
        &turn,
        &clip,
    );
    assert_eq!(k.lanes[0], vec![3, 2, -15, 7]);
    assert_eq!(v.lanes[0], vec![3, 2, -3, 3]);
    assert_eq!(cache.inner.k.as_ref().unwrap().lanes[0], vec![7, -15, 2, 3]);
    let (k, _) = cache.update(
        tensor(vec![0, 0, 0, 99]),
        tensor(vec![0; 4]),
        &swap,
        &turn,
        &clip,
    );
    assert_eq!(k.lanes[0], vec![3, 2, -15, 7, 0, 0, 0, 15]);
    assert_eq!(cache.seq_len(), 2);
    cache.reset();
    assert_eq!(cache.seq_len(), 0);
    let mut plain = ShannonPrimeKVCache::new(ShannonPrimeConfig::disabled(4));
    let (k, _) = plain.update(
        tensor(vec![100, 2, -100, 7]),
        tensor(vec![0; 4]),
        &swap,
        &turn,
        &clip,
    );
    assert_eq!(k.lanes[0], vec![100, 2, -100, 7]);
}

#[test]
fn cache_compresses_what_is_new() {
    let mut cache: KVCache<i32> = KVCache::new_with_shannon_prime(ShannonPrimeConfig::new(4));
    for _ in 0..2 {
        cache.update_compressed(
            tensor(vec![100, 2, -100, 7]),
            tensor(vec![100, 2, -100, 7]),
            &swap,
            &turn,
            &clip,
        );
    }
    assert_eq!(
        cache.k.as_ref().unwrap().lanes[0],
        vec![3, 2, -15, 7, 3, 2, -15, 7]
    );
    assert_eq!(
        cache.v.as_ref().unwrap().lanes[0],
        vec![3, 2, -3, 3, 3, 2, -3, 3]
    );
    let mut plain: KVCache<i32> = KVCache::preallocated(1, 1, 2, 4, 0);
    let (k, _) = plain.update_compressed(
        tensor(vec![100, 2, -100, 7]),
        tensor(vec![0; 4]),
        &swap,
        &turn,
        &clip,
    );
    assert_eq!(k.lanes[0], vec![100, 2, -100, 7]);
}

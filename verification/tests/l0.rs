use voxtral_mini_realtime::l0::decode::{
    append_kv_with_vht2, batch_fits, matmul_launch, padded_len, vht2_compress_slice, MatmulShape,
    KERNEL_POOL,
};
use voxtral_mini_realtime::l0::device::{
    device_name, find_intel, preferred, select_gpu, vendor_name, Candidate, L0Context, L0Device,
};
use voxtral_mini_realtime::l0::kernel::{
    matmul_groups, wgsl_to_spirv, words_to_bytes, L0Kernel, L0Module, WgslError,
};
use voxtral_mini_realtime::l0::q4_decoder::{
    argmax, attention_norm_name, compute_attention, decode_layer, ffn_norm_name, lm_head_name, plan_layer,
    weight_name, write_kv_to_cache, DecoderConfig, LayerBuffer, LayerStep, Weight, TOK_EMBEDDINGS,
};
use voxtral_mini_realtime::l0::shader::is_plain_shader;
use voxtral_mini_realtime::l0::spirv_gen::{
    args_for, generate_vecadd_spirv, next_compiler, OfflineCompiler, OPENCL_Q4_MATMUL,
    OPENCL_VECADD,
};
use voxtral_mini_realtime::l0::usm::{
    alloc_request, layer_lane, write_at, write_lanes, AllocError, KvLayout, UsmAllocator,
    UsmKvCache,
};
use voxtral_mini_realtime::models::layers::shannon_prime::BandConfig;

#[test]
fn groups_cover_the_outputs() {
    let g = matmul_groups(1, 1, 3072);
    assert_eq!((g.groupCountX, g.groupCountY, g.groupCountZ), (192, 1, 1));
    let g = matmul_groups(2, 9, 17);
    assert_eq!((g.groupCountX, g.groupCountY), (2, 2));
    let l = matmul_launch(MatmulShape {
        b: 1,
        m: 1,
        k: 3072,
        n: 8192,
    });
    assert_eq!(l.blocks_per_row, 96);
    assert_eq!(l.groups.groupCountX, 512);
    assert!(batch_fits(KERNEL_POOL) && !batch_fits(4));
}

#[test]
fn vectors_are_padded_to_powers_of_two() {
    let got: Vec<usize> = [1, 2, 3, 96, 128, 129].iter().map(|&n| padded_len(n)).collect();
    assert_eq!(got, vec![1, 2, 4, 128, 128, 256]);
}

#[test]
fn words_become_bytes_lowest_first() {
    let words = [0x0723_0203, 1, 0xfedc_ba98];
    let bytes = words_to_bytes(&words);
    assert_eq!(bytes, vec![3, 2, 0x23, 7, 1, 0, 0, 0, 0x98, 0xba, 0xdc, 0xfe]);
    for (i, w) in words.iter().enumerate() {
        let b = &bytes[4 * i..4 * i + 4];
        assert_eq!(u32::from_le_bytes([b[0], b[1], b[2], b[3]]), *w);
    }
}

#[test]
fn shaders_are_translated() {
    let source = "@compute @workgroup_size(16, 16, 1) fn main() {}";
    let spirv = wgsl_to_spirv(source).unwrap();
    assert_eq!(&spirv[..4], &[3, 2, 0x23, 7]);
    // Version 1.3.
    assert_eq!(&spirv[4..8], &[0, 3, 1, 0]);
    assert_eq!(spirv.len() % 4, 0);
    assert_eq!(wgsl_to_spirv(source).unwrap(), spirv);
    let more = wgsl_to_spirv("@compute @workgroup_size(8) fn main() { var x: u32 = 1u; x += 2u; }");
    assert_ne!(more.unwrap(), spirv);
}

#[test]
fn plain_shaders_are_told_apart() {
    let shader = "
        @group(0) @binding(0) var<storage, read> weights: array<u32>;
        @group(0) @binding(1) var<storage, read> x: array<f32>;
        @group(0) @binding(2) var<storage, read_write> y: array<f32>;
        @group(0) @binding(3) var<uniform> k: u32;
        @compute @workgroup_size(64)
        fn main(@builtin(global_invocation_id) id: vec3<u32>) {
            var acc = 0.0;
            for (var i = 0u; i < k && i <= 4095u; i = i + 1u) {
                let nibble = (weights[(id.x * k + i) / 8u] >> (4u * (i & 7u))) & 15u;
                acc = acc + (f32(nibble) - 8.0) * x[i];
            }
            workgroupBarrier();
            y[id.x] = acc;
        }";
    assert!(is_plain_shader(shader));
    assert_eq!(&wgsl_to_spirv(shader).unwrap()[..4], &[3, 2, 0x23, 7]);
    let refused = [
        "const v = select(vec4<f32>(vec2<f32>(1.0, 2.0), 3.0, 4.0), vec4<f32>(1.0, 2.0, 3.0, 4.0), true);",
        "const w = select(vec2<f32>(1.0, 2.0), vec2<f32>(3.0, 4.0), array<bool, 2>(true, false));",
        "struct S { a: f32 }",
        "var<private> a: array<f32, 4>;",
        "const m = mat2x2<f32>(1.0, 2.0, 3.0, 4.0);",
        "fn f() { var a = 1; let p = &a; }",
        "fn f() { var a = 1; if &a == &a { } }",
        "fn f() { var a = 1; var b = a &&& a; }",
        "const x = 1.5h;",
        "const x = 7li;",
        "fn f() { let x = unpack2x16float(0u); }",
        "const \u{e9} = 1;",
    ];
    for source in refused {
        assert!(!is_plain_shader(source), "{source}");
        assert!(matches!(wgsl_to_spirv(source), Err(WgslError::NotPlain)));
    }
    assert!(is_plain_shader("const selection = 1; const my_array_ = selection & 3;"));
    assert!(!is_plain_shader(&"a".repeat(1_025)));
    assert!(is_plain_shader(&"a;".repeat(8_192)));
    assert!(!is_plain_shader(&"a;".repeat(8_193)));
}

#[test]
fn broken_shaders_are_refused() {
    assert!(matches!(wgsl_to_spirv("fn main( {"), Err(WgslError::Parse(_))));
    assert!(matches!(
        wgsl_to_spirv("@compute @workgroup_size(0) fn main() {}"),
        Err(WgslError::Validation(_))
    ));
}

#[test]
fn modules_and_kernels_are_handles() {
    let m = L0Module { handle: 7 };
    let k = L0Kernel {
        handle: 8,
        name: "q4_matmul".to_string(),
    };
    assert_eq!(m, L0Module { handle: 7 });
    assert_eq!((k.handle, k.name.as_str()), (8, "q4_matmul"));
    assert!(OPENCL_Q4_MATMUL.contains("__kernel void q4_matmul"));
    assert!(OPENCL_VECADD.contains("c[gid] = a[gid] + b[gid];"));
}

#[test]
fn vector_add_module_has_a_header() {
    let bytes = generate_vecadd_spirv();
    assert_eq!(&bytes[..8], &[3, 2, 0x23, 7, 0, 0, 1, 0]);
    assert_eq!(bytes.len() % 4, 0);
    // The bound is 30.
    assert_eq!(&bytes[12..16], &[30, 0, 0, 0]);
    // The entry point is the kernel that the sources declare.
    assert_eq!(&bytes[68..76], b"vecadd\0\0");
    // The word counts lead from the header to the end, and every function that
    // starts also ends.
    let words: Vec<u32> = bytes
        .chunks(4)
        .map(|b| u32::from_le_bytes([b[0], b[1], b[2], b[3]]))
        .collect();
    let mut ops = Vec::new();
    let mut at = 5;
    while at < words.len() {
        assert!(words[at] >> 16 > 0);
        ops.push(words[at] & 0xffff);
        at += (words[at] >> 16) as usize;
    }
    assert_eq!(at, words.len());
    assert_eq!(ops.iter().filter(|op| **op == 54).count(), 1);
    assert_eq!(*ops.last().unwrap(), 56);
    // Three parameters are pointers and one is a number; the sum is stored once.
    assert_eq!(ops.iter().filter(|op| **op == 55).count(), 4);
    assert_eq!(ops.iter().filter(|op| **op == 129).count(), 1);
    assert_eq!(ops.iter().filter(|op| **op == 62).count(), 1);
    // The global id is decorated as a built-in.
    let decorate = words.iter().position(|w| *w == 0x0004_0047).unwrap();
    assert_eq!(&words[decorate..decorate + 4], &[0x0004_0047, 2, 11, 28]);
}

#[test]
fn compilers_are_tried_in_order() {
    assert_eq!(next_compiler(None), Some(OfflineCompiler::Ocloc));
    assert_eq!(
        next_compiler(Some(OfflineCompiler::Ocloc)),
        Some(OfflineCompiler::Clang)
    );
    assert_eq!(next_compiler(Some(OfflineCompiler::Clang)), None);
    assert_eq!(
        args_for(OfflineCompiler::Ocloc, "a.cl", "a.spv").join(" "),
        "compile -file a.cl -spirv_input -device tgllp -output a.spv"
    );
    assert_eq!(
        args_for(OfflineCompiler::Clang, "a.cl", "a.spv").join(" "),
        "-cc1 -triple spir64-unknown-unknown -emit-spirv -O2 -o a.spv a.cl"
    );
}

fn gpu(name: &str, vendor_id: u32, device_type: i32) -> Candidate {
    Candidate {
        driver: 1,
        device_type,
        device: L0Device {
            handle: 2,
            name: name.to_string(),
            vendor_id,
            device_id: 3,
            max_mem_alloc_size: 4,
            num_slices: 1,
            num_subslices_per_slice: 6,
            num_eus_per_subslice: 16,
        },
    }
}

#[test]
fn integrated_gpu_is_preferred() {
    assert_eq!(select_gpu(&vec![]), None);
    assert_eq!(select_gpu(&vec![gpu("CPU", 0x8086, 2)]), None);
    let arc = || gpu("Intel(R) Arc(TM) A770", 0x8086, 1);
    let iris = || gpu("Intel(R) Iris(R) Xe Graphics", 0x8086, 1);
    let uhd = || gpu("Intel(R) UHD Graphics 770", 0x8086, 1);
    let other = || gpu("UHD lookalike", 0x10de, 1);
    assert_eq!(select_gpu(&vec![arc()]), Some(0));
    assert_eq!(select_gpu(&vec![arc(), iris()]), Some(1));
    assert_eq!(select_gpu(&vec![arc(), iris(), uhd()]), Some(2));
    assert_eq!(select_gpu(&vec![uhd(), iris()]), Some(0));
    assert_eq!(select_gpu(&vec![arc(), other()]), Some(0));
    // Another vendor's name does not keep the place.
    assert_eq!(select_gpu(&vec![other(), iris()]), Some(1));
    assert!(preferred(&uhd().device) && !preferred(&arc().device) && !preferred(&other().device));
    assert!(preferred(&gpu("Intel HD Graphics 530", 0x8086, 1).device));
}

#[test]
fn names_end_at_the_zero() {
    assert_eq!(device_name(b"UHD\0junk"), "UHD");
    assert_eq!(device_name(b"plain"), "plain");
    assert_eq!(device_name(b"\0"), "");
    assert_eq!(device_name(b"a\xffb\0"), "a\u{fffd}b");
    assert_eq!(device_name("Gr\u{fc}n\0".as_bytes()), "Gr\u{fc}n");
    assert_eq!(vendor_name(b"Intel\0", 6), "Intel");
    assert_eq!(vendor_name(b"Intel\0", 0), "");
    assert_eq!(vendor_name(b"Intel", 6), "Intel");
}

#[test]
fn first_intel_device_is_found() {
    let v = |names: &[&str]| names.iter().map(|s| s.to_string()).collect::<Vec<String>>();
    let vendors = vec![v(&["NVIDIA"]), v(&["AMD", "Intel(R) Corporation"]), v(&["Intel"])];
    assert_eq!(find_intel(&vendors), Some((1, 1)));
    assert_eq!(find_intel(&vec![v(&["NVIDIA"])]), None);
    assert_eq!(find_intel(&vec![]), None);
}

#[test]
fn cache_vectors_have_their_places() {
    let layout = KvLayout {
        batch: 2,
        kv_heads: 3,
        max_seq_len: 5,
        head_dim: 4,
    };
    assert_eq!(layout.offset(0, 0, 0), 0);
    assert_eq!(layout.offset(1, 2, 4), ((1 * 3 + 2) * 5 + 4) * 4);
    let mut seen = vec![false; 120];
    for b in 0..2 {
        for h in 0..3 {
            for s in 0..5 {
                for d in 0..4 {
                    let at = layout.offset(b, h, s) + d;
                    assert!(!seen[at]);
                    seen[at] = true;
                }
            }
        }
    }
    assert!(seen.iter().all(|&x| x));
}

#[test]
fn appended_vectors_are_read_back() {
    let mut c = UsmKvCache::new(1, 2, 3, 2, 0).unwrap();
    c.append_kv(&[1, 2, 3, 4], &[5, 6, 7, 8]);
    c.append_kv(&[11, 12, 13, 14], &[15, 16, 17, 18]);
    assert_eq!(c.current_len, 2);
    assert_eq!(c.key, vec![1, 2, 11, 12, 0, 0, 3, 4, 13, 14, 0, 0]);
    assert_eq!(c.value, vec![5, 6, 15, 16, 0, 0, 7, 8, 17, 18, 0, 0]);
    c.reset();
    assert_eq!(c.current_len, 0);
    assert!(matches!(
        UsmKvCache::new(1, 2, 0, 2, 0),
        Err(AllocError::ZeroBytes)
    ));
}

#[test]
fn lanes_of_layers_do_not_meet() {
    let layout = KvLayout {
        batch: 1,
        kv_heads: 4,
        max_seq_len: 2,
        head_dim: 1,
    };
    let mut buf = vec![0; 8];
    write_lanes(&layout, &mut buf, layer_lane(1, 2, 0), 2, 1, &[7, 8]);
    assert_eq!(buf, vec![0, 0, 0, 0, 0, 7, 0, 8]);
    write_at(&mut buf, 2, &[9, 9]);
    assert_eq!(buf, vec![0, 0, 9, 9, 0, 7, 0, 8]);
    assert_eq!(layer_lane(3, 8, 5), 29);
}

#[test]
fn allocations_are_aligned_to_cache_lines() {
    assert_eq!(alloc_request(10, 4, 4), Ok((40, 64)));
    assert_eq!(alloc_request(10, 4, 128), Ok((40, 128)));
    assert_eq!(alloc_request(0, 4, 4), Err(AllocError::ZeroBytes));
    assert_eq!(alloc_request(3, 0, 4), Err(AllocError::ZeroBytes));
    let ctx = L0Context {
        device: gpu("UHD", 0x8086, 1).device,
        driver: 5,
        context: 6,
        queue: 7,
        fence: 8,
    };
    let a = UsmAllocator::new(&ctx);
    assert_eq!((a.context, a.device), (6, 2));
}

#[test]
fn sizes_of_the_small_model() {
    let c = DecoderConfig::voxtral_mini();
    assert_eq!(f32::from_bits(c.rope_theta_bits), 1_000_000.0);
    assert_eq!(c.gqa_groups(), 4);
    assert_eq!(c.kv_head_of(0), 0);
    assert_eq!(c.kv_head_of(31), 7);
    let layer = 18 * (3072 * 96 + 2 * 768 * 96 + 3072 * 96 + 2 * 8192 * 96 + 3072 * 256);
    assert_eq!(c.layer_weight_bytes(), layer);
    assert_eq!(c.total_weight_bytes(), 26 * layer + 2 * 131072 * 96 * 18);
    let d = c.decode_config(BandConfig::default_k(96));
    assert_eq!((d.batch, d.kv_heads, d.max_seq_len, d.head_dim), (1, 208, 8192, 96));
}

#[test]
fn layer_is_planned_in_four_submissions() {
    let steps = decode_layer(&DecoderConfig::voxtral_mini());
    assert_eq!(steps.len(), 12);
    let mut projections = Vec::new();
    for s in &steps {
        if let LayerStep::Project(p) = s {
            assert!(batch_fits(p.len()));
            projections.push(p.iter().map(|p| (p.weight, p.shape.k, p.shape.n)).collect::<Vec<_>>());
        }
    }
    assert_eq!(
        projections,
        vec![
            vec![
                (Weight::Q, 3072, 3072),
                (Weight::K, 3072, 768),
                (Weight::V, 3072, 768)
            ],
            vec![(Weight::O, 3072, 3072)],
            vec![(Weight::Gate, 3072, 8192), (Weight::Up, 3072, 8192)],
            vec![(Weight::Down, 8192, 3072)],
        ]
    );
    assert!(matches!(steps[0], LayerStep::AttentionNorm));
    assert!(matches!(steps[11], LayerStep::AddResidual));
}

#[test]
fn weights_are_named_by_layer() {
    assert_eq!(weight_name(0, Weight::Q), "layers.0.attention.wq.weight");
    assert_eq!(weight_name(25, Weight::Down), "layers.25.feed_forward.w2.weight");
    assert_eq!(weight_name(1, Weight::Up), "layers.1.feed_forward.w3.weight");
    assert_eq!(attention_norm_name(10), "layers.10.attention_norm.weight");
    assert_eq!(ffn_norm_name(3), "layers.3.ffn_norm.weight");
    assert_eq!(lm_head_name(true), "output.weight");
    assert_eq!(lm_head_name(false), TOK_EMBEDDINGS);
}

#[test]
fn first_largest_token_is_chosen() {
    assert_eq!(argmax(&[]), 0);
    assert_eq!(argmax(&[-5]), 0);
    assert_eq!(argmax(&[1, 9, 3, 9]), 1);
    assert_eq!(argmax(&[i32::MIN, -1, -2]), 1);
}

fn pass2(a: i32, b: i32) -> (i32, i32) {
    (b, a)
}

fn pass3(a: i32, b: i32, c: i32) -> (i32, i32, i32) {
    (b, c, a)
}

fn clip(band: Vec<i32>, max: i32) -> Vec<i32> {
    band.into_iter().map(|v| v.clamp(-max, max)).collect()
}

#[test]
fn slices_of_any_length_are_compressed() {
    let cfg = BandConfig::default_v(4);
    let mut four = vec![1, 9, -9, 2];
    vht2_compress_slice(&mut four, &cfg, 0, &pass2, &pass3, &clip);
    assert_eq!(four, vec![1, 3, -3, 2]);
    // Five values are padded to eight, in four bands of two.
    let mut five = vec![100, 100, 100, 100, 100];
    vht2_compress_slice(&mut five, &cfg, 0, &pass2, &pass3, &clip);
    assert_eq!(five, vec![3, 3, 7, 7, 15]);
}

#[test]
fn appended_vectors_are_compressed() {
    let cfg = BandConfig::default_v(2);
    let mut c = UsmKvCache::new(1, 2, 2, 2, 0).unwrap();
    append_kv_with_vht2(&mut c, &[1, 9, -9, 2], &[0, 0, 0, 5], &cfg, &pass2, &pass3, &clip);
    assert_eq!(c.key, vec![1, 3, 0, 0, -3, 2, 0, 0]);
    assert_eq!(c.value, vec![0, 0, 0, 0, 0, 3, 0, 0]);
    assert_eq!(c.current_len, 1);
}

fn tiny() -> DecoderConfig {
    DecoderConfig {
        n_layers: 2,
        hidden_dim: 4,
        q_heads: 2,
        kv_heads: 1,
        head_dim: 2,
        ffn_dim: 4,
        vocab_size: 4,
        max_seq_len: 3,
        rope_theta_bits: 0,
    }
}

#[test]
fn layers_write_their_own_lanes() {
    let c = tiny();
    let mut cache = UsmKvCache::new(1, 2, 3, 2, 0).unwrap();
    let bands = BandConfig::default_v(2);
    write_kv_to_cache(
        &mut cache, &c, 1, &[1, 9], &[2, -9], &bands, 0, &pass2, &pass3, &clip,
    );
    assert_eq!(cache.key, vec![0, 0, 0, 0, 0, 0, 1, 3, 0, 0, 0, 0]);
    assert_eq!(cache.value, vec![0, 0, 0, 0, 0, 0, 2, -3, 0, 0, 0, 0]);
    assert_eq!(cache.current_len, 0);
    cache.advance();
    write_kv_to_cache(
        &mut cache, &c, 1, &[3, 3], &[1, 1], &bands, 0, &pass2, &pass3, &clip,
    );
    assert_eq!(cache.key, vec![0, 0, 0, 0, 0, 0, 1, 3, 3, 3, 0, 0]);
}

#[test]
fn query_heads_read_their_lanes() {
    let c = tiny();
    let mut cache = UsmKvCache::new(1, 2, 3, 2, 0).unwrap();
    cache.append_kv(&[1, 2, 3, 4], &[10, 20, 30, 40]);
    cache.current_len = 1;
    // The output sums the query, all keys and all values.
    let attend = |q: Vec<i32>, keys: Vec<Vec<i32>>, values: Vec<Vec<i32>>| {
        assert_eq!(keys.len(), 2);
        let total: i32 = keys.iter().chain(values.iter()).flatten().sum();
        q.iter().map(|x| x + total).collect::<Vec<i32>>()
    };
    assert_eq!(
        compute_attention(&cache, &c, 0, &[0, 100, 200, 300], &attend),
        vec![33, 133, 233, 333]
    );
    assert_eq!(
        compute_attention(&cache, &c, 1, &[0, 100, 200, 300], &attend),
        vec![77, 177, 277, 377]
    );
    assert_eq!(cache.read_lane(&cache.value, 1, 1), vec![vec![30, 40]]);
}

#[test]
fn steps_read_what_was_written() {
    let c = DecoderConfig::voxtral_mini();
    let plan = plan_layer(&c);
    let steps = decode_layer(&c);
    assert_eq!(plan.len(), steps.len());
    let mut written = vec![LayerBuffer::Hidden];
    for (p, s) in plan.iter().zip(&steps) {
        assert_eq!(format!("{:?}", p.step), format!("{s:?}"));
        assert!(p.reads.iter().all(|b| written.contains(b)));
        if let LayerStep::Project(products) = &p.step {
            assert_eq!(products.len(), p.writes.len());
        }
        written.extend(p.writes.iter().copied());
    }
    assert_eq!(plan[2].reads, vec![LayerBuffer::Query, LayerBuffer::Key]);
    assert_eq!(plan[3].reads, vec![LayerBuffer::Key, LayerBuffer::Value]);
    assert_eq!(plan[4].reads, vec![LayerBuffer::Query, LayerBuffer::Cache]);
    assert_eq!(plan[9].reads, vec![LayerBuffer::Gate, LayerBuffer::Up]);
    assert_eq!(plan[11].reads, vec![LayerBuffer::Hidden, LayerBuffer::Projected]);
    assert_eq!(plan[11].writes, vec![LayerBuffer::Hidden]);
}

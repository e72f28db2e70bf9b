use voxtral_mini_realtime::engine::svm::ComputeDevice;
use voxtral_mini_realtime::gguf::model::{
    stack_rows, Q4Adapter, Q4AdaRmsNorm, Q4Attention, Q4AudioEncoder, Q4DecoderLayer,
    Q4EncoderLayer, Q4FeedForward, Q4LanguageModel, Q4Linear, Q4Tensor, Q4VoxtralModel,
};
use voxtral_mini_realtime::gguf::q4::{
    embedding_row, matrix_row, pack_row, row_bytes, to_nibble, unpack_row, BLOCK_BYTES,
    BLOCK_WEIGHTS,
};
use voxtral_mini_realtime::gguf::streaming::{
    pipeline_plan, streaming_prefix, text_tokens, DecodeInput, HybridDecode, PipelineOp,
    StreamingDecode, BOS_TOKEN, EOS_TOKEN, PREFIX_LEN, STREAMING_PAD,
};
use voxtral_mini_realtime::models::layers::shannon_prime::ShannonPrimeConfig;
use voxtral_mini_realtime::models::layers::tensor::KvTensor;

#[test]
fn blocks_come_apart() {
    let mut bytes = vec![0u8; 18];
    bytes[0] = 0x34;
    bytes[1] = 0x12;
    bytes[2] = 0xf0; // Level 0 is 0, level 16 is 15.
    bytes[17] = 0x8a; // Level 15 is 10, level 31 is 8.
    let row = unpack_row(&bytes);
    assert_eq!(row.scales, vec![0x1234]);
    assert_eq!(row.levels.len(), 32);
    assert_eq!(row.levels[0], -8);
    assert_eq!(row.levels[16], 7);
    assert_eq!(row.levels[15], 2);
    assert_eq!(row.levels[31], 0);
    assert_eq!(row.levels[1], -8);
}

#[test]
fn packing_is_undone_by_unpacking() {
    let scales: Vec<u16> = vec![0x3c00, 0xffff, 7];
    let nibbles: Vec<u8> = (0..96).map(|i| ((i * 7 + i / 5) % 16) as u8).collect();
    let bytes = pack_row(&scales, &nibbles);
    assert_eq!(bytes.len(), 3 * BLOCK_BYTES);
    assert_eq!(nibbles.len(), 3 * BLOCK_WEIGHTS);
    let row = unpack_row(&bytes);
    assert_eq!(row.scales, scales);
    let want: Vec<i8> = nibbles.iter().map(|&n| n as i8 - 8).collect();
    assert_eq!(row.levels, want);
    assert!(unpack_row(&[]).levels.is_empty());
}

#[test]
fn levels_are_kept_in_range() {
    assert_eq!(to_nibble(-3), 0);
    assert_eq!(to_nibble(0), 0);
    assert_eq!(to_nibble(15), 15);
    assert_eq!(to_nibble(16), 15);
}

#[test]
fn rows_of_a_matrix() {
    assert_eq!(row_bytes(3072), 1728);
    assert_eq!(row_bytes(31), 0);
    let bytes: Vec<u8> = (0..3 * 36).map(|i| i as u8).collect();
    assert_eq!(matrix_row(&bytes, 64, 1), &bytes[36..72]);
    let row = embedding_row(&bytes, 64, 2);
    assert_eq!(row.scales, vec![u16::from_le_bytes([72, 73]), u16::from_le_bytes([90, 91])]);
    assert_eq!(row.levels.len(), 64);
}

#[test]
fn transcription_walks_the_audio() {
    assert!(StreamingDecode::start(PREFIX_LEN - 1).is_none());
    let mut d = StreamingDecode::start(41).unwrap();
    assert!(d.next_input().is_none() && !d.is_done());
    d.push(7);
    assert_eq!(
        d.next_input(),
        Some(DecodeInput {
            audio_pos: 38,
            token: 7
        })
    );
    d.push(8);
    assert_eq!(
        d.next_input(),
        Some(DecodeInput {
            audio_pos: 39,
            token: 8
        })
    );
    d.push(9);
    assert!(d.next_input().is_none() && d.is_done());
    assert_eq!(d.finish(), vec![7, 8, 9]);
}

#[test]
fn shortest_audio_gives_one_token() {
    let mut d = StreamingDecode::start(38).unwrap();
    d.push(5);
    assert!(d.is_done() && d.next_input().is_none());
    assert_eq!(d.finish(), vec![5]);
}

#[test]
fn prefix_is_a_start_and_pads() {
    let p = streaming_prefix();
    assert_eq!(p.len(), 38);
    assert_eq!(p[0], BOS_TOKEN);
    assert!(p[1..].iter().all(|&t| t == STREAMING_PAD));
}

#[test]
fn split_decoding_stops_at_the_end_token() {
    assert!(HybridDecode::start(37).is_none());
    let mut d = HybridDecode::start(45).unwrap();
    for pos in 0..38 {
        let input = d.next_input().unwrap();
        assert_eq!(input.audio_pos, pos);
        assert_eq!(input.token, if pos == 0 { BOS_TOKEN } else { STREAMING_PAD });
        // An end token from the prefix ends nothing.
        d.push(EOS_TOKEN);
    }
    assert_eq!(d.generated, vec![EOS_TOKEN]);
    assert_eq!(
        d.next_input(),
        Some(DecodeInput {
            audio_pos: 38,
            token: EOS_TOKEN
        })
    );
    d.push(11);
    d.push(EOS_TOKEN);
    assert!(d.next_input().is_none());
    assert_eq!(d.generated, vec![EOS_TOKEN, 11, EOS_TOKEN]);
    assert_eq!(text_tokens(&[1, 5, 32, 6, 2]), vec![5, 6]);
}

#[test]
fn next_chunk_is_encoded_ahead() {
    assert!(pipeline_plan(0).is_empty());
    assert_eq!(
        pipeline_plan(2),
        vec![
            PipelineOp::Encode(0),
            PipelineOp::Await(0),
            PipelineOp::Transfer(0),
            PipelineOp::Encode(1),
            PipelineOp::Decode(0),
            PipelineOp::Await(1),
            PipelineOp::Transfer(1),
            PipelineOp::Decode(1),
        ]
    );
    let plan = pipeline_plan(5);
    for k in 0..5 {
        for op in [PipelineOp::Encode(k), PipelineOp::Transfer(k), PipelineOp::Decode(k)] {
            assert_eq!(plan.iter().filter(|&&o| o == op).count(), 1);
        }
    }
}

fn matrix(rows: usize, cols: usize, seed: u8) -> Q4Tensor {
    let n = rows * row_bytes(cols);
    Q4Tensor {
        bytes: (0..n).map(|i| (i as u8).wrapping_mul(31).wrapping_add(seed)).collect(),
        rows,
        cols,
    }
}

fn linear(rows: usize, cols: usize, seed: u8) -> Q4Linear {
    Q4Linear::new(matrix(rows, cols, seed), None)
}

fn attention() -> Q4Attention {
    Q4Attention::new(
        linear(4, 32, 1),
        linear(2, 32, 2),
        linear(2, 32, 3),
        linear(4, 32, 4),
        4,
        2,
        1,
        Some(750),
    )
}

fn ffn() -> Q4FeedForward {
    Q4FeedForward::new(linear(3, 32, 5), linear(2, 32, 6), linear(3, 32, 7))
}

#[test]
fn stacked_rows_are_the_rows() {
    let (a, b) = (matrix(2, 64, 1), matrix(3, 64, 9));
    let s = stack_rows(&a, &b);
    assert_eq!(s.shape(), [5, 64]);
    for i in 0..5 {
        let want = if i < 2 {
            matrix_row(&a.bytes, 64, i)
        } else {
            matrix_row(&b.bytes, 64, i - 2)
        };
        assert_eq!(matrix_row(&s.bytes, 64, i), want);
    }
}

#[test]
fn projections_are_fused_once() {
    let mut a = attention();
    a.fuse_qkv();
    let f = a.fused_qkv.clone().unwrap();
    assert_eq!((f.q_out, f.k_out, f.v_out), (4, 2, 2));
    assert_eq!(f.weights.shape(), [8, 32]);
    let mut bytes = a.wq.weights().bytes.clone();
    bytes.extend(&a.wk.weights().bytes);
    bytes.extend(&a.wv.weights().bytes);
    assert_eq!(f.weights.bytes, bytes);
    a.wq = linear(4, 32, 99);
    a.fuse_qkv();
    assert_eq!(a.fused_qkv.unwrap().weights.bytes, bytes);

    let mut m = ffn();
    m.fuse_gate_up();
    let g = m.fused_gate_up.unwrap();
    assert_eq!((g.gate_out, g.up_out), (3, 3));
    assert_eq!(g.weights.shape(), [6, 32]);
}

#[test]
fn heads_are_repeated_for_their_readers() {
    let t = KvTensor {
        batch: 1,
        heads: 2,
        seq: 1,
        head_dim: 1,
        lanes: vec![vec![10], vec![20]],
    };
    let a = attention();
    let e = a.expand_kv(&t);
    assert_eq!(e.dims(), [1, 4, 1, 1]);
    assert_eq!(e.lanes, vec![vec![10], vec![10], vec![20], vec![20]]);
    let mut same = attention();
    same.n_heads = 2;
    assert_eq!(same.expand_kv(&t).lanes, t.lanes);
}

fn language_model(n_layers: usize) -> Q4LanguageModel<(), ()> {
    let layers = (0..n_layers)
        .map(|_| {
            Q4DecoderLayer::new(
                Q4AdaRmsNorm::new(linear(1, 32, 1), linear(1, 32, 2)),
                (),
                attention(),
                (),
                ffn(),
            )
        })
        .collect();
    let embed = matrix(3, 32, 8);
    let bytes = embed.bytes.clone();
    Q4LanguageModel::new_q4_embeddings(
        embed,
        bytes,
        32,
        ComputeDevice::DefaultDevice,
        (),
        layers,
        (),
    )
}

fn model(n_layers: usize) -> Q4VoxtralModel<(), (), ()> {
    let encoder_layers = vec![Q4EncoderLayer::new((), attention(), (), ffn())];
    Q4VoxtralModel::new(
        Q4AudioEncoder::new((), (), encoder_layers, ()),
        language_model(n_layers),
        Q4Adapter::new(linear(1, 32, 1), linear(1, 32, 2)),
        4,
    )
}

#[test]
fn embeddings_are_looked_up_by_row() {
    let m = language_model(1);
    let rows = m.embed_tokens_from_ids(&[2, 0]);
    assert_eq!(rows.len(), 2);
    assert_eq!(rows[0].levels, embedding_row(&m.embed_bytes, 32, 2).levels);
    assert_eq!(rows[1].scales, embedding_row(&m.embed_bytes, 32, 0).scales);
    assert_eq!((m.n_layers(), m.d_model(), m.head_dim()), (1, 32, 1));
    assert_eq!(language_model(0).head_dim(), 128);
}

#[test]
fn switches_of_the_model() {
    let mut m = model(2);
    assert!(!m.is_hybrid());
    m.set_decoder_device(ComputeDevice::IntegratedGpu(0));
    assert!(m.is_hybrid());
    assert!(m.shannon_prime_config().is_none());
    m.enable_shannon_prime(96);
    assert_eq!(m.shannon_prime_config().unwrap().head_dim, 96);
    let caches = m.decode_caches(5, 0.0f32);
    assert_eq!(caches.caches.len(), 2);
    assert!(caches.caches.iter().all(|c| c.is_shannon_prime_enabled()));
    assert_eq!(caches.caches[0].k.as_ref().unwrap().dims(), [1, 2, 5, 1]);
    m.set_shannon_prime(ShannonPrimeConfig::disabled(96));
    let caches = m.decode_caches(5, 0.0f32);
    assert!(!caches.caches[0].is_shannon_prime_enabled());
    m.disable_shannon_prime();
    assert!(m.shannon_prime_config().is_none());
    assert_eq!(m.encoder().n_layers(), 1);
    assert_eq!(m.encoder().create_cache::<f32>().caches.len(), 1);
    assert_eq!(m.decoder().create_cache::<f32>().seq_len(), 0);
    let bare = language_model(0);
    assert!(bare.create_cache_preallocated(5, 0.0f32).caches.is_empty());
}

#[test]
fn one_and_two_devices_give_the_same_transcript() {
    let mut m = model(1);
    // A decoder whose prediction depends on all inputs so far.
    let predict = |inputs: &[DecodeInput]| -> i32 {
        inputs.iter().fold(7i32, |h, i| {
            h.wrapping_mul(31).wrapping_add(i.token).wrapping_add(i.audio_pos as i32)
        }) & 0xff
    };
    let one = m.transcribe_streaming(45, predict);
    m.set_decoder_device(ComputeDevice::IntegratedGpu(0));
    let two = m.transcribe_streaming_hybrid(45, predict);
    assert_eq!(one, two);
    assert_eq!(one.len(), 7);
    let mut inputs: Vec<DecodeInput> = streaming_prefix()
        .into_iter()
        .enumerate()
        .map(|(audio_pos, token)| DecodeInput { audio_pos, token })
        .collect();
    for (n, t) in one.iter().enumerate() {
        assert_eq!(*t, predict(&inputs));
        inputs.push(DecodeInput { audio_pos: 38 + n, token: *t });
    }
    assert!(m.transcribe_streaming_hybrid(37, predict).is_empty());
    assert_eq!(m.transcribe_streaming_hybrid(38, predict).len(), 1);
}

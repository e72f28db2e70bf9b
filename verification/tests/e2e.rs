use voxtral_mini_realtime::bench::bench_schedule;
use voxtral_mini_realtime::e2e::{
    average_results, bench_plan, chunk_planes, count_tokens, BenchOptions, BenchPlanError,
    BenchRunner, BenchmarkResult, Metric, PIPELINE_FRAMES,
};
use voxtral_mini_realtime::engine::svm::ComputeDevice;

fn options(device: &str) -> BenchOptions {
    BenchOptions {
        audio_files: 1,
        gguf: true,
        compare_all: false,
        hybrid: false,
        shannon_prime: false,
        device: device.to_string(),
    }
}

#[test]
fn a_single_quantised_run_is_named_after_its_mode() {
    let mut o = options("integrated");
    o.shannon_prime = true;
    let plan = bench_plan(&o).unwrap();
    assert_eq!(plan.len(), 1);
    assert_eq!(plan[0].label, "Q4 GGUF (integrated+SP)");
    assert_eq!(plan[0].mode, "integrated+SP");
    assert_eq!(
        plan[0].runner,
        BenchRunner::Q4 {
            device: ComputeDevice::IntegratedGpu(0),
            shannon_prime: true,
            compact: true,
        }
    );
    let plan = bench_plan(&options("auto")).unwrap();
    assert_eq!(plan[0].label, "Q4 GGUF (auto)");
    assert_eq!(
        plan[0].runner,
        BenchRunner::Q4 {
            device: ComputeDevice::DefaultDevice,
            shannon_prime: false,
            compact: false,
        }
    );
}

#[test]
fn without_a_quantised_model_single_precision_is_run() {
    let mut o = options("discrete");
    o.gguf = false;
    let plan = bench_plan(&o).unwrap();
    assert_eq!(plan[0].label, "f32 SafeTensors");
    assert_eq!(plan[0].mode, "f32");
    assert_eq!(
        plan[0].runner,
        BenchRunner::F32 { device: ComputeDevice::DiscreteGpu(0) }
    );
}

#[test]
fn the_hybrid_mode_splits_the_model() {
    let mut o = options("integrated");
    o.hybrid = true;
    let plan = bench_plan(&o).unwrap();
    assert_eq!(plan[0].label, "Hybrid (RTX + iGPU)");
    assert_eq!(plan[0].mode, "hybrid");
    assert_eq!(
        plan[0].runner,
        BenchRunner::Q4Hybrid {
            encoder: ComputeDevice::DiscreteGpu(0),
            decoder: ComputeDevice::IntegratedGpu(0),
        }
    );
}

#[test]
fn comparing_runs_all_modes() {
    let mut o = options("auto");
    o.compare_all = true;
    let plan = bench_plan(&o).unwrap();
    let modes: Vec<&str> = plan.iter().map(|c| c.mode).collect();
    assert_eq!(
        modes,
        vec!["discrete", "discrete+SP", "integrated+SP", "hybrid", "hybrid+pipe"]
    );
    assert_eq!(plan[4].label, "Hybrid + Pipelined (600-frame chunks)");
    assert_eq!(
        plan[4].runner,
        BenchRunner::Q4HybridPipelined {
            encoder: ComputeDevice::DiscreteGpu(0),
            decoder: ComputeDevice::IntegratedGpu(0),
            max_mel_frames: PIPELINE_FRAMES,
        }
    );
    for i in 0..plan.len() {
        for j in i + 1..plan.len() {
            assert_ne!(plan[i].runner, plan[j].runner);
        }
    }
}

#[test]
fn plans_that_cannot_be_run_are_refused() {
    let mut o = options("auto");
    o.audio_files = 0;
    o.compare_all = true;
    o.gguf = false;
    assert_eq!(bench_plan(&o).unwrap_err(), BenchPlanError::NoAudio);
    o.audio_files = 2;
    assert_eq!(bench_plan(&o).unwrap_err(), BenchPlanError::CompareNeedsGguf);
    o.compare_all = false;
    o.hybrid = true;
    assert_eq!(bench_plan(&o).unwrap_err(), BenchPlanError::HybridNeedsGguf);
}

#[test]
fn chunks_without_frames_have_no_plane() {
    let mels = vec![
        vec![vec![1.0f32, 2.0], vec![3.0, 4.0], vec![5.0, 6.0]],
        vec![],
        vec![vec![7.0, 8.0]],
    ];
    let planes = chunk_planes(&mels, 0.0);
    assert_eq!(planes.len(), 2);
    assert_eq!((planes[0].bands, planes[0].frames), (2, 3));
    assert_eq!(planes[0].values, vec![1.0, 3.0, 5.0, 2.0, 4.0, 6.0]);
    assert_eq!((planes[1].bands, planes[1].frames), (2, 1));
    assert_eq!(planes[1].values, vec![7.0, 8.0]);
}

#[test]
fn tokens_of_all_chunks_are_counted() {
    assert_eq!(count_tokens(&vec![]), 0);
    assert_eq!(count_tokens(&vec![vec![1, 2, 3], vec![], vec![9]]), 4);
}

fn result(file: &str, base: f64, tokens: usize, peak: Option<u64>) -> BenchmarkResult<f64> {
    BenchmarkResult {
        audio_file: file.to_string(),
        mode: "hybrid".to_string(),
        audio_duration_secs: 4.0,
        preprocess_ms: base,
        encode_ms: base * 2.0,
        transfer_ms: base * 4.0,
        decode_ms: base * 8.0,
        total_ms: base * 16.0,
        rtf: base / 2.0,
        decode_tokens: tokens,
        tokens_per_sec: base / 4.0,
        peak_memory_kb: peak,
        shannon_prime: true,
    }
}

#[test]
fn rounds_are_averaged_file_by_file() {
    let rounds = vec![
        vec![result("a.wav", 1.0, 10, Some(5)), result("b.wav", 8.0, 20, None)],
        vec![result("a.wav", 3.0, 11, Some(6)), result("b.wav", 16.0, 21, None)],
    ];
    let avg = average_results(&rounds, 0.0, |a: f64, b: f64| a + b, |s: f64, n: usize| {
        s / n as f64
    });
    assert_eq!(avg.len(), 2);
    assert_eq!(avg[0].audio_file, "a.wav");
    assert_eq!(avg[0].mode, "hybrid");
    assert_eq!(avg[0].audio_duration_secs, 4.0);
    assert_eq!(avg[0].preprocess_ms, 2.0);
    assert_eq!(avg[0].encode_ms, 4.0);
    assert_eq!(avg[0].transfer_ms, 8.0);
    assert_eq!(avg[0].decode_ms, 16.0);
    assert_eq!(avg[0].total_ms, 32.0);
    assert_eq!(avg[0].rtf, 1.0);
    assert_eq!(avg[0].tokens_per_sec, 0.5);
    assert_eq!(avg[0].decode_tokens, 10);
    assert_eq!(avg[0].peak_memory_kb, Some(5));
    assert!(avg[0].shannon_prime);
    assert_eq!(avg[1].audio_file, "b.wav");
    assert_eq!(avg[1].metric(Metric::Preprocess), 12.0);
    assert_eq!(avg[1].metric(Metric::TokensPerSec), 3.0);
    let none: Vec<Vec<BenchmarkResult<f64>>> = vec![];
    assert!(average_results(&none, 0.0, |a: f64, b: f64| a + b, |s: f64, n: usize| {
        s / n as f64
    })
    .is_empty());
}

#[test]
fn each_round_runs_each_file_once() {
    let runs = bench_schedule(1, 2, 3);
    assert_eq!(runs.len(), 9);
    for round in 0..3 {
        for file in 0..3 {
            let hits = runs[round * 3..(round + 1) * 3]
                .iter()
                .filter(|r| r.file == file && r.warmup == (round < 1))
                .count();
            assert_eq!(hits, 1);
        }
    }
}

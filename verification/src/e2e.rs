//! The end-to-end benchmark: which configurations are run, what is handed to
//! them, and how the results of several rounds become one.

use crate::bench::{mode_name, mode_of, transpose_mel, transposes, MelPlane};
use crate::engine::svm::{lemma_device_names, named_device, select_device, ComputeDevice};
use vstd::prelude::*;

verus! {

// ---------------------------------------------------------------------------
// Configurations
// ---------------------------------------------------------------------------

/// How the model is run.
#[derive(Debug, Clone, Copy, PartialEq, Eq, Structural)]
pub enum BenchRunner {
    /// The quantised model on one device.
    Q4 { device: ComputeDevice, shannon_prime: bool, compact: bool },
    /// The quantised model, encoder and decoder on different devices.
    Q4Hybrid { encoder: ComputeDevice, decoder: ComputeDevice },
    /// The same, with the audio in chunks that are encoded while the chunk
    /// before is decoded.
    Q4HybridPipelined {
        encoder: ComputeDevice,
        decoder: ComputeDevice,
        max_mel_frames: usize,
    },
    /// The single-precision model on one device.
    F32 { device: ComputeDevice },
}

/// One configuration of the benchmark.
#[derive(Debug, Clone)]
pub struct BenchConfig {
    pub label: String,
    pub mode: &'static str,
    pub runner: BenchRunner,
}

/// A configuration with its texts as sequences.
pub struct ConfigModel {
    pub label: Seq<char>,
    pub mode: Seq<char>,
    pub runner: BenchRunner,
}

/// What a configuration says.
pub open spec fn config_model(c: BenchConfig) -> ConfigModel {
    ConfigModel { label: c.label@, mode: c.mode@, runner: c.runner }
}

/// Why no benchmark can be run.
#[derive(Debug, Clone, Copy, PartialEq, Eq, Structural)]
pub enum BenchPlanError {
    /// No audio file was given.
    NoAudio,
    /// All modes are to be compared, without a quantised model.
    CompareNeedsGguf,
    /// The hybrid mode was asked for, without a quantised model.
    HybridNeedsGguf,
}

/// What the command line asks for.
#[derive(Debug, Clone)]
pub struct BenchOptions {
    pub audio_files: usize,
    pub gguf: bool,
    pub compare_all: bool,
    pub hybrid: bool,
    pub shannon_prime: bool,
    pub device: String,
}

/// Most spectrogram frames in a chunk of the pipelined mode.
pub const PIPELINE_FRAMES: usize = 600;

/// The first reason why nothing can be run, if there is one.
pub open spec fn plan_error(o: BenchOptions) -> Option<BenchPlanError> {
    if o.audio_files == 0 {
        Some(BenchPlanError::NoAudio)
    } else if o.compare_all && !o.gguf {
        Some(BenchPlanError::CompareNeedsGguf)
    } else if !o.compare_all && o.hybrid && !o.gguf {
        Some(BenchPlanError::HybridNeedsGguf)
    } else {
        None
    }
}

/// All modes of the quantised model, the baseline first.
pub open spec fn all_modes() -> Seq<ConfigModel> {
    seq![
        ConfigModel {
            label: "Discrete GPU (RTX)"@,
            mode: "discrete"@,
            runner: BenchRunner::Q4 {
                device: ComputeDevice::DiscreteGpu(0),
                shannon_prime: false,
                compact: false,
            },
        },
        ConfigModel {
            label: "Discrete GPU + Shannon-Prime"@,
            mode: "discrete+SP"@,
            runner: BenchRunner::Q4 {
                device: ComputeDevice::DiscreteGpu(0),
                shannon_prime: true,
                compact: false,
            },
        },
        ConfigModel {
            label: "Integrated GPU + Shannon-Prime (compact)"@,
            mode: "integrated+SP"@,
            runner: BenchRunner::Q4 {
                device: ComputeDevice::IntegratedGpu(0),
                shannon_prime: true,
                compact: true,
            },
        },
        ConfigModel {
            label: "Hybrid (RTX encoder + iGPU decoder)"@,
            mode: "hybrid"@,
            runner: BenchRunner::Q4Hybrid {
                encoder: ComputeDevice::DiscreteGpu(0),
                decoder: ComputeDevice::IntegratedGpu(0),
            },
        },
        ConfigModel {
            label: "Hybrid + Pipelined (600-frame chunks)"@,
            mode: "hybrid+pipe"@,
            runner: BenchRunner::Q4HybridPipelined {
                encoder: ComputeDevice::DiscreteGpu(0),
                decoder: ComputeDevice::IntegratedGpu(0),
                max_mel_frames: PIPELINE_FRAMES,
            },
        },
    ]
}

/// The one configuration that is run where modes are not compared.
pub open spec fn single_mode(o: BenchOptions) -> ConfigModel {
    if o.hybrid {
        ConfigModel {
            label: "Hybrid (RTX + iGPU)"@,
            mode: "hybrid"@,
            runner: BenchRunner::Q4Hybrid {
                encoder: ComputeDevice::DiscreteGpu(0),
                decoder: ComputeDevice::IntegratedGpu(0),
            },
        }
    } else if o.gguf {
        let mode = mode_of(false, o.shannon_prime, o.device@);
        ConfigModel {
            label: "Q4 GGUF ("@ + mode + ")"@,
            mode,
            runner: BenchRunner::Q4 {
                device: named_device(o.device@),
                shannon_prime: o.shannon_prime,
                compact: o.device@ == "integrated"@,
            },
        }
    } else {
        ConfigModel {
            label: "f32 SafeTensors"@,
            mode: "f32"@,
            runner: BenchRunner::F32 { device: named_device(o.device@) },
        }
    }
}

fn config(label: &str, mode: &'static str, runner: BenchRunner) -> (r: BenchConfig)
    ensures
        config_model(r) == (ConfigModel { label: label@, mode: mode@, runner }),
{
    BenchConfig { label: label.to_owned(), mode, runner }
}

fn compare_modes() -> (r: Vec<BenchConfig>)
    ensures
        r@.map_values(|c: BenchConfig| config_model(c)) == all_modes(),
{
    let encoder = ComputeDevice::DiscreteGpu(0);
    let decoder = ComputeDevice::IntegratedGpu(0);
    let mut out: Vec<BenchConfig> = Vec::new();
    out.push(
        config(
            "Discrete GPU (RTX)",
            "discrete",
            BenchRunner::Q4 { device: encoder, shannon_prime: false, compact: false },
        ),
    );
    out.push(
        config(
            "Discrete GPU + Shannon-Prime",
            "discrete+SP",
            BenchRunner::Q4 { device: encoder, shannon_prime: true, compact: false },
        ),
    );
    out.push(
        config(
            "Integrated GPU + Shannon-Prime (compact)",
            "integrated+SP",
            BenchRunner::Q4 { device: decoder, shannon_prime: true, compact: true },
        ),
    );
    out.push(
        config(
            "Hybrid (RTX encoder + iGPU decoder)",
            "hybrid",
            BenchRunner::Q4Hybrid { encoder, decoder },
        ),
    );
    out.push(
        config(
            "Hybrid + Pipelined (600-frame chunks)",
            "hybrid+pipe",
            BenchRunner::Q4HybridPipelined { encoder, decoder, max_mel_frames: PIPELINE_FRAMES },
        ),
    );
    assert(out@.map_values(|c: BenchConfig| config_model(c)) =~= all_modes());
    out
}

/// The configurations that the command line asks for, in the order in which
/// they are run.
pub fn bench_plan(o: &BenchOptions) -> (r: Result<Vec<BenchConfig>, BenchPlanError>)
    ensures
        match plan_error(*o) {
            Some(e) => r == Err::<Vec<BenchConfig>, BenchPlanError>(e),
            None => r matches Ok(plan) && plan@.map_values(|c: BenchConfig| config_model(c))
                == if o.compare_all {
                all_modes()
            } else {
                seq![single_mode(*o)]
            },
        },
{
    if o.audio_files == 0 {
        return Err(BenchPlanError::NoAudio);
    }
    if o.compare_all {
        if !o.gguf {
            return Err(BenchPlanError::CompareNeedsGguf);
        }
        return Ok(compare_modes());
    }
    if o.hybrid && !o.gguf {
        return Err(BenchPlanError::HybridNeedsGguf);
    }
    let only = if o.hybrid {
        config(
            "Hybrid (RTX + iGPU)",
            "hybrid",
            BenchRunner::Q4Hybrid {
                encoder: ComputeDevice::DiscreteGpu(0),
                decoder: ComputeDevice::IntegratedGpu(0),
            },
        )
    } else if o.gguf {
        let mode = mode_name(false, o.shannon_prime, o.device.as_str());
        let mut label = "Q4 GGUF (".to_owned();
        label.append(mode);
        label.append(")");
        let device = select_device(o.device.as_str());
        let compact = o.device == "integrated".to_owned();
        BenchConfig {
            label,
            mode,
            runner: BenchRunner::Q4 { device, shannon_prime: o.shannon_prime, compact },
        }
    } else {
        config(
            "f32 SafeTensors",
            "f32",
            BenchRunner::F32 { device: select_device(o.device.as_str()) },
        )
    };
    let mut plan: Vec<BenchConfig> = Vec::new();
    plan.push(only);
    assert(plan@.map_values(|c: BenchConfig| config_model(c)) =~= seq![single_mode(*o)]);
    Ok(plan)
}

/// Every compared mode runs the quantised model, and no two have the same
/// runner, so each row of the comparison stands for another way to run it.
pub proof fn lemma_compared_modes_differ(i: int, j: int)
    requires
        0 <= i < j < all_modes().len(),
    ensures
        all_modes()[i].runner != all_modes()[j].runner,
        !(all_modes()[i].runner is F32),
        !(all_modes()[j].runner is F32),
{
}

// ---------------------------------------------------------------------------
// Chunks and tokens
// ---------------------------------------------------------------------------

/// The numbers of the spectrograms among the first `n` that have frames.
pub open spec fn with_frames<T>(mels: Seq<Vec<Vec<T>>>, n: int) -> Seq<int>
    decreases n,
{
    if n <= 0 {
        Seq::empty()
    } else if mels[n - 1]@.len() > 0 {
        with_frames(mels, n - 1).push(n - 1)
    } else {
        with_frames(mels, n - 1)
    }
}

/// Plane `p` is the `p`-th spectrogram with frames, transposed.
pub open spec fn plane_of<T>(
    mels: Seq<Vec<Vec<T>>>,
    fill: T,
    kept: Seq<int>,
    planes: Seq<MelPlane<T>>,
    p: int,
) -> bool {
    transposes(mels[kept[p]]@, fill, planes[p])
}

/// Transposes the spectrogram of every chunk. A chunk too short for a single
/// frame is left out.
pub fn chunk_planes<T: Copy>(mels: &Vec<Vec<Vec<T>>>, fill: T) -> (r: Vec<MelPlane<T>>)
    requires
        forall|c: int, t: int|
            0 <= c < mels@.len() && 0 <= t < mels@[c]@.len() ==> (#[trigger] mels@[c]@[t])@.len()
                <= mels@[c]@[0]@.len(),
    ensures
        r@.len() == with_frames(mels@, mels@.len() as int).len(),
        forall|p: int|
            0 <= p < r@.len() ==> #[trigger] plane_of(
                mels@,
                fill,
                with_frames(mels@, mels@.len() as int),
                r@,
                p,
            ),
{
    let mut out: Vec<MelPlane<T>> = Vec::new();
    let mut i: usize = 0;
    while i < mels.len()
        invariant
            i <= mels@.len(),
            forall|c: int, t: int|
                0 <= c < mels@.len() && 0 <= t < mels@[c]@.len() ==> (#[trigger] mels@[c]@[t])@.len()
                    <= mels@[c]@[0]@.len(),
            out@.len() == with_frames(mels@, i as int).len(),
            forall|p: int|
                0 <= p < out@.len() ==> #[trigger] plane_of(
                    mels@,
                    fill,
                    with_frames(mels@, i as int),
                    out@,
                    p,
                ),
        decreases mels@.len() - i,
    {
        let ghost before = out@;
        let ghost kept = with_frames(mels@, i as int);
        match transpose_mel(&mels[i], fill) {
            Some(plane) => out.push(plane),
            None => {},
        }
        proof {
            let now = with_frames(mels@, i + 1);
            assert forall|p: int| 0 <= p < out@.len() implies #[trigger] plane_of(
                mels@,
                fill,
                now,
                out@,
                p,
            ) by {
                if p < before.len() {
                    assert(plane_of(mels@, fill, kept, before, p));
                }
            }
        }
        i = i + 1;
    }
    out
}

/// How many tokens the first `n` lists hold.
pub open spec fn token_total(lists: Seq<Vec<i32>>, n: int) -> int
    decreases n,
{
    if n <= 0 {
        0
    } else {
        token_total(lists, n - 1) + lists[n - 1]@.len()
    }
}

proof fn lemma_total_grows(lists: Seq<Vec<i32>>, m: int, n: int)
    requires
        0 <= m <= n,
    ensures
        token_total(lists, m) <= token_total(lists, n),
    decreases n,
{
    if m < n {
        lemma_total_grows(lists, m, n - 1);
    }
}

/// How many tokens the chunks were decoded to.
pub fn count_tokens(lists: &Vec<Vec<i32>>) -> (r: usize)
    requires
        token_total(lists@, lists@.len() as int) <= usize::MAX,
    ensures
        r == token_total(lists@, lists@.len() as int),
{
    let mut total: usize = 0;
    let mut i: usize = 0;
    while i < lists.len()
        invariant
            i <= lists@.len(),
            token_total(lists@, lists@.len() as int) <= usize::MAX,
            total == token_total(lists@, i as int),
        decreases lists@.len() - i,
    {
        proof {
            lemma_total_grows(lists@, i + 1, lists@.len() as int);
        }
        total = total + lists[i].len();
        i = i + 1;
    }
    total
}

// ---------------------------------------------------------------------------
// Results
// ---------------------------------------------------------------------------

/// What one run on one file took. `T` is the type of measured numbers.
#[derive(Debug, Clone)]
pub struct BenchmarkResult<T> {
    pub audio_file: String,
    pub mode: String,
    pub audio_duration_secs: T,
    pub preprocess_ms: T,
    pub encode_ms: T,
    pub transfer_ms: T,
    pub decode_ms: T,
    pub total_ms: T,
    pub rtf: T,
    pub decode_tokens: usize,
    pub tokens_per_sec: T,
    pub peak_memory_kb: Option<u64>,
    pub shannon_prime: bool,
}

/// A measured number that is averaged over rounds.
#[derive(Debug, Clone, Copy, PartialEq, Eq, Structural)]
pub enum Metric {
    Preprocess,
    Encode,
    Transfer,
    Decode,
    Total,
    Rtf,
    TokensPerSec,
}

impl<T: Copy> BenchmarkResult<T> {
    /// The number measured for `m`.
    pub open spec fn measured(self, m: Metric) -> T {
        match m {
            Metric::Preprocess => self.preprocess_ms,
            Metric::Encode => self.encode_ms,
            Metric::Transfer => self.transfer_ms,
            Metric::Decode => self.decode_ms,
            Metric::Total => self.total_ms,
            Metric::Rtf => self.rtf,
            Metric::TokensPerSec => self.tokens_per_sec,
        }
    }

    /// The number measured for `m`.
    pub fn metric(&self, m: Metric) -> (r: T)
        ensures
            r == self.measured(m),
    {
        match m {
            Metric::Preprocess => self.preprocess_ms,
            Metric::Encode => self.encode_ms,
            Metric::Transfer => self.transfer_ms,
            Metric::Decode => self.decode_ms,
            Metric::Total => self.total_ms,
            Metric::Rtf => self.rtf,
            Metric::TokensPerSec => self.tokens_per_sec,
        }
    }

    /// The same file, measured in the same mode, with the same tokens.
    pub open spec fn same_run(self, other: Self) -> bool {
        &&& self.audio_file@ == other.audio_file@
        &&& self.mode@ == other.mode@
        &&& self.audio_duration_secs == other.audio_duration_secs
        &&& self.decode_tokens == other.decode_tokens
        &&& self.peak_memory_kb == other.peak_memory_kb
        &&& self.shannon_prime == other.shannon_prime
    }
}

/// `p` goes from `zero` over the elements of `xs`, each added to what stands
/// before.
pub open spec fn are_partial_sums<T, A: Fn(T, T) -> T>(
    plus: A,
    zero: T,
    xs: Seq<T>,
    p: Seq<T>,
) -> bool {
    &&& p.len() == xs.len() + 1
    &&& p[0] == zero
    &&& forall|k: int| 0 <= k < xs.len() ==> plus.ensures((p[k], #[trigger] xs[k]), p[k + 1])
}

/// `r` comes of adding `xs` to `zero`, one after the other.
pub open spec fn is_sum<T, A: Fn(T, T) -> T>(plus: A, zero: T, xs: Seq<T>, r: T) -> bool {
    exists|p: Seq<T>| #[trigger] are_partial_sums(plus, zero, xs, p) && p.last() == r
}

/// `r` comes of dividing the sum of `xs` by their number.
pub open spec fn is_mean<T, A: Fn(T, T) -> T, D: Fn(T, usize) -> T>(
    plus: A,
    over: D,
    zero: T,
    xs: Seq<T>,
    r: T,
) -> bool {
    exists|s: T| #[trigger] is_sum(plus, zero, xs, s) && over.ensures((s, xs.len() as usize), r)
}

/// What every round measured for `m` on file `f`.
pub open spec fn column<T: Copy>(
    rounds: Seq<Vec<BenchmarkResult<T>>>,
    f: int,
    m: Metric,
) -> Seq<T> {
    Seq::new(rounds.len(), |i: int| rounds[i]@[f].measured(m))
}

/// `avg` is file `f` over all rounds: what the first round says of it, with the
/// mean of each measured number.
pub open spec fn is_average<T: Copy, A: Fn(T, T) -> T, D: Fn(T, usize) -> T>(
    rounds: Seq<Vec<BenchmarkResult<T>>>,
    plus: A,
    over: D,
    zero: T,
    f: int,
    avg: BenchmarkResult<T>,
) -> bool {
    &&& avg.same_run(rounds[0]@[f])
    &&& forall|m: Metric| is_mean(plus, over, zero, column(rounds, f, m), #[trigger] avg.measured(m))
}

/// The mean of what every round measured for `m` on file `f`.
fn mean_of<T: Copy, A: Fn(T, T) -> T, D: Fn(T, usize) -> T>(
    rounds: &Vec<Vec<BenchmarkResult<T>>>,
    f: usize,
    m: Metric,
    zero: T,
    plus: &A,
    over: &D,
) -> (r: T)
    requires
        forall|i: int| 0 <= i < rounds@.len() ==> f < (#[trigger] rounds@[i])@.len(),
        forall|a: T, b: T| plus.requires((a, b)),
        forall|a: T, n: usize| over.requires((a, n)),
    ensures
        is_mean(*plus, *over, zero, column(rounds@, f as int, m), r),
{
    let ghost col = column(rounds@, f as int, m);
    let mut sum: T = zero;
    let ghost mut sums: Seq<T> = seq![zero];
    let mut i: usize = 0;
    while i < rounds.len()
        invariant
            i <= rounds@.len(),
            forall|k: int| 0 <= k < rounds@.len() ==> f < (#[trigger] rounds@[k])@.len(),
            forall|a: T, b: T| plus.requires((a, b)),
            col == column(rounds@, f as int, m),
            are_partial_sums(*plus, zero, col.take(i as int), sums),
            sums.last() == sum,
        decreases rounds@.len() - i,
    {
        let x: T = rounds[i][f].metric(m);
        let next: T = plus(sum, x);
        proof {
            let xs = col.take(i + 1);
            let before = sums;
            sums = before.push(next);
            assert forall|k: int| 0 <= k < xs.len() implies plus.ensures(
                (sums[k], #[trigger] xs[k]),
                sums[k + 1],
            ) by {
                if k < i {
                    assert(col.take(i as int)[k] == xs[k]);
                }
            }
        }
        sum = next;
        i = i + 1;
    }
    assert(col.take(i as int) =~= col);
    assert(is_sum(*plus, zero, col, sum));
    over(sum, rounds.len())
}

/// Puts the rounds of a benchmark together: one result for each file. Numbers
/// are added and divided by `plus` and `over`.
pub fn average_results<T: Copy, A: Fn(T, T) -> T, D: Fn(T, usize) -> T>(
    rounds: &Vec<Vec<BenchmarkResult<T>>>,
    zero: T,
    plus: A,
    over: D,
) -> (r: Vec<BenchmarkResult<T>>)
    requires
        forall|i: int|
            0 <= i < rounds@.len() ==> (#[trigger] rounds@[i])@.len() >= rounds@[0]@.len(),
        forall|a: T, b: T| plus.requires((a, b)),
        forall|a: T, n: usize| over.requires((a, n)),
    ensures
        r@.len() == if rounds@.len() == 0 {
            0
        } else {
            rounds@[0]@.len()
        },
        forall|f: int|
            0 <= f < r@.len() ==> is_average(rounds@, plus, over, zero, f, #[trigger] r@[f]),
{
    let mut out: Vec<BenchmarkResult<T>> = Vec::new();
    if rounds.len() == 0 {
        return out;
    }
    let files: usize = rounds[0].len();
    let mut f: usize = 0;
    while f < files
        invariant
            rounds@.len() > 0,
            files == rounds@[0]@.len(),
            f <= files,
            forall|i: int|
                0 <= i < rounds@.len() ==> (#[trigger] rounds@[i])@.len() >= rounds@[0]@.len(),
            forall|a: T, b: T| plus.requires((a, b)),
            forall|a: T, n: usize| over.requires((a, n)),
            out@.len() == f,
            forall|k: int|
                0 <= k < f ==> is_average(rounds@, plus, over, zero, k, #[trigger] out@[k]),
        decreases files - f,
    {
        let first = &rounds[0][f];
        let avg = BenchmarkResult {
            audio_file: first.audio_file.as_str().to_owned(),
            mode: first.mode.as_str().to_owned(),
            audio_duration_secs: first.audio_duration_secs,
            preprocess_ms: mean_of(rounds, f, Metric::Preprocess, zero, &plus, &over),
            encode_ms: mean_of(rounds, f, Metric::Encode, zero, &plus, &over),
            transfer_ms: mean_of(rounds, f, Metric::Transfer, zero, &plus, &over),
            decode_ms: mean_of(rounds, f, Metric::Decode, zero, &plus, &over),
            total_ms: mean_of(rounds, f, Metric::Total, zero, &plus, &over),
            rtf: mean_of(rounds, f, Metric::Rtf, zero, &plus, &over),
            decode_tokens: first.decode_tokens,
            tokens_per_sec: mean_of(rounds, f, Metric::TokensPerSec, zero, &plus, &over),
            peak_memory_kb: first.peak_memory_kb,
            shannon_prime: first.shannon_prime,
        };
        proof {
            assert forall|m: Metric| is_mean(
                plus,
                over,
                zero,
                column(rounds@, f as int, m),
                #[trigger] avg.measured(m),
            ) by {
                match m {
                    Metric::Preprocess => {},
                    Metric::Encode => {},
                    Metric::Transfer => {},
                    Metric::Decode => {},
                    Metric::Total => {},
                    Metric::Rtf => {},
                    Metric::TokensPerSec => {},
                }
            }
        }
        out.push(avg);
        f = f + 1;
    }
    out
}

// ---------------------------------------------------------------------------
// What the plans and averages say
// ---------------------------------------------------------------------------

/// A benchmark can be run where there is audio and, to compare modes or to run
/// on two devices, a quantised model; what is missing first is what is named.
pub proof fn lemma_plan_needs(o: BenchOptions)
    ensures
        plan_error(o) is None <==> o.audio_files > 0 && (o.gguf || !(o.compare_all || o.hybrid)),
        plan_error(o) == Some(BenchPlanError::NoAudio) <==> o.audio_files == 0,
        plan_error(o) == Some(BenchPlanError::CompareNeedsGguf) <==> o.audio_files > 0
            && o.compare_all && !o.gguf,
        plan_error(o) == Some(BenchPlanError::HybridNeedsGguf) <==> o.audio_files > 0
            && !o.compare_all && o.hybrid && !o.gguf,
{
}

/// A mode is named after the way it is run: one device by its kind, with its
/// compression behind it where there is one; two devices as hybrid, with the
/// pipeline behind it where there is one. The discrete GPU encodes and the
/// integrated one decodes.
pub open spec fn named_by_runner(c: ConfigModel) -> bool {
    match c.runner {
        BenchRunner::Q4 { device: ComputeDevice::DiscreteGpu(n), shannon_prime, compact } => n == 0
            && !compact && c.mode == if shannon_prime {
            "discrete+SP"@
        } else {
            "discrete"@
        },
        BenchRunner::Q4 { device: ComputeDevice::IntegratedGpu(n), shannon_prime, compact } => n
            == 0 && compact && c.mode == if shannon_prime {
            "integrated+SP"@
        } else {
            "integrated"@
        },
        BenchRunner::Q4 { device: ComputeDevice::DefaultDevice, shannon_prime, compact } => !compact
            && c.mode == if shannon_prime {
            "discrete+SP"@
        } else {
            "auto"@
        },
        BenchRunner::Q4Hybrid { encoder, decoder } => encoder == ComputeDevice::DiscreteGpu(0)
            && decoder == ComputeDevice::IntegratedGpu(0) && c.mode == "hybrid"@,
        BenchRunner::Q4HybridPipelined { encoder, decoder, max_mel_frames } => encoder
            == ComputeDevice::DiscreteGpu(0) && decoder == ComputeDevice::IntegratedGpu(0)
            && max_mel_frames == 600 && c.mode == "hybrid+pipe"@,
        BenchRunner::F32 { device } => c.mode == "f32"@,
    }
}

/// Every mode is named after the way it is run, whether compared or alone, and
/// the comparison starts with the plain discrete GPU.
pub proof fn lemma_modes_are_named_by_runner(i: int, o: BenchOptions)
    requires
        0 <= i < all_modes().len(),
    ensures
        named_by_runner(all_modes()[i]),
        all_modes().len() == 5,
        all_modes()[0].label == "Discrete GPU (RTX)"@,
        all_modes()[1].label == "Discrete GPU + Shannon-Prime"@,
        all_modes()[2].label == "Integrated GPU + Shannon-Prime (compact)"@,
        all_modes()[3].label == "Hybrid (RTX encoder + iGPU decoder)"@,
        all_modes()[4].label == "Hybrid + Pipelined (600-frame chunks)"@,
        all_modes()[0].runner == (BenchRunner::Q4 {
            device: ComputeDevice::DiscreteGpu(0),
            shannon_prime: false,
            compact: false,
        }),
        plan_error(o) is None ==> named_by_runner(single_mode(o)),
{
    lemma_device_names(o.device@);
    reveal_strlit("integrated");
    reveal_strlit("discrete");
    assert("integrated"@.len() == 10 && "discrete"@.len() == 8);
}

/// A single run does as it is told: two devices if hybrid is asked for, else
/// the quantised model if there is one, with compression if asked for, else the
/// full one, on the device named.
pub proof fn lemma_single_run_does_as_told(o: BenchOptions)
    ensures
        single_mode(o).runner is Q4Hybrid <==> o.hybrid,
        single_mode(o).runner is Q4 <==> !o.hybrid && o.gguf,
        single_mode(o).runner is F32 <==> !o.hybrid && !o.gguf,
        single_mode(o).runner matches BenchRunner::Q4 { device, shannon_prime, compact } ==> {
            &&& device == named_device(o.device@)
            &&& shannon_prime == o.shannon_prime
            &&& compact <==> device == ComputeDevice::IntegratedGpu(0)
        },
        single_mode(o).runner matches BenchRunner::F32 { device } ==> device == named_device(
            o.device@,
        ),
        !o.hybrid && o.gguf ==> single_mode(o).label == "Q4 GGUF ("@ + single_mode(o).mode + ")"@,
        !o.hybrid && !o.gguf ==> single_mode(o).label == "f32 SafeTensors"@,
{
    lemma_device_names(o.device@);
}

/// Exactly the spectrograms that have frames are kept, in their order.
pub proof fn lemma_only_empty_chunks_are_left_out<T>(
    mels: Seq<Vec<Vec<T>>>,
    n: int,
    i: int,
    a: int,
    b: int,
)
    requires
        0 <= n <= mels.len(),
    ensures
        0 <= i < n && mels[i]@.len() > 0 ==> with_frames(mels, n).contains(i),
        0 <= a < with_frames(mels, n).len() ==> 0 <= with_frames(mels, n)[a] < n && mels[with_frames(
            mels,
            n,
        )[a]]@.len() > 0,
        0 <= a < b < with_frames(mels, n).len() ==> with_frames(mels, n)[a] < with_frames(
            mels,
            n,
        )[b],
    decreases n,
{
    if n > 0 {
        let all = with_frames(mels, n);
        let less = with_frames(mels, n - 1);
        lemma_only_empty_chunks_are_left_out(mels, n - 1, i, a, b);
        if 0 <= i < n && mels[i]@.len() > 0 {
            if i == n - 1 {
                assert(all[all.len() - 1] == i);
            } else {
                let k = choose|k: int| 0 <= k < less.len() && less[k] == i;
                assert(all[k] == i);
            }
        }
        if 0 <= a < b < all.len() && b == less.len() {
            lemma_only_empty_chunks_are_left_out(mels, n - 1, i, a, a);
        }
    }
}

/// The sum of numbers.
pub open spec fn total_of(xs: Seq<real>) -> real
    decreases xs.len(),
{
    if xs.len() == 0 {
        0 as real
    } else {
        total_of(xs.drop_last()) + xs.last()
    }
}

proof fn lemma_partial_sums_total<T, A: Fn(T, T) -> T>(
    plus: A,
    zero: T,
    xs: Seq<T>,
    p: Seq<T>,
    val: spec_fn(T) -> real,
)
    requires
        are_partial_sums(plus, zero, xs, p),
        val(zero) == 0 as real,
        forall|a: T, b: T, r: T| #[trigger] plus.ensures((a, b), r) ==> val(r) == val(a) + val(b),
    ensures
        val(p.last()) == total_of(xs.map_values(val)),
    decreases xs.len(),
{
    let nums = xs.map_values(val);
    if xs.len() > 0 {
        let n = xs.len() - 1;
        let init = xs.drop_last();
        let q = p.drop_last();
        assert forall|k: int| 0 <= k < init.len() implies plus.ensures(
            (q[k], #[trigger] init[k]),
            q[k + 1],
        ) by {
            assert(xs[k] == init[k]);
        }
        lemma_partial_sums_total(plus, zero, init, q, val);
        assert(nums.drop_last() =~= init.map_values(val));
        assert(plus.ensures((p[n], xs[n]), p[n + 1]));
    }
}

/// An average is one: where numbers are added and divided without rounding, a
/// mean times the number of rounds is the sum of what the rounds measured.
pub proof fn lemma_mean_is_exact<T, A: Fn(T, T) -> T, D: Fn(T, usize) -> T>(
    plus: A,
    over: D,
    zero: T,
    xs: Seq<T>,
    r: T,
    val: spec_fn(T) -> real,
)
    requires
        is_mean(plus, over, zero, xs, r),
        xs.len() <= usize::MAX,
        val(zero) == 0 as real,
        forall|a: T, b: T, s: T| #[trigger] plus.ensures((a, b), s) ==> val(s) == val(a) + val(b),
        forall|a: T, n: usize, s: T| #[trigger]
            over.ensures((a, n), s) ==> val(s) * (n as real) == val(a),
    ensures
        val(r) * (xs.len() as real) == total_of(xs.map_values(val)),
{
    let s = choose|s: T| #[trigger]
        is_sum(plus, zero, xs, s) && over.ensures((s, xs.len() as usize), r);
    let p = choose|p: Seq<T>| #[trigger] are_partial_sums(plus, zero, xs, p) && p.last() == s;
    lemma_partial_sums_total(plus, zero, xs, p, val);
}

/// Tokens are counted list by list, from none.
pub proof fn lemma_tokens_are_counted(lists: Seq<Vec<i32>>, n: int)
    requires
        0 <= n < lists.len(),
    ensures
        token_total(lists, 0) == 0,
        token_total(lists, n + 1) == token_total(lists, n) + lists[n]@.len(),
        token_total(lists, n) >= 0,
{
    lemma_total_grows(lists, 0, n);
}

/// An average is of one file and of every number measured on it: each is the
/// mean of its own column, and what is not measured is as in the first round.
pub proof fn lemma_average_is_of_every_number<
    T: Copy,
    A: Fn(T, T) -> T,
    D: Fn(T, usize) -> T,
>(
    rounds: Seq<Vec<BenchmarkResult<T>>>,
    plus: A,
    over: D,
    zero: T,
    f: int,
    avg: BenchmarkResult<T>,
)
    requires
        is_average(rounds, plus, over, zero, f, avg),
    ensures
        ({
            let n = rounds.len();
            let first = rounds[0]@[f];
            &&& is_mean(
                plus,
                over,
                zero,
                Seq::new(n, |i: int| rounds[i]@[f].preprocess_ms),
                avg.preprocess_ms,
            )
            &&& is_mean(
                plus,
                over,
                zero,
                Seq::new(n, |i: int| rounds[i]@[f].encode_ms),
                avg.encode_ms,
            )
            &&& is_mean(
                plus,
                over,
                zero,
                Seq::new(n, |i: int| rounds[i]@[f].transfer_ms),
                avg.transfer_ms,
            )
            &&& is_mean(
                plus,
                over,
                zero,
                Seq::new(n, |i: int| rounds[i]@[f].decode_ms),
                avg.decode_ms,
            )
            &&& is_mean(
                plus,
                over,
                zero,
                Seq::new(n, |i: int| rounds[i]@[f].total_ms),
                avg.total_ms,
            )
            &&& is_mean(plus, over, zero, Seq::new(n, |i: int| rounds[i]@[f].rtf), avg.rtf)
            &&& is_mean(
                plus,
                over,
                zero,
                Seq::new(n, |i: int| rounds[i]@[f].tokens_per_sec),
                avg.tokens_per_sec,
            )
            &&& avg.audio_file@ == first.audio_file@
            &&& avg.mode@ == first.mode@
            &&& avg.audio_duration_secs == first.audio_duration_secs
            &&& avg.decode_tokens == first.decode_tokens
            &&& avg.peak_memory_kb == first.peak_memory_kb
            &&& avg.shannon_prime == first.shannon_prime
        }),
{
    let n = rounds.len();
    assert(is_mean(plus, over, zero, column(rounds, f, Metric::Preprocess), avg.measured(
        Metric::Preprocess,
    )));
    assert(is_mean(plus, over, zero, column(rounds, f, Metric::Encode), avg.measured(
        Metric::Encode,
    )));
    assert(is_mean(plus, over, zero, column(rounds, f, Metric::Transfer), avg.measured(
        Metric::Transfer,
    )));
    assert(is_mean(plus, over, zero, column(rounds, f, Metric::Decode), avg.measured(
        Metric::Decode,
    )));
    assert(is_mean(plus, over, zero, column(rounds, f, Metric::Total), avg.measured(
        Metric::Total,
    )));
    assert(is_mean(plus, over, zero, column(rounds, f, Metric::Rtf), avg.measured(Metric::Rtf)));
    assert(is_mean(plus, over, zero, column(rounds, f, Metric::TokensPerSec), avg.measured(
        Metric::TokensPerSec,
    )));
    assert(column(rounds, f, Metric::Preprocess) =~= Seq::new(
        n,
        |i: int| rounds[i]@[f].preprocess_ms,
    ));
    assert(column(rounds, f, Metric::Encode) =~= Seq::new(n, |i: int| rounds[i]@[f].encode_ms));
    assert(column(rounds, f, Metric::Transfer) =~= Seq::new(
        n,
        |i: int| rounds[i]@[f].transfer_ms,
    ));
    assert(column(rounds, f, Metric::Decode) =~= Seq::new(n, |i: int| rounds[i]@[f].decode_ms));
    assert(column(rounds, f, Metric::Total) =~= Seq::new(n, |i: int| rounds[i]@[f].total_ms));
    assert(column(rounds, f, Metric::Rtf) =~= Seq::new(n, |i: int| rounds[i]@[f].rtf));
    assert(column(rounds, f, Metric::TokensPerSec) =~= Seq::new(
        n,
        |i: int| rounds[i]@[f].tokens_per_sec,
    ));
}

} // verus!

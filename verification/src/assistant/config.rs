//! Static configuration of a session.

use std::path::PathBuf;
use vstd::prelude::*;

verus! {

#[verifier::external_type_specification]
#[verifier::external_body]
pub struct ExPathBuf(std::path::PathBuf);

/// `PathBuf::clone` gives the same path.
pub assume_specification[ <PathBuf as Clone>::clone ](path: &PathBuf) -> (r: PathBuf)
    ensures
        r == *path,
;

/// Top-level configuration of a session.
#[derive(Debug, Clone)]
pub struct AssistantConfig {
    /// Speech recognition model.
    pub asr_gguf: PathBuf,
    /// Tokenizer of that model.
    pub tokenizer_path: PathBuf,
    /// Speech synthesis model, if any.
    pub tts_gguf: Option<PathBuf>,
    /// Directory of voice presets.
    pub voices_dir: PathBuf,
    /// Selected voice preset.
    pub voice: String,
    /// Mic and speaker.
    pub audio: AudioConfig,
    /// Voice activity detection.
    pub vad: VadConfig,
    /// Latency masking.
    pub latency: LatencyConfig,
    /// Encoder on the discrete GPU, decoder on the integrated one.
    pub hybrid: bool,
    /// Compress the key/value cache.
    pub shannon_prime: bool,
    /// Most tokens in the key/value cache.
    pub max_kv_tokens: usize,
    /// Render the terminal interface.
    pub tui: bool,
}

/// Mic and speaker configuration.
#[derive(Debug, Clone)]
pub struct AudioConfig {
    /// Sample rate fed into speech recognition.
    pub input_rate_hz: u32,
    /// Sample rate of synthesised speech.
    pub output_rate_hz: u32,
    /// Mic chunk size in milliseconds.
    pub input_chunk_ms: u32,
    /// Depth of the speaker's jitter buffer in milliseconds.
    pub output_jitter_ms: u32,
    /// Input device name; `None` for the default device.
    pub input_device: Option<String>,
    /// Output device name; `None` for the default device.
    pub output_device: Option<String>,
}

impl Default for AudioConfig {
    fn default() -> (r: Self)
        ensures
            r.input_rate_hz == 16_000,
            r.output_rate_hz == 24_000,
            r.input_chunk_ms == 20,
            r.output_jitter_ms == 80,
            r.input_device is None,
            r.output_device is None,
    {
        AudioConfig {
            input_rate_hz: 16_000,
            output_rate_hz: 24_000,
            input_chunk_ms: 20,
            output_jitter_ms: 80,
            input_device: None,
            output_device: None,
        }
    }
}

/// Voice activity detection. The two thresholds are held as the bits of
/// single-precision numbers.
#[derive(Debug, Clone, Copy)]
pub struct VadConfig {
    /// Frames of speech in a row that start an utterance.
    pub speech_start_frames: u8,
    /// Frames of silence in a row that end it.
    pub speech_end_frames: u8,
    /// RMS above which a frame counts as loud.
    pub energy_threshold_bits: u32,
    /// Spectral entropy above which a frame counts as noise.
    pub entropy_ceiling_bits: u32,
}

/// 0.015 in single precision.
pub const DEFAULT_ENERGY_THRESHOLD_BITS: u32 = 0x3c75_c28f;

/// 5.0 in single precision.
pub const DEFAULT_ENTROPY_CEILING_BITS: u32 = 0x40a0_0000;

impl Default for VadConfig {
    fn default() -> (r: Self)
        ensures
            r.speech_start_frames == 3,
            r.speech_end_frames == 8,
            r.energy_threshold_bits == DEFAULT_ENERGY_THRESHOLD_BITS,
            r.entropy_ceiling_bits == DEFAULT_ENTROPY_CEILING_BITS,
    {
        VadConfig {
            speech_start_frames: 3,
            speech_end_frames: 8,
            energy_threshold_bits: DEFAULT_ENERGY_THRESHOLD_BITS,
            entropy_ceiling_bits: DEFAULT_ENTROPY_CEILING_BITS,
        }
    }
}

/// Latency masking.
#[derive(Debug, Clone, Copy)]
pub struct LatencyConfig {
    /// Milliseconds without a token after which a filler plays.
    pub filler_after_ms: u64,
    /// Milliseconds of cross-fade when playback is interrupted.
    pub interrupt_fade_ms: u64,
    /// Run every model once at startup.
    pub prewarm: bool,
    /// Loop room tone under the conversation.
    pub ambient_tail: bool,
    /// Play a sound when the session starts.
    pub connection_sound: bool,
}

impl Default for LatencyConfig {
    fn default() -> (r: Self)
        ensures
            r.filler_after_ms == 100,
            r.interrupt_fade_ms == 30,
            r.prewarm,
            r.ambient_tail,
            r.connection_sound,
    {
        LatencyConfig {
            filler_after_ms: 100,
            interrupt_fade_ms: 30,
            prewarm: true,
            ambient_tail: true,
            connection_sound: true,
        }
    }
}

/// Number of samples in `millis` milliseconds at `rate` samples per second,
/// rounded down.
pub open spec fn samples_in(rate: int, millis: int) -> int {
    (rate * millis) / 1000
}

/// Number of samples in `millis` milliseconds at `rate` samples per second.
pub fn samples_per(rate: u32, millis: u32) -> (r: usize)
    requires
        rate * millis <= usize::MAX,
    ensures
        r == samples_in(rate as int, millis as int),
{
    proof {
        assert(0 <= rate * millis) by (nonlinear_arith)
            requires
                rate >= 0,
                millis >= 0,
        ;
    }
    (rate as usize * millis as usize) / 1000
}

impl AssistantConfig {
    /// Number of samples in one mic chunk.
    pub fn input_chunk_samples(&self) -> (r: usize)
        requires
            self.audio.input_rate_hz * self.audio.input_chunk_ms <= usize::MAX,
        ensures
            r == samples_in(self.audio.input_rate_hz as int, self.audio.input_chunk_ms as int),
    {
        samples_per(self.audio.input_rate_hz, self.audio.input_chunk_ms)
    }

    /// Number of samples in the speaker's jitter buffer.
    pub fn output_jitter_samples(&self) -> (r: usize)
        requires
            self.audio.output_rate_hz * self.audio.output_jitter_ms <= usize::MAX,
        ensures
            r == samples_in(self.audio.output_rate_hz as int, self.audio.output_jitter_ms as int),
    {
        samples_per(self.audio.output_rate_hz, self.audio.output_jitter_ms)
    }
}

/// A number of samples lasts as long as it is asked to, up to less than one
/// sample: a second holds the rate's worth, and the count grows with rate and
/// time.
pub proof fn lemma_samples_last(rate: int, millis: int)
    requires
        rate >= 0,
        millis >= 0,
    ensures
        samples_in(rate, millis) * 1000 <= rate * millis < (samples_in(rate, millis) + 1) * 1000,
        samples_in(rate, 1000) == rate,
        samples_in(16_000, millis) == 16 * millis,
        samples_in(24_000, millis) == 24 * millis,
{
    assert(rate * 1000 == 1000 * rate) by (nonlinear_arith);
}

} // verus!

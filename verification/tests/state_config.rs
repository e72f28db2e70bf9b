use std::path::PathBuf;
use voxtral_mini_realtime::assistant::config::{
    samples_per, AssistantConfig, AudioConfig, LatencyConfig, VadConfig,
};
use voxtral_mini_realtime::assistant::state::SessionState;

#[test]
fn label_round_trip() {
    for s in [
        SessionState::Idle,
        SessionState::Listening,
        SessionState::Thinking,
        SessionState::Speaking,
        SessionState::Interrupted,
    ] {
        assert!(!s.label().is_empty());
        assert_eq!(s.to_string(), s.label());
    }
}

fn config() -> AssistantConfig {
    AssistantConfig {
        asr_gguf: PathBuf::new(),
        tokenizer_path: PathBuf::new(),
        tts_gguf: None,
        voices_dir: PathBuf::new(),
        voice: String::new(),
        audio: AudioConfig::default(),
        vad: VadConfig::default(),
        latency: LatencyConfig::default(),
        hybrid: false,
        shannon_prime: false,
        max_kv_tokens: 4096,
        tui: false,
    }
}

#[test]
fn input_chunk_samples_at_16k_20ms() {
    let cfg = config();
    assert_eq!(cfg.input_chunk_samples(), 320);
    assert_eq!(cfg.output_jitter_samples(), 1920);
}

#[test]
fn defaults_are_as_documented() {
    let a = AudioConfig::default();
    assert_eq!((a.input_rate_hz, a.output_rate_hz), (16_000, 24_000));
    assert!(a.input_device.is_none() && a.output_device.is_none());
    let v = VadConfig::default();
    assert_eq!((v.speech_start_frames, v.speech_end_frames), (3, 8));
    assert_eq!(f32::from_bits(v.energy_threshold_bits), 0.015);
    assert_eq!(f32::from_bits(v.entropy_ceiling_bits), 5.0);
    let l = LatencyConfig::default();
    assert_eq!((l.filler_after_ms, l.interrupt_fade_ms), (100, 30));
    assert!(l.prewarm && l.ambient_tail && l.connection_sound);
    assert_eq!(samples_per(44_100, 10), 441);
    assert_eq!(samples_per(11_025, 1), 11);
}

#[test]
fn configurations_clone_their_paths() {
    let mut cfg = config();
    cfg.asr_gguf = PathBuf::from("models/asr.gguf");
    cfg.tts_gguf = Some(PathBuf::from("models/tts.gguf"));
    let other = cfg.clone();
    assert_eq!(other.asr_gguf, PathBuf::from("models/asr.gguf"));
    assert_eq!(other.tts_gguf, Some(PathBuf::from("models/tts.gguf")));
}

use std::path::PathBuf;
use voxtral_mini_realtime::assistant::audio_in::{ChunkAssembler, PcmChunk};
use voxtral_mini_realtime::assistant::audio_out::{apply_cmd, fan_out, AudioChunk, AudioOutCmd};
use voxtral_mini_realtime::assistant::config::{
    AssistantConfig, AudioConfig, LatencyConfig, VadConfig,
};
use voxtral_mini_realtime::assistant::filler::{pick_filler, FillerTimer, LoopPlayer, TimerAction};
use voxtral_mini_realtime::assistant::mixer::{MixQueues, MixSource, MixerCmd, TICK_MS};
use voxtral_mini_realtime::assistant::orchestrator::{
    barge_in, turn_step, BargeIn, TurnEvent, TurnPhase, UtteranceAssembler, VadEvent,
};
use voxtral_mini_realtime::assistant::state::SessionState;
use voxtral_mini_realtime::assistant::tts::{
    codec_input, plan_load, speech_source, tts_prompt, voice_file, CodecFrame, FileSource,
    MarkerTokens, PromptPart, SpeechSource, TtsFiles, TtsPlan, TtsUnavailable,
};
use voxtral_mini_realtime::assistant::vad::{Hysteresis, Streaks};
use voxtral_mini_realtime::audio::RingBuffer;
use voxtral_mini_realtime::engine::svm::ComputeDevice;

fn config() -> AssistantConfig {
    AssistantConfig {
        asr_gguf: PathBuf::new(),
        tokenizer_path: PathBuf::new(),
        tts_gguf: None,
        voices_dir: PathBuf::new(),
        voice: String::new(),
        audio: AudioConfig::default(),
        vad: VadConfig::default(),
        latency: LatencyConfig::default(),
        hybrid: false,
        shannon_prime: false,
        max_kv_tokens: 4096,
        tui: false,
    }
}

#[test]
fn mic_chunks_are_numbered_without_gaps() {
    let mut a = ChunkAssembler::new(4);
    assert!(a.feed(&[1, 2, 3]).is_empty());
    let out: Vec<PcmChunk<i32>> = a.feed(&[4, 5, 6, 7, 8, 9]);
    let got: Vec<(u64, Vec<i32>)> = out.into_iter().map(|c| (c.frame, c.samples)).collect();
    assert_eq!(got, vec![(0, vec![1, 2, 3, 4]), (1, vec![5, 6, 7, 8])]);
    let out = a.feed(&[10, 11, 12]);
    assert_eq!(out[0].frame, 2);
    assert_eq!(out[0].samples, vec![9, 10, 11, 12]);
    assert_eq!(a.frame, 3);
}

#[test]
fn flush_empties_the_jitter_buffer() {
    let mut rb: RingBuffer<f32> = RingBuffer::new(8);
    let chunk = AudioChunk {
        samples: vec![0.5; 5],
    };
    rb.push_slice(&chunk.samples);
    apply_cmd(&mut rb, AudioOutCmd::Flush);
    assert!(rb.is_empty());
    assert_eq!(rb.capacity(), 8);
}

#[test]
fn mono_is_repeated_on_every_channel() {
    assert_eq!(fan_out(&[1, 2, 3], 2), vec![1, 1, 2, 2, 3, 3]);
    assert_eq!(fan_out(&[1, 2, 3], 1), vec![1, 2, 3]);
    assert!(fan_out(&[1, 2, 3], 0).is_empty());
}

#[test]
fn mixer_takes_one_sample_of_each_source() {
    let mut m = MixQueues::new();
    m.queue(MixSource::Voice, &[1, 2, 3]);
    m.queue(MixSource::Filler, &[10]);
    m.queue(MixSource::Connection, &[20, 21]);
    m.queue(MixSource::Ambient, &[30, 31, 32, 33]);
    let first = m.tick(2);
    assert_eq!(first.len(), 2);
    assert_eq!(first[0].voice, Some(1));
    assert_eq!(first[0].filler, Some(10));
    assert_eq!(first[1].filler, None);
    assert_eq!(first[1].connection, Some(21));
    // A flush drops the voice alone.
    assert_eq!(m.command(MixerCmd::FlushVoice), 1);
    m.queue(MixSource::Voice, &[7]);
    let next = m.tick(3);
    let voices: Vec<Option<i32>> = next.iter().map(|f| f.voice).collect();
    let ambient: Vec<Option<i32>> = next.iter().map(|f| f.ambient).collect();
    assert_eq!(voices, vec![Some(7), None, None]);
    assert_eq!(ambient, vec![Some(32), Some(33), None]);
    assert_eq!(TICK_MS, 20);
}

#[test]
fn mixer_ticks_add_up() {
    let samples: Vec<u32> = (0..10).collect();
    let mut one = MixQueues::new();
    one.queue(MixSource::Voice, &samples);
    let mut two = MixQueues::new();
    two.queue(MixSource::Voice, &samples);
    let whole: Vec<Option<u32>> = one.tick(12).iter().map(|f| f.voice).collect();
    let mut parts: Vec<Option<u32>> = two.tick(5).iter().map(|f| f.voice).collect();
    parts.extend(two.tick(7).iter().map(|f| f.voice));
    assert_eq!(whole, parts);
}

#[test]
fn filler_timer_runs_once_per_thinking() {
    let mut t = FillerTimer::new();
    assert_eq!(t.state_changed(SessionState::Listening), TimerAction::Idle);
    assert!(!t.fired());
    assert_eq!(t.state_changed(SessionState::Thinking), TimerAction::Start);
    assert!(t.fired());
    assert!(!t.fired());
    assert_eq!(t.state_changed(SessionState::Speaking), TimerAction::Idle);
    assert_eq!(t.state_changed(SessionState::Thinking), TimerAction::Start);
    assert_eq!(t.state_changed(SessionState::Speaking), TimerAction::Cancel);
    assert!(!t.fired());
    assert_eq!(t.state_changed(SessionState::Thinking), TimerAction::Start);
    assert_eq!(t.state_changed(SessionState::Thinking), TimerAction::Start);
    assert!(t.fired());
}

#[test]
fn fillers_do_not_repeat() {
    assert_eq!(pick_filler(0, None), None);
    assert_eq!(pick_filler(1, Some(0)), Some(0));
    let mut last = None;
    let mut seen = [0; 3];
    for _ in 0..200 {
        let next = pick_filler(3, last).unwrap();
        assert!(next < 3);
        assert_ne!(Some(next), last);
        seen[next] += 1;
        last = Some(next);
    }
    assert!(seen.iter().all(|&n| n > 0));
}

#[test]
fn room_tone_loops() {
    assert!(LoopPlayer::<f32>::new(vec![]).is_none());
    let mut p = LoopPlayer::new(vec![1, 2, 3]).unwrap();
    assert_eq!(p.next_chunk(2), vec![1, 2]);
    assert_eq!(p.next_chunk(5), vec![3, 1, 2, 3, 1]);
    assert_eq!(p.pos, 1);
    assert!(p.next_chunk(0).is_empty());
}

#[test]
fn detector_needs_streaks_both_ways() {
    let mut h = Hysteresis::new(&VadConfig {
        speech_start_frames: 2,
        speech_end_frames: 3,
        ..VadConfig::default()
    });
    let frames = [
        true, false, true, true, false, false, true, false, false, false, true,
    ];
    let got: Vec<bool> = frames.iter().map(|&f| h.frame(f)).collect();
    assert_eq!(
        got,
        vec![false, false, false, true, true, true, true, true, true, false, false]
    );
}

#[test]
fn streak_counts_stop_at_the_top() {
    let mut s = Streaks::new();
    for _ in 0..300 {
        s.note(true);
    }
    assert_eq!((s.above, s.below), (255, 0));
    s.note(false);
    assert_eq!((s.above, s.below), (0, 1));
}

#[test]
fn utterance_starts_with_its_preroll() {
    let mut cfg = config();
    cfg.audio.input_rate_hz = 20; // A pre-roll of 4 samples.
    cfg.vad.speech_start_frames = 2;
    cfg.vad.speech_end_frames = 2;
    let mut a = UtteranceAssembler::new(&cfg);
    assert_eq!(a.preroll_samples, 4);
    for (i, active) in [false, false, false, true].iter().enumerate() {
        let base = 2 * i as i32;
        let step = a.chunk(*active, &[base, base + 1]);
        assert!(step.event.is_none() && step.utterance.is_none());
    }
    let step = a.chunk(true, &[8, 9]);
    assert_eq!(step.event, Some(VadEvent::SpeechStart));
    assert!(step.utterance.is_none());
    assert!(a.chunk(false, &[10, 11]).event.is_none());
    let step = a.chunk(false, &[12, 13]);
    assert_eq!(step.event, Some(VadEvent::SpeechEnd));
    // One unbroken run: the last samples before the start, and all since.
    assert_eq!(step.utterance, Some(vec![6, 7, 8, 9, 10, 11, 12, 13]));
    assert!(!a.in_speech);
    assert!(a.buf.is_empty());
}

#[test]
fn long_chunks_are_kept_whole() {
    let mut cfg = config();
    cfg.audio.input_rate_hz = 10; // A pre-roll of 2 samples.
    cfg.vad.speech_start_frames = 1;
    cfg.vad.speech_end_frames = 1;
    let mut a = UtteranceAssembler::new(&cfg);
    a.chunk(false, &[1, 2, 3]);
    assert_eq!(a.preroll, vec![1, 2, 3]);
    a.chunk(true, &[4, 5, 6]);
    assert_eq!(a.chunk(false, &[]).utterance, Some(vec![4, 5, 6]));
    let mut b: UtteranceAssembler<i32> = UtteranceAssembler::new(&cfg);
    assert_eq!(b.chunk(true, &[]).event, Some(VadEvent::SpeechStart));
    let step = b.chunk(false, &[]);
    assert_eq!(step.event, Some(VadEvent::SpeechEnd));
    assert!(step.utterance.is_none());
}

#[test]
fn speech_interrupts_only_the_reply() {
    let start = VadEvent::SpeechStart;
    assert_eq!(barge_in(SessionState::Speaking, start), BargeIn::Interrupt);
    assert_eq!(barge_in(SessionState::Idle, start), BargeIn::Listen);
    assert_eq!(barge_in(SessionState::Thinking, start), BargeIn::Ignore);
    assert_eq!(barge_in(SessionState::Listening, start), BargeIn::Ignore);
    assert_eq!(
        barge_in(SessionState::Speaking, VadEvent::SpeechEnd),
        BargeIn::Ignore
    );
}

#[test]
fn turn_goes_through_its_states() {
    let (p, s) = turn_step(TurnPhase::Waiting, &TurnEvent::Utterance);
    assert_eq!((p, s), (TurnPhase::Transcribing, Some(SessionState::Thinking)));
    let (p, s) = turn_step(p, &TurnEvent::Transcript("hello".to_string()));
    assert_eq!((p, s), (TurnPhase::Synthesizing, None));
    let (p, s) = turn_step(p, &TurnEvent::Audio);
    assert_eq!((p, s), (TurnPhase::Streaming, Some(SessionState::Speaking)));
    let (p, s) = turn_step(p, &TurnEvent::Streamed);
    assert_eq!((p, s), (TurnPhase::Waiting, Some(SessionState::Listening)));
}

#[test]
fn turn_falls_back_to_listening() {
    let listening = (TurnPhase::Waiting, Some(SessionState::Listening));
    assert_eq!(
        turn_step(
            TurnPhase::Transcribing,
            &TurnEvent::Transcript(" \t\n\u{2003}".to_string())
        ),
        listening
    );
    assert_eq!(
        turn_step(TurnPhase::Transcribing, &TurnEvent::Failed),
        listening
    );
    assert_eq!(
        turn_step(TurnPhase::Synthesizing, &TurnEvent::Failed),
        listening
    );
    assert_eq!(
        turn_step(TurnPhase::Waiting, &TurnEvent::Audio),
        (TurnPhase::Waiting, None)
    );
}

#[test]
fn synthesis_files_in_order() {
    let all = TtsFiles {
        configured: true,
        model: true,
        voice: true,
        sibling_voice: true,
        tokenizer: true,
        sibling_tokenizer: true,
    };
    assert_eq!(
        plan_load(&all, true),
        Ok(TtsPlan {
            voice: FileSource::Configured,
            tokenizer: FileSource::Configured,
            device: ComputeDevice::DiscreteGpu(0),
        })
    );
    let siblings = TtsFiles {
        voice: false,
        tokenizer: false,
        ..all
    };
    assert_eq!(
        plan_load(&siblings, false),
        Ok(TtsPlan {
            voice: FileSource::Sibling,
            tokenizer: FileSource::Sibling,
            device: ComputeDevice::DefaultDevice,
        })
    );
    let none = TtsFiles {
        configured: false,
        ..all
    };
    assert_eq!(plan_load(&none, false), Err(TtsUnavailable::NotConfigured));
    let no_model = TtsFiles { model: false, ..all };
    assert_eq!(plan_load(&no_model, false), Err(TtsUnavailable::ModelMissing));
    let no_voice = TtsFiles {
        voice: false,
        sibling_voice: false,
        ..all
    };
    assert_eq!(plan_load(&no_voice, false), Err(TtsUnavailable::VoiceMissing));
    let no_tokenizer = TtsFiles {
        tokenizer: false,
        sibling_tokenizer: false,
        ..all
    };
    assert_eq!(
        plan_load(&no_tokenizer, false),
        Err(TtsUnavailable::TokenizerMissing)
    );
    assert_eq!(voice_file("casual_female"), "casual_female.safetensors");
}

#[test]
fn speech_sources() {
    assert_eq!(speech_source("  \n", true), SpeechSource::Silence);
    assert_eq!(speech_source("hi", true), SpeechSource::Model);
    assert_eq!(speech_source("hi", false), SpeechSource::Blip);
}

#[test]
fn synthesis_prompt_parts() {
    let m = MarkerTokens {
        bos: 1,
        begin_audio: 25,
        next_audio_text: 35,
        repeat_audio_text: 36,
    };
    let shown: Vec<Option<Vec<i32>>> = tts_prompt(&m, &[100, u32::MAX])
        .into_iter()
        .map(|p| match p {
            PromptPart::Tokens(ids) => Some(ids),
            PromptPart::Voice => None,
        })
        .collect();
    assert_eq!(
        shown,
        vec![
            Some(vec![1]),
            Some(vec![25]),
            None,
            Some(vec![35]),
            Some(vec![100, -1]),
            Some(vec![36]),
            Some(vec![25]),
        ]
    );
}

#[test]
fn codec_frames_are_flattened() {
    let frames = vec![
        CodecFrame {
            semantic_idx: 7,
            acoustic_levels: vec![1u8, 2],
        },
        CodecFrame {
            semantic_idx: 8,
            acoustic_levels: vec![3, 4],
        },
    ];
    assert_eq!(codec_input(&frames), (vec![7, 8], vec![1, 2, 3, 4]));
}

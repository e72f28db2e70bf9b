use std::path::PathBuf;
use voxtral_mini_realtime::assistant::llm::{DoneReason, LlmEvent};
use voxtral_mini_realtime::audio::chunks::{bucket_span, copy_range, split_chunks, Framer};
use voxtral_mini_realtime::bench::{
    bench_schedule, mode_name, parse_number, parse_rss_kb, select_stages, short_name,
    transpose_mel, BenchRun, ReplyMeter, Stages,
};
use voxtral_mini_realtime::engine::svm::{
    estimate_kv_memory, select_device, select_svm_device, ComputeDevice,
};
use voxtral_mini_realtime::engine::EngineConfig;
use voxtral_mini_realtime::speak::{
    first_existing, list_voices, token_source, voice_of_file, TokenSource,
};
use voxtral_mini_realtime::text::{
    chars_of, contains, decimal_text, is_whitespace, stands_at, string_of, trim_bounds,
};
use voxtral_mini_realtime::tui::{
    pill_color, pill_text_is_black, role_tag, session_clock, waveform_glyph, Bar, Glyph, Transcript,
    TranscriptRole,
};

#[test]
fn test_kv_memory_estimate() {
    // 26 layers, 8 KV heads, head_dim=128, 200 tokens
    let (uncomp, comp) = estimate_kv_memory(26, 8, 128, 200);
    assert_eq!(uncomp, 42_598_400);
    assert!(comp < uncomp / 4);
    assert!(comp > uncomp / 5);
}

#[test]
fn test_l3_cache_capacity() {
    // How many tokens fit in 24 MB with compression?
    let l3_size = 24 * 1024 * 1024;
    let (_, compressed_per_token) = estimate_kv_memory(26, 8, 128, 1);
    let tokens_in_l3 = l3_size / compressed_per_token;
    assert!(
        tokens_in_l3 > 400,
        "Expected >400 tokens in L3, got {}",
        tokens_in_l3
    );
}

#[test]
fn estimate_is_linear_in_length() {
    let (one, _) = estimate_kv_memory(26, 8, 128, 1);
    let (many, _) = estimate_kv_memory(26, 8, 128, 77);
    assert_eq!(many, 77 * one);
    assert_eq!(estimate_kv_memory(26, 8, 128, 200).1, 42_598_400 * 100 / 460);
}

#[test]
fn devices_by_name() {
    assert_eq!(select_device("integrated"), ComputeDevice::IntegratedGpu(0));
    assert_eq!(select_device("discrete"), ComputeDevice::DiscreteGpu(0));
    assert_eq!(select_device("Discrete"), ComputeDevice::DefaultDevice);
    assert_eq!(select_device(""), ComputeDevice::DefaultDevice);
    assert_eq!(select_svm_device(), ComputeDevice::IntegratedGpu(0));
}

#[test]
fn engine_presets() {
    let d = EngineConfig::default();
    assert!(!d.use_integrated_gpu && !d.shannon_prime && d.head_dim == 128);
    let n = EngineConfig::nuc_svm().with_optane(PathBuf::from("/dev/pmem0"));
    assert!(n.use_integrated_gpu && n.shannon_prime);
    assert_eq!(n.optane_path, Some(PathBuf::from("/dev/pmem0")));
    let c = EngineConfig::discrete_with_compression();
    assert!(!c.use_integrated_gpu && c.shannon_prime);
}

#[test]
fn signals_are_cut_into_chunks() {
    assert_eq!(split_chunks(&[1, 2, 3, 4, 5], 2), vec![vec![1, 2], vec![3, 4], vec![5]]);
    assert_eq!(split_chunks(&[1, 2], 5), vec![vec![1, 2]]);
    assert!(split_chunks::<i32>(&[], 3).is_empty());
    assert_eq!(copy_range(&[1, 2, 3, 4], 1, 3), vec![2, 3]);
}

#[test]
fn framing_does_not_depend_on_arrival() {
    let all: Vec<i32> = (0..17).collect();
    let mut whole = Framer::new(4);
    let want = whole.push(&all);
    let mut split = Framer::new(4);
    let mut got = split.push(&all[..6]);
    got.extend(split.push(&all[6..7]));
    got.extend(split.push(&all[7..]));
    assert_eq!(got, want);
    assert_eq!(want.len(), 4);
}

#[test]
fn resident_set_size_is_found() {
    let status = "Name:\tx\nVmPeak:\t  99 kB\nVmRSS:\t   12345 kB\nVmRSS:\t1 kB\n";
    assert_eq!(parse_rss_kb(status), Some(12345));
    assert_eq!(parse_rss_kb("VmRSS: 7"), Some(7));
    assert_eq!(parse_rss_kb("VmRSS:\r\n"), None);
    assert_eq!(parse_rss_kb("VmRSS: x kB\nVmRSS: 5 kB"), None);
    assert_eq!(parse_rss_kb(" VmRSS: 5 kB"), None);
    assert_eq!(parse_rss_kb(""), None);
}

#[test]
fn numbers_are_read_as_written() {
    let p = |s: &str| parse_number(&chars_of(s));
    assert_eq!(p("0"), Some(0));
    assert_eq!(p("+17"), Some(17));
    assert_eq!(p("007"), Some(7));
    assert_eq!(p("18446744073709551615"), Some(u64::MAX));
    assert_eq!(p("18446744073709551616"), None);
    assert_eq!(p("99999999999999999999"), None);
    assert_eq!(p(""), None);
    assert_eq!(p("+"), None);
    assert_eq!(p("-1"), None);
    assert_eq!(p("1a"), None);
}

#[test]
fn table_shows_short_names() {
    assert_eq!(short_name("test_data/a.wav"), "a.wav");
    assert_eq!(short_name("c:\\audio\\b.wav"), "b.wav");
    assert_eq!(short_name("b.wav"), "b.wav");
    assert_eq!(short_name("dir/"), "");
    assert_eq!(short_name("x/abcdefghijklmnopqrstuvwxyz.wav"), "abcdefghijklmnopqrs");
    assert_eq!(short_name("abcdefghijklmnopqrs"), "abcdefghijklmnopqrs");
}

#[test]
fn every_file_runs_in_every_round() {
    let runs = bench_schedule(1, 2, 2);
    let run = |warmup: bool, file: usize| BenchRun { warmup, file };
    assert_eq!(
        runs,
        vec![
            run(true, 0),
            run(true, 1),
            run(false, 0),
            run(false, 1),
            run(false, 0),
            run(false, 1),
        ]
    );
    assert!(bench_schedule(3, 3, 0).is_empty());
}

#[test]
fn modes_and_stages() {
    assert_eq!(mode_name(true, true, "discrete"), "hybrid");
    assert_eq!(mode_name(false, true, "integrated"), "integrated+SP");
    assert_eq!(mode_name(false, true, "auto"), "discrete+SP");
    assert_eq!(mode_name(false, false, "integrated"), "integrated");
    assert_eq!(mode_name(false, false, "discrete"), "discrete");
    assert_eq!(mode_name(false, false, "x"), "auto");
    assert_eq!(select_stages(false, false, false, false), None);
    assert_eq!(
        select_stages(true, false, false, false),
        Some(Stages {
            asr: true,
            llm: true,
            tts: true
        })
    );
    assert_eq!(
        select_stages(false, false, true, false),
        Some(Stages {
            asr: false,
            llm: true,
            tts: false
        })
    );
}

#[test]
fn spectrograms_are_transposed() {
    let plane = transpose_mel(&vec![vec![1, 2, 3], vec![4, 5], vec![6, 7, 8]], 0).unwrap();
    assert_eq!((plane.bands, plane.frames), (3, 3));
    assert_eq!(plane.values, vec![1, 4, 6, 2, 5, 7, 3, 0, 8]);
    assert!(transpose_mel::<f32>(&vec![], 0.0).is_none());
}

#[test]
fn first_existing_file_is_taken() {
    assert_eq!(first_existing(&[false, true, true]), Some(1));
    assert_eq!(first_existing(&[false]), None);
    assert_eq!(first_existing(&[]), None);
}

#[test]
fn tokens_come_from_somewhere() {
    assert_eq!(token_source(true, true, false, false), TokenSource::Given);
    assert_eq!(token_source(false, true, true, false), TokenSource::Encode);
    assert_eq!(token_source(false, true, false, true), TokenSource::NoTokenizer);
    assert_eq!(token_source(false, false, true, true), TokenSource::Nothing);
    assert_eq!(token_source(false, false, true, false), TokenSource::Missing);
}

#[test]
fn voices_are_listed_in_order() {
    let names: Vec<String> = [
        "neutral.safetensors",
        "readme.md",
        "Casual.safetensors",
        ".safetensors",
        "casual.safetensors",
        "neutral.safetensors.bak",
        "\u{e9}t\u{e9}.safetensors",
    ]
    .iter()
    .map(|s| s.to_string())
    .collect();
    let got = list_voices(&names);
    assert_eq!(got, vec!["Casual", "casual", "neutral", "\u{e9}t\u{e9}"]);
    let mut sorted = got.clone();
    sorted.sort();
    assert_eq!(got, sorted);
    assert_eq!(voice_of_file("a.safetensors").as_deref(), Some("a"));
    assert_eq!(voice_of_file(".safetensors"), None);
}

#[test]
fn white_space_is_as_std_has_it() {
    for u in 0..=0x10ffffu32 {
        if let Some(c) = char::from_u32(u) {
            assert_eq!(is_whitespace(c), c.is_whitespace(), "{u:x}");
        }
    }
}

#[test]
fn text_helpers_agree_with_std() {
    for s in ["", "  ", " a b ", "\u{3000}x\u{a0}", "abc", "\na\t"] {
        let chars = chars_of(s);
        let (a, b) = trim_bounds(&chars);
        assert_eq!(string_of(&chars, a, b), s.trim());
    }
    let hay = chars_of("hello world");
    for needle in ["", "hello", "o w", "world", "worlds", "x"] {
        let n = chars_of(needle);
        assert_eq!(contains(&hay, &n), "hello world".contains(needle));
        assert_eq!(stands_at(&hay, &n, 0), "hello world".starts_with(needle));
    }
    for n in [0, 9, 10, 99, 12345, usize::MAX] {
        assert_eq!(decimal_text(n), n.to_string());
    }
}

#[test]
fn transcript_keeps_the_last_lines() {
    let mut t = Transcript::new();
    for i in 0..70 {
        t.push_transcript(TranscriptRole::User, i.to_string());
    }
    assert_eq!(t.lines.len(), 64);
    assert_eq!(t.lines[0].text, "6");
    assert_eq!(t.lines[63].text, "69");
    assert_eq!(role_tag(TranscriptRole::User), "you: ");
    assert_eq!(role_tag(TranscriptRole::Assistant), "assistant: ");
    assert_eq!(role_tag(TranscriptRole::System), "system: ");
}

#[test]
fn waveform_grows_from_the_centre() {
    let bar = Some(Bar {
        full_rows: 1,
        eighths: 3,
    });
    let column: Vec<Glyph> = (0..7).map(|row| waveform_glyph(7, bar, row)).collect();
    assert_eq!(
        column,
        vec![
            Glyph::Blank,
            Glyph::Partial(3),
            Glyph::Full,
            Glyph::Line,
            Glyph::Full,
            Glyph::Partial(3),
            Glyph::Blank,
        ]
    );
    assert_eq!(waveform_glyph(7, None, 3), Glyph::Line);
    assert_eq!(waveform_glyph(7, None, 2), Glyph::Blank);
}

#[test]
fn buckets_divide_the_values() {
    let mut at = 0;
    for i in 0..7 {
        let (from, to) = bucket_span(i, 20, 7);
        assert_eq!(from, at);
        at = to;
    }
    assert_eq!(at, 20);
    assert_eq!(bucket_span(0, 0, 3), (0, 0));
    assert_eq!(
        bucket_span(2, usize::MAX, 3),
        (usize::MAX / 3 * 2, usize::MAX)
    );
}

#[test]
fn session_clock_counts_minutes() {
    assert_eq!(session_clock(0), "00:00");
    assert_eq!(session_clock(75), "01:15");
    assert_eq!(session_clock(6000), "100:00");
}

#[test]
fn pill_colors() {
    assert_eq!(pill_color("LISTENING"), Some((60, 110, 180)));
    assert_eq!(pill_color("THINKING"), Some((180, 140, 60)));
    assert_eq!(pill_color("SPEAKING"), Some((60, 160, 90)));
    assert_eq!(pill_color("INTERRUPTED"), Some((180, 60, 60)));
    assert_eq!(pill_color("IDLE"), None);
    assert!(pill_text_is_black("THINKING") && pill_text_is_black("SPEAKING"));
    assert!(!pill_text_is_black("LISTENING") && !pill_text_is_black("INTERRUPTED"));
    assert!(!pill_text_is_black("IDLE"));
}

#[test]
fn a_reply_is_measured_event_by_event() {
    let mut meter = ReplyMeter::new();
    assert_eq!(meter.ttft_ms, None);
    assert!(meter.on_event(&LlmEvent::Token("Hel".to_string()), 30));
    assert!(meter.on_event(&LlmEvent::Token("lo\nyou".to_string()), 45));
    assert_eq!(meter.ttft_ms, Some(30));
    assert_eq!(meter.total_ms, None);
    let done = LlmEvent::Done {
        reason: DoneReason::Eos,
        n_tokens: 2,
        total_ms: 60,
        ttft_ms: 29,
    };
    assert!(!meter.on_event(&done, 61));
    assert_eq!(meter.reply, "Hello\nyou");
    assert_eq!(meter.preview(), "Hello you");
    assert_eq!(meter.n_tokens, 2);
    assert_eq!(meter.ttft_ms, Some(30));
    assert_eq!(meter.total_ms, Some(60));
}

#[test]
fn a_preview_is_cut() {
    let mut meter = ReplyMeter::new();
    meter.on_event(&LlmEvent::Token("é".repeat(100)), 1);
    assert_eq!(meter.preview(), "é".repeat(80));
}

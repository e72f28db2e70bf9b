use tokenizers::Tokenizer;
use voxtral_mini_realtime::assistant::generation::{
    first_piece_ms, next_prompt, GenAction, Generation,
};
use voxtral_mini_realtime::assistant::llm::{
    format_qwen_chat, ready, text_after, DoneReason, LlmError, LlmEvent, TokenOutputStream,
};
use voxtral_mini_realtime::assistant::tokenizer_parts::{
    can_decode, can_pad, can_strip, refused_by_encode, Padding, TokenizerPart, PADDING_LIMIT,
};

#[test]
fn chat_template_has_im_markers() {
    let s = format_qwen_chat("be concise", "hi");
    assert!(s.contains("<|im_start|>system"));
    assert!(s.contains("<|im_start|>user"));
    assert!(s.contains("<|im_start|>assistant"));
    assert!(s.contains("<|im_end|>"));
}

#[test]
fn chat_template_skips_empty_system() {
    let s = format_qwen_chat("", "hello");
    assert!(!s.contains("<|im_start|>system"));
    assert!(s.contains("hello"));
}

#[test]
fn chat_template_is_exact() {
    assert_eq!(
        format_qwen_chat("S", "U"),
        "<|im_start|>system\nS<|im_end|>\n<|im_start|>user\nU<|im_end|>\n<|im_start|>assistant\n"
    );
    assert_eq!(
        format_qwen_chat("", "U"),
        "<|im_start|>user\nU<|im_end|>\n<|im_start|>assistant\n"
    );
}

fn words() -> Tokenizer {
    let json = r#"{
        "version": "1.0", "truncation": null, "padding": null, "added_tokens": [],
        "normalizer": null, "pre_tokenizer": {"type": "WhitespaceSplit"},
        "post_processor": null, "decoder": null,
        "model": {"type": "WordLevel", "unk_token": "<unk>",
                  "vocab": {"<unk>": 0, "hello": 1, "!": 2, "ok": 3, "<|im_end|>": 4}}
    }"#;
    Tokenizer::from_bytes(json.as_bytes()).unwrap()
}

fn bytes() -> Tokenizer {
    let json = r#"{
        "version": "1.0", "truncation": null, "padding": null, "added_tokens": [],
        "normalizer": null, "pre_tokenizer": null,
        "post_processor": null, "decoder": {"type": "ByteFallback"},
        "model": {"type": "WordLevel", "unk_token": "<unk>",
                  "vocab": {"<unk>": 0, "<0xC3>": 1, "<0xA9>": 2, "€": 3,
                            "<|endoftext|>": 5}}
    }"#;
    Tokenizer::from_bytes(json.as_bytes()).unwrap()
}

#[test]
fn stream_holds_text_back_inside_words() {
    let mut s = TokenOutputStream::new(words());
    assert!(s.try_next_token(1).unwrap().is_none());
    assert_eq!(s.try_next_token(2).unwrap().as_deref(), Some("hello !"));
    assert_eq!((s.prev_index, s.current_index), (0, 2));
    assert!(s.try_next_token(3).unwrap().is_none());
    assert_eq!(s.try_decode_rest().unwrap().as_deref(), Some(" ok"));
    assert_eq!(s.tokens, vec![1, 2, 3]);
    s.clear();
    assert!(s.try_decode_rest().unwrap().is_none());
    assert_eq!(s.next_token(2).unwrap().as_deref(), Some("!"));
    assert!(s.decode_rest().unwrap().is_none());
}

#[test]
fn stream_refuses_to_split_a_character() {
    let mut s = TokenOutputStream::new(bytes());
    // Half a character shows as a replacement character of three bytes.
    assert_eq!(s.try_next_token(1).unwrap().as_deref(), Some("\u{fffd}"));
    // The whole character is shorter than that.
    assert!(s.try_next_token(2).unwrap().is_none());
    let before = s.tokens.clone();
    assert!(matches!(s.try_next_token(3), Err(LlmError::SplitCharacter)));
    assert_eq!(s.tokens, before);
    s.tokens.push(3);
    assert!(matches!(s.try_decode_rest(), Err(LlmError::SplitCharacter)));
}

#[test]
fn text_after_what_was_shown() {
    assert_eq!(text_after("abc", "abc def"), " def");
    assert!(ready("", "a."));
    assert!(!ready("", "a"));
    assert!(!ready("ab", "a."));
    assert!(!ready("", ""));
}

#[test]
fn end_tokens_are_looked_up() {
    assert_eq!(TokenOutputStream::new(words()).eos_id().unwrap(), 4);
    let s = TokenOutputStream::new(bytes());
    assert_eq!(s.eos_id().unwrap(), 5);
    assert_eq!(s.get_token("\u{20ac}"), Some(3));
    assert_eq!(s.get_token("nothing"), None);
    assert_eq!(s.tokenizer().get_vocab_size(true), 5);
    let json = r#"{
        "version": "1.0", "truncation": null, "padding": null, "added_tokens": [],
        "normalizer": null, "pre_tokenizer": null, "post_processor": null, "decoder": null,
        "model": {"type": "WordLevel", "unk_token": "<unk>", "vocab": {"<unk>": 0}}
    }"#;
    let bare = TokenOutputStream::new(Tokenizer::from_bytes(json.as_bytes()).unwrap());
    assert!(matches!(bare.eos_id(), Err(LlmError::NoEosToken)));
}

#[test]
fn prompts_are_encoded() {
    let s = TokenOutputStream::new(words());
    // Words are split at white space: the marker, the user's text, the rest.
    let ids = s.prompt_ids("", "hello ok").unwrap();
    assert_eq!(ids, vec![0, 1, 0, 0]);
    assert_ne!(s.prompt_ids("hello", "hello ok").unwrap().len(), ids.len());
}

/// A tokenizer with some of its parts given as JSON.
fn with_parts(parts: &[(&str, &str)]) -> Tokenizer {
    let part = |name: &str| {
        parts
            .iter()
            .find(|(n, _)| *n == name)
            .map_or(if name == "added_tokens" { "[]" } else { "null" }, |(_, v)| *v)
    };
    let json = format!(
        r#"{{
        "version": "1.0", "truncation": {}, "padding": {}, "added_tokens": {},
        "normalizer": {}, "pre_tokenizer": {}, "post_processor": {}, "decoder": {},
        "model": {{"type": "WordLevel", "unk_token": "<unk>",
                   "vocab": {{"<unk>": 0, "hello": 1, "ok": 2}}}}
    }}"#,
        part("truncation"),
        part("padding"),
        part("added_tokens"),
        part("normalizer"),
        part("pre_tokenizer"),
        part("post_processor"),
        part("decoder"),
    );
    Tokenizer::from_bytes(json.as_bytes()).unwrap()
}

const BYTE_LEVEL: &str =
    r#"{"type": "ByteLevel", "add_prefix_space": false, "trim_offsets": true, "use_regex": false}"#;

const BPE_DECODER: &str = r#"{"type": "BPEDecoder", "suffix": "</w>"}"#;

fn strip(content: char, start: usize, stop: usize) -> String {
    format!(r#"{{"type": "Strip", "content": "{content}", "start": {start}, "stop": {stop}}}"#)
}

fn decoders(parts: &[&str]) -> String {
    format!(r#"{{"type": "Sequence", "decoders": [{}]}}"#, parts.join(", "))
}

#[test]
fn decoders_run_where_they_have_tokens() {
    let fuse = r#"{"type": "Fuse"}"#;
    let ctc = r#"{"type": "CTC", "pad_token": "hello", "word_delimiter_token": "|", "cleanup": false}"#;
    // The decoder, and whether it runs on no tokens, on "hello" and on both words.
    let cases: Vec<(String, bool, bool, bool)> = vec![
        ("null".to_string(), true, true, true),
        (BYTE_LEVEL.to_string(), true, true, true),
        (BPE_DECODER.to_string(), false, true, true),
        (strip('h', 1, 0), true, true, true),
        (strip('o', 1, 1), true, true, true),
        (decoders(&[&strip('o', 1, 1), fuse]), true, true, true),
        (decoders(&[fuse, &strip('o', 1, 0)]), true, true, true),
        (decoders(&[fuse, &strip('o', 1, 1)]), false, false, false),
        (decoders(&[fuse, BPE_DECODER]), true, true, true),
        (decoders(&[ctc, BPE_DECODER]), false, false, false),
        (decoders(&[fuse, &decoders(&[fuse])]), false, false, false),
    ];
    for (json, none, one, both) in cases {
        let t = with_parts(&[("decoder", &json)]);
        assert_eq!(can_decode(&t, &[]), none, "{json}");
        assert_eq!(can_decode(&t, &[1]), one, "{json}");
        assert_eq!(can_decode(&t, &[1, 2]), both, "{json}");
        // An id without a token is no token.
        assert_eq!(can_decode(&t, &[99]), none, "{json}");
        let mut s = TokenOutputStream::new(t);
        if both {
            s.try_next_token(1).unwrap();
            s.try_next_token(2).unwrap();
            s.try_decode_rest().unwrap();
        } else {
            assert!(matches!(
                s.try_next_token(1),
                Err(LlmError::Unsupported(TokenizerPart::Decoder))
            ));
            assert!(s.tokens.is_empty());
            s.tokens.push(1);
            assert!(matches!(
                s.try_decode_rest(),
                Err(LlmError::Unsupported(TokenizerPart::Decoder))
            ));
        }
    }
    // Special tokens are not kept.
    let special = r#"[{"id": 7, "content": "<a>", "single_word": false, "lstrip": false,
        "rstrip": false, "normalized": false, "special": true}]"#;
    let t = with_parts(&[("decoder", BPE_DECODER), ("added_tokens", special)]);
    assert!(!can_decode(&t, &[7]));
    assert!(can_decode(&t, &[7, 1]));
}

#[test]
fn bpe_text_is_streamed() {
    let mut s = TokenOutputStream::new(with_parts(&[("decoder", BPE_DECODER)]));
    assert!(s.try_next_token(1).unwrap().is_none());
    assert!(s.try_next_token(2).unwrap().is_none());
    assert_eq!(s.try_decode_rest().unwrap().as_deref(), Some("hellook"));
}

#[test]
fn stripping_needs_enough_to_strip() {
    assert!(can_strip("hello", 'h', 9, 9));
    assert!(!can_strip("", 'h', 0, 1));
    assert!(can_strip("", 'h', 3, 0));
    assert!(!can_strip("h", 'h', 1, 1));
    assert!(can_strip("hh", 'h', 1, 1));
    assert!(!can_strip("hh", 'h', 2, 1));
    assert!(can_strip("hhh", 'h', 0, 3));
    assert!(!can_strip("hhh", 'h', 0, 4));
}

#[test]
fn parts_that_can_stop_encoding_are_refused() {
    let truncation = |max: usize, stride: usize| {
        format!(
            r#"{{"direction": "Right", "max_length": {max}, "strategy": "LongestFirst", "stride": {stride}}}"#
        )
    };
    let padding = |strategy: &str, multiple: &str| {
        format!(
            r#"{{"strategy": {strategy}, "direction": "Right", "pad_to_multiple_of": {multiple},
                "pad_id": 0, "pad_type_id": 0, "pad_token": "<unk>"}}"#
        )
    };
    let added = |l: bool, r: bool| {
        format!(
            r#"[{{"id": 7, "content": "<a>", "single_word": false, "lstrip": {l}, "rstrip": false,
                  "normalized": false, "special": true}},
                {{"id": 8, "content": "<b>", "single_word": false, "lstrip": false, "rstrip": {r},
                  "normalized": false, "special": true}}]"#
        )
    };
    let normalizers = |parts: &[&str]| {
        format!(r#"{{"type": "Sequence", "normalizers": [{}]}}"#, parts.join(", "))
    };
    let pre_tokenizers = |parts: &[&str]| {
        format!(r#"{{"type": "Sequence", "pretokenizers": [{}]}}"#, parts.join(", "))
    };
    let processors = |parts: &[&str]| {
        format!(r#"{{"type": "Sequence", "processors": [{}]}}"#, parts.join(", "))
    };
    let nfc = r#"{"type": "NFC"}"#;
    let lowercase = r#"{"type": "Lowercase"}"#;
    let prepend = r#"{"type": "Prepend", "prepend": "x"}"#;
    let replace = r#"{"type": "Replace", "pattern": {"String": " "}, "content": "_"}"#;
    let bert_normalizer = r#"{"type": "BertNormalizer", "clean_text": true,
        "handle_chinese_chars": true, "strip_accents": null, "lowercase": true}"#;
    let split = r#"{"type": "WhitespaceSplit"}"#;
    let bert = r#"{"type": "BertProcessing", "sep": ["ok", 2], "cls": ["hello", 1]}"#;
    let roberta = r#"{"type": "RobertaProcessing", "sep": ["ok", 2], "cls": ["hello", 1],
        "trim_offsets": true, "add_prefix_space": false}"#;
    let template = r#"{"type": "TemplateProcessing",
        "single": [{"Sequence": {"id": "B", "type_id": 0}}], "pair": [], "special_tokens": {}}"#;
    let good: Vec<Vec<(&str, String)>> = vec![
        vec![("truncation", truncation(2, 1))],
        vec![("truncation", truncation(0, 0))],
        vec![("truncation", truncation(0, 5))],
        vec![("truncation", truncation(3, 0)), ("post_processor", bert.to_string())],
        vec![("truncation", truncation(2, 7)), ("post_processor", bert.to_string())],
        vec![("added_tokens", added(true, false))],
        vec![("added_tokens", added(false, true))],
        vec![("normalizer", nfc.to_string())],
        vec![("normalizer", normalizers(&[nfc, lowercase]))],
        vec![("normalizer", bert_normalizer.to_string())],
        vec![("normalizer", r#"{"type": "Strip", "strip_left": true, "strip_right": true}"#.into())],
        vec![("normalizer", r#"{"type": "StripAccents"}"#.into())],
        vec![("normalizer", r#"{"type": "Nmt"}"#.into())],
        vec![("normalizer", prepend.to_string())],
        vec![("normalizer", normalizers(&[nfc, prepend, replace]))],
        vec![("pre_tokenizer", r#"{"type": "Whitespace"}"#.into())],
        vec![("pre_tokenizer", pre_tokenizers(&[split, BYTE_LEVEL]))],
        vec![("pre_tokenizer", r#"{"type": "UnicodeScripts"}"#.into())],
        vec![("pre_tokenizer", r#"{"type": "FixedLength", "length": 3}"#.into())],
        vec![("normalizer", nfc.into()), ("pre_tokenizer", BYTE_LEVEL.into())],
        vec![("post_processor", BYTE_LEVEL.to_string())],
        vec![("post_processor", bert.to_string())],
        vec![("post_processor", roberta.to_string())],
        vec![("post_processor", processors(&[BYTE_LEVEL, bert]))],
        vec![("padding", padding("\"BatchLongest\"", "null"))],
        vec![("padding", padding("{\"Fixed\": 64}", "8"))],
    ];
    for parts in good {
        let borrowed: Vec<(&str, &str)> = parts.iter().map(|(n, v)| (*n, v.as_str())).collect();
        let t = with_parts(&borrowed);
        assert_eq!(refused_by_encode(&t), None, "{parts:?}");
        let s = TokenOutputStream::new(t);
        for user in ["", " ", "hello", "  hello <b>  <a> \u{301}e\u{301} \u{4e00}\u{130} ok  "] {
            s.prompt_ids("be <a> <b> brief", user).unwrap();
        }
    }
    let bad: Vec<(Vec<(&str, String)>, TokenizerPart)> = vec![
        (vec![("truncation", truncation(2, 2))], TokenizerPart::Truncation),
        (
            vec![("truncation", truncation(1, 0)), ("post_processor", bert.to_string())],
            TokenizerPart::Truncation,
        ),
        (
            vec![("truncation", truncation(4, 2)), ("post_processor", roberta.to_string())],
            TokenizerPart::Truncation,
        ),
        (vec![("added_tokens", added(true, true))], TokenizerPart::AddedTokens),
        (
            vec![("normalizer", normalizers(&[prepend, nfc]))],
            TokenizerPart::Normalizer,
        ),
        (
            vec![("normalizer", normalizers(&[&normalizers(&[nfc])]))],
            TokenizerPart::Normalizer,
        ),
        (
            vec![("normalizer", replace.into()), ("pre_tokenizer", BYTE_LEVEL.into())],
            TokenizerPart::PreTokenizer,
        ),
        (
            vec![("pre_tokenizer", r#"{"type": "FixedLength", "length": 0}"#.into())],
            TokenizerPart::PreTokenizer,
        ),
        (
            vec![("pre_tokenizer", pre_tokenizers(&[&pre_tokenizers(&[split])]))],
            TokenizerPart::PreTokenizer,
        ),
        (vec![("post_processor", template.into())], TokenizerPart::PostProcessor),
        (
            vec![("post_processor", processors(&[BYTE_LEVEL, template]))],
            TokenizerPart::PostProcessor,
        ),
        (
            vec![("padding", padding("{\"Fixed\": 99999999}", "null"))],
            TokenizerPart::Padding,
        ),
    ];
    for (parts, part) in bad {
        let borrowed: Vec<(&str, &str)> = parts.iter().map(|(n, v)| (*n, v.as_str())).collect();
        let t = with_parts(&borrowed);
        assert_eq!(refused_by_encode(&t), Some(part), "{parts:?}");
        let s = TokenOutputStream::new(t);
        assert!(matches!(
            s.prompt_ids("", "hello"),
            Err(LlmError::Unsupported(p)) if p == part
        ));
    }
    assert!(can_pad(None));
    assert!(can_pad(Some(Padding { fixed: Some(PADDING_LIMIT), multiple_of: None })));
    assert!(!can_pad(Some(Padding { fixed: None, multiple_of: Some(PADDING_LIMIT + 1) })));
    // Truncation keeps the first ids; a post-processor adds its own.
    let t = with_parts(&[("truncation", &truncation(2, 1)), ("pre_tokenizer", split)]);
    assert_eq!(TokenOutputStream::new(t).prompt_ids("", "hello ok").unwrap(), vec![0, 1]);
    let t = with_parts(&[("post_processor", bert), ("pre_tokenizer", split)]);
    assert_eq!(
        TokenOutputStream::new(t).prompt_ids("", "hello ok").unwrap(),
        vec![1, 0, 1, 0, 0, 2]
    );
}

/// Runs a generation on a list of sampled tokens; returns what was delivered
/// and the summary.
fn run(
    eos: u32,
    max: usize,
    samples: &[u32],
    cancel_after: Option<usize>,
    receiver_gone_after: Option<usize>,
) -> (Vec<u32>, DoneReason, u32, Vec<usize>) {
    let mut told = Vec::new();
    let mut positions = Vec::new();
    let mut next = 1;
    let mut g = Generation::start(10, eos, max, samples[0]);
    loop {
        match g.action() {
            GenAction::Deliver { token } => {
                let ok = receiver_gone_after.map_or(true, |n| told.len() < n);
                if ok {
                    told.push(token);
                }
                g.delivered(ok);
            }
            GenAction::Poll { .. } => g.polled(match cancel_after {
                Some(n) if told.len() >= n => Some("newer".to_string()),
                _ => None,
            }),
            GenAction::Forward { token, position } => {
                assert_eq!(token, *told.last().unwrap());
                positions.push(position);
                g.sampled(samples[next]);
                next += 1;
            }
            GenAction::Finish { reason, n_tokens } => {
                let cut_short = cancel_after.is_some_and(|n| told.len() >= n);
                assert_eq!(g.newer.is_some(), cut_short && reason == DoneReason::Cancelled);
                return (told, reason, n_tokens, positions);
            }
        }
    }
}

#[test]
fn generation_stops_at_the_end_token() {
    let (told, reason, n, positions) = run(9, 100, &[5, 6, 7, 9, 8], None, None);
    assert_eq!(told, vec![5, 6, 7]);
    assert_eq!(reason, DoneReason::Eos);
    assert_eq!(n, 3);
    assert_eq!(positions, vec![10, 11, 12]);
    let (told, reason, n, _) = run(9, 100, &[9, 1], None, None);
    assert!(told.is_empty());
    assert_eq!((reason, n), (DoneReason::Eos, 0));
}

#[test]
fn generation_stops_at_the_limit() {
    let (told, reason, n, _) = run(9, 2, &[5, 6, 7, 8], None, None);
    assert_eq!(told, vec![5, 6]);
    assert_eq!((reason, n), (DoneReason::MaxTokens, 2));
    let (told, reason, n, _) = run(9, 1, &[5, 6], None, None);
    assert_eq!(told, vec![5]);
    assert_eq!((reason, n), (DoneReason::MaxTokens, 1));
    let (told, reason, n, _) = run(9, 0, &[5, 6], None, None);
    assert!(told.is_empty());
    assert_eq!((reason, n), (DoneReason::MaxTokens, 0));
}

#[test]
fn generation_can_be_cancelled() {
    let (told, reason, n, _) = run(9, 100, &[5, 6, 7, 8], Some(2), None);
    assert_eq!(told, vec![5, 6]);
    assert_eq!((reason, n), (DoneReason::Cancelled, 2));
    let (_, reason, n, _) = run(9, 100, &[5, 6, 7, 8], None, Some(0));
    assert_eq!((reason, n), (DoneReason::Cancelled, 1));
    let (told, reason, n, _) = run(9, 100, &[5, 6, 7, 8], None, Some(2));
    assert_eq!(told, vec![5, 6]);
    assert_eq!((reason, n), (DoneReason::Cancelled, 2));
}

#[test]
fn a_newer_prompt_is_answered_next() {
    let mut g = Generation::start(10, 9, 100, 5);
    g.delivered(true);
    g.polled(Some("second".to_string()));
    assert_eq!(
        g.action(),
        GenAction::Finish { reason: DoneReason::Cancelled, n_tokens: 1 }
    );
    assert_eq!(g.newer.as_deref(), Some("second"));
    assert_eq!(next_prompt(g.newer.clone(), vec![]).as_deref(), Some("second"));
    // Yet newer ones go first, the last of them before the others.
    let backlog = vec!["third".to_string(), "fourth".to_string()];
    assert_eq!(next_prompt(g.newer, backlog).as_deref(), Some("fourth"));
    assert_eq!(next_prompt(None, vec!["x".to_string()]).as_deref(), Some("x"));
    assert_eq!(next_prompt(None, vec![]), None);
}

#[test]
fn first_piece_time_is_kept() {
    assert_eq!(first_piece_ms(0, 12), 12);
    assert_eq!(first_piece_ms(12, 40), 12);
    let done = LlmEvent::Done {
        reason: DoneReason::Error,
        n_tokens: 0,
        total_ms: 0,
        ttft_ms: 0,
    };
    assert!(matches!(
        done.clone(),
        LlmEvent::Done {
            reason: DoneReason::Error,
            ..
        }
    ));
    assert!(matches!(LlmEvent::Token("a".to_string()), LlmEvent::Token(t) if t == "a"));
}

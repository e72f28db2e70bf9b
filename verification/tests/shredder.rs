use std::sync::Arc;
use voxtral_mini_realtime::assistant::shredder::{
    Boundary, SentenceChunk, Shredder, ShredderConfig,
};

fn drain(s: &mut Shredder, t: &str) -> Vec<SentenceChunk> {
    s.push(t)
}

#[test]
fn empty_buffer_emits_nothing() {
    let mut s = Shredder::new(ShredderConfig::default());
    assert!(drain(&mut s, "Hello").is_empty());
}

#[test]
fn sentence_period_emits_chunk() {
    let mut s = Shredder::new(ShredderConfig::default());
    assert!(drain(&mut s, "Hello there.").is_empty());
    let out = drain(&mut s, " ");
    assert_eq!(out.len(), 1);
    assert_eq!(&*out[0].text, "Hello there.");
    assert_eq!(out[0].idx, 0);
    assert_eq!(out[0].boundary, Boundary::Sentence);
}

#[test]
fn two_sentences_two_chunks() {
    let mut s = Shredder::new(ShredderConfig::default());
    let mut all = Vec::new();
    for piece in ["Hi. ", "How are you?", " "] {
        all.extend(s.push(piece));
    }
    assert_eq!(all.len(), 2);
    assert_eq!(&*all[0].text, "Hi.");
    assert_eq!(&*all[1].text, "How are you?");
    assert_eq!(all[0].idx, 0);
    assert_eq!(all[1].idx, 1);
}

#[test]
fn clause_only_after_min_chars() {
    let mut s = Shredder::new(ShredderConfig {
        min_chunk_chars: 24,
        max_chunk_chars: 180,
    });
    let out = s.push("Hi, ");
    assert!(out.is_empty(), "short clause should not cut");

    let out2 = s.push("this is a longer prefix, ");
    assert_eq!(out2.len(), 1);
    assert_eq!(out2[0].boundary, Boundary::Clause);
}

#[test]
fn flush_emits_remaining_and_marks_final() {
    let mut s = Shredder::new(ShredderConfig::default());
    s.push("Trailing without punctuation");
    let last = s.flush().expect("flush should emit");
    assert!(last.is_final);
    assert_eq!(&*last.text, "Trailing without punctuation");
    assert_eq!(last.boundary, Boundary::Final);
    assert!(s.flush().is_none(), "empty buf flush returns None");
}

#[test]
fn char_offset_advances() {
    let mut s = Shredder::new(ShredderConfig::default());
    let a = s.push("First. ");
    let b = s.push("Second. ");
    assert_eq!(a.len(), 1);
    assert_eq!(b.len(), 1);
    assert_eq!(a[0].char_offset, 0);
    assert_eq!(b[0].char_offset, 7);
}

#[test]
fn paragraph_break_emits() {
    let mut s = Shredder::new(ShredderConfig::default());
    let out = s.push("First paragraph\n\n");
    assert_eq!(out.len(), 1);
    assert_eq!(out[0].boundary, Boundary::Paragraph);
}

#[test]
fn reset_clears_state() {
    let mut s = Shredder::new(ShredderConfig::default());
    s.push("In progress");
    s.reset();
    assert_eq!(s.buf.len(), 0);
    assert_eq!(s.next_idx, 0);
    assert_eq!(s.char_offset, 0);
}

#[test]
fn arc_str_text_is_cheap_to_clone() {
    let mut s = Shredder::new(ShredderConfig::default());
    let mut out = s.push("Hello world. ");
    let original = out.remove(0);
    let cloned = original.clone();
    assert!(Arc::ptr_eq(&original.text, &cloned.text));
}

#[test]
fn offsets_count_characters_of_the_reply() {
    let mut s = Shredder::new(ShredderConfig::default());
    let out = s.push("D\u{e9}j\u{e0} vu. \n\nOui! ");
    assert_eq!(out.len(), 2);
    assert_eq!(&*out[0].text, "D\u{e9}j\u{e0} vu.");
    assert_eq!(out[0].char_offset, 0);
    assert_eq!(&*out[1].text, "Oui!");
    // "Déjà vu. " is 9 characters; the blank paragraph adds 2 more.
    assert_eq!(out[1].char_offset, 11);
    assert_eq!(out[1].idx, 1);
}

#[test]
fn pieces_do_not_matter() {
    let reply = "One, two. Three; four five six seven eight nine ten, eleven!\n\nTwelve ";
    let cfg = || ShredderConfig {
        min_chunk_chars: 12,
        max_chunk_chars: 20,
    };
    let mut whole = Shredder::new(cfg());
    let mut a = whole.push(reply);
    a.extend(whole.flush());
    let mut split = Shredder::new(cfg());
    let mut b = Vec::new();
    for c in reply.chars() {
        b.extend(split.push(&c.to_string()));
    }
    b.extend(split.flush());
    assert_eq!(a.len(), b.len());
    for (x, y) in a.iter().zip(b.iter()) {
        assert_eq!(x.text, y.text);
        assert_eq!(x.char_offset, y.char_offset);
        assert_eq!(x.idx, y.idx);
        assert_eq!(x.boundary, y.boundary);
        assert_eq!(x.is_final, y.is_final);
    }
    // Every character but white space is in some chunk.
    let spoken: String = a.iter().map(|c| c.text.to_string()).collect();
    let strip = |s: &str| s.chars().filter(|c| !c.is_whitespace()).collect::<String>();
    assert_eq!(strip(&spoken), strip(reply));
}

#[test]
fn hard_limit_cuts_at_next_white_space() {
    let mut s = Shredder::new(ShredderConfig {
        min_chunk_chars: 4,
        max_chunk_chars: 10,
    });
    let out = s.push("aaaa bbbb cccc dddd");
    assert_eq!(out.len(), 1);
    assert_eq!(&*out[0].text, "aaaa bbbb");
    assert_eq!(out[0].boundary, Boundary::Clause);
    assert_eq!(s.char_offset, 10);
    let last = s.flush().unwrap();
    assert_eq!(&*last.text, "cccc dddd");
    assert_eq!(last.char_offset, 10);
}

#[test]
fn blank_reply_emits_nothing() {
    let mut s = Shredder::new(ShredderConfig::default());
    assert!(s.push(" \n\n \t").is_empty());
    assert!(s.flush().is_none());
    assert_eq!(s.next_idx, 0);
    assert_eq!(s.char_offset, 5);
}

#[test]
fn tabs_end_sentences_but_not_clauses() {
    let mut s = Shredder::new(ShredderConfig {
        min_chunk_chars: 2,
        max_chunk_chars: 100,
    });
    assert_eq!(s.push("Yes.\t").len(), 1);
    assert_eq!(s.push("well,\t").len(), 0);
    assert_eq!(s.push("well, ").len(), 1);
}

#[test]
fn any_white_space_ends_a_sentence() {
    let mut s = Shredder::new(ShredderConfig::default());
    let out = s.push("Yes.\r\nNo!\u{a0}");
    assert_eq!(out.len(), 2);
    assert_eq!(&*out[0].text, "Yes.");
    assert_eq!(out[0].boundary, Boundary::Sentence);
    assert_eq!(&*out[1].text, "No!");
    assert_eq!(out[1].boundary, Boundary::Sentence);
}

#[test]
fn flushes_between_pushes_keep_numbers_and_text() {
    let mut s = Shredder::new(ShredderConfig::default());
    let pieces = ["Hello there. How", " are", " you", "?  ", "Fine", " ."];
    let mut chunks = Vec::new();
    for (i, piece) in pieces.iter().enumerate() {
        chunks.extend(s.push(piece).into_iter().map(|c| (c, false)));
        if i % 2 == 1 {
            chunks.extend(s.flush().map(|c| (c, true)));
            assert!(s.flush().is_none());
        }
    }
    assert!(chunks.len() > 3);
    let mut ink = String::new();
    for (k, (c, flushed)) in chunks.iter().enumerate() {
        assert_eq!(c.idx as usize, k);
        assert!(!c.text.is_empty());
        assert_eq!(c.text.trim(), &*c.text);
        assert_eq!(c.is_final, *flushed);
        assert_eq!(c.boundary == Boundary::Final, *flushed);
        assert!(k == 0 || chunks[k - 1].0.char_offset <= c.char_offset);
        ink.extend(c.text.chars().filter(|c| !c.is_whitespace()));
    }
    let all: String = pieces.concat().chars().filter(|c| !c.is_whitespace()).collect();
    assert_eq!(ink, all);
}

use voxtral_mini_realtime::assistant::routing::{
    classify, AgentAffinity, PreWarm, Tier, TokenAheadDispatcher,
};

#[test]
fn affinity_round_trip() {
    let mut a = AgentAffinity::new(4);
    assert!(a.get("alice").is_none());
    a.record("alice", Tier::GpuPrimary);
    assert_eq!(a.get("alice"), Some(Tier::GpuPrimary));
}

#[test]
fn affinity_evicts_lru_at_capacity() {
    let mut a = AgentAffinity::new(2);
    a.record("alice", Tier::GpuPrimary);
    a.record("bob", Tier::GpuPrimary);
    // Touch alice so bob becomes LRU.
    a.record("alice", Tier::GpuPrimary);
    a.record("carol", Tier::GpuPrimary);
    assert_eq!(a.get("bob"), None);
    assert!(a.get("alice").is_some());
    assert!(a.get("carol").is_some());
}

#[test]
fn affinity_updates_in_place() {
    let mut a = AgentAffinity::default();
    assert!(a.is_empty());
    a.record("alice", Tier::GpuPrimary);
    a.record("alice", Tier::CpuRouter);
    assert_eq!(a.len(), 1);
    assert_eq!(a.get("alice"), Some(Tier::CpuRouter));
    for i in 0..300 {
        a.record(&format!("voice {i}"), Tier::CpuUtility);
    }
    assert_eq!(a.len(), 256);
    assert_eq!(a.get("alice"), None);
    assert_eq!(a.get("voice 43"), None);
    assert_eq!(a.get("voice 44"), Some(Tier::CpuUtility));
}

#[test]
fn tier_labels() {
    assert_eq!(Tier::GpuPrimary.label(), "gpu_primary");
    assert_eq!(Tier::CpuUtility.label(), "cpu_utility");
    assert_eq!(Tier::CpuRouter.label(), "cpu_router");
}

#[test]
fn dispatcher_detects_story_mode() {
    let mut d = TokenAheadDispatcher::new();
    let mut got = None;
    for piece in ["Once ", "upon ", "a ", "time"] {
        if let Some(p) = d.observe(piece) {
            got = Some(p);
            break;
        }
    }
    assert!(matches!(got, Some(PreWarm::HighQualityTts)));
}

#[test]
fn dispatcher_emits_once() {
    let mut d = TokenAheadDispatcher::new();
    let first = d.observe("Once upon a time in a far away land");
    assert!(matches!(first, Some(PreWarm::HighQualityTts)));
    for _ in 0..5 {
        assert!(d.observe(" more text").is_none());
    }
}

#[test]
fn dispatcher_detects_short_answers() {
    let mut d = TokenAheadDispatcher::new();
    assert!(d.observe("SURE, I can do").is_none());
    assert!(matches!(d.observe(" that now"), Some(PreWarm::FastTts)));
    d.reset();
    assert!(d.observe("Well, yes of course I can").is_none());
    // Case does not matter, inside the text either.
    assert!(matches!(
        d.observe(". LET ME TELL YOU A STORY"),
        Some(PreWarm::HighQualityTts)
    ));
}

#[test]
fn dispatcher_gives_up_on_long_prefixes() {
    let mut d = TokenAheadDispatcher::default();
    assert!(d.observe(&"x".repeat(128)).is_none());
    assert!(d.observe(" once upon").is_none());
    assert!(d.observe(" once upon").is_none());
    d.reset();
    assert!(d.observe("once upon").is_some());
}

#[test]
fn classify_on_given_texts() {
    assert!(classify("no", 2).is_none());
    assert!(matches!(classify("no, i would not do", 18), Some(PreWarm::FastTts)));
    assert!(classify("no, i would not do", 16).is_none());
    assert!(matches!(classify("nothing else to do", 18), Some(PreWarm::FastTts)));
    assert!(matches!(classify("a once upon b", 1), Some(PreWarm::HighQualityTts)));
    assert!(classify("", 100).is_none());
}

use std::sync::Arc;
use voxtral_mini_realtime::assistant::repair::{
    cooldown_ok, decide, RepairBank, RepairContext, RepairKind, COLD_START_INTERVAL,
    SAME_KIND_INTERVAL,
};
use voxtral_mini_realtime::assistant::state::SessionState;
use voxtral_mini_realtime::time::{Clock, Timestamp, NANOS_PER_MILLI};

const SECOND: u64 = 1000 * NANOS_PER_MILLI;

fn bank() -> RepairBank<Arc<[f32]>> {
    let clip = |x: f32| -> Arc<[f32]> { Arc::from(vec![x, -x]) };
    RepairBank {
        filler: vec![clip(0.1), clip(0.2)],
        backchannel: vec![clip(0.3)],
        continue_: vec![clip(0.4)],
        interrupt_ack: vec![clip(0.5)],
        self_correct: vec![],
        cold_start: vec![clip(0.7)],
    }
}

#[test]
fn pick_returns_arc_clone_not_copy() {
    let bank = bank();
    let original = bank.filler[0].clone();
    let before = Arc::strong_count(&original);
    let dup = original.clone();
    assert_eq!(Arc::strong_count(&original), before + 1);
    assert!(Arc::ptr_eq(&original, &dup));
}

#[test]
fn pick_serves_from_the_right_bank() {
    let bank = bank();
    assert_eq!(bank.pick(RepairKind::Backchannel).unwrap()[0], 0.3);
    assert_eq!(bank.pick(RepairKind::Continue).unwrap()[0], 0.4);
    assert_eq!(bank.pick(RepairKind::InterruptAck).unwrap()[0], 0.5);
    assert_eq!(bank.pick(RepairKind::ColdStartPatience).unwrap()[0], 0.7);
    for _ in 0..20 {
        // Empty banks fall back to the fillers.
        let c = bank.pick(RepairKind::SelfCorrect).unwrap();
        assert!(c[0] == 0.1 || c[0] == 0.2);
        let f = bank.pick(RepairKind::Filler).unwrap();
        assert!(f[0] == 0.1 || f[0] == 0.2);
    }
    let none: RepairBank<u8> = RepairBank {
        filler: vec![],
        backchannel: vec![],
        continue_: vec![],
        interrupt_ack: vec![],
        self_correct: vec![],
        cold_start: vec![],
    };
    assert!(none.pick(RepairKind::Filler).is_none());
    assert!(none.pick(RepairKind::Continue).is_none());
}

#[test]
fn transition_does_not_lift_cold_session() {
    let mut ctx = RepairContext::new();
    assert!(ctx.cold_session);
    ctx.transition(SessionState::Listening);
    assert!(
        ctx.cold_session,
        "transition() must NOT flip cold_session; only end_cold_session() does"
    );
    ctx.end_cold_session();
    assert!(!ctx.cold_session);
}

#[test]
fn cold_start_cooldown_blocks_back_to_back() {
    let mut ctx = RepairContext::new();
    ctx.state = SessionState::Thinking;
    ctx.state_changed_at = ctx.now().minus(3 * SECOND);
    let now = ctx.now();
    assert_eq!(
        decide(&ctx, now, false, false),
        Some(RepairKind::ColdStartPatience)
    );
    ctx.mark_fired(RepairKind::ColdStartPatience, now);
    let now2 = now.plus(500 * NANOS_PER_MILLI);
    assert_eq!(decide(&ctx, now2, false, false), None);
    let now3 = now.plus(COLD_START_INTERVAL).plus(10 * NANOS_PER_MILLI);
    assert_eq!(
        decide(&ctx, now3, false, false),
        Some(RepairKind::ColdStartPatience)
    );
}

#[test]
fn filler_same_kind_cooldown() {
    let mut ctx = RepairContext::new();
    ctx.cold_session = false;
    ctx.state = SessionState::Thinking;
    ctx.state_changed_at = ctx.now();
    let now = ctx.now();
    assert_eq!(decide(&ctx, now, false, true), Some(RepairKind::Filler));
    ctx.mark_fired(RepairKind::Filler, now);
    assert_eq!(
        decide(&ctx, now.plus(100 * NANOS_PER_MILLI), false, true),
        None
    );
    assert_eq!(
        decide(
            &ctx,
            now.plus(SAME_KIND_INTERVAL).plus(10 * NANOS_PER_MILLI),
            false,
            true
        ),
        Some(RepairKind::Filler)
    );
}

#[test]
fn mark_fired_tracks_consecutive() {
    let mut ctx = RepairContext::new();
    let t0 = ctx.now();
    ctx.mark_fired(RepairKind::Filler, t0);
    assert_eq!(ctx.consecutive, 1);
    ctx.mark_fired(RepairKind::Filler, t0.plus(2 * SECOND));
    assert_eq!(ctx.consecutive, 2);
    ctx.mark_fired(RepairKind::Backchannel, t0.plus(3 * SECOND));
    assert_eq!(ctx.consecutive, 1);
}

#[test]
fn decide_returns_interrupt_ack_on_barge_in() {
    let ctx = RepairContext::new();
    let now = ctx.now();
    assert_eq!(
        decide(&ctx, now, true, false),
        Some(RepairKind::InterruptAck)
    );
}

#[test]
fn decide_filler_when_ttft_exceeded_in_thinking() {
    let mut ctx = RepairContext::new();
    ctx.cold_session = false;
    ctx.state = SessionState::Thinking;
    ctx.state_changed_at = ctx.now();
    assert_eq!(
        decide(&ctx, ctx.now(), false, true),
        Some(RepairKind::Filler)
    );
}

#[test]
fn decide_continue_after_long_listening_pause() {
    let mut ctx = RepairContext::new();
    ctx.cold_session = false;
    ctx.state = SessionState::Listening;
    let three_s_ago = ctx.now().minus(3000 * NANOS_PER_MILLI);
    ctx.state_changed_at = three_s_ago;
    ctx.last_user_end = Some(three_s_ago);
    assert_eq!(
        decide(&ctx, ctx.now(), false, false),
        Some(RepairKind::Continue)
    );
}

#[test]
fn decide_no_repair_in_quiet_idle() {
    let mut ctx = RepairContext::new();
    ctx.cold_session = false;
    ctx.state = SessionState::Idle;
    assert_eq!(decide(&ctx, ctx.now(), false, false), None);
}

#[test]
fn decide_cold_start_patience_during_thinking() {
    let mut ctx = RepairContext::new();
    ctx.state = SessionState::Thinking;
    ctx.state_changed_at = ctx.now().minus(3 * SECOND);
    assert_eq!(
        decide(&ctx, ctx.now(), false, false),
        Some(RepairKind::ColdStartPatience)
    );
}

fn at(ms: i64) -> Timestamp {
    Timestamp {
        nanos: ms * NANOS_PER_MILLI as i64,
    }
}

#[test]
fn decide_self_correct_right_after_reply() {
    let mut ctx = RepairContext::default();
    ctx.cold_session = false;
    ctx.transition_at(SessionState::Thinking, at(10_000));
    ctx.last_reply_end = Some(at(9_000));
    ctx.last_user_end = Some(at(9_500));
    assert_eq!(
        decide(&ctx, at(10_000), false, true),
        Some(RepairKind::SelfCorrect)
    );
    // Too late, or the user did not speak after the reply: bridge instead.
    assert_eq!(
        decide(&ctx, at(11_000), false, true),
        Some(RepairKind::Filler)
    );
    ctx.last_user_end = Some(at(9_000));
    assert_eq!(
        decide(&ctx, at(10_000), false, true),
        Some(RepairKind::Filler)
    );
}

#[test]
fn cooldowns_are_exact() {
    let mut ctx = RepairContext::new();
    ctx.mark_fired(RepairKind::Filler, at(1_000));
    assert!(!cooldown_ok(&ctx, at(2_499), RepairKind::Filler, SAME_KIND_INTERVAL));
    assert!(cooldown_ok(&ctx, at(2_500), RepairKind::Filler, SAME_KIND_INTERVAL));
    assert!(cooldown_ok(&ctx, at(1_000), RepairKind::Continue, SAME_KIND_INTERVAL));
    // A clock that reads earlier counts as no time at all.
    assert!(!cooldown_ok(&ctx, at(0), RepairKind::Filler, SAME_KIND_INTERVAL));
}

#[test]
fn cooldowns_are_kept_per_kind() {
    let mut ctx = RepairContext::new();
    ctx.transition_at(SessionState::Thinking, at(0));
    let t = at(3_000);
    assert_eq!(
        decide(&ctx, t, false, false),
        Some(RepairKind::ColdStartPatience)
    );
    ctx.mark_fired(RepairKind::ColdStartPatience, t);
    assert_eq!(
        decide(&ctx, at(3_100), false, true),
        Some(RepairKind::Filler)
    );
    ctx.mark_fired(RepairKind::Filler, at(3_100));
    // Neither may repeat, though the other fired in between.
    assert_eq!(decide(&ctx, at(3_200), false, false), None);
    assert_eq!(decide(&ctx, at(3_200), false, true), None);
    ctx.mark_fired(RepairKind::InterruptAck, at(3_300));
    assert_eq!(decide(&ctx, at(4_599), false, true), None);
    assert_eq!(
        decide(&ctx, at(4_600), false, true),
        Some(RepairKind::Filler)
    );
    assert_eq!(decide(&ctx, at(5_999), false, false), None);
    assert_eq!(
        decide(&ctx, at(6_000), false, false),
        Some(RepairKind::ColdStartPatience)
    );
    assert_eq!(ctx.fired.get(RepairKind::Filler), Some(at(3_100)));
    assert_eq!(ctx.fired.get(RepairKind::Continue), None);
}

#[test]
fn thresholds_are_exact() {
    let mut ctx = RepairContext::new();
    ctx.transition_at(SessionState::Idle, at(0));
    assert_eq!(decide(&ctx, at(2_000), false, false), None);
    assert_eq!(
        decide(&ctx, at(2_001), false, false),
        Some(RepairKind::ColdStartPatience)
    );
    ctx.end_cold_session();
    ctx.transition_at(SessionState::Listening, at(0));
    ctx.last_user_end = Some(at(0));
    assert_eq!(decide(&ctx, at(2_499), false, false), None);
    assert_eq!(decide(&ctx, at(2_500), false, false), Some(RepairKind::Continue));
    // Nothing fires while speaking, but an interruption always does.
    ctx.transition_at(SessionState::Speaking, at(0));
    assert_eq!(decide(&ctx, at(9_000), false, true), None);
    ctx.mark_fired(RepairKind::InterruptAck, at(9_000));
    assert_eq!(
        decide(&ctx, at(9_000), true, true),
        Some(RepairKind::InterruptAck)
    );
}

#[test]
fn consecutive_saturates() {
    let mut ctx = RepairContext::new();
    for _ in 0..300 {
        ctx.mark_fired(RepairKind::Continue, at(0));
    }
    assert_eq!(ctx.consecutive, u8::MAX);
}

#[test]
fn repair_labels() {
    assert_eq!(RepairKind::Filler.label(), "filler");
    assert_eq!(RepairKind::Backchannel.label(), "backchannel");
    assert_eq!(RepairKind::Continue.label(), "continue");
    assert_eq!(RepairKind::InterruptAck.label(), "interrupt_ack");
    assert_eq!(RepairKind::SelfCorrect.label(), "self_correct");
    assert_eq!(RepairKind::ColdStartPatience.label(), "cold_start_patience");
}

#[test]
fn clock_moves_forward() {
    let clock = Clock::start();
    let a = clock.now();
    let mut b = clock.now();
    for _ in 0..10_000_000u64 {
        if b.nanos > a.nanos {
            break;
        }
        b = clock.now();
    }
    assert!(a.nanos >= 0);
    assert!(b.nanos > a.nanos);
    assert_eq!(b.duration_since(a), (b.nanos - a.nanos) as u64);
    assert_eq!(a.duration_since(b), 0);
}

#[test]
fn points_after_the_start_saturate() {
    assert_eq!(Timestamp::after_start(0).nanos, 0);
    assert_eq!(Timestamp::after_start(1_500).nanos, 1_500);
    assert_eq!(Timestamp::after_start(i64::MAX as u128).nanos, i64::MAX);
    assert_eq!(Timestamp::after_start(i64::MAX as u128 + 1).nanos, i64::MAX);
    assert_eq!(Timestamp::after_start(u128::MAX).nanos, i64::MAX);
}

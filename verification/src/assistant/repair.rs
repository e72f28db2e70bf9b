//! Contextual dialog repairs.
//!
//! A repair is a short clip that bridges a gap in the conversation. Which one
//! fires is a pure decision over the session state, the time since it last
//! changed, the last user and reply timestamps and when each repair last fired.

use crate::assistant::state::SessionState;
use crate::time::{elapsed, Clock, Timestamp};
use rand::seq::SliceRandom;
use vstd::prelude::*;

verus! {

/// A repair category. Each maps to a small bank of clips.
#[derive(Debug, Clone, Copy, PartialEq, Eq, Structural, Hash)]
pub enum RepairKind {
    /// Latency mask while the reply is being prepared.
    Filler,
    /// Passive acknowledgement.
    Backchannel,
    /// Invitation to go on.
    Continue,
    /// Acknowledges an interruption.
    InterruptAck,
    /// The user spoke again right after the reply.
    SelfCorrect,
    /// Masks model loading at session start.
    ColdStartPatience,
}

pub open spec fn kind_label(k: RepairKind) -> Seq<char> {
    match k {
        RepairKind::Filler => "filler"@,
        RepairKind::Backchannel => "backchannel"@,
        RepairKind::Continue => "continue"@,
        RepairKind::InterruptAck => "interrupt_ack"@,
        RepairKind::SelfCorrect => "self_correct"@,
        RepairKind::ColdStartPatience => "cold_start_patience"@,
    }
}

impl RepairKind {
    pub fn label(self) -> (r: &'static str)
        ensures
            r@ == kind_label(self),
    {
        match self {
            RepairKind::Filler => "filler",
            RepairKind::Backchannel => "backchannel",
            RepairKind::Continue => "continue",
            RepairKind::InterruptAck => "interrupt_ack",
            RepairKind::SelfCorrect => "self_correct",
            RepairKind::ColdStartPatience => "cold_start_patience",
        }
    }
}

/// Banks of clips, one per [`RepairKind`]. `C` is a cheap handle to a clip.
pub struct RepairBank<C> {
    pub filler: Vec<C>,
    pub backchannel: Vec<C>,
    pub continue_: Vec<C>,
    pub interrupt_ack: Vec<C>,
    pub self_correct: Vec<C>,
    pub cold_start: Vec<C>,
}

/// `SliceRandom::choose` with the thread's generator: an element of the slice,
/// none exactly when the slice is empty. Which element is left to chance.
#[verifier::external_body]
pub(crate) fn choose_clip<C>(bank: &Vec<C>) -> (r: Option<&C>)
    ensures
        r is None <==> bank@.len() == 0,
        r matches Some(c) ==> bank@.contains(*c),
{
    bank.choose(&mut rand::thread_rng())
}

impl<C> RepairBank<C> {
    /// The bank of a kind.
    pub open spec fn clips(self, kind: RepairKind) -> Seq<C> {
        match kind {
            RepairKind::Filler => self.filler@,
            RepairKind::Backchannel => self.backchannel@,
            RepairKind::Continue => self.continue_@,
            RepairKind::InterruptAck => self.interrupt_ack@,
            RepairKind::SelfCorrect => self.self_correct@,
            RepairKind::ColdStartPatience => self.cold_start@,
        }
    }

    /// The bank that serves a kind: its own, or the fillers where that is empty.
    pub open spec fn serving(self, kind: RepairKind) -> Seq<C> {
        if self.clips(kind).len() > 0 {
            self.clips(kind)
        } else {
            self.filler@
        }
    }

    /// The bank that serves a kind: its own, or the fillers where that is empty.
    pub fn bank_for(&self, kind: RepairKind) -> (r: &Vec<C>)
        ensures
            r@ == self.serving(kind),
    {
        let own = match kind {
            RepairKind::Filler => &self.filler,
            RepairKind::Backchannel => &self.backchannel,
            RepairKind::Continue => &self.continue_,
            RepairKind::InterruptAck => &self.interrupt_ack,
            RepairKind::SelfCorrect => &self.self_correct,
            RepairKind::ColdStartPatience => &self.cold_start,
        };
        if own.len() > 0 {
            own
        } else {
            &self.filler
        }
    }

    /// One clip for the kind, chosen at random. Falls back to the fillers where
    /// the bank is empty; `None` only when those are empty too.
    pub fn pick(&self, kind: RepairKind) -> (r: Option<&C>)
        ensures
            r is None <==> self.clips(kind).len() == 0 && self.filler@.len() == 0,
            r matches Some(c) ==> self.serving(kind).contains(*c),
    {
        choose_clip(self.bank_for(kind))
    }
}

/// When each kind of repair last fired.
#[derive(Debug, Clone, Copy, PartialEq, Eq, Structural)]
pub struct FiredAt {
    pub filler: Option<Timestamp>,
    pub backchannel: Option<Timestamp>,
    pub continue_: Option<Timestamp>,
    pub interrupt_ack: Option<Timestamp>,
    pub self_correct: Option<Timestamp>,
    pub cold_start: Option<Timestamp>,
}

impl FiredAt {
    /// When `kind` last fired.
    pub open spec fn last(self, kind: RepairKind) -> Option<Timestamp> {
        match kind {
            RepairKind::Filler => self.filler,
            RepairKind::Backchannel => self.backchannel,
            RepairKind::Continue => self.continue_,
            RepairKind::InterruptAck => self.interrupt_ack,
            RepairKind::SelfCorrect => self.self_correct,
            RepairKind::ColdStartPatience => self.cold_start,
        }
    }

    /// The same with `kind` fired at `now`.
    pub open spec fn with(self, kind: RepairKind, now: Timestamp) -> FiredAt {
        match kind {
            RepairKind::Filler => FiredAt { filler: Some(now), ..self },
            RepairKind::Backchannel => FiredAt { backchannel: Some(now), ..self },
            RepairKind::Continue => FiredAt { continue_: Some(now), ..self },
            RepairKind::InterruptAck => FiredAt { interrupt_ack: Some(now), ..self },
            RepairKind::SelfCorrect => FiredAt { self_correct: Some(now), ..self },
            RepairKind::ColdStartPatience => FiredAt { cold_start: Some(now), ..self },
        }
    }

    /// Nothing has fired.
    pub fn never() -> (r: Self)
        ensures
            forall|kind: RepairKind| #[trigger] r.last(kind) is None,
    {
        FiredAt {
            filler: None,
            backchannel: None,
            continue_: None,
            interrupt_ack: None,
            self_correct: None,
            cold_start: None,
        }
    }

    /// When `kind` last fired.
    pub fn get(&self, kind: RepairKind) -> (r: Option<Timestamp>)
        ensures
            r == self.last(kind),
    {
        match kind {
            RepairKind::Filler => self.filler,
            RepairKind::Backchannel => self.backchannel,
            RepairKind::Continue => self.continue_,
            RepairKind::InterruptAck => self.interrupt_ack,
            RepairKind::SelfCorrect => self.self_correct,
            RepairKind::ColdStartPatience => self.cold_start,
        }
    }

    /// Notes that `kind` fired at `now`.
    pub fn set(&mut self, kind: RepairKind, now: Timestamp)
        ensures
            *final(self) == old(self).with(kind, now),
    {
        match kind {
            RepairKind::Filler => self.filler = Some(now),
            RepairKind::Backchannel => self.backchannel = Some(now),
            RepairKind::Continue => self.continue_ = Some(now),
            RepairKind::InterruptAck => self.interrupt_ack = Some(now),
            RepairKind::SelfCorrect => self.self_correct = Some(now),
            RepairKind::ColdStartPatience => self.cold_start = Some(now),
        }
    }
}

/// What a repair decision reads.
#[derive(Debug, Clone)]
pub struct RepairContext {
    /// The clock that the timestamps below are read from.
    pub clock: Clock,
    /// When the session state last changed.
    pub state_changed_at: Timestamp,
    /// Current session state.
    pub state: SessionState,
    /// When the last user utterance ended.
    pub last_user_end: Option<Timestamp>,
    /// When playback of the last reply ended.
    pub last_reply_end: Option<Timestamp>,
    /// True until model pre-warm has finished; only
    /// [`end_cold_session`](Self::end_cold_session) lifts it.
    pub cold_session: bool,
    /// The repair fired last, and when.
    pub last_kind: Option<RepairKind>,
    pub last_repair_at: Option<Timestamp>,
    /// When each kind last fired; a kind keeps its cooldown whatever fires in
    /// between.
    pub fired: FiredAt,
    /// How many repairs of that kind fired in a row.
    pub consecutive: u8,
}

/// How many repairs of `kind` fired in a row once one more does: one more than
/// before where the last one was of that kind too, as far as the count goes.
pub open spec fn in_a_row(last: Option<RepairKind>, before: u8, kind: RepairKind) -> u8 {
    if last != Some(kind) {
        1
    } else if before < u8::MAX {
        (before + 1) as u8
    } else {
        u8::MAX
    }
}

impl RepairContext {
    /// A cold, idle session that starts now; its clock reads 0.
    pub fn new() -> (r: Self)
        ensures
            r.state_changed_at.nanos == 0,
            r.state == SessionState::Idle,
            r.last_user_end is None,
            r.last_reply_end is None,
            r.cold_session,
            r.last_kind is None,
            r.last_repair_at is None,
            forall|kind: RepairKind| #[trigger] r.fired.last(kind) is None,
            r.consecutive == 0,
    {
        RepairContext {
            clock: Clock::start(),
            state_changed_at: Timestamp { nanos: 0 },
            state: SessionState::Idle,
            last_user_end: None,
            last_reply_end: None,
            cold_session: true,
            last_kind: None,
            last_repair_at: None,
            fired: FiredAt::never(),
            consecutive: 0,
        }
    }

    /// The present moment on the session's clock.
    pub fn now(&self) -> (r: Timestamp)
        ensures
            r.nanos >= 0,
    {
        self.clock.now()
    }

    /// Notes a state transition at this moment; restarts the dwell time and
    /// leaves everything else, `cold_session` included, as it was.
    pub fn transition(&mut self, new_state: SessionState)
        ensures
            final(self).state_changed_at.nanos >= 0,
            *final(self) == (RepairContext {
                state: new_state,
                state_changed_at: final(self).state_changed_at,
                ..*old(self)
            }),
    {
        let now = self.now();
        self.transition_at(new_state, now);
    }

    /// Notes a state transition at `now`.
    pub fn transition_at(&mut self, new_state: SessionState, now: Timestamp)
        ensures
            *final(self) == (RepairContext {
                state: new_state,
                state_changed_at: now,
                ..*old(self)
            }),
    {
        self.state = new_state;
        self.state_changed_at = now;
    }

    /// Ends the cold-start mask.
    pub fn end_cold_session(&mut self)
        ensures
            *final(self) == (RepairContext { cold_session: false, ..*old(self) }),
    {
        self.cold_session = false;
    }

    /// Records that a repair fired at `now`.
    pub fn mark_fired(&mut self, kind: RepairKind, now: Timestamp)
        ensures
            *final(self) == (RepairContext {
                last_kind: Some(kind),
                last_repair_at: Some(now),
                fired: old(self).fired.with(kind, now),
                consecutive: if old(self).last_kind == Some(kind) {
                    if old(self).consecutive == u8::MAX {
                        u8::MAX
                    } else {
                        (old(self).consecutive + 1) as u8
                    }
                } else {
                    1
                },
                ..*old(self)
            }),
            final(self).consecutive == in_a_row(old(self).last_kind, old(self).consecutive, kind),
    {
        let repeated = match self.last_kind {
            Some(last) => last == kind,
            None => false,
        };
        if repeated {
            self.consecutive = self.consecutive.saturating_add(1);
        } else {
            self.consecutive = 1;
        }
        self.last_kind = Some(kind);
        self.last_repair_at = Some(now);
        self.fired.set(kind, now);
    }
}

impl Default for RepairContext {
    fn default() -> (r: Self)
        ensures
            r.state_changed_at.nanos == 0,
            r.state == SessionState::Idle,
            r.last_user_end is None,
            r.last_reply_end is None,
            r.cold_session,
            r.last_kind is None,
            r.last_repair_at is None,
            forall|kind: RepairKind| #[trigger] r.fired.last(kind) is None,
            r.consecutive == 0,
    {
        Self::new()
    }
}

/// Least time between two cold-start repairs, in nanoseconds.
pub const COLD_START_INTERVAL: u64 = 3_000_000_000;

/// Least time between any two repairs of the same kind, in nanoseconds.
pub const SAME_KIND_INTERVAL: u64 = 1_500_000_000;

/// A cold session that has dwelt longer than this in a state asks for patience.
pub const COLD_START_DWELL: u64 = 2_000_000_000;

/// A user turn that ends after the reply within this time is a correction.
pub const CORRECTION_WINDOW: u64 = 2_000_000_000;

/// How long the user may pause before being invited to go on.
pub const CONTINUE_DWELL: u64 = 2_500_000_000;

/// `kind` has not fired yet, or at least `min_interval` has passed since it
/// last did.
pub open spec fn cooled_down(
    ctx: RepairContext,
    now: Timestamp,
    kind: RepairKind,
    min_interval: u64,
) -> bool {
    ctx.fired.last(kind) matches Some(at) ==> elapsed(now, at) >= min_interval
}

/// A cold session has dwelt long enough in `Thinking` or `Idle`.
pub open spec fn cold_start_due(ctx: RepairContext, now: Timestamp) -> bool {
    &&& ctx.cold_session
    &&& cooled_down(ctx, now, RepairKind::ColdStartPatience, COLD_START_INTERVAL)
    &&& elapsed(now, ctx.state_changed_at) > COLD_START_DWELL
    &&& ctx.state == SessionState::Thinking || ctx.state == SessionState::Idle
}

/// The user spoke again right after the last reply.
pub open spec fn self_correct_due(ctx: RepairContext, now: Timestamp) -> bool {
    &&& ctx.state == SessionState::Thinking
    &&& ctx.last_reply_end is Some
    &&& elapsed(now, ctx.last_reply_end->0) < CORRECTION_WINDOW
    &&& ctx.last_user_end is Some
    &&& ctx.last_user_end->0.nanos > ctx.last_reply_end->0.nanos
    &&& cooled_down(ctx, now, RepairKind::SelfCorrect, SAME_KIND_INTERVAL)
}

/// The first token is overdue.
pub open spec fn filler_due(ctx: RepairContext, now: Timestamp, ttft_exceeded: bool) -> bool {
    &&& ttft_exceeded
    &&& ctx.state == SessionState::Thinking
    &&& cooled_down(ctx, now, RepairKind::Filler, SAME_KIND_INTERVAL)
}

/// The user has paused for long after having spoken.
pub open spec fn continue_due(ctx: RepairContext, now: Timestamp) -> bool {
    &&& ctx.state == SessionState::Listening
    &&& elapsed(now, ctx.state_changed_at) >= CONTINUE_DWELL
    &&& ctx.last_user_end is Some
    &&& cooled_down(ctx, now, RepairKind::Continue, SAME_KIND_INTERVAL)
}

/// The repair that fires: the first that is due, in order of priority.
pub open spec fn decision(
    ctx: RepairContext,
    now: Timestamp,
    barge_in: bool,
    ttft_exceeded: bool,
) -> Option<RepairKind> {
    if barge_in {
        Some(RepairKind::InterruptAck)
    } else if cold_start_due(ctx, now) {
        Some(RepairKind::ColdStartPatience)
    } else if self_correct_due(ctx, now) {
        Some(RepairKind::SelfCorrect)
    } else if filler_due(ctx, now, ttft_exceeded) {
        Some(RepairKind::Filler)
    } else if continue_due(ctx, now) {
        Some(RepairKind::Continue)
    } else {
        None
    }
}

/// Decides which repair, if any, fires at `now`.
pub fn decide(
    ctx: &RepairContext,
    now: Timestamp,
    barge_in_just_fired: bool,
    llm_ttft_exceeded: bool,
) -> (r: Option<RepairKind>)
    ensures
        r == decision(*ctx, now, barge_in_just_fired, llm_ttft_exceeded),
{
    if barge_in_just_fired {
        return Some(RepairKind::InterruptAck);
    }
    if ctx.cold_session && cooldown_ok(
        ctx,
        now,
        RepairKind::ColdStartPatience,
        COLD_START_INTERVAL,
    ) {
        let dwell: u64 = now.duration_since(ctx.state_changed_at);
        if dwell > COLD_START_DWELL && (ctx.state == SessionState::Thinking || ctx.state
            == SessionState::Idle) {
            return Some(RepairKind::ColdStartPatience);
        }
    }
    if ctx.state == SessionState::Thinking {
        if let Some(reply_end) = ctx.last_reply_end {
            let spoke_after = match ctx.last_user_end {
                Some(user_end) => user_end.nanos > reply_end.nanos,
                None => false,
            };
            if now.duration_since(reply_end) < CORRECTION_WINDOW && spoke_after && cooldown_ok(
                ctx,
                now,
                RepairKind::SelfCorrect,
                SAME_KIND_INTERVAL,
            ) {
                return Some(RepairKind::SelfCorrect);
            }
        }
    }
    if llm_ttft_exceeded && ctx.state == SessionState::Thinking && cooldown_ok(
        ctx,
        now,
        RepairKind::Filler,
        SAME_KIND_INTERVAL,
    ) {
        return Some(RepairKind::Filler);
    }
    if ctx.state == SessionState::Listening {
        let dwell: u64 = now.duration_since(ctx.state_changed_at);
        if dwell >= CONTINUE_DWELL && ctx.last_user_end.is_some() && cooldown_ok(
            ctx,
            now,
            RepairKind::Continue,
            SAME_KIND_INTERVAL,
        ) {
            return Some(RepairKind::Continue);
        }
    }
    None
}

/// True if `kind` may fire at `now`: it has not fired yet, or the interval has
/// passed since it last did.
pub fn cooldown_ok(
    ctx: &RepairContext,
    now: Timestamp,
    kind: RepairKind,
    min_interval: u64,
) -> (r: bool)
    ensures
        r == cooled_down(*ctx, now, kind, min_interval),
{
    match ctx.fired.get(kind) {
        Some(at) => now.duration_since(at) >= min_interval,
        None => true,
    }
}

/// An interruption is acknowledged in every state, cooldowns notwithstanding.
pub proof fn lemma_interrupt_bypasses_cooldown(
    ctx: RepairContext,
    now: Timestamp,
    ttft_exceeded: bool,
)
    ensures
        decision(ctx, now, true, ttft_exceeded) == Some(RepairKind::InterruptAck),
{
}

/// Least time between two repairs of a kind.
pub open spec fn least_interval(kind: RepairKind) -> u64 {
    if kind == RepairKind::ColdStartPatience {
        COLD_START_INTERVAL
    } else {
        SAME_KIND_INTERVAL
    }
}

/// When each kind last fired, after the repairs in `fires` were noted in turn.
pub open spec fn fired_after(start: FiredAt, fires: Seq<(RepairKind, Timestamp)>) -> FiredAt
    decreases fires.len(),
{
    if fires.len() == 0 {
        start
    } else {
        fired_after(start, fires.drop_last()).with(fires.last().0, fires.last().1)
    }
}

/// Two repairs of one kind are at least that kind's interval apart, whatever
/// fired between them: once repair `i` of `fires` has been noted, no repair of
/// its kind is decided on until the interval has passed. The one exception is
/// an interruption, which is acknowledged at once.
pub proof fn lemma_no_repeat_within_interval(
    start: FiredAt,
    fires: Seq<(RepairKind, Timestamp)>,
    i: int,
    ctx: RepairContext,
    now: Timestamp,
    ttft_exceeded: bool,
)
    requires
        0 <= i < fires.len(),
        forall|a: int, b: int|
            0 <= a <= b < fires.len() ==> (#[trigger] fires[a]).1.nanos <= (
            #[trigger] fires[b]).1.nanos,
        ctx.fired == fired_after(start, fires),
    ensures
        decision(ctx, now, false, ttft_exceeded) == Some(fires[i].0) ==> elapsed(
            now,
            fires[i].1,
        ) >= least_interval(fires[i].0),
{
    lemma_last_firing(start, fires, i);
}

/// The last firing of a kind is noted, and no earlier than any other.
proof fn lemma_last_firing(start: FiredAt, fires: Seq<(RepairKind, Timestamp)>, i: int)
    requires
        0 <= i < fires.len(),
        forall|a: int, b: int|
            0 <= a <= b < fires.len() ==> (#[trigger] fires[a]).1.nanos <= (
            #[trigger] fires[b]).1.nanos,
    ensures
        fired_after(start, fires).last(fires[i].0) matches Some(at) && at.nanos
            >= fires[i].1.nanos,
    decreases fires.len(),
{
    let n = fires.len() - 1;
    assert(fires.last() == fires[n]);
    if fires[n].0 != fires[i].0 {
        let rest = fires.drop_last();
        assert forall|a: int, b: int| 0 <= a <= b < rest.len() implies (
        #[trigger] rest[a]).1.nanos <= (#[trigger] rest[b]).1.nanos by {
            assert(fires[a].1.nanos <= fires[b].1.nanos);
        }
        lemma_last_firing(start, rest, i);
    } else {
        assert(fires[i].1.nanos <= fires[n].1.nanos);
    }
}

/// Each repair fires only in the states it is meant for: patience in a cold
/// `Thinking` or `Idle`, corrections and fillers in `Thinking`, invitations in
/// `Listening`; without an interruption nothing fires in `Speaking` or
/// `Interrupted`, and backchannels are never decided on.
pub proof fn lemma_repair_fits_state(
    ctx: RepairContext,
    now: Timestamp,
    barge_in: bool,
    ttft_exceeded: bool,
)
    ensures
        match decision(ctx, now, barge_in, ttft_exceeded) {
            Some(RepairKind::InterruptAck) => barge_in,
            Some(RepairKind::ColdStartPatience) => ctx.cold_session && (ctx.state
                == SessionState::Thinking || ctx.state == SessionState::Idle),
            Some(RepairKind::SelfCorrect) => ctx.state == SessionState::Thinking,
            Some(RepairKind::Filler) => ctx.state == SessionState::Thinking && ttft_exceeded,
            Some(RepairKind::Continue) => ctx.state == SessionState::Listening,
            Some(RepairKind::Backchannel) => false,
            None => !barge_in,
        },
{
}

/// The user is invited to go on exactly when they have spoken, the session has
/// been listening for two and a half seconds or more, and a second and a half
/// or more have passed since the last invitation, if there was one. An
/// interruption comes first; nothing else does.
pub proof fn lemma_continue_after_a_pause(
    ctx: RepairContext,
    now: Timestamp,
    barge_in: bool,
    ttft_exceeded: bool,
)
    ensures
        decision(ctx, now, barge_in, ttft_exceeded) == Some(RepairKind::Continue) <==> {
            &&& !barge_in
            &&& ctx.state == SessionState::Listening
            &&& ctx.last_user_end is Some
            &&& now.nanos - ctx.state_changed_at.nanos >= 2_500_000_000
            &&& ctx.fired.continue_ matches Some(at) ==> now.nanos - at.nanos >= 1_500_000_000
        },
{
}

/// Patience is asked for exactly when a cold session has been thinking or idle
/// for more than two seconds and three seconds or more have passed since it
/// was last asked for. Only an interruption comes first.
pub proof fn lemma_patience_when_cold(
    ctx: RepairContext,
    now: Timestamp,
    barge_in: bool,
    ttft_exceeded: bool,
)
    ensures
        decision(ctx, now, barge_in, ttft_exceeded) == Some(RepairKind::ColdStartPatience) <==> {
            &&& !barge_in
            &&& ctx.cold_session
            &&& ctx.state == SessionState::Thinking || ctx.state == SessionState::Idle
            &&& now.nanos - ctx.state_changed_at.nanos > 2_000_000_000
            &&& ctx.fired.cold_start matches Some(at) ==> now.nanos - at.nanos >= 3_000_000_000
        },
{
}

/// Unless a cold session asks for patience, a correction is acknowledged exactly
/// when the session is thinking, the last reply ended less than two seconds
/// ago, the user has spoken since, and a second and a half or more have passed
/// since the last such acknowledgement.
pub proof fn lemma_correction_after_reply(
    ctx: RepairContext,
    now: Timestamp,
    barge_in: bool,
    ttft_exceeded: bool,
)
    requires
        decision(ctx, now, barge_in, ttft_exceeded) != Some(RepairKind::ColdStartPatience),
    ensures
        decision(ctx, now, barge_in, ttft_exceeded) == Some(RepairKind::SelfCorrect) <==> {
            &&& !barge_in
            &&& ctx.state == SessionState::Thinking
            &&& ctx.last_reply_end matches Some(reply) && ctx.last_user_end matches Some(user)
                && now.nanos - reply.nanos < 2_000_000_000 && user.nanos > reply.nanos
            &&& ctx.fired.self_correct matches Some(at) ==> now.nanos - at.nanos >= 1_500_000_000
        },
{
}

/// A filler plays only while the session thinks, when the first token is
/// overdue and a second and a half or more have passed since the last filler;
/// then it does, unless the user interrupted, a cold session asks for patience
/// or a correction is acknowledged in its place.
pub proof fn lemma_filler_when_overdue(
    ctx: RepairContext,
    now: Timestamp,
    barge_in: bool,
    ttft_exceeded: bool,
)
    ensures
        decision(ctx, now, barge_in, ttft_exceeded) == Some(RepairKind::Filler) ==> {
            &&& !barge_in
            &&& ttft_exceeded
            &&& ctx.state == SessionState::Thinking
            &&& ctx.fired.filler matches Some(at) ==> now.nanos - at.nanos >= 1_500_000_000
        },
        ({
            &&& ttft_exceeded
            &&& ctx.state == SessionState::Thinking
            &&& ctx.fired.filler matches Some(at) ==> now.nanos - at.nanos >= 1_500_000_000
        }) ==> match decision(ctx, now, barge_in, ttft_exceeded) {
            Some(RepairKind::Filler) => !barge_in,
            Some(RepairKind::InterruptAck) => barge_in,
            Some(RepairKind::ColdStartPatience) => ctx.cold_session,
            Some(RepairKind::SelfCorrect) => ctx.last_reply_end is Some && ctx.last_user_end is Some,
            _ => false,
        },
{
}

/// An interruption is acknowledged whenever there is one, and only then. While
/// the session speaks, or right after an interruption, nothing else fires, nor
/// does anything but patience while it is idle.
pub proof fn lemma_interruption_alone_is_acknowledged(
    ctx: RepairContext,
    now: Timestamp,
    barge_in: bool,
    ttft_exceeded: bool,
)
    ensures
        decision(ctx, now, barge_in, ttft_exceeded) == Some(RepairKind::InterruptAck) <==> barge_in,
        !barge_in && (ctx.state == SessionState::Speaking || ctx.state
            == SessionState::Interrupted) ==> decision(ctx, now, barge_in, ttft_exceeded) is None,
        !barge_in && ctx.state == SessionState::Idle && !ctx.cold_session ==> decision(
            ctx,
            now,
            barge_in,
            ttft_exceeded,
        ) is None,
{
}

/// What is due stays due: if the user is invited to go on now, then they are
/// at any later moment at which nothing else has changed.
pub proof fn lemma_invitation_stays_due(ctx: RepairContext, now: Timestamp, later: Timestamp)
    requires
        now.nanos <= later.nanos,
        decision(ctx, now, false, false) == Some(RepairKind::Continue),
    ensures
        decision(ctx, later, false, false) == Some(RepairKind::Continue),
{
}

/// Noting that a kind fired changes when that kind last fired, and no other.
pub proof fn lemma_each_kind_has_its_own_cooldown(
    fired: FiredAt,
    kind: RepairKind,
    now: Timestamp,
    other: RepairKind,
)
    ensures
        fired.with(kind, now).last(kind) == Some(now),
        other != kind ==> fired.with(kind, now).last(other) == fired.last(other),
{
}

/// A kind is served by its own clips where it has any, and by the fillers
/// otherwise; no clip of another kind ever serves it.
pub proof fn lemma_bank_serves_its_kind<C>(bank: RepairBank<C>, kind: RepairKind)
    ensures
        bank.serving(RepairKind::Filler) == bank.filler@,
        bank.backchannel@.len() > 0 ==> bank.serving(RepairKind::Backchannel) == bank.backchannel@,
        bank.continue_@.len() > 0 ==> bank.serving(RepairKind::Continue) == bank.continue_@,
        bank.interrupt_ack@.len() > 0 ==> bank.serving(RepairKind::InterruptAck)
            == bank.interrupt_ack@,
        bank.self_correct@.len() > 0 ==> bank.serving(RepairKind::SelfCorrect)
            == bank.self_correct@,
        bank.cold_start@.len() > 0 ==> bank.serving(RepairKind::ColdStartPatience)
            == bank.cold_start@,
        bank.clips(kind).len() == 0 ==> bank.serving(kind) == bank.filler@,
        bank.serving(kind).len() == 0 <==> bank.clips(kind).len() == 0 && bank.filler@.len() == 0,
{
}

/// No two kinds share a label.
pub proof fn lemma_kind_labels_differ(a: RepairKind, b: RepairKind)
    ensures
        kind_label(a) == kind_label(b) ==> a == b,
{
    reveal_strlit("filler");
    reveal_strlit("backchannel");
    reveal_strlit("continue");
    reveal_strlit("interrupt_ack");
    reveal_strlit("self_correct");
    reveal_strlit("cold_start_patience");
    assert("filler"@.len() == 6 && "backchannel"@.len() == 11 && "continue"@.len() == 8
        && "interrupt_ack"@.len() == 13 && "self_correct"@.len() == 12
        && "cold_start_patience"@.len() == 19);
}

/// The count of repairs in a row after a run of them, from none.
pub open spec fn row_after(kinds: Seq<RepairKind>) -> u8
    decreases kinds.len(),
{
    if kinds.len() == 0 {
        0
    } else if kinds.len() == 1 {
        in_a_row(None, 0, kinds[0])
    } else {
        in_a_row(
            Some(kinds[kinds.len() - 2]),
            row_after(kinds.drop_last()),
            kinds.last(),
        )
    }
}

/// The count says how many of the last repairs are of one kind: it reaches `n`
/// exactly when the last `n` all are.
pub proof fn lemma_row_counts_the_last_of_a_kind(kinds: Seq<RepairKind>, n: int)
    requires
        1 <= n <= 255,
        kinds.len() > 0,
    ensures
        row_after(kinds) >= n <==> n <= kinds.len() && forall|i: int|
            kinds.len() - n <= i < kinds.len() ==> #[trigger] kinds[i] == kinds.last(),
    decreases kinds.len(),
{
    let len = kinds.len() as int;
    assert(kinds[len - 1] == kinds.last());
    if len > 1 && n > 1 {
        let init = kinds.drop_last();
        lemma_row_counts_the_last_of_a_kind(init, n - 1);
        assert(init.last() == kinds[len - 2]);
        if kinds[len - 2] == kinds.last() {
            if row_after(kinds) >= n {
                assert forall|i: int| len - n <= i < len implies #[trigger] kinds[i]
                    == kinds.last() by {
                    if i < len - 1 {
                        assert(init[i] == kinds[i]);
                    }
                }
            }
            if n <= len && forall|i: int| len - n <= i < len ==> #[trigger] kinds[i]
                == kinds.last() {
                assert forall|i: int| init.len() - (n - 1) <= i < init.len() implies #[trigger] init[i]
                    == init.last() by {
                    assert(kinds[i] == kinds.last());
                }
            }
        } else if n <= len {
            assert(kinds[len - 2] != kinds.last());
        }
    }
}

} // verus!

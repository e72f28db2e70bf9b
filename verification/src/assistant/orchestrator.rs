//! Turn taking: assembling utterances, reacting to barge-in, and the order of
//! states that a turn goes through.

use crate::assistant::config::{samples_in, AssistantConfig};
use crate::assistant::state::SessionState;
use crate::assistant::vad::{counted, extended, lemma_counts_are_streaks, Streaks};
use crate::audio::chunks::{append_all, copy_range};
use crate::audio::ring_buffer::last_n;
use crate::text::{chars_of, is_blank, trim_bounds};
use vstd::prelude::*;

verus! {

/// Boundary in the input stream.
#[derive(Debug, Clone, Copy, PartialEq, Eq, Structural)]
pub enum VadEvent {
    SpeechStart,
    SpeechEnd,
}

/// What one mic chunk brought about.
#[derive(Debug, Clone)]
pub struct UtteranceStep<T> {
    pub event: Option<VadEvent>,
    /// The utterance that just ended, if it has samples.
    pub utterance: Option<Vec<T>>,
}

/// Collects the samples of an utterance, with a pre-roll so that its first
/// sound is not cut off.
pub struct UtteranceAssembler<T> {
    pub start_frames: u8,
    pub end_frames: u8,
    pub preroll_samples: usize,
    pub in_speech: bool,
    pub streaks: Streaks,
    pub preroll: Vec<T>,
    pub buf: Vec<T>,
}

/// Pre-roll kept before an utterance, in milliseconds.
pub const PREROLL_MS: u32 = 200;

/// What an assembler holds.
#[verifier::ext_equal]
pub struct Assembly<T> {
    pub start_frames: u8,
    pub end_frames: u8,
    pub preroll_samples: nat,
    pub in_speech: bool,
    pub streaks: Streaks,
    pub preroll: Seq<T>,
    pub buf: Seq<T>,
}

/// The rolling pre-roll after a chunk: old samples make room for the chunk, as
/// far as they can.
pub open spec fn rolled<T>(preroll: Seq<T>, chunk: Seq<T>, limit: int) -> Seq<T> {
    if chunk.len() >= limit {
        chunk
    } else {
        last_n(preroll, limit - chunk.len()) + chunk
    }
}

impl<T> Assembly<T> {
    /// The assembly after a chunk of the given kind.
    pub open spec fn after(self, active: bool, chunk: Seq<T>) -> Assembly<T> {
        let streaks = extended(self.streaks, active);
        if !self.in_speech {
            let preroll = rolled(self.preroll, chunk, self.preroll_samples as int);
            if streaks.above >= self.start_frames {
                Assembly { in_speech: true, streaks, preroll: Seq::empty(), buf: preroll, ..self }
            } else {
                Assembly { streaks, preroll, ..self }
            }
        } else if streaks.below >= self.end_frames {
            Assembly { in_speech: false, streaks, buf: Seq::empty(), ..self }
        } else {
            Assembly { streaks, buf: self.buf + chunk, ..self }
        }
    }

    /// The event that a chunk of the given kind brings about.
    pub open spec fn event(self, active: bool, chunk: Seq<T>) -> Option<VadEvent> {
        let next = self.after(active, chunk);
        if !self.in_speech && next.in_speech {
            Some(VadEvent::SpeechStart)
        } else if self.in_speech && !next.in_speech {
            Some(VadEvent::SpeechEnd)
        } else {
            None
        }
    }

    /// The samples of the utterance that a chunk of the given kind ends.
    pub open spec fn utterance(self, active: bool, chunk: Seq<T>) -> Option<Seq<T>> {
        if self.event(active, chunk) == Some(VadEvent::SpeechEnd) && (self.buf + chunk).len() > 0 {
            Some(self.buf + chunk)
        } else {
            None
        }
    }
}

impl<T> View for UtteranceAssembler<T> {
    type V = Assembly<T>;

    open spec fn view(&self) -> Assembly<T> {
        Assembly {
            start_frames: self.start_frames,
            end_frames: self.end_frames,
            preroll_samples: self.preroll_samples as nat,
            in_speech: self.in_speech,
            streaks: self.streaks,
            preroll: self.preroll@,
            buf: self.buf@,
        }
    }
}

impl<T: Copy> UtteranceAssembler<T> {
    pub fn new(cfg: &AssistantConfig) -> (r: Self)
        requires
            cfg.audio.input_rate_hz * PREROLL_MS <= usize::MAX,
        ensures
            r@ == (Assembly::<T> {
                start_frames: cfg.vad.speech_start_frames,
                end_frames: cfg.vad.speech_end_frames,
                preroll_samples: samples_in(
                    cfg.audio.input_rate_hz as int,
                    PREROLL_MS as int,
                ) as nat,
                in_speech: false,
                streaks: (Streaks { above: 0, below: 0 }),
                preroll: Seq::empty(),
                buf: Seq::empty(),
            }),
            r@.preroll_samples == cfg.audio.input_rate_hz as int / 5,
    {
        proof {
            let rate = cfg.audio.input_rate_hz as int;
            let millis = PREROLL_MS as int;
            assert(rate * millis == 200 * rate) by (nonlinear_arith)
                requires
                    millis == 200,
            ;
        }
        UtteranceAssembler {
            start_frames: cfg.vad.speech_start_frames,
            end_frames: cfg.vad.speech_end_frames,
            preroll_samples: crate::assistant::config::samples_per(
                cfg.audio.input_rate_hz,
                PREROLL_MS,
            ),
            in_speech: false,
            streaks: Streaks::new(),
            preroll: Vec::new(),
            buf: Vec::new(),
        }
    }

    /// Takes the next mic chunk; `active` is whether it is loud enough.
    pub fn chunk(&mut self, active: bool, samples: &[T]) -> (r: UtteranceStep<T>)
        ensures
            final(self)@ == old(self)@.after(active, samples@),
            r.event == old(self)@.event(active, samples@),
            match (r.utterance, old(self)@.utterance(active, samples@)) {
                (Some(v), Some(s)) => v@ == s,
                (None, None) => true,
                _ => false,
            },
    {
        let ghost before = self@;
        self.streaks.note(active);
        if !self.in_speech {
            let n: usize = samples.len();
            let limit: usize = self.preroll_samples;
            let have: usize = self.preroll.len();
            if n >= limit {
                self.preroll = Vec::new();
            } else if have > limit - n {
                let drop: usize = have - (limit - n);
                self.preroll = copy_range(self.preroll.as_slice(), drop, have);
            }
            append_all(&mut self.preroll, samples);
            assert(self.preroll@ =~= rolled(before.preroll, samples@, limit as int));
            if self.streaks.above >= self.start_frames {
                self.in_speech = true;
                self.buf = copy_range(self.preroll.as_slice(), 0, self.preroll.len());
                assert(self.buf@ =~= self.preroll@);
                self.preroll = Vec::new();
                assert(self@ =~= before.after(active, samples@));
                UtteranceStep { event: Some(VadEvent::SpeechStart), utterance: None }
            } else {
                UtteranceStep { event: None, utterance: None }
            }
        } else {
            append_all(&mut self.buf, samples);
            if self.streaks.below >= self.end_frames {
                self.in_speech = false;
                let utt = copy_range(self.buf.as_slice(), 0, self.buf.len());
                assert(utt@ =~= self.buf@);
                self.buf = Vec::new();
                assert(self@ =~= before.after(active, samples@));
                if utt.len() > 0 {
                    UtteranceStep { event: Some(VadEvent::SpeechEnd), utterance: Some(utt) }
                } else {
                    UtteranceStep { event: Some(VadEvent::SpeechEnd), utterance: None }
                }
            } else {
                UtteranceStep { event: None, utterance: None }
            }
        }
    }
}

/// `s` ends in `tail`.
pub open spec fn has_suffix<T>(s: Seq<T>, tail: Seq<T>) -> bool {
    tail.len() <= s.len() && s.subrange(s.len() - tail.len(), s.len() as int) == tail
}

/// What is collected is the end of the input heard so far.
pub open spec fn collects<T>(a: Assembly<T>, heard: Seq<T>) -> bool {
    has_suffix(
        heard,
        if a.in_speech {
            a.buf
        } else {
            a.preroll
        },
    ) && (a.in_speech ==> a.preroll.len() == 0)
}

/// An utterance is one unbroken run of the input that ends with the chunk that
/// ended it; a started utterance includes its pre-roll.
pub proof fn lemma_utterance_is_unbroken<T>(
    a: Assembly<T>,
    heard: Seq<T>,
    active: bool,
    chunk: Seq<T>,
)
    requires
        collects(a, heard),
    ensures
        collects(a.after(active, chunk), heard + chunk),
        a.utterance(active, chunk) matches Some(u) ==> has_suffix(heard + chunk, u),
{
    let all = heard + chunk;
    if a.in_speech {
        let u = a.buf + chunk;
        assert(all.subrange(all.len() - u.len(), all.len() as int) =~= u) by {
            assert(a.buf =~= heard.subrange(heard.len() - a.buf.len(), heard.len() as int));
        }
        let empty = Seq::<T>::empty();
        assert(a.preroll =~= empty);
        assert(all.subrange(all.len() as int, all.len() as int) =~= empty);
    } else {
        let p = rolled(a.preroll, chunk, a.preroll_samples as int);
        assert(a.preroll =~= heard.subrange(heard.len() - a.preroll.len(), heard.len() as int));
        assert(all.subrange(all.len() - p.len(), all.len() as int) =~= p);
    }
}

/// The pre-roll holds at most its limit, or one chunk where that is longer.
pub proof fn lemma_preroll_is_bounded<T>(a: Assembly<T>, active: bool, chunk: Seq<T>)
    requires
        !a.in_speech,
    ensures
        a.after(active, chunk).preroll.len() <= if chunk.len() > a.preroll_samples {
            chunk.len()
        } else {
            a.preroll_samples
        },
{
}

/// What the supervisor does when speech starts.
#[derive(Debug, Clone, Copy, PartialEq, Eq, Structural)]
pub enum BargeIn {
    /// Flush the speaker, pass through `Interrupted`, then listen.
    Interrupt,
    /// Start to listen.
    Listen,
    /// Nothing.
    Ignore,
}

/// What a speech boundary calls for in a session state.
pub open spec fn barge_in_for(state: SessionState, event: VadEvent) -> BargeIn {
    match (event, state) {
        (VadEvent::SpeechStart, SessionState::Speaking) => BargeIn::Interrupt,
        (VadEvent::SpeechStart, SessionState::Idle) => BargeIn::Listen,
        _ => BargeIn::Ignore,
    }
}

/// The user can always cut the assistant short, and only by starting to speak
/// while it does; speech in an idle session starts to listen; the end of
/// speech brings nothing about.
pub proof fn lemma_barge_in_while_speaking(state: SessionState, event: VadEvent)
    ensures
        barge_in_for(state, event) == BargeIn::Interrupt <==> event == VadEvent::SpeechStart
            && state == SessionState::Speaking,
        barge_in_for(state, event) == BargeIn::Listen <==> event == VadEvent::SpeechStart && state
            == SessionState::Idle,
        event == VadEvent::SpeechEnd ==> barge_in_for(state, event) == BargeIn::Ignore,
{
}

/// Reacts to a speech boundary in the current session state.
pub fn barge_in(state: SessionState, event: VadEvent) -> (r: BargeIn)
    ensures
        r == barge_in_for(state, event),
        r == if event == VadEvent::SpeechStart && state == SessionState::Speaking {
            BargeIn::Interrupt
        } else if event == VadEvent::SpeechStart && state == SessionState::Idle {
            BargeIn::Listen
        } else {
            BargeIn::Ignore
        },
{
    match event {
        VadEvent::SpeechStart => {
            if state == SessionState::Speaking {
                BargeIn::Interrupt
            } else if state == SessionState::Idle {
                BargeIn::Listen
            } else {
                BargeIn::Ignore
            }
        },
        VadEvent::SpeechEnd => BargeIn::Ignore,
    }
}

/// What happened in a turn.
#[derive(Debug, Clone)]
pub enum TurnEvent {
    /// An utterance was heard.
    Utterance,
    /// Speech recognition gave this text.
    Transcript(String),
    /// Speech synthesis gave the reply's audio.
    Audio,
    /// All chunks of the reply were handed over.
    Streamed,
    /// Recognition or synthesis failed.
    Failed,
}

/// Where a turn stands.
#[derive(Debug, Clone, Copy, PartialEq, Eq, Structural)]
pub enum TurnPhase {
    /// Waiting for an utterance.
    Waiting,
    /// Recognising it.
    Transcribing,
    /// Synthesising the reply.
    Synthesizing,
    /// Handing over the reply's audio.
    Streaming,
}

/// The next phase of a turn. A failure and a blank transcript end the turn; an
/// event out of turn is ignored.
pub open spec fn next_phase(phase: TurnPhase, event: TurnEvent) -> TurnPhase {
    match (phase, event) {
        (TurnPhase::Waiting, TurnEvent::Utterance) => TurnPhase::Transcribing,
        (TurnPhase::Transcribing, TurnEvent::Transcript(text)) => if is_blank(text@) {
            TurnPhase::Waiting
        } else {
            TurnPhase::Synthesizing
        },
        (TurnPhase::Transcribing, TurnEvent::Failed) => TurnPhase::Waiting,
        (TurnPhase::Synthesizing, TurnEvent::Audio) => TurnPhase::Streaming,
        (TurnPhase::Synthesizing, TurnEvent::Failed) => TurnPhase::Waiting,
        (TurnPhase::Streaming, TurnEvent::Streamed) => TurnPhase::Waiting,
        (phase, event) => phase,
    }
}

/// The session state of each phase of a turn.
pub open spec fn phase_state(phase: TurnPhase) -> SessionState {
    match phase {
        TurnPhase::Waiting => SessionState::Listening,
        TurnPhase::Transcribing => SessionState::Thinking,
        TurnPhase::Synthesizing => SessionState::Thinking,
        TurnPhase::Streaming => SessionState::Speaking,
    }
}

/// Takes the next event of a turn. Gives the phase that follows and the
/// session state to publish, where that changes.
pub fn turn_step(phase: TurnPhase, event: &TurnEvent) -> (r: (TurnPhase, Option<SessionState>))
    ensures
        r.0 == next_phase(phase, *event),
        r.1 == if phase_state(r.0) == phase_state(phase) {
            None
        } else {
            Some(phase_state(r.0))
        },
{
    match (phase, event) {
        (TurnPhase::Waiting, TurnEvent::Utterance) => (
            TurnPhase::Transcribing,
            Some(SessionState::Thinking),
        ),
        (TurnPhase::Transcribing, TurnEvent::Transcript(text)) => {
            let chars = chars_of(text.as_str());
            let (from, to) = trim_bounds(chars.as_slice());
            proof {
                crate::text::lemma_blank_iff_trim_empty(text@);
            }
            if from == to {
                (TurnPhase::Waiting, Some(SessionState::Listening))
            } else {
                (TurnPhase::Synthesizing, None)
            }
        },
        (TurnPhase::Transcribing, TurnEvent::Failed) => (
            TurnPhase::Waiting,
            Some(SessionState::Listening),
        ),
        (TurnPhase::Synthesizing, TurnEvent::Audio) => (
            TurnPhase::Streaming,
            Some(SessionState::Speaking),
        ),
        (TurnPhase::Synthesizing, TurnEvent::Failed) => (
            TurnPhase::Waiting,
            Some(SessionState::Listening),
        ),
        (TurnPhase::Streaming, TurnEvent::Streamed) => (
            TurnPhase::Waiting,
            Some(SessionState::Listening),
        ),
        _ => (phase, None),
    }
}

/// The transitions of the session state that a turn can make: to `Thinking`
/// when an utterance is heard, to `Speaking` when the reply has audio, and to
/// `Listening` from either. A failed turn always goes back to listening.
pub proof fn lemma_turn_transitions(phase: TurnPhase, event: TurnEvent)
    ensures
        ({
            let from = phase_state(phase);
            let to = phase_state(next_phase(phase, event));
            ||| from == to
            ||| from == SessionState::Listening && to == SessionState::Thinking && event
                == TurnEvent::Utterance
            ||| from == SessionState::Thinking && to == SessionState::Speaking && event
                == TurnEvent::Audio
            ||| from == SessionState::Thinking && to == SessionState::Listening
            ||| from == SessionState::Speaking && to == SessionState::Listening
        }),
        event == TurnEvent::Failed && phase != TurnPhase::Streaming ==> next_phase(phase, event)
            == TurnPhase::Waiting,
{
}

// ---------------------------------------------------------------------------
// Runs of chunks
// ---------------------------------------------------------------------------

/// The assembly after a run of chunks, each with whether it is loud enough.
pub open spec fn assembled<T>(a: Assembly<T>, run: Seq<(bool, Seq<T>)>) -> Assembly<T>
    decreases run.len(),
{
    if run.len() == 0 {
        a
    } else {
        assembled(a, run.drop_last()).after(run.last().0, run.last().1)
    }
}

/// All samples of a run of chunks, in order.
pub open spec fn samples_of<T>(run: Seq<(bool, Seq<T>)>) -> Seq<T>
    decreases run.len(),
{
    if run.len() == 0 {
        Seq::empty()
    } else {
        samples_of(run.drop_last()) + run.last().1
    }
}

/// Whether each chunk of a run is loud enough.
pub open spec fn loudness<T>(run: Seq<(bool, Seq<T>)>) -> Seq<bool> {
    run.map_values(|c: (bool, Seq<T>)| c.0)
}

/// While speech goes on nothing that was collected is let go: after any run of
/// chunks that does not end it, what is collected is what there was, followed
/// by every sample of the run.
pub proof fn lemma_speech_is_kept_whole<T>(a: Assembly<T>, run: Seq<(bool, Seq<T>)>)
    requires
        a.in_speech,
        forall|i: int| 0 <= i <= run.len() ==> (#[trigger] assembled(a, run.take(i))).in_speech,
    ensures
        assembled(a, run).in_speech,
        assembled(a, run).preroll == a.preroll,
        assembled(a, run).buf == a.buf + samples_of(run),
        assembled(a, run).buf.len() == a.buf.len() + samples_of(run).len(),
    decreases run.len(),
{
    assert(run.take(run.len() as int) =~= run);
    if run.len() > 0 {
        let init = run.drop_last();
        assert forall|i: int| 0 <= i <= init.len() implies (#[trigger] assembled(
            a,
            init.take(i),
        )).in_speech by {
            assert(init.take(i) =~= run.take(i));
        }
        lemma_speech_is_kept_whole(a, init);
        assert(assembled(a, run).in_speech);
        assert(a.buf + samples_of(init) + run.last().1 =~= a.buf + samples_of(run));
    } else {
        assert(a.buf + samples_of(run) =~= a.buf);
    }
}

/// An utterance is what was held when speech started, followed by every chunk
/// from there to the one that ends it, that one included; none of it is lost,
/// so its length is theirs together. It is handed out unless it is empty, and
/// nothing of it stays behind.
pub proof fn lemma_utterance_holds_every_chunk<T>(
    a: Assembly<T>,
    run: Seq<(bool, Seq<T>)>,
    active: bool,
    chunk: Seq<T>,
)
    requires
        a.in_speech,
        forall|i: int| 0 <= i <= run.len() ==> (#[trigger] assembled(a, run.take(i))).in_speech,
        assembled(a, run).event(active, chunk) == Some(VadEvent::SpeechEnd),
    ensures
        ({
            let whole = a.buf + samples_of(run) + chunk;
            &&& assembled(a, run).utterance(active, chunk) == if whole.len() == 0 {
                None
            } else {
                Some(whole)
            }
            &&& whole.len() == a.buf.len() + samples_of(run).len() + chunk.len()
            &&& assembled(a, run).after(active, chunk).buf.len() == 0
            &&& assembled(a, run).after(active, chunk).preroll == a.preroll
            &&& !assembled(a, run).after(active, chunk).in_speech
        }),
{
    lemma_speech_is_kept_whole(a, run);
}

/// While there is no speech the pre-roll is the end of what was heard: as much
/// of it as the limit allows, and always all of the last chunk.
pub proof fn lemma_preroll_is_the_latest<T>(a: Assembly<T>, run: Seq<(bool, Seq<T>)>)
    requires
        !a.in_speech,
        a.preroll.len() == 0,
        forall|i: int| 0 <= i <= run.len() ==> !(#[trigger] assembled(a, run.take(i))).in_speech,
    ensures
        ({
            let heard = samples_of(run);
            let held = assembled(a, run).preroll;
            &&& held.len() <= heard.len()
            &&& held == heard.subrange(heard.len() - held.len(), heard.len() as int)
            &&& held.len() >= heard.len() || held.len() >= a.preroll_samples
            &&& run.len() > 0 ==> held.len() >= run.last().1.len()
            &&& held.len() > a.preroll_samples ==> run.len() > 0 && held.len() == run.last().1.len()
        }),
        assembled(a, run).preroll_samples == a.preroll_samples,
        !assembled(a, run).in_speech,
    decreases run.len(),
{
    assert(run.take(run.len() as int) =~= run);
    if run.len() > 0 {
        let init = run.drop_last();
        assert forall|i: int| 0 <= i <= init.len() implies !(#[trigger] assembled(
            a,
            init.take(i),
        )).in_speech by {
            assert(init.take(i) =~= run.take(i));
        }
        lemma_preroll_is_the_latest(a, init);
        let before = samples_of(init);
        let heard = samples_of(run);
        let held = assembled(a, run).preroll;
        let old_held = assembled(a, init).preroll;
        assert(!assembled(a, run).in_speech);
        assert(old_held =~= before.subrange(before.len() - old_held.len(), before.len() as int));
        assert(held =~= heard.subrange(heard.len() - held.len(), heard.len() as int));
    } else {
        assert(assembled(a, run).preroll =~= Seq::<T>::empty());
        assert(Seq::<T>::empty().subrange(0, 0) =~= Seq::<T>::empty());
    }
}

/// Speech starts with the pre-roll and all of the chunk that starts it: of the
/// two together the last samples, as many as the limit allows.
pub proof fn lemma_speech_starts_with_the_preroll<T>(a: Assembly<T>, active: bool, chunk: Seq<T>)
    requires
        a.event(active, chunk) == Some(VadEvent::SpeechStart),
    ensures
        ({
            let both = a.preroll + chunk;
            let taken = a.after(active, chunk).buf;
            &&& taken == both.subrange(both.len() - taken.len(), both.len() as int)
            &&& chunk.len() <= taken.len() <= both.len()
            &&& taken.len() == both.len() || taken.len() >= a.preroll_samples
            &&& taken.len() > a.preroll_samples ==> taken.len() == chunk.len()
            &&& a.after(active, chunk).preroll.len() == 0
            &&& a.utterance(active, chunk) is None
        }),
{
    let both = a.preroll + chunk;
    let taken = a.after(active, chunk).buf;
    assert(taken =~= both.subrange(both.len() - taken.len(), both.len() as int));
}

proof fn lemma_assembly_counts<T>(a: Assembly<T>, run: Seq<(bool, Seq<T>)>)
    requires
        a.streaks == (Streaks { above: 0, below: 0 }),
    ensures
        assembled(a, run).streaks == counted(loudness(run)),
        assembled(a, run).start_frames == a.start_frames,
        assembled(a, run).end_frames == a.end_frames,
        assembled(a, run).preroll_samples == a.preroll_samples,
    decreases run.len(),
{
    if run.len() > 0 {
        lemma_assembly_counts(a, run.drop_last());
        assert(loudness(run).drop_last() =~= loudness(run.drop_last()));
        assert(loudness(run).last() == run.last().0);
    } else {
        assert(loudness(run) =~= Seq::<bool>::empty());
    }
}

/// Speech starts with the chunk that makes `start_frames` loud ones in a row,
/// and ends with the one that makes `end_frames` quiet ones in a row; no other
/// chunk brings anything about.
pub proof fn lemma_events_follow_the_streaks<T>(
    a: Assembly<T>,
    run: Seq<(bool, Seq<T>)>,
    active: bool,
    chunk: Seq<T>,
)
    requires
        a.streaks == (Streaks { above: 0, below: 0 }),
    ensures
        ({
            let all = loudness(run).push(active);
            let talked = a.start_frames <= all.len() && forall|i: int|
                all.len() - a.start_frames <= i < all.len() ==> #[trigger] all[i];
            let silent = a.end_frames <= all.len() && forall|i: int|
                all.len() - a.end_frames <= i < all.len() ==> !#[trigger] all[i];
            let speaking = assembled(a, run).in_speech;
            let event = assembled(a, run).event(active, chunk);
            &&& event == Some(VadEvent::SpeechStart) <==> !speaking && talked
            &&& event == Some(VadEvent::SpeechEnd) <==> speaking && silent
            &&& event is None ==> assembled(a, run).after(active, chunk).in_speech == speaking
        }),
{
    let longer = run.push((active, chunk));
    let all = loudness(run).push(active);
    assert(longer.drop_last() =~= run);
    assert(loudness(longer) =~= all);
    lemma_assembly_counts(a, run);
    lemma_assembly_counts(a, longer);
    lemma_counts_are_streaks(all, a.start_frames as int);
    lemma_counts_are_streaks(all, a.end_frames as int);
}

// ---------------------------------------------------------------------------
// Runs of turns
// ---------------------------------------------------------------------------

/// A turn that goes well passes through thinking and speaking and is back
/// where it began: it says so at each change, and not in between.
pub proof fn lemma_turn_goes_round(text: String)
    requires
        !is_blank(text@),
    ensures
        ({
            let heard = next_phase(TurnPhase::Waiting, TurnEvent::Utterance);
            let read = next_phase(heard, TurnEvent::Transcript(text));
            let voiced = next_phase(read, TurnEvent::Audio);
            let done = next_phase(voiced, TurnEvent::Streamed);
            &&& phase_state(TurnPhase::Waiting) == SessionState::Listening
            &&& phase_state(heard) == SessionState::Thinking
            &&& phase_state(read) == SessionState::Thinking
            &&& phase_state(voiced) == SessionState::Speaking
            &&& done == TurnPhase::Waiting
            &&& read != heard && voiced != read
        }),
{
}

/// A turn leaves a phase only on the event that the phase waits for, or on a
/// failure of the work that the phase does; a blank transcript ends it.
pub proof fn lemma_turn_waits_for_its_event(phase: TurnPhase, event: TurnEvent)
    ensures
        next_phase(phase, event) != phase ==> match phase {
            TurnPhase::Waiting => event is Utterance,
            TurnPhase::Transcribing => event is Transcript || event is Failed,
            TurnPhase::Synthesizing => event is Audio || event is Failed,
            TurnPhase::Streaming => event is Streamed,
        },
        phase == TurnPhase::Waiting && event is Utterance ==> next_phase(phase, event) != phase,
        phase == TurnPhase::Transcribing && (event is Transcript || event is Failed) ==> next_phase(
            phase,
            event,
        ) != phase,
        phase == TurnPhase::Synthesizing && (event is Audio || event is Failed) ==> next_phase(
            phase,
            event,
        ) != phase,
        phase == TurnPhase::Streaming && event is Streamed ==> next_phase(phase, event) != phase,
        event matches TurnEvent::Transcript(text) ==> is_blank(text@) && phase
            == TurnPhase::Transcribing ==> next_phase(phase, event) == TurnPhase::Waiting,
{
}

} // verus!

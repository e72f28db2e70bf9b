//! Session state of the assistant and what drives it.

use vstd::prelude::*;

verus! {

/// High-level state of a session.
///
/// - `Idle -> Listening`: the session starts
/// - `Listening -> Thinking`: an utterance ended
/// - `Thinking -> Speaking`: the reply has audio
/// - `Speaking -> Listening`: playback is over or was interrupted
/// - `* -> Interrupted -> Listening`: the user barged in
#[derive(Debug, Clone, Copy, PartialEq, Eq, Structural, Hash)]
pub enum SessionState {
    /// The session has not started.
    Idle,
    /// Capturing user audio until the utterance ends.
    Listening,
    /// The user finished talking; no audio out yet.
    Thinking,
    /// Reply audio is being played.
    Speaking,
    /// Transient: playback is being flushed after a barge-in.
    Interrupted,
}

/// The label of each state.
pub open spec fn state_label(s: SessionState) -> Seq<char> {
    match s {
        SessionState::Idle => "IDLE"@,
        SessionState::Listening => "LISTENING"@,
        SessionState::Thinking => "THINKING"@,
        SessionState::Speaking => "SPEAKING"@,
        SessionState::Interrupted => "INTERRUPTED"@,
    }
}

impl SessionState {
    /// Short label for display.
    pub fn label(&self) -> (r: &'static str)
        ensures
            r@ == state_label(*self),
    {
        match self {
            SessionState::Idle => "IDLE",
            SessionState::Listening => "LISTENING",
            SessionState::Thinking => "THINKING",
            SessionState::Speaking => "SPEAKING",
            SessionState::Interrupted => "INTERRUPTED",
        }
    }

    /// The label as an owned string.
    pub fn to_string(&self) -> (r: String)
        ensures
            r@ == state_label(*self),
    {
        self.label().to_owned()
    }
}

/// Different states have different labels.
pub proof fn lemma_labels_are_distinct(a: SessionState, b: SessionState)
    requires
        state_label(a) == state_label(b),
    ensures
        a == b,
{
    reveal_strlit("IDLE");
    reveal_strlit("LISTENING");
    reveal_strlit("THINKING");
    reveal_strlit("SPEAKING");
    reveal_strlit("INTERRUPTED");
    assert("LISTENING"@[0] == 'L');
    assert("LISTENING"@.len() == 9);
    assert("IDLE"@.len() == 4);
    assert("THINKING"@.len() == 8 && "THINKING"@[0] == 'T');
    assert("SPEAKING"@.len() == 8 && "SPEAKING"@[0] == 'S');
    assert("INTERRUPTED"@.len() == 11);
}

} // verus!

//! Filler audio: when a filler plays, which one, and the looped room tone.

use crate::assistant::repair::choose_clip;
use crate::assistant::state::SessionState;
use vstd::prelude::*;

verus! {

/// What to do with the timer after a state change.
#[derive(Debug, Clone, Copy, PartialEq, Eq, Structural)]
pub enum TimerAction {
    /// Start the timer afresh.
    Start,
    /// Stop the running timer.
    Cancel,
    /// Nothing runs and nothing is started.
    Idle,
}

/// Decides when a filler plays: once per `Thinking` cycle, if it lasts until
/// the timer fires.
#[derive(Debug, Clone, Copy, PartialEq, Eq, Structural)]
pub struct FillerTimer {
    /// A timer runs for the current `Thinking` cycle.
    pub armed: bool,
}

/// Whether a timer runs after the session went to `state`.
pub open spec fn armed_in(state: SessionState) -> bool {
    state == SessionState::Thinking
}

/// What is done with the timer when the session goes to `state`.
pub open spec fn timer_action(armed: bool, state: SessionState) -> TimerAction {
    if state == SessionState::Thinking {
        TimerAction::Start
    } else if armed {
        TimerAction::Cancel
    } else {
        TimerAction::Idle
    }
}

impl FillerTimer {
    pub fn new() -> (r: Self)
        ensures
            !r.armed,
    {
        FillerTimer { armed: false }
    }

    /// The session state changed. Every `Thinking` gets its own timer; any
    /// other state cancels a running one.
    pub fn state_changed(&mut self, state: SessionState) -> (r: TimerAction)
        ensures
            final(self).armed == (state == SessionState::Thinking),
            final(self).armed == armed_in(state),
            r == timer_action(old(self).armed, state),
            r == if state == SessionState::Thinking {
                TimerAction::Start
            } else if old(self).armed {
                TimerAction::Cancel
            } else {
                TimerAction::Idle
            },
    {
        if state == SessionState::Thinking {
            self.armed = true;
            TimerAction::Start
        } else if self.armed {
            self.armed = false;
            TimerAction::Cancel
        } else {
            TimerAction::Idle
        }
    }

    /// The timer fired; true where a filler is to be played.
    pub fn fired(&mut self) -> (play: bool)
        ensures
            play == old(self).armed,
            !final(self).armed,
    {
        let play = self.armed;
        self.armed = false;
        play
    }
}

/// The indices below `n`, without `last` where others are left.
pub open spec fn may_follow(n: int, last: Option<usize>, i: int) -> bool {
    0 <= i < n && (n > 1 ==> last != Some(i as usize))
}

fn candidates(n: usize, last: Option<usize>) -> (r: Vec<usize>)
    ensures
        r@.len() == 0 <==> n == 0,
        forall|k: int| 0 <= k < r@.len() ==> may_follow(n as int, last, #[trigger] r@[k] as int),
        forall|i: int| may_follow(n as int, last, i) ==> r@.contains(i as usize),
{
    let mut out: Vec<usize> = Vec::new();
    let mut i: usize = 0;
    while i < n
        invariant
            i <= n,
            forall|k: int|
                0 <= k < out@.len() ==> may_follow(n as int, last, #[trigger] out@[k] as int),
            forall|j: int| 0 <= j < i && may_follow(n as int, last, j) ==> out@.contains(j as usize),
            i >= 2 || (i == 1 && n == 1) || (i == 1 && last != Some(0usize)) ==> out@.len() > 0,
        decreases n - i,
    {
        let skip = match last {
            Some(l) => n > 1 && l == i,
            None => false,
        };
        let ghost before = out@;
        if !skip {
            out.push(i);
            assert(out@[before.len() as int] == i);
        }
        proof {
            assert forall|j: int| 0 <= j < i + 1 && may_follow(n as int, last, j) implies out@.contains(
                j as usize,
            ) by {
                if j < i {
                    assert(before.contains(j as usize));
                    let k = choose|k: int| 0 <= k < before.len() && before[k] == j as usize;
                    assert(out@[k] == j as usize);
                }
            }
        }
        i = i + 1;
    }
    proof {
        if n == 0 && out@.len() > 0 {
            assert(may_follow(n as int, last, out@[0] as int));
        }
    }
    out
}

/// Picks one of `n` fillers at random, never the same one twice in a row where
/// there is another.
pub fn pick_filler(n: usize, last: Option<usize>) -> (r: Option<usize>)
    ensures
        r is None <==> n == 0,
        r matches Some(i) ==> may_follow(n as int, last, i as int),
{
    let all = candidates(n, last);
    match choose_clip(&all) {
        Some(i) => Some(*i),
        None => None,
    }
}

/// Plays a loop of samples without end.
pub struct LoopPlayer<T> {
    pub samples: Vec<T>,
    pub pos: usize,
}

/// Sample `i` of a loop played from `pos` on.
pub open spec fn looped<T>(samples: Seq<T>, pos: int, i: int) -> T {
    samples[(pos + i) % (samples.len() as int)]
}

impl<T: Copy> LoopPlayer<T> {
    pub open spec fn wf(self) -> bool {
        self.pos < self.samples@.len()
    }

    pub fn new(samples: Vec<T>) -> (r: Option<Self>)
        ensures
            r is None <==> samples@.len() == 0,
            r matches Some(p) ==> p.wf() && p.samples@ == samples@ && p.pos == 0,
    {
        if samples.len() == 0 {
            None
        } else {
            Some(LoopPlayer { samples, pos: 0 })
        }
    }

    /// The next `n` samples of the loop.
    pub fn next_chunk(&mut self, n: usize) -> (r: Vec<T>)
        requires
            old(self).wf(),
        ensures
            final(self).wf(),
            final(self).samples@ == old(self).samples@,
            final(self).pos == (old(self).pos + n) % (old(self).samples@.len() as int),
            r@ == Seq::new(
                n as nat,
                |i: int| looped(old(self).samples@, old(self).pos as int, i),
            ),
    {
        let mut out: Vec<T> = Vec::with_capacity(n);
        let ghost loop_ = self.samples@;
        let ghost pos0 = self.pos as int;
        let ghost len = loop_.len() as int;
        let mut i: usize = 0;
        proof {
            assert(pos0 % len == pos0) by {
                vstd::arithmetic::div_mod::lemma_small_mod(pos0 as nat, len as nat);
            }
        }
        while i < n
            invariant
                i <= n,
                self.wf(),
                self.samples@ == loop_,
                len == loop_.len(),
                0 <= pos0,
                self.pos == (pos0 + i) % len,
                out@ == Seq::new(i as nat, |j: int| looped(loop_, pos0, j)),
            decreases n - i,
        {
            out.push(self.samples[self.pos]);
            if self.pos == self.samples.len() - 1 {
                self.pos = 0;
            } else {
                self.pos = self.pos + 1;
            }
            proof {
                lemma_next_mod(pos0 + i, len);
                assert(out@ =~= Seq::new((i + 1) as nat, |j: int| looped(loop_, pos0, j)));
            }
            i = i + 1;
        }
        out
    }
}

proof fn lemma_next_mod(x: int, m: int)
    requires
        x >= 0,
        m > 0,
    ensures
        (x + 1) % m == if x % m + 1 == m {
            0
        } else {
            x % m + 1
        },
{
    let q = x / m;
    let r = x % m;
    vstd::arithmetic::div_mod::lemma_fundamental_div_mod(x, m);
    if r + 1 == m {
        assert(x + 1 == m * (q + 1)) by (nonlinear_arith)
            requires
                x == m * q + r,
                r + 1 == m,
        ;
        vstd::arithmetic::div_mod::lemma_fundamental_div_mod_converse(x + 1, m, q + 1, 0);
    } else {
        assert(x + 1 == q * m + (r + 1)) by (nonlinear_arith)
            requires
                x == m * q + r,
        ;
        vstd::arithmetic::div_mod::lemma_fundamental_div_mod_converse(x + 1, m, q, r + 1);
    }
}

/// What happens to a filler timer.
pub enum TimerEvent {
    /// The session went to this state.
    State(SessionState),
    /// The timer fired.
    Fired,
}

/// Whether a timer runs after `events`, from a new one.
pub open spec fn armed_after(events: Seq<TimerEvent>) -> bool
    decreases events.len(),
{
    if events.len() == 0 {
        false
    } else {
        match events.last() {
            TimerEvent::State(state) => armed_in(state),
            TimerEvent::Fired => false,
        }
    }
}

/// A filler plays only when the timer fires in the very state that started it,
/// and only once there: what came right before is the change to `Thinking`.
pub proof fn lemma_filler_plays_once_per_thinking(events: Seq<TimerEvent>)
    ensures
        armed_after(events) <==> events.len() > 0 && events.last() == TimerEvent::State(
            SessionState::Thinking,
        ),
        !armed_after(events.push(TimerEvent::Fired)),
{
}

/// Exactly the change to `Thinking` starts a timer, and whatever leaves it
/// cancels the one that runs; without one there is nothing to cancel.
pub proof fn lemma_timer_follows_thinking(armed: bool, state: SessionState)
    ensures
        timer_action(armed, state) == TimerAction::Start <==> state == SessionState::Thinking,
        timer_action(armed, state) == TimerAction::Cancel <==> armed && state
            != SessionState::Thinking,
        armed_in(state) <==> timer_action(armed, state) == TimerAction::Start,
{
}

/// Any filler but the last may follow; the last one only where it is the only
/// one.
pub proof fn lemma_filler_is_not_repeated(n: int, last: usize, i: int)
    requires
        0 <= i < n <= usize::MAX,
    ensures
        may_follow(n, Some(last), i) <==> i != last || n == 1,
        may_follow(n, None, i),
        !may_follow(n, Some(last), n) && !may_follow(n, None, -1),
{
}

/// A loop plays its samples in order from where it stands and starts over when
/// they are used up; two chunks in a row are the one chunk of their length.
pub proof fn lemma_loop_goes_round<T>(samples: Seq<T>, pos: int, a: int, i: int)
    requires
        0 <= pos < samples.len(),
        0 <= a,
        0 <= i,
    ensures
        pos + i < samples.len() ==> looped(samples, pos, i) == samples[pos + i],
        looped(samples, pos, samples.len() - pos) == samples[0],
        looped(samples, pos, samples.len() + i) == looped(samples, pos, i),
        looped(samples, (pos + a) % (samples.len() as int), i) == looped(samples, pos, a + i),
{
    let n = samples.len() as int;
    if pos + i < n {
        vstd::arithmetic::div_mod::lemma_small_mod((pos + i) as nat, n as nat);
    }
    vstd::arithmetic::div_mod::lemma_mod_self_0(n);
    vstd::arithmetic::div_mod::lemma_mod_add_multiples_vanish(pos + i, n);
    assert(pos + (n + i) == n + (pos + i));
    vstd::arithmetic::div_mod::lemma_add_mod_noop(pos + a, i, n);
    vstd::arithmetic::div_mod::lemma_add_mod_noop((pos + a) % n, i, n);
    vstd::arithmetic::div_mod::lemma_mod_twice(pos + a, n);
    assert(pos + a + i == pos + (a + i));
}

} // verus!

//! Voice activity detection: hysteresis on a per-frame speech test.

use crate::assistant::config::VadConfig;
use vstd::prelude::*;

verus! {

/// Window size in samples.
pub const WINDOW: usize = 512;

/// Frames in a row with and without speech. Each count stops at its largest
/// value.
#[derive(Debug, Clone, Copy, PartialEq, Eq, Structural)]
pub struct Streaks {
    pub above: u8,
    pub below: u8,
}

/// One more frame of the given kind.
pub open spec fn extended(s: Streaks, active: bool) -> Streaks {
    if active {
        Streaks {
            above: if s.above == u8::MAX {
                u8::MAX
            } else {
                (s.above + 1) as u8
            },
            below: 0,
        }
    } else {
        Streaks {
            above: 0,
            below: if s.below == u8::MAX {
                u8::MAX
            } else {
                (s.below + 1) as u8
            },
        }
    }
}

impl Streaks {
    pub fn new() -> (r: Self)
        ensures
            r.above == 0,
            r.below == 0,
    {
        Streaks { above: 0, below: 0 }
    }

    /// Counts one more frame.
    pub fn note(&mut self, active: bool)
        ensures
            *final(self) == extended(*old(self), active),
    {
        if active {
            self.above = self.above.saturating_add(1);
            self.below = 0;
        } else {
            self.below = self.below.saturating_add(1);
            self.above = 0;
        }
    }
}

/// Speech decision with hysteresis: enough frames of speech in a row switch it
/// on, enough frames of silence switch it off, and in between it stays as it
/// is.
#[derive(Debug, Clone, Copy, PartialEq, Eq, Structural)]
pub struct Hysteresis {
    pub start_frames: u8,
    pub end_frames: u8,
    pub streaks: Streaks,
    pub speech: bool,
}

/// The decision after the streaks changed.
pub open spec fn decided(h: Hysteresis, streaks: Streaks) -> bool {
    if streaks.above >= h.start_frames {
        true
    } else if streaks.below >= h.end_frames {
        false
    } else {
        h.speech
    }
}

/// The detector after one more frame.
pub open spec fn after_frame(h: Hysteresis, active: bool) -> Hysteresis {
    let streaks = extended(h.streaks, active);
    Hysteresis { streaks, speech: decided(h, streaks), ..h }
}

impl Hysteresis {
    pub fn new(cfg: &VadConfig) -> (r: Self)
        ensures
            r.start_frames == cfg.speech_start_frames,
            r.end_frames == cfg.speech_end_frames,
            r.streaks == (Streaks { above: 0, below: 0 }),
            !r.speech,
    {
        Hysteresis {
            start_frames: cfg.speech_start_frames,
            end_frames: cfg.speech_end_frames,
            streaks: Streaks::new(),
            speech: false,
        }
    }

    /// Takes the test result of the next frame and gives the decision.
    pub fn frame(&mut self, active: bool) -> (is_speech: bool)
        ensures
            *final(self) == after_frame(*old(self), active),
            is_speech == final(self).speech,
    {
        self.streaks.note(active);
        if self.streaks.above >= self.start_frames {
            self.speech = true;
        } else if self.streaks.below >= self.end_frames {
            self.speech = false;
        }
        self.speech
    }
}

/// The detector after a run of frames.
pub open spec fn after_frames(h: Hysteresis, frames: Seq<bool>) -> Hysteresis
    decreases frames.len(),
{
    if frames.len() == 0 {
        h
    } else {
        after_frame(after_frames(h, frames.drop_last()), frames.last())
    }
}

/// The last `n` frames are all `active`.
pub open spec fn ends_with(frames: Seq<bool>, n: int, active: bool) -> bool {
    n <= frames.len() && forall|i: int|
        frames.len() - n <= i < frames.len() ==> #[trigger] frames[i] == active
}

/// The counts say how many frames in a row were of one kind.
proof fn lemma_streaks_count(h: Hysteresis, frames: Seq<bool>)
    requires
        h.streaks == (Streaks { above: 0, below: 0 }),
    ensures
        ends_with(frames, after_frames(h, frames).streaks.above as int, true),
        ends_with(frames, after_frames(h, frames).streaks.below as int, false),
    decreases frames.len(),
{
    if frames.len() > 0 {
        lemma_streaks_count(h, frames.drop_last());
        let before = after_frames(h, frames.drop_last()).streaks;
        let init = frames.drop_last();
        assert forall|i: int|
            frames.len() - after_frames(h, frames).streaks.above <= i < frames.len() implies #[trigger] frames[i] by {
            if i < frames.len() - 1 {
                assert(frames[i] == init[i]);
            }
        }
        assert forall|i: int|
            frames.len() - after_frames(h, frames).streaks.below <= i < frames.len() implies !(
        #[trigger] frames[i]) by {
            if i < frames.len() - 1 {
                assert(frames[i] == init[i]);
            }
        }
    }
}

/// The decision switches on only after `start_frames` frames of speech in a
/// row, and off only after `end_frames` frames of silence in a row.
pub proof fn lemma_switching_needs_a_streak(h: Hysteresis, frames: Seq<bool>, next: bool)
    requires
        h.streaks == (Streaks { above: 0, below: 0 }),
    ensures
        ({
            let before = after_frames(h, frames).speech;
            let after = after_frames(h, frames.push(next)).speech;
            &&& !before && after ==> ends_with(frames.push(next), h.start_frames as int, true)
            &&& before && !after ==> ends_with(frames.push(next), h.end_frames as int, false)
        }),
{
    let all = frames.push(next);
    assert(all.drop_last() =~= frames);
    lemma_streaks_count(h, all);
    lemma_config_kept(h, frames);
}

proof fn lemma_config_kept(h: Hysteresis, frames: Seq<bool>)
    ensures
        after_frames(h, frames).start_frames == h.start_frames,
        after_frames(h, frames).end_frames == h.end_frames,
    decreases frames.len(),
{
    if frames.len() > 0 {
        lemma_config_kept(h, frames.drop_last());
    }
}

/// The counts after a run of frames, from none.
pub open spec fn counted(frames: Seq<bool>) -> Streaks
    decreases frames.len(),
{
    if frames.len() == 0 {
        Streaks { above: 0, below: 0 }
    } else {
        extended(counted(frames.drop_last()), frames.last())
    }
}

/// A count reaches `n` exactly when the last `n` frames are all of its kind:
/// one frame of the other kind starts it anew.
pub proof fn lemma_counts_are_streaks(frames: Seq<bool>, n: int)
    requires
        0 <= n <= 255,
    ensures
        counted(frames).above >= n <==> n <= frames.len() && forall|i: int|
            frames.len() - n <= i < frames.len() ==> #[trigger] frames[i],
        counted(frames).below >= n <==> n <= frames.len() && forall|i: int|
            frames.len() - n <= i < frames.len() ==> !#[trigger] frames[i],
    decreases frames.len(),
{
    let len = frames.len() as int;
    if len > 0 && n > 0 {
        let init = frames.drop_last();
        lemma_counts_are_streaks(init, n - 1);
        assert(frames[len - 1] == frames.last());
        if frames.last() {
            if n <= len && forall|i: int| len - n <= i < len ==> #[trigger] frames[i] {
                assert forall|i: int| init.len() - (n - 1) <= i < init.len() implies #[trigger] init[i] by {
                    assert(frames[i]);
                }
            }
            if counted(frames).above >= n {
                assert forall|i: int| len - n <= i < len implies #[trigger] frames[i] by {
                    if i < len - 1 {
                        assert(init[i]);
                    }
                }
            }
        } else {
            if n <= len && forall|i: int| len - n <= i < len ==> !#[trigger] frames[i] {
                assert forall|i: int| init.len() - (n - 1) <= i < init.len() implies !(
                #[trigger] init[i]) by {
                    assert(!frames[i]);
                }
            }
            if counted(frames).below >= n {
                assert forall|i: int| len - n <= i < len implies !(#[trigger] frames[i]) by {
                    if i < len - 1 {
                        assert(!init[i]);
                    }
                }
            }
        }
    }
}

proof fn lemma_streaks_are_counted(h: Hysteresis, frames: Seq<bool>)
    requires
        h.streaks == (Streaks { above: 0, below: 0 }),
    ensures
        after_frames(h, frames).streaks == counted(frames),
    decreases frames.len(),
{
    if frames.len() > 0 {
        lemma_streaks_are_counted(h, frames.drop_last());
    }
}

/// The decision after each frame: speech if the last `start_frames` frames all
/// are, otherwise silence if the last `end_frames` frames all are silent, and
/// otherwise what it was before that frame.
pub proof fn lemma_decision_follows_the_streaks(h: Hysteresis, frames: Seq<bool>, next: bool)
    requires
        h.streaks == (Streaks { above: 0, below: 0 }),
    ensures
        ({
            let all = frames.push(next);
            let before = after_frames(h, frames).speech;
            let after = after_frames(h, all).speech;
            let talked = h.start_frames <= all.len() && forall|i: int|
                all.len() - h.start_frames <= i < all.len() ==> #[trigger] all[i];
            let silent = h.end_frames <= all.len() && forall|i: int|
                all.len() - h.end_frames <= i < all.len() ==> !#[trigger] all[i];
            &&& talked ==> after
            &&& !talked && silent ==> !after
            &&& !talked && !silent ==> after == before
        }),
{
    let all = frames.push(next);
    assert(all.drop_last() =~= frames);
    lemma_streaks_are_counted(h, all);
    lemma_config_kept(h, frames);
    lemma_counts_are_streaks(all, h.start_frames as int);
    lemma_counts_are_streaks(all, h.end_frames as int);
}

} // verus!

//! Speaker playback: commands and the jitter buffer.

use crate::audio::RingBuffer;
use vstd::prelude::*;

verus! {

/// A chunk of samples for the speaker.
#[derive(Debug, Clone)]
pub struct AudioChunk<T> {
    pub samples: Vec<T>,
}

/// Commands to the speaker besides the sample stream.
#[derive(Debug, Clone, Copy, PartialEq, Eq, Structural)]
pub enum AudioOutCmd {
    /// Drop all queued samples.
    Flush,
}

/// Carries out a command on the jitter buffer.
pub fn apply_cmd<T: Copy>(jitter: &mut RingBuffer<T>, cmd: AudioOutCmd)
    requires
        old(jitter).wf(),
    ensures
        final(jitter).wf(),
        final(jitter).cap() == old(jitter).cap(),
        cmd == AudioOutCmd::Flush ==> final(jitter)@ == Seq::<T>::empty(),
{
    match cmd {
        AudioOutCmd::Flush => jitter.clear(),
    }
}

/// Repeats each sample once per channel: the interleaved output frames.
pub fn fan_out<T: Copy>(mono: &[T], channels: usize) -> (r: Vec<T>)
    requires
        mono@.len() * channels <= usize::MAX,
    ensures
        r@.len() == mono@.len() * channels,
        forall|i: int, c: int|
            0 <= i < mono@.len() && 0 <= c < channels ==> r@[#[trigger] frame_index(
                i,
                channels as int,
                c,
            )] == mono@[i],
{
    let mut out: Vec<T> = Vec::new();
    let mut i: usize = 0;
    assert(0 * channels == 0) by (nonlinear_arith);
    while i < mono.len()
        invariant
            i <= mono@.len(),
            out@.len() == i * channels,
            forall|j: int, c: int|
                0 <= j < i && 0 <= c < channels ==> out@[#[trigger] frame_index(
                    j,
                    channels as int,
                    c,
                )] == mono@[j],
        decreases mono@.len() - i,
    {
        let mut c: usize = 0;
        while c < channels
            invariant
                i < mono@.len(),
                c <= channels,
                out@.len() == i * channels + c,
                forall|j: int, d: int|
                    (0 <= j < i && 0 <= d < channels) || (j == i && 0 <= d < c)
                        ==> out@[#[trigger] frame_index(j, channels as int, d)] == mono@[j],
            decreases channels - c,
        {
            let ghost before = out@;
            out.push(mono[i]);
            proof {
                assert forall|j: int, d: int|
                    (0 <= j < i && 0 <= d < channels) || (j == i && 0 <= d < c + 1) implies out@[
                #[trigger] frame_index(j, channels as int, d)] == mono@[j] by {
                    if j < i {
                        assert(0 <= j * channels + d < i * channels) by (nonlinear_arith)
                            requires
                                0 <= j < i,
                                0 <= d < channels,
                        ;
                        assert(out@[frame_index(j, channels as int, d)] == before[frame_index(
                            j,
                            channels as int,
                            d,
                        )]);
                    } else {
                        assert(0 <= i * channels) by (nonlinear_arith)
                            requires
                                i >= 0,
                                channels >= 0,
                        ;
                        if d < c {
                            assert(out@[frame_index(j, channels as int, d)]
                                == before[frame_index(j, channels as int, d)]);
                        }
                    }
                }
            }
            c = c + 1;
        }
        proof {
            assert((i + 1) * channels == i * channels + channels) by (nonlinear_arith);
        }
        i = i + 1;
    }
    out
}

/// Where channel `c` of frame `i` stands in interleaved samples.
pub open spec fn frame_index(i: int, channels: int, c: int) -> int {
    i * channels + c
}

/// Frames follow each other without gap, and in each the channels do: the
/// first sample is channel 0 of frame 0, and what follows the last channel of
/// a frame is the first of the next.
pub proof fn lemma_frames_are_interleaved(i: int, channels: int, c: int)
    requires
        0 <= i,
        0 <= c < channels,
    ensures
        frame_index(0, channels, 0) == 0,
        c + 1 < channels ==> frame_index(i, channels, c + 1) == frame_index(i, channels, c) + 1,
        frame_index(i + 1, channels, 0) == frame_index(i, channels, channels - 1) + 1,
{
    assert(0 * channels == 0) by (nonlinear_arith);
    assert((i + 1) * channels == i * channels + channels) by (nonlinear_arith);
}

} // verus!

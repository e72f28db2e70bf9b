//! Multi-source mixer: the queues of the sources and what each tick takes from
//! them. Weighting and summing the samples is left to the caller.

use crate::assistant::config::samples_in;
use std::collections::VecDeque;
use vstd::prelude::*;

verus! {

/// Commands to the mixer.
#[derive(Debug, Clone, Copy, PartialEq, Eq, Structural)]
pub enum MixerCmd {
    /// Drop all queued voice samples.
    FlushVoice,
}

/// What is mixed.
#[derive(Debug, Clone, Copy, PartialEq, Eq, Structural)]
pub enum MixSource {
    Voice,
    Filler,
    Connection,
    Ambient,
}

/// Length of one mixed chunk in milliseconds.
pub const TICK_MS: u32 = 20;

/// One sample of each source; `None` where its queue has run dry.
#[derive(Debug, Clone, Copy)]
pub struct MixFrame<T> {
    pub voice: Option<T>,
    pub filler: Option<T>,
    pub connection: Option<T>,
    pub ambient: Option<T>,
}

/// Queues of samples, one per source.
pub struct MixQueues<T> {
    voice: VecDeque<T>,
    filler: VecDeque<T>,
    connection: VecDeque<T>,
    ambient: VecDeque<T>,
}

/// What the queues hold, next sample first.
#[verifier::ext_equal]
pub struct MixModel<T> {
    pub voice: Seq<T>,
    pub filler: Seq<T>,
    pub connection: Seq<T>,
    pub ambient: Seq<T>,
}

/// Element `i`, if there is one.
pub open spec fn nth<T>(s: Seq<T>, i: int) -> Option<T> {
    if 0 <= i < s.len() {
        Some(s[i])
    } else {
        None
    }
}

/// Without the first `n` elements.
pub open spec fn skip<T>(s: Seq<T>, n: int) -> Seq<T> {
    if n < s.len() {
        s.subrange(n, s.len() as int)
    } else {
        Seq::empty()
    }
}

impl<T> View for MixQueues<T> {
    type V = MixModel<T>;

    closed spec fn view(&self) -> MixModel<T> {
        MixModel {
            voice: self.voice@,
            filler: self.filler@,
            connection: self.connection@,
            ambient: self.ambient@,
        }
    }
}

impl<T> MixModel<T> {
    /// The queues after the samples of one source were queued.
    pub open spec fn queued(self, source: MixSource, samples: Seq<T>) -> MixModel<T> {
        match source {
            MixSource::Voice => MixModel { voice: self.voice + samples, ..self },
            MixSource::Filler => MixModel { filler: self.filler + samples, ..self },
            MixSource::Connection => MixModel { connection: self.connection + samples, ..self },
            MixSource::Ambient => MixModel { ambient: self.ambient + samples, ..self },
        }
    }

    /// What sample `i` of the next chunk is mixed from.
    pub open spec fn frame(self, i: int) -> MixFrame<T> {
        MixFrame {
            voice: nth(self.voice, i),
            filler: nth(self.filler, i),
            connection: nth(self.connection, i),
            ambient: nth(self.ambient, i),
        }
    }

    /// The queues after `n` samples were taken.
    pub open spec fn advanced(self, n: int) -> MixModel<T> {
        MixModel {
            voice: skip(self.voice, n),
            filler: skip(self.filler, n),
            connection: skip(self.connection, n),
            ambient: skip(self.ambient, n),
        }
    }
}

fn extend<T: Copy>(queue: &mut VecDeque<T>, samples: &[T])
    ensures
        final(queue)@ == old(queue)@ + samples@,
{
    let mut i: usize = 0;
    let ghost start = queue@;
    assert(start + samples@.subrange(0, 0) =~= start);
    while i < samples.len()
        invariant
            i <= samples@.len(),
            queue@ == start + samples@.subrange(0, i as int),
        decreases samples@.len() - i,
    {
        queue.push_back(samples[i]);
        i = i + 1;
        assert(start + samples@.subrange(0, i as int) =~= (start + samples@.subrange(
            0,
            i - 1,
        )).push(samples@[i - 1]));
    }
    assert(samples@.subrange(0, i as int) =~= samples@);
}

fn take_next<T>(queue: &mut VecDeque<T>) -> (r: Option<T>)
    ensures
        r == nth(old(queue)@, 0),
        final(queue)@ == skip(old(queue)@, 1),
{
    let r = queue.pop_front();
    assert(queue@ =~= skip(old(queue)@, 1));
    r
}

impl<T: Copy> MixQueues<T> {
    pub fn new() -> (r: Self)
        ensures
            r@ == (MixModel::<T> {
                voice: Seq::empty(),
                filler: Seq::empty(),
                connection: Seq::empty(),
                ambient: Seq::empty(),
            }),
    {
        let r = MixQueues {
            voice: VecDeque::new(),
            filler: VecDeque::new(),
            connection: VecDeque::new(),
            ambient: VecDeque::new(),
        };
        assert(r@ =~= (MixModel::<T> {
            voice: Seq::empty(),
            filler: Seq::empty(),
            connection: Seq::empty(),
            ambient: Seq::empty(),
        }));
        r
    }

    /// Queues samples of one source.
    pub fn queue(&mut self, source: MixSource, samples: &[T])
        ensures
            final(self)@ == old(self)@.queued(source, samples@),
    {
        match source {
            MixSource::Voice => extend(&mut self.voice, samples),
            MixSource::Filler => extend(&mut self.filler, samples),
            MixSource::Connection => extend(&mut self.connection, samples),
            MixSource::Ambient => extend(&mut self.ambient, samples),
        }
    }

    /// Carries out a command; returns how many samples were dropped. The other
    /// sources go on undisturbed.
    pub fn command(&mut self, cmd: MixerCmd) -> (dropped: usize)
        ensures
            cmd == MixerCmd::FlushVoice ==> dropped == old(self)@.voice.len(),
            cmd == MixerCmd::FlushVoice ==> final(self)@ == (MixModel {
                voice: Seq::empty(),
                ..old(self)@
            }),
    {
        match cmd {
            MixerCmd::FlushVoice => {
                let n: usize = self.voice.len();
                self.voice.clear();
                n
            },
        }
    }

    /// Takes the next `n` samples of every source.
    pub fn tick(&mut self, n: usize) -> (r: Vec<MixFrame<T>>)
        ensures
            r@ == Seq::new(n as nat, |i: int| old(self)@.frame(i)),
            final(self)@ == old(self)@.advanced(n as int),
    {
        let mut out: Vec<MixFrame<T>> = Vec::with_capacity(n);
        let mut i: usize = 0;
        let ghost start = self@;
        assert(self@ =~= start.advanced(0));
        while i < n
            invariant
                i <= n,
                self@ == start.advanced(i as int),
                out@ == Seq::new(i as nat, |j: int| start.frame(j)),
            decreases n - i,
        {
            let ghost before = self@;
            let voice = take_next(&mut self.voice);
            let filler = take_next(&mut self.filler);
            let connection = take_next(&mut self.connection);
            let ambient = take_next(&mut self.ambient);
            let frame = MixFrame { voice, filler, connection, ambient };
            out.push(frame);
            proof {
                assert(frame == start.frame(i as int));
                assert(self@ =~= start.advanced(i + 1));
                assert(out@ =~= Seq::new((i + 1) as nat, |j: int| start.frame(j)));
            }
            i = i + 1;
        }
        out
    }
}

/// A flush of the voice leaves the other sources and everything queued later
/// as they are: the next chunk mixes exactly the samples that would have been
/// mixed without the dropped ones.
pub proof fn lemma_flush_keeps_other_sources<T>(m: MixModel<T>, i: int)
    ensures
        (MixModel { voice: Seq::empty(), ..m }).frame(i) == (MixFrame {
            voice: None,
            ..m.frame(i)
        }),
{
}

/// Ticks of `a` and then `b` samples take the same samples as one of `a + b`.
pub proof fn lemma_ticks_add_up<T>(m: MixModel<T>, a: int, b: int, i: int)
    requires
        0 <= a,
        0 <= b,
        0 <= i,
    ensures
        m.advanced(a).advanced(b) == m.advanced(a + b),
        m.advanced(a).frame(i) == m.frame(a + i),
{
    assert(m.advanced(a).advanced(b) =~= m.advanced(a + b));
}

/// The queue of a source.
pub open spec fn queue_of<T>(m: MixModel<T>, source: MixSource) -> Seq<T> {
    match source {
        MixSource::Voice => m.voice,
        MixSource::Filler => m.filler,
        MixSource::Connection => m.connection,
        MixSource::Ambient => m.ambient,
    }
}

/// The sample of a source in a frame.
pub open spec fn sample_of<T>(f: MixFrame<T>, source: MixSource) -> Option<T> {
    match source {
        MixSource::Voice => f.voice,
        MixSource::Filler => f.filler,
        MixSource::Connection => f.connection,
        MixSource::Ambient => f.ambient,
    }
}

/// Samples come out in the order in which they were queued, after those queued
/// before them, and no other source is touched.
pub proof fn lemma_queued_samples_come_out<T>(
    m: MixModel<T>,
    source: MixSource,
    samples: Seq<T>,
    other: MixSource,
    i: int,
)
    requires
        0 <= i < samples.len(),
    ensures
        ({
            let after = m.queued(source, samples);
            let ahead = queue_of(m, source).len();
            &&& sample_of(after.frame(ahead + i), source) == Some(samples[i])
            &&& queue_of(after, source).len() == ahead + samples.len()
            &&& other != source ==> queue_of(after, other) == queue_of(m, other)
            &&& forall|k: int| 0 <= k < ahead ==> #[trigger] after.frame(k) == m.frame(k)
        }),
{
}

/// A tick plays what it takes: of every source the samples of the frames, in
/// order, followed by what is left queued, are what was queued. A source that
/// runs dry is silent for the rest of the tick.
pub proof fn lemma_tick_loses_nothing<T>(m: MixModel<T>, n: int, source: MixSource, i: int)
    requires
        0 <= n,
        0 <= i,
    ensures
        ({
            let before = queue_of(m, source);
            let after = queue_of(m.advanced(n), source);
            let played = if n < before.len() {
                n
            } else {
                before.len() as int
            };
            &&& i < played ==> sample_of(m.frame(i), source) == Some(before[i])
            &&& played <= i ==> i < n ==> sample_of(m.frame(i), source) is None
            &&& after.len() == before.len() - played
            &&& i < after.len() ==> after[i] == before[played + i]
        }),
{
}

/// One tick is a fiftieth of a second at every sample rate.
pub proof fn lemma_tick_length(rate: int)
    requires
        rate >= 0,
    ensures
        samples_in(rate, TICK_MS as int) == rate / 50,
{
    let millis = TICK_MS as int;
    assert(rate * millis == 20 * rate) by (nonlinear_arith)
        requires
            millis == 20,
    ;
}

} // verus!

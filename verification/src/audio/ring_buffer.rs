//! Fixed-capacity ring buffer of samples.
//!
//! The buffer overwrites the oldest samples when full, so that it always holds
//! the most recent ones.

use crate::audio::chunks::{bucket, bucket_span, copy_range};
use vstd::prelude::*;

verus! {

/// The last `n` elements of a sequence, or all of it where it is shorter.
pub open spec fn last_n<T>(s: Seq<T>, n: int) -> Seq<T> {
    if s.len() <= n {
        s
    } else {
        s.subrange(s.len() - n, s.len() as int)
    }
}

/// A fixed-capacity circular buffer.
#[derive(Debug, Clone)]
pub struct RingBuffer<T> {
    /// Grows up to `capacity` elements and is then written in a circle.
    buf: Vec<T>,
    /// Next index to write to.
    write_pos: usize,
    capacity: usize,
}

impl<T> RingBuffer<T> {
    /// Until the buffer is full it is filled from the start.
    pub closed spec fn wf(self) -> bool {
        &&& 0 < self.capacity
        &&& self.buf@.len() <= self.capacity
        &&& self.write_pos < self.capacity
        &&& self.buf@.len() < self.capacity ==> self.write_pos == self.buf@.len()
    }

    /// How many samples the buffer can hold.
    pub closed spec fn cap(self) -> nat {
        self.capacity as nat
    }
}

impl<T> View for RingBuffer<T> {
    type V = Seq<T>;

    /// The samples held, oldest first.
    closed spec fn view(&self) -> Seq<T> {
        if self.buf@.len() < self.capacity {
            self.buf@
        } else {
            self.buf@.subrange(self.write_pos as int, self.buf@.len() as int)
                + self.buf@.subrange(0, self.write_pos as int)
        }
    }
}

/// `value` is what `peak` makes of bucket `i` of the samples, or `zero` where
/// the bucket is empty.
pub open spec fn is_peak<T, F: Fn(Vec<T>) -> T>(
    samples: Seq<T>,
    width: int,
    i: int,
    zero: T,
    peak: F,
    value: T,
) -> bool {
    let (from, to) = bucket(i, samples.len() as int, width);
    if from == to {
        value == zero
    } else {
        exists|v: Vec<T>| #[trigger]
            peak.ensures((v,), value) && v@ == samples.subrange(from, to)
    }
}

/// What is left of samples once the `count` oldest are taken.
pub open spec fn left_after<T>(s: Seq<T>, count: int) -> Seq<T> {
    if count < s.len() {
        s.skip(count)
    } else {
        Seq::empty()
    }
}

/// Taking samples takes the oldest and leaves the newest, in order: the first
/// `count` and what is left make up the whole, and taking in two steps leaves
/// what taking at once does.
pub proof fn lemma_oldest_are_taken<T>(s: Seq<T>, count: int, more: int)
    requires
        0 <= count,
        0 <= more,
    ensures
        count <= s.len() ==> s.take(count) + left_after(s, count) == s,
        count >= s.len() ==> left_after(s, count).len() == 0,
        left_after(left_after(s, count), more) == left_after(s, count + more),
{
    if count <= s.len() {
        assert(s.take(count) + left_after(s, count) =~= s);
    }
    assert(left_after(left_after(s, count), more) =~= left_after(s, count + more));
}

impl<T: Copy> RingBuffer<T> {
    /// An empty buffer for `capacity` samples.
    pub fn new(capacity: usize) -> (r: Self)
        requires
            capacity > 0,
        ensures
            r.wf(),
            r.cap() == capacity,
            r@ == Seq::<T>::empty(),
    {
        RingBuffer { buf: Vec::new(), write_pos: 0, capacity }
    }

    /// Appends one sample; the oldest one leaves a full buffer.
    pub fn push(&mut self, sample: T)
        requires
            old(self).wf(),
        ensures
            final(self).wf(),
            final(self).cap() == old(self).cap(),
            final(self)@ == last_n(old(self)@.push(sample), old(self).cap() as int),
    {
        let ghost before = self@;
        if self.buf.len() < self.capacity {
            self.buf.push(sample);
        } else {
            self.buf.set(self.write_pos, sample);
        }
        if self.write_pos + 1 == self.capacity {
            self.write_pos = 0;
        } else {
            self.write_pos = self.write_pos + 1;
        }
        assert(self@ =~= last_n(before.push(sample), self.capacity as int));
    }

    /// Appends samples in order. Of more than the capacity only the last
    /// `capacity` samples are kept.
    pub fn push_slice(&mut self, samples: &[T])
        requires
            old(self).wf(),
        ensures
            final(self).wf(),
            final(self).cap() == old(self).cap(),
            final(self)@ == last_n(old(self)@ + samples@, old(self).cap() as int),
    {
        let cap: usize = self.capacity;
        let n: usize = samples.len();
        let ghost before = self@;
        let start: usize = if n >= cap {
            self.clear();
            n - cap
        } else {
            0
        };
        let mut i: usize = start;
        assert(samples@.subrange(start as int, i as int) =~= Seq::<T>::empty());
        assert(self@ + Seq::<T>::empty() =~= self@);
        let ghost base = self@;
        while i < n
            invariant
                self.wf(),
                self.cap() == cap,
                n == samples@.len(),
                start <= i <= n,
                self@ == last_n(base + samples@.subrange(start as int, i as int), cap as int),
            decreases n - i,
        {
            self.push(samples[i]);
            i = i + 1;
            proof {
                let a = base + samples@.subrange(start as int, i - 1);
                assert(base + samples@.subrange(start as int, i as int) =~= a.push(
                    samples@[i - 1],
                ));
                lemma_last_n_of_last_n(a, samples@[i - 1], cap as int);
            }
        }
        assert(self@ =~= last_n(before + samples@, cap as int));
    }

    /// The samples held, oldest first.
    pub fn snapshot(&self) -> (r: Vec<T>)
        requires
            self.wf(),
        ensures
            r@ == self@,
    {
        let n: usize = self.buf.len();
        let mut out: Vec<T> = Vec::with_capacity(n);
        let start: usize = if n < self.capacity {
            0
        } else {
            self.write_pos
        };
        let mut i: usize = start;
        while i < n
            invariant
                n == self.buf@.len(),
                start <= i <= n,
                out@ == self.buf@.subrange(start as int, i as int),
            decreases n - i,
        {
            out.push(self.buf[i]);
            i = i + 1;
            assert(self.buf@.subrange(start as int, i as int) =~= self.buf@.subrange(
                start as int,
                i - 1,
            ).push(self.buf@[i - 1]));
        }
        let ghost head = out@;
        let mut j: usize = 0;
        assert(out@ =~= head + self.buf@.subrange(0, 0));
        while j < start
            invariant
                j <= start <= self.buf@.len(),
                out@ == head + self.buf@.subrange(0, j as int),
            decreases start - j,
        {
            out.push(self.buf[j]);
            j = j + 1;
            assert(head + self.buf@.subrange(0, j as int) =~= (head + self.buf@.subrange(
                0,
                j - 1,
            )).push(self.buf@[j - 1]));
        }
        assert(out@ =~= self@);
        out
    }

    /// Takes the `count` oldest samples out (all of them where there are
    /// fewer) and returns what the buffer held before.
    pub fn consume(&mut self, count: usize) -> (r: Vec<T>)
        requires
            old(self).wf(),
        ensures
            final(self).wf(),
            final(self).cap() == old(self).cap(),
            r@ == old(self)@,
            final(self)@ == if old(self)@.len() > count {
                old(self)@.subrange(count as int, old(self)@.len() as int)
            } else {
                Seq::empty()
            },
            final(self)@ == left_after(old(self)@, count as int),
    {
        let avail = self.snapshot();
        proof {
            self.lemma_len_bound();
        }
        let n: usize = avail.len();
        self.clear();
        if n > count {
            let tail = vstd::slice::slice_subrange(avail.as_slice(), count, n);
            self.push_slice(tail);
            assert(Seq::<T>::empty() + tail@ =~= tail@);
        }
        avail
    }

    /// Never more samples than the capacity.
    pub proof fn lemma_len_bound(&self)
        requires
            self.wf(),
        ensures
            self@.len() <= self.cap(),
    {
    }

    /// Number of samples held.
    pub fn len(&self) -> (r: usize)
        requires
            self.wf(),
        ensures
            r == self@.len(),
            r <= self.cap(),
    {
        self.buf.len()
    }

    /// Whether no sample is held.
    pub fn is_empty(&self) -> (r: bool)
        requires
            self.wf(),
        ensures
            r == (self@.len() == 0),
    {
        self.buf.len() == 0
    }

    /// One value per column of a display of `width` columns: what `peak` makes
    /// of the samples of the column's bucket, or `zero` where it has none.
    pub fn snapshot_peaks<F: Fn(Vec<T>) -> T>(&self, width: usize, zero: T, peak: &F) -> (r: Vec<T>)
        requires
            self.wf(),
            forall|v: Vec<T>| #[trigger] peak.requires((v,)),
        ensures
            r@.len() == width,
            forall|i: int|
                0 <= i < width ==> #[trigger] is_peak(self@, width as int, i, zero, *peak, r@[i]),
    {
        let data = self.snapshot();
        let n: usize = data.len();
        let mut out: Vec<T> = Vec::with_capacity(width);
        let mut i: usize = 0;
        while i < width
            invariant
                data@ == self@,
                n == data@.len(),
                i <= width,
                out@.len() == i,
                forall|v: Vec<T>| #[trigger] peak.requires((v,)),
                forall|k: int|
                    0 <= k < i ==> #[trigger] is_peak(
                        self@,
                        width as int,
                        k,
                        zero,
                        *peak,
                        out@[k],
                    ),
            decreases width - i,
        {
            let (from, to) = bucket_span(i, n, width);
            let value = if from == to {
                zero
            } else {
                peak(copy_range(data.as_slice(), from, to))
            };
            out.push(value);
            i = i + 1;
        }
        out
    }

    /// How many samples fit.
    pub fn capacity(&self) -> (r: usize)
        ensures
            r == self.cap(),
    {
        self.capacity
    }

    /// Whether the next sample overwrites the oldest one.
    pub fn is_full(&self) -> (r: bool)
        requires
            self.wf(),
        ensures
            r == (self@.len() == self.cap()),
    {
        self.buf.len() == self.capacity
    }

    /// Forgets all samples.
    pub fn clear(&mut self)
        requires
            old(self).wf(),
        ensures
            final(self).wf(),
            final(self).cap() == old(self).cap(),
            final(self)@ == Seq::<T>::empty(),
    {
        self.buf.clear();
        self.write_pos = 0;
    }
}

/// Cutting down before appending one more element changes nothing.
proof fn lemma_last_n_of_last_n<T>(s: Seq<T>, x: T, n: int)
    requires
        n > 0,
    ensures
        last_n(last_n(s, n).push(x), n) == last_n(s.push(x), n),
{
    assert(last_n(last_n(s, n).push(x), n) =~= last_n(s.push(x), n));
}

/// What a buffer holds depends only on the stream of samples pushed into it,
/// not on how the stream was divided: it is the last `n` of them.
pub proof fn lemma_window_of_stream<T>(stream: Seq<T>, more: Seq<T>, n: int)
    requires
        n > 0,
    ensures
        last_n(last_n(stream, n) + more, n) == last_n(stream + more, n),
{
    assert(last_n(last_n(stream, n) + more, n) =~= last_n(stream + more, n));
}

/// Of a longer stream the newest samples are kept, in their order, and as many
/// of them as fit: counted from the end, each is the stream's own.
pub proof fn lemma_newest_are_kept<T>(stream: Seq<T>, n: int, i: int)
    requires
        n > 0,
        0 <= i < last_n(stream, n).len(),
    ensures
        last_n(stream, n).len() == if stream.len() < n {
            stream.len() as int
        } else {
            n
        },
        last_n(stream, n)[last_n(stream, n).len() - 1 - i] == stream[stream.len() - 1 - i],
{
}

/// A column shows its own samples and no others: where it has some, the peak
/// of just those, and where it has none, the value for silence.
pub proof fn lemma_peak_is_of_its_own_samples<T, F: Fn(Vec<T>) -> T>(
    samples: Seq<T>,
    width: int,
    i: int,
    zero: T,
    peak: F,
    value: T,
    f: spec_fn(Seq<T>) -> T,
)
    requires
        is_peak(samples, width, i, zero, peak, value),
        forall|v: Vec<T>, r: T| #[trigger] peak.ensures((v,), r) ==> r == f(v@),
    ensures
        ({
            let n = samples.len() as int;
            let from = i * n / width;
            let to = (i + 1) * n / width;
            value == if from == to {
                zero
            } else {
                f(samples.subrange(from, to))
            }
        }),
{
}

} // verus!

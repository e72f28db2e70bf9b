//! Mic capture: mono samples into numbered chunks of one size.

use crate::audio::chunks::{after_chunks, whole_chunk, whole_chunks, Framer};
use vstd::prelude::*;

verus! {

/// One chunk of mono samples.
#[derive(Debug, Clone)]
pub struct PcmChunk<T> {
    pub samples: Vec<T>,
    /// Number of the chunk since the stream started.
    pub frame: u64,
}

/// Collects mono samples and gives them out as numbered chunks.
#[derive(Debug, Clone)]
pub struct ChunkAssembler<T> {
    pub framer: Framer<T>,
    /// Number of the next chunk.
    pub frame: u64,
}

impl<T: Copy> ChunkAssembler<T> {
    pub fn new(chunk_samples: usize) -> (r: Self)
        requires
            chunk_samples > 0,
        ensures
            r.framer.wf(),
            r.framer.size() == chunk_samples,
            r.framer@ == Seq::<T>::empty(),
            r.frame == 0,
    {
        ChunkAssembler { framer: Framer::new(chunk_samples), frame: 0 }
    }

    /// Adds samples; gives out every chunk that is now complete, numbered in
    /// order.
    pub fn feed(&mut self, mono: &[T]) -> (r: Vec<PcmChunk<T>>)
        requires
            old(self).framer.wf(),
            old(self).framer@.len() + mono@.len() <= usize::MAX,
            old(self).frame + whole_chunks(
                (old(self).framer@ + mono@).len() as int,
                old(self).framer.size() as int,
            ) <= u64::MAX,
        ensures
            final(self).framer.wf(),
            final(self).framer.size() == old(self).framer.size(),
            final(self).framer@ == after_chunks(
                old(self).framer@ + mono@,
                old(self).framer.size() as int,
            ),
            r@.len() == whole_chunks(
                (old(self).framer@ + mono@).len() as int,
                old(self).framer.size() as int,
            ),
            final(self).frame == old(self).frame + r@.len(),
            forall|k: int|
                0 <= k < r@.len() ==> (#[trigger] r@[k]).frame == old(self).frame + k
                    && r@[k].samples@ == whole_chunk(
                    old(self).framer@ + mono@,
                    old(self).framer.size() as int,
                    k,
                ),
    {
        let ghost all = self.framer@ + mono@;
        let ghost size = self.framer.size() as int;
        let ghost frame0 = self.frame;
        let chunks = self.framer.push(mono);
        let mut out: Vec<PcmChunk<T>> = Vec::new();
        let mut k: usize = 0;
        while k < chunks.len()
            invariant
                k <= chunks@.len(),
                k == out@.len(),
                self.frame == frame0 + k,
                frame0 + chunks@.len() <= u64::MAX,
                self.framer.wf(),
                self.framer.size() == size,
                self.framer@ == after_chunks(all, size),
                crate::audio::chunks::are_whole_chunks(chunks@, all, size),
                forall|i: int|
                    0 <= i < out@.len() ==> (#[trigger] out@[i]).frame == frame0 + i
                        && out@[i].samples@ == whole_chunk(all, size, i),
            decreases chunks@.len() - k,
        {
            let samples = crate::audio::chunks::copy_range(
                chunks[k].as_slice(),
                0,
                chunks[k].len(),
            );
            assert(samples@ =~= chunks@[k as int]@);
            out.push(PcmChunk { samples, frame: self.frame });
            self.frame = self.frame + 1;
            k = k + 1;
        }
        out
    }
}

} // verus!

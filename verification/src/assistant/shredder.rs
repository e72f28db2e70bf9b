//! Sentence-boundary chunker for a streamed reply.
//!
//! Token pieces are appended to a buffer. Whenever the buffer ends in a
//! sentence, clause or paragraph boundary, the buffered text leaves as one
//! chunk, so that speech synthesis can start while the rest of the reply is
//! still being generated. Chunks are indexed and carry their offset in the
//! reply, so that after an interruption the spoken part can be told from the
//! rest. All counts and offsets are in characters.

use crate::text::{
    ink, is_blank, is_space, is_whitespace, lemma_blank_iff_trim_empty, lemma_ink_of_blank,
    lemma_ink_of_trim, lemma_ink_splits, lemma_trim_twice, shared_text, string_of, trim, trim_bounds,
};
use std::sync::Arc;
use vstd::prelude::*;

verus! {

/// Why a chunk was emitted.
#[derive(Debug, Clone, Copy, PartialEq, Eq, Structural)]
pub enum Boundary {
    /// `.`, `!`, `?` followed by white space.
    Sentence,
    /// `,`, `;`, `:` followed by a space or a line feed once enough text is
    /// buffered, or white space past the hard limit.
    Clause,
    /// Two line feeds in a row.
    Paragraph,
    /// The reply is over and the rest was flushed.
    Final,
}

/// One bounded slice of the reply.
#[derive(Debug, Clone)]
pub struct SentenceChunk {
    /// 0-based index in the reply.
    pub idx: u32,
    /// Character offset where this chunk starts in the full reply.
    pub char_offset: u32,
    /// The text, shared between its consumers.
    pub text: Arc<str>,
    /// True when this is the last chunk of the reply.
    pub is_final: bool,
    /// Why this chunk was emitted.
    pub boundary: Boundary,
}

/// Tuning knobs, in characters.
#[derive(Debug, Clone)]
pub struct ShredderConfig {
    /// Below this many buffered characters a clause boundary does not cut.
    pub min_chunk_chars: usize,
    /// Once this many characters are buffered, the next white space cuts.
    pub max_chunk_chars: usize,
}

impl Default for ShredderConfig {
    fn default() -> (r: Self)
        ensures
            r.min_chunk_chars == 24,
            r.max_chunk_chars == 180,
    {
        ShredderConfig { min_chunk_chars: 24, max_chunk_chars: 180 }
    }
}

/// Streaming shredder. Push pieces with [`push`](Self::push), call
/// [`flush`](Self::flush) when the reply is over.
pub struct Shredder {
    pub cfg: ShredderConfig,
    pub buf: Vec<char>,
    pub char_offset: u32,
    pub next_idx: u32,
}

/// What a shredder holds: the text not yet emitted, where that text starts in
/// the reply, and how many chunks were emitted.
#[verifier::ext_equal]
pub struct ShredState {
    pub buf: Seq<char>,
    pub offset: nat,
    pub idx: nat,
}

/// One emitted slice of the reply, before trimming.
#[verifier::ext_equal]
pub struct Cut {
    pub idx: nat,
    pub offset: nat,
    pub raw: Seq<char>,
    pub is_final: bool,
    pub boundary: Boundary,
}

/// The state before the first character of a reply.
pub open spec fn fresh() -> ShredState {
    ShredState { buf: Seq::empty(), offset: 0, idx: 0 }
}

/// The boundary that the last two characters of the buffer form, if any.
pub open spec fn tail_boundary(cfg: ShredderConfig, buf: Seq<char>) -> Option<Boundary> {
    if buf.len() < 2 {
        None
    } else {
        let last = buf[buf.len() - 1];
        let prev = buf[buf.len() - 2];
        if last == '\n' && prev == '\n' {
            Some(Boundary::Paragraph)
        } else if is_space(last) && (prev == '.' || prev == '?' || prev == '!') {
            Some(Boundary::Sentence)
        } else if (last == ' ' || last == '\n') && (prev == ',' || prev == ';' || prev == ':')
            && buf.len() >= cfg.min_chunk_chars {
            Some(Boundary::Clause)
        } else {
            None
        }
    }
}

/// Why the buffer is cut after its last character, if it is: a boundary, or
/// white space once the hard limit is reached.
pub open spec fn cut_reason(cfg: ShredderConfig, buf: Seq<char>) -> Option<Boundary> {
    match tail_boundary(cfg, buf) {
        Some(b) => Some(b),
        None => if buf.len() > 0 && buf.len() >= cfg.max_chunk_chars && is_space(buf.last()) {
            Some(Boundary::Clause)
        } else {
            None
        },
    }
}

/// The slice that a cut of the whole buffer emits: none when it is blank.
pub open spec fn cut_of(st: ShredState, boundary: Boundary, is_final: bool) -> Seq<Cut> {
    if is_blank(st.buf) {
        Seq::empty()
    } else {
        seq![Cut { idx: st.idx, offset: st.offset, raw: st.buf, is_final, boundary }]
    }
}

/// The state after a cut of the whole buffer.
pub open spec fn after_cut(st: ShredState) -> ShredState {
    ShredState {
        buf: Seq::empty(),
        offset: st.offset + st.buf.len(),
        idx: if is_blank(st.buf) {
            st.idx
        } else {
            st.idx + 1
        },
    }
}

/// The state with one more character buffered.
pub open spec fn with_char(st: ShredState, c: char) -> ShredState {
    ShredState { buf: st.buf.push(c), ..st }
}

/// The state after one character.
pub open spec fn step(cfg: ShredderConfig, st: ShredState, c: char) -> ShredState {
    match cut_reason(cfg, st.buf.push(c)) {
        Some(b) => after_cut(with_char(st, c)),
        None => with_char(st, c),
    }
}

/// The slices that one character makes the shredder emit: none or one.
pub open spec fn step_cuts(cfg: ShredderConfig, st: ShredState, c: char) -> Seq<Cut> {
    match cut_reason(cfg, st.buf.push(c)) {
        Some(b) => cut_of(with_char(st, c), b, false),
        None => Seq::empty(),
    }
}

/// The state after a whole text, character by character.
pub open spec fn feed(cfg: ShredderConfig, st: ShredState, text: Seq<char>) -> ShredState
    decreases text.len(),
{
    if text.len() == 0 {
        st
    } else {
        step(cfg, feed(cfg, st, text.drop_last()), text.last())
    }
}

/// The slices that a whole text makes the shredder emit.
pub open spec fn feed_cuts(cfg: ShredderConfig, st: ShredState, text: Seq<char>) -> Seq<Cut>
    decreases text.len(),
{
    if text.len() == 0 {
        Seq::empty()
    } else {
        feed_cuts(cfg, st, text.drop_last()) + step_cuts(
            cfg,
            feed(cfg, st, text.drop_last()),
            text.last(),
        )
    }
}

impl SentenceChunk {
    /// The chunk is the trimmed slice `cut`.
    pub open spec fn shows(self, cut: Cut) -> bool {
        &&& self.idx == cut.idx
        &&& self.char_offset == cut.offset
        &&& (*self.text)@ == trim(cut.raw)
        &&& self.is_final == cut.is_final
        &&& self.boundary == cut.boundary
    }
}

/// The chunks are the trimmed slices `cuts`, in order.
pub open spec fn chunks_show(chunks: Seq<SentenceChunk>, cuts: Seq<Cut>) -> bool {
    &&& chunks.len() == cuts.len()
    &&& forall|k: int| 0 <= k < cuts.len() ==> (#[trigger] chunks[k]).shows(cuts[k])
}

impl View for Shredder {
    type V = ShredState;

    open spec fn view(&self) -> ShredState {
        ShredState { buf: self.buf@, offset: self.char_offset as nat, idx: self.next_idx as nat }
    }
}

impl Shredder {
    /// No more chunks than characters before the buffered text.
    pub open spec fn wf(self) -> bool {
        self.next_idx <= self.char_offset
    }

    pub fn new(cfg: ShredderConfig) -> (r: Self)
        ensures
            r.wf(),
            r.cfg == cfg,
            r@ == fresh(),
    {
        Shredder { cfg, buf: Vec::new(), char_offset: 0, next_idx: 0 }
    }

    /// Feeds one piece of the reply and returns the chunks completed inside it.
    pub fn push(&mut self, piece: &str) -> (out: Vec<SentenceChunk>)
        requires
            old(self).wf(),
            old(self)@.offset + old(self)@.buf.len() + piece@.len() <= u32::MAX,
        ensures
            final(self).wf(),
            final(self).cfg == old(self).cfg,
            final(self)@ == feed(old(self).cfg, old(self)@, piece@),
            chunks_show(out@, feed_cuts(old(self).cfg, old(self)@, piece@)),
    {
        let mut out: Vec<SentenceChunk> = Vec::new();
        let ghost start = self@;
        let ghost cfg = self.cfg;
        for ch in it: piece.chars()
            invariant
                it.seq() == piece@,
                self.wf(),
                self.cfg == cfg,
                self@ == feed(cfg, start, piece@.take(it.index() as int)),
                chunks_show(out@, feed_cuts(cfg, start, piece@.take(it.index() as int))),
                self@.offset + self@.buf.len() == start.offset + start.buf.len() + it.index(),
                start.offset + start.buf.len() + piece@.len() <= u32::MAX,
        {
            let ghost before = self@;
            let ghost i = it.index() as int;
            proof {
                assert(piece@.take(i + 1).drop_last() =~= piece@.take(i));
                assert(piece@.take(i + 1).last() == ch);
            }
            self.buf.push(ch);
            match self.detect_boundary() {
                Some(boundary) => {
                    match self.cut(boundary) {
                        Some(chunk) => {
                            out.push(chunk);
                        },
                        None => {},
                    }
                },
                None => {
                    if self.buf.len() >= self.cfg.max_chunk_chars && is_whitespace(ch) {
                        match self.cut(Boundary::Clause) {
                            Some(chunk) => {
                                out.push(chunk);
                            },
                            None => {},
                        }
                    }
                },
            }
            assert(self@ == step(cfg, before, ch));
        }
        assert(piece@.take(piece@.len() as int) =~= piece@);
        out
    }

    /// Ends the reply: what is still buffered leaves as the final chunk.
    pub fn flush(&mut self) -> (r: Option<SentenceChunk>)
        requires
            old(self).wf(),
            old(self)@.offset + old(self)@.buf.len() <= u32::MAX,
        ensures
            final(self).wf(),
            final(self).cfg == old(self).cfg,
            final(self)@ == after_cut(old(self)@),
            r is None <==> is_blank(old(self)@.buf),
            r matches Some(c) ==> c.shows(cut_of(old(self)@, Boundary::Final, true)[0]),
    {
        self.take_chunk(Boundary::Final, true)
    }

    /// The boundary that the tail of the buffer forms, if any.
    pub fn detect_boundary(&self) -> (r: Option<Boundary>)
        ensures
            r == tail_boundary(self.cfg, self@.buf),
    {
        let n: usize = self.buf.len();
        if n < 2 {
            return None;
        }
        let last = self.buf[n - 1];
        let prev = self.buf[n - 2];
        if last == '\n' && prev == '\n' {
            return Some(Boundary::Paragraph);
        }
        if is_whitespace(last) && (prev == '.' || prev == '?' || prev == '!') {
            return Some(Boundary::Sentence);
        }
        if (last == ' ' || last == '\n') && (prev == ',' || prev == ';' || prev == ':') && n
            >= self.cfg.min_chunk_chars {
            return Some(Boundary::Clause);
        }
        None
    }

    /// Cuts at the end of the buffer; a blank buffer is dropped instead.
    pub fn cut(&mut self, boundary: Boundary) -> (r: Option<SentenceChunk>)
        requires
            old(self).wf(),
            old(self)@.offset + old(self)@.buf.len() <= u32::MAX,
        ensures
            final(self).wf(),
            final(self).cfg == old(self).cfg,
            final(self)@ == after_cut(old(self)@),
            r is None <==> is_blank(old(self)@.buf),
            r matches Some(c) ==> c.shows(cut_of(old(self)@, boundary, false)[0]),
    {
        self.take_chunk(boundary, false)
    }

    fn take_chunk(&mut self, boundary: Boundary, is_final: bool) -> (r: Option<SentenceChunk>)
        requires
            old(self).wf(),
            old(self)@.offset + old(self)@.buf.len() <= u32::MAX,
        ensures
            final(self).wf(),
            final(self).cfg == old(self).cfg,
            final(self)@ == after_cut(old(self)@),
            r is None <==> is_blank(old(self)@.buf),
            r matches Some(c) ==> c.shows(cut_of(old(self)@, boundary, is_final)[0]),
    {
        let (from, to) = trim_bounds(self.buf.as_slice());
        proof {
            lemma_blank_iff_trim_empty(self@.buf);
        }
        let len: u32 = self.buf.len() as u32;
        let r = if from == to {
            None
        } else {
            let text = shared_text(string_of(self.buf.as_slice(), from, to));
            let chunk = SentenceChunk {
                idx: self.next_idx,
                char_offset: self.char_offset,
                text,
                is_final,
                boundary,
            };
            self.next_idx = self.next_idx + 1;
            Some(chunk)
        };
        self.char_offset = self.char_offset + len;
        self.buf = Vec::new();
        r
    }

    /// Back to a clean slate: what is buffered is discarded.
    pub fn reset(&mut self)
        ensures
            final(self).wf(),
            final(self).cfg == old(self).cfg,
            final(self)@ == fresh(),
    {
        self.buf = Vec::new();
        self.char_offset = 0;
        self.next_idx = 0;
    }
}

/// How a reply is split into pieces does not matter: feeding two pieces one
/// after the other emits the same slices and leaves the same state as feeding
/// their concatenation.
pub proof fn lemma_feed_is_split_independent(
    cfg: ShredderConfig,
    st: ShredState,
    a: Seq<char>,
    b: Seq<char>,
)
    ensures
        feed(cfg, st, a + b) == feed(cfg, feed(cfg, st, a), b),
        feed_cuts(cfg, st, a + b) == feed_cuts(cfg, st, a) + feed_cuts(
            cfg,
            feed(cfg, st, a),
            b,
        ),
    decreases b.len(),
{
    if b.len() == 0 {
        assert(a + b =~= a);
        assert(feed_cuts(cfg, st, a) + Seq::<Cut>::empty() =~= feed_cuts(cfg, st, a));
    } else {
        assert((a + b).drop_last() =~= a + b.drop_last());
        assert((a + b).last() == b.last());
        lemma_feed_is_split_independent(cfg, st, a, b.drop_last());
        let mid = feed(cfg, st, a);
        let last = step_cuts(cfg, feed(cfg, mid, b.drop_last()), b.last());
        assert((feed_cuts(cfg, st, a) + feed_cuts(cfg, mid, b.drop_last())) + last =~= feed_cuts(
            cfg,
            st,
            a,
        ) + (feed_cuts(cfg, mid, b.drop_last()) + last));
    }
}

/// The slices and the rest of the buffer lie in `reply` in order, without
/// overlap, and everything between them is white space.
pub open spec fn covers(reply: Seq<char>, cuts: Seq<Cut>, st: ShredState) -> bool {
    &&& st.idx == cuts.len()
    &&& st.offset + st.buf.len() == reply.len()
    &&& st.buf == reply.subrange(st.offset as int, reply.len() as int)
    &&& forall|k: int|
        0 <= k < cuts.len() ==> {
            &&& (#[trigger] cuts[k]).idx == k
            &&& cuts[k].raw.len() > 0
            &&& !is_blank(cuts[k].raw)
            &&& cuts[k].offset + cuts[k].raw.len() <= st.offset
            &&& cuts[k].raw == reply.subrange(
                cuts[k].offset as int,
                (cuts[k].offset + cuts[k].raw.len()) as int,
            )
        }
    &&& forall|j: int, k: int|
        0 <= j < k < cuts.len() ==> (#[trigger] cuts[j]).offset + cuts[j].raw.len() <= (
        #[trigger] cuts[k]).offset
    &&& forall|i: int|
        0 <= i < st.offset && !is_space(#[trigger] reply[i]) ==> in_some_cut(cuts, i)
}

/// Position `i` of the reply lies in one of the slices.
pub open spec fn in_some_cut(cuts: Seq<Cut>, i: int) -> bool {
    exists|k: int|
        0 <= k < cuts.len() && (#[trigger] cuts[k]).offset <= i < cuts[k].offset
            + cuts[k].raw.len()
}

/// Cutting the whole buffer keeps the reply covered.
proof fn lemma_cut_covers(
    reply: Seq<char>,
    cuts: Seq<Cut>,
    st: ShredState,
    boundary: Boundary,
    is_final: bool,
)
    requires
        covers(reply, cuts, st),
    ensures
        covers(reply, cuts + cut_of(st, boundary, is_final), after_cut(st)),
{
    let more = cuts + cut_of(st, boundary, is_final);
    let end = after_cut(st);
    assert(end.buf =~= reply.subrange(end.offset as int, reply.len() as int));
    assert forall|i: int| 0 <= i < end.offset && !is_space(#[trigger] reply[i]) implies in_some_cut(
        more,
        i,
    ) by {
        if i < st.offset {
            assert(in_some_cut(cuts, i));
            let k = choose|k: int|
                0 <= k < cuts.len() && (#[trigger] cuts[k]).offset <= i < cuts[k].offset
                    + cuts[k].raw.len();
            assert(more[k] == cuts[k]);
        } else {
            assert(st.buf[i - st.offset] == reply[i]);
            assert(!is_blank(st.buf));
            assert(more[cuts.len() as int].offset == st.offset);
        }
    }
}

/// A longer reply with the extra character still buffered is covered as well.
proof fn lemma_extend_covers(reply: Seq<char>, cuts: Seq<Cut>, st: ShredState, c: char)
    requires
        covers(reply, cuts, st),
    ensures
        covers(reply.push(c), cuts, with_char(st, c)),
{
    let longer = reply.push(c);
    let next = with_char(st, c);
    assert(next.buf =~= longer.subrange(next.offset as int, longer.len() as int));
    assert forall|k: int| 0 <= k < cuts.len() implies (#[trigger] cuts[k]).raw == longer.subrange(
        cuts[k].offset as int,
        (cuts[k].offset + cuts[k].raw.len()) as int,
    ) by {
        assert(cuts[k].raw =~= longer.subrange(
            cuts[k].offset as int,
            (cuts[k].offset + cuts[k].raw.len()) as int,
        ));
    }
    assert forall|i: int| 0 <= i < next.offset && !is_space(#[trigger] longer[i]) implies in_some_cut(
        cuts,
        i,
    ) by {
        assert(longer[i] == reply[i]);
    }
}

/// Nothing of a reply is lost: the chunks emitted while it streams in are, in
/// order, slices of the reply at their offsets, numbered from 0, and together
/// with the text still buffered they hold every character that is not white
/// space.
pub proof fn lemma_chunks_cover_reply(cfg: ShredderConfig, reply: Seq<char>)
    ensures
        covers(reply, feed_cuts(cfg, fresh(), reply), feed(cfg, fresh(), reply)),
    decreases reply.len(),
{
    if reply.len() == 0 {
        assert(reply.subrange(0, 0) =~= Seq::<char>::empty());
    } else {
        let init = reply.drop_last();
        let c = reply.last();
        lemma_chunks_cover_reply(cfg, init);
        let cuts = feed_cuts(cfg, fresh(), init);
        let st = feed(cfg, fresh(), init);
        assert(init.push(c) =~= reply);
        lemma_extend_covers(init, cuts, st, c);
        match cut_reason(cfg, st.buf.push(c)) {
            Some(b) => {
                lemma_cut_covers(reply, cuts, with_char(st, c), b, false);
            },
            None => {
                assert(cuts + Seq::<Cut>::empty() =~= cuts);
            },
        }
    }
}

/// After the final flush the chunks alone hold every character of the reply
/// that is not white space, and nothing is left buffered.
pub proof fn lemma_flush_completes_reply(cfg: ShredderConfig, reply: Seq<char>)
    ensures
        covers(
            reply,
            feed_cuts(cfg, fresh(), reply) + cut_of(
                feed(cfg, fresh(), reply),
                Boundary::Final,
                true,
            ),
            after_cut(feed(cfg, fresh(), reply)),
        ),
        after_cut(feed(cfg, fresh(), reply)).offset == reply.len(),
{
    lemma_chunks_cover_reply(cfg, reply);
    lemma_cut_covers(
        reply,
        feed_cuts(cfg, fresh(), reply),
        feed(cfg, fresh(), reply),
        Boundary::Final,
        true,
    );
}

/// No white space stands in the buffer at or past the hard limit: once that
/// much is buffered, the next white space has cut it.
pub proof fn lemma_hard_limit(cfg: ShredderConfig, reply: Seq<char>, i: int)
    requires
        0 <= i < feed(cfg, fresh(), reply).buf.len(),
        i + 1 >= cfg.max_chunk_chars,
    ensures
        !is_space(feed(cfg, fresh(), reply).buf[i]),
    decreases reply.len(),
{
    let st = feed(cfg, fresh(), reply.drop_last());
    let c = reply.last();
    if i < st.buf.len() {
        lemma_hard_limit(cfg, reply.drop_last(), i);
    } else {
        assert(st.buf.push(c).last() == c);
    }
}

/// A clause chunk is never shorter than the smaller of the two limits.
pub proof fn lemma_clause_needs_material(cfg: ShredderConfig, reply: Seq<char>, k: int)
    requires
        0 <= k < feed_cuts(cfg, fresh(), reply).len(),
        feed_cuts(cfg, fresh(), reply)[k].boundary == Boundary::Clause,
    ensures
        feed_cuts(cfg, fresh(), reply)[k].raw.len() >= cfg.min_chunk_chars || feed_cuts(
            cfg,
            fresh(),
            reply,
        )[k].raw.len() >= cfg.max_chunk_chars,
    decreases reply.len(),
{
    let earlier = feed_cuts(cfg, fresh(), reply.drop_last());
    if k < earlier.len() {
        lemma_clause_needs_material(cfg, reply.drop_last(), k);
    }
}

// ---------------------------------------------------------------------------
// Any run of pushes and flushes
// ---------------------------------------------------------------------------

/// One call on a shredder.
pub enum ShredCall {
    Push(Seq<char>),
    Flush,
}

/// The state after one call.
pub open spec fn called(cfg: ShredderConfig, st: ShredState, call: ShredCall) -> ShredState {
    match call {
        ShredCall::Push(piece) => feed(cfg, st, piece),
        ShredCall::Flush => after_cut(st),
    }
}

/// The slices that one call emits.
pub open spec fn call_cuts(cfg: ShredderConfig, st: ShredState, call: ShredCall) -> Seq<Cut> {
    match call {
        ShredCall::Push(piece) => feed_cuts(cfg, st, piece),
        ShredCall::Flush => cut_of(st, Boundary::Final, true),
    }
}

/// The state of a new shredder after `calls`.
pub open spec fn run_state(cfg: ShredderConfig, calls: Seq<ShredCall>) -> ShredState
    decreases calls.len(),
{
    if calls.len() == 0 {
        fresh()
    } else {
        called(cfg, run_state(cfg, calls.drop_last()), calls.last())
    }
}

/// All slices that a new shredder emits in `calls`.
pub open spec fn run_cuts(cfg: ShredderConfig, calls: Seq<ShredCall>) -> Seq<Cut>
    decreases calls.len(),
{
    if calls.len() == 0 {
        Seq::empty()
    } else {
        run_cuts(cfg, calls.drop_last()) + call_cuts(
            cfg,
            run_state(cfg, calls.drop_last()),
            calls.last(),
        )
    }
}

/// For each of those slices, whether a flush emitted it.
pub open spec fn run_flushed(cfg: ShredderConfig, calls: Seq<ShredCall>) -> Seq<bool>
    decreases calls.len(),
{
    if calls.len() == 0 {
        Seq::empty()
    } else {
        run_flushed(cfg, calls.drop_last()) + Seq::new(
            call_cuts(cfg, run_state(cfg, calls.drop_last()), calls.last()).len(),
            |k: int| calls.last() is Flush,
        )
    }
}

/// All text pushed in `calls`.
pub open spec fn pushed(calls: Seq<ShredCall>) -> Seq<char>
    decreases calls.len(),
{
    if calls.len() == 0 {
        Seq::empty()
    } else {
        pushed(calls.drop_last()) + match calls.last() {
            ShredCall::Push(piece) => piece,
            ShredCall::Flush => Seq::empty(),
        }
    }
}

/// Feeding more text keeps what was fed covered.
proof fn lemma_feed_covers(
    cfg: ShredderConfig,
    reply: Seq<char>,
    cuts: Seq<Cut>,
    st: ShredState,
    piece: Seq<char>,
)
    requires
        covers(reply, cuts, st),
    ensures
        covers(reply + piece, cuts + feed_cuts(cfg, st, piece), feed(cfg, st, piece)),
    decreases piece.len(),
{
    if piece.len() == 0 {
        assert(reply + piece =~= reply);
        assert(cuts + Seq::<Cut>::empty() =~= cuts);
    } else {
        let init = piece.drop_last();
        let c = piece.last();
        lemma_feed_covers(cfg, reply, cuts, st, init);
        let mid_cuts = cuts + feed_cuts(cfg, st, init);
        let mid = feed(cfg, st, init);
        assert((reply + init).push(c) =~= reply + piece);
        lemma_extend_covers(reply + init, mid_cuts, mid, c);
        let last = step_cuts(cfg, mid, c);
        assert(mid_cuts + last =~= cuts + (feed_cuts(cfg, st, init) + last));
        match cut_reason(cfg, mid.buf.push(c)) {
            Some(b) => {
                lemma_cut_covers(reply + piece, mid_cuts, with_char(mid, c), b, false);
            },
            None => {
                assert(mid_cuts + Seq::<Cut>::empty() =~= mid_cuts);
            },
        }
    }
}

/// What a push emits is not final.
proof fn lemma_pushed_is_not_final(cfg: ShredderConfig, st: ShredState, piece: Seq<char>)
    ensures
        forall|k: int|
            0 <= k < feed_cuts(cfg, st, piece).len() ==> {
                &&& !(#[trigger] feed_cuts(cfg, st, piece)[k]).is_final
                &&& feed_cuts(cfg, st, piece)[k].boundary != Boundary::Final
            },
    decreases piece.len(),
{
    if piece.len() > 0 {
        lemma_pushed_is_not_final(cfg, st, piece.drop_last());
    }
}

/// Whatever the calls, what was pushed is covered by what was emitted and what
/// is still buffered, and exactly what a flush emitted is final.
proof fn lemma_run_covers(cfg: ShredderConfig, calls: Seq<ShredCall>)
    ensures
        covers(pushed(calls), run_cuts(cfg, calls), run_state(cfg, calls)),
        run_flushed(cfg, calls).len() == run_cuts(cfg, calls).len(),
        forall|k: int|
            0 <= k < run_cuts(cfg, calls).len() ==> {
                &&& (#[trigger] run_cuts(cfg, calls)[k]).is_final == run_flushed(cfg, calls)[k]
                &&& run_cuts(cfg, calls)[k].is_final <==> run_cuts(cfg, calls)[k].boundary
                    == Boundary::Final
            },
    decreases calls.len(),
{
    if calls.len() == 0 {
        assert(pushed(calls).subrange(0, 0) =~= Seq::<char>::empty());
    } else {
        let before = calls.drop_last();
        lemma_run_covers(cfg, before);
        let st = run_state(cfg, before);
        match calls.last() {
            ShredCall::Push(piece) => {
                lemma_feed_covers(cfg, pushed(before), run_cuts(cfg, before), st, piece);
                lemma_pushed_is_not_final(cfg, st, piece);
            },
            ShredCall::Flush => {
                lemma_cut_covers(pushed(before), run_cuts(cfg, before), st, Boundary::Final, true);
                assert(pushed(before) + Seq::<char>::empty() =~= pushed(before));
            },
        }
        let old_cuts = run_cuts(cfg, before);
        assert forall|k: int| 0 <= k < run_cuts(cfg, calls).len() implies {
            &&& (#[trigger] run_cuts(cfg, calls)[k]).is_final == run_flushed(cfg, calls)[k]
            &&& run_cuts(cfg, calls)[k].is_final <==> run_cuts(cfg, calls)[k].boundary
                == Boundary::Final
        } by {
            if k < old_cuts.len() {
                assert(run_cuts(cfg, calls)[k] == old_cuts[k]);
                assert(run_flushed(cfg, calls)[k] == run_flushed(cfg, before)[k]);
            } else {
                let new_cuts = call_cuts(cfg, st, calls.last());
                assert(run_cuts(cfg, calls)[k] == new_cuts[k - old_cuts.len()]);
            }
        }
    }
}

/// The chunks of any run of pushes and flushes on a new shredder are numbered
/// from 0 without gap, their offsets never fall, their texts are trimmed and
/// not empty, and the final ones are exactly those that a flush gave, which
/// alone have the boundary `Final`.
pub proof fn lemma_chunks_of_any_run(
    cfg: ShredderConfig,
    calls: Seq<ShredCall>,
    chunks: Seq<SentenceChunk>,
)
    requires
        chunks_show(chunks, run_cuts(cfg, calls)),
    ensures
        chunks.len() == run_flushed(cfg, calls).len(),
        forall|k: int|
            0 <= k < chunks.len() ==> {
                &&& (#[trigger] chunks[k]).idx == k
                &&& (*chunks[k].text)@.len() > 0
                &&& trim((*chunks[k].text)@) == (*chunks[k].text)@
                &&& chunks[k].is_final == run_flushed(cfg, calls)[k]
                &&& chunks[k].is_final <==> chunks[k].boundary == Boundary::Final
            },
        forall|j: int, k: int|
            0 <= j <= k < chunks.len() ==> (#[trigger] chunks[j]).char_offset <= (
            #[trigger] chunks[k]).char_offset,
{
    lemma_run_covers(cfg, calls);
    let cuts = run_cuts(cfg, calls);
    assert forall|k: int| 0 <= k < chunks.len() implies {
        &&& (#[trigger] chunks[k]).idx == k
        &&& (*chunks[k].text)@.len() > 0
        &&& trim((*chunks[k].text)@) == (*chunks[k].text)@
        &&& chunks[k].is_final == run_flushed(cfg, calls)[k]
        &&& chunks[k].is_final <==> chunks[k].boundary == Boundary::Final
    } by {
        assert(chunks[k].shows(cuts[k]));
        lemma_blank_iff_trim_empty(cuts[k].raw);
        lemma_trim_twice(cuts[k].raw);
    }
    assert forall|j: int, k: int| 0 <= j <= k < chunks.len() implies (
    #[trigger] chunks[j]).char_offset <= (#[trigger] chunks[k]).char_offset by {
        assert(chunks[j].shows(cuts[j]));
        assert(chunks[k].shows(cuts[k]));
        if j < k {
            assert(cuts[j].offset + cuts[j].raw.len() <= cuts[k].offset);
        }
    }
}

/// The texts of the chunks one after the other, without white space.
pub open spec fn spoken_ink(chunks: Seq<SentenceChunk>) -> Seq<char>
    decreases chunks.len(),
{
    if chunks.len() == 0 {
        Seq::empty()
    } else {
        spoken_ink(chunks.drop_last()) + ink((*chunks.last().text)@)
    }
}

/// The slices one after the other, without white space.
pub open spec fn cut_ink(cuts: Seq<Cut>) -> Seq<char>
    decreases cuts.len(),
{
    if cuts.len() == 0 {
        Seq::empty()
    } else {
        cut_ink(cuts.drop_last()) + ink(cuts.last().raw)
    }
}

proof fn lemma_cut_ink_splits(a: Seq<Cut>, b: Seq<Cut>)
    ensures
        cut_ink(a + b) == cut_ink(a) + cut_ink(b),
    decreases b.len(),
{
    if b.len() == 0 {
        assert(a + b =~= a);
        assert(cut_ink(a) + Seq::<char>::empty() =~= cut_ink(a));
    } else {
        assert((a + b).drop_last() =~= a + b.drop_last());
        lemma_cut_ink_splits(a, b.drop_last());
        assert(cut_ink(a) + cut_ink(b.drop_last()) + ink(b.last().raw) =~= cut_ink(a) + (cut_ink(
            b.drop_last(),
        ) + ink(b.last().raw)));
    }
}

/// A cut moves the ink of the buffer into the slices.
proof fn lemma_cut_keeps_ink(st: ShredState, boundary: Boundary, is_final: bool)
    ensures
        cut_ink(cut_of(st, boundary, is_final)) == ink(st.buf),
        after_cut(st).buf.len() == 0,
{
    let cuts = cut_of(st, boundary, is_final);
    if is_blank(st.buf) {
        lemma_ink_of_blank(st.buf);
    } else {
        assert(cuts.drop_last() =~= Seq::<Cut>::empty());
        assert(cut_ink(cuts.drop_last()) =~= Seq::<char>::empty());
        assert(cut_ink(cuts) =~= ink(st.buf));
    }
}

proof fn lemma_feed_keeps_ink(cfg: ShredderConfig, st: ShredState, piece: Seq<char>)
    ensures
        cut_ink(feed_cuts(cfg, st, piece)) + ink(feed(cfg, st, piece).buf) == ink(st.buf) + ink(
            piece,
        ),
    decreases piece.len(),
{
    if piece.len() == 0 {
        assert(ink(st.buf) + ink(piece) =~= Seq::<char>::empty() + ink(st.buf));
    } else {
        let init = piece.drop_last();
        let c = piece.last();
        lemma_feed_keeps_ink(cfg, st, init);
        let mid = feed(cfg, st, init);
        let done = feed_cuts(cfg, st, init);
        let one = seq![c];
        assert(mid.buf.push(c) =~= mid.buf + one);
        assert(piece =~= init + one);
        lemma_ink_splits(mid.buf, one);
        lemma_ink_splits(init, one);
        let last = step_cuts(cfg, mid, c);
        lemma_cut_ink_splits(done, last);
        let end = feed(cfg, st, piece).buf;
        assert(cut_ink(last) + ink(end) == ink(mid.buf) + ink(one)) by {
            match cut_reason(cfg, mid.buf.push(c)) {
                Some(b) => {
                    lemma_cut_keeps_ink(with_char(mid, c), b, false);
                    assert(ink(end) =~= Seq::<char>::empty());
                    assert(cut_ink(last) + ink(end) =~= ink(mid.buf.push(c)));
                },
                None => {
                    assert(cut_ink(last) + ink(end) =~= ink(mid.buf.push(c)));
                },
            }
        }
        assert(cut_ink(done) + cut_ink(last) + ink(end) =~= cut_ink(done) + (cut_ink(last) + ink(
            end,
        )));
        assert(cut_ink(done) + (ink(mid.buf) + ink(one)) =~= (cut_ink(done) + ink(mid.buf)) + ink(
            one,
        ));
        assert(ink(st.buf) + ink(init) + ink(one) =~= ink(st.buf) + (ink(init) + ink(one)));
    }
}

proof fn lemma_run_keeps_ink(cfg: ShredderConfig, calls: Seq<ShredCall>)
    ensures
        cut_ink(run_cuts(cfg, calls)) + ink(run_state(cfg, calls).buf) == ink(pushed(calls)),
    decreases calls.len(),
{
    if calls.len() == 0 {
        assert(cut_ink(run_cuts(cfg, calls)) + ink(run_state(cfg, calls).buf) =~= ink(
            pushed(calls),
        ));
    } else {
        let before = calls.drop_last();
        lemma_run_keeps_ink(cfg, before);
        let st = run_state(cfg, before);
        let done = run_cuts(cfg, before);
        let last = call_cuts(cfg, st, calls.last());
        let end = run_state(cfg, calls).buf;
        let piece = match calls.last() {
            ShredCall::Push(piece) => piece,
            ShredCall::Flush => Seq::empty(),
        };
        lemma_cut_ink_splits(done, last);
        lemma_ink_splits(pushed(before), piece);
        assert(cut_ink(last) + ink(end) == ink(st.buf) + ink(piece)) by {
            match calls.last() {
                ShredCall::Push(p) => {
                    lemma_feed_keeps_ink(cfg, st, p);
                },
                ShredCall::Flush => {
                    lemma_cut_keeps_ink(st, Boundary::Final, true);
                    assert(cut_ink(last) + ink(end) =~= ink(st.buf) + ink(piece));
                },
            }
        }
        assert(cut_ink(done) + cut_ink(last) + ink(end) =~= cut_ink(done) + (cut_ink(last) + ink(
            end,
        )));
        assert(cut_ink(done) + (ink(st.buf) + ink(piece)) =~= (cut_ink(done) + ink(st.buf)) + ink(
            piece,
        ));
    }
}

/// Chunks that show slices hold their ink.
proof fn lemma_chunks_hold_ink(chunks: Seq<SentenceChunk>, cuts: Seq<Cut>)
    requires
        chunks_show(chunks, cuts),
    ensures
        spoken_ink(chunks) == cut_ink(cuts),
    decreases cuts.len(),
{
    if cuts.len() > 0 {
        let n = cuts.len() - 1;
        assert forall|k: int| 0 <= k < n implies (#[trigger] chunks.drop_last()[k]).shows(
            cuts.drop_last()[k],
        ) by {
            assert(chunks[k].shows(cuts[k]));
        }
        lemma_chunks_hold_ink(chunks.drop_last(), cuts.drop_last());
        assert(chunks[n].shows(cuts[n]));
        lemma_ink_of_trim(cuts[n].raw);
    }
}

/// No text is lost, repeated or reordered: white space aside, the texts of the
/// chunks one after the other, followed by what is still buffered, are what was
/// pushed. After a flush nothing is buffered, and the chunks alone are.
pub proof fn lemma_chunks_hold_the_text(
    cfg: ShredderConfig,
    calls: Seq<ShredCall>,
    chunks: Seq<SentenceChunk>,
)
    requires
        chunks_show(chunks, run_cuts(cfg, calls)),
    ensures
        spoken_ink(chunks) + ink(run_state(cfg, calls).buf) == ink(pushed(calls)),
        calls.len() > 0 && calls.last() is Flush ==> spoken_ink(chunks) == ink(pushed(calls)),
{
    lemma_run_keeps_ink(cfg, calls);
    lemma_chunks_hold_ink(chunks, run_cuts(cfg, calls));
    if calls.len() > 0 && calls.last() is Flush {
        assert(run_state(cfg, calls).buf.len() == 0);
        assert(spoken_ink(chunks) + ink(run_state(cfg, calls).buf) =~= spoken_ink(chunks));
    }
}

/// A second flush in a row gives nothing and changes nothing.
pub proof fn lemma_flush_twice(st: ShredState)
    ensures
        cut_of(after_cut(st), Boundary::Final, true).len() == 0,
        after_cut(after_cut(st)) == after_cut(st),
{
    assert(after_cut(after_cut(st)) =~= after_cut(st));
}

// ---------------------------------------------------------------------------
// Where the text is cut
// ---------------------------------------------------------------------------

/// No place of the text calls for a cut.
spec fn is_quiet(cfg: ShredderConfig, text: Seq<char>) -> bool {
    forall|i: int|
        #![trigger text[i]]
        0 <= i < text.len() ==> {
            &&& i + 1 >= cfg.max_chunk_chars ==> !is_space(text[i])
            &&& i > 0 ==> {
                &&& !(is_space(text[i]) && (text[i - 1] == '.' || text[i - 1] == '?' || text[i - 1]
                    == '!'))
                &&& !(text[i] == '\n' && text[i - 1] == '\n')
                &&& i + 1 >= cfg.min_chunk_chars ==> !((text[i] == ' ' || text[i] == '\n') && (
                text[i - 1] == ',' || text[i - 1] == ';' || text[i - 1] == ':'))
            }
        }
}

/// The slice ends where its label says, and nothing before that end called for
/// a cut.
spec fn is_labelled(cfg: ShredderConfig, cut: Cut) -> bool {
    let n = cut.raw.len() as int;
    let last = cut.raw[n - 1];
    let prev = cut.raw[n - 2];
    &&& n > 0
    &&& cut.is_final ==> is_quiet(cfg, cut.raw)
    &&& !cut.is_final ==> {
        &&& is_quiet(cfg, cut.raw.drop_last())
        &&& cut.boundary == Boundary::Paragraph <==> n > 1 && last == '\n' && prev == '\n'
        &&& cut.boundary == Boundary::Sentence <==> n > 1 && is_space(last) && (prev == '.' || prev
            == '?' || prev == '!')
        &&& cut.boundary == Boundary::Clause ==> {
            ||| n > 1 && n >= cfg.min_chunk_chars && (last == ' ' || last == '\n') && (prev == ','
                || prev == ';' || prev == ':')
            ||| n >= cfg.max_chunk_chars && is_space(last)
        }
    }
}

proof fn lemma_feed_is_quiet(cfg: ShredderConfig, st: ShredState, piece: Seq<char>)
    requires
        is_quiet(cfg, st.buf),
    ensures
        is_quiet(cfg, feed(cfg, st, piece).buf),
        forall|k: int|
            0 <= k < feed_cuts(cfg, st, piece).len() ==> is_labelled(
                cfg,
                #[trigger] feed_cuts(cfg, st, piece)[k],
            ),
    decreases piece.len(),
{
    if piece.len() > 0 {
        let init = piece.drop_last();
        let c = piece.last();
        lemma_feed_is_quiet(cfg, st, init);
        let mid = feed(cfg, st, init);
        let next = mid.buf.push(c);
        assert(next.drop_last() =~= mid.buf);
        if cut_reason(cfg, next) is None {
            assert forall|i: int|
                #![trigger next[i]]
                0 <= i < next.len() implies {
                &&& i + 1 >= cfg.max_chunk_chars ==> !is_space(next[i])
                &&& i > 0 ==> {
                    &&& !(is_space(next[i]) && (next[i - 1] == '.' || next[i - 1] == '?' || next[i
                        - 1] == '!'))
                    &&& !(next[i] == '\n' && next[i - 1] == '\n')
                    &&& i + 1 >= cfg.min_chunk_chars ==> !((next[i] == ' ' || next[i] == '\n') && (
                    next[i - 1] == ',' || next[i - 1] == ';' || next[i - 1] == ':'))
                }
            } by {
                if i < mid.buf.len() {
                    assert(next[i] == mid.buf[i]);
                    if i > 0 {
                        assert(next[i - 1] == mid.buf[i - 1]);
                    }
                }
            }
        }
        let earlier = feed_cuts(cfg, st, init);
        let cuts = feed_cuts(cfg, st, piece);
        assert forall|k: int| 0 <= k < cuts.len() implies is_labelled(cfg, #[trigger] cuts[k]) by {
            if k < earlier.len() {
                assert(cuts[k] == earlier[k]);
            }
        }
    }
}

proof fn lemma_run_is_quiet(cfg: ShredderConfig, calls: Seq<ShredCall>)
    ensures
        is_quiet(cfg, run_state(cfg, calls).buf),
        forall|k: int|
            0 <= k < run_cuts(cfg, calls).len() ==> is_labelled(
                cfg,
                #[trigger] run_cuts(cfg, calls)[k],
            ),
    decreases calls.len(),
{
    if calls.len() > 0 {
        let before = calls.drop_last();
        lemma_run_is_quiet(cfg, before);
        let st = run_state(cfg, before);
        match calls.last() {
            ShredCall::Push(piece) => {
                lemma_feed_is_quiet(cfg, st, piece);
            },
            ShredCall::Flush => {},
        }
        let earlier = run_cuts(cfg, before);
        let cuts = run_cuts(cfg, calls);
        assert forall|k: int| 0 <= k < cuts.len() implies is_labelled(cfg, #[trigger] cuts[k]) by {
            if k < earlier.len() {
                assert(cuts[k] == earlier[k]);
            } else {
                assert(cuts[k] == call_cuts(cfg, st, calls.last())[k - earlier.len()]);
            }
        }
    }
}

/// No boundary waits in the buffer. Whatever was pushed and flushed, nowhere in
/// the buffered text does white space follow `.`, `?` or `!`, nor a line feed
/// a line feed, nor, once enough text is buffered, a space or line feed `,`,
/// `;` or `:`; and past the hard limit there is no white space at all.
pub proof fn lemma_no_boundary_waits(cfg: ShredderConfig, calls: Seq<ShredCall>, i: int)
    requires
        0 <= i < run_state(cfg, calls).buf.len(),
    ensures
        ({
            let buf = run_state(cfg, calls).buf;
            &&& i > 0 && is_space(buf[i]) ==> buf[i - 1] != '.' && buf[i - 1] != '?' && buf[i - 1]
                != '!'
            &&& i > 0 && buf[i] == '\n' ==> buf[i - 1] != '\n'
            &&& i > 0 && i + 1 >= cfg.min_chunk_chars && (buf[i] == ' ' || buf[i] == '\n') ==> buf[i
                - 1] != ',' && buf[i - 1] != ';' && buf[i - 1] != ':'
            &&& i + 1 >= cfg.max_chunk_chars ==> !is_space(buf[i])
        }),
{
    lemma_run_is_quiet(cfg, calls);
}

/// A chunk that a push gave ends at the boundary that it names: two line feeds
/// make a paragraph and nothing else does, white space after `.`, `?` or `!`
/// makes a sentence and nothing else does, and a clause ends in a space or line
/// feed after `,`, `;` or `:` with enough text before it, or in white space
/// past the hard limit.
pub proof fn lemma_chunk_ends_at_its_boundary(
    cfg: ShredderConfig,
    calls: Seq<ShredCall>,
    k: int,
)
    requires
        0 <= k < run_cuts(cfg, calls).len(),
        !run_cuts(cfg, calls)[k].is_final,
    ensures
        ({
            let raw = run_cuts(cfg, calls)[k].raw;
            let n = raw.len() as int;
            match run_cuts(cfg, calls)[k].boundary {
                Boundary::Paragraph => n > 1 && raw[n - 1] == '\n' && raw[n - 2] == '\n',
                Boundary::Sentence => n > 1 && is_space(raw[n - 1]) && (raw[n - 2] == '.' || raw[n
                    - 2] == '?' || raw[n - 2] == '!'),
                Boundary::Clause => {
                    &&& n > 0
                    &&& n > 1 ==> !(raw[n - 1] == '\n' && raw[n - 2] == '\n')
                    &&& n > 1 && is_space(raw[n - 1]) ==> raw[n - 2] != '.' && raw[n - 2] != '?'
                        && raw[n - 2] != '!'
                    &&& {
                        ||| n > 1 && n >= cfg.min_chunk_chars && (raw[n - 1] == ' ' || raw[n - 1]
                            == '\n') && (raw[n - 2] == ',' || raw[n - 2] == ';' || raw[n - 2]
                            == ':')
                        ||| n >= cfg.max_chunk_chars && is_space(raw[n - 1])
                    }
                },
                Boundary::Final => false,
            }
        }),
{
    lemma_run_is_quiet(cfg, calls);
    lemma_run_covers(cfg, calls);
    assert(is_labelled(cfg, run_cuts(cfg, calls)[k]));
}

/// A chunk leaves as early as it can: before its last character no place of it
/// is a boundary, and a flushed chunk holds none at all.
pub proof fn lemma_chunk_leaves_at_once(
    cfg: ShredderConfig,
    calls: Seq<ShredCall>,
    k: int,
    i: int,
)
    requires
        0 <= k < run_cuts(cfg, calls).len(),
        0 <= i < run_cuts(cfg, calls)[k].raw.len(),
        run_cuts(cfg, calls)[k].is_final || i + 1 < run_cuts(cfg, calls)[k].raw.len(),
    ensures
        ({
            let raw = run_cuts(cfg, calls)[k].raw;
            &&& i > 0 && is_space(raw[i]) ==> raw[i - 1] != '.' && raw[i - 1] != '?' && raw[i - 1]
                != '!'
            &&& i > 0 && raw[i] == '\n' ==> raw[i - 1] != '\n'
            &&& i > 0 && i + 1 >= cfg.min_chunk_chars && (raw[i] == ' ' || raw[i] == '\n') ==> raw[i
                - 1] != ',' && raw[i - 1] != ';' && raw[i - 1] != ':'
            &&& i + 1 >= cfg.max_chunk_chars ==> !is_space(raw[i])
        }),
{
    lemma_run_is_quiet(cfg, calls);
    let cut = run_cuts(cfg, calls)[k];
    assert(is_labelled(cfg, cut));
    if !cut.is_final {
        let head = cut.raw.drop_last();
        assert(head[i] == cut.raw[i]);
        if i > 0 {
            assert(head[i - 1] == cut.raw[i - 1]);
        }
    }
}

} // verus!

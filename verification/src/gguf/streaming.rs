//! Streaming transcription: which token and which audio position go into each
//! decoder step. The decoder itself is driven from outside.

use vstd::prelude::*;

verus! {

/// Positions that are fed before the first prediction.
pub const PREFIX_LEN: usize = 38;

/// First token of the prefix.
pub const BOS_TOKEN: i32 = 1;

/// The other tokens of the prefix.
pub const STREAMING_PAD: i32 = 32;

/// Token that ends a transcript.
pub const EOS_TOKEN: i32 = 2;

/// The prefix: a start token followed by pads.
pub open spec fn prefix_tokens() -> Seq<i32> {
    Seq::new(38, |i: int| if i == 0 {
        1i32
    } else {
        32i32
    })
}

/// The prefix tokens.
pub fn streaming_prefix() -> (r: Vec<i32>)
    ensures
        r@ == prefix_tokens(),
{
    let mut out: Vec<i32> = Vec::new();
    out.push(BOS_TOKEN);
    let mut i: usize = 1;
    while i < PREFIX_LEN
        invariant
            1 <= i <= 38,
            out@.len() == i,
            forall|j: int| 0 <= j < i ==> #[trigger] out@[j] == prefix_tokens()[j],
        decreases 38 - i,
    {
        out.push(STREAMING_PAD);
        i = i + 1;
    }
    assert(out@ =~= prefix_tokens());
    out
}

/// What goes into the next decoder step: the embedding of `token` added to the
/// audio embedding at `audio_pos`.
#[derive(Debug, Clone, Copy, PartialEq, Eq, Structural)]
pub struct DecodeInput {
    pub audio_pos: usize,
    pub token: i32,
}

/// A transcription in progress: the prefix followed by what was predicted.
#[derive(Debug, Clone)]
pub struct StreamingDecode {
    pub seq_len: usize,
    pub generated: Vec<i32>,
}

/// Number of tokens in the transcript of `seq_len` audio positions.
pub open spec fn transcript_len(seq_len: int) -> int {
    if seq_len < 38 {
        0
    } else if seq_len == 38 {
        1
    } else {
        seq_len - 38
    }
}

impl StreamingDecode {
    /// The prefix comes first, and no more than the transcript follows.
    pub open spec fn wf(self) -> bool {
        &&& self.seq_len >= 38
        &&& 38 <= self.generated@.len() <= 38 + transcript_len(self.seq_len as int)
        &&& self.generated@.subrange(0, 38) == prefix_tokens()
    }

    /// The tokens predicted so far.
    pub open spec fn predicted(self) -> Seq<i32> {
        self.generated@.subrange(38, self.generated@.len() as int)
    }

    /// The input of the next decoder step, if one is left. Before the first
    /// prediction the prefix is fed instead.
    pub open spec fn next(self) -> Option<DecodeInput> {
        let n = self.predicted().len();
        if n == 0 || n >= transcript_len(self.seq_len as int) {
            None
        } else {
            Some(
                DecodeInput {
                    audio_pos: (37 + n) as usize,
                    token: self.predicted()[n - 1],
                },
            )
        }
    }

    /// Starts a transcription. Audio shorter than the prefix has none.
    pub fn start(seq_len: usize) -> (r: Option<Self>)
        ensures
            r is None <==> seq_len < 38,
            r matches Some(d) ==> d.wf() && d.seq_len == seq_len && d.predicted().len() == 0,
    {
        if seq_len < PREFIX_LEN {
            return None;
        }
        let generated = streaming_prefix();
        assert(generated@.subrange(0, 38) =~= generated@);
        Some(StreamingDecode { seq_len, generated })
    }

    /// The input of the next decoder step; `None` before the first prediction
    /// and when the transcript is complete.
    pub fn next_input(&self) -> (r: Option<DecodeInput>)
        requires
            self.wf(),
        ensures
            r == self.next(),
    {
        let len: usize = self.generated.len();
        if len == PREFIX_LEN || len >= self.seq_len {
            return None;
        }
        Some(DecodeInput { audio_pos: len - 1, token: self.generated[len - 1] })
    }

    /// Whether the transcript is complete.
    pub fn is_done(&self) -> (r: bool)
        requires
            self.wf(),
        ensures
            r == (self.predicted().len() == transcript_len(self.seq_len as int)),
            r == (0 < self.predicted().len() && self.seq_len - 38 <= self.predicted().len()),
    {
        let len: usize = self.generated.len();
        len > PREFIX_LEN && len >= self.seq_len
    }

    /// Takes the prediction of the step just made.
    pub fn push(&mut self, token: i32)
        requires
            old(self).wf(),
            old(self).predicted().len() < transcript_len(old(self).seq_len as int),
        ensures
            final(self).wf(),
            final(self).seq_len == old(self).seq_len,
            final(self).predicted() == old(self).predicted().push(token),
    {
        self.generated.push(token);
        proof {
            assert(self.generated@.subrange(0, 38) =~= old(self).generated@.subrange(0, 38));
            assert(self.predicted() =~= old(self).predicted().push(token));
        }
    }

    /// The transcript.
    pub fn finish(&self) -> (r: Vec<i32>)
        requires
            self.wf(),
        ensures
            r@ == self.predicted(),
    {
        let mut out: Vec<i32> = Vec::new();
        let mut i: usize = PREFIX_LEN;
        assert(self.generated@.subrange(38, 38) =~= Seq::<i32>::empty());
        while i < self.generated.len()
            invariant
                38 <= i <= self.generated@.len(),
                out@ == self.generated@.subrange(38, i as int),
            decreases self.generated@.len() - i,
        {
            out.push(self.generated[i]);
            i = i + 1;
            assert(self.generated@.subrange(38, i as int) =~= self.generated@.subrange(
                38,
                i - 1,
            ).push(self.generated@[i - 1]));
        }
        out
    }
}

/// Each decoder step gets the token predicted just before it and the audio
/// position right after the one before; the prefix uses the positions before
/// that. So no audio position is used twice and none is skipped.
pub proof fn lemma_steps_walk_the_audio(d: StreamingDecode, token: i32, next: StreamingDecode)
    requires
        d.wf(),
        next.wf(),
        next.seq_len == d.seq_len,
        next.predicted() == d.predicted().push(token),
    ensures
        next.next() matches Some(input) ==> {
            &&& input.token == token
            &&& input.audio_pos < d.seq_len
            &&& d.next() matches Some(before) ==> input.audio_pos == before.audio_pos + 1
            &&& d.predicted().len() == 0 ==> input.audio_pos == 38
        },
{
}

/// What goes into the decoder before token `k` of the transcript `r` is
/// predicted: the prefix at the first audio positions, then each token at the
/// position after the one before.
pub open spec fn inputs_before(r: Seq<i32>, k: int) -> Seq<DecodeInput> {
    Seq::new(
        (38 + k) as nat,
        |i: int|
            if i < 38 {
                DecodeInput { audio_pos: i as usize, token: prefix_tokens()[i] }
            } else {
                DecodeInput { audio_pos: i as usize, token: r[i - 38] }
            },
    )
}

/// `t` is a token that the decoder can predict after `inputs`.
pub open spec fn predicts<P: Fn(&[DecodeInput]) -> i32>(
    predict: P,
    inputs: Seq<DecodeInput>,
    t: i32,
) -> bool {
    exists|s: &[DecodeInput]| s@ == inputs && #[trigger] predict.ensures((s,), t)
}

/// `r` is a transcript of `seq_len` audio positions: each token is predicted
/// after the prefix and the tokens before it, each at its audio position.
pub open spec fn is_transcript<P: Fn(&[DecodeInput]) -> i32>(
    predict: P,
    seq_len: int,
    r: Seq<i32>,
) -> bool {
    &&& r.len() == transcript_len(seq_len)
    &&& forall|k: int|
        0 <= k < r.len() ==> predicts(predict, inputs_before(r, k), #[trigger] r[k])
}

/// What the decoder predicts depends on its inputs alone.
pub open spec fn is_deterministic<P: Fn(&[DecodeInput]) -> i32>(predict: P) -> bool {
    forall|inputs: Seq<DecodeInput>, t: i32, u: i32|
        #![trigger predicts(predict, inputs, t), predicts(predict, inputs, u)]
        predicts(predict, inputs, t) && predicts(predict, inputs, u) ==> t == u
}

/// The inputs of the prefix.
fn prefix_inputs() -> (r: Vec<DecodeInput>)
    ensures
        r@ == inputs_before(Seq::empty(), 0),
{
    let prefix = streaming_prefix();
    let mut inputs: Vec<DecodeInput> = Vec::new();
    let mut i: usize = 0;
    while i < PREFIX_LEN
        invariant
            i <= 38,
            prefix@ == prefix_tokens(),
            inputs@.len() == i,
            forall|k: int|
                0 <= k < i ==> #[trigger] inputs@[k] == inputs_before(Seq::empty(), 0)[k],
        decreases 38 - i,
    {
        inputs.push(DecodeInput { audio_pos: i, token: prefix[i] });
        i = i + 1;
    }
    assert(inputs@ =~= inputs_before(Seq::empty(), 0));
    inputs
}

/// Transcribes `seq_len` audio positions. `predict` runs the decoder on all
/// inputs so far.
pub fn transcribe<P: Fn(&[DecodeInput]) -> i32>(seq_len: usize, predict: &P) -> (r: Vec<i32>)
    requires
        forall|inputs: &[DecodeInput]| #[trigger] predict.requires((inputs,)),
    ensures
        is_transcript(*predict, seq_len as int, r@),
        seq_len < 38 ==> r@.len() == 0,
        seq_len == 38 ==> r@.len() == 1,
        seq_len > 38 ==> r@.len() == seq_len - 38,
{
    let mut d = match StreamingDecode::start(seq_len) {
        Some(d) => d,
        None => {
            return Vec::new();
        },
    };
    let mut inputs = prefix_inputs();
    assert(inputs@ =~= inputs_before(d.predicted(), 0));
    while !d.is_done()
        invariant
            d.wf(),
            d.seq_len == seq_len,
            d.predicted().len() < transcript_len(seq_len as int) ==> inputs@ == inputs_before(
                d.predicted(),
                d.predicted().len() as int,
            ),
            forall|inputs: &[DecodeInput]| #[trigger] predict.requires((inputs,)),
            forall|k: int|
                0 <= k < d.predicted().len() ==> predicts(
                    *predict,
                    inputs_before(d.predicted(), k),
                    #[trigger] d.predicted()[k],
                ),
        decreases transcript_len(seq_len as int) - d.predicted().len(),
    {
        let ghost before = d.predicted();
        let token: i32 = predict(inputs.as_slice());
        assert(predicts(*predict, inputs_before(before, before.len() as int), token));
        d.push(token);
        let ghost now = d.predicted();
        proof {
            assert forall|k: int| 0 <= k < now.len() implies predicts(
                *predict,
                inputs_before(now, k),
                #[trigger] now[k],
            ) by {
                assert(inputs_before(now, k) =~= inputs_before(before, k));
                if k < before.len() {
                    assert(now[k] == before[k]);
                }
            }
        }
        if let Some(input) = d.next_input() {
            inputs.push(input);
            assert(inputs@ =~= inputs_before(now, now.len() as int));
        }
    }
    d.finish()
}

/// A transcript is fixed by the audio's length and the predictions: two
/// transcriptions with the same deterministic decoder give the same tokens,
/// wherever each was run.
pub proof fn lemma_transcript_is_unique<P: Fn(&[DecodeInput]) -> i32>(
    predict: P,
    seq_len: int,
    a: Seq<i32>,
    b: Seq<i32>,
)
    requires
        is_deterministic(predict),
        is_transcript(predict, seq_len, a),
        is_transcript(predict, seq_len, b),
    ensures
        a == b,
{
    lemma_transcripts_agree(predict, seq_len, a, b, a.len() as int);
    assert(a.take(a.len() as int) =~= a);
    assert(b.take(a.len() as int) =~= b);
}

proof fn lemma_transcripts_agree<P: Fn(&[DecodeInput]) -> i32>(
    predict: P,
    seq_len: int,
    a: Seq<i32>,
    b: Seq<i32>,
    n: int,
)
    requires
        is_deterministic(predict),
        is_transcript(predict, seq_len, a),
        is_transcript(predict, seq_len, b),
        0 <= n <= a.len(),
    ensures
        a.take(n) == b.take(n),
    decreases n,
{
    if n > 0 {
        lemma_transcripts_agree(predict, seq_len, a, b, n - 1);
        assert(inputs_before(a, n - 1) =~= inputs_before(b, n - 1)) by {
            assert forall|i: int| 38 <= i < 38 + n - 1 implies #[trigger] a[i - 38] == b[i - 38] by {
                assert(a.take(n - 1)[i - 38] == b.take(n - 1)[i - 38]);
            }
        }
        assert(predicts(predict, inputs_before(a, n - 1), a[n - 1]));
        assert(predicts(predict, inputs_before(b, n - 1), b[n - 1]));
        assert(a.take(n) =~= a.take(n - 1).push(a[n - 1]));
        assert(b.take(n) =~= b.take(n - 1).push(b[n - 1]));
    } else {
        assert(a.take(0) =~= b.take(0));
    }
}

/// The whole recording is transcribed: `n` audio positions give `n - 38` tokens
/// (none where there are fewer than 38 positions, one where there are exactly
/// 38), and before the last token is predicted every audio position but the
/// last has been fed, each once and in order, the first 38 with the start token
/// and pads, each later one with the token predicted just before.
pub proof fn lemma_transcript_covers_audio<P: Fn(&[DecodeInput]) -> i32>(
    predict: P,
    seq_len: int,
    r: Seq<i32>,
    pos: int,
)
    requires
        is_transcript(predict, seq_len, r),
    ensures
        seq_len < 38 ==> r.len() == 0,
        seq_len == 38 ==> r.len() == 1,
        seq_len > 38 ==> r.len() == seq_len - 38,
        seq_len > 38 ==> inputs_before(r, r.len() - 1).len() == seq_len - 1,
        seq_len > 38 && seq_len <= usize::MAX && 0 <= pos < seq_len - 1 ==> {
            let input = inputs_before(r, r.len() - 1)[pos];
            &&& input.audio_pos == pos
            &&& pos == 0 ==> input.token == 1
            &&& 1 <= pos < 38 ==> input.token == 32
            &&& 38 <= pos ==> input.token == r[pos - 38]
        },
{
}

/// The prefix is the start token and thirty-seven pads.
pub proof fn lemma_prefix_is_start_and_pads(i: int)
    ensures
        prefix_tokens().len() == 38,
        prefix_tokens()[0] == 1,
        1 <= i < 38 ==> prefix_tokens()[i] == 32,
{
}

/// Each token is what the decoder predicts from everything before it: the start
/// token and thirty-seven pads on the first audio positions, and then every
/// token so far, each on the audio position after the one before.
pub proof fn lemma_token_is_predicted_from_all_before<P: Fn(&[DecodeInput]) -> i32>(
    predict: P,
    f: spec_fn(Seq<DecodeInput>) -> i32,
    seq_len: int,
    r: Seq<i32>,
    k: int,
)
    requires
        is_transcript(predict, seq_len, r),
        forall|s: &[DecodeInput], t: i32| #[trigger] predict.ensures((s,), t) ==> t == f(s@),
        0 <= k < r.len(),
    ensures
        r[k] == f(
            Seq::new(
                (38 + k) as nat,
                |i: int|
                    DecodeInput {
                        audio_pos: i as usize,
                        token: if i == 0 {
                            1
                        } else if i < 38 {
                            32
                        } else {
                            r[i - 38]
                        },
                    },
            ),
        ),
{
    let fed = Seq::new(
        (38 + k) as nat,
        |i: int|
            DecodeInput {
                audio_pos: i as usize,
                token: if i == 0 {
                    1
                } else if i < 38 {
                    32
                } else {
                    r[i - 38]
                },
            },
    );
    assert(predicts(predict, inputs_before(r, k), r[k]));
    assert(fed =~= inputs_before(r, k));
}

/// What the decoder is fed only grows: the inputs before a token are those
/// before the token ahead of it and one more, at the next audio position.
pub proof fn lemma_inputs_grow(r: Seq<i32>, k: int)
    requires
        0 <= k < r.len(),
        r.len() + 38 <= usize::MAX,
    ensures
        inputs_before(r, k + 1).drop_last() == inputs_before(r, k),
        inputs_before(r, k + 1).last().audio_pos == 38 + k,
        inputs_before(r, k + 1).last().token == r[k],
        inputs_before(r, 0).len() == 38,
{
    assert(inputs_before(r, k + 1).drop_last() =~= inputs_before(r, k));
}

/// A transcription goes on until the recording is used up: after the first
/// prediction there is a next input exactly while fewer than `seq_len - 38`
/// tokens are predicted, so that the last one uses audio position
/// `seq_len - 2`.
pub proof fn lemma_transcription_goes_on(d: StreamingDecode)
    requires
        d.wf(),
    ensures
        d.next() is Some <==> 0 < d.predicted().len() < d.seq_len - 38,
        d.next() matches Some(input) ==> input.audio_pos == 37 + d.predicted().len()
            && input.token == d.predicted().last() && input.audio_pos + 2 <= d.seq_len,
        d.predicted().len() <= if d.seq_len == 38 {
            1
        } else {
            d.seq_len - 38
        },
{
}

// ---------------------------------------------------------------------------
// Decoding one position at a time with an end token
// ---------------------------------------------------------------------------

/// A transcription that also feeds the prefix one position at a time, and that
/// stops at the end token.
#[derive(Debug, Clone)]
pub struct HybridDecode {
    pub seq_len: usize,
    /// Positions fed so far.
    pub pos: usize,
    pub generated: Vec<i32>,
}

impl HybridDecode {
    /// One prediction is kept from the prefix and one from every position
    /// after it; nothing follows an end token but the first prediction.
    pub open spec fn wf(self) -> bool {
        &&& self.seq_len >= 38
        &&& self.pos <= self.seq_len
        &&& self.generated@.len() == if self.pos < 38 {
            0
        } else {
            self.pos - 37
        }
    }

    /// An end token was predicted after the prefix.
    pub open spec fn ended(self) -> bool {
        self.generated@.len() > 1 && self.generated@.last() == EOS_TOKEN
    }

    /// The input of the next step, if one is left.
    pub open spec fn next(self) -> Option<DecodeInput> {
        if self.pos >= self.seq_len || self.ended() {
            None
        } else if self.pos < 38 {
            Some(DecodeInput { audio_pos: self.pos, token: prefix_tokens()[self.pos as int] })
        } else {
            Some(DecodeInput { audio_pos: self.pos, token: self.generated@.last() })
        }
    }

    /// Starts a transcription. Audio shorter than the prefix has none.
    pub fn start(seq_len: usize) -> (r: Option<Self>)
        ensures
            r is None <==> seq_len < 38,
            r matches Some(d) ==> d.wf() && d.seq_len == seq_len && d.pos == 0,
    {
        if seq_len < PREFIX_LEN {
            None
        } else {
            Some(HybridDecode { seq_len, pos: 0, generated: Vec::new() })
        }
    }

    /// The input of the next step; `None` when the transcript is complete.
    pub fn next_input(&self) -> (r: Option<DecodeInput>)
        requires
            self.wf(),
        ensures
            r == self.next(),
    {
        let n: usize = self.generated.len();
        if self.pos >= self.seq_len || (n > 1 && self.generated[n - 1] == EOS_TOKEN) {
            return None;
        }
        if self.pos < PREFIX_LEN {
            let token: i32 = if self.pos == 0 {
                BOS_TOKEN
            } else {
                STREAMING_PAD
            };
            return Some(DecodeInput { audio_pos: self.pos, token });
        }
        Some(DecodeInput { audio_pos: self.pos, token: self.generated[n - 1] })
    }

    /// Takes the prediction of the step just made; those inside the prefix are
    /// dropped, all but the last.
    pub fn push(&mut self, token: i32)
        requires
            old(self).wf(),
            old(self).next() is Some,
        ensures
            final(self).wf(),
            final(self).seq_len == old(self).seq_len,
            final(self).pos == old(self).pos + 1,
            final(self).generated@ == if old(self).pos < 37 {
                old(self).generated@
            } else {
                old(self).generated@.push(token)
            },
    {
        if self.pos + 1 >= PREFIX_LEN {
            self.generated.push(token);
        }
        self.pos = self.pos + 1;
    }
}

/// A transcription by single positions feeds the audio from its first position
/// on without a gap, the first 38 with the start token and pads, each later one
/// with the token predicted last; it stops only at the end of the audio or at
/// an end token after the first prediction.
pub proof fn lemma_split_decoding_feeds_every_position(d: HybridDecode)
    requires
        d.wf(),
    ensures
        d.next() matches Some(input) ==> {
            &&& input.audio_pos == d.pos
            &&& d.pos == 0 ==> input.token == 1
            &&& 1 <= d.pos < 38 ==> input.token == 32
            &&& d.pos >= 38 ==> input.token == d.generated@[d.pos - 38]
        },
        d.next() is None <==> d.pos == d.seq_len || (d.pos >= 39 && d.generated@[d.pos - 38] == 2),
        d.pos >= 38 ==> d.generated@.len() == d.pos - 37,
        d.pos < 38 ==> d.generated@.len() == 0,
{
}

/// A token with text: neither start, end nor pad.
pub open spec fn is_text_token(t: i32) -> bool {
    t != EOS_TOKEN && t != BOS_TOKEN && t != STREAMING_PAD
}

/// The tokens of a transcript that have text, in order.
pub fn text_tokens(tokens: &[i32]) -> (r: Vec<i32>)
    ensures
        r@ == tokens@.filter(|t: i32| is_text_token(t)),
{
    let ghost keep = |t: i32| is_text_token(t);
    let mut out: Vec<i32> = Vec::new();
    let mut i: usize = 0;
    assert(tokens@.subrange(0, 0).filter(keep) =~= Seq::<i32>::empty()) by {
        reveal(Seq::filter);
    }
    while i < tokens.len()
        invariant
            i <= tokens@.len(),
            keep == (|t: i32| is_text_token(t)),
            out@ == tokens@.subrange(0, i as int).filter(keep),
        decreases tokens@.len() - i,
    {
        let t: i32 = tokens[i];
        proof {
            reveal(Seq::filter);
            let s = tokens@.subrange(0, i + 1);
            assert(s.drop_last() =~= tokens@.subrange(0, i as int));
            assert(s.last() == t);
        }
        if t != EOS_TOKEN && t != BOS_TOKEN && t != STREAMING_PAD {
            out.push(t);
        }
        i = i + 1;
    }
    assert(tokens@.subrange(0, i as int) =~= tokens@);
    out
}

/// What is left of a transcript is its tokens other than start (1), end (2) and
/// pad (32): each of those is dropped, every other token is kept, and none is
/// added.
pub proof fn lemma_text_tokens(tokens: Seq<i32>, t: i32)
    ensures
        ({
            let kept = tokens.filter(|t: i32| is_text_token(t));
            &&& t == 1 || t == 2 || t == 32 ==> !kept.contains(t)
            &&& t != 1 && t != 2 && t != 32 ==> (kept.contains(t) <==> tokens.contains(t))
            &&& kept.len() <= tokens.len()
        }),
    decreases tokens.len(),
{
    reveal(Seq::filter);
    let keep = |t: i32| is_text_token(t);
    if tokens.len() > 0 {
        let init = tokens.drop_last();
        lemma_text_tokens(init, t);
        let kept = tokens.filter(keep);
        let before = init.filter(keep);
        let last = tokens.last();
        if before.contains(t) {
            let i = choose|i: int| 0 <= i < before.len() && before[i] == t;
            assert(kept[i] == t);
        }
        if keep(last) {
            assert(kept == before.push(last));
            assert(kept[before.len() as int] == last);
        }
        if tokens.contains(t) {
            let i = choose|i: int| 0 <= i < tokens.len() && tokens[i] == t;
            if i < init.len() {
                assert(init[i] == t);
            }
        }
        if kept.contains(t) {
            let i = choose|i: int| 0 <= i < kept.len() && kept[i] == t;
            if i < before.len() {
                assert(before[i] == t);
                let j = choose|j: int| 0 <= j < init.len() && init[j] == t;
                assert(tokens[j] == t);
            } else {
                assert(tokens[tokens.len() - 1] == t);
            }
        }
    }
}

// ---------------------------------------------------------------------------
// Pipelined chunks
// ---------------------------------------------------------------------------

/// One operation of a pipelined transcription, on a chunk.
#[derive(Debug, Clone, Copy, PartialEq, Eq, Structural)]
pub enum PipelineOp {
    /// Start to encode the chunk.
    Encode(usize),
    /// Wait until the chunk is encoded.
    Await(usize),
    /// Move the encoded chunk to the decoder's device.
    Transfer(usize),
    /// Decode the chunk.
    Decode(usize),
}

/// The operations for one chunk of `n`: the next chunk starts to be encoded
/// before this one is decoded.
pub open spec fn chunk_ops(c: int, n: int) -> Seq<PipelineOp> {
    let head = if c == 0 {
        seq![PipelineOp::Encode(0)]
    } else {
        Seq::empty()
    };
    let ahead = if c + 1 < n {
        seq![PipelineOp::Encode((c + 1) as usize)]
    } else {
        Seq::empty()
    };
    head + seq![PipelineOp::Await(c as usize), PipelineOp::Transfer(c as usize)] + ahead
        + seq![PipelineOp::Decode(c as usize)]
}

/// The operations for the first `c` of `n` chunks.
pub open spec fn pipeline_ops(c: int, n: int) -> Seq<PipelineOp>
    decreases c,
{
    if c <= 0 {
        Seq::empty()
    } else {
        pipeline_ops(c - 1, n) + chunk_ops(c - 1, n)
    }
}

/// The order of operations that transcribes `n_chunks` chunks.
pub fn pipeline_plan(n_chunks: usize) -> (r: Vec<PipelineOp>)
    ensures
        r@ == pipeline_ops(n_chunks as int, n_chunks as int),
{
    let mut out: Vec<PipelineOp> = Vec::new();
    let mut c: usize = 0;
    while c < n_chunks
        invariant
            c <= n_chunks,
            out@ == pipeline_ops(c as int, n_chunks as int),
        decreases n_chunks - c,
    {
        let ghost before = out@;
        if c == 0 {
            out.push(PipelineOp::Encode(0));
        }
        out.push(PipelineOp::Await(c));
        out.push(PipelineOp::Transfer(c));
        if c < n_chunks - 1 {
            out.push(PipelineOp::Encode(c + 1));
        }
        out.push(PipelineOp::Decode(c));
        assert(out@ =~= before + chunk_ops(c as int, n_chunks as int));
        c = c + 1;
    }
    out
}

/// How often an operation occurs.
pub open spec fn occurrences(ops: Seq<PipelineOp>, op: PipelineOp) -> int
    decreases ops.len(),
{
    if ops.len() == 0 {
        0
    } else {
        occurrences(ops.drop_last(), op) + if ops.last() == op {
            1int
        } else {
            0
        }
    }
}

proof fn lemma_occurrences_add(a: Seq<PipelineOp>, b: Seq<PipelineOp>, op: PipelineOp)
    ensures
        occurrences(a + b, op) == occurrences(a, op) + occurrences(b, op),
    decreases b.len(),
{
    if b.len() == 0 {
        assert(a + b =~= a);
    } else {
        assert((a + b).drop_last() =~= a + b.drop_last());
        lemma_occurrences_add(a, b.drop_last(), op);
    }
}

proof fn lemma_chunk_occurrences(c: int, n: int, k: usize)
    requires
        0 <= c < n <= usize::MAX,
    ensures
        occurrences(chunk_ops(c, n), PipelineOp::Decode(k)) == if k == c {
            1int
        } else {
            0
        },
        occurrences(chunk_ops(c, n), PipelineOp::Transfer(k)) == if k == c {
            1int
        } else {
            0
        },
        occurrences(chunk_ops(c, n), PipelineOp::Encode(k)) == (if c == 0 && k == 0 {
            1int
        } else {
            0
        }) + (if k == c + 1 && c + 1 < n {
            1int
        } else {
            0
        }),
{
    reveal_with_fuel(occurrences, 6);
    let head = if c == 0 {
        seq![PipelineOp::Encode(0)]
    } else {
        Seq::empty()
    };
    let mid = seq![PipelineOp::Await(c as usize), PipelineOp::Transfer(c as usize)];
    let ahead = if c + 1 < n {
        seq![PipelineOp::Encode((c + 1) as usize)]
    } else {
        Seq::empty()
    };
    let tail = seq![PipelineOp::Decode(c as usize)];
    let d = PipelineOp::Decode(k);
    let t = PipelineOp::Transfer(k);
    let e = PipelineOp::Encode(k);
    lemma_occurrences_add(head + mid + ahead, tail, d);
    lemma_occurrences_add(head + mid, ahead, d);
    lemma_occurrences_add(head, mid, d);
    lemma_occurrences_add(head + mid + ahead, tail, t);
    lemma_occurrences_add(head + mid, ahead, t);
    lemma_occurrences_add(head, mid, t);
    lemma_occurrences_add(head + mid + ahead, tail, e);
    lemma_occurrences_add(head + mid, ahead, e);
    lemma_occurrences_add(head, mid, e);
    assert(mid.drop_last() =~= seq![PipelineOp::Await(c as usize)]);
    assert(tail.drop_last() =~= Seq::<PipelineOp>::empty());
    assert(ahead.len() > 0 ==> ahead.drop_last() =~= Seq::<PipelineOp>::empty());
    assert(head.len() > 0 ==> head.drop_last() =~= Seq::<PipelineOp>::empty());
}

/// Every chunk is encoded, moved and decoded exactly once.
pub proof fn lemma_each_chunk_once(c: int, n: int, k: usize)
    requires
        0 <= c <= n <= usize::MAX,
    ensures
        occurrences(pipeline_ops(c, n), PipelineOp::Decode(k)) == if k < c {
            1int
        } else {
            0
        },
        occurrences(pipeline_ops(c, n), PipelineOp::Transfer(k)) == if k < c {
            1int
        } else {
            0
        },
        occurrences(pipeline_ops(c, n), PipelineOp::Encode(k)) == if c > 0 && k <= c && k < n {
            1int
        } else {
            0
        },
    decreases c,
{
    if c > 0 {
        lemma_each_chunk_once(c - 1, n, k);
        lemma_chunk_occurrences(c - 1, n, k);
        let a = pipeline_ops(c - 1, n);
        let b = chunk_ops(c - 1, n);
        lemma_occurrences_add(a, b, PipelineOp::Decode(k));
        lemma_occurrences_add(a, b, PipelineOp::Transfer(k));
        lemma_occurrences_add(a, b, PipelineOp::Encode(k));
    }
}

/// Where the operations of chunk `c` start among those of all chunks.
proof fn lemma_pipeline_slice(c: int, m: int, n: int, i: int)
    requires
        0 <= c < m <= n,
        0 <= i < chunk_ops(c, n).len(),
    ensures
        pipeline_ops(c, n).len() + i < pipeline_ops(m, n).len(),
        pipeline_ops(m, n)[pipeline_ops(c, n).len() + i] == chunk_ops(c, n)[i],
    decreases m - c,
{
    if m > c + 1 {
        lemma_pipeline_slice(c, m - 1, n, i);
    }
}

/// Position `i` holds `op`.
pub open spec fn op_at(ops: Seq<PipelineOp>, i: int, op: PipelineOp) -> bool {
    0 <= i < ops.len() && ops[i] == op
}

/// Each chunk is encoded, awaited, moved and decoded in that order, and the
/// chunk after it starts to be encoded before it is decoded, so that encoder
/// and decoder work at the same time.
pub proof fn lemma_pipeline_order(n: int, k: int)
    requires
        0 <= k < n <= usize::MAX,
    ensures
        exists|e: int, a: int, t: int, d: int|
            {
                &&& e < a < t < d
                &&& #[trigger] op_at(pipeline_ops(n, n), e, PipelineOp::Encode(k as usize))
                &&& #[trigger] op_at(pipeline_ops(n, n), a, PipelineOp::Await(k as usize))
                &&& #[trigger] op_at(pipeline_ops(n, n), t, PipelineOp::Transfer(k as usize))
                &&& #[trigger] op_at(pipeline_ops(n, n), d, PipelineOp::Decode(k as usize))
            },
        k + 1 < n ==> exists|e: int, d: int|
            {
                &&& e < d
                &&& #[trigger] op_at(pipeline_ops(n, n), e, PipelineOp::Encode((k + 1) as usize))
                &&& #[trigger] op_at(pipeline_ops(n, n), d, PipelineOp::Decode(k as usize))
            },
{
    let ops = pipeline_ops(n, n);
    let own = chunk_ops(k, n);
    let base = pipeline_ops(k, n).len() as int;
    let h: int = if k == 0 {
        1
    } else {
        0
    };
    let last = own.len() - 1;
    lemma_pipeline_slice(k, n, n, h);
    lemma_pipeline_slice(k, n, n, h + 1);
    lemma_pipeline_slice(k, n, n, last);
    assert(op_at(ops, base + h, PipelineOp::Await(k as usize)));
    assert(op_at(ops, base + h + 1, PipelineOp::Transfer(k as usize)));
    assert(op_at(ops, base + last, PipelineOp::Decode(k as usize)));
    if k == 0 {
        lemma_pipeline_slice(0, n, n, 0);
        assert(op_at(ops, base, PipelineOp::Encode(k as usize)));
    } else {
        let before = chunk_ops(k - 1, n);
        let at = before.len() - 2;
        lemma_pipeline_slice(k - 1, n, n, at);
        let e = pipeline_ops(k - 1, n).len() + at;
        assert(op_at(ops, e, PipelineOp::Encode(k as usize)));
        assert(e < base);
    }
    if k + 1 < n {
        lemma_pipeline_slice(k, n, n, last - 1);
        assert(op_at(ops, base + last - 1, PipelineOp::Encode((k + 1) as usize)));
    }
}

} // verus!

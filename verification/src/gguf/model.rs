//! Structure of the quantised model: its weights, how projections are fused,
//! which cache each decoder gets, and the model's switches. Running the layers
//! is left to the caller.

use crate::engine::svm::ComputeDevice;
use crate::gguf::q4::{embedding_row, row_len, unpacks, Q4Row};
use crate::gguf::streaming::{is_transcript, transcribe, DecodeInput};
use crate::models::layers::kv_cache::{blank_cache, empty_cache, same_config, LayerCaches};
use crate::models::layers::shannon_prime::ShannonPrimeConfig;
use crate::models::layers::tensor::{KvModel, KvTensor};
use vstd::prelude::*;

verus! {

// ---------------------------------------------------------------------------
// Weights
// ---------------------------------------------------------------------------

/// A matrix of Q4_0 blocks, row by row.
#[derive(Debug, Clone)]
pub struct Q4Tensor {
    pub bytes: Vec<u8>,
    pub rows: usize,
    pub cols: usize,
}

impl Q4Tensor {
    /// The bytes are those of `rows` rows.
    pub open spec fn wf(self) -> bool {
        self.bytes@.len() == self.rows * row_len(self.cols as int)
    }

    /// The bytes of row `i`.
    pub open spec fn row(self, i: int) -> Seq<u8> {
        self.bytes@.subrange(
            i * row_len(self.cols as int),
            i * row_len(self.cols as int) + row_len(self.cols as int),
        )
    }

    /// Shape: rows and columns.
    pub fn shape(&self) -> (r: [usize; 2])
        ensures
            r@ == seq![self.rows, self.cols],
    {
        let r = [self.rows, self.cols];
        assert(r@ =~= seq![self.rows, self.cols]);
        r
    }
}

/// A linear layer. The bias, where there is one, is held as the bits of
/// single-precision numbers.
#[derive(Debug, Clone)]
pub struct Q4Linear {
    pub weights: Q4Tensor,
    pub bias: Option<Vec<u32>>,
}

impl Q4Linear {
    pub fn new(weights: Q4Tensor, bias: Option<Vec<u32>>) -> (r: Self)
        ensures
            r == (Q4Linear { weights, bias }),
    {
        Q4Linear { weights, bias }
    }

    pub fn weights(&self) -> (r: &Q4Tensor)
        ensures
            *r == self.weights,
    {
        &self.weights
    }
}

/// `a` on top of `b`.
pub fn stack_rows(a: &Q4Tensor, b: &Q4Tensor) -> (r: Q4Tensor)
    requires
        a.wf(),
        b.wf(),
        a.cols == b.cols,
        a.rows + b.rows <= usize::MAX,
        a.bytes@.len() + b.bytes@.len() <= usize::MAX,
    ensures
        r.wf(),
        r.rows == a.rows + b.rows,
        r.cols == a.cols,
        r.bytes@ == a.bytes@ + b.bytes@,
{
    let mut bytes: Vec<u8> = Vec::new();
    bytes.extend_from_slice(a.bytes.as_slice());
    bytes.extend_from_slice(b.bytes.as_slice());
    proof {
        let w = row_len(a.cols as int);
        assert(bytes@ =~= a.bytes@ + b.bytes@);
        assert((a.rows + b.rows) * w == a.rows * w + b.rows * w) by (nonlinear_arith);
    }
    Q4Tensor { bytes, rows: a.rows + b.rows, cols: a.cols }
}

/// Row `i` of a stack is row `i` of the upper matrix, or of the lower one past
/// its end.
pub proof fn lemma_stacked_row(a: Q4Tensor, b: Q4Tensor, r: Q4Tensor, i: int)
    requires
        a.wf(),
        b.wf(),
        a.cols == b.cols,
        r.cols == a.cols,
        r.rows == a.rows + b.rows,
        r.bytes@ == a.bytes@ + b.bytes@,
        0 <= i < r.rows,
    ensures
        r.row(i) == if i < a.rows {
            a.row(i)
        } else {
            b.row(i - a.rows)
        },
{
    let w = row_len(a.cols as int);
    let ra = a.rows as int;
    let rb = b.rows as int;
    assert(w >= 0);
    if i < ra {
        assert(0 <= i * w && i * w + w <= ra * w) by (nonlinear_arith)
            requires
                0 <= i < ra,
                w >= 0,
        ;
        assert(r.row(i) =~= a.row(i));
    } else {
        let k = i - ra;
        assert(i * w == ra * w + k * w && 0 <= k * w && k * w + w <= rb * w) by (nonlinear_arith)
            requires
                i == ra + k,
                0 <= k < rb,
                w >= 0,
        ;
        assert(r.row(i) =~= b.row(k));
    }
}

/// Query, key and value projections in one matrix.
#[derive(Debug, Clone)]
pub struct Q4FusedQKV {
    pub weights: Q4Tensor,
    pub q_out: usize,
    pub k_out: usize,
    pub v_out: usize,
}

/// Gate and up projections in one matrix.
#[derive(Debug, Clone)]
pub struct Q4FusedGateUp {
    pub weights: Q4Tensor,
    pub gate_out: usize,
    pub up_out: usize,
}

// ---------------------------------------------------------------------------
// Layers
// ---------------------------------------------------------------------------

/// Attention with quantised projections.
#[derive(Debug, Clone)]
pub struct Q4Attention {
    pub wq: Q4Linear,
    pub wk: Q4Linear,
    pub wv: Q4Linear,
    pub wo: Q4Linear,
    pub fused_qkv: Option<Q4FusedQKV>,
    pub n_heads: usize,
    pub n_kv_heads: usize,
    pub head_dim: usize,
    pub sliding_window: Option<usize>,
}

/// `fused` is the three projections on top of each other.
pub open spec fn fuses_qkv(fused: Q4FusedQKV, q: Q4Tensor, k: Q4Tensor, v: Q4Tensor) -> bool {
    &&& fused.weights.wf()
    &&& fused.weights.rows == q.rows + k.rows + v.rows
    &&& fused.weights.cols == q.cols
    &&& fused.weights.bytes@ == q.bytes@ + k.bytes@ + v.bytes@
    &&& fused.q_out == q.rows
    &&& fused.k_out == k.rows
    &&& fused.v_out == v.rows
}

impl Q4Attention {
    pub fn new(
        wq: Q4Linear,
        wk: Q4Linear,
        wv: Q4Linear,
        wo: Q4Linear,
        n_heads: usize,
        n_kv_heads: usize,
        head_dim: usize,
        sliding_window: Option<usize>,
    ) -> (r: Self)
        ensures
            r == (Q4Attention {
                wq,
                wk,
                wv,
                wo,
                fused_qkv: None,
                n_heads,
                n_kv_heads,
                head_dim,
                sliding_window,
            }),
    {
        Q4Attention {
            wq,
            wk,
            wv,
            wo,
            fused_qkv: None,
            n_heads,
            n_kv_heads,
            head_dim,
            sliding_window,
        }
    }

    /// Fuses the query, key and value projections, once.
    pub fn fuse_qkv(&mut self)
        requires
            old(self).wq.weights.wf(),
            old(self).wk.weights.wf(),
            old(self).wv.weights.wf(),
            old(self).wq.weights.cols == old(self).wk.weights.cols,
            old(self).wq.weights.cols == old(self).wv.weights.cols,
            old(self).wq.weights.rows + old(self).wk.weights.rows + old(self).wv.weights.rows
                <= usize::MAX,
            old(self).wq.weights.bytes@.len() + old(self).wk.weights.bytes@.len() + old(
                self,
            ).wv.weights.bytes@.len() <= usize::MAX,
        ensures
            old(self).fused_qkv is Some ==> *final(self) == *old(self),
            old(self).fused_qkv is None ==> {
                &&& final(self).fused_qkv matches Some(f) && fuses_qkv(
                    f,
                    old(self).wq.weights,
                    old(self).wk.weights,
                    old(self).wv.weights,
                )
                &&& *final(self) == (Q4Attention {
                    fused_qkv: final(self).fused_qkv,
                    ..*old(self)
                })
            },
    {
        if self.fused_qkv.is_some() {
            return;
        }
        let q_out: usize = self.wq.weights.rows;
        let k_out: usize = self.wk.weights.rows;
        let v_out: usize = self.wv.weights.rows;
        let qk = stack_rows(&self.wq.weights, &self.wk.weights);
        let weights = stack_rows(&qk, &self.wv.weights);
        self.fused_qkv = Some(Q4FusedQKV { weights, q_out, k_out, v_out });
    }

    /// Repeats each key/value head for the query heads that read it.
    pub fn expand_kv<T: Copy>(&self, t: &KvTensor<T>) -> (r: KvTensor<T>)
        requires
            t.wf(),
            t.heads == self.n_kv_heads,
            0 < self.n_kv_heads <= self.n_heads,
            t.batch * self.n_heads <= usize::MAX,
        ensures
            r.wf(),
            self.n_heads == self.n_kv_heads ==> r@ == t@,
            self.n_heads != self.n_kv_heads ==> r@ == expanded(
                t@,
                (self.n_heads / self.n_kv_heads) as nat,
            ),
    {
        if self.n_heads == self.n_kv_heads {
            return t.duplicate();
        }
        let factor: usize = self.n_heads / self.n_kv_heads;
        proof {
            assert(factor >= 1 && self.n_kv_heads * factor <= self.n_heads) by (nonlinear_arith)
                requires
                    factor == self.n_heads / self.n_kv_heads,
                    0 < self.n_kv_heads <= self.n_heads,
            ;
            assert(t.batch * (self.n_kv_heads * factor) <= t.batch * self.n_heads && 0
                <= self.n_kv_heads * factor && 0 <= t.batch * (self.n_kv_heads * factor))
                by (nonlinear_arith)
                requires
                    0 <= self.n_kv_heads * factor <= self.n_heads,
                    t.batch >= 0,
            ;
        }
        expand_lanes(t, factor)
    }
}

/// The tensor with every head repeated `factor` times.
pub open spec fn expanded<T>(t: KvModel<T>, factor: nat) -> KvModel<T> {
    KvModel {
        heads: t.heads * factor,
        lanes: Seq::new(
            (t.batch * t.heads) * factor,
            |l: int| t.lanes[l / (factor as int)],
        ),
        ..t
    }
}

fn expand_lanes<T: Copy>(t: &KvTensor<T>, factor: usize) -> (r: KvTensor<T>)
    requires
        t.wf(),
        factor > 0,
        t.heads * factor <= usize::MAX,
        t.batch * (t.heads * factor) <= usize::MAX,
    ensures
        r.wf(),
        r@ == expanded(t@, factor as nat),
{
    let mut lanes: Vec<Vec<T>> = Vec::new();
    let n: usize = t.lanes.len();
    let mut l: usize = 0;
    proof {
        assert(t@.lanes.len() == t.batch * t.heads);
        assert(0 * factor == 0) by (nonlinear_arith);
    }
    while l < n
        invariant
            n == t.lanes@.len(),
            l <= n,
            factor > 0,
            lanes@.len() == l * factor,
            forall|k: int|
                0 <= k < lanes@.len() ==> (#[trigger] lanes@[k])@ == t.lanes@[k
                    / (factor as int)]@,
        decreases n - l,
    {
        let mut j: usize = 0;
        while j < factor
            invariant
                n == t.lanes@.len(),
                l < n,
                j <= factor,
                factor > 0,
                lanes@.len() == l * factor + j,
                forall|k: int|
                    0 <= k < lanes@.len() ==> (#[trigger] lanes@[k])@ == t.lanes@[k
                        / (factor as int)]@,
            decreases factor - j,
        {
            let lane = crate::audio::chunks::copy_range(
                t.lanes[l].as_slice(),
                0,
                t.lanes[l].len(),
            );
            assert(lane@ =~= t.lanes@[l as int]@);
            proof {
                vstd::arithmetic::div_mod::lemma_fundamental_div_mod_converse(
                    l * factor + j,
                    factor as int,
                    l as int,
                    j as int,
                );
            }
            lanes.push(lane);
            j = j + 1;
        }
        proof {
            assert((l + 1) * factor == l * factor + factor) by (nonlinear_arith);
        }
        l = l + 1;
    }
    proof {
        assert(t.batch * (t.heads * factor) == (t.batch * t.heads) * factor && 0 <= t.heads
            * factor) by (nonlinear_arith)
            requires
                t.heads >= 0,
                factor >= 0,
        ;
    }
    let r = KvTensor {
        batch: t.batch,
        heads: t.heads * factor,
        seq: t.seq,
        head_dim: t.head_dim,
        lanes,
    };
    proof {
        assert(r@.lanes.len() == n * factor);
        let e = expanded(t@, factor as nat);
        assert forall|k: int| 0 <= k < r@.lanes.len() implies #[trigger] r@.lanes[k]
            == e.lanes[k] by {
            assert(0 <= k / (factor as int) < n) by (nonlinear_arith)
                requires
                    0 <= k < n * factor,
                    factor > 0,
            ;
        }
        assert(r@.lanes =~= e.lanes);
        assert forall|k: int| 0 <= k < r@.lanes.len() implies (#[trigger] r@.lanes[k]).len()
            == r@.seq * r@.head_dim by {
            assert(0 <= k / (factor as int) < n) by (nonlinear_arith)
                requires
                    0 <= k < n * factor,
                    factor > 0,
            ;
            assert(t@.lanes[k / (factor as int)].len() == t@.seq * t@.head_dim);
        }
    }
    r
}

/// After expansion query head `h` of batch entry `b` finds its keys at its own
/// place: those of key/value head `h / factor`.
pub proof fn lemma_expanded_head<T>(t: KvModel<T>, factor: nat, b: int, h: int)
    requires
        t.wf(),
        factor > 0,
        0 <= b < t.batch,
        0 <= h < t.heads * factor,
    ensures
        expanded(t, factor).lanes[b * (t.heads * factor) + h] == t.lanes[b * t.heads + h / (
        factor as int)],
{
    let f = factor as int;
    let heads = t.heads as int;
    let l = b * (heads * f) + h;
    assert(0 <= l < (t.batch * heads) * f) by (nonlinear_arith)
        requires
            0 <= b < t.batch,
            0 <= h < heads * f,
            l == b * (heads * f) + h,
    ;
    assert(l == (b * heads) * f + h) by (nonlinear_arith)
        requires
            l == b * (heads * f) + h,
    ;
    vstd::arithmetic::div_mod::lemma_hoist_over_denominator(h, b * heads, factor);
}

/// The fused projection answers for all three: its rows are those of the query,
/// then those of the key, then those of the value, and the sizes say where
/// each begins.
pub proof fn lemma_fused_qkv_rows(
    fused: Q4FusedQKV,
    q: Q4Tensor,
    k: Q4Tensor,
    v: Q4Tensor,
    i: int,
)
    requires
        fuses_qkv(fused, q, k, v),
        q.wf(),
        k.wf(),
        v.wf(),
        q.cols == k.cols,
        q.cols == v.cols,
        0 <= i,
    ensures
        i < q.rows ==> fused.weights.row(i) == q.row(i),
        i < k.rows ==> fused.weights.row(fused.q_out + i) == k.row(i),
        i < v.rows ==> fused.weights.row(fused.q_out + fused.k_out + i) == v.row(i),
        fused.q_out + fused.k_out + fused.v_out == fused.weights.rows,
        fused.q_out == q.rows,
        fused.k_out == k.rows,
{
    let w = row_len(q.cols as int);
    let top = q.rows * w;
    let mid = k.rows * w;
    let i1 = q.rows + i;
    let i2 = q.rows + k.rows + i;
    assert(i1 * w == top + i * w && i2 * w == top + mid + i * w) by (nonlinear_arith)
        requires
            i1 == q.rows + i,
            i2 == q.rows + k.rows + i,
            top == q.rows * w,
            mid == k.rows * w,
    ;
    if i < q.rows {
        lemma_row_inside(q, i);
        assert(fused.weights.row(i) =~= q.row(i));
    }
    if i < k.rows {
        lemma_row_inside(k, i);
        assert(fused.weights.row(i1) =~= k.row(i));
    }
    if i < v.rows {
        lemma_row_inside(v, i);
        assert(fused.weights.row(i2) =~= v.row(i));
    }
}

/// A row lies inside its matrix.
proof fn lemma_row_inside(t: Q4Tensor, i: int)
    requires
        t.wf(),
        0 <= i < t.rows,
    ensures
        0 <= i * row_len(t.cols as int),
        i * row_len(t.cols as int) + row_len(t.cols as int) <= t.bytes@.len(),
        row_len(t.cols as int) >= 0,
{
    let w = row_len(t.cols as int);
    assert(0 <= i * w && i * w + w <= t.rows * w) by (nonlinear_arith)
        requires
            0 <= i < t.rows,
            w >= 0,
    ;
}

/// Feed-forward block with quantised weights.
#[derive(Debug, Clone)]
pub struct Q4FeedForward {
    pub w1: Q4Linear,
    pub w2: Q4Linear,
    pub w3: Q4Linear,
    pub fused_gate_up: Option<Q4FusedGateUp>,
}

/// `fused` is the two projections on top of each other.
pub open spec fn fuses_gate_up(fused: Q4FusedGateUp, gate: Q4Tensor, up: Q4Tensor) -> bool {
    &&& fused.weights.wf()
    &&& fused.weights.rows == gate.rows + up.rows
    &&& fused.weights.cols == gate.cols
    &&& fused.weights.bytes@ == gate.bytes@ + up.bytes@
    &&& fused.gate_out == gate.rows
    &&& fused.up_out == up.rows
}

impl Q4FeedForward {
    pub fn new(w1: Q4Linear, w2: Q4Linear, w3: Q4Linear) -> (r: Self)
        ensures
            r == (Q4FeedForward { w1, w2, w3, fused_gate_up: None }),
    {
        Q4FeedForward { w1, w2, w3, fused_gate_up: None }
    }

    /// Fuses `w1` and `w3`, once.
    pub fn fuse_gate_up(&mut self)
        requires
            old(self).w1.weights.wf(),
            old(self).w3.weights.wf(),
            old(self).w1.weights.cols == old(self).w3.weights.cols,
            old(self).w1.weights.rows + old(self).w3.weights.rows <= usize::MAX,
            old(self).w1.weights.bytes@.len() + old(self).w3.weights.bytes@.len() <= usize::MAX,
        ensures
            old(self).fused_gate_up is Some ==> *final(self) == *old(self),
            old(self).fused_gate_up is None ==> {
                &&& final(self).fused_gate_up matches Some(f) && fuses_gate_up(
                    f,
                    old(self).w1.weights,
                    old(self).w3.weights,
                )
                &&& *final(self) == (Q4FeedForward {
                    fused_gate_up: final(self).fused_gate_up,
                    ..*old(self)
                })
            },
    {
        if self.fused_gate_up.is_some() {
            return;
        }
        let gate_out: usize = self.w1.weights.rows;
        let up_out: usize = self.w3.weights.rows;
        let weights = stack_rows(&self.w1.weights, &self.w3.weights);
        self.fused_gate_up = Some(Q4FusedGateUp { weights, gate_out, up_out });
    }
}

/// The fused projection answers for both: the rows of `w1` come first, then
/// those of `w3`, and the sizes say where each begins.
pub proof fn lemma_fused_gate_up_rows(fused: Q4FusedGateUp, gate: Q4Tensor, up: Q4Tensor, i: int)
    requires
        fuses_gate_up(fused, gate, up),
        gate.wf(),
        up.wf(),
        gate.cols == up.cols,
        0 <= i,
    ensures
        i < gate.rows ==> fused.weights.row(i) == gate.row(i),
        i < up.rows ==> fused.weights.row(fused.gate_out + i) == up.row(i),
        fused.gate_out + fused.up_out == fused.weights.rows,
        fused.gate_out == gate.rows,
{
    if i < gate.rows {
        lemma_stacked_row(gate, up, fused.weights, i);
    }
    if i < up.rows {
        lemma_stacked_row(gate, up, fused.weights, gate.rows + i);
    }
}

/// Adaptive modulation.
#[derive(Debug, Clone)]
pub struct Q4AdaRmsNorm {
    pub w0: Q4Linear,
    pub w2: Q4Linear,
}

impl Q4AdaRmsNorm {
    pub fn new(w0: Q4Linear, w2: Q4Linear) -> (r: Self)
        ensures
            r == (Q4AdaRmsNorm { w0, w2 }),
    {
        Q4AdaRmsNorm { w0, w2 }
    }
}

/// Adapter from audio to language embeddings.
#[derive(Debug, Clone)]
pub struct Q4Adapter {
    pub linear1: Q4Linear,
    pub linear2: Q4Linear,
}

impl Q4Adapter {
    pub fn new(linear1: Q4Linear, linear2: Q4Linear) -> (r: Self)
        ensures
            r == (Q4Adapter { linear1, linear2 }),
    {
        Q4Adapter { linear1, linear2 }
    }
}

/// Layer of the audio encoder; `N` is a normalisation.
#[derive(Debug)]
pub struct Q4EncoderLayer<N> {
    pub attention_norm: N,
    pub attention: Q4Attention,
    pub ffn_norm: N,
    pub ffn: Q4FeedForward,
}

impl<N> Q4EncoderLayer<N> {
    pub fn new(attention_norm: N, attention: Q4Attention, ffn_norm: N, ffn: Q4FeedForward) -> (r:
        Self)
        ensures
            r == (Q4EncoderLayer { attention_norm, attention, ffn_norm, ffn }),
    {
        Q4EncoderLayer { attention_norm, attention, ffn_norm, ffn }
    }
}

/// Layer of the decoder; `N` is a normalisation.
#[derive(Debug)]
pub struct Q4DecoderLayer<N> {
    pub ada_rms_norm: Q4AdaRmsNorm,
    pub attention_norm: N,
    pub attention: Q4Attention,
    pub ffn_norm: N,
    pub ffn: Q4FeedForward,
}

impl<N> Q4DecoderLayer<N> {
    pub fn new(
        ada_rms_norm: Q4AdaRmsNorm,
        attention_norm: N,
        attention: Q4Attention,
        ffn_norm: N,
        ffn: Q4FeedForward,
    ) -> (r: Self)
        ensures
            r == (Q4DecoderLayer { ada_rms_norm, attention_norm, attention, ffn_norm, ffn }),
    {
        Q4DecoderLayer { ada_rms_norm, attention_norm, attention, ffn_norm, ffn }
    }
}

/// Audio encoder; `C` is the convolution in front, `R` the rotary embedding.
#[derive(Debug)]
pub struct Q4AudioEncoder<C, R, N> {
    pub conv: C,
    pub rope: R,
    pub layers: Vec<Q4EncoderLayer<N>>,
    pub norm: N,
}

impl<C, R, N> Q4AudioEncoder<C, R, N> {
    pub fn new(conv: C, rope: R, layers: Vec<Q4EncoderLayer<N>>, norm: N) -> (r: Self)
        ensures
            r == (Q4AudioEncoder { conv, rope, layers, norm }),
    {
        Q4AudioEncoder { conv, rope, layers, norm }
    }

    pub fn n_layers(&self) -> (r: usize)
        ensures
            r == self.layers@.len(),
    {
        self.layers.len()
    }

    /// Empty dynamic caches, one per layer.
    pub fn create_cache<T: Copy>(&self) -> (r: LayerCaches<T>)
        ensures
            r.wf(),
            r.each(self.layers@.len() as int, |i: int| empty_cache::<T>(None)),
    {
        LayerCaches::new(self.layers.len())
    }
}

/// Decoder; `R` is the rotary embedding. Token embeddings are kept quantised.
#[derive(Debug)]
pub struct Q4LanguageModel<R, N> {
    pub lm_head: Q4Linear,
    pub embed_bytes: Vec<u8>,
    pub rope: R,
    pub layers: Vec<Q4DecoderLayer<N>>,
    pub norm: N,
    pub d_model: usize,
    pub device: ComputeDevice,
}

/// Key/value heads and head size of the caches of a decoder without layers.
pub const DEFAULT_KV_HEADS: usize = 8;

pub const DEFAULT_CACHE_HEAD_DIM: usize = 96;

/// Head size of a decoder without layers.
pub const DEFAULT_HEAD_DIM: usize = 128;

impl<R, N> Q4LanguageModel<R, N> {
    pub fn new_q4_embeddings(
        tok_embed_q4: Q4Tensor,
        tok_embed_bytes: Vec<u8>,
        d_model: usize,
        device: ComputeDevice,
        rope: R,
        layers: Vec<Q4DecoderLayer<N>>,
        norm: N,
    ) -> (r: Self)
        ensures
            r == (Q4LanguageModel {
                lm_head: (Q4Linear { weights: tok_embed_q4, bias: None }),
                embed_bytes: tok_embed_bytes,
                rope,
                layers,
                norm,
                d_model,
                device,
            }),
    {
        Q4LanguageModel {
            lm_head: Q4Linear::new(tok_embed_q4, None),
            embed_bytes: tok_embed_bytes,
            rope,
            layers,
            norm,
            d_model,
            device,
        }
    }

    /// The rows of the embedding matrix for a list of tokens, before scaling.
    pub fn embed_tokens_from_ids(&self, ids: &[i32]) -> (r: Vec<Q4Row>)
        requires
            forall|i: int|
                0 <= i < ids@.len() ==> 0 <= #[trigger] ids@[i] && (ids@[i] + 1) * row_len(
                    self.d_model as int,
                ) <= self.embed_bytes@.len(),
        ensures
            r@.len() == ids@.len(),
            forall|i: int|
                0 <= i < ids@.len() ==> unpacks(
                    self.embed_bytes@.subrange(
                        ids@[i] * row_len(self.d_model as int),
                        ids@[i] * row_len(self.d_model as int) + row_len(self.d_model as int),
                    ),
                    #[trigger] r@[i],
                ),
    {
        let mut out: Vec<Q4Row> = Vec::new();
        let mut i: usize = 0;
        while i < ids.len()
            invariant
                i <= ids@.len(),
                out@.len() == i,
                forall|k: int|
                    0 <= k < ids@.len() ==> 0 <= #[trigger] ids@[k] && (ids@[k] + 1) * row_len(
                        self.d_model as int,
                    ) <= self.embed_bytes@.len(),
                forall|k: int|
                    0 <= k < i ==> unpacks(
                        self.embed_bytes@.subrange(
                            ids@[k] * row_len(self.d_model as int),
                            ids@[k] * row_len(self.d_model as int) + row_len(
                                self.d_model as int,
                            ),
                        ),
                        #[trigger] out@[k],
                    ),
            decreases ids@.len() - i,
        {
            let id: i32 = ids[i];
            assert(0 <= ids@[i as int]);
            out.push(embedding_row(self.embed_bytes.as_slice(), self.d_model, id as u32));
            i = i + 1;
        }
        out
    }

    pub fn n_layers(&self) -> (r: usize)
        ensures
            r == self.layers@.len(),
    {
        self.layers.len()
    }

    pub fn d_model(&self) -> (r: usize)
        ensures
            r == self.d_model,
    {
        self.d_model
    }

    /// Head size of the layers.
    pub fn head_dim(&self) -> (r: usize)
        ensures
            r == if self.layers@.len() > 0 {
                self.layers@[0].attention.head_dim
            } else {
                DEFAULT_HEAD_DIM
            },
            self.layers@.len() == 0 ==> r == 128,
    {
        if self.layers.len() > 0 {
            self.layers[0].attention.head_dim
        } else {
            DEFAULT_HEAD_DIM
        }
    }

    /// Key/value heads and head size of the caches.
    pub open spec fn cache_shape(self) -> (usize, usize) {
        if self.layers@.len() > 0 {
            (self.layers@[0].attention.n_kv_heads, self.layers@[0].attention.head_dim)
        } else {
            (DEFAULT_KV_HEADS, DEFAULT_CACHE_HEAD_DIM)
        }
    }

    fn cache_dims(&self) -> (r: (usize, usize))
        ensures
            r == self.cache_shape(),
    {
        if self.layers.len() > 0 {
            (self.layers[0].attention.n_kv_heads, self.layers[0].attention.head_dim)
        } else {
            (DEFAULT_KV_HEADS, DEFAULT_CACHE_HEAD_DIM)
        }
    }

    /// Empty dynamic caches, one per layer.
    pub fn create_cache<T: Copy>(&self) -> (r: LayerCaches<T>)
        ensures
            r.wf(),
            r.each(self.layers@.len() as int, |i: int| empty_cache::<T>(None)),
    {
        LayerCaches::new(self.layers.len())
    }

    /// Caches with buffers for `max_seq` positions, one per layer.
    pub fn create_cache_preallocated<T: Copy>(&self, max_seq: usize, fill: T) -> (r: LayerCaches<
        T,
    >)
        requires
            max_seq * self.cache_shape().1 <= usize::MAX,
        ensures
            r.wf(),
            r.each(
                self.layers@.len() as int,
                |i: int|
                    blank_cache(
                        1,
                        self.cache_shape().0 as nat,
                        max_seq as nat,
                        self.cache_shape().1 as nat,
                        fill,
                        None,
                    ),
            ),
    {
        let (n_kv_heads, head_dim) = self.cache_dims();
        LayerCaches::new_preallocated(
            self.layers.len(),
            1,
            n_kv_heads,
            max_seq,
            head_dim,
            fill,
        )
    }

    /// The same, with compressed updates.
    pub fn create_cache_preallocated_shannon_prime<T: Copy>(
        &self,
        max_seq: usize,
        fill: T,
        config: ShannonPrimeConfig,
    ) -> (r: LayerCaches<T>)
        requires
            max_seq * self.cache_shape().1 <= usize::MAX,
        ensures
            r.wf(),
            r.caches@.len() == self.layers@.len(),
            forall|i: int|
                0 <= i < r.caches@.len() ==> {
                    &&& (#[trigger] r.caches@[i])@.shannon_prime is Some == config.enabled
                    &&& r.caches@[i]@ == blank_cache(
                        1,
                        self.cache_shape().0 as nat,
                        max_seq as nat,
                        self.cache_shape().1 as nat,
                        fill,
                        r.caches@[i]@.shannon_prime,
                    )
                    &&& r.caches@[i]@.shannon_prime matches Some(c) ==> same_config(c, config)
                },
    {
        let (n_kv_heads, head_dim) = self.cache_dims();
        LayerCaches::new_preallocated_shannon_prime(
            self.layers.len(),
            1,
            n_kv_heads,
            max_seq,
            head_dim,
            fill,
            config,
        )
    }
}

/// The whole model.
#[derive(Debug)]
pub struct Q4VoxtralModel<C, R, N> {
    pub encoder: Q4AudioEncoder<C, R, N>,
    pub decoder: Q4LanguageModel<R, N>,
    pub adapter: Q4Adapter,
    pub reshape_factor: usize,
    pub shannon_prime: Option<ShannonPrimeConfig>,
    pub decoder_device: Option<ComputeDevice>,
}

impl<C, R, N> Q4VoxtralModel<C, R, N> {
    pub fn new(
        encoder: Q4AudioEncoder<C, R, N>,
        decoder: Q4LanguageModel<R, N>,
        adapter: Q4Adapter,
        reshape_factor: usize,
    ) -> (r: Self)
        ensures
            r == (Q4VoxtralModel {
                encoder,
                decoder,
                adapter,
                reshape_factor,
                shannon_prime: None,
                decoder_device: None,
            }),
    {
        Q4VoxtralModel {
            encoder,
            decoder,
            adapter,
            reshape_factor,
            shannon_prime: None,
            decoder_device: None,
        }
    }

    /// Runs the decoder on a device of its own.
    pub fn set_decoder_device(&mut self, device: ComputeDevice)
        ensures
            *final(self) == (Q4VoxtralModel { decoder_device: Some(device), ..*old(self) }),
    {
        self.decoder_device = Some(device);
    }

    /// Whether the decoder has a device of its own.
    pub fn is_hybrid(&self) -> (r: bool)
        ensures
            r == (self.decoder_device is Some),
    {
        self.decoder_device.is_some()
    }

    /// Compresses the decoder's cache with the default bands.
    pub fn enable_shannon_prime(&mut self, head_dim: usize)
        ensures
            final(self).shannon_prime matches Some(c) && c.enabled && c.head_dim == head_dim
                && c.k_config.n_bands == 4 && c.k_config.band_bits@ == seq![5u8, 5u8, 4u8, 3u8]
                && c.k_config.head_dim == head_dim && c.v_config.n_bands == 1
                && c.v_config.band_bits@ == seq![3u8] && c.v_config.head_dim == head_dim,
            *final(self) == (Q4VoxtralModel {
                shannon_prime: final(self).shannon_prime,
                ..*old(self)
            }),
    {
        self.shannon_prime = Some(ShannonPrimeConfig::new(head_dim));
    }

    /// Compresses the decoder's cache as configured.
    pub fn set_shannon_prime(&mut self, config: ShannonPrimeConfig)
        ensures
            *final(self) == (Q4VoxtralModel { shannon_prime: Some(config), ..*old(self) }),
    {
        self.shannon_prime = Some(config);
    }

    /// Keeps the decoder's cache as it is.
    pub fn disable_shannon_prime(&mut self)
        ensures
            *final(self) == (Q4VoxtralModel { shannon_prime: None, ..*old(self) }),
    {
        self.shannon_prime = None;
    }

    pub fn shannon_prime_config(&self) -> (r: Option<&ShannonPrimeConfig>)
        ensures
            match (r, self.shannon_prime) {
                (Some(a), Some(b)) => *a == b,
                (None, None) => true,
                _ => false,
            },
    {
        match &self.shannon_prime {
            Some(config) => Some(config),
            None => None,
        }
    }

    /// The decoder's caches for a transcription of `seq_len` positions:
    /// pre-allocated, and compressed where that is switched on.
    pub fn decode_caches<T: Copy>(&self, seq_len: usize, fill: T) -> (r: LayerCaches<T>)
        requires
            seq_len * self.decoder.cache_shape().1 <= usize::MAX,
        ensures
            r.wf(),
            r.caches@.len() == self.decoder.layers@.len(),
            forall|i: int|
                0 <= i < r.caches@.len() ==> {
                    &&& (#[trigger] r.caches@[i])@ == blank_cache(
                        1,
                        self.decoder.cache_shape().0 as nat,
                        seq_len as nat,
                        self.decoder.cache_shape().1 as nat,
                        fill,
                        r.caches@[i]@.shannon_prime,
                    )
                    &&& match (r.caches@[i]@.shannon_prime, self.shannon_prime) {
                        (Some(c), Some(config)) => config.enabled && same_config(c, config),
                        (None, Some(config)) => !config.enabled,
                        (None, None) => true,
                        (Some(_), None) => false,
                    }
                },
    {
        match &self.shannon_prime {
            Some(config) => self.decoder.create_cache_preallocated_shannon_prime(
                seq_len,
                fill,
                config.duplicate(),
            ),
            None => self.decoder.create_cache_preallocated(seq_len, fill),
        }
    }

    /// Transcribes `seq_len` encoded audio positions on one device. `predict`
    /// runs the decoder on all inputs so far, each a token at an audio position.
    pub fn transcribe_streaming<P: Fn(&[DecodeInput]) -> i32>(&self, seq_len: usize, predict: P) -> (r:
        Vec<i32>)
        requires
            forall|inputs: &[DecodeInput]| #[trigger] predict.requires((inputs,)),
        ensures
            is_transcript(predict, seq_len as int, r@),
    {
        transcribe(seq_len, &predict)
    }

    /// Transcribes `seq_len` audio positions that were encoded on another device
    /// than the decoder's. The steps are those of
    /// [`transcribe_streaming`](Self::transcribe_streaming).
    pub fn transcribe_streaming_hybrid<P: Fn(&[DecodeInput]) -> i32>(&self, seq_len: usize, predict: P) -> (
    r: Vec<i32>)
        requires
            self.decoder_device is Some,
            forall|inputs: &[DecodeInput]| #[trigger] predict.requires((inputs,)),
        ensures
            is_transcript(predict, seq_len as int, r@),
    {
        transcribe(seq_len, &predict)
    }

    pub fn encoder(&self) -> (r: &Q4AudioEncoder<C, R, N>)
        ensures
            *r == self.encoder,
    {
        &self.encoder
    }

    pub fn decoder(&self) -> (r: &Q4LanguageModel<R, N>)
        ensures
            *r == self.decoder,
    {
        &self.decoder
    }
}

/// The caches fit the layers: as many key/value heads as they have, each as
/// wide; a decoder without layers counts as one with eight heads of ninety-six.
pub proof fn lemma_caches_fit_the_layers<R, N>(model: Q4LanguageModel<R, N>)
    ensures
        model.layers@.len() > 0 ==> model.cache_shape().0 == model.layers@[0].attention.n_kv_heads
            && model.cache_shape().1 == model.layers@[0].attention.head_dim,
        model.layers@.len() == 0 ==> model.cache_shape().0 == 8 && model.cache_shape().1 == 96,
{
}

} // verus!

//! The decoder: sizes, the plan of a layer, weight names, token choice.

use crate::audio::chunks::{append_all, copy_range};
use crate::l0::decode::{
    is_pow2, is_slice_roundtrip, vht2_compress_slice, L0DecodeConfig, MatmulShape,
};
use crate::l0::usm::{
    elements, lanes, lanes_written, layer_lane, lemma_read_after_write, vector_at, write_lanes,
    UsmKvCache,
};
use crate::models::layers::shannon_prime::{
    codec_ok, map_vectors, vector_fits, vector_mapped, vector_of, vectors_related, BandConfig,
};
use crate::text::{decimal, decimal_text, lemma_decimal_stands_for_its_number};
use vstd::prelude::*;

verus! {

/// Sizes of a decoder.
#[derive(Debug, Clone, Copy)]
pub struct DecoderConfig {
    pub n_layers: usize,
    pub hidden_dim: usize,
    pub q_heads: usize,
    pub kv_heads: usize,
    pub head_dim: usize,
    pub ffn_dim: usize,
    pub vocab_size: usize,
    pub max_seq_len: usize,
    /// Base of the rotary embedding, as the bits of a single-precision number.
    pub rope_theta_bits: u32,
}

/// One million in single precision.
pub const ROPE_THETA_BITS: u32 = 0x4974_2400;

/// Bytes of a quantised matrix.
pub open spec fn matrix_bytes(rows: int, cols: int) -> int {
    rows * (cols / 32) * 18
}

/// Bytes of one layer's quantised weights.
pub open spec fn layer_bytes(c: DecoderConfig) -> int {
    let q = c.q_heads * c.head_dim;
    let kv = c.kv_heads * c.head_dim;
    matrix_bytes(q, c.hidden_dim as int) + matrix_bytes(kv, c.hidden_dim as int) + matrix_bytes(
        kv,
        c.hidden_dim as int,
    ) + matrix_bytes(c.hidden_dim as int, q) + matrix_bytes(
        c.ffn_dim as int,
        c.hidden_dim as int,
    ) + matrix_bytes(c.ffn_dim as int, c.hidden_dim as int) + matrix_bytes(
        c.hidden_dim as int,
        c.ffn_dim as int,
    )
}

/// Bytes of all quantised weights: layers, output head, token embeddings.
pub open spec fn model_bytes(c: DecoderConfig) -> int {
    layer_bytes(c) * c.n_layers + matrix_bytes(c.vocab_size as int, c.hidden_dim as int)
        + matrix_bytes(c.vocab_size as int, c.hidden_dim as int)
}

fn blocks(rows: usize, cols: usize) -> (r: usize)
    requires
        matrix_bytes(rows as int, cols as int) <= usize::MAX,
    ensures
        r == matrix_bytes(rows as int, cols as int),
{
    proof {
        let per = (cols / 32) as int;
        assert(0 <= rows * per && rows * per <= rows * per * 18) by (nonlinear_arith)
            requires
                rows >= 0,
                per >= 0,
        ;
    }
    rows * (cols / 32) * 18
}

proof fn lemma_matrix_bytes_nonnegative(rows: int, cols: int)
    requires
        rows >= 0,
        cols >= 0,
    ensures
        matrix_bytes(rows, cols) >= 0,
{
    let per = cols / 32;
    assert(rows * per * 18 >= 0) by (nonlinear_arith)
        requires
            rows >= 0,
            per >= 0,
    ;
}

impl DecoderConfig {
    /// The sizes of the small model.
    pub fn voxtral_mini() -> (r: Self)
        ensures
            r == (DecoderConfig {
                n_layers: 26,
                hidden_dim: 3072,
                q_heads: 32,
                kv_heads: 8,
                head_dim: 96,
                ffn_dim: 8192,
                vocab_size: 131072,
                max_seq_len: 8192,
                rope_theta_bits: ROPE_THETA_BITS,
            }),
    {
        DecoderConfig {
            n_layers: 26,
            hidden_dim: 3072,
            q_heads: 32,
            kv_heads: 8,
            head_dim: 96,
            ffn_dim: 8192,
            vocab_size: 131072,
            max_seq_len: 8192,
            rope_theta_bits: ROPE_THETA_BITS,
        }
    }

    /// Query heads per key/value head.
    pub fn gqa_groups(&self) -> (r: usize)
        requires
            self.kv_heads > 0,
        ensures
            r == self.q_heads / self.kv_heads,
    {
        self.q_heads / self.kv_heads
    }

    /// The key/value head that serves a query head.
    pub fn kv_head_of(&self, q_head: usize) -> (r: usize)
        requires
            self.kv_heads > 0,
            self.q_heads >= self.kv_heads,
        ensures
            r == q_head / (self.q_heads / self.kv_heads),
    {
        proof {
            assert(self.q_heads / self.kv_heads >= 1) by (nonlinear_arith)
                requires
                    self.kv_heads > 0,
                    self.q_heads >= self.kv_heads,
            ;
        }
        q_head / self.gqa_groups()
    }

    /// Bytes of one layer's quantised weights.
    pub fn layer_weight_bytes(&self) -> (r: usize)
        requires
            self.q_heads * self.head_dim <= usize::MAX,
            self.kv_heads * self.head_dim <= usize::MAX,
            layer_bytes(*self) <= usize::MAX,
        ensures
            r == layer_bytes(*self),
    {
        proof {
            assert(0 <= self.q_heads * self.head_dim && 0 <= self.kv_heads * self.head_dim)
                by (nonlinear_arith)
                requires
                    self.q_heads >= 0,
                    self.kv_heads >= 0,
                    self.head_dim >= 0,
            ;
            let q = self.q_heads * self.head_dim;
            let kv = self.kv_heads * self.head_dim;
            lemma_matrix_bytes_nonnegative(q, self.hidden_dim as int);
            lemma_matrix_bytes_nonnegative(kv, self.hidden_dim as int);
            lemma_matrix_bytes_nonnegative(self.hidden_dim as int, q);
            lemma_matrix_bytes_nonnegative(self.ffn_dim as int, self.hidden_dim as int);
            lemma_matrix_bytes_nonnegative(self.hidden_dim as int, self.ffn_dim as int);
        }
        let q_dim: usize = self.q_heads * self.head_dim;
        let kv_dim: usize = self.kv_heads * self.head_dim;
        let q: usize = blocks(q_dim, self.hidden_dim);
        let k: usize = blocks(kv_dim, self.hidden_dim);
        let v: usize = blocks(kv_dim, self.hidden_dim);
        let o: usize = blocks(self.hidden_dim, q_dim);
        let gate: usize = blocks(self.ffn_dim, self.hidden_dim);
        let up: usize = blocks(self.ffn_dim, self.hidden_dim);
        let down: usize = blocks(self.hidden_dim, self.ffn_dim);
        q + k + v + o + gate + up + down
    }

    /// Bytes of all quantised weights.
    pub fn total_weight_bytes(&self) -> (r: usize)
        requires
            self.q_heads * self.head_dim <= usize::MAX,
            self.kv_heads * self.head_dim <= usize::MAX,
            layer_bytes(*self) <= usize::MAX,
            model_bytes(*self) <= usize::MAX,
        ensures
            r == model_bytes(*self),
    {
        let per_layer: usize = self.layer_weight_bytes();
        proof {
            lemma_matrix_bytes_nonnegative(self.vocab_size as int, self.hidden_dim as int);
            assert(0 <= per_layer * self.n_layers) by (nonlinear_arith)
                requires
                    per_layer >= 0,
                    self.n_layers >= 0,
            ;
        }
        let lm_head: usize = blocks(self.vocab_size, self.hidden_dim);
        let tok_embed: usize = blocks(self.vocab_size, self.hidden_dim);
        per_layer * self.n_layers + lm_head + tok_embed
    }

    /// The cache that holds all layers: one lane per layer and head.
    pub fn decode_config(&self, band_config: BandConfig) -> (r: L0DecodeConfig)
        requires
            self.n_layers * self.kv_heads <= usize::MAX,
        ensures
            r.batch == 1,
            r.kv_heads == self.n_layers * self.kv_heads,
            r.max_seq_len == self.max_seq_len,
            r.head_dim == self.head_dim,
            r.band_config == band_config,
    {
        proof {
            assert(0 <= self.n_layers * self.kv_heads) by (nonlinear_arith)
                requires
                    self.n_layers >= 0,
                    self.kv_heads >= 0,
            ;
        }
        L0DecodeConfig {
            batch: 1,
            kv_heads: self.n_layers * self.kv_heads,
            max_seq_len: self.max_seq_len,
            head_dim: self.head_dim,
            band_config,
        }
    }
}

/// Every query head is served by a key/value head, and each of those serves
/// the same number of query heads.
pub proof fn lemma_heads_are_served(c: DecoderConfig, q_head: int)
    requires
        c.kv_heads > 0,
        c.q_heads > 0,
        c.q_heads % c.kv_heads == 0,
        0 <= q_head < c.q_heads,
    ensures
        0 <= q_head / (c.q_heads as int / c.kv_heads as int) < c.kv_heads,
{
    let g = c.q_heads as int / c.kv_heads as int;
    let kv = c.kv_heads as int;
    vstd::arithmetic::div_mod::lemma_fundamental_div_mod(c.q_heads as int, kv);
    assert(g > 0) by (nonlinear_arith)
        requires
            c.q_heads > 0,
            c.q_heads == kv * g,
            kv > 0,
    ;
    let r = q_head / g;
    vstd::arithmetic::div_mod::lemma_fundamental_div_mod(q_head, g);
    assert(0 <= r < kv) by (nonlinear_arith)
        requires
            q_head == g * r + q_head % g,
            0 <= q_head % g < g,
            0 <= q_head < kv * g,
            g > 0,
    ;
}

// ---------------------------------------------------------------------------
// Plan of a layer
// ---------------------------------------------------------------------------

/// The weights of a layer.
#[derive(Debug, Clone, Copy, PartialEq, Eq, Structural)]
pub enum Weight {
    Q,
    K,
    V,
    O,
    Gate,
    Up,
    Down,
}

/// A product with one of the layer's weights.
#[derive(Debug, Clone, Copy, PartialEq, Eq, Structural)]
pub struct Projection {
    pub weight: Weight,
    pub shape: MatmulShape,
}

/// One step of a layer.
#[derive(Debug)]
pub enum LayerStep {
    /// Normalise the hidden state for attention.
    AttentionNorm,
    /// Products submitted together, with one wait at the end.
    Project(Vec<Projection>),
    /// Rotate queries and keys to their position.
    Rotate,
    /// Write keys and values into the cache.
    StoreKv,
    /// Attention over the cache.
    Attend,
    /// Add the result to the hidden state.
    AddResidual,
    /// Normalise the hidden state for the feed-forward block.
    FfnNorm,
    /// Gate the two feed-forward products.
    Activate,
}

/// The steps of a layer, without the vectors that hold them.
pub enum StepModel {
    AttentionNorm,
    Project(Seq<Projection>),
    Rotate,
    StoreKv,
    Attend,
    AddResidual,
    FfnNorm,
    Activate,
}

pub open spec fn step_model(s: LayerStep) -> StepModel {
    match s {
        LayerStep::AttentionNorm => StepModel::AttentionNorm,
        LayerStep::Project(p) => StepModel::Project(p@),
        LayerStep::Rotate => StepModel::Rotate,
        LayerStep::StoreKv => StepModel::StoreKv,
        LayerStep::Attend => StepModel::Attend,
        LayerStep::AddResidual => StepModel::AddResidual,
        LayerStep::FfnNorm => StepModel::FfnNorm,
        LayerStep::Activate => StepModel::Activate,
    }
}

/// The product of one hidden state with a weight of `n` rows and `k` columns.
pub open spec fn projection(weight: Weight, k: int, n: int) -> Projection {
    Projection { weight, shape: MatmulShape { b: 1, m: 1, k: k as u32, n: n as u32 } }
}

/// The steps of a layer: attention and feed-forward, each with its residual.
/// Products that read the same input are submitted together.
pub open spec fn layer_steps(c: DecoderConfig) -> Seq<StepModel> {
    let h = c.hidden_dim as int;
    let q = c.q_heads * c.head_dim;
    let kv = c.kv_heads * c.head_dim;
    let f = c.ffn_dim as int;
    seq![
        StepModel::AttentionNorm,
        StepModel::Project(
            seq![
                projection(Weight::Q, h, q),
                projection(Weight::K, h, kv),
                projection(Weight::V, h, kv),
            ],
        ),
        StepModel::Rotate,
        StepModel::StoreKv,
        StepModel::Attend,
        StepModel::Project(seq![projection(Weight::O, q, h)]),
        StepModel::AddResidual,
        StepModel::FfnNorm,
        StepModel::Project(seq![projection(Weight::Gate, h, f), projection(Weight::Up, h, f)]),
        StepModel::Activate,
        StepModel::Project(seq![projection(Weight::Down, f, h)]),
        StepModel::AddResidual,
    ]
}

/// The steps a decoder layer consists of.
pub fn decode_layer(c: &DecoderConfig) -> (r: Vec<LayerStep>)
    requires
        c.hidden_dim <= u32::MAX,
        c.q_heads * c.head_dim <= u32::MAX,
        c.kv_heads * c.head_dim <= u32::MAX,
        c.ffn_dim <= u32::MAX,
    ensures
        r@.map_values(|s: LayerStep| step_model(s)) == layer_steps(*c),
{
    proof {
        assert(0 <= c.q_heads * c.head_dim && 0 <= c.kv_heads * c.head_dim) by (nonlinear_arith)
            requires
                c.q_heads >= 0,
                c.kv_heads >= 0,
                c.head_dim >= 0,
        ;
    }
    let h: u32 = c.hidden_dim as u32;
    let q: u32 = (c.q_heads * c.head_dim) as u32;
    let kv: u32 = (c.kv_heads * c.head_dim) as u32;
    let f: u32 = c.ffn_dim as u32;
    let mut qkv: Vec<Projection> = Vec::new();
    qkv.push(Projection { weight: Weight::Q, shape: MatmulShape { b: 1, m: 1, k: h, n: q } });
    qkv.push(Projection { weight: Weight::K, shape: MatmulShape { b: 1, m: 1, k: h, n: kv } });
    qkv.push(Projection { weight: Weight::V, shape: MatmulShape { b: 1, m: 1, k: h, n: kv } });
    let mut o: Vec<Projection> = Vec::new();
    o.push(Projection { weight: Weight::O, shape: MatmulShape { b: 1, m: 1, k: q, n: h } });
    let mut ff: Vec<Projection> = Vec::new();
    ff.push(Projection { weight: Weight::Gate, shape: MatmulShape { b: 1, m: 1, k: h, n: f } });
    ff.push(Projection { weight: Weight::Up, shape: MatmulShape { b: 1, m: 1, k: h, n: f } });
    let mut down: Vec<Projection> = Vec::new();
    down.push(Projection { weight: Weight::Down, shape: MatmulShape { b: 1, m: 1, k: f, n: h } });
    proof {
        let hh = c.hidden_dim as int;
        let qq = c.q_heads * c.head_dim;
        let kk = c.kv_heads * c.head_dim;
        let fff = c.ffn_dim as int;
        assert(qkv@ =~= seq![
            projection(Weight::Q, hh, qq),
            projection(Weight::K, hh, kk),
            projection(Weight::V, hh, kk),
        ]);
        assert(o@ =~= seq![projection(Weight::O, qq, hh)]);
        assert(ff@ =~= seq![projection(Weight::Gate, hh, fff), projection(Weight::Up, hh, fff)]);
        assert(down@ =~= seq![projection(Weight::Down, fff, hh)]);
    }
    let mut r: Vec<LayerStep> = Vec::new();
    r.push(LayerStep::AttentionNorm);
    r.push(LayerStep::Project(qkv));
    r.push(LayerStep::Rotate);
    r.push(LayerStep::StoreKv);
    r.push(LayerStep::Attend);
    r.push(LayerStep::Project(o));
    r.push(LayerStep::AddResidual);
    r.push(LayerStep::FfnNorm);
    r.push(LayerStep::Project(ff));
    r.push(LayerStep::Activate);
    r.push(LayerStep::Project(down));
    r.push(LayerStep::AddResidual);
    assert(r@.map_values(|s: LayerStep| step_model(s)) =~= layer_steps(*c));
    r
}

/// What the steps of a layer read and write.
#[derive(Debug, Clone, Copy, PartialEq, Eq, Structural, Hash)]
pub enum LayerBuffer {
    /// The hidden state, from one layer to the next.
    Hidden,
    /// The normalised hidden state.
    Normed,
    Query,
    Key,
    Value,
    /// The keys and values of all positions so far.
    Cache,
    /// What attention gives.
    Attended,
    /// A product that is added to the hidden state.
    Projected,
    Gate,
    Up,
    /// The gated feed-forward product.
    Activated,
}

/// A step of a layer with what it reads and writes. The products of a step each
/// read the one input and write the outputs in turn.
#[derive(Debug)]
pub struct PlannedStep {
    pub step: LayerStep,
    pub reads: Vec<LayerBuffer>,
    pub writes: Vec<LayerBuffer>,
}

/// What each step of a layer reads and writes.
pub open spec fn layer_flow() -> Seq<(Seq<LayerBuffer>, Seq<LayerBuffer>)> {
    seq![
        (seq![LayerBuffer::Hidden], seq![LayerBuffer::Normed]),
        (seq![LayerBuffer::Normed], seq![LayerBuffer::Query, LayerBuffer::Key, LayerBuffer::Value]),
        (seq![LayerBuffer::Query, LayerBuffer::Key], seq![LayerBuffer::Query, LayerBuffer::Key]),
        (seq![LayerBuffer::Key, LayerBuffer::Value], seq![LayerBuffer::Cache]),
        (seq![LayerBuffer::Query, LayerBuffer::Cache], seq![LayerBuffer::Attended]),
        (seq![LayerBuffer::Attended], seq![LayerBuffer::Projected]),
        (seq![LayerBuffer::Hidden, LayerBuffer::Projected], seq![LayerBuffer::Hidden]),
        (seq![LayerBuffer::Hidden], seq![LayerBuffer::Normed]),
        (seq![LayerBuffer::Normed], seq![LayerBuffer::Gate, LayerBuffer::Up]),
        (seq![LayerBuffer::Gate, LayerBuffer::Up], seq![LayerBuffer::Activated]),
        (seq![LayerBuffer::Activated], seq![LayerBuffer::Projected]),
        (seq![LayerBuffer::Hidden, LayerBuffer::Projected], seq![LayerBuffer::Hidden]),
    ]
}

/// What step `i` of a layer reads and writes.
fn step_flow(i: usize) -> (r: (Vec<LayerBuffer>, Vec<LayerBuffer>))
    requires
        i < 12,
    ensures
        r.0@ == layer_flow()[i as int].0,
        r.1@ == layer_flow()[i as int].1,
{
    let r = match i {
        0 => (
            vec![LayerBuffer::Hidden],
            vec![LayerBuffer::Normed],
        ),
        1 => (
            vec![LayerBuffer::Normed],
            vec![LayerBuffer::Query, LayerBuffer::Key, LayerBuffer::Value],
        ),
        2 => (
            vec![LayerBuffer::Query, LayerBuffer::Key],
            vec![LayerBuffer::Query, LayerBuffer::Key],
        ),
        3 => (
            vec![LayerBuffer::Key, LayerBuffer::Value],
            vec![LayerBuffer::Cache],
        ),
        4 => (
            vec![LayerBuffer::Query, LayerBuffer::Cache],
            vec![LayerBuffer::Attended],
        ),
        5 => (
            vec![LayerBuffer::Attended],
            vec![LayerBuffer::Projected],
        ),
        6 => (
            vec![LayerBuffer::Hidden, LayerBuffer::Projected],
            vec![LayerBuffer::Hidden],
        ),
        7 => (
            vec![LayerBuffer::Hidden],
            vec![LayerBuffer::Normed],
        ),
        8 => (
            vec![LayerBuffer::Normed],
            vec![LayerBuffer::Gate, LayerBuffer::Up],
        ),
        9 => (
            vec![LayerBuffer::Gate, LayerBuffer::Up],
            vec![LayerBuffer::Activated],
        ),
        10 => (
            vec![LayerBuffer::Activated],
            vec![LayerBuffer::Projected],
        ),
        _ => (
            vec![LayerBuffer::Hidden, LayerBuffer::Projected],
            vec![LayerBuffer::Hidden],
        ),
    };
    assert(r.0@ =~= layer_flow()[i as int].0);
    assert(r.1@ =~= layer_flow()[i as int].1);
    r
}

/// The steps a decoder layer consists of, with what each reads and writes.
pub fn plan_layer(c: &DecoderConfig) -> (r: Vec<PlannedStep>)
    requires
        c.hidden_dim <= u32::MAX,
        c.q_heads * c.head_dim <= u32::MAX,
        c.kv_heads * c.head_dim <= u32::MAX,
        c.ffn_dim <= u32::MAX,
    ensures
        r@.map_values(|s: PlannedStep| step_model(s.step)) == layer_steps(*c),
        r@.map_values(|s: PlannedStep| (s.reads@, s.writes@)) == layer_flow(),
{
    let mut steps = decode_layer(c);
    let ghost all = steps@;
    let mut back: Vec<PlannedStep> = Vec::new();
    let mut i: usize = 12;
    proof {
        assert(all.map_values(|s: LayerStep| step_model(s)).len() == layer_steps(*c).len());
        assert(all.take(12) =~= all);
    }
    while i > 0
        invariant
            i <= 12,
            all.len() == 12,
            steps@ == all.take(i as int),
            back@.len() == 12 - i,
            forall|k: int|
                0 <= k < back@.len() ==> {
                    &&& (#[trigger] back@[k]).step == all[11 - k]
                    &&& back@[k].reads@ == layer_flow()[11 - k].0
                    &&& back@[k].writes@ == layer_flow()[11 - k].1
                },
        decreases i,
    {
        i = i - 1;
        let (reads, writes) = step_flow(i);
        match steps.pop() {
            Some(step) => {
                back.push(PlannedStep { step, reads, writes });
            },
            None => {},
        }
        assert(all.take(i + 1).drop_last() =~= all.take(i as int));
    }
    let mut plan: Vec<PlannedStep> = Vec::new();
    let ghost turned = back@;
    let mut left: usize = 12;
    while left > 0
        invariant
            left <= 12,
            all.len() == 12,
            turned.len() == 12,
            back@ == turned.take(left as int),
            plan@.len() == 12 - left,
            forall|k: int| 0 <= k < plan@.len() ==> #[trigger] plan@[k] == turned[11 - k],
        decreases left,
    {
        left = left - 1;
        match back.pop() {
            Some(step) => {
                plan.push(step);
            },
            None => {},
        }
        assert(turned.take(left + 1).drop_last() =~= turned.take(left as int));
    }
    proof {
        assert forall|k: int| 0 <= k < 12 implies {
            &&& (#[trigger] plan@[k]).step == all[k]
            &&& plan@[k].reads@ == layer_flow()[k].0
            &&& plan@[k].writes@ == layer_flow()[k].1
        } by {
            assert(plan@[k] == turned[11 - k]);
        }
        assert(plan@.map_values(|s: PlannedStep| step_model(s.step)) =~= layer_steps(*c)) by {
            assert forall|k: int| 0 <= k < 12 implies #[trigger] step_model(plan@[k].step)
                == layer_steps(*c)[k] by {
                assert(all.map_values(|s: LayerStep| step_model(s))[k] == layer_steps(*c)[k]);
            }
        }
        assert(plan@.map_values(|s: PlannedStep| (s.reads@, s.writes@)) =~= layer_flow());
    }
    plan
}

/// What a step of a layer reads was there before the layer, or was written by
/// an earlier step of it; and a step with products writes one buffer for each.
pub proof fn lemma_layer_reads_what_was_written(c: DecoderConfig, i: int, b: LayerBuffer)
    requires
        0 <= i < layer_steps(c).len(),
        layer_flow()[i].0.contains(b),
    ensures
        b == LayerBuffer::Hidden || exists|j: int|
            0 <= j < i && (#[trigger] layer_flow()[j]).1.contains(b),
        layer_steps(c)[i] matches StepModel::Project(p) ==> layer_flow()[i].1.len() == p.len(),
{
    let f = layer_flow();
    assert(f[0].1[0] == LayerBuffer::Normed);
    assert(f[1].1[0] == LayerBuffer::Query && f[1].1[1] == LayerBuffer::Key && f[1].1[2]
        == LayerBuffer::Value);
    assert(f[3].1[0] == LayerBuffer::Cache);
    assert(f[4].1[0] == LayerBuffer::Attended);
    assert(f[5].1[0] == LayerBuffer::Projected);
    assert(f[8].1[0] == LayerBuffer::Gate && f[8].1[1] == LayerBuffer::Up);
    assert(f[9].1[0] == LayerBuffer::Activated);
}

/// What a buffer holds, as an expression over what the buffers held before the
/// layer.
pub enum LayerTerm {
    /// What the buffer held before the layer.
    Initial(LayerBuffer),
    AttentionNorm(Box<LayerTerm>),
    FfnNorm(Box<LayerTerm>),
    /// A product with a weight.
    Product(Weight, Box<LayerTerm>),
    /// Rotated to the position.
    Rotated(Box<LayerTerm>),
    /// A cache with keys and values added.
    Extended(Box<LayerTerm>, Box<LayerTerm>, Box<LayerTerm>),
    /// Attention of queries over a cache.
    Attended(Box<LayerTerm>, Box<LayerTerm>),
    Sum(Box<LayerTerm>, Box<LayerTerm>),
    /// The first, gated, times the second.
    Gated(Box<LayerTerm>, Box<LayerTerm>),
}

/// What a step makes of its inputs; `cache` is the cache before it.
pub open spec fn step_outputs(
    step: StepModel,
    inputs: Seq<LayerTerm>,
    cache: LayerTerm,
) -> Seq<LayerTerm> {
    match step {
        StepModel::AttentionNorm => seq![LayerTerm::AttentionNorm(Box::new(inputs[0]))],
        StepModel::FfnNorm => seq![LayerTerm::FfnNorm(Box::new(inputs[0]))],
        StepModel::Project(p) => Seq::new(
            p.len(),
            |i: int| LayerTerm::Product(p[i].weight, Box::new(inputs[0])),
        ),
        StepModel::Rotate => Seq::new(
            inputs.len(),
            |i: int| LayerTerm::Rotated(Box::new(inputs[i])),
        ),
        StepModel::StoreKv => seq![
            LayerTerm::Extended(Box::new(cache), Box::new(inputs[0]), Box::new(inputs[1])),
        ],
        StepModel::Attend => seq![
            LayerTerm::Attended(Box::new(inputs[0]), Box::new(inputs[1])),
        ],
        StepModel::AddResidual => seq![LayerTerm::Sum(Box::new(inputs[0]), Box::new(inputs[1]))],
        StepModel::Activate => seq![LayerTerm::Gated(Box::new(inputs[0]), Box::new(inputs[1]))],
    }
}

/// What the buffers hold after the first `n` steps of a layer.
pub open spec fn held_after(c: DecoderConfig, n: nat, b: LayerBuffer) -> LayerTerm
    decreases n,
{
    if n == 0 {
        LayerTerm::Initial(b)
    } else {
        let m = (n - 1) as nat;
        let (reads, writes) = layer_flow()[m as int];
        let outputs = step_outputs(
            layer_steps(c)[m as int],
            Seq::new(reads.len(), |i: int| held_after(c, m, reads[i])),
            held_after(c, m, LayerBuffer::Cache),
        );
        if writes.contains(b) {
            outputs[writes.index_of(b)]
        } else {
            held_after(c, m, b)
        }
    }
}

/// What a layer computes. With `h` the hidden state before it and
/// `a = norm(h)`, the cache gets the rotated keys `K a` and the values `V a`;
/// the hidden state becomes `g = h + O attend(rotated Q a, cache)`, and from
/// that, with `f = norm(g)`, `g + Down (gate(Gate f) * Up f)`.
pub proof fn lemma_layer_computes(c: DecoderConfig)
    ensures
        ({
            let h = LayerTerm::Initial(LayerBuffer::Hidden);
            let a = LayerTerm::AttentionNorm(Box::new(h));
            let q = LayerTerm::Rotated(Box::new(LayerTerm::Product(Weight::Q, Box::new(a))));
            let k = LayerTerm::Rotated(Box::new(LayerTerm::Product(Weight::K, Box::new(a))));
            let v = LayerTerm::Product(Weight::V, Box::new(a));
            let cache = LayerTerm::Extended(
                Box::new(LayerTerm::Initial(LayerBuffer::Cache)),
                Box::new(k),
                Box::new(v),
            );
            let seen = LayerTerm::Attended(Box::new(q), Box::new(cache));
            let g = LayerTerm::Sum(
                Box::new(h),
                Box::new(LayerTerm::Product(Weight::O, Box::new(seen))),
            );
            let f = LayerTerm::FfnNorm(Box::new(g));
            let gated = LayerTerm::Gated(
                Box::new(LayerTerm::Product(Weight::Gate, Box::new(f))),
                Box::new(LayerTerm::Product(Weight::Up, Box::new(f))),
            );
            &&& layer_steps(c).len() == 12
            &&& layer_flow().len() == 12
            &&& held_after(c, 12, LayerBuffer::Cache) == cache
            &&& held_after(c, 12, LayerBuffer::Hidden) == LayerTerm::Sum(
                Box::new(g),
                Box::new(LayerTerm::Product(Weight::Down, Box::new(gated))),
            )
        }),
{
    let h = LayerTerm::Initial(LayerBuffer::Hidden);
    let a = LayerTerm::AttentionNorm(Box::new(h));
    let wq = LayerTerm::Product(Weight::Q, Box::new(a));
    let wk = LayerTerm::Product(Weight::K, Box::new(a));
    let v = LayerTerm::Product(Weight::V, Box::new(a));
    let q = LayerTerm::Rotated(Box::new(wq));
    let k = LayerTerm::Rotated(Box::new(wk));
    let cache0 = LayerTerm::Initial(LayerBuffer::Cache);
    let cache = LayerTerm::Extended(Box::new(cache0), Box::new(k), Box::new(v));
    let seen = LayerTerm::Attended(Box::new(q), Box::new(cache));
    let o = LayerTerm::Product(Weight::O, Box::new(seen));
    let g = LayerTerm::Sum(Box::new(h), Box::new(o));
    let f = LayerTerm::FfnNorm(Box::new(g));
    let gate = LayerTerm::Product(Weight::Gate, Box::new(f));
    let up = LayerTerm::Product(Weight::Up, Box::new(f));
    let gated = LayerTerm::Gated(Box::new(gate), Box::new(up));
    let fl = layer_flow();
    lemma_held(c, 0);
    assert(fl[0].1[0] == LayerBuffer::Normed);
    assert(held_after(c, 1, LayerBuffer::Normed) == a);
    assert(held_after(c, 1, LayerBuffer::Hidden) == h);
    assert(held_after(c, 1, LayerBuffer::Cache) == cache0);
    lemma_held(c, 1);
    assert(fl[1].1[0] == LayerBuffer::Query && fl[1].1[1] == LayerBuffer::Key && fl[1].1[2]
        == LayerBuffer::Value);
    assert(held_after(c, 2, LayerBuffer::Query) == wq);
    assert(held_after(c, 2, LayerBuffer::Key) == wk);
    assert(held_after(c, 2, LayerBuffer::Value) == v);
    assert(held_after(c, 2, LayerBuffer::Hidden) == h);
    assert(held_after(c, 2, LayerBuffer::Cache) == cache0);
    lemma_held(c, 2);
    assert(fl[2].1[0] == LayerBuffer::Query && fl[2].1[1] == LayerBuffer::Key);
    assert(held_after(c, 3, LayerBuffer::Query) == q);
    assert(held_after(c, 3, LayerBuffer::Key) == k);
    assert(held_after(c, 3, LayerBuffer::Value) == v);
    assert(held_after(c, 3, LayerBuffer::Hidden) == h);
    assert(held_after(c, 3, LayerBuffer::Cache) == cache0);
    lemma_held(c, 3);
    assert(fl[3].1[0] == LayerBuffer::Cache);
    assert(held_after(c, 4, LayerBuffer::Cache) == cache);
    assert(held_after(c, 4, LayerBuffer::Query) == q);
    assert(held_after(c, 4, LayerBuffer::Hidden) == h);
    lemma_held(c, 4);
    assert(fl[4].1[0] == LayerBuffer::Attended);
    assert(held_after(c, 5, LayerBuffer::Attended) == seen);
    assert(held_after(c, 5, LayerBuffer::Hidden) == h);
    assert(held_after(c, 5, LayerBuffer::Cache) == cache);
    lemma_held(c, 5);
    assert(fl[5].1[0] == LayerBuffer::Projected);
    assert(held_after(c, 6, LayerBuffer::Projected) == o);
    assert(held_after(c, 6, LayerBuffer::Hidden) == h);
    assert(held_after(c, 6, LayerBuffer::Cache) == cache);
    lemma_held(c, 6);
    assert(fl[6].1[0] == LayerBuffer::Hidden);
    assert(held_after(c, 7, LayerBuffer::Hidden) == g);
    assert(held_after(c, 7, LayerBuffer::Cache) == cache);
    lemma_held(c, 7);
    assert(fl[7].1[0] == LayerBuffer::Normed);
    assert(held_after(c, 8, LayerBuffer::Normed) == f);
    assert(held_after(c, 8, LayerBuffer::Hidden) == g);
    assert(held_after(c, 8, LayerBuffer::Cache) == cache);
    lemma_held(c, 8);
    assert(fl[8].1[0] == LayerBuffer::Gate && fl[8].1[1] == LayerBuffer::Up);
    assert(held_after(c, 9, LayerBuffer::Gate) == gate);
    assert(held_after(c, 9, LayerBuffer::Up) == up);
    assert(held_after(c, 9, LayerBuffer::Hidden) == g);
    assert(held_after(c, 9, LayerBuffer::Cache) == cache);
    lemma_held(c, 9);
    assert(fl[9].1[0] == LayerBuffer::Activated);
    assert(held_after(c, 10, LayerBuffer::Activated) == gated);
    assert(held_after(c, 10, LayerBuffer::Hidden) == g);
    assert(held_after(c, 10, LayerBuffer::Cache) == cache);
    lemma_held(c, 10);
    assert(fl[10].1[0] == LayerBuffer::Projected);
    assert(held_after(c, 11, LayerBuffer::Projected) == LayerTerm::Product(
        Weight::Down,
        Box::new(gated),
    ));
    assert(held_after(c, 11, LayerBuffer::Hidden) == g);
    assert(held_after(c, 11, LayerBuffer::Cache) == cache);
    lemma_held(c, 11);
    assert(fl[11].1[0] == LayerBuffer::Hidden);
}

/// What one step changes.
proof fn lemma_held(c: DecoderConfig, m: nat)
    requires
        m < 12,
    ensures
        ({
            let (reads, writes) = layer_flow()[m as int];
            let outputs = step_outputs(
                layer_steps(c)[m as int],
                Seq::new(reads.len(), |i: int| held_after(c, m, reads[i])),
                held_after(c, m, LayerBuffer::Cache),
            );
            &&& forall|i: int|
                0 <= i < writes.len() ==> held_after(c, m + 1, #[trigger] writes[i]) == outputs[i]
            &&& forall|b: LayerBuffer|
                !writes.contains(b) ==> #[trigger] held_after(c, m + 1, b) == held_after(c, m, b)
        }),
{
    let (reads, writes) = layer_flow()[m as int];
    assert forall|i: int| 0 <= i < writes.len() implies writes.contains(#[trigger] writes[i])
        && writes.index_of(writes[i]) == i by {
        let j = writes.index_of(writes[i]);
        assert(0 <= j < writes.len() && writes[j] == writes[i]);
    }
}

/// How many numbers a buffer of one token holds.
pub open spec fn buffer_width(c: DecoderConfig, b: LayerBuffer) -> int {
    match b {
        LayerBuffer::Hidden => c.hidden_dim as int,
        LayerBuffer::Normed => c.hidden_dim as int,
        LayerBuffer::Projected => c.hidden_dim as int,
        LayerBuffer::Query => c.q_heads * c.head_dim,
        LayerBuffer::Attended => c.q_heads * c.head_dim,
        LayerBuffer::Key => c.kv_heads * c.head_dim,
        LayerBuffer::Value => c.kv_heads * c.head_dim,
        LayerBuffer::Gate => c.ffn_dim as int,
        LayerBuffer::Up => c.ffn_dim as int,
        LayerBuffer::Activated => c.ffn_dim as int,
        LayerBuffer::Cache => 2 * c.kv_heads * c.head_dim,
    }
}

/// Every product fits its buffers: it takes one token, as many numbers as the
/// buffer it reads holds, and gives as many as the buffer it writes holds.
pub proof fn lemma_products_fit_their_buffers(c: DecoderConfig, i: int, j: int)
    requires
        0 <= i < layer_steps(c).len(),
        layer_steps(c)[i] is Project,
        0 <= j < layer_steps(c)[i]->Project_0.len(),
        c.hidden_dim <= u32::MAX,
        c.q_heads * c.head_dim <= u32::MAX,
        c.kv_heads * c.head_dim <= u32::MAX,
        c.ffn_dim <= u32::MAX,
    ensures
        ({
            let shape = layer_steps(c)[i]->Project_0[j].shape;
            &&& shape.b == 1
            &&& shape.m == 1
            &&& shape.k == buffer_width(c, layer_flow()[i].0[0])
            &&& shape.n == buffer_width(c, layer_flow()[i].1[j])
        }),
{
    assert(0 <= c.q_heads * c.head_dim && 0 <= c.kv_heads * c.head_dim) by (nonlinear_arith)
        requires
            c.q_heads >= 0,
            c.kv_heads >= 0,
            c.head_dim >= 0,
    ;
}

/// Number of submissions among the steps.
pub open spec fn submissions(steps: Seq<StepModel>) -> int
    decreases steps.len(),
{
    if steps.len() == 0 {
        0
    } else {
        submissions(steps.drop_last()) + if steps.last() is Project {
            1int
        } else {
            0
        }
    }
}

/// A layer waits for the device four times, and no submission holds more
/// products than kernels are kept ready.
pub proof fn lemma_layer_has_four_submissions(c: DecoderConfig, i: int)
    requires
        0 <= i < layer_steps(c).len(),
    ensures
        submissions(layer_steps(c)) == 4,
        layer_steps(c)[i] matches StepModel::Project(p) ==> 1 <= p.len()
            <= crate::l0::decode::KERNEL_POOL,
{
    reveal_with_fuel(submissions, 13);
    let s = layer_steps(c);
    assert(s.drop_last().len() == 11);
}

// ---------------------------------------------------------------------------
// Keys, values and attention of a layer
// ---------------------------------------------------------------------------

/// The cache holds the lanes of all layers of the decoder, and has room for
/// the current position.
pub open spec fn cache_fits<T>(cache: UsmKvCache<T>, c: DecoderConfig) -> bool {
    &&& cache.wf()
    &&& lanes(cache.layout) == c.n_layers * c.kv_heads
    &&& lanes(cache.layout) <= usize::MAX
    &&& cache.layout.head_dim == c.head_dim
    &&& cache.current_len < cache.layout.max_seq_len
}

/// `after` is `before` with `data`, every vector of it compressed and
/// decompressed, written at the current position of the lanes of a layer.
pub open spec fn layer_written<
    T,
    F2: Fn(T, T) -> (T, T),
    F3: Fn(T, T, T) -> (T, T, T),
    Q: Fn(Vec<T>, i32) -> Vec<T>,
>(
    c: DecoderConfig,
    layer_idx: int,
    cache: UsmKvCache<T>,
    before: Seq<T>,
    after: Seq<T>,
    data: Seq<T>,
    bands: BandConfig,
    fill: T,
    f2: F2,
    f3: F3,
    q: Q,
) -> bool {
    exists|stored: Seq<T>|
        #![trigger lanes_written(
            cache.layout,
            before,
            after,
            layer_idx * c.kv_heads,
            c.kv_heads as int,
            cache.current_len as int,
            stored,
        )]
        {
            &&& vectors_related(
                data,
                stored,
                c.head_dim as int,
                |a: Seq<T>, b: Seq<T>| is_slice_roundtrip(a, b, bands, fill, f2, f3, q),
            )
            &&& lanes_written(
                cache.layout,
                before,
                after,
                layer_idx * c.kv_heads,
                c.kv_heads as int,
                cache.current_len as int,
                stored,
            )
        }
}

fn compress_heads<
    T: Copy,
    F2: Fn(T, T) -> (T, T),
    F3: Fn(T, T, T) -> (T, T, T),
    Q: Fn(Vec<T>, i32) -> Vec<T>,
>(data: &[T], dim: usize, bands: &BandConfig, fill: T, f2: &F2, f3: &F3, q: &Q) -> (r: Vec<T>)
    requires
        1 <= dim <= usize::MAX / 2 + 1,
        data@.len() % dim as nat == 0,
        codec_ok(*f2, *f3, *q),
        is_pow2(dim as int) ==> vector_fits(dim as nat, *bands),
    ensures
        vectors_related(
            data@,
            r@,
            dim as int,
            |a: Seq<T>, b: Seq<T>| is_slice_roundtrip(a, b, *bands, fill, *f2, *f3, *q),
        ),
{
    let g = |v: Vec<T>| -> (w: Vec<T>)
        requires
            v@.len() == dim,
        ensures
            w@.len() == v@.len(),
            is_slice_roundtrip(v@, w@, *bands, fill, *f2, *f3, *q),
        {
            let mut w = v;
            vht2_compress_slice(w.as_mut_slice(), bands, fill, f2, f3, q);
            w
        };
    let r = map_vectors(data, dim, &g);
    proof {
        let d = dim as int;
        let rel = |a: Seq<T>, b: Seq<T>| is_slice_roundtrip(a, b, *bands, fill, *f2, *f3, *q);
        assert forall|i: int| 0 <= i < data@.len() as int / d implies rel(
            #[trigger] vector_of(data@, d, i),
            vector_of(r@, d, i),
        ) by {
            assert(vector_mapped(data@, r@, d, i, g));
        }
    }
    r
}

/// Writes a layer's keys and values of the current position into the cache,
/// every vector compressed and decompressed first. The lanes of other layers
/// stay as they are.
pub fn write_kv_to_cache<
    T: Copy,
    F2: Fn(T, T) -> (T, T),
    F3: Fn(T, T, T) -> (T, T, T),
    Q: Fn(Vec<T>, i32) -> Vec<T>,
>(
    cache: &mut UsmKvCache<T>,
    c: &DecoderConfig,
    layer_idx: usize,
    k_data: &[T],
    v_data: &[T],
    bands: &BandConfig,
    fill: T,
    f2: &F2,
    f3: &F3,
    q: &Q,
)
    requires
        cache_fits(*old(cache), *c),
        layer_idx < c.n_layers,
        1 <= c.head_dim <= usize::MAX / 2 + 1,
        k_data@.len() == c.kv_heads * c.head_dim,
        v_data@.len() == c.kv_heads * c.head_dim,
        codec_ok(*f2, *f3, *q),
        is_pow2(c.head_dim as int) ==> vector_fits(c.head_dim as nat, *bands),
    ensures
        cache_fits(*final(cache), *c),
        final(cache).layout == old(cache).layout,
        final(cache).current_len == old(cache).current_len,
        layer_written(
            *c,
            layer_idx as int,
            *old(cache),
            old(cache).key@,
            final(cache).key@,
            k_data@,
            *bands,
            fill,
            *f2,
            *f3,
            *q,
        ),
        layer_written(
            *c,
            layer_idx as int,
            *old(cache),
            old(cache).value@,
            final(cache).value@,
            v_data@,
            *bands,
            fill,
            *f2,
            *f3,
            *q,
        ),
{
    proof {
        vstd::arithmetic::div_mod::lemma_mod_multiples_basic(c.kv_heads as int, c.head_dim as int);
        lemma_layer_lanes(*c, layer_idx as int);
    }
    let keys = compress_heads(k_data, c.head_dim, bands, fill, f2, f3, q);
    let values = compress_heads(v_data, c.head_dim, bands, fill, f2, f3, q);
    let layout = cache.layout;
    let first: usize = layer_idx * c.kv_heads;
    let s: usize = cache.current_len;
    write_lanes(&layout, cache.key.as_mut_slice(), first, c.kv_heads, s, keys.as_slice());
    write_lanes(&layout, cache.value.as_mut_slice(), first, c.kv_heads, s, values.as_slice());
}

/// The lanes of a layer are lanes of the cache.
proof fn lemma_layer_lanes(c: DecoderConfig, layer_idx: int)
    requires
        0 <= layer_idx < c.n_layers,
    ensures
        0 <= layer_idx * c.kv_heads,
        layer_idx * c.kv_heads + c.kv_heads <= c.n_layers * c.kv_heads,
{
    assert(0 <= layer_idx * c.kv_heads && layer_idx * c.kv_heads + c.kv_heads <= c.n_layers
        * c.kv_heads) by (nonlinear_arith)
        requires
            0 <= layer_idx < c.n_layers,
            0 <= c.kv_heads,
    ;
}

/// The lane that query head `h` of a layer reads.
pub open spec fn lane_read(c: DecoderConfig, layer_idx: int, h: int) -> int {
    layer_idx * c.kv_heads + h / (c.q_heads as int / c.kv_heads as int)
}

/// The vectors are those at the positions up to the current one of a lane.
pub open spec fn is_lane<T>(vectors: Seq<Vec<T>>, cache: UsmKvCache<T>, buf: Seq<T>, l: int) -> bool {
    &&& vectors.len() == cache.current_len + 1
    &&& forall|s: int|
        0 <= s < vectors.len() ==> (#[trigger] vectors[s])@ == vector_at(cache.layout, buf, l, s)
}

/// The output of query head `h` is what `attend` gives for its query and for
/// the keys and values of the lane it reads.
pub open spec fn head_attended<T, A: Fn(Vec<T>, Vec<Vec<T>>, Vec<Vec<T>>) -> Vec<T>>(
    cache: UsmKvCache<T>,
    c: DecoderConfig,
    layer_idx: int,
    queries: Seq<T>,
    out: Seq<T>,
    h: int,
    attend: A,
) -> bool {
    exists|query: Vec<T>, keys: Vec<Vec<T>>, values: Vec<Vec<T>>, r: Vec<T>|
        #![trigger attend.ensures((query, keys, values), r)]
        {
            &&& attend.ensures((query, keys, values), r)
            &&& query@ == vector_of(queries, c.head_dim as int, h)
            &&& is_lane(keys@, cache, cache.key@, lane_read(c, layer_idx, h))
            &&& is_lane(values@, cache, cache.value@, lane_read(c, layer_idx, h))
            &&& r@ == vector_of(out, c.head_dim as int, h)
        }
}

/// Attention of a layer over the cache, the current position included. Each
/// query head reads the lane of its key/value head; `attend` turns a query,
/// the keys and the values into the head's output.
pub fn compute_attention<T: Copy, A: Fn(Vec<T>, Vec<Vec<T>>, Vec<Vec<T>>) -> Vec<T>>(
    cache: &UsmKvCache<T>,
    c: &DecoderConfig,
    layer_idx: usize,
    queries: &[T],
    attend: &A,
) -> (out: Vec<T>)
    requires
        cache_fits(*cache, *c),
        layer_idx < c.n_layers,
        c.kv_heads > 0,
        c.q_heads > 0,
        c.q_heads % c.kv_heads == 0,
        queries@.len() == c.q_heads * c.head_dim,
        forall|query: Vec<T>, keys: Vec<Vec<T>>, values: Vec<Vec<T>>| #[trigger]
            attend.requires((query, keys, values)),
        forall|query: Vec<T>, keys: Vec<Vec<T>>, values: Vec<Vec<T>>, r: Vec<T>| #[trigger]
            attend.ensures((query, keys, values), r) ==> r@.len() == query@.len(),
    ensures
        out@.len() == queries@.len(),
        forall|h: int|
            0 <= h < c.q_heads ==> #[trigger] head_attended(
                *cache,
                *c,
                layer_idx as int,
                queries@,
                out@,
                h,
                *attend,
            ),
{
    let n: usize = cache.current_len + 1;
    let total: usize = queries.len();
    let hd: usize = c.head_dim;
    let mut out: Vec<T> = Vec::new();
    let mut h: usize = 0;
    let mut at: usize = 0;
    proof {
        lemma_heads_are_served(*c, 0);
        lemma_layer_lanes(*c, layer_idx as int);
        assert(0 * hd == 0) by (nonlinear_arith);
        assert(c.q_heads >= c.kv_heads) by (nonlinear_arith)
            requires
                c.q_heads > 0,
                c.kv_heads > 0,
                c.q_heads % c.kv_heads == 0,
        ;
    }
    while h < c.q_heads
        invariant
            cache_fits(*cache, *c),
            layer_idx < c.n_layers,
            c.kv_heads > 0,
            c.q_heads >= c.kv_heads,
            c.q_heads % c.kv_heads == 0,
            0 <= layer_idx * c.kv_heads,
            layer_idx * c.kv_heads + c.kv_heads <= c.n_layers * c.kv_heads,
            n == cache.current_len + 1,
            hd == c.head_dim,
            total == queries@.len(),
            total == c.q_heads * hd,
            h <= c.q_heads,
            at == h * hd,
            out@.len() == at,
            forall|query: Vec<T>, keys: Vec<Vec<T>>, values: Vec<Vec<T>>| #[trigger]
                attend.requires((query, keys, values)),
            forall|query: Vec<T>, keys: Vec<Vec<T>>, values: Vec<Vec<T>>, r: Vec<T>| #[trigger]
                attend.ensures((query, keys, values), r) ==> r@.len() == query@.len(),
            forall|k: int|
                0 <= k < h ==> #[trigger] head_attended(
                    *cache,
                    *c,
                    layer_idx as int,
                    queries@,
                    out@,
                    k,
                    *attend,
                ),
        decreases c.q_heads - h,
    {
        let ghost before = out@;
        proof {
            lemma_heads_are_served(*c, h as int);
            assert((h + 1) * hd == h * hd + hd && (h + 1) * hd <= c.q_heads * hd)
                by (nonlinear_arith)
                requires
                    h + 1 <= c.q_heads,
                    hd >= 0,
            ;
        }
        let lane: usize = layer_lane(layer_idx, c.kv_heads, c.kv_head_of(h));
        let query = copy_range(queries, at, at + hd);
        let keys = cache.read_lane(&cache.key, lane, n);
        let values = cache.read_lane(&cache.value, lane, n);
        let r = attend(query, keys, values);
        append_all(&mut out, r.as_slice());
        proof {
            assert(query@ =~= vector_of(queries@, hd as int, h as int));
            assert(r@ =~= vector_of(out@, hd as int, h as int));
            assert(is_lane(keys@, *cache, cache.key@, lane_read(*c, layer_idx as int, h as int)));
            assert(is_lane(
                values@,
                *cache,
                cache.value@,
                lane_read(*c, layer_idx as int, h as int),
            ));
            assert forall|k: int| 0 <= k < h + 1 implies #[trigger] head_attended(
                *cache,
                *c,
                layer_idx as int,
                queries@,
                out@,
                k,
                *attend,
            ) by {
                if k < h {
                    assert(head_attended(
                        *cache,
                        *c,
                        layer_idx as int,
                        queries@,
                        before,
                        k,
                        *attend,
                    ));
                    assert(0 <= k * hd && k * hd + hd <= h * hd) by (nonlinear_arith)
                        requires
                            0 <= k < h,
                            hd >= 0,
                    ;
                    assert(vector_of(out@, hd as int, k) =~= vector_of(before, hd as int, k));
                }
            }
        }
        at = at + hd;
        h = h + 1;
    }
    out
}

// ---------------------------------------------------------------------------
// Weight names
// ---------------------------------------------------------------------------

/// The part of a weight's name after its layer.
pub open spec fn weight_suffix(w: Weight) -> Seq<char> {
    match w {
        Weight::Q => ".attention.wq.weight"@,
        Weight::K => ".attention.wk.weight"@,
        Weight::V => ".attention.wv.weight"@,
        Weight::O => ".attention.wo.weight"@,
        Weight::Gate => ".feed_forward.w1.weight"@,
        Weight::Down => ".feed_forward.w2.weight"@,
        Weight::Up => ".feed_forward.w3.weight"@,
    }
}

/// The name of a tensor of a layer.
pub open spec fn layer_tensor(layer: nat, suffix: Seq<char>) -> Seq<char> {
    "layers."@ + decimal(layer) + suffix
}

fn named(layer: usize, suffix: &str) -> (r: String)
    ensures
        r@ == layer_tensor(layer as nat, suffix@),
{
    let mut s = String::new();
    s.append("layers.");
    s.append(decimal_text(layer).as_str());
    s.append(suffix);
    assert(s@ =~= layer_tensor(layer as nat, suffix@));
    s
}

/// The name of a layer's weight.
pub fn weight_name(layer: usize, w: Weight) -> (r: String)
    ensures
        r@ == layer_tensor(layer as nat, weight_suffix(w)),
{
    match w {
        Weight::Q => named(layer, ".attention.wq.weight"),
        Weight::K => named(layer, ".attention.wk.weight"),
        Weight::V => named(layer, ".attention.wv.weight"),
        Weight::O => named(layer, ".attention.wo.weight"),
        Weight::Gate => named(layer, ".feed_forward.w1.weight"),
        Weight::Down => named(layer, ".feed_forward.w2.weight"),
        Weight::Up => named(layer, ".feed_forward.w3.weight"),
    }
}

/// The name of a layer's attention norm.
pub fn attention_norm_name(layer: usize) -> (r: String)
    ensures
        r@ == layer_tensor(layer as nat, ".attention_norm.weight"@),
{
    named(layer, ".attention_norm.weight")
}

/// The name of a layer's feed-forward norm.
pub fn ffn_norm_name(layer: usize) -> (r: String)
    ensures
        r@ == layer_tensor(layer as nat, ".ffn_norm.weight"@),
{
    named(layer, ".ffn_norm.weight")
}

/// The token embeddings.
pub const TOK_EMBEDDINGS: &'static str = "mm_streams_embeddings.embedding_module.tok_embeddings.weight";

/// The output head: its own tensor, or the token embeddings where it is tied
/// to them.
pub fn lm_head_name(has_output: bool) -> (r: &'static str)
    ensures
        r@ == if has_output {
            "output.weight"@
        } else {
            TOK_EMBEDDINGS@
        },
        !has_output ==> r@
            == "mm_streams_embeddings.embedding_module.tok_embeddings.weight"@,
{
    if has_output {
        "output.weight"
    } else {
        TOK_EMBEDDINGS
    }
}

// ---------------------------------------------------------------------------
// Token choice
// ---------------------------------------------------------------------------

/// `i` is the first position of the largest key.
pub open spec fn is_first_largest(keys: Seq<i32>, i: int) -> bool {
    &&& 0 <= i < keys.len()
    &&& forall|j: int| 0 <= j < keys.len() ==> #[trigger] keys[j] <= keys[i]
    &&& forall|j: int| 0 <= j < i ==> #[trigger] keys[j] < keys[i]
}

/// The token with the largest key, the first of equals; 0 without tokens. The
/// keys are integers that order as the tokens' scores do.
pub fn argmax(keys: &[i32]) -> (r: u32)
    requires
        keys@.len() <= u32::MAX,
    ensures
        keys@.len() == 0 ==> r == 0,
        keys@.len() > 0 ==> is_first_largest(keys@, r as int),
{
    let mut best: usize = 0;
    let mut i: usize = 1;
    if keys.len() == 0 {
        return 0;
    }
    while i < keys.len()
        invariant
            keys@.len() > 0,
            best < i <= keys@.len(),
            forall|j: int| 0 <= j < i ==> #[trigger] keys@[j] <= keys@[best as int],
            forall|j: int| 0 <= j < best ==> #[trigger] keys@[j] < keys@[best as int],
        decreases keys@.len() - i,
    {
        if keys[i] > keys[best] {
            best = i;
        }
        i = i + 1;
    }
    best as u32
}

// ---------------------------------------------------------------------------
// What the sizes and names say
// ---------------------------------------------------------------------------

/// A quantised matrix has nine bytes for every sixteen weights.
pub proof fn lemma_matrix_bytes(rows: int, cols: int)
    requires
        rows >= 0,
        cols >= 0,
        cols % 32 == 0,
    ensures
        16 * matrix_bytes(rows, cols) == 9 * (rows * cols),
{
    let per = cols / 32;
    assert(16 * (rows * per * 18) == 9 * (rows * (32 * per))) by (nonlinear_arith);
    assert(cols == 32 * per);
}

/// A layer has a query and an output projection as large as each other, a key
/// and a value projection as large as each other, and three feed-forward
/// matrices; a model has that for each layer, and an output head and token
/// embeddings besides. Each weight takes its nine sixteenths of a byte.
pub proof fn lemma_weight_bytes_count_every_weight(c: DecoderConfig)
    requires
        c.hidden_dim % 32 == 0,
        (c.q_heads * c.head_dim) % 32 == 0,
        c.ffn_dim % 32 == 0,
    ensures
        ({
            let h = c.hidden_dim as int;
            let q = c.q_heads * c.head_dim;
            let kv = c.kv_heads * c.head_dim;
            let f = c.ffn_dim as int;
            let weights = 2 * (q * h) + 2 * (kv * h) + 3 * (f * h);
            &&& 16 * layer_bytes(c) == 9 * weights
            &&& 16 * model_bytes(c) == 9 * (weights * c.n_layers + 2 * (c.vocab_size * h))
        }),
{
    let h = c.hidden_dim as int;
    let q = c.q_heads * c.head_dim;
    let kv = c.kv_heads * c.head_dim;
    let f = c.ffn_dim as int;
    let v = c.vocab_size as int;
    let l = c.n_layers as int;
    assert(0 <= q && 0 <= kv) by (nonlinear_arith)
        requires
            q == c.q_heads * c.head_dim,
            kv == c.kv_heads * c.head_dim,
            c.q_heads >= 0,
            c.kv_heads >= 0,
            c.head_dim >= 0,
    ;
    lemma_matrix_bytes(q, h);
    lemma_matrix_bytes(kv, h);
    lemma_matrix_bytes(h, q);
    lemma_matrix_bytes(f, h);
    lemma_matrix_bytes(h, f);
    lemma_matrix_bytes(v, h);
    assert(h * q == q * h && h * f == f * h) by (nonlinear_arith);
    let weights = 2 * (q * h) + 2 * (kv * h) + 3 * (f * h);
    let b = layer_bytes(c);
    assert(16 * (b * l) == 9 * (weights * l)) by (nonlinear_arith)
        requires
            16 * b == 9 * weights,
    ;
}

/// The query heads share the key/value heads out in turn: those of one group,
/// and no others, read the lane of their group's head, inside the lanes of
/// their layer.
pub proof fn lemma_group_reads_one_lane(
    c: DecoderConfig,
    layer_idx: int,
    group: int,
    member: int,
)
    requires
        c.kv_heads > 0,
        c.q_heads > 0,
        c.q_heads % c.kv_heads == 0,
        0 <= group < c.kv_heads,
        0 <= member < c.q_heads as int / c.kv_heads as int,
    ensures
        ({
            let size = c.q_heads as int / c.kv_heads as int;
            &&& 0 <= group * size + member < c.q_heads
            &&& lane_read(c, layer_idx, group * size + member) == layer_idx * c.kv_heads + group
        }),
{
    let size = c.q_heads as int / c.kv_heads as int;
    let kv = c.kv_heads as int;
    let h = group * size + member;
    vstd::arithmetic::div_mod::lemma_fundamental_div_mod(c.q_heads as int, kv);
    assert(0 <= h < kv * size) by (nonlinear_arith)
        requires
            h == group * size + member,
            0 <= group < kv,
            0 <= member < size,
    ;
    vstd::arithmetic::div_mod::lemma_fundamental_div_mod_converse(h, size, group, member);
}

/// The tensors of a layer are named after it: attention has its four, gate, down
/// and up are the first, second and third of the feed-forward block.
pub proof fn lemma_weight_names(layer: nat, w: Weight)
    ensures
        layer_tensor(layer, weight_suffix(w)) == "layers."@ + decimal(layer) + match w {
            Weight::Q => ".attention.wq.weight"@,
            Weight::K => ".attention.wk.weight"@,
            Weight::V => ".attention.wv.weight"@,
            Weight::O => ".attention.wo.weight"@,
            Weight::Gate => ".feed_forward.w1.weight"@,
            Weight::Down => ".feed_forward.w2.weight"@,
            Weight::Up => ".feed_forward.w3.weight"@,
        },
{
}

/// No two weights of the model have one name.
pub proof fn lemma_weight_names_are_distinct(layer1: nat, w1: Weight, layer2: nat, w2: Weight)
    requires
        layer_tensor(layer1, weight_suffix(w1)) == layer_tensor(layer2, weight_suffix(w2)),
    ensures
        layer1 == layer2,
        w1 == w2,
{
    let d1 = decimal(layer1);
    let d2 = decimal(layer2);
    let s1 = weight_suffix(w1);
    let s2 = weight_suffix(w2);
    let n1 = layer_tensor(layer1, s1);
    let n2 = layer_tensor(layer2, s2);
    reveal_strlit("layers.");
    lemma_decimal_stands_for_its_number(layer1);
    lemma_decimal_stands_for_its_number(layer2);
    lemma_suffix(w1);
    lemma_suffix(w2);
    let p = "layers."@.len() as int;
    assert(p == 7);
    if d1.len() < d2.len() {
        let i = p + d1.len();
        assert(n1[i] == s1[0]);
        assert(n2[i] == d2[d1.len() as int]);
        assert(false);
    }
    if d2.len() < d1.len() {
        let i = p + d2.len();
        assert(n2[i] == s2[0]);
        assert(n1[i] == d1[d2.len() as int]);
        assert(false);
    }
    assert(d1 =~= d2) by {
        assert forall|i: int| 0 <= i < d1.len() implies d1[i] == d2[i] by {
            assert(n1[p + i] == d1[i]);
            assert(n2[p + i] == d2[i]);
        }
    }
    let q = p + d1.len();
    assert(n1.len() == q + s1.len());
    assert(n2.len() == q + s2.len());
    if s1.len() == 20 {
        assert(n1[q + 12] == s1[12] && n2[q + 12] == s2[12]);
    } else {
        assert(n1[q + 15] == s1[15] && n2[q + 15] == s2[15]);
    }
}

proof fn lemma_suffix(w: Weight)
    ensures
        weight_suffix(w)[0] == '.',
        match w {
            Weight::Q => weight_suffix(w).len() == 20 && weight_suffix(w)[12] == 'q',
            Weight::K => weight_suffix(w).len() == 20 && weight_suffix(w)[12] == 'k',
            Weight::V => weight_suffix(w).len() == 20 && weight_suffix(w)[12] == 'v',
            Weight::O => weight_suffix(w).len() == 20 && weight_suffix(w)[12] == 'o',
            Weight::Gate => weight_suffix(w).len() == 23 && weight_suffix(w)[15] == '1',
            Weight::Down => weight_suffix(w).len() == 23 && weight_suffix(w)[15] == '2',
            Weight::Up => weight_suffix(w).len() == 23 && weight_suffix(w)[15] == '3',
        },
{
    reveal_strlit(".attention.wq.weight");
    reveal_strlit(".attention.wk.weight");
    reveal_strlit(".attention.wv.weight");
    reveal_strlit(".attention.wo.weight");
    reveal_strlit(".feed_forward.w1.weight");
    reveal_strlit(".feed_forward.w2.weight");
    reveal_strlit(".feed_forward.w3.weight");
}

/// The choice among more tokens is the choice among fewer unless the new one is
/// better: an equal one, or a worse one, changes nothing. So of equals the
/// first is chosen.
pub proof fn lemma_choice_keeps_the_first(keys: Seq<i32>, i: int, x: i32, j: int)
    requires
        is_first_largest(keys, i),
    ensures
        x <= keys[i] ==> is_first_largest(keys.push(x), i),
        x > keys[i] ==> is_first_largest(keys.push(x), keys.len() as int),
        is_first_largest(keys, j) ==> j == i,
        is_first_largest(seq![x], 0),
{
    let more = keys.push(x);
    assert forall|k: int| 0 <= k < keys.len() implies #[trigger] more[k] == keys[k] by {}
    if is_first_largest(keys, j) {
        if j < i {
            assert(keys[j] < keys[i]);
        } else if i < j {
            assert(keys[i] < keys[j]);
        }
    }
}

/// Attention at a position sees every position up to it, that one included,
/// each once and in order.
pub proof fn lemma_attention_sees_the_present<T>(
    vectors: Seq<Vec<T>>,
    cache: UsmKvCache<T>,
    buf: Seq<T>,
    l: int,
    s: int,
)
    requires
        is_lane(vectors, cache, buf, l),
    ensures
        vectors.len() > cache.current_len,
        0 <= s <= cache.current_len ==> vectors[s]@ == vector_at(cache.layout, buf, l, s),
        vectors.last()@ == vector_at(cache.layout, buf, l, cache.current_len as int),
{
}

/// Writing a layer touches that layer's lanes at the present position and
/// nothing else.
pub proof fn lemma_layer_write_stays_in_its_lanes<
    T,
    F2: Fn(T, T) -> (T, T),
    F3: Fn(T, T, T) -> (T, T, T),
    Q: Fn(Vec<T>, i32) -> Vec<T>,
>(
    c: DecoderConfig,
    layer_idx: int,
    cache: UsmKvCache<T>,
    before: Seq<T>,
    after: Seq<T>,
    data: Seq<T>,
    bands: BandConfig,
    fill: T,
    f2: F2,
    f3: F3,
    q: Q,
    l: int,
    t: int,
)
    requires
        layer_written(c, layer_idx, cache, before, after, data, bands, fill, f2, f3, q),
        cache_fits(cache, c),
        before.len() == elements(cache.layout),
        data.len() == c.kv_heads * c.head_dim,
        0 <= layer_idx < c.n_layers,
        0 <= l < lanes(cache.layout),
        0 <= t < cache.layout.max_seq_len,
        t != cache.current_len || l < layer_idx * c.kv_heads || (layer_idx + 1) * c.kv_heads <= l,
    ensures
        vector_at(cache.layout, after, l, t) == vector_at(cache.layout, before, l, t),
        after.len() == before.len(),
{
    let first = layer_idx * c.kv_heads;
    let s = cache.current_len as int;
    let stored = choose|stored: Seq<T>|
        #![trigger lanes_written(
            cache.layout,
            before,
            after,
            layer_idx * c.kv_heads,
            c.kv_heads as int,
            cache.current_len as int,
            stored,
        )]
        {
            &&& vectors_related(
                data,
                stored,
                c.head_dim as int,
                |a: Seq<T>, b: Seq<T>| is_slice_roundtrip(a, b, bands, fill, f2, f3, q),
            )
            &&& lanes_written(
                cache.layout,
                before,
                after,
                layer_idx * c.kv_heads,
                c.kv_heads as int,
                cache.current_len as int,
                stored,
            )
        };
    lemma_layer_lanes(c, layer_idx);
    assert((layer_idx + 1) * c.kv_heads == first + c.kv_heads) by (nonlinear_arith)
        requires
            first == layer_idx * c.kv_heads,
    ;
    lemma_read_after_write(cache.layout, before, after, first, c.kv_heads as int, s, stored, l, t);
}

/// A head's output comes of its own query with the keys and the values of one
/// lane: as many keys as values, the keys from the key buffer and the values
/// from the value buffer.
pub proof fn lemma_head_pairs_keys_with_values<
    T,
    A: Fn(Vec<T>, Vec<Vec<T>>, Vec<Vec<T>>) -> Vec<T>,
>(
    cache: UsmKvCache<T>,
    c: DecoderConfig,
    layer_idx: int,
    queries: Seq<T>,
    out: Seq<T>,
    h: int,
    attend: A,
)
    requires
        head_attended(cache, c, layer_idx, queries, out, h, attend),
    ensures
        exists|query: Vec<T>, keys: Vec<Vec<T>>, values: Vec<Vec<T>>, r: Vec<T>|
            #![trigger attend.ensures((query, keys, values), r)]
            {
                let l = lane_read(c, layer_idx, h);
                let here = cache.current_len as int;
                let d = c.head_dim as int;
                &&& attend.ensures((query, keys, values), r)
                &&& query@ == queries.subrange(h * d, h * d + d)
                &&& r@ == out.subrange(h * d, h * d + d)
                &&& keys@.len() == here + 1
                &&& values@.len() == here + 1
                &&& forall|s: int|
                    0 <= s <= here ==> (#[trigger] keys@[s])@ == vector_at(
                        cache.layout,
                        cache.key@,
                        l,
                        s,
                    )
                &&& forall|s: int|
                    0 <= s <= here ==> (#[trigger] values@[s])@ == vector_at(
                        cache.layout,
                        cache.value@,
                        l,
                        s,
                    )
            },
{
    let (query, keys, values, r) = choose|
        query: Vec<T>,
        keys: Vec<Vec<T>>,
        values: Vec<Vec<T>>,
        r: Vec<T>,
    |
        #![trigger attend.ensures((query, keys, values), r)]
        {
            &&& attend.ensures((query, keys, values), r)
            &&& query@ == vector_of(queries, c.head_dim as int, h)
            &&& is_lane(keys@, cache, cache.key@, lane_read(c, layer_idx, h))
            &&& is_lane(values@, cache, cache.value@, lane_read(c, layer_idx, h))
            &&& r@ == vector_of(out, c.head_dim as int, h)
        };
    assert(attend.ensures((query, keys, values), r));
}

/// Writing a layer stores what it is given: the lane of each of its heads holds
/// at the present position that head's own vector, compressed and decompressed.
pub proof fn lemma_layer_write_stores_its_vectors<
    T,
    F2: Fn(T, T) -> (T, T),
    F3: Fn(T, T, T) -> (T, T, T),
    Q: Fn(Vec<T>, i32) -> Vec<T>,
>(
    c: DecoderConfig,
    layer_idx: int,
    cache: UsmKvCache<T>,
    before: Seq<T>,
    after: Seq<T>,
    data: Seq<T>,
    bands: BandConfig,
    fill: T,
    f2: F2,
    f3: F3,
    q: Q,
    head: int,
)
    requires
        layer_written(c, layer_idx, cache, before, after, data, bands, fill, f2, f3, q),
        cache_fits(cache, c),
        before.len() == elements(cache.layout),
        data.len() == c.kv_heads * c.head_dim,
        c.head_dim > 0,
        0 <= layer_idx < c.n_layers,
        0 <= head < c.kv_heads,
    ensures
        is_slice_roundtrip(
            data.subrange(head * c.head_dim, head * c.head_dim + c.head_dim),
            vector_at(
                cache.layout,
                after,
                layer_idx * c.kv_heads + head,
                cache.current_len as int,
            ),
            bands,
            fill,
            f2,
            f3,
            q,
        ),
{
    let first = layer_idx * c.kv_heads;
    let s = cache.current_len as int;
    let hd = c.head_dim as int;
    let stored = choose|stored: Seq<T>|
        #![trigger lanes_written(
            cache.layout,
            before,
            after,
            layer_idx * c.kv_heads,
            c.kv_heads as int,
            cache.current_len as int,
            stored,
        )]
        {
            &&& vectors_related(
                data,
                stored,
                c.head_dim as int,
                |a: Seq<T>, b: Seq<T>| is_slice_roundtrip(a, b, bands, fill, f2, f3, q),
            )
            &&& lanes_written(
                cache.layout,
                before,
                after,
                layer_idx * c.kv_heads,
                c.kv_heads as int,
                cache.current_len as int,
                stored,
            )
        };
    lemma_layer_lanes(c, layer_idx);
    lemma_read_after_write(
        cache.layout,
        before,
        after,
        first,
        c.kv_heads as int,
        s,
        stored,
        first + head,
        s,
    );
    vstd::arithmetic::div_mod::lemma_div_by_multiple(c.kv_heads as int, hd);
    let rel = |a: Seq<T>, b: Seq<T>| is_slice_roundtrip(a, b, bands, fill, f2, f3, q);
    assert(rel(vector_of(data, hd, head), vector_of(stored, hd, head)));
}

} // verus!

//! Spectral compression of cache vectors: bands, quantisation levels and the
//! schedule of the mixed-radix transform.
//!
//! A vector is transformed by stages of radix-3 and radix-2 butterflies, its
//! coefficients are quantised band by band, and the same transform brings it
//! back. The arithmetic on the coefficients is left to the caller.

use crate::audio::chunks::{append_all, copy_range};
use crate::models::layers::kv_cache::KVCache;
use crate::models::layers::tensor::{KvModel, KvTensor};
use vstd::arithmetic::power2::pow2;
use vstd::prelude::*;

verus! {

// ---------------------------------------------------------------------------
// Bands
// ---------------------------------------------------------------------------

/// How the coefficients of a vector are divided into bands, and how many bits
/// each band gets.
#[derive(Debug, Clone)]
pub struct BandConfig {
    pub n_bands: usize,
    pub band_bits: Vec<u8>,
    pub head_dim: usize,
}

/// Number of coefficients in every band but the last.
pub open spec fn band_size(cfg: BandConfig) -> int {
    (cfg.head_dim as int) / (cfg.n_bands as int)
}

/// Offset and size of band `b`. The last band takes what is left over.
pub open spec fn span_of(cfg: BandConfig, b: int) -> (int, int) {
    let off = b * band_size(cfg);
    if b == cfg.n_bands - 1 {
        (off, cfg.head_dim - off)
    } else {
        (off, band_size(cfg))
    }
}

impl BandConfig {
    /// Keys: four bands of 5, 5, 4 and 3 bits.
    pub fn default_k(head_dim: usize) -> (r: Self)
        ensures
            r.n_bands == 4,
            r.band_bits@ == seq![5u8, 5u8, 4u8, 3u8],
            r.head_dim == head_dim,
    {
        let r = BandConfig { n_bands: 4, band_bits: vec![5, 5, 4, 3], head_dim };
        assert(r.band_bits@ =~= seq![5u8, 5u8, 4u8, 3u8]);
        r
    }

    /// Values: one band of 3 bits.
    pub fn default_v(head_dim: usize) -> (r: Self)
        ensures
            r.n_bands == 1,
            r.band_bits@ == seq![3u8],
            r.head_dim == head_dim,
    {
        let r = BandConfig { n_bands: 1, band_bits: vec![3], head_dim };
        assert(r.band_bits@ =~= seq![3u8]);
        r
    }

    /// Offset and size of band `b`.
    pub fn band_span(&self, b: usize) -> (r: (usize, usize))
        requires
            self.n_bands > 0,
            b * band_size(*self) <= usize::MAX,
        ensures
            r.0 == span_of(*self, b as int).0,
            r.1 == span_of(*self, b as int).1,
    {
        let size: usize = self.head_dim / self.n_bands;
        proof {
            assert(0 <= b * size) by (nonlinear_arith)
                requires
                    b >= 0,
                    size >= 0,
            ;
            if b == self.n_bands - 1 {
                lemma_bands_fit(*self, b as int);
            }
        }
        let off: usize = b * size;
        let sz: usize = if b == self.n_bands - 1 {
            self.head_dim - off
        } else {
            size
        };
        (off, sz)
    }
}

/// A band starts inside the vector.
proof fn lemma_bands_fit(cfg: BandConfig, b: int)
    requires
        cfg.n_bands > 0,
        0 <= b < cfg.n_bands,
    ensures
        0 <= b * band_size(cfg) <= cfg.head_dim,
        (b + 1) * band_size(cfg) == b * band_size(cfg) + band_size(cfg),
        (b + 1) * band_size(cfg) <= cfg.head_dim,
{
    let s = band_size(cfg);
    let n = cfg.n_bands as int;
    let hd = cfg.head_dim as int;
    assert(s >= 0 && n * s <= hd) by (nonlinear_arith)
        requires
            n > 0,
            hd >= 0,
            s == hd / n,
    ;
    assert(0 <= b * s && (b + 1) * s == b * s + s && (b + 1) * s <= n * s) by (nonlinear_arith)
        requires
            0 <= b < n,
            s >= 0,
    ;
}

/// The bands divide the vector: the first starts at 0, each starts where the
/// one before ends, and the last ends with the vector.
pub proof fn lemma_bands_partition(cfg: BandConfig, b: int)
    requires
        0 <= b < cfg.n_bands,
    ensures
        span_of(cfg, 0).0 == 0,
        span_of(cfg, b).0 >= 0,
        span_of(cfg, b).1 >= 0,
        b + 1 < cfg.n_bands ==> span_of(cfg, b + 1).0 == span_of(cfg, b).0 + span_of(cfg, b).1,
        span_of(cfg, cfg.n_bands - 1).0 + span_of(cfg, cfg.n_bands - 1).1 == cfg.head_dim,
{
    lemma_bands_fit(cfg, b);
    assert(0 * band_size(cfg) == 0) by (nonlinear_arith);
}

/// The bands are even: all but the last hold the same number of coefficients,
/// their share of the vector rounded down, and the last holds no more than the
/// rounding leaves over. Where the number of bands divides the vector all are
/// equal.
pub proof fn lemma_bands_are_even(cfg: BandConfig, b: int)
    requires
        0 <= b < cfg.n_bands,
    ensures
        ({
            let share = cfg.head_dim as int / cfg.n_bands as int;
            &&& span_of(cfg, b).0 == b * share
            &&& b + 1 < cfg.n_bands ==> span_of(cfg, b).1 == share
            &&& share <= span_of(cfg, b).1 < share + cfg.n_bands
            &&& cfg.head_dim as int % cfg.n_bands as int == 0 ==> span_of(cfg, b).1 == share
        }),
{
    let n = cfg.n_bands as int;
    let hd = cfg.head_dim as int;
    let s = hd / n;
    vstd::arithmetic::div_mod::lemma_fundamental_div_mod(hd, n);
    assert((n - 1) * s == n * s - s) by (nonlinear_arith);
}

/// The bits of a band are used up: with the largest level that its quantiser
/// gets there are, counting both signs and zero, as many levels as numbers of
/// that many bits, but for one. The quantiser sees the band's own coefficients
/// and nothing else.
pub proof fn lemma_band_uses_its_bits<T, F: Fn(Vec<T>, i32) -> Vec<T>>(
    before: Seq<T>,
    after: Seq<T>,
    cfg: BandConfig,
    b: int,
    f: F,
)
    requires
        bands_wf(cfg),
        0 <= b < cfg.n_bands,
        band_quantized(before, after, cfg, b, f),
    ensures
        exists|input: Vec<T>, output: Vec<T>, level: i32|
            #![trigger f.ensures((input, level), output)]
            {
                let (off, size) = span_of(cfg, b);
                &&& f.ensures((input, level), output)
                &&& input@ == before.subrange(off, off + size)
                &&& output@ == after.subrange(off, off + size)
                &&& 2 * level + 2 == pow2(cfg.band_bits@[b] as nat)
                &&& cfg.band_bits@[b] == 5 ==> level == 15
                &&& cfg.band_bits@[b] == 4 ==> level == 7
                &&& cfg.band_bits@[b] == 3 ==> level == 3
            },
{
    assert(1 <= cfg.band_bits@[b] <= 31);
    vstd::arithmetic::power2::lemma_pow2_unfold(cfg.band_bits@[b] as nat);
    vstd::arithmetic::power2::lemma2_to64();
    let (input, output, level) = choose|input: Vec<T>, output: Vec<T>, level: i32|
        #![trigger f.ensures((input, level), output)]
        {
            &&& f.ensures((input, level), output)
            &&& input@ == band_of(before, cfg, b)
            &&& output@ == band_of(after, cfg, b)
            &&& level == pow2((cfg.band_bits@[b] - 1) as nat) - 1
        };
    assert(f.ensures((input, level), output));
}

/// Compression of keys and values.
#[derive(Debug, Clone)]
pub struct ShannonPrimeConfig {
    pub enabled: bool,
    pub k_config: BandConfig,
    pub v_config: BandConfig,
    pub head_dim: usize,
}

impl ShannonPrimeConfig {
    /// Compression with the default bands.
    pub fn new(head_dim: usize) -> (r: Self)
        ensures
            r.enabled,
            r.k_config.n_bands == 4,
            r.k_config.band_bits@ == seq![5u8, 5u8, 4u8, 3u8],
            r.k_config.head_dim == head_dim,
            r.v_config.n_bands == 1,
            r.v_config.band_bits@ == seq![3u8],
            r.v_config.head_dim == head_dim,
            r.head_dim == head_dim,
    {
        ShannonPrimeConfig {
            enabled: true,
            k_config: BandConfig::default_k(head_dim),
            v_config: BandConfig::default_v(head_dim),
            head_dim,
        }
    }

    /// No compression.
    pub fn disabled(head_dim: usize) -> (r: Self)
        ensures
            !r.enabled,
            r.k_config.n_bands == 4,
            r.k_config.band_bits@ == seq![5u8, 5u8, 4u8, 3u8],
            r.k_config.head_dim == head_dim,
            r.v_config.n_bands == 1,
            r.v_config.band_bits@ == seq![3u8],
            r.v_config.head_dim == head_dim,
            r.head_dim == head_dim,
    {
        let mut cfg = Self::new(head_dim);
        cfg.enabled = false;
        cfg
    }
}

// ---------------------------------------------------------------------------
// Quantisation levels
// ---------------------------------------------------------------------------

/// The largest level of a band with `bits` bits; levels are symmetric around 0.
pub fn max_level(bits: u8) -> (r: i32)
    requires
        1 <= bits <= 31,
    ensures
        r == pow2((bits - 1) as nat) - 1,
        0 <= r,
{
    let shift: u32 = (bits - 1) as u32;
    proof {
        vstd::bits::lemma_u32_pow2_no_overflow(shift as nat);
        assert(1 * pow2(shift as nat) == pow2(shift as nat)) by (nonlinear_arith);
        vstd::bits::lemma_u32_shl_is_mul(1, shift);
        vstd::arithmetic::power2::lemma_pow2_pos(shift as nat);
        vstd::arithmetic::power2::lemma2_to64();
        if shift < 30 {
            vstd::arithmetic::power2::lemma_pow2_strictly_increases(shift as nat, 30);
        }
    }
    let top: u32 = 1u32 << shift;
    (top - 1) as i32
}

/// The level between `-max` and `max` that is nearest to `q`.
pub open spec fn clamped(q: int, max: int) -> int {
    if q < -max {
        -max
    } else if q > max {
        max
    } else {
        q
    }
}

/// Clamping keeps every level that is in range, treats both signs alike and
/// never leaves the range.
pub proof fn lemma_clamping_is_even(q: int, max: int)
    requires
        0 <= max,
    ensures
        -max <= clamped(q, max) <= max,
        -max <= q <= max ==> clamped(q, max) == q,
        clamped(-q, max) == -clamped(q, max),
        q >= max ==> clamped(q, max) == max,
{
}

/// Keeps a level between `-max` and `max`.
pub fn clamp_level(q: i32, max: i32) -> (r: i32)
    requires
        0 <= max,
    ensures
        r == clamped(q as int, max as int),
        r == if q < -max {
            -max
        } else if q > max {
            max as int
        } else {
            q as int
        },
{
    if q < -max {
        -max
    } else if q > max {
        max
    } else {
        q
    }
}

/// The bands fit the vector: one bit count per band, each between 1 and 31.
pub open spec fn bands_wf(cfg: BandConfig) -> bool {
    &&& cfg.n_bands > 0
    &&& cfg.band_bits@.len() == cfg.n_bands
    &&& forall|b: int| 0 <= b < cfg.n_bands ==> 1 <= #[trigger] cfg.band_bits@[b] <= 31
}

/// The coefficients of band `b`.
pub open spec fn band_of<T>(coeffs: Seq<T>, cfg: BandConfig, b: int) -> Seq<T> {
    coeffs.subrange(span_of(cfg, b).0, span_of(cfg, b).0 + span_of(cfg, b).1)
}

/// Band `b` of `after` is what `f` makes of band `b` of `before`, given the
/// largest level of its bit count.
pub open spec fn band_quantized<T, F: Fn(Vec<T>, i32) -> Vec<T>>(
    before: Seq<T>,
    after: Seq<T>,
    cfg: BandConfig,
    b: int,
    f: F,
) -> bool {
    exists|input: Vec<T>, output: Vec<T>, level: i32|
        #![trigger f.ensures((input, level), output)]
        {
            &&& f.ensures((input, level), output)
            &&& input@ == band_of(before, cfg, b)
            &&& output@ == band_of(after, cfg, b)
            &&& level == pow2((cfg.band_bits@[b] - 1) as nat) - 1
        }
}

/// Quantises a vector band by band. `f` takes the coefficients of a band and
/// its largest level, and gives as many coefficients back.
pub fn quantize_bands<T: Copy, F: Fn(Vec<T>, i32) -> Vec<T>>(
    coeffs: &mut [T],
    cfg: &BandConfig,
    f: &F,
)
    requires
        bands_wf(*cfg),
        old(coeffs)@.len() == cfg.head_dim,
        forall|v: Vec<T>, m: i32| #[trigger] f.requires((v, m)),
        forall|v: Vec<T>, m: i32, r: Vec<T>| #[trigger]
            f.ensures((v, m), r) ==> r@.len() == v@.len(),
    ensures
        final(coeffs)@.len() == old(coeffs)@.len(),
        forall|b: int|
            0 <= b < cfg.n_bands ==> #[trigger] band_quantized(
                old(coeffs)@,
                final(coeffs)@,
                *cfg,
                b,
                *f,
            ),
{
    let ghost before = coeffs@;
    let n: usize = coeffs.len();
    let mut b: usize = 0;
    while b < cfg.n_bands
        invariant
            bands_wf(*cfg),
            n == cfg.head_dim,
            before.len() == n,
            coeffs@.len() == n,
            b <= cfg.n_bands,
            forall|v: Vec<T>, m: i32| #[trigger] f.requires((v, m)),
            forall|v: Vec<T>, m: i32, r: Vec<T>| #[trigger]
                f.ensures((v, m), r) ==> r@.len() == v@.len(),
            forall|c: int|
                0 <= c < b ==> #[trigger] band_quantized(before, coeffs@, *cfg, c, *f),
            forall|i: int|
                b < cfg.n_bands && b * band_size(*cfg) <= i < n ==> #[trigger] coeffs@[i]
                    == before[i],
        decreases cfg.n_bands - b,
    {
        let ghost was = coeffs@;
        proof {
            lemma_bands_fit(*cfg, b as int);
            if b + 1 < cfg.n_bands {
                lemma_bands_fit(*cfg, b + 1);
            }
        }
        let (off, sz) = cfg.band_span(b);
        assert(1 <= cfg.band_bits@[b as int] <= 31);
        let level: i32 = max_level(cfg.band_bits[b]);
        let band = copy_range(coeffs, off, off + sz);
        assert(band@ =~= band_of(before, *cfg, b as int));
        let out = f(band, level);
        crate::l0::usm::write_at(coeffs, off, out.as_slice());
        proof {
            assert(out@ =~= band_of(coeffs@, *cfg, b as int));
            assert(band_quantized(before, coeffs@, *cfg, b as int, *f));
            assert forall|c: int| 0 <= c < b + 1 implies #[trigger] band_quantized(
                before,
                coeffs@,
                *cfg,
                c,
                *f,
            ) by {
                if c < b {
                    assert(band_quantized(before, was, *cfg, c, *f));
                    lemma_bands_fit(*cfg, c);
                    let s = band_size(*cfg);
                    assert((c + 1) * s <= b * s) by (nonlinear_arith)
                        requires
                            c + 1 <= b,
                            s >= 0,
                    ;
                    assert(band_of(coeffs@, *cfg, c) =~= band_of(was, *cfg, c));
                }
            }
        }
        b = b + 1;
    }
}

// ---------------------------------------------------------------------------
// Transform schedule
// ---------------------------------------------------------------------------

/// No prime factor but 2 and 3.
pub open spec fn only_twos_and_threes(n: nat) -> bool
    decreases n,
{
    ||| n == 1
    ||| n > 1 && n % 3 == 0 && only_twos_and_threes(n / 3)
    ||| n > 1 && n % 2 == 0 && only_twos_and_threes(n / 2)
}

/// The product of a list of factors.
pub open spec fn product(s: Seq<usize>) -> nat
    decreases s.len(),
{
    if s.len() == 0 {
        1
    } else {
        product(s.drop_last()) * (s.last() as nat)
    }
}

/// The factors are threes and then twos, and multiply to `n`.
pub open spec fn is_factorization(s: Seq<usize>, n: nat) -> bool {
    &&& product(s) == n
    &&& forall|i: int| 0 <= i < s.len() ==> #[trigger] s[i] == 2 || s[i] == 3
    &&& forall|i: int, j: int| 0 <= i <= j < s.len() ==> #[trigger] s[i] >= #[trigger] s[j]
}

/// A number without another factor than 2 and 3, and without 3, is a power of
/// two: it is 1 or even, and its half is such a number again.
proof fn lemma_without_three(n: nat)
    requires
        only_twos_and_threes(n),
        n % 3 != 0,
    ensures
        n == 1 || (n % 2 == 0 && only_twos_and_threes(n / 2) && (n / 2) % 3 != 0),
    decreases n,
{
}

/// Taking out a 3 leaves a number of the same kind.
proof fn lemma_take_three(n: nat)
    requires
        only_twos_and_threes(n),
        n % 3 == 0,
    ensures
        only_twos_and_threes(n / 3),
    decreases n,
{
    if n % 2 == 0 && only_twos_and_threes(n / 2) && !only_twos_and_threes(n / 3) {
        assert((n / 2) % 3 == 0);
        lemma_take_three(n / 2);
        assert((n / 2) / 3 == (n / 3) / 2);
        assert((n / 3) % 2 == 0);
        assert(n / 3 > 1);
    }
}

/// Whether a length can be transformed: it has no prime factor but 2 and 3.
pub fn supports_len(n: usize) -> (r: bool)
    ensures
        r == only_twos_and_threes(n as nat),
{
    let mut m: usize = n;
    if m == 0 {
        return false;
    }
    while m % 3 == 0
        invariant
            m > 0,
            only_twos_and_threes(m as nat) == only_twos_and_threes(n as nat),
        decreases m,
    {
        proof {
            if only_twos_and_threes(m as nat) {
                lemma_take_three(m as nat);
            }
        }
        m = m / 3;
    }
    while m > 1
        invariant
            m > 0,
            m % 3 != 0,
            only_twos_and_threes(m as nat) == only_twos_and_threes(n as nat),
        decreases m,
    {
        proof {
            if only_twos_and_threes(m as nat) {
                lemma_without_three(m as nat);
            }
        }
        if m % 2 != 0 {
            return false;
        }
        m = m / 2;
    }
    true
}

/// The factors of `n`: threes first, then twos.
pub fn factorize_vht2(n: usize) -> (r: Vec<usize>)
    requires
        only_twos_and_threes(n as nat),
    ensures
        is_factorization(r@, n as nat),
{
    let mut m: usize = n;
    let mut factors: Vec<usize> = Vec::new();
    proof {
        assert(1 * (n as nat) == n) by (nonlinear_arith);
    }
    while m % 3 == 0
        invariant
            m > 0,
            only_twos_and_threes(m as nat),
            product(factors@) * (m as nat) == n,
            forall|i: int| 0 <= i < factors@.len() ==> #[trigger] factors@[i] == 3,
        decreases m,
    {
        proof {
            lemma_take_three(m as nat);
            let p = product(factors@);
            assert(factors@.push(3usize).drop_last() =~= factors@);
            assert((p * 3) * ((m / 3) as nat) == p * (m as nat)) by (nonlinear_arith)
                requires
                    m % 3 == 0,
            ;
        }
        factors.push(3);
        m = m / 3;
    }
    while m > 1
        invariant
            m > 0,
            m % 3 != 0,
            only_twos_and_threes(m as nat),
            product(factors@) * (m as nat) == n,
            forall|i: int| 0 <= i < factors@.len() ==> #[trigger] factors@[i] == 2 || factors@[i]
                == 3,
            forall|i: int, j: int|
                0 <= i <= j < factors@.len() ==> #[trigger] factors@[i] >= #[trigger] factors@[j],
        decreases m,
    {
        proof {
            lemma_without_three(m as nat);
            let p = product(factors@);
            assert(factors@.push(2usize).drop_last() =~= factors@);
            assert((p * 2) * ((m / 2) as nat) == p * (m as nat)) by (nonlinear_arith)
                requires
                    m % 2 == 0,
            ;
        }
        factors.push(2);
        m = m / 2;
    }
    proof {
        assert(product(factors@) * 1 == product(factors@)) by (nonlinear_arith);
    }
    factors
}

/// One stage of the transform: the vector is cut into blocks of `block`
/// coefficients, and a butterfly joins `radix` coefficients of one block that
/// lie `block / radix` apart.
#[derive(Debug, Clone, Copy, PartialEq, Eq, Structural)]
pub struct Stage {
    pub radix: usize,
    pub block: usize,
}

/// The stages of the transform of a vector of `n` coefficients: one per
/// factor, each on blocks as long as a part of the stage before.
pub open spec fn is_schedule(stages: Seq<Stage>, factors: Seq<usize>, n: nat) -> bool {
    &&& stages.len() == factors.len()
    &&& forall|i: int|
        0 <= i < stages.len() ==> {
            &&& (#[trigger] stages[i]).radix == factors[i]
            &&& stages[i].block * product(factors.take(i)) == n
            &&& stages[i].block % stages[i].radix == 0
            &&& stages[i].block > 0
        }
}

/// The stages of the transform of a vector of `n` coefficients.
pub fn vht2_stages(n: usize) -> (r: Vec<Stage>)
    requires
        only_twos_and_threes(n as nat),
    ensures
        exists|factors: Seq<usize>|
            is_factorization(factors, n as nat) && is_schedule(r@, factors, n as nat),
{
    let factors = factorize_vht2(n);
    let mut stages: Vec<Stage> = Vec::new();
    let mut block: usize = n;
    let mut i: usize = 0;
    proof {
        assert(factors@.take(0) =~= Seq::<usize>::empty());
        assert((n as nat) * 1 == n) by (nonlinear_arith);
        assert(n > 0);
    }
    while i < factors.len()
        invariant
            i <= factors@.len(),
            stages@.len() == i,
            is_factorization(factors@, n as nat),
            n > 0,
            (block as nat) * product(factors@.take(i as int)) == n,
            is_schedule(stages@, factors@.take(i as int), n as nat),
        decreases factors@.len() - i,
    {
        let radix: usize = factors[i];
        proof {
            lemma_next_block(factors@, i as int, block as nat, n as nat);
            assert(factors@.take(i + 1).drop_last() =~= factors@.take(i as int));
            assert forall|k: int| 0 <= k < i implies factors@.take(i + 1).take(k)
                == factors@.take(i as int).take(k) by {
                assert(factors@.take(i + 1).take(k) =~= factors@.take(i as int).take(k));
            }
            assert(factors@.take(i + 1).take(i as int) =~= factors@.take(i as int));
        }
        stages.push(Stage { radix, block });
        block = block / radix;
        i = i + 1;
    }
    proof {
        assert(factors@.take(i as int) =~= factors@);
    }
    stages
}

/// The block left after `i` stages is divisible by the next factor.
proof fn lemma_next_block(factors: Seq<usize>, i: int, block: nat, n: nat)
    requires
        is_factorization(factors, n),
        n > 0,
        0 <= i < factors.len(),
        block * product(factors.take(i)) == n,
    ensures
        factors[i] > 0,
        block % (factors[i] as nat) == 0,
        (block / (factors[i] as nat)) * product(factors.take(i + 1)) == n,
        block > 0,
{
    let p = product(factors.take(i));
    let f = factors[i] as nat;
    assert(factors.take(i + 1).drop_last() =~= factors.take(i));
    assert(product(factors.take(i + 1)) == p * f);
    let rest = lemma_product_splits(factors, i + 1);
    assert(block * p == (p * f) * rest);
    assert(p > 0) by (nonlinear_arith)
        requires
            block * p == n,
            n > 0,
            p >= 0,
            block >= 0,
    ;
    assert(block == f * rest) by (nonlinear_arith)
        requires
            block * p == (p * f) * rest,
            p > 0,
    ;
    assert(block > 0) by (nonlinear_arith)
        requires
            block * p == n,
            n > 0,
            block >= 0,
    ;
    vstd::arithmetic::div_mod::lemma_mod_multiples_basic(rest as int, f as int);
    assert(rest * f == block) by (nonlinear_arith)
        requires
            block == f * rest,
    ;
    vstd::arithmetic::div_mod::lemma_div_by_multiple(rest as int, f as int);
    assert(rest * (p * f) == n) by (nonlinear_arith)
        requires
            block * p == n,
            block == f * rest,
    ;
}

/// The product of the first factors divides the whole product.
proof fn lemma_product_splits(factors: Seq<usize>, i: int) -> (rest: nat)
    requires
        0 <= i <= factors.len(),
    ensures
        product(factors) == product(factors.take(i)) * rest,
    decreases factors.len() - i,
{
    if i == factors.len() {
        assert(factors.take(i) =~= factors);
        assert(product(factors) * 1 == product(factors)) by (nonlinear_arith);
        1
    } else {
        let later = lemma_product_splits(factors, i + 1);
        assert(factors.take(i + 1).drop_last() =~= factors.take(i));
        let p = product(factors.take(i));
        let f = factors[i] as nat;
        assert((p * f) * later == p * (f * later)) by (nonlinear_arith);
        f * later
    }
}

/// Coefficient `slot` of butterfly `g` of a stage.
pub open spec fn butterfly_index(stage: Stage, g: int, slot: int) -> int {
    let part = (stage.block as int) / (stage.radix as int);
    (g / part) * stage.block + slot * part + g % part
}

/// The position of coefficient `slot` of butterfly `g` of a stage.
pub fn butterfly_position(stage: Stage, n: usize, g: usize, slot: usize) -> (r: usize)
    requires
        stage.radix > 0,
        stage.block > 0,
        stage.block % stage.radix == 0,
        n % stage.block == 0,
        g < n / stage.radix,
        slot < stage.radix,
    ensures
        r == butterfly_index(stage, g as int, slot as int),
        r < n,
{
    let part: usize = stage.block / stage.radix;
    proof {
        lemma_butterfly_in_range(stage, n as int, g as int, slot as int);
    }
    (g / part) * stage.block + slot * part + g % part
}

/// Butterflies stay inside the vector.
proof fn lemma_butterfly_in_range(stage: Stage, n: int, g: int, slot: int)
    requires
        stage.radix > 0,
        stage.block > 0,
        stage.block % stage.radix == 0,
        n >= 0,
        n % (stage.block as int) == 0,
        0 <= g < n / (stage.radix as int),
        0 <= slot < stage.radix,
    ensures
        (stage.block as int) / (stage.radix as int) > 0,
        0 <= (g / ((stage.block as int) / (stage.radix as int))) * stage.block,
        0 <= slot * ((stage.block as int) / (stage.radix as int)),
        0 <= butterfly_index(stage, g, slot) < n,
        0 <= (g / ((stage.block as int) / (stage.radix as int))) * stage.block + slot * ((
        stage.block as int) / (stage.radix as int)) < n,
        (g / ((stage.block as int) / (stage.radix as int))) * stage.block <= n,
{
    let radix = stage.radix as int;
    let block = stage.block as int;
    let part = block / radix;
    let blocks = n / block;
    vstd::arithmetic::div_mod::lemma_fundamental_div_mod(block, radix);
    vstd::arithmetic::div_mod::lemma_fundamental_div_mod(n, block);
    assert(part > 0) by (nonlinear_arith)
        requires
            block == radix * part,
            block > 0,
            radix > 0,
    ;
    // n / radix == blocks * part
    assert(n == (blocks * part) * radix) by (nonlinear_arith)
        requires
            n == block * blocks,
            block == radix * part,
    ;
    vstd::arithmetic::div_mod::lemma_div_by_multiple(blocks * part, radix);
    assert(g < blocks * part);
    let q = g / part;
    let j = g % part;
    vstd::arithmetic::div_mod::lemma_fundamental_div_mod(g, part);
    assert(0 <= j < part);
    assert(q >= 0) by (nonlinear_arith)
        requires
            g == part * q + j,
            0 <= g,
            j < part,
            part > 0,
    ;
    assert(q < blocks) by (nonlinear_arith)
        requires
            g == part * q + j,
            g < blocks * part,
            j >= 0,
            part > 0,
    ;
    assert(0 <= q * block && 0 <= slot * part && slot * part + part <= block && q * block + block
        <= n) by (nonlinear_arith)
        requires
            0 <= q < blocks,
            n == block * blocks,
            block == radix * part,
            0 <= slot < radix,
            part > 0,
            block > 0,
    ;
}

/// The butterfly and the slot in it that a coefficient belongs to.
pub open spec fn butterfly_of(stage: Stage, i: int) -> (int, int) {
    let part = (stage.block as int) / (stage.radix as int);
    let block = stage.block as int;
    ((i / block) * part + (i % block) % part, (i % block) / part)
}

/// Every stage touches each coefficient exactly once: coefficient `i` is slot
/// `butterfly_of(i).1` of butterfly `butterfly_of(i).0`, and no other.
pub proof fn lemma_stage_touches_each_once(stage: Stage, n: int, i: int, g: int, slot: int)
    requires
        stage.radix > 0,
        stage.block > 0,
        stage.block % stage.radix == 0,
        n >= 0,
        n % (stage.block as int) == 0,
        0 <= i < n,
        0 <= g < n / (stage.radix as int),
        0 <= slot < stage.radix,
    ensures
        0 <= butterfly_of(stage, i).0 < n / (stage.radix as int),
        0 <= butterfly_of(stage, i).1 < stage.radix,
        butterfly_index(stage, butterfly_of(stage, i).0, butterfly_of(stage, i).1) == i,
        butterfly_index(stage, g, slot) == i ==> butterfly_of(stage, i) == (g, slot),
{
    let radix = stage.radix as int;
    let block = stage.block as int;
    let part = block / radix;
    let blocks = n / block;
    vstd::arithmetic::div_mod::lemma_fundamental_div_mod(block, radix);
    vstd::arithmetic::div_mod::lemma_fundamental_div_mod(n, block);
    lemma_butterfly_in_range(stage, n, g, slot);
    assert(n == (blocks * part) * radix) by (nonlinear_arith)
        requires
            n == block * blocks,
            block == radix * part,
    ;
    vstd::arithmetic::div_mod::lemma_div_by_multiple(blocks * part, radix);
    // decompose i
    let q = i / block;
    let r = i % block;
    vstd::arithmetic::div_mod::lemma_fundamental_div_mod(i, block);
    let s = r / part;
    let j = r % part;
    vstd::arithmetic::div_mod::lemma_fundamental_div_mod(r, part);
    assert(0 <= r < block && 0 <= j < part);
    assert(q >= 0 && q < blocks) by (nonlinear_arith)
        requires
            i == block * q + r,
            0 <= r < block,
            0 <= i < n,
            n == block * blocks,
            block > 0,
    ;
    assert(0 <= s < radix) by (nonlinear_arith)
        requires
            r == part * s + j,
            0 <= j < part,
            0 <= r < block,
            block == radix * part,
            part > 0,
    ;
    let h = q * part + j;
    assert(0 <= h < blocks * part) by (nonlinear_arith)
        requires
            0 <= q < blocks,
            0 <= j < part,
            h == q * part + j,
            part > 0,
    ;
    vstd::arithmetic::div_mod::lemma_fundamental_div_mod_converse(h, part, q, j);
    assert(butterfly_index(stage, h, s) == q * block + s * part + j);
    assert(q * block + s * part + j == i) by (nonlinear_arith)
        requires
            i == block * q + r,
            r == part * s + j,
    ;
    // uniqueness
    let gq = g / part;
    let gj = g % part;
    vstd::arithmetic::div_mod::lemma_fundamental_div_mod(g, part);
    if butterfly_index(stage, g, slot) == i {
        let rr = slot * part + gj;
        assert(0 <= rr < block) by (nonlinear_arith)
            requires
                0 <= slot < radix,
                0 <= gj < part,
                rr == slot * part + gj,
                block == radix * part,
        ;
        assert(i == gq * block + rr);
        vstd::arithmetic::div_mod::lemma_fundamental_div_mod_converse(i, block, gq, rr);
        assert(q == gq && r == rr);
        vstd::arithmetic::div_mod::lemma_fundamental_div_mod_converse(rr, part, slot, gj);
        assert(s == slot && j == gj);
        assert(part * gq == gq * part) by (nonlinear_arith);
    }
}

/// Every butterfly of the stage has been applied: its outputs are what `f2` or
/// `f3` gives for the coefficients that stood in its places before.
pub open spec fn stage_applied<T, F2: Fn(T, T) -> (T, T), F3: Fn(T, T, T) -> (T, T, T)>(
    stage: Stage,
    before: Seq<T>,
    after: Seq<T>,
    f2: F2,
    f3: F3,
) -> bool {
    &&& after.len() == before.len()
    &&& forall|g: int|
        0 <= g < before.len() as int / stage.radix as int ==> #[trigger] butterfly_applied(
            stage,
            before,
            after,
            g,
            f2,
            f3,
        )
}

/// Butterfly `g` of the stage has been applied.
pub open spec fn butterfly_applied<T, F2: Fn(T, T) -> (T, T), F3: Fn(T, T, T) -> (T, T, T)>(
    stage: Stage,
    before: Seq<T>,
    after: Seq<T>,
    g: int,
    f2: F2,
    f3: F3,
) -> bool {
    let i = butterfly_index(stage, g, 0);
    let j = butterfly_index(stage, g, 1);
    if stage.radix == 2 {
        f2.ensures((before[i], before[j]), (after[i], after[j]))
    } else {
        let k = butterfly_index(stage, g, 2);
        f3.ensures((before[i], before[j], before[k]), (after[i], after[j], after[k]))
    }
}

/// A stage that fits a vector of `n` coefficients.
pub open spec fn stage_fits(stage: Stage, n: int) -> bool {
    &&& stage.radix == 2 || stage.radix == 3
    &&& stage.block > 0
    &&& stage.block % stage.radix == 0
    &&& n % (stage.block as int) == 0
}

/// Applies one stage of the transform in place: `f2` to the pairs, or `f3` to
/// the triples, that the stage joins.
pub fn apply_stage<T: Copy, F2: Fn(T, T) -> (T, T), F3: Fn(T, T, T) -> (T, T, T)>(
    data: &mut [T],
    stage: Stage,
    f2: &F2,
    f3: &F3,
)
    requires
        stage_fits(stage, old(data)@.len() as int),
        forall|a: T, b: T| #[trigger] f2.requires((a, b)),
        forall|a: T, b: T, c: T| #[trigger] f3.requires((a, b, c)),
    ensures
        stage_applied(stage, old(data)@, final(data)@, *f2, *f3),
{
    let n: usize = data.len();
    let ghost before = data@;
    let count: usize = n / stage.radix;
    let mut g: usize = 0;
    while g < count
        invariant
            n == before.len(),
            data@.len() == n,
            stage_fits(stage, n as int),
            count == n / stage.radix,
            g <= count,
            forall|a: T, b: T| #[trigger] f2.requires((a, b)),
            forall|a: T, b: T, c: T| #[trigger] f3.requires((a, b, c)),
            forall|h: int|
                0 <= h < g ==> #[trigger] butterfly_applied(stage, before, data@, h, *f2, *f3),
            forall|i: int|
                0 <= i < n && butterfly_of(stage, i).0 >= g ==> #[trigger] data@[i] == before[i],
        decreases count - g,
    {
        let ghost was = data@;
        let i: usize = butterfly_position(stage, n, g, 0);
        let j: usize = butterfly_position(stage, n, g, 1);
        proof {
            lemma_stage_touches_each_once(stage, n as int, i as int, g as int, 0);
            lemma_stage_touches_each_once(stage, n as int, j as int, g as int, 1);
            assert(butterfly_of(stage, i as int) == (g as int, 0int));
            assert(butterfly_of(stage, j as int) == (g as int, 1int));
        }
        if stage.radix == 2 {
            let (x, y) = f2(data[i], data[j]);
            data[i] = x;
            data[j] = y;
            proof {
                assert(i != j);
                assert(butterfly_applied(stage, before, data@, g as int, *f2, *f3));
            }
        } else {
            let k: usize = butterfly_position(stage, n, g, 2);
            proof {
                lemma_stage_touches_each_once(stage, n as int, k as int, g as int, 2);
                assert(butterfly_of(stage, k as int) == (g as int, 2int));
            }
            let (x, y, z) = f3(data[i], data[j], data[k]);
            data[i] = x;
            data[j] = y;
            data[k] = z;
            proof {
                assert(i != j && j != k && i != k);
                assert(butterfly_applied(stage, before, data@, g as int, *f2, *f3));
            }
        }
        proof {
            assert forall|h: int| 0 <= h < g + 1 implies #[trigger] butterfly_applied(
                stage,
                before,
                data@,
                h,
                *f2,
                *f3,
            ) by {
                if h < g {
                    assert(butterfly_applied(stage, before, was, h, *f2, *f3));
                    lemma_other_butterfly_kept(stage, n as int, h, g as int, 0, was, data@);
                    lemma_other_butterfly_kept(stage, n as int, h, g as int, 1, was, data@);
                    if stage.radix == 3 {
                        lemma_other_butterfly_kept(stage, n as int, h, g as int, 2, was, data@);
                    }
                }
            }
        }
        g = g + 1;
    }
}

/// Where only butterfly `g` was written, the coefficients of another butterfly
/// are as they were.
proof fn lemma_other_butterfly_kept<T>(
    stage: Stage,
    n: int,
    h: int,
    g: int,
    slot: int,
    was: Seq<T>,
    now: Seq<T>,
)
    requires
        stage_fits(stage, n),
        0 <= n == was.len() == now.len(),
        0 <= h < n / (stage.radix as int),
        h != g,
        0 <= slot < stage.radix,
        forall|i: int|
            0 <= i < n && #[trigger] now[i] != was[i] ==> butterfly_of(stage, i).0 == g,
    ensures
        now[butterfly_index(stage, h, slot)] == was[butterfly_index(stage, h, slot)],
{
    let i = butterfly_index(stage, h, slot);
    lemma_butterfly_in_range(stage, n, h, slot);
    lemma_stage_touches_each_once(stage, n, i, h, slot);
}

/// The states that a vector goes through: `states[0]` is the input, and each
/// stage leads from one to the next.
pub open spec fn transform_run<T, F2: Fn(T, T) -> (T, T), F3: Fn(T, T, T) -> (T, T, T)>(
    states: Seq<Seq<T>>,
    stages: Seq<Stage>,
    f2: F2,
    f3: F3,
) -> bool {
    &&& states.len() == stages.len() + 1
    &&& forall|i: int|
        0 <= i < stages.len() ==> stage_applied(
            #[trigger] stages[i],
            states[i],
            states[i + 1],
            f2,
            f3,
        )
}

/// `after` is the transform of `before`: all stages of the schedule for its
/// length, one after the other.
pub open spec fn is_transform<T, F2: Fn(T, T) -> (T, T), F3: Fn(T, T, T) -> (T, T, T)>(
    before: Seq<T>,
    after: Seq<T>,
    f2: F2,
    f3: F3,
) -> bool {
    exists|states: Seq<Seq<T>>, stages: Seq<Stage>, factors: Seq<usize>|
        #![trigger transform_run(states, stages, f2, f3), is_schedule(stages, factors, before.len())]
        {
            &&& is_factorization(factors, before.len())
            &&& is_schedule(stages, factors, before.len())
            &&& transform_run(states, stages, f2, f3)
            &&& states[0] == before
            &&& states.last() == after
        }
}

/// A stage of a schedule fits the vector.
proof fn lemma_schedule_fits(stages: Seq<Stage>, factors: Seq<usize>, n: nat, i: int)
    requires
        is_factorization(factors, n),
        is_schedule(stages, factors, n),
        0 <= i < stages.len(),
        n > 0,
    ensures
        stage_fits(stages[i], n as int),
{
    let b = stages[i].block as int;
    let p = product(factors.take(i)) as int;
    assert(factors[i] == 2 || factors[i] == 3);
    assert(b * p == n as int);
    assert(p * b == n as int) by (nonlinear_arith)
        requires
            b * p == n as int,
    ;
    vstd::arithmetic::div_mod::lemma_mod_multiples_basic(p, b);
}

/// Transforms a vector in place: `f2` is the radix-2 and `f3` the radix-3
/// butterfly.
pub fn vht2_inplace<T: Copy, F2: Fn(T, T) -> (T, T), F3: Fn(T, T, T) -> (T, T, T)>(
    data: &mut [T],
    f2: &F2,
    f3: &F3,
)
    requires
        only_twos_and_threes(old(data)@.len()),
        forall|a: T, b: T| #[trigger] f2.requires((a, b)),
        forall|a: T, b: T, c: T| #[trigger] f3.requires((a, b, c)),
    ensures
        final(data)@.len() == old(data)@.len(),
        is_transform(old(data)@, final(data)@, *f2, *f3),
{
    let n: usize = data.len();
    let ghost before = data@;
    let stages = vht2_stages(n);
    let ghost factors = choose|factors: Seq<usize>|
        is_factorization(factors, n as nat) && is_schedule(stages@, factors, n as nat);
    let ghost mut states: Seq<Seq<T>> = seq![before];
    let mut i: usize = 0;
    proof {
        assert(stages@.take(0) =~= Seq::<Stage>::empty());
        assert(n > 0);
    }
    while i < stages.len()
        invariant
            n > 0,
            n == before.len(),
            data@.len() == n,
            i <= stages@.len(),
            is_factorization(factors, n as nat),
            is_schedule(stages@, factors, n as nat),
            forall|a: T, b: T| #[trigger] f2.requires((a, b)),
            forall|a: T, b: T, c: T| #[trigger] f3.requires((a, b, c)),
            states.len() == i + 1,
            states[0] == before,
            states[i as int] == data@,
            forall|k: int|
                0 <= k < i ==> stage_applied(
                    #[trigger] stages@[k],
                    states[k],
                    states[k + 1],
                    *f2,
                    *f3,
                ),
        decreases stages@.len() - i,
    {
        proof {
            lemma_schedule_fits(stages@, factors, n as nat, i as int);
        }
        let stage = stages[i];
        apply_stage(data, stage, f2, f3);
        proof {
            let more = states.push(data@);
            assert forall|k: int| 0 <= k < i + 1 implies stage_applied(
                #[trigger] stages@[k],
                more[k],
                more[k + 1],
                *f2,
                *f3,
            ) by {
                assert(more[k] == states[k]);
                if k < i {
                    assert(more[k + 1] == states[k + 1]);
                }
            }
            states = more;
        }
        i = i + 1;
    }
    proof {
        assert(transform_run(states, stages@, *f2, *f3));
        assert(states.last() == data@);
    }
}

// ---------------------------------------------------------------------------
// Compression of vectors and tensors
// ---------------------------------------------------------------------------

/// The butterflies and the quantiser can be applied to everything, and the
/// quantiser gives back as many coefficients as it takes.
pub open spec fn codec_ok<
    T,
    F2: Fn(T, T) -> (T, T),
    F3: Fn(T, T, T) -> (T, T, T),
    Q: Fn(Vec<T>, i32) -> Vec<T>,
>(f2: F2, f3: F3, q: Q) -> bool {
    &&& forall|a: T, b: T| #[trigger] f2.requires((a, b))
    &&& forall|a: T, b: T, c: T| #[trigger] f3.requires((a, b, c))
    &&& forall|v: Vec<T>, m: i32| #[trigger] q.requires((v, m))
    &&& forall|v: Vec<T>, m: i32, r: Vec<T>| #[trigger]
        q.ensures((v, m), r) ==> r@.len() == v@.len()
}

/// A vector of the bands' length, which can be transformed.
pub open spec fn vector_fits(len: nat, cfg: BandConfig) -> bool {
    &&& bands_wf(cfg)
    &&& len == cfg.head_dim
    &&& only_twos_and_threes(len)
}

/// `after` is `before` transformed, with every band of it quantised.
pub open spec fn is_compressed<
    T,
    F2: Fn(T, T) -> (T, T),
    F3: Fn(T, T, T) -> (T, T, T),
    Q: Fn(Vec<T>, i32) -> Vec<T>,
>(before: Seq<T>, after: Seq<T>, cfg: BandConfig, f2: F2, f3: F3, q: Q) -> bool {
    exists|mid: Seq<T>| #[trigger]
        is_transform(before, mid, f2, f3) && mid.len() == before.len() && after.len()
            == before.len() && forall|b: int|
            0 <= b < cfg.n_bands ==> #[trigger] band_quantized(mid, after, cfg, b, q)
}

/// `after` is `before` compressed and decompressed.
pub open spec fn is_roundtrip<
    T,
    F2: Fn(T, T) -> (T, T),
    F3: Fn(T, T, T) -> (T, T, T),
    Q: Fn(Vec<T>, i32) -> Vec<T>,
>(before: Seq<T>, after: Seq<T>, cfg: BandConfig, f2: F2, f3: F3, q: Q) -> bool {
    exists|mid: Seq<T>|
        #![trigger is_compressed(before, mid, cfg, f2, f3, q)]
        is_compressed(before, mid, cfg, f2, f3, q) && is_transform(mid, after, f2, f3)
}

/// Compresses a vector in place: transforms it and quantises every band.
pub fn compress_kv_vector<
    T: Copy,
    F2: Fn(T, T) -> (T, T),
    F3: Fn(T, T, T) -> (T, T, T),
    Q: Fn(Vec<T>, i32) -> Vec<T>,
>(vec: &mut [T], cfg: &BandConfig, f2: &F2, f3: &F3, q: &Q)
    requires
        codec_ok(*f2, *f3, *q),
        vector_fits(old(vec)@.len(), *cfg),
    ensures
        final(vec)@.len() == old(vec)@.len(),
        is_compressed(old(vec)@, final(vec)@, *cfg, *f2, *f3, *q),
{
    vht2_inplace(vec, f2, f3);
    quantize_bands(vec, cfg, q);
}

/// Decompresses a vector in place: transforms it back.
pub fn decompress_kv_vector<
    T: Copy,
    F2: Fn(T, T) -> (T, T),
    F3: Fn(T, T, T) -> (T, T, T),
>(vec: &mut [T], f2: &F2, f3: &F3)
    requires
        only_twos_and_threes(old(vec)@.len()),
        forall|a: T, b: T| #[trigger] f2.requires((a, b)),
        forall|a: T, b: T, c: T| #[trigger] f3.requires((a, b, c)),
    ensures
        final(vec)@.len() == old(vec)@.len(),
        is_transform(old(vec)@, final(vec)@, *f2, *f3),
{
    vht2_inplace(vec, f2, f3);
}

/// Compresses and decompresses a vector in place.
pub fn roundtrip_kv_vector<
    T: Copy,
    F2: Fn(T, T) -> (T, T),
    F3: Fn(T, T, T) -> (T, T, T),
    Q: Fn(Vec<T>, i32) -> Vec<T>,
>(vec: &mut [T], cfg: &BandConfig, f2: &F2, f3: &F3, q: &Q)
    requires
        codec_ok(*f2, *f3, *q),
        vector_fits(old(vec)@.len(), *cfg),
    ensures
        final(vec)@.len() == old(vec)@.len(),
        is_roundtrip(old(vec)@, final(vec)@, *cfg, *f2, *f3, *q),
{
    compress_kv_vector(vec, cfg, f2, f3, q);
    decompress_kv_vector(vec, f2, f3);
}

/// `after` is what `g` gives for `before`.
pub open spec fn maps<T, G: Fn(Vec<T>) -> Vec<T>>(before: Seq<T>, after: Seq<T>, g: G) -> bool {
    exists|v: Vec<T>, w: Vec<T>|
        #![trigger g.ensures((v,), w)]
        g.ensures((v,), w) && v@ == before && w@ == after
}

/// Applies `g` to every vector of a flat list of vectors of `dim` values.
pub fn map_vectors<T: Copy, G: Fn(Vec<T>) -> Vec<T>>(data: &[T], dim: usize, g: &G) -> (r: Vec<T>)
    requires
        dim > 0,
        data@.len() % dim as nat == 0,
        forall|v: Vec<T>| v@.len() == dim ==> #[trigger] g.requires((v,)),
        forall|v: Vec<T>, w: Vec<T>| #[trigger]
            g.ensures((v,), w) && v@.len() == dim ==> w@.len() == dim,
    ensures
        r@.len() == data@.len(),
        forall|i: int|
            0 <= i < data@.len() as int / dim as int ==> #[trigger] vector_mapped(
                data@,
                r@,
                dim as int,
                i,
                *g,
            ),
{
    let n: usize = data.len();
    let count: usize = n / dim;
    let mut out: Vec<T> = Vec::with_capacity(n);
    let mut i: usize = 0;
    let mut at: usize = 0;
    proof {
        vstd::arithmetic::div_mod::lemma_fundamental_div_mod(n as int, dim as int);
        assert(0 * dim == 0) by (nonlinear_arith);
    }
    while i < count
        invariant
            n == data@.len(),
            dim > 0,
            n == dim * count,
            i <= count,
            at == i * dim,
            out@.len() == i * dim,
            forall|v: Vec<T>| v@.len() == dim ==> #[trigger] g.requires((v,)),
            forall|v: Vec<T>, w: Vec<T>| #[trigger]
                g.ensures((v,), w) && v@.len() == dim ==> w@.len() == dim,
            forall|k: int|
                0 <= k < i ==> #[trigger] vector_mapped(data@, out@, dim as int, k, *g),
        decreases count - i,
    {
        let ghost before = out@;
        proof {
            assert((i + 1) * dim == i * dim + dim && (i + 1) * dim <= dim * count)
                by (nonlinear_arith)
                requires
                    i + 1 <= count,
                    dim >= 0,
            ;
        }
        let v = copy_range(data, at, at + dim);
        let w = g(v);
        append_all(&mut out, w.as_slice());
        proof {
            assert(v@ =~= vector_of(data@, dim as int, i as int));
            assert(w@ =~= vector_of(out@, dim as int, i as int));
            assert(vector_mapped(data@, out@, dim as int, i as int, *g));
            assert forall|k: int| 0 <= k < i + 1 implies #[trigger] vector_mapped(
                data@,
                out@,
                dim as int,
                k,
                *g,
            ) by {
                if k < i {
                    assert(vector_mapped(data@, before, dim as int, k, *g));
                    assert(0 <= k * dim && k * dim + dim <= i * dim && (k + 1) * dim == k * dim
                        + dim) by (nonlinear_arith)
                        requires
                            0 <= k < i,
                            dim >= 0,
                    ;
                    assert(vector_of(out@, dim as int, k) =~= vector_of(before, dim as int, k));
                }
            }
        }
        at = at + dim;
        i = i + 1;
    }
    proof {
        assert(n as int / dim as int == count);
        assert(count * dim == dim * count) by (nonlinear_arith);
    }
    out
}

/// Vector `i` of a flat list of vectors of `dim` values.
pub open spec fn vector_of<T>(data: Seq<T>, dim: int, i: int) -> Seq<T> {
    data.subrange(i * dim, i * dim + dim)
}

/// Vector `i` of `after` is what `g` gives for vector `i` of `before`.
pub open spec fn vector_mapped<T, G: Fn(Vec<T>) -> Vec<T>>(
    before: Seq<T>,
    after: Seq<T>,
    dim: int,
    i: int,
    g: G,
) -> bool {
    maps(vector_of(before, dim, i), vector_of(after, dim, i), g)
}

/// The vectors of `after` come from those of `before` by `rel`, one by one.
pub open spec fn vectors_related<T>(
    before: Seq<T>,
    after: Seq<T>,
    dim: int,
    rel: spec_fn(Seq<T>, Seq<T>) -> bool,
) -> bool {
    &&& after.len() == before.len()
    &&& forall|i: int|
        0 <= i < before.len() as int / dim ==> rel(
            #[trigger] vector_of(before, dim, i),
            vector_of(after, dim, i),
        )
}

/// Compresses and decompresses every vector of a flat list.
pub fn roundtrip_vectors<
    T: Copy,
    F2: Fn(T, T) -> (T, T),
    F3: Fn(T, T, T) -> (T, T, T),
    Q: Fn(Vec<T>, i32) -> Vec<T>,
>(data: &[T], cfg: &BandConfig, f2: &F2, f3: &F3, q: &Q) -> (r: Vec<T>)
    requires
        codec_ok(*f2, *f3, *q),
        vector_fits(cfg.head_dim as nat, *cfg),
        data@.len() % cfg.head_dim as nat == 0,
    ensures
        vectors_related(
            data@,
            r@,
            cfg.head_dim as int,
            |a: Seq<T>, b: Seq<T>| is_roundtrip(a, b, *cfg, *f2, *f3, *q),
        ),
{
    let g = |v: Vec<T>| -> (w: Vec<T>)
        requires
            v@.len() == cfg.head_dim,
        ensures
            w@.len() == v@.len(),
            is_roundtrip(v@, w@, *cfg, *f2, *f3, *q),
        {
            let mut w = v;
            roundtrip_kv_vector(w.as_mut_slice(), cfg, f2, f3, q);
            w
        };
    let r = map_vectors(data, cfg.head_dim, &g);
    proof {
        let dim = cfg.head_dim as int;
        let rel = |a: Seq<T>, b: Seq<T>| is_roundtrip(a, b, *cfg, *f2, *f3, *q);
        assert forall|i: int| 0 <= i < data@.len() as int / dim implies rel(
            #[trigger] vector_of(data@, dim, i),
            vector_of(r@, dim, i),
        ) by {
            assert(vector_mapped(data@, r@, dim, i, g));
        }
    }
    r
}

/// The tensors have one shape, and the vectors of `after` come from those of
/// `before` by `rel`, one by one.
pub open spec fn tensors_related<T>(
    before: KvModel<T>,
    after: KvModel<T>,
    rel: spec_fn(Seq<T>, Seq<T>) -> bool,
) -> bool {
    &&& after.wf()
    &&& before.fits(after)
    &&& after.seq == before.seq
    &&& forall|l: int|
        0 <= l < before.lanes.len() ==> vectors_related(
            #[trigger] before.lanes[l],
            after.lanes[l],
            before.head_dim as int,
            rel,
        )
}

/// Applies `g` to every vector of a tensor.
fn map_tensor<T: Copy, G: Fn(Vec<T>) -> Vec<T>>(
    t: &KvTensor<T>,
    g: &G,
    rel: Ghost<spec_fn(Seq<T>, Seq<T>) -> bool>,
) -> (r: KvTensor<T>)
    requires
        t.wf(),
        t.head_dim > 0,
        forall|v: Vec<T>| v@.len() == t.head_dim ==> #[trigger] g.requires((v,)),
        forall|v: Vec<T>, w: Vec<T>| #[trigger]
            g.ensures((v,), w) && v@.len() == t.head_dim ==> w@.len() == t.head_dim && rel@(
                v@,
                w@,
            ),
    ensures
        r.wf(),
        tensors_related(t@, r@, rel@),
{
    let mut lanes: Vec<Vec<T>> = Vec::new();
    let hd: usize = t.head_dim;
    let mut l: usize = 0;
    while l < t.lanes.len()
        invariant
            t.wf(),
            hd == t.head_dim,
            hd > 0,
            forall|v: Vec<T>| v@.len() == t.head_dim ==> #[trigger] g.requires((v,)),
            forall|v: Vec<T>, w: Vec<T>| #[trigger]
                g.ensures((v,), w) && v@.len() == t.head_dim ==> w@.len() == t.head_dim && rel@(
                    v@,
                    w@,
                ),
            l <= t.lanes@.len(),
            lanes@.len() == l,
            forall|k: int|
                0 <= k < l ==> vectors_related(
                    t.lanes@[k]@,
                    (#[trigger] lanes@[k])@,
                    hd as int,
                    rel@,
                ),
        decreases t.lanes@.len() - l,
    {
        let ghost lane = t.lanes@[l as int]@;
        proof {
            assert(t@.lanes[l as int].len() == t@.seq * t@.head_dim);
            vstd::arithmetic::div_mod::lemma_mod_multiples_basic(t.seq as int, hd as int);
        }
        let out = map_vectors(t.lanes[l].as_slice(), hd, g);
        proof {
            assert forall|i: int| 0 <= i < lane.len() as int / hd as int implies rel@(
                #[trigger] vector_of(lane, hd as int, i),
                vector_of(out@, hd as int, i),
            ) by {
                assert(vector_mapped(lane, out@, hd as int, i, *g));
                lemma_vector_len(lane.len() as int, hd as int, i);
            }
        }
        lanes.push(out);
        l = l + 1;
    }
    let r = KvTensor {
        batch: t.batch,
        heads: t.heads,
        seq: t.seq,
        head_dim: t.head_dim,
        lanes,
    };
    proof {
        assert forall|k: int| 0 <= k < t@.lanes.len() implies vectors_related(
            #[trigger] t@.lanes[k],
            r@.lanes[k],
            t@.head_dim as int,
            rel@,
        ) by {
            assert(vectors_related(t.lanes@[k]@, lanes@[k]@, hd as int, rel@));
        }
        assert forall|k: int| 0 <= k < r@.lanes.len() implies (#[trigger] r@.lanes[k]).len()
            == r@.seq * r@.head_dim by {
            assert(t@.lanes[k].len() == t@.seq * t@.head_dim);
            assert(vectors_related(t.lanes@[k]@, lanes@[k]@, hd as int, rel@));
        }
    }
    r
}

/// A vector of a flat list lies inside it.
proof fn lemma_vector_len(len: int, dim: int, i: int)
    requires
        dim > 0,
        len >= 0,
        0 <= i < len / dim,
    ensures
        0 <= i * dim,
        i * dim + dim <= len,
{
    assert(0 <= i * dim && i * dim + dim <= (len / dim) * dim && (len / dim) * dim <= len)
        by (nonlinear_arith)
        requires
            dim > 0,
            len >= 0,
            0 <= i < len / dim,
    ;
}

/// Compresses every vector of a tensor.
pub fn compress_kv_tensor<
    T: Copy,
    F2: Fn(T, T) -> (T, T),
    F3: Fn(T, T, T) -> (T, T, T),
    Q: Fn(Vec<T>, i32) -> Vec<T>,
>(t: &KvTensor<T>, cfg: &BandConfig, f2: &F2, f3: &F3, q: &Q) -> (r: KvTensor<T>)
    requires
        t.wf(),
        codec_ok(*f2, *f3, *q),
        vector_fits(t.head_dim as nat, *cfg),
    ensures
        r.wf(),
        tensors_related(
            t@,
            r@,
            |a: Seq<T>, b: Seq<T>| is_compressed(a, b, *cfg, *f2, *f3, *q),
        ),
{
    let g = |v: Vec<T>| -> (w: Vec<T>)
        requires
            v@.len() == cfg.head_dim,
        ensures
            w@.len() == v@.len(),
            is_compressed(v@, w@, *cfg, *f2, *f3, *q),
        {
            let mut w = v;
            compress_kv_vector(w.as_mut_slice(), cfg, f2, f3, q);
            w
        };
    map_tensor(
        t,
        &g,
        Ghost(|a: Seq<T>, b: Seq<T>| is_compressed(a, b, *cfg, *f2, *f3, *q)),
    )
}

/// Decompresses every vector of a tensor.
pub fn decompress_kv_tensor<
    T: Copy,
    F2: Fn(T, T) -> (T, T),
    F3: Fn(T, T, T) -> (T, T, T),
>(t: &KvTensor<T>, f2: &F2, f3: &F3) -> (r: KvTensor<T>)
    requires
        t.wf(),
        only_twos_and_threes(t.head_dim as nat),
        forall|a: T, b: T| #[trigger] f2.requires((a, b)),
        forall|a: T, b: T, c: T| #[trigger] f3.requires((a, b, c)),
    ensures
        r.wf(),
        tensors_related(t@, r@, |a: Seq<T>, b: Seq<T>| is_transform(a, b, *f2, *f3)),
{
    let hd: usize = t.head_dim;
    let g = |v: Vec<T>| -> (w: Vec<T>)
        requires
            v@.len() == hd,
        ensures
            w@.len() == v@.len(),
            is_transform(v@, w@, *f2, *f3),
        {
            let mut w = v;
            decompress_kv_vector(w.as_mut_slice(), f2, f3);
            w
        };
    map_tensor(t, &g, Ghost(|a: Seq<T>, b: Seq<T>| is_transform(a, b, *f2, *f3)))
}

/// Compresses and decompresses every vector of a tensor.
pub fn roundtrip_kv_tensor<
    T: Copy,
    F2: Fn(T, T) -> (T, T),
    F3: Fn(T, T, T) -> (T, T, T),
    Q: Fn(Vec<T>, i32) -> Vec<T>,
>(t: &KvTensor<T>, cfg: &BandConfig, f2: &F2, f3: &F3, q: &Q) -> (r: KvTensor<T>)
    requires
        t.wf(),
        codec_ok(*f2, *f3, *q),
        vector_fits(t.head_dim as nat, *cfg),
    ensures
        r.wf(),
        tensors_related(t@, r@, |a: Seq<T>, b: Seq<T>| is_roundtrip(a, b, *cfg, *f2, *f3, *q)),
{
    let g = |v: Vec<T>| -> (w: Vec<T>)
        requires
            v@.len() == cfg.head_dim,
        ensures
            w@.len() == v@.len(),
            is_roundtrip(v@, w@, *cfg, *f2, *f3, *q),
        {
            let mut w = v;
            roundtrip_kv_vector(w.as_mut_slice(), cfg, f2, f3, q);
            w
        };
    map_tensor(
        t,
        &g,
        Ghost(|a: Seq<T>, b: Seq<T>| is_roundtrip(a, b, *cfg, *f2, *f3, *q)),
    )
}

// ---------------------------------------------------------------------------
// Compressed cache
// ---------------------------------------------------------------------------

/// A cache whose keys and values are compressed on write and decompressed on
/// read.
pub struct ShannonPrimeKVCache<T> {
    pub inner: KVCache<T>,
    pub config: ShannonPrimeConfig,
}

impl<T: Copy> ShannonPrimeKVCache<T> {
    /// An empty cache.
    pub fn new(config: ShannonPrimeConfig) -> (r: Self)
        ensures
            r.inner.wf(),
            r.inner@.k is None,
            r.inner@.v is None,
            r.inner@.capacity == 0,
            r.inner@.shannon_prime is None,
            r.config == config,
    {
        ShannonPrimeKVCache { inner: KVCache::new(), config }
    }

    /// Appends keys and values and returns all that is held. Where compression
    /// is enabled, what is held is compressed and what is returned is not.
    pub fn update<
        F2: Fn(T, T) -> (T, T),
        F3: Fn(T, T, T) -> (T, T, T),
        Q: Fn(Vec<T>, i32) -> Vec<T>,
    >(&mut self, k: KvTensor<T>, v: KvTensor<T>, f2: &F2, f3: &F3, q: &Q) -> (r: (
        KvTensor<T>,
        KvTensor<T>,
    ))
        requires
            old(self).inner.wf(),
            old(self).inner@.shannon_prime is None,
            old(self).inner@.accepts(k@, v@),
            old(self).inner@.grown_fits(k@, v@),
            k.wf(),
            v.wf(),
            codec_ok(*f2, *f3, *q),
            old(self).config.enabled ==> vector_fits(k.head_dim as nat, old(self).config.k_config)
                && vector_fits(v.head_dim as nat, old(self).config.v_config),
        ensures
            final(self).inner.wf(),
            final(self).inner@.shannon_prime is None,
            final(self).config == old(self).config,
            r.0.wf(),
            r.1.wf(),
            !old(self).config.enabled ==> {
                &&& final(self).inner@ == old(self).inner@.updated(k@, v@)
                &&& r.0@ == final(self).inner@.visible_k()
                &&& r.1@ == final(self).inner@.visible_v()
            },
            old(self).config.enabled ==> {
                &&& exists|kc: KvModel<T>, vc: KvModel<T>|
                    #![trigger old(self).inner@.updated(kc, vc)]
                    {
                        &&& tensors_related(
                            k@,
                            kc,
                            |a: Seq<T>, b: Seq<T>|
                                is_compressed(a, b, old(self).config.k_config, *f2, *f3, *q),
                        )
                        &&& tensors_related(
                            v@,
                            vc,
                            |a: Seq<T>, b: Seq<T>|
                                is_compressed(a, b, old(self).config.v_config, *f2, *f3, *q),
                        )
                        &&& final(self).inner@ == old(self).inner@.updated(kc, vc)
                    }
                &&& tensors_related(
                    final(self).inner@.visible_k(),
                    r.0@,
                    |a: Seq<T>, b: Seq<T>| is_transform(a, b, *f2, *f3),
                )
                &&& tensors_related(
                    final(self).inner@.visible_v(),
                    r.1@,
                    |a: Seq<T>, b: Seq<T>| is_transform(a, b, *f2, *f3),
                )
            },
    {
        if !self.config.enabled {
            return self.inner.update(k, v);
        }
        let kc = compress_kv_tensor(&k, &self.config.k_config, f2, f3, q);
        let vc = compress_kv_tensor(&v, &self.config.v_config, f2, f3, q);
        let ghost before = self.inner@;
        let (k_full, v_full) = self.inner.update(kc, vc);
        assert(self.inner@ == before.updated(kc@, vc@));
        (decompress_kv_tensor(&k_full, f2, f3), decompress_kv_tensor(&v_full, f2, f3))
    }

    /// Positions held.
    pub fn seq_len(&self) -> (r: usize)
        requires
            self.inner.wf(),
        ensures
            r == self.inner@.seq_len(),
    {
        self.inner.seq_len()
    }

    /// Forgets everything.
    pub fn reset(&mut self)
        requires
            old(self).inner.wf(),
        ensures
            final(self).inner.wf(),
            final(self).config == old(self).config,
            final(self).inner@ == old(self).inner@.cleared(),
    {
        self.inner.reset();
    }
}

/// Exactly the lengths built from twos and threes can be transformed: one is,
/// doubling and tripling keep it so and take nothing in that was not, and a
/// length above one that is neither even nor a multiple of three is not.
pub proof fn lemma_lengths_are_built_from_twos_and_threes(n: nat)
    ensures
        only_twos_and_threes(1),
        !only_twos_and_threes(0),
        only_twos_and_threes(2 * n) <==> only_twos_and_threes(n),
        only_twos_and_threes(3 * n) <==> only_twos_and_threes(n),
        n > 1 && n % 2 != 0 && n % 3 != 0 ==> !only_twos_and_threes(n),
{
    assert((2 * n) / 2 == n && (3 * n) / 3 == n);
    if only_twos_and_threes(3 * n) {
        lemma_take_three(3 * n);
    }
    if only_twos_and_threes(2 * n) {
        lemma_take_two(2 * n);
    }
}

/// Taking out a 2 leaves a number of the same kind.
proof fn lemma_take_two(n: nat)
    requires
        only_twos_and_threes(n),
        n % 2 == 0,
    ensures
        only_twos_and_threes(n / 2),
    decreases n,
{
    if n % 3 == 0 && only_twos_and_threes(n / 3) && !only_twos_and_threes(n / 2) {
        assert((n / 3) % 2 == 0);
        lemma_take_two(n / 3);
        assert((n / 3) / 2 == (n / 2) / 3);
        assert((n / 2) % 3 == 0);
        assert(n / 2 > 1);
    }
}

/// The vectors of a list make it up: where every vector of one list is the same
/// as its counterpart, so are the lists.
pub proof fn lemma_vectors_make_up_the_list<T>(a: Seq<T>, b: Seq<T>, dim: int)
    requires
        dim > 0,
        a.len() as int % dim == 0,
        vectors_related(a, b, dim, |x: Seq<T>, y: Seq<T>| x == y),
    ensures
        a == b,
{
    let n = a.len() as int;
    let count = n / dim;
    vstd::arithmetic::div_mod::lemma_fundamental_div_mod(n, dim);
    assert forall|i: int| 0 <= i < n implies a[i] == b[i] by {
        let k = i / dim;
        let d = i % dim;
        vstd::arithmetic::div_mod::lemma_fundamental_div_mod(i, dim);
        assert(0 <= k < count && k * dim + d == i && 0 <= k * dim && k * dim + dim <= n)
            by (nonlinear_arith)
            requires
                i == dim * k + d,
                0 <= d < dim,
                0 <= i < n,
                n == dim * count,
                dim > 0,
        ;
        assert(vector_of(a, dim, k) == vector_of(b, dim, k));
        assert(vector_of(a, dim, k)[d] == a[i]);
        assert(vector_of(b, dim, k)[d] == b[i]);
    }
    assert(a =~= b);
}

/// Related tensors have one shape: where the relation is that of being the
/// same, so are the tensors.
pub proof fn lemma_vectors_make_up_the_tensor<T>(a: KvModel<T>, b: KvModel<T>)
    requires
        a.wf(),
        a.head_dim > 0,
        tensors_related(a, b, |x: Seq<T>, y: Seq<T>| x == y),
    ensures
        a == b,
{
    let same = |x: Seq<T>, y: Seq<T>| x == y;
    let dim = a.head_dim as int;
    assert forall|l: int| 0 <= l < a.lanes.len() implies #[trigger] a.lanes[l] == b.lanes[l] by {
        assert(a.lanes[l].len() == a.seq * a.head_dim);
        vstd::arithmetic::div_mod::lemma_mod_multiples_basic(a.seq as int, dim);
        assert(vectors_related(a.lanes[l], b.lanes[l], dim, same));
        lemma_vectors_make_up_the_list(a.lanes[l], b.lanes[l], dim);
    }
    assert(a.lanes =~= b.lanes);
}

} // verus!

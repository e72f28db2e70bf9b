//! The transform on exact numbers: it is its own inverse and keeps the energy
//! of a vector.

use crate::models::layers::shannon_prime::{
    band_of, band_quantized, butterfly_applied, butterfly_index, butterfly_of, is_compressed,
    is_factorization, is_roundtrip, is_schedule, is_transform, lemma_bands_are_even,
    lemma_bands_partition, lemma_stage_touches_each_once, product, span_of, stage_applied,
    stage_fits, transform_run, vector_fits, BandConfig, Stage,
};
use vstd::prelude::*;

verus! {

/// The roots that the butterflies are made of.
pub struct Roots {
    /// One over the square root of 2.
    pub inv_sqrt2: real,
    /// One over the square root of 3.
    pub inv_sqrt3: real,
    /// The square root of 3.
    pub sqrt3: real,
}

impl Roots {
    pub open spec fn exact(self) -> bool {
        &&& self.inv_sqrt2 * self.inv_sqrt2 * (2 as real) == 1 as real
        &&& self.inv_sqrt3 * self.inv_sqrt3 * (3 as real) == 1 as real
        &&& self.sqrt3 * self.sqrt3 == 3 as real
    }

    /// cos + sin of a third of a turn.
    pub open spec fn cas1(self) -> real {
        (self.sqrt3 - 1 as real) / (2 as real)
    }

    /// cos + sin of two thirds of a turn.
    pub open spec fn cas2(self) -> real {
        (0 as real - self.sqrt3 - 1 as real) / (2 as real)
    }

    /// Output `slot` of the butterfly of the given radix. The third input is
    /// not used by the radix-2 butterfly.
    pub open spec fn out(self, radix: int, slot: int, a: real, b: real, c: real) -> real {
        if radix == 2 {
            if slot == 0 {
                (a + b) * self.inv_sqrt2
            } else {
                (a - b) * self.inv_sqrt2
            }
        } else if slot == 0 {
            (a + b + c) * self.inv_sqrt3
        } else if slot == 1 {
            (a + b * self.cas1() + c * self.cas2()) * self.inv_sqrt3
        } else {
            (a + b * self.cas2() + c * self.cas1()) * self.inv_sqrt3
        }
    }
}

/// Coefficients of one butterfly lie this far apart.
pub open spec fn gap(stage: Stage) -> int {
    stage.block as int / stage.radix as int
}

/// Where input `t` of the butterfly that writes coefficient `i` stands.
pub open spec fn input_at(stage: Stage, i: int, t: int) -> int {
    let block = stage.block as int;
    (i / block) * block + t * gap(stage) + (i % block) % gap(stage)
}

/// The slot of coefficient `i` in its butterfly.
pub open spec fn slot_at(stage: Stage, i: int) -> int {
    (i % (stage.block as int)) / gap(stage)
}

/// One stage on exact numbers.
pub open spec fn exact_stage(k: Roots, stage: Stage, x: Seq<real>) -> Seq<real> {
    Seq::new(
        x.len(),
        |i: int|
            k.out(
                stage.radix as int,
                slot_at(stage, i),
                x[input_at(stage, i, 0)],
                x[input_at(stage, i, 1)],
                x[input_at(stage, i, 2)],
            ),
    )
}

/// All stages on exact numbers.
pub open spec fn exact_run(k: Roots, stages: Seq<Stage>, x: Seq<real>) -> Seq<real>
    decreases stages.len(),
{
    if stages.len() == 0 {
        x
    } else {
        exact_run(k, stages.drop_first(), exact_stage(k, stages[0], x))
    }
}

/// The stages of a vector of `n` coefficients: the first one works on the
/// whole vector, the others on its parts.
pub open spec fn is_chain(stages: Seq<Stage>, n: int) -> bool
    decreases stages.len(),
{
    if stages.len() == 0 {
        n == 1
    } else {
        &&& stages[0].block == n
        &&& stages[0].radix == 2 || stages[0].radix == 3
        &&& n > 0
        &&& n % (stages[0].radix as int) == 0
        &&& is_chain(stages.drop_first(), n / (stages[0].radix as int))
    }
}

// ---------------------------------------------------------------------------
// Parts
// ---------------------------------------------------------------------------

/// Part `s` of a vector cut into parts of `p`.
pub open spec fn part_of(x: Seq<real>, p: int, s: int) -> Seq<real> {
    x.subrange(s * p, s * p + p)
}

/// A stage whose blocks divide the parts works on each part alone.
proof fn lemma_stage_on_part(k: Roots, stage: Stage, x: Seq<real>, p: int, s: int)
    requires
        stage.radix == 2 || stage.radix == 3,
        stage.block > 0,
        stage.block % stage.radix == 0,
        p > 0,
        p % (stage.block as int) == 0,
        0 <= s,
        s * p + p <= x.len(),
    ensures
        part_of(exact_stage(k, stage, x), p, s) == exact_stage(k, stage, part_of(x, p, s)),
{
    let block = stage.block as int;
    let g = gap(stage);
    let m = p / block;
    let r = stage.radix as int;
    vstd::arithmetic::div_mod::lemma_fundamental_div_mod(p, block);
    vstd::arithmetic::div_mod::lemma_fundamental_div_mod(block, r);
    assert(0 <= s * p) by (nonlinear_arith)
        requires
            0 <= s,
            p > 0,
    ;
    assert(g > 0) by (nonlinear_arith)
        requires
            block == r * g,
            block > 0,
            r > 0,
    ;
    let a = part_of(exact_stage(k, stage, x), p, s);
    let b = exact_stage(k, stage, part_of(x, p, s));
    assert forall|i: int| 0 <= i < p implies a[i] == b[i] by {
        let q = i / block;
        let e = i % block;
        vstd::arithmetic::div_mod::lemma_fundamental_div_mod(i, block);
        let j = s * p + i;
        assert(j == (s * m + q) * block + e) by (nonlinear_arith)
            requires
                j == s * p + i,
                p == block * m,
                i == block * q + e,
        ;
        vstd::arithmetic::div_mod::lemma_fundamental_div_mod_converse(j, block, s * m + q, e);
        assert((s * m + q) * block == s * p + q * block) by (nonlinear_arith)
            requires
                p == block * m,
        ;
        let d = e % g;
        vstd::arithmetic::div_mod::lemma_fundamental_div_mod(e, g);
        assert(0 <= q < m) by (nonlinear_arith)
            requires
                i == block * q + e,
                0 <= e < block,
                0 <= i < p,
                p == block * m,
                block > 0,
        ;
        assert(0 <= q * block && q * block + block <= p) by (nonlinear_arith)
            requires
                0 <= q < m,
                p == block * m,
                block > 0,
        ;
        assert forall|t: int| 0 <= t < r implies #[trigger] input_at(stage, j, t) == s * p
            + input_at(stage, i, t) && 0 <= input_at(stage, i, t) < p by {
            assert(0 <= t * g && t * g + g <= block) by (nonlinear_arith)
                requires
                    0 <= t < r,
                    block == r * g,
                    g > 0,
            ;
        }
        assert(input_at(stage, j, 0) == s * p + input_at(stage, i, 0));
        assert(input_at(stage, j, 1) == s * p + input_at(stage, i, 1));
        if r == 3 {
            assert(input_at(stage, j, 2) == s * p + input_at(stage, i, 2));
        }
    }
    assert(a =~= b);
}

/// The block of a stage further on in a chain divides the vector.
proof fn lemma_chain_blocks(stages: Seq<Stage>, n: int)
    requires
        is_chain(stages, n),
    ensures
        n > 0,
        forall|i: int|
            0 <= i < stages.len() ==> {
                &&& (#[trigger] stages[i]).radix == 2 || stages[i].radix == 3
                &&& stages[i].block > 0
                &&& stages[i].block % stages[i].radix == 0
                &&& n % (stages[i].block as int) == 0
            },
    decreases stages.len(),
{
    if stages.len() > 0 {
        let r = stages[0].radix as int;
        let rest = stages.drop_first();
        lemma_chain_blocks(rest, n / r);
        vstd::arithmetic::div_mod::lemma_fundamental_div_mod(n, r);
        assert forall|i: int| 0 <= i < stages.len() implies {
            &&& (#[trigger] stages[i]).radix == 2 || stages[i].radix == 3
            &&& stages[i].block > 0
            &&& stages[i].block % stages[i].radix == 0
            &&& n % (stages[i].block as int) == 0
        } by {
            if i > 0 {
                assert(stages[i] == rest[i - 1]);
                let b = stages[i].block as int;
                let m = (n / r) / b;
                vstd::arithmetic::div_mod::lemma_fundamental_div_mod(n / r, b);
                assert(n == (r * m) * b) by (nonlinear_arith)
                    requires
                        n == r * (n / r),
                        n / r == b * m,
                ;
                vstd::arithmetic::div_mod::lemma_mod_multiples_basic(r * m, b);
            } else {
                vstd::arithmetic::div_mod::lemma_mod_self_0(n);
            }
        }
    }
}

/// Stages whose blocks divide the parts work on each part alone.
proof fn lemma_run_on_part(k: Roots, stages: Seq<Stage>, x: Seq<real>, p: int, s: int)
    requires
        forall|i: int|
            0 <= i < stages.len() ==> {
                &&& (#[trigger] stages[i]).radix == 2 || stages[i].radix == 3
                &&& stages[i].block > 0
                &&& stages[i].block % stages[i].radix == 0
                &&& p % (stages[i].block as int) == 0
            },
        p > 0,
        0 <= s,
        s * p + p <= x.len(),
    ensures
        exact_run(k, stages, x).len() == x.len(),
        part_of(exact_run(k, stages, x), p, s) == exact_run(k, stages, part_of(x, p, s)),
    decreases stages.len(),
{
    if stages.len() > 0 {
        assert(stages[0].block > 0);
        lemma_stage_on_part(k, stages[0], x, p, s);
        let rest = stages.drop_first();
        assert forall|i: int| 0 <= i < rest.len() implies {
            &&& (#[trigger] rest[i]).radix == 2 || rest[i].radix == 3
            &&& rest[i].block > 0
            &&& rest[i].block % rest[i].radix == 0
            &&& p % (rest[i].block as int) == 0
        } by {
            assert(rest[i] == stages[i + 1]);
        }
        lemma_run_on_part(k, rest, exact_stage(k, stages[0], x), p, s);
    }
}

// ---------------------------------------------------------------------------
// Linearity
// ---------------------------------------------------------------------------

/// The sum of two vectors.
pub open spec fn sum_of(x: Seq<real>, y: Seq<real>) -> Seq<real> {
    Seq::new(x.len(), |i: int| x[i] + y[i])
}

/// A vector times a number.
pub open spec fn times(c: real, x: Seq<real>) -> Seq<real> {
    Seq::new(x.len(), |i: int| c * x[i])
}

proof fn lemma_distributes(a: real, b: real, c: real)
    ensures
        (a + b) * c == a * c + b * c,
{
    assert((a + b) * c == a * c + b * c) by (nonlinear_arith);
}

proof fn lemma_associates(a: real, b: real, c: real)
    ensures
        (a * b) * c == a * (b * c),
{
    assert((a * b) * c == a * (b * c)) by (nonlinear_arith);
}

proof fn lemma_commutes(a: real, b: real)
    ensures
        a * b == b * a,
{
    assert(a * b == b * a) by (nonlinear_arith);
}

/// Factor of input `t` in output `slot` of a butterfly.
pub open spec fn factor(k: Roots, radix: int, slot: int, t: int) -> real {
    if radix == 2 {
        if slot == 0 || t == 0 {
            k.inv_sqrt2
        } else {
            0 as real - k.inv_sqrt2
        }
    } else if slot == 0 || t == 0 {
        k.inv_sqrt3
    } else if slot == t {
        k.cas1() * k.inv_sqrt3
    } else {
        k.cas2() * k.inv_sqrt3
    }
}

/// The outputs of a butterfly as sums of products.
proof fn lemma_out_as_products(k: Roots, radix: int, slot: int, a: real, b: real, c: real)
    requires
        radix == 2 || radix == 3,
        0 <= slot < radix,
    ensures
        radix == 2 ==> k.out(radix, slot, a, b, c) == factor(k, radix, slot, 0) * a + factor(
            k,
            radix,
            slot,
            1,
        ) * b,
        radix == 3 ==> k.out(radix, slot, a, b, c) == factor(k, radix, slot, 0) * a + factor(
            k,
            radix,
            slot,
            1,
        ) * b + factor(k, radix, slot, 2) * c,
{
    let s2 = k.inv_sqrt2;
    let s3 = k.inv_sqrt3;
    let u = k.cas1();
    let v = k.cas2();
    let z = 0 as real;
    lemma_commutes(a, s2);
    lemma_commutes(b, s2);
    lemma_commutes(a, s3);
    lemma_commutes(b, s3);
    lemma_commutes(c, s3);
    lemma_distributes(a, b, s2);
    lemma_distributes(a, z - b, s2);
    lemma_distributes(z - b, b, s2);
    lemma_distributes(z - s2, s2, b);
    lemma_distributes(a, b, s3);
    lemma_distributes(a + b, c, s3);
    lemma_distributes(a, b * u, s3);
    lemma_distributes(a + b * u, c * v, s3);
    lemma_distributes(a, b * v, s3);
    lemma_distributes(a + b * v, c * u, s3);
    lemma_associates(b, u, s3);
    lemma_associates(c, v, s3);
    lemma_associates(b, v, s3);
    lemma_associates(c, u, s3);
    lemma_commutes(b, u * s3);
    lemma_commutes(c, v * s3);
    lemma_commutes(b, v * s3);
    lemma_commutes(c, u * s3);
    assert((z - b + b) * s2 == z) by {
        lemma_distributes(z, z, s2);
    }
    assert((z - s2 + s2) * b == z) by {
        lemma_distributes(z, z, b);
    }
}

proof fn lemma_factor_moves(h: real, a: real, d: real, m: real)
    ensures
        h * (a + d) == h * a + h * d,
        h * (m * a) == m * (h * a),
{
    lemma_distributes(a, d, h);
    lemma_commutes(h, a + d);
    lemma_commutes(h, a);
    lemma_commutes(h, d);
    lemma_associates(h, m, a);
    lemma_associates(m, h, a);
    lemma_commutes(h, m);
}

/// The outputs of a butterfly are linear in its inputs.
proof fn lemma_out_is_linear(
    k: Roots,
    radix: int,
    slot: int,
    a: real,
    b: real,
    c: real,
    d: real,
    e: real,
    f: real,
    m: real,
)
    requires
        radix == 2 || radix == 3,
        0 <= slot < radix,
    ensures
        k.out(radix, slot, a + d, b + e, c + f) == k.out(radix, slot, a, b, c) + k.out(
            radix,
            slot,
            d,
            e,
            f,
        ),
        k.out(radix, slot, m * a, m * b, m * c) == m * k.out(radix, slot, a, b, c),
{
    let h0 = factor(k, radix, slot, 0);
    let h1 = factor(k, radix, slot, 1);
    let h2 = factor(k, radix, slot, 2);
    lemma_out_as_products(k, radix, slot, a, b, c);
    lemma_out_as_products(k, radix, slot, d, e, f);
    lemma_out_as_products(k, radix, slot, a + d, b + e, c + f);
    lemma_out_as_products(k, radix, slot, m * a, m * b, m * c);
    lemma_factor_moves(h0, a, d, m);
    lemma_factor_moves(h1, b, e, m);
    lemma_factor_moves(h2, c, f, m);
    lemma_factor_moves(m, h0 * a, h1 * b, m);
    lemma_factor_moves(m, h0 * a + h1 * b, h2 * c, m);
}

/// The inputs of a butterfly lie inside the vector.
proof fn lemma_input_in_range(stage: Stage, n: int, i: int, t: int)
    requires
        stage.radix == 2 || stage.radix == 3,
        stage.block > 0,
        stage.block % stage.radix == 0,
        n % (stage.block as int) == 0,
        0 <= i < n,
        0 <= t < stage.radix,
    ensures
        gap(stage) > 0,
        stage.block == stage.radix * gap(stage),
        0 <= input_at(stage, i, t) < n,
        0 <= slot_at(stage, i) < stage.radix,
{
    let block = stage.block as int;
    let g = gap(stage);
    let r = stage.radix as int;
    let m = n / block;
    vstd::arithmetic::div_mod::lemma_fundamental_div_mod(n, block);
    vstd::arithmetic::div_mod::lemma_fundamental_div_mod(block, r);
    vstd::arithmetic::div_mod::lemma_fundamental_div_mod(i, block);
    assert(g > 0) by (nonlinear_arith)
        requires
            block == r * g,
            block > 0,
            r > 0,
    ;
    let q = i / block;
    let e = i % block;
    vstd::arithmetic::div_mod::lemma_fundamental_div_mod(e, g);
    assert(0 <= q < m) by (nonlinear_arith)
        requires
            i == block * q + e,
            0 <= e < block,
            0 <= i < n,
            n == block * m,
            block > 0,
    ;
    assert(0 <= q * block && q * block + block <= n && 0 <= t * g && t * g + g <= block)
        by (nonlinear_arith)
        requires
            0 <= q < m,
            n == block * m,
            block > 0,
            0 <= t < r,
            block == r * g,
            g > 0,
    ;
    let sl = e / g;
    assert(0 <= sl < r) by (nonlinear_arith)
        requires
            e == g * sl + e % g,
            0 <= e % g < g,
            0 <= e < block,
            block == r * g,
            g > 0,
    ;
}

proof fn lemma_stage_is_linear(k: Roots, stage: Stage, x: Seq<real>, y: Seq<real>, c: real)
    requires
        stage.radix == 2 || stage.radix == 3,
        stage.block > 0,
        stage.block % stage.radix == 0,
        x.len() as int % (stage.block as int) == 0,
        y.len() == x.len(),
    ensures
        exact_stage(k, stage, sum_of(x, y)) == sum_of(
            exact_stage(k, stage, x),
            exact_stage(k, stage, y),
        ),
        exact_stage(k, stage, times(c, x)) == times(c, exact_stage(k, stage, x)),
{
    let n = x.len() as int;
    let z = sum_of(x, y);
    let w = times(c, x);
    let r = stage.radix as int;
    assert forall|i: int| 0 <= i < n implies exact_stage(k, stage, z)[i] == exact_stage(
        k,
        stage,
        x,
    )[i] + exact_stage(k, stage, y)[i] && exact_stage(k, stage, w)[i] == c * exact_stage(
        k,
        stage,
        x,
    )[i] by {
        lemma_input_in_range(stage, n, i, 0);
        lemma_input_in_range(stage, n, i, 1);
        let i0 = input_at(stage, i, 0);
        let i1 = input_at(stage, i, 1);
        let i2 = input_at(stage, i, 2);
        let slot = slot_at(stage, i);
        if r == 3 {
            lemma_input_in_range(stage, n, i, 2);
        }
        lemma_out_is_linear(k, r, slot, x[i0], x[i1], x[i2], y[i0], y[i1], y[i2], c);
        if r == 2 {
            assert(k.out(r, slot, z[i0], z[i1], z[i2]) == k.out(
                r,
                slot,
                x[i0] + y[i0],
                x[i1] + y[i1],
                x[i2] + y[i2],
            ));
            assert(k.out(r, slot, w[i0], w[i1], w[i2]) == k.out(
                r,
                slot,
                c * x[i0],
                c * x[i1],
                c * x[i2],
            ));
        }
    }
    assert(exact_stage(k, stage, z) =~= sum_of(exact_stage(k, stage, x), exact_stage(k, stage, y)));
    assert(exact_stage(k, stage, w) =~= times(c, exact_stage(k, stage, x)));
}

/// The transform is linear.
proof fn lemma_run_is_linear(k: Roots, stages: Seq<Stage>, x: Seq<real>, y: Seq<real>, c: real)
    requires
        forall|i: int|
            0 <= i < stages.len() ==> {
                &&& (#[trigger] stages[i]).radix == 2 || stages[i].radix == 3
                &&& stages[i].block > 0
                &&& stages[i].block % stages[i].radix == 0
                &&& x.len() as int % (stages[i].block as int) == 0
            },
        y.len() == x.len(),
    ensures
        exact_run(k, stages, x).len() == x.len(),
        exact_run(k, stages, sum_of(x, y)) == sum_of(
            exact_run(k, stages, x),
            exact_run(k, stages, y),
        ),
        exact_run(k, stages, times(c, x)) == times(c, exact_run(k, stages, x)),
    decreases stages.len(),
{
    if stages.len() > 0 {
        let st = stages[0];
        lemma_stage_is_linear(k, st, x, y, c);
        let rest = stages.drop_first();
        assert forall|i: int| 0 <= i < rest.len() implies {
            &&& (#[trigger] rest[i]).radix == 2 || rest[i].radix == 3
            &&& rest[i].block > 0
            &&& rest[i].block % rest[i].radix == 0
            &&& x.len() as int % (rest[i].block as int) == 0
        } by {
            assert(rest[i] == stages[i + 1]);
        }
        lemma_run_is_linear(k, rest, exact_stage(k, st, x), exact_stage(k, st, y), c);
    }
}

// ---------------------------------------------------------------------------
// Butterflies undo themselves
// ---------------------------------------------------------------------------

/// The two constants of the radix-3 butterfly: their sum, the sum of their
/// squares, and their product.
proof fn lemma_cas(k: Roots)
    requires
        k.exact(),
    ensures
        k.cas1() + k.cas2() == 0 as real - 1 as real,
        k.cas1() * k.cas1() + k.cas2() * k.cas2() == 2 as real,
        k.cas1() * k.cas2() + k.cas2() * k.cas1() == 0 as real - 1 as real,
{
    let w = k.sqrt3;
    let u = k.cas1();
    let v = k.cas2();
    let one = 1 as real;
    let two = 2 as real;
    let mw = 0 as real - w;
    // The squares and the product of the doubled constants.
    assert(w * mw == 0 as real - w * w) by {
        lemma_distributes(w, mw, w);
        lemma_distributes(0 as real, 0 as real, w);
        lemma_commutes(mw, w);
    }
    assert(mw * mw == w * w) by {
        lemma_distributes(w, mw, mw);
        lemma_distributes(0 as real, 0 as real, mw);
    }
    let a = w - one;
    let b = mw - one;
    assert(a * a == w * w - two * w + one) by {
        lemma_distributes(w, 0 as real - one, a);
        lemma_commutes(w, a);
        lemma_distributes(w, 0 as real - one, w);
    }
    assert(b * b == mw * mw - two * mw + one) by {
        lemma_distributes(mw, 0 as real - one, b);
        lemma_commutes(mw, b);
        lemma_distributes(mw, 0 as real - one, mw);
    }
    assert(a * b == w * mw - w - mw + one) by {
        lemma_distributes(w, 0 as real - one, b);
        lemma_commutes(w, b);
        lemma_distributes(mw, 0 as real - one, w);
        lemma_commutes(mw, w);
    }
    // Back to the constants themselves.
    assert(a == two * u && b == two * v);
    assert(a * a == (two * two) * (u * u)) by {
        lemma_associates(two, u, a);
        lemma_commutes(u, two * u);
        lemma_associates(two, u, u);
    }
    assert(b * b == (two * two) * (v * v)) by {
        lemma_associates(two, v, b);
        lemma_commutes(v, two * v);
        lemma_associates(two, v, v);
    }
    assert(a * b == (two * two) * (u * v)) by {
        lemma_associates(two, u, b);
        lemma_commutes(u, two * v);
        lemma_associates(two, v, u);
        lemma_commutes(v, u);
    }
    lemma_commutes(u, v);
}

/// A butterfly of a butterfly's outputs gives back the inputs.
proof fn lemma_butterfly_undoes_itself(k: Roots, radix: int, slot: int, a: real, b: real, c: real)
    requires
        k.exact(),
        radix == 2 || radix == 3,
        0 <= slot < radix,
    ensures
        k.out(
            radix,
            slot,
            k.out(radix, 0, a, b, c),
            k.out(radix, 1, a, b, c),
            k.out(radix, 2, a, b, c),
        ) == if slot == 0 {
            a
        } else if slot == 1 {
            b
        } else {
            c
        },
{
    let zero = 0 as real;
    if radix == 2 {
        let s = k.inv_sqrt2;
        lemma_distributes(a, b, s);
        lemma_distributes(a, zero - b, s);
        lemma_distributes(b, zero - b, s);
        lemma_distributes(zero, zero, s);
        let x = (a + b) * s;
        let y = (a - b) * s;
        assert(x + y == a * s + a * s);
        assert(x - y == b * s + b * s);
        lemma_twice_halved(k, a);
        lemma_twice_halved(k, b);
    } else {
        let s = k.inv_sqrt3;
        let u = k.cas1();
        let v = k.cas2();
        lemma_cas(k);
        let p0 = a + b + c;
        let p1 = a + b * u + c * v;
        let p2 = a + b * v + c * u;
        if slot == 0 {
            lemma_sum_over_third(k, p0, p1, p2);
            lemma_factor_moves(b, u, v, zero);
            lemma_factor_moves(c, u, v, zero);
            lemma_negated(b);
            lemma_negated(c);
            assert(p0 + p1 + p2 == (3 as real) * a);
        } else if slot == 1 {
            lemma_rotated_sum(k, p0, p1, p2, u, v);
            lemma_expanded(a, b, c, u, v);
        } else {
            lemma_rotated_sum(k, p0, p1, p2, v, u);
            lemma_expanded(a, c, b, u, v);
        }
    }
}

/// Two halves of a number.
proof fn lemma_twice_halved(k: Roots, a: real)
    requires
        k.exact(),
    ensures
        (a * k.inv_sqrt2 + a * k.inv_sqrt2) * k.inv_sqrt2 == a,
{
    let s = k.inv_sqrt2;
    lemma_distributes(a * s, a * s, s);
    lemma_associates(a, s, s);
    lemma_associates(a, s * s, 2 as real);
    assert(a * (s * s * (2 as real)) == a * (1 as real));
}

proof fn lemma_negated(x: real)
    ensures
        x * (0 as real - 1 as real) == 0 as real - x,
{
    lemma_distributes(1 as real, 0 as real - 1 as real, x);
    lemma_commutes(x, 0 as real - 1 as real);
    lemma_distributes(0 as real, 0 as real, x);
}

/// Three thirds of sums.
proof fn lemma_sum_over_third(k: Roots, p: real, q: real, r: real)
    requires
        k.exact(),
    ensures
        (p * k.inv_sqrt3 + q * k.inv_sqrt3 + r * k.inv_sqrt3) * k.inv_sqrt3 * (3 as real) == p + q
            + r,
{
    let s = k.inv_sqrt3;
    lemma_distributes(p, q, s);
    lemma_distributes(p + q, r, s);
    lemma_associates(p + q + r, s, s);
    let x = p + q + r;
    lemma_associates(x, s * s, 3 as real);
    assert(x * (s * s * (3 as real)) == x * (1 as real));
}

/// The same with the second and third sum weighted.
proof fn lemma_rotated_sum(k: Roots, p: real, q: real, r: real, u: real, v: real)
    requires
        k.exact(),
    ensures
        (p * k.inv_sqrt3 + (q * k.inv_sqrt3) * u + (r * k.inv_sqrt3) * v) * k.inv_sqrt3 * (
        3 as real) == p + q * u + r * v,
{
    let s = k.inv_sqrt3;
    lemma_associates(q, s, u);
    lemma_commutes(s, u);
    lemma_associates(q, u, s);
    lemma_associates(r, s, v);
    lemma_commutes(s, v);
    lemma_associates(r, v, s);
    lemma_sum_over_third(k, p, q * u, r * v);
}

/// What the weighted sums come to.
proof fn lemma_expanded(a: real, b: real, c: real, u: real, v: real)
    requires
        u + v == 0 as real - 1 as real,
        u * u + v * v == 2 as real,
        u * v + v * u == 0 as real - 1 as real,
    ensures
        (a + b + c) + (a + b * u + c * v) * u + (a + b * v + c * u) * v == (3 as real) * b,
{
    lemma_distributes(a, b * u, u);
    lemma_distributes(a + b * u, c * v, u);
    lemma_associates(b, u, u);
    lemma_associates(c, v, u);
    lemma_distributes(a, b * v, v);
    lemma_distributes(a + b * v, c * u, v);
    lemma_associates(b, v, v);
    lemma_associates(c, u, v);
    lemma_factor_moves(a, u, v, a);
    lemma_factor_moves(b, u * u, v * v, b);
    lemma_factor_moves(c, v * u, u * v, c);
    lemma_negated(a);
    lemma_negated(c);
    lemma_distributes(1 as real, 1 as real, b);
    lemma_commutes(b, 2 as real);
}

// ---------------------------------------------------------------------------
// The transform undoes itself
// ---------------------------------------------------------------------------

/// Output `slot` of the butterflies that join three vectors element by
/// element.
spec fn combined(
    k: Roots,
    radix: int,
    slot: int,
    x: Seq<real>,
    y: Seq<real>,
    z: Seq<real>,
) -> Seq<real> {
    Seq::new(x.len(), |j: int| k.out(radix, slot, x[j], y[j], z[j]))
}

/// Part `t` of a vector, for every `t` that a butterfly could ask for.
spec fn input_part(x: Seq<real>, radix: int, t: int) -> Seq<real> {
    let p = x.len() as int / radix;
    if t < radix {
        part_of(x, p, t)
    } else {
        part_of(x, p, 0)
    }
}

/// The parts of a vector after the first stage.
proof fn lemma_first_stage(k: Roots, stage: Stage, x: Seq<real>, s: int)
    requires
        stage.radix == 2 || stage.radix == 3,
        stage.block == x.len(),
        stage.block > 0,
        stage.block % stage.radix == 0,
        0 <= s < stage.radix,
    ensures
        part_of(exact_stage(k, stage, x), gap(stage), s) == combined(
            k,
            stage.radix as int,
            s,
            input_part(x, stage.radix as int, 0),
            input_part(x, stage.radix as int, 1),
            input_part(x, stage.radix as int, 2),
        ),
        gap(stage) > 0,
        stage.radix * gap(stage) == x.len(),
        0 <= s * gap(stage),
        s * gap(stage) + gap(stage) <= x.len(),
{
    let r = stage.radix as int;
    let n = x.len() as int;
    let p = gap(stage);
    vstd::arithmetic::div_mod::lemma_fundamental_div_mod(n, r);
    assert(p > 0) by (nonlinear_arith)
        requires
            n == r * p,
            n > 0,
            r > 0,
    ;
    assert(0 <= s * p && s * p + p <= n) by (nonlinear_arith)
        requires
            n == r * p,
            0 <= s < r,
            p > 0,
    ;
    assert(0 * p == 0) by (nonlinear_arith);
    assert(1 * p == p) by (nonlinear_arith);
    assert(p + p <= n) by (nonlinear_arith)
        requires
            n == r * p,
            r >= 2,
            p > 0,
    ;
    if r == 3 {
        assert(2 * p + p <= n);
    }
    let a = part_of(exact_stage(k, stage, x), p, s);
    let x0 = input_part(x, r, 0);
    let x1 = input_part(x, r, 1);
    let x2 = input_part(x, r, 2);
    let b = combined(k, r, s, x0, x1, x2);
    assert forall|j: int| 0 <= j < p implies a[j] == b[j] by {
        let i = s * p + j;
        vstd::arithmetic::div_mod::lemma_fundamental_div_mod_converse(i, n, 0, i);
        vstd::arithmetic::div_mod::lemma_fundamental_div_mod_converse(i, p, s, j);
        assert(0 * n == 0) by (nonlinear_arith);
        assert(input_at(stage, i, 0) == j);
        assert(input_at(stage, i, 1) == p + j);
        assert(slot_at(stage, i) == s);
        assert(x0[j] == x[j]);
        assert(x1[j] == x[p + j]);
        if r == 3 {
            assert(input_at(stage, i, 2) == 2 * p + j);
            assert(x2[j] == x[2 * p + j]);
        }
    }
    assert(a =~= b);
}

/// The transform of combined vectors is the combination of the transforms.
proof fn lemma_run_of_combined(
    k: Roots,
    stages: Seq<Stage>,
    radix: int,
    slot: int,
    x: Seq<real>,
    y: Seq<real>,
    z: Seq<real>,
)
    requires
        radix == 2 || radix == 3,
        0 <= slot < radix,
        y.len() == x.len(),
        z.len() == x.len(),
        forall|i: int|
            0 <= i < stages.len() ==> {
                &&& (#[trigger] stages[i]).radix == 2 || stages[i].radix == 3
                &&& stages[i].block > 0
                &&& stages[i].block % stages[i].radix == 0
                &&& x.len() as int % (stages[i].block as int) == 0
            },
    ensures
        exact_run(k, stages, x).len() == x.len(),
        exact_run(k, stages, y).len() == x.len(),
        exact_run(k, stages, z).len() == x.len(),
        exact_run(k, stages, combined(k, radix, slot, x, y, z)) == combined(
            k,
            radix,
            slot,
            exact_run(k, stages, x),
            exact_run(k, stages, y),
            exact_run(k, stages, z),
        ),
{
    let h0 = factor(k, radix, slot, 0);
    let h1 = factor(k, radix, slot, 1);
    let h2 = factor(k, radix, slot, 2);
    let a = times(h0, x);
    let b = times(h1, y);
    let c = times(h2, z);
    lemma_run_is_linear(k, stages, x, x, h0);
    lemma_run_is_linear(k, stages, y, y, h1);
    lemma_run_is_linear(k, stages, z, z, h2);
    lemma_run_is_linear(k, stages, a, b, h0);
    let tx = exact_run(k, stages, x);
    let ty = exact_run(k, stages, y);
    let tz = exact_run(k, stages, z);
    let out = combined(k, radix, slot, x, y, z);
    let goal = combined(k, radix, slot, tx, ty, tz);
    assert forall|j: int| 0 <= j < x.len() implies #[trigger] out[j] == if radix == 2 {
        sum_of(a, b)[j]
    } else {
        sum_of(sum_of(a, b), c)[j]
    } by {
        lemma_out_as_products(k, radix, slot, x[j], y[j], z[j]);
    }
    assert forall|j: int| 0 <= j < x.len() implies #[trigger] goal[j] == if radix == 2 {
        sum_of(times(h0, tx), times(h1, ty))[j]
    } else {
        sum_of(sum_of(times(h0, tx), times(h1, ty)), times(h2, tz))[j]
    } by {
        lemma_out_as_products(k, radix, slot, tx[j], ty[j], tz[j]);
    }
    if radix == 2 {
        assert(out =~= sum_of(a, b));
        assert(goal =~= sum_of(times(h0, tx), times(h1, ty)));
    } else {
        lemma_run_is_linear(k, stages, sum_of(a, b), c, h0);
        assert(out =~= sum_of(sum_of(a, b), c));
        assert(goal =~= sum_of(sum_of(times(h0, tx), times(h1, ty)), times(h2, tz)));
    }
}

/// The parts of a transformed vector: the combined transforms of its parts.
proof fn lemma_run_by_parts(k: Roots, stages: Seq<Stage>, x: Seq<real>, s: int)
    requires
        is_chain(stages, x.len() as int),
        stages.len() > 0,
        0 <= s < stages[0].radix,
    ensures
        exact_run(k, stages, x).len() == x.len(),
        ({
            let r = stages[0].radix as int;
            let rest = stages.drop_first();
            part_of(exact_run(k, stages, x), x.len() as int / r, s) == combined(
                k,
                r,
                s,
                exact_run(k, rest, input_part(x, r, 0)),
                exact_run(k, rest, input_part(x, r, 1)),
                exact_run(k, rest, input_part(x, r, 2)),
            )
        }),
{
    let st = stages[0];
    let r = st.radix as int;
    let rest = stages.drop_first();
    let p = x.len() as int / r;
    lemma_chain_blocks(rest, p);
    lemma_first_stage(k, st, x, 0);
    lemma_first_stage(k, st, x, 1);
    lemma_first_stage(k, st, x, r - 1);
    lemma_first_stage(k, st, x, s);
    lemma_run_on_part(k, rest, exact_stage(k, st, x), p, s);
    let x0 = input_part(x, r, 0);
    let x1 = input_part(x, r, 1);
    let x2 = input_part(x, r, 2);
    assert(0 * p == 0) by (nonlinear_arith);
    assert(x0.len() == p && x1.len() == p && x2.len() == p);
    lemma_run_of_combined(k, rest, r, s, x0, x1, x2);
}

/// The transform on exact numbers is its own inverse.
proof fn lemma_run_undoes_itself(k: Roots, stages: Seq<Stage>, x: Seq<real>)
    requires
        k.exact(),
        is_chain(stages, x.len() as int),
    ensures
        exact_run(k, stages, exact_run(k, stages, x)) == x,
    decreases stages.len(),
{
    if stages.len() > 0 {
        let st = stages[0];
        let r = st.radix as int;
        let n = x.len() as int;
        let p = n / r;
        let rest = stages.drop_first();
        let y = exact_run(k, stages, x);
        lemma_run_by_parts(k, stages, x, 0);
        let z = exact_run(k, stages, y);
        lemma_run_by_parts(k, stages, y, 0);
        lemma_first_stage(k, st, x, 0);
        lemma_chain_blocks(rest, p);
        let x0 = input_part(x, r, 0);
        let x1 = input_part(x, r, 1);
        let x2 = input_part(x, r, 2);
        assert(0 * p == 0) by (nonlinear_arith);
        assert(1 * p == p) by (nonlinear_arith);
        lemma_first_stage(k, st, x, 1);
        lemma_first_stage(k, st, x, r - 1);
        let z0 = exact_run(k, rest, x0);
        let z1 = exact_run(k, rest, x1);
        let z2 = exact_run(k, rest, x2);
        lemma_run_undoes_itself(k, rest, x0);
        lemma_run_undoes_itself(k, rest, x1);
        lemma_run_undoes_itself(k, rest, x2);
        lemma_run_of_combined(k, rest, r, 0, x0, x1, x2);
        // The transformed parts of the transform are the combined parts.
        lemma_part_again(k, stages, x, 0);
        lemma_part_again(k, stages, x, 1);
        if r == 3 {
            lemma_part_again(k, stages, x, 2);
        }
        assert forall|i: int| 0 <= i < n implies z[i] == x[i] by {
            let s = i / p;
            let j = i % p;
            vstd::arithmetic::div_mod::lemma_fundamental_div_mod(i, p);
            assert(p * s == s * p) by (nonlinear_arith);
            assert(0 <= s < r) by (nonlinear_arith)
                requires
                    i == p * s + j,
                    0 <= j < p,
                    0 <= i < n,
                    n == r * p,
                    p > 0,
            ;
            lemma_run_by_parts(k, stages, y, s);
            lemma_first_stage(k, st, x, s);
            assert(part_of(z, p, s)[j] == z[i]);
            lemma_butterfly_undoes_itself(k, r, s, x0[j], x1[j], x2[j]);
            assert(input_part(x, r, s)[j] == x[i]);
        }
        assert(z =~= x);
    }
}

/// Part `t` of the transform, transformed as a part again, is the combination
/// of the parts of the vector.
proof fn lemma_part_again(k: Roots, stages: Seq<Stage>, x: Seq<real>, t: int)
    requires
        k.exact(),
        is_chain(stages, x.len() as int),
        stages.len() > 0,
        0 <= t < stages[0].radix,
        ({
            let r = stages[0].radix as int;
            let rest = stages.drop_first();
            &&& forall|u: int|
                0 <= u < 3 ==> exact_run(k, rest, exact_run(k, rest, #[trigger] input_part(x, r, u)))
                    == input_part(x, r, u)
        }),
    ensures
        ({
            let r = stages[0].radix as int;
            let rest = stages.drop_first();
            exact_run(k, rest, input_part(exact_run(k, stages, x), r, t)) == combined(
                k,
                r,
                t,
                input_part(x, r, 0),
                input_part(x, r, 1),
                input_part(x, r, 2),
            )
        }),
{
    let st = stages[0];
    let r = st.radix as int;
    let rest = stages.drop_first();
    let p = x.len() as int / r;
    lemma_run_by_parts(k, stages, x, t);
    lemma_chain_blocks(rest, p);
    lemma_first_stage(k, st, x, 0);
    lemma_first_stage(k, st, x, 1);
    lemma_first_stage(k, st, x, r - 1);
    assert(0 * p == 0) by (nonlinear_arith);
    let x0 = input_part(x, r, 0);
    let x1 = input_part(x, r, 1);
    let x2 = input_part(x, r, 2);
    let z0 = exact_run(k, rest, x0);
    let z1 = exact_run(k, rest, x1);
    let z2 = exact_run(k, rest, x2);
    lemma_run_of_combined(k, rest, r, t, x0, x1, x2);
    lemma_run_of_combined(k, rest, r, t, z0, z1, z2);
}

// ---------------------------------------------------------------------------
// From the schedule to the chain
// ---------------------------------------------------------------------------

/// The factors of a number are determined by it.
proof fn lemma_factorization_is_unique(a: Seq<usize>, b: Seq<usize>, n: nat)
    requires
        is_factorization(a, n),
        is_factorization(b, n),
    ensures
        a == b,
    decreases a.len(),
{
    lemma_last_factor(a, n);
    lemma_last_factor(b, n);
    if a.len() == 0 || b.len() == 0 {
        assert(a =~= b);
    } else {
        assert(a.last() == b.last());
        let m = product(a.drop_last());
        let f = a.last() as nat;
        assert(product(b.drop_last()) == m) by (nonlinear_arith)
            requires
                m * f == product(b.drop_last()) * f,
                f > 0,
        ;
        lemma_fewer_factors(a, n);
        lemma_fewer_factors(b, n);
        lemma_factorization_is_unique(a.drop_last(), b.drop_last(), m);
        assert(a =~= a.drop_last().push(a.last()));
        assert(b =~= b.drop_last().push(b.last()));
    }
}

/// Without its last factor a factorization is one of what is left.
proof fn lemma_fewer_factors(a: Seq<usize>, n: nat)
    requires
        is_factorization(a, n),
        a.len() > 0,
    ensures
        is_factorization(a.drop_last(), product(a.drop_last())),
{
    let b = a.drop_last();
    assert forall|i: int| 0 <= i < b.len() implies #[trigger] b[i] == 2 || b[i] == 3 by {
        assert(b[i] == a[i]);
    }
    assert forall|i: int, j: int| 0 <= i <= j < b.len() implies #[trigger] b[i] >= #[trigger] b[j] by {
        assert(b[i] == a[i] && b[j] == a[j]);
    }
}

/// The last factor is 2 where the number is even, 3 where it is odd and not 1.
proof fn lemma_last_factor(a: Seq<usize>, n: nat)
    requires
        is_factorization(a, n),
    ensures
        n > 0,
        a.len() == 0 <==> n == 1,
        a.len() > 0 ==> a.last() == if n % 2 == 0 {
            2usize
        } else {
            3usize
        },
    decreases a.len(),
{
    if a.len() > 0 {
        let b = a.drop_last();
        let m = product(b);
        let f = a.last() as nat;
        lemma_fewer_factors(a, n);
        lemma_last_factor(b, m);
        assert(a[a.len() - 1] == 2 || a[a.len() - 1] == 3);
        assert(m * f >= f) by (nonlinear_arith)
            requires
                m >= 1,
                f >= 0,
        ;
        if f == 2 {
            assert(n == m * 2);
        } else if b.len() > 0 {
            assert(b.last() == a[a.len() - 2]);
            assert(a[a.len() - 2] >= a[a.len() - 1]);
            assert(m % 2 == 1);
            assert((m * 3) % 2 == 1);
        }
    }
}

/// The stages of a schedule from stage `i` on are those of the vector's parts.
proof fn lemma_schedule_is_chain(
    stages: Seq<Stage>,
    factors: Seq<usize>,
    n: nat,
    i: int,
    block: int,
)
    requires
        is_factorization(factors, n),
        is_schedule(stages, factors, n),
        n > 0,
        0 <= i <= stages.len(),
        block * product(factors.take(i)) == n,
    ensures
        is_chain(stages.subrange(i, stages.len() as int), block),
    decreases stages.len() - i,
{
    let p = product(factors.take(i)) as int;
    assert(p > 0 && block > 0) by (nonlinear_arith)
        requires
            block * p == n,
            n > 0,
            p >= 0,
    ;
    let tail = stages.subrange(i, stages.len() as int);
    if i == stages.len() {
        assert(factors.take(i) =~= factors);
        assert(block == 1) by (nonlinear_arith)
            requires
                block * p == p,
                p > 0,
        ;
    } else {
        let st = stages[i];
        assert(tail[0] == st);
        assert(factors[i] == 2 || factors[i] == 3);
        assert(st.block == block) by (nonlinear_arith)
            requires
                st.block * p == n,
                block * p == n,
                p > 0,
        ;
        let r = st.radix as int;
        assert(factors.take(i + 1).drop_last() =~= factors.take(i));
        assert(product(factors.take(i + 1)) == p * r);
        vstd::arithmetic::div_mod::lemma_fundamental_div_mod(block, r);
        assert((block / r) * (p * r) == n) by (nonlinear_arith)
            requires
                block == r * (block / r),
                block * p == n,
        ;
        lemma_schedule_is_chain(stages, factors, n, i + 1, block / r);
        assert(tail.drop_first() =~= stages.subrange(i + 1, stages.len() as int));
    }
}

/// Two schedules of one factorization are the same.
proof fn lemma_schedule_is_unique(a: Seq<Stage>, b: Seq<Stage>, factors: Seq<usize>, n: nat)
    requires
        is_schedule(a, factors, n),
        is_schedule(b, factors, n),
        n > 0,
    ensures
        a == b,
{
    assert forall|i: int| 0 <= i < a.len() implies a[i] == b[i] by {
        let p = product(factors.take(i)) as int;
        let x = a[i].block as int;
        let y = b[i].block as int;
        assert(x == y) by (nonlinear_arith)
            requires
                x * p == n,
                y * p == n,
                n > 0,
                p >= 0,
        ;
        assert(a[i].radix == b[i].radix);
    }
    assert(a =~= b);
}

// ---------------------------------------------------------------------------
// The laws
// ---------------------------------------------------------------------------

/// The butterflies compute without rounding: `val` is the number that a value
/// stands for.
pub open spec fn computes_exactly<
    T,
    F2: Fn(T, T) -> (T, T),
    F3: Fn(T, T, T) -> (T, T, T),
>(f2: F2, f3: F3, val: spec_fn(T) -> real, k: Roots) -> bool {
    &&& forall|a: T, b: T, r: (T, T)| #[trigger]
        f2.ensures((a, b), r) ==> {
            &&& val(r.0) == (val(a) + val(b)) * k.inv_sqrt2
            &&& val(r.1) == (val(a) - val(b)) * k.inv_sqrt2
        }
    &&& forall|a: T, b: T, c: T, r: (T, T, T)| #[trigger]
        f3.ensures((a, b, c), r) ==> {
            &&& val(r.0) == (val(a) + val(b) + val(c)) * k.inv_sqrt3
            &&& val(r.1) == (val(a) + val(b) * k.cas1() + val(c) * k.cas2()) * k.inv_sqrt3
            &&& val(r.2) == (val(a) + val(b) * k.cas2() + val(c) * k.cas1()) * k.inv_sqrt3
        }
}

/// The numbers that the values stand for.
pub open spec fn numbers<T>(x: Seq<T>, val: spec_fn(T) -> real) -> Seq<real> {
    x.map_values(val)
}

/// A stage of the transform is a stage on the numbers.
proof fn lemma_stage_on_numbers<T, F2: Fn(T, T) -> (T, T), F3: Fn(T, T, T) -> (T, T, T)>(
    stage: Stage,
    before: Seq<T>,
    after: Seq<T>,
    f2: F2,
    f3: F3,
    val: spec_fn(T) -> real,
    k: Roots,
)
    requires
        stage_fits(stage, before.len() as int),
        stage_applied(stage, before, after, f2, f3),
        computes_exactly(f2, f3, val, k),
    ensures
        numbers(after, val) == exact_stage(k, stage, numbers(before, val)),
{
    let n = before.len() as int;
    let x = numbers(before, val);
    let y = numbers(after, val);
    let z = exact_stage(k, stage, x);
    let r = stage.radix as int;
    let p = gap(stage);
    assert forall|i: int| 0 <= i < n implies y[i] == z[i] by {
        let g = butterfly_of(stage, i).0;
        let slot = butterfly_of(stage, i).1;
        assert(n / r > 0) by {
            lemma_input_in_range(stage, n, i, 0);
            vstd::arithmetic::div_mod::lemma_fundamental_div_mod(n, stage.block as int);
            assert(n >= r) by (nonlinear_arith)
                requires
                    n == stage.block * (n / (stage.block as int)),
                    n > 0,
                    stage.block == r * p,
                    stage.block > 0,
                    p > 0,
                    r > 0,
            ;
            vstd::arithmetic::div_mod::lemma_div_is_ordered(r, n, r);
            vstd::arithmetic::div_mod::lemma_div_by_self(r);
        }
        lemma_stage_touches_each_once(stage, n, i, 0, 0);
        assert(butterfly_applied(stage, before, after, g, f2, f3));
        lemma_input_in_range(stage, n, i, 0);
        let block = stage.block as int;
        let e = i % block;
        let d = e % p;
        let q = i / block;
        vstd::arithmetic::div_mod::lemma_fundamental_div_mod(e, p);
        vstd::arithmetic::div_mod::lemma_fundamental_div_mod_converse(g, p, q, d);
        assert forall|t: int| 0 <= t < r implies #[trigger] butterfly_index(stage, g, t)
            == input_at(stage, i, t) && 0 <= input_at(stage, i, t) < n by {
            lemma_input_in_range(stage, n, i, t);
        }
        let i0 = butterfly_index(stage, g, 0);
        let i1 = butterfly_index(stage, g, 1);
        assert(i0 == input_at(stage, i, 0));
        assert(i1 == input_at(stage, i, 1));
        assert(x[i0] == val(before[i0]) && x[i1] == val(before[i1]));
        if r == 2 {
            assert(f2.ensures((before[i0], before[i1]), (after[i0], after[i1])));
            assert(slot == 0 ==> i == i0);
            assert(slot == 1 ==> i == i1);
        } else {
            let i2 = butterfly_index(stage, g, 2);
            assert(i2 == input_at(stage, i, 2));
            assert(x[i2] == val(before[i2]));
            assert(f3.ensures(
                (before[i0], before[i1], before[i2]),
                (after[i0], after[i1], after[i2]),
            ));
            assert(slot == 0 ==> i == i0);
            assert(slot == 1 ==> i == i1);
            assert(slot == 2 ==> i == i2);
        }
    }
    assert(y =~= z);
}

/// The transform is a run of the stages on the numbers.
proof fn lemma_transform_on_numbers<T, F2: Fn(T, T) -> (T, T), F3: Fn(T, T, T) -> (T, T, T)>(
    before: Seq<T>,
    after: Seq<T>,
    f2: F2,
    f3: F3,
    val: spec_fn(T) -> real,
    k: Roots,
) -> (r: (Seq<Stage>, Seq<usize>))
    requires
        is_transform(before, after, f2, f3),
        computes_exactly(f2, f3, val, k),
    ensures
        before.len() > 0,
        is_factorization(r.1, before.len()),
        is_schedule(r.0, r.1, before.len()),
        is_chain(r.0, before.len() as int),
        numbers(after, val) == exact_run(k, r.0, numbers(before, val)),
{
    let n = before.len();
    let (states, stages, factors) = choose|
        states: Seq<Seq<T>>,
        stages: Seq<Stage>,
        factors: Seq<usize>,
    |
        #![trigger transform_run(states, stages, f2, f3), is_schedule(stages, factors, before.len())]
        {
            &&& is_factorization(factors, before.len())
            &&& is_schedule(stages, factors, before.len())
            &&& transform_run(states, stages, f2, f3)
            &&& states[0] == before
            &&& states.last() == after
        };
    lemma_last_factor(factors, n);
    assert(factors.take(0) =~= Seq::<usize>::empty());
    assert(n * product(factors.take(0)) == n) by (nonlinear_arith)
        requires
            product(factors.take(0)) == 1,
    ;
    lemma_schedule_is_chain(stages, factors, n, 0, n as int);
    assert(stages.subrange(0, stages.len() as int) =~= stages);
    lemma_chain_blocks(stages, n as int);
    lemma_states_on_numbers(states, stages, f2, f3, val, k, n as int, stages.len() as int);
    let done = stages.len() as int;
    assert(stages.subrange(done, done) =~= Seq::<Stage>::empty());
    (stages, factors)
}

/// Running the stages that are left on state `i` gives the whole run.
proof fn lemma_states_on_numbers<T, F2: Fn(T, T) -> (T, T), F3: Fn(T, T, T) -> (T, T, T)>(
    states: Seq<Seq<T>>,
    stages: Seq<Stage>,
    f2: F2,
    f3: F3,
    val: spec_fn(T) -> real,
    k: Roots,
    n: int,
    i: int,
)
    requires
        transform_run(states, stages, f2, f3),
        states[0].len() == n,
        computes_exactly(f2, f3, val, k),
        0 <= i <= stages.len(),
        forall|j: int|
            0 <= j < stages.len() ==> {
                &&& (#[trigger] stages[j]).radix == 2 || stages[j].radix == 3
                &&& stages[j].block > 0
                &&& stages[j].block % stages[j].radix == 0
                &&& n % (stages[j].block as int) == 0
            },
    ensures
        states[i].len() == n,
        exact_run(k, stages.subrange(i, stages.len() as int), numbers(states[i], val)) == exact_run(
            k,
            stages,
            numbers(states[0], val),
        ),
    decreases i,
{
    if i == 0 {
        assert(stages.subrange(0, stages.len() as int) =~= stages);
    } else {
        lemma_states_on_numbers(states, stages, f2, f3, val, k, n, i - 1);
        let tail = stages.subrange(i - 1, stages.len() as int);
        let st = stages[i - 1];
        assert(stage_applied(st, states[i - 1], states[i], f2, f3));
        lemma_stage_on_numbers(st, states[i - 1], states[i], f2, f3, val, k);
        assert(tail[0] == st);
        assert(tail.drop_first() =~= stages.subrange(i, stages.len() as int));
    }
}

/// The transform is its own inverse: where its butterflies compute without
/// rounding, transforming twice gives back every coefficient.
pub proof fn lemma_transform_is_self_inverse<
    T,
    F2: Fn(T, T) -> (T, T),
    F3: Fn(T, T, T) -> (T, T, T),
>(
    before: Seq<T>,
    mid: Seq<T>,
    after: Seq<T>,
    f2: F2,
    f3: F3,
    val: spec_fn(T) -> real,
    k: Roots,
)
    requires
        is_transform(before, mid, f2, f3),
        is_transform(mid, after, f2, f3),
        computes_exactly(f2, f3, val, k),
        k.exact(),
    ensures
        numbers(after, val) == numbers(before, val),
{
    let (s1, q1) = lemma_transform_on_numbers(before, mid, f2, f3, val, k);
    let (s2, q2) = lemma_transform_on_numbers(mid, after, f2, f3, val, k);
    let x = numbers(before, val);
    let n = before.len();
    lemma_run_len(k, s1, x);
    assert(numbers(mid, val).len() == n);
    lemma_factorization_is_unique(q1, q2, n);
    lemma_schedule_is_unique(s1, s2, q1, n);
    lemma_run_undoes_itself(k, s1, x);
}

proof fn lemma_run_len(k: Roots, stages: Seq<Stage>, x: Seq<real>)
    ensures
        exact_run(k, stages, x).len() == x.len(),
    decreases stages.len(),
{
    if stages.len() > 0 {
        lemma_run_len(k, stages.drop_first(), exact_stage(k, stages[0], x));
    }
}

// ---------------------------------------------------------------------------
// Energy
// ---------------------------------------------------------------------------

/// The sum of the squares.
pub open spec fn energy(x: Seq<real>) -> real
    decreases x.len(),
{
    if x.len() == 0 {
        0 as real
    } else {
        energy(x.drop_last()) + x.last() * x.last()
    }
}

proof fn lemma_energy_of_both(x: Seq<real>, y: Seq<real>)
    ensures
        energy(x + y) == energy(x) + energy(y),
    decreases y.len(),
{
    if y.len() == 0 {
        assert(x + y =~= x);
    } else {
        assert((x + y).drop_last() =~= x + y.drop_last());
        lemma_energy_of_both(x, y.drop_last());
    }
}

proof fn lemma_product_swaps(o: real, h: real, a: real)
    ensures
        o * (h * a) == a * (h * o),
{
    lemma_commutes(o, h * a);
    lemma_commutes(h, a);
    lemma_associates(a, h, o);
}

/// A butterfly keeps the sum of the squares.
proof fn lemma_butterfly_keeps_energy(k: Roots, radix: int, a: real, b: real, c: real)
    requires
        k.exact(),
        radix == 2 || radix == 3,
    ensures
        ({
            let o0 = k.out(radix, 0, a, b, c);
            let o1 = k.out(radix, 1, a, b, c);
            let o2 = k.out(radix, 2, a, b, c);
            if radix == 2 {
                o0 * o0 + o1 * o1 == a * a + b * b
            } else {
                o0 * o0 + o1 * o1 + o2 * o2 == a * a + b * b + c * c
            }
        }),
{
    let o0 = k.out(radix, 0, a, b, c);
    let o1 = k.out(radix, 1, a, b, c);
    let o2 = k.out(radix, 2, a, b, c);
    lemma_square_of_out(k, radix, 0, a, b, c);
    lemma_square_of_out(k, radix, 1, a, b, c);
    lemma_square_of_input(k, radix, 0, a, b, c);
    lemma_square_of_input(k, radix, 1, a, b, c);
    if radix == 3 {
        lemma_square_of_out(k, radix, 2, a, b, c);
        lemma_square_of_input(k, radix, 2, a, b, c);
    }
}

/// The square of an output, as products of the inputs with it.
proof fn lemma_square_of_out(k: Roots, radix: int, slot: int, a: real, b: real, c: real)
    requires
        radix == 2 || radix == 3,
        0 <= slot < radix,
    ensures
        ({
            let o = k.out(radix, slot, a, b, c);
            let h0 = factor(k, radix, slot, 0);
            let h1 = factor(k, radix, slot, 1);
            let h2 = factor(k, radix, slot, 2);
            if radix == 2 {
                o * o == a * (h0 * o) + b * (h1 * o)
            } else {
                o * o == a * (h0 * o) + b * (h1 * o) + c * (h2 * o)
            }
        }),
{
    let o = k.out(radix, slot, a, b, c);
    let h0 = factor(k, radix, slot, 0);
    let h1 = factor(k, radix, slot, 1);
    let h2 = factor(k, radix, slot, 2);
    lemma_out_as_products(k, radix, slot, a, b, c);
    lemma_factor_moves(o, h0 * a, h1 * b, o);
    lemma_factor_moves(o, h0 * a + h1 * b, h2 * c, o);
    lemma_product_swaps(o, h0, a);
    lemma_product_swaps(o, h1, b);
    lemma_product_swaps(o, h2, c);
}

/// The square of an input, as products of it with the outputs.
proof fn lemma_square_of_input(k: Roots, radix: int, t: int, a: real, b: real, c: real)
    requires
        k.exact(),
        radix == 2 || radix == 3,
        0 <= t < radix,
    ensures
        ({
            let o0 = k.out(radix, 0, a, b, c);
            let o1 = k.out(radix, 1, a, b, c);
            let o2 = k.out(radix, 2, a, b, c);
            let x = if t == 0 {
                a
            } else if t == 1 {
                b
            } else {
                c
            };
            let h0 = factor(k, radix, 0, t);
            let h1 = factor(k, radix, 1, t);
            let h2 = factor(k, radix, 2, t);
            if radix == 2 {
                x * x == x * (h0 * o0) + x * (h1 * o1)
            } else {
                x * x == x * (h0 * o0) + x * (h1 * o1) + x * (h2 * o2)
            }
        }),
{
    let o0 = k.out(radix, 0, a, b, c);
    let o1 = k.out(radix, 1, a, b, c);
    let o2 = k.out(radix, 2, a, b, c);
    let x = if t == 0 {
        a
    } else if t == 1 {
        b
    } else {
        c
    };
    let h0 = factor(k, radix, t, 0);
    let h1 = factor(k, radix, t, 1);
    let h2 = factor(k, radix, t, 2);
    lemma_butterfly_undoes_itself(k, radix, t, a, b, c);
    lemma_out_as_products(k, radix, t, o0, o1, o2);
    lemma_factor_moves(x, h0 * o0, h1 * o1, x);
    lemma_factor_moves(x, h0 * o0 + h1 * o1, h2 * o2, x);
    assert(h0 == factor(k, radix, 0, t));
    assert(h1 == factor(k, radix, 1, t));
    assert(radix == 3 ==> h2 == factor(k, radix, 2, t));
}

/// Combining vectors by butterflies keeps their energy.
proof fn lemma_combined_keeps_energy(
    k: Roots,
    radix: int,
    x: Seq<real>,
    y: Seq<real>,
    z: Seq<real>,
)
    requires
        k.exact(),
        radix == 2 || radix == 3,
        y.len() == x.len(),
        z.len() == x.len(),
    ensures
        radix == 2 ==> energy(combined(k, 2, 0, x, y, z)) + energy(combined(k, 2, 1, x, y, z))
            == energy(x) + energy(y),
        radix == 3 ==> energy(combined(k, 3, 0, x, y, z)) + energy(combined(k, 3, 1, x, y, z))
            + energy(combined(k, 3, 2, x, y, z)) == energy(x) + energy(y) + energy(z),
    decreases x.len(),
{
    if x.len() > 0 {
        let j = x.len() - 1;
        let x1 = x.drop_last();
        let y1 = y.drop_last();
        let z1 = z.drop_last();
        lemma_combined_keeps_energy(k, radix, x1, y1, z1);
        lemma_butterfly_keeps_energy(k, radix, x[j], y[j], z[j]);
        assert forall|slot: int| combined(k, radix, slot, x, y, z).drop_last() == #[trigger] combined(
            k,
            radix,
            slot,
            x1,
            y1,
            z1,
        ) by {
            assert(combined(k, radix, slot, x, y, z).drop_last() =~= combined(
                k,
                radix,
                slot,
                x1,
                y1,
                z1,
            ));
        }
        let c0 = combined(k, radix, 0, x, y, z);
        let c1 = combined(k, radix, 1, x, y, z);
        let c2 = combined(k, radix, 2, x, y, z);
        assert(c0.drop_last() == combined(k, radix, 0, x1, y1, z1));
        assert(c1.drop_last() == combined(k, radix, 1, x1, y1, z1));
        assert(c2.drop_last() == combined(k, radix, 2, x1, y1, z1));
        assert(c0.last() == k.out(radix, 0, x[j], y[j], z[j]));
        assert(c1.last() == k.out(radix, 1, x[j], y[j], z[j]));
        assert(c2.last() == k.out(radix, 2, x[j], y[j], z[j]));
    }
}

/// The energy of a vector is that of its parts.
proof fn lemma_energy_of_parts(x: Seq<real>, radix: int)
    requires
        radix == 2 || radix == 3,
        x.len() as int % radix == 0,
    ensures
        ({
            let p = x.len() as int / radix;
            if radix == 2 {
                energy(x) == energy(part_of(x, p, 0)) + energy(part_of(x, p, 1))
            } else {
                energy(x) == energy(part_of(x, p, 0)) + energy(part_of(x, p, 1)) + energy(
                    part_of(x, p, 2),
                )
            }
        }),
{
    let p = x.len() as int / radix;
    assert(0 * p == 0) by (nonlinear_arith);
    assert(1 * p == p) by (nonlinear_arith);
    let x0 = part_of(x, p, 0);
    let x1 = part_of(x, p, 1);
    lemma_energy_of_both(x0, x1);
    if radix == 2 {
        assert(x =~= x0 + x1);
    } else {
        let x2 = part_of(x, p, 2);
        lemma_energy_of_both(x0 + x1, x2);
        assert(x =~= x0 + x1 + x2);
    }
}

/// The run of a chain keeps the energy.
proof fn lemma_run_keeps_energy(k: Roots, stages: Seq<Stage>, x: Seq<real>)
    requires
        k.exact(),
        is_chain(stages, x.len() as int),
    ensures
        energy(exact_run(k, stages, x)) == energy(x),
    decreases stages.len(),
{
    if stages.len() > 0 {
        let st = stages[0];
        let r = st.radix as int;
        let n = x.len() as int;
        let p = n / r;
        let rest = stages.drop_first();
        let w = exact_stage(k, st, x);
        let y = exact_run(k, stages, x);
        lemma_run_len(k, stages, x);
        lemma_chain_blocks(rest, p);
        lemma_first_stage(k, st, x, 0);
        lemma_first_stage(k, st, x, 1);
        lemma_first_stage(k, st, x, r - 1);
        assert(0 * p == 0) by (nonlinear_arith);
        assert(1 * p == p) by (nonlinear_arith);
        lemma_run_on_part(k, rest, w, p, 0);
        lemma_run_on_part(k, rest, w, p, 1);
        lemma_run_on_part(k, rest, w, p, r - 1);
        lemma_run_keeps_energy(k, rest, part_of(w, p, 0));
        lemma_run_keeps_energy(k, rest, part_of(w, p, 1));
        lemma_run_keeps_energy(k, rest, part_of(w, p, r - 1));
        lemma_energy_of_parts(x, r);
        lemma_energy_of_parts(y, r);
        lemma_combined_keeps_energy(
            k,
            r,
            input_part(x, r, 0),
            input_part(x, r, 1),
            input_part(x, r, 2),
        );
    }
}

/// The transform keeps the energy of a vector where its butterflies compute
/// without rounding.
pub proof fn lemma_transform_keeps_energy<
    T,
    F2: Fn(T, T) -> (T, T),
    F3: Fn(T, T, T) -> (T, T, T),
>(before: Seq<T>, after: Seq<T>, f2: F2, f3: F3, val: spec_fn(T) -> real, k: Roots)
    requires
        is_transform(before, after, f2, f3),
        computes_exactly(f2, f3, val, k),
        k.exact(),
    ensures
        energy(numbers(after, val)) == energy(numbers(before, val)),
{
    let (stages, factors) = lemma_transform_on_numbers(before, after, f2, f3, val, k);
    lemma_run_keeps_energy(k, stages, numbers(before, val));
}

// ---------------------------------------------------------------------------
// The schedule
// ---------------------------------------------------------------------------

proof fn lemma_twos_have_no_three(s: Seq<usize>)
    requires
        forall|i: int| 0 <= i < s.len() ==> #[trigger] s[i] == 2,
    ensures
        product(s) % 3 != 0,
    decreases s.len(),
{
    if s.len() > 0 {
        let init = s.drop_last();
        assert forall|i: int| 0 <= i < init.len() implies #[trigger] init[i] == 2 by {
            assert(init[i] == s[i]);
        }
        lemma_twos_have_no_three(init);
        assert(s[s.len() - 1] == 2);
        let m = product(init);
        assert(product(s) == m * 2);
        assert((m * 2) % 3 != 0);
    }
}

/// The threes come first: the factors of a multiple of three begin with one,
/// and those of an even number end in a two.
pub proof fn lemma_threes_come_first(factors: Seq<usize>, n: nat)
    requires
        is_factorization(factors, n),
    ensures
        n % 3 == 0 ==> factors.len() > 0 && factors[0] == 3,
        n % 2 == 0 ==> factors.len() > 0 && factors.last() == 2,
        factors.len() == 0 <==> n == 1,
{
    lemma_last_factor(factors, n);
    if n % 3 == 0 {
        if factors.len() > 0 && factors[0] != 3 {
            assert forall|i: int| 0 <= i < factors.len() implies #[trigger] factors[i] == 2 by {
                assert(factors[0] >= factors[i]);
            }
            lemma_twos_have_no_three(factors);
        }
    }
}

/// The stages go from the whole vector down to single butterflies: the first
/// works on one block that is the vector, each next one on blocks as long as
/// the parts that the one before joined, and the last on blocks of one
/// butterfly.
pub proof fn lemma_stages_narrow_down(stages: Seq<Stage>, factors: Seq<usize>, n: nat, i: int)
    requires
        is_factorization(factors, n),
        is_schedule(stages, factors, n),
        0 <= i < stages.len(),
    ensures
        stages[0].block == n,
        i + 1 < stages.len() ==> stages[i + 1].block * stages[i].radix == stages[i].block,
        i + 1 == stages.len() ==> stages[i].block == stages[i].radix,
{
    assert(factors.take(0) =~= Seq::<usize>::empty());
    assert(stages[0].block * product(factors.take(0)) == n);
    assert(stages[0].block * 1 == stages[0].block) by (nonlinear_arith);
    lemma_last_factor(factors, n);
    let p = product(factors.take(i)) as int;
    let f = factors[i] as int;
    let b = stages[i].block as int;
    assert(factors.take(i + 1).drop_last() =~= factors.take(i));
    assert(factors.take(i + 1).last() == factors[i]);
    assert(product(factors.take(i + 1)) == p * f);
    assert(b * p == n);
    assert(p > 0) by (nonlinear_arith)
        requires
            b * p == n,
            n > 0,
            b > 0,
            p >= 0,
    ;
    if i + 1 < stages.len() {
        let c = stages[i + 1].block as int;
        assert(c * (p * f) == n);
        assert(c * f == b) by (nonlinear_arith)
            requires
                c * (p * f) == n,
                b * p == n,
                p > 0,
        ;
    } else {
        assert(factors.take(i + 1) =~= factors);
        assert(b == f) by (nonlinear_arith)
            requires
                b * p == n,
                p * f == n,
                p > 0,
        ;
    }
}

/// A butterfly joins coefficients that lie a part of the block apart, all of
/// one block; neighbouring butterflies of a block join neighbours.
pub proof fn lemma_butterfly_layout(stage: Stage, g: int, slot: int)
    requires
        stage_fits(stage, stage.block as int),
        0 <= g,
        0 <= slot < stage.radix,
    ensures
        ({
            let part = stage.block as int / stage.radix as int;
            &&& butterfly_index(stage, 0, 0) == 0
            &&& butterfly_index(stage, g, slot + 1) == butterfly_index(stage, g, slot) + part
            &&& g % part + 1 < part ==> butterfly_index(stage, g + 1, slot) == butterfly_index(
                stage,
                g,
                slot,
            ) + 1
            &&& butterfly_index(stage, g + part, slot) == butterfly_index(stage, g, slot)
                + stage.block
        }),
{
    let part = stage.block as int / stage.radix as int;
    let block = stage.block as int;
    let radix = stage.radix as int;
    vstd::arithmetic::div_mod::lemma_fundamental_div_mod(block, radix);
    assert(part > 0) by (nonlinear_arith)
        requires
            block == radix * part,
            block > 0,
            radix > 0,
    ;
    vstd::arithmetic::div_mod::lemma_small_mod(0, part as nat);
    vstd::arithmetic::div_mod::lemma_div_basics(part);
    assert(0 * block == 0) by (nonlinear_arith);
    assert(0 * part == 0) by (nonlinear_arith);
    assert((slot + 1) * part == slot * part + part) by (nonlinear_arith);
    vstd::arithmetic::div_mod::lemma_fundamental_div_mod(g, part);
    let q = g / part;
    let r = g % part;
    if r + 1 < part {
        assert(g + 1 == q * part + (r + 1)) by (nonlinear_arith)
            requires
                g == part * q + r,
        ;
        vstd::arithmetic::div_mod::lemma_fundamental_div_mod_converse(g + 1, part, q, r + 1);
    }
    assert(g + part == (q + 1) * part + r) by (nonlinear_arith)
        requires
            g == part * q + r,
    ;
    vstd::arithmetic::div_mod::lemma_fundamental_div_mod_converse(g + part, part, q + 1, r);
    assert((q + 1) * block == q * block + block) by (nonlinear_arith);
}

// ---------------------------------------------------------------------------
// There and back
// ---------------------------------------------------------------------------

/// The band that coefficient `i` belongs to.
proof fn lemma_in_some_band(cfg: BandConfig, i: int) -> (b: int)
    requires
        cfg.n_bands > 0,
        0 <= i < cfg.head_dim,
    ensures
        0 <= b < cfg.n_bands,
        span_of(cfg, b).0 <= i < span_of(cfg, b).0 + span_of(cfg, b).1,
        0 <= span_of(cfg, b).0,
        span_of(cfg, b).0 + span_of(cfg, b).1 <= cfg.head_dim,
{
    let n = cfg.n_bands as int;
    let s = cfg.head_dim as int / n;
    lemma_bands_partition(cfg, n - 1);
    lemma_bands_are_even(cfg, n - 1);
    if i >= (n - 1) * s {
        n - 1
    } else {
        let b = i / s;
        assert(s > 0) by (nonlinear_arith)
            requires
                i < (n - 1) * s,
                0 <= i,
                n >= 1,
        ;
        vstd::arithmetic::div_mod::lemma_fundamental_div_mod(i, s);
        assert(0 <= b < n - 1 && b * s <= i < b * s + s) by (nonlinear_arith)
            requires
                i == s * b + i % s,
                0 <= i % s < s,
                0 <= i < (n - 1) * s,
                s > 0,
        ;
        lemma_bands_are_even(cfg, b);
        assert(b * s + s <= (n - 1) * s) by (nonlinear_arith)
            requires
                b + 1 <= n - 1,
                s > 0,
        ;
        b
    }
}

/// The quantiser keeps the numbers of every band.
pub open spec fn keeps_numbers<T, Q: Fn(Vec<T>, i32) -> Vec<T>>(
    q: Q,
    val: spec_fn(T) -> real,
) -> bool {
    forall|v: Vec<T>, m: i32, r: Vec<T>| #[trigger]
        q.ensures((v, m), r) ==> numbers(r@, val) == numbers(v@, val)
}

/// Quantisation is all that compression loses: where the butterflies compute
/// without rounding and the quantiser keeps the numbers, compressing and
/// decompressing gives back every coefficient of the vector.
pub proof fn lemma_roundtrip_loses_only_by_quantising<
    T,
    F2: Fn(T, T) -> (T, T),
    F3: Fn(T, T, T) -> (T, T, T),
    Q: Fn(Vec<T>, i32) -> Vec<T>,
>(
    before: Seq<T>,
    after: Seq<T>,
    cfg: BandConfig,
    f2: F2,
    f3: F3,
    q: Q,
    val: spec_fn(T) -> real,
    k: Roots,
)
    requires
        is_roundtrip(before, after, cfg, f2, f3, q),
        vector_fits(before.len(), cfg),
        computes_exactly(f2, f3, val, k),
        k.exact(),
        keeps_numbers(q, val),
    ensures
        numbers(after, val) == numbers(before, val),
{
    let held = choose|held: Seq<T>|
        #![trigger is_compressed(before, held, cfg, f2, f3, q)]
        is_compressed(before, held, cfg, f2, f3, q) && is_transform(held, after, f2, f3);
    let mid = choose|mid: Seq<T>| #[trigger]
        is_transform(before, mid, f2, f3) && mid.len() == before.len() && held.len()
            == before.len() && forall|b: int|
            0 <= b < cfg.n_bands ==> #[trigger] band_quantized(mid, held, cfg, b, q);
    assert forall|i: int| 0 <= i < held.len() implies val(#[trigger] held[i]) == val(mid[i]) by {
        let b = lemma_in_some_band(cfg, i);
        assert(band_quantized(mid, held, cfg, b, q));
        let (input, output, level) = choose|input: Vec<T>, output: Vec<T>, level: i32|
            #![trigger q.ensures((input, level), output)]
            {
                &&& q.ensures((input, level), output)
                &&& input@ == band_of(mid, cfg, b)
                &&& output@ == band_of(held, cfg, b)
                &&& level == vstd::arithmetic::power2::pow2((cfg.band_bits@[b] - 1) as nat) - 1
            };
        let j = i - span_of(cfg, b).0;
        assert(numbers(output@, val)[j] == numbers(input@, val)[j]);
        assert(output@[j] == held[i]);
        assert(input@[j] == mid[i]);
    }
    assert(numbers(held, val) =~= numbers(mid, val));
    let (s1, q1) = lemma_transform_on_numbers(before, mid, f2, f3, val, k);
    let (s2, q2) = lemma_transform_on_numbers(held, after, f2, f3, val, k);
    let n = before.len();
    lemma_factorization_is_unique(q1, q2, n);
    lemma_schedule_is_unique(s1, s2, q1, n);
    lemma_run_undoes_itself(k, s1, numbers(before, val));
}

} // verus!

//! Tensors of shape `[batch, heads, seq, head_dim]`, kept as one lane of
//! `seq * head_dim` values per batch entry and head.

use crate::audio::chunks::{append_all, copy_range};
use vstd::prelude::*;

verus! {

/// A tensor of keys or values.
#[derive(Debug, Clone)]
pub struct KvTensor<T> {
    pub batch: usize,
    pub heads: usize,
    pub seq: usize,
    pub head_dim: usize,
    pub lanes: Vec<Vec<T>>,
}

/// Shape and values of a tensor.
#[verifier::ext_equal]
pub struct KvModel<T> {
    pub batch: nat,
    pub heads: nat,
    pub seq: nat,
    pub head_dim: nat,
    pub lanes: Seq<Seq<T>>,
}

impl<T> KvModel<T> {
    /// One lane per batch entry and head, each `seq * head_dim` long.
    pub open spec fn wf(self) -> bool {
        &&& self.lanes.len() == self.batch * self.heads
        &&& forall|l: int|
            0 <= l < self.lanes.len() ==> (#[trigger] self.lanes[l]).len() == self.seq
                * self.head_dim
    }

    /// The shapes agree but for the sequence length.
    pub open spec fn fits(self, other: KvModel<T>) -> bool {
        &&& self.batch == other.batch
        &&& self.heads == other.heads
        &&& self.head_dim == other.head_dim
    }

    /// Every value is `value`.
    pub open spec fn filled(
        batch: nat,
        heads: nat,
        seq: nat,
        head_dim: nat,
        value: T,
    ) -> KvModel<T> {
        KvModel {
            batch,
            heads,
            seq,
            head_dim,
            lanes: Seq::new(batch * heads, |l: int| Seq::new(seq * head_dim, |i: int| value)),
        }
    }

    /// `self` followed by `other` along the sequence.
    pub open spec fn cat(self, other: KvModel<T>) -> KvModel<T> {
        KvModel {
            seq: self.seq + other.seq,
            lanes: Seq::new(self.lanes.len(), |l: int| self.lanes[l] + other.lanes[l]),
            ..self
        }
    }

    /// Positions `from..to` of the sequence.
    pub open spec fn slice(self, from: nat, to: nat) -> KvModel<T> {
        KvModel {
            seq: (to - from) as nat,
            lanes: Seq::new(
                self.lanes.len(),
                |l: int|
                    self.lanes[l].subrange(
                        (from * self.head_dim) as int,
                        (to * self.head_dim) as int,
                    ),
            ),
            ..self
        }
    }

    /// `other` written over the positions from `pos` on.
    pub open spec fn assign(self, pos: nat, other: KvModel<T>) -> KvModel<T> {
        KvModel {
            lanes: Seq::new(
                self.lanes.len(),
                |l: int|
                    self.lanes[l].subrange(0, (pos * self.head_dim) as int) + other.lanes[l]
                        + self.lanes[l].subrange(
                        ((pos + other.seq) * self.head_dim) as int,
                        (self.seq * self.head_dim) as int,
                    ),
            ),
            ..self
        }
    }
}

impl<T> View for KvTensor<T> {
    type V = KvModel<T>;

    open spec fn view(&self) -> KvModel<T> {
        KvModel {
            batch: self.batch as nat,
            heads: self.heads as nat,
            seq: self.seq as nat,
            head_dim: self.head_dim as nat,
            lanes: Seq::new(self.lanes@.len(), |l: int| self.lanes@[l]@),
        }
    }
}

impl<T> KvTensor<T> {
    /// Well-formed, and a lane's length is a machine number.
    pub open spec fn wf(self) -> bool {
        &&& self@.wf()
        &&& self.seq * self.head_dim <= usize::MAX
    }
}

/// Two pieces put together.
fn joined_lane<T: Copy>(a: &[T], b: &[T]) -> (r: Vec<T>)
    ensures
        r@ == a@ + b@,
{
    let mut out = copy_range(a, 0, a.len());
    assert(out@ =~= a@);
    append_all(&mut out, b);
    out
}

impl<T: Copy> KvTensor<T> {
    /// A tensor that holds `value` everywhere.
    pub fn filled(batch: usize, heads: usize, seq: usize, head_dim: usize, value: T) -> (r: Self)
        requires
            batch * heads <= usize::MAX,
            seq * head_dim <= usize::MAX,
        ensures
            r.wf(),
            r@ == KvModel::filled(
                batch as nat,
                heads as nat,
                seq as nat,
                head_dim as nat,
                value,
            ),
    {
        let n: usize = batch * heads;
        let w: usize = seq * head_dim;
        let mut lanes: Vec<Vec<T>> = Vec::new();
        let mut l: usize = 0;
        while l < n
            invariant
                l <= n,
                lanes@.len() == l,
                forall|k: int|
                    0 <= k < l ==> (#[trigger] lanes@[k])@ == Seq::new(w as nat, |i: int| value),
            decreases n - l,
        {
            let mut lane: Vec<T> = Vec::with_capacity(w);
            let mut i: usize = 0;
            while i < w
                invariant
                    i <= w,
                    lane@ == Seq::new(i as nat, |j: int| value),
                decreases w - i,
            {
                lane.push(value);
                i = i + 1;
                assert(lane@ =~= Seq::new(i as nat, |j: int| value));
            }
            lanes.push(lane);
            l = l + 1;
        }
        let r = KvTensor { batch, heads, seq, head_dim, lanes };
        assert(r@ =~= KvModel::filled(
            batch as nat,
            heads as nat,
            seq as nat,
            head_dim as nat,
            value,
        )) by {
            assert(r@.lanes =~= Seq::new(
                (batch * heads) as nat,
                |l: int| Seq::new((seq * head_dim) as nat, |i: int| value),
            ));
        }
        r
    }

    /// The shape.
    pub fn dims(&self) -> (r: [usize; 4])
        ensures
            r@ == seq![self.batch, self.heads, self.seq, self.head_dim],
    {
        let r = [self.batch, self.heads, self.seq, self.head_dim];
        assert(r@ =~= seq![self.batch, self.heads, self.seq, self.head_dim]);
        r
    }

    /// A copy.
    pub fn duplicate(&self) -> (r: Self)
        requires
            self.wf(),
        ensures
            r.wf(),
            r@ == self@,
    {
        let mut lanes: Vec<Vec<T>> = Vec::new();
        let mut l: usize = 0;
        while l < self.lanes.len()
            invariant
                l <= self.lanes@.len(),
                lanes@.len() == l,
                forall|k: int| 0 <= k < l ==> (#[trigger] lanes@[k])@ == self.lanes@[k]@,
            decreases self.lanes@.len() - l,
        {
            let lane = copy_range(self.lanes[l].as_slice(), 0, self.lanes[l].len());
            assert(lane@ =~= self.lanes@[l as int]@);
            lanes.push(lane);
            l = l + 1;
        }
        let r = KvTensor {
            batch: self.batch,
            heads: self.heads,
            seq: self.seq,
            head_dim: self.head_dim,
            lanes,
        };
        assert(r@.lanes =~= self@.lanes);
        r
    }

    /// `self` followed by `other` along the sequence.
    pub fn cat(&self, other: &Self) -> (r: Self)
        requires
            self.wf(),
            other.wf(),
            self@.fits(other@),
            (self.seq + other.seq) * self.head_dim <= usize::MAX,
            self.seq + other.seq <= usize::MAX,
        ensures
            r.wf(),
            r@ == self@.cat(other@),
    {
        let mut lanes: Vec<Vec<T>> = Vec::new();
        let mut l: usize = 0;
        assert(self@.lanes.len() == other@.lanes.len());
        while l < self.lanes.len()
            invariant
                l <= self.lanes@.len(),
                self.lanes@.len() == other.lanes@.len(),
                lanes@.len() == l,
                forall|k: int|
                    0 <= k < l ==> (#[trigger] lanes@[k])@ == self.lanes@[k]@ + other.lanes@[k]@,
            decreases self.lanes@.len() - l,
        {
            let lane = joined_lane(self.lanes[l].as_slice(), other.lanes[l].as_slice());
            lanes.push(lane);
            l = l + 1;
        }
        let r = KvTensor {
            batch: self.batch,
            heads: self.heads,
            seq: self.seq + other.seq,
            head_dim: self.head_dim,
            lanes,
        };
        proof {
            assert(r@.lanes =~= self@.cat(other@).lanes);
            assert(self.seq * self.head_dim + other.seq * self.head_dim == (self.seq + other.seq)
                * self.head_dim) by (nonlinear_arith);
            assert forall|k: int| 0 <= k < r@.lanes.len() implies (#[trigger] r@.lanes[k]).len()
                == r@.seq * r@.head_dim by {
                assert(self@.lanes[k].len() == self@.seq * self@.head_dim);
                assert(other@.lanes[k].len() == other@.seq * other@.head_dim);
            }
        }
        r
    }

    /// Positions `from..to` of the sequence.
    pub fn slice(&self, from: usize, to: usize) -> (r: Self)
        requires
            self.wf(),
            from <= to <= self.seq,
        ensures
            r.wf(),
            r@ == self@.slice(from as nat, to as nat),
    {
        proof {
            lemma_span(from as int, to as int, self.seq as int, self.head_dim as int);
        }
        let a: usize = from * self.head_dim;
        let b: usize = to * self.head_dim;
        let mut lanes: Vec<Vec<T>> = Vec::new();
        let mut l: usize = 0;
        while l < self.lanes.len()
            invariant
                self.wf(),
                a <= b <= self.seq * self.head_dim,
                l <= self.lanes@.len(),
                lanes@.len() == l,
                forall|k: int|
                    0 <= k < l ==> (#[trigger] lanes@[k])@ == self.lanes@[k]@.subrange(
                        a as int,
                        b as int,
                    ),
            decreases self.lanes@.len() - l,
        {
            assert(self@.lanes[l as int].len() == self@.seq * self@.head_dim);
            lanes.push(copy_range(self.lanes[l].as_slice(), a, b));
            l = l + 1;
        }
        let r = KvTensor {
            batch: self.batch,
            heads: self.heads,
            seq: to - from,
            head_dim: self.head_dim,
            lanes,
        };
        proof {
            assert(r@.lanes =~= self@.slice(from as nat, to as nat).lanes);
            assert forall|k: int| 0 <= k < r@.lanes.len() implies (#[trigger] r@.lanes[k]).len()
                == r@.seq * r@.head_dim by {
                assert(self@.lanes[k].len() == self@.seq * self@.head_dim);
            }
        }
        r
    }

    /// Writes `other` over the positions from `pos` on.
    pub fn assign(&mut self, pos: usize, other: &Self)
        requires
            old(self).wf(),
            other.wf(),
            old(self)@.fits(other@),
            pos + other.seq <= old(self).seq,
        ensures
            final(self).wf(),
            final(self)@ == old(self)@.assign(pos as nat, other@),
    {
        let ghost before = *self;
        proof {
            lemma_span(
                pos as int,
                pos + other.seq,
                self.seq as int,
                self.head_dim as int,
            );
        }
        let a: usize = pos * self.head_dim;
        let b: usize = (pos + other.seq) * self.head_dim;
        let w: usize = self.seq * self.head_dim;
        let mut lanes: Vec<Vec<T>> = Vec::new();
        let mut l: usize = 0;
        while l < self.lanes.len()
            invariant
                *self == before,
                before.wf(),
                other.wf(),
                before@.fits(other@),
                w == before.seq * before.head_dim,
                a <= b <= w,
                b - a == other.seq * other.head_dim,
                l <= before.lanes@.len(),
                lanes@.len() == l,
                forall|k: int|
                    0 <= k < l ==> (#[trigger] lanes@[k])@ == before.lanes@[k]@.subrange(
                        0,
                        a as int,
                    ) + other.lanes@[k]@ + before.lanes@[k]@.subrange(b as int, w as int),
            decreases before.lanes@.len() - l,
        {
            assert(before@.lanes[l as int].len() == before@.seq * before@.head_dim);
            let head = copy_range(self.lanes[l].as_slice(), 0, a);
            let mid = joined_lane(head.as_slice(), other.lanes[l].as_slice());
            let tail = copy_range(self.lanes[l].as_slice(), b, w);
            lanes.push(joined_lane(mid.as_slice(), tail.as_slice()));
            l = l + 1;
        }
        self.lanes = lanes;
        proof {
            assert(self@.lanes =~= before@.assign(pos as nat, other@).lanes);
            assert forall|k: int| 0 <= k < self@.lanes.len() implies (
            #[trigger] self@.lanes[k]).len() == self@.seq * self@.head_dim by {
                assert(before@.lanes[k].len() == before@.seq * before@.head_dim);
                assert(other@.lanes[k].len() == other@.seq * other@.head_dim);
            }
        }
    }
}

/// Positions inside a sequence are inside a lane.
pub proof fn lemma_span(from: int, to: int, seq: int, head_dim: int)
    requires
        0 <= from <= to <= seq,
        0 <= head_dim,
    ensures
        0 <= from * head_dim <= to * head_dim <= seq * head_dim,
        to * head_dim - from * head_dim == (to - from) * head_dim,
{
    assert(0 <= from * head_dim <= to * head_dim <= seq * head_dim && to * head_dim - from
        * head_dim == (to - from) * head_dim) by (nonlinear_arith)
        requires
            0 <= from <= to <= seq,
            0 <= head_dim,
    ;
}

/// A concatenation gives back both its parts.
pub proof fn lemma_slice_of_cat<T>(a: KvModel<T>, b: KvModel<T>)
    requires
        a.wf(),
        b.wf(),
        a.fits(b),
    ensures
        a.cat(b).wf(),
        a.cat(b).slice(0, a.seq) == a,
        a.cat(b).slice(a.seq, a.seq + b.seq) == b,
{
    let c = a.cat(b);
    let hd = a.head_dim as int;
    lemma_span(a.seq as int, (a.seq + b.seq) as int, (a.seq + b.seq) as int, hd);
    assert(0 * hd == 0) by (nonlinear_arith);
    assert forall|l: int| 0 <= l < c.lanes.len() implies (#[trigger] c.lanes[l]).len() == c.seq
        * c.head_dim by {
        assert(a.lanes[l].len() == a.seq * a.head_dim);
        assert(b.lanes[l].len() == b.seq * b.head_dim);
    }
    assert forall|l: int| 0 <= l < c.lanes.len() implies c.slice(0, a.seq).lanes[l] == a.lanes[l]
        && c.slice(a.seq, a.seq + b.seq).lanes[l] == b.lanes[l] by {
        assert(a.lanes[l].len() == a.seq * a.head_dim);
        assert(b.lanes[l].len() == b.seq * b.head_dim);
        assert(c.lanes[l] == a.lanes[l] + b.lanes[l]);
        assert(c.slice(0, a.seq).lanes[l] =~= a.lanes[l]);
        assert(c.slice(a.seq, a.seq + b.seq).lanes[l] =~= b.lanes[l]);
    }
    assert(c.slice(0, a.seq) =~= a) by {
        assert(c.slice(0, a.seq).lanes =~= a.lanes);
    }
    assert(c.slice(a.seq, a.seq + b.seq) =~= b) by {
        assert(c.slice(a.seq, a.seq + b.seq).lanes =~= b.lanes);
    }
}

/// Concatenation is associative.
pub proof fn lemma_cat_associates<T>(a: KvModel<T>, b: KvModel<T>, c: KvModel<T>)
    requires
        a.wf(),
        b.wf(),
        c.wf(),
        a.fits(b),
        b.fits(c),
    ensures
        a.cat(b).cat(c) == a.cat(b.cat(c)),
{
    let x = a.cat(b).cat(c);
    let y = a.cat(b.cat(c));
    assert forall|l: int| 0 <= l < x.lanes.len() implies x.lanes[l] == y.lanes[l] by {
        assert(x.lanes[l] =~= y.lanes[l]);
    }
    assert(x.lanes =~= y.lanes);
}

/// Writing after the filled part of a buffer and reading the filled part gives
/// what appending would: writing in place and concatenating agree.
pub proof fn lemma_assign_extends_prefix<T>(buf: KvModel<T>, pos: nat, new: KvModel<T>)
    requires
        buf.wf(),
        new.wf(),
        buf.fits(new),
        pos + new.seq <= buf.seq,
    ensures
        buf.assign(pos, new).wf(),
        buf.assign(pos, new).slice(0, pos + new.seq) == buf.slice(0, pos).cat(new),
{
    let hd = buf.head_dim as int;
    let out = buf.assign(pos, new);
    let x = out.slice(0, pos + new.seq);
    let y = buf.slice(0, pos).cat(new);
    lemma_span(pos as int, (pos + new.seq) as int, buf.seq as int, hd);
    assert(0 * hd == 0) by (nonlinear_arith);
    assert forall|l: int| 0 <= l < out.lanes.len() implies (#[trigger] out.lanes[l]).len()
        == out.seq * out.head_dim by {
        assert(buf.lanes[l].len() == buf.seq * buf.head_dim);
        assert(new.lanes[l].len() == new.seq * new.head_dim);
    }
    assert forall|l: int| 0 <= l < x.lanes.len() implies x.lanes[l] == y.lanes[l] by {
        assert(buf.lanes[l].len() == buf.seq * buf.head_dim);
        assert(new.lanes[l].len() == new.seq * new.head_dim);
        assert(x.lanes[l] =~= y.lanes[l]);
    }
    assert(x.lanes =~= y.lanes);
}

/// Writing over a stretch of positions leaves those after it as they were, and
/// the stretch itself holds what was written.
pub proof fn lemma_assign_keeps_the_rest<T>(buf: KvModel<T>, pos: nat, new: KvModel<T>)
    requires
        buf.wf(),
        new.wf(),
        buf.fits(new),
        pos + new.seq <= buf.seq,
    ensures
        buf.assign(pos, new).slice(0, pos) == buf.slice(0, pos),
        buf.assign(pos, new).slice(pos, pos + new.seq) == new,
        buf.assign(pos, new).slice(pos + new.seq, buf.seq) == buf.slice(pos + new.seq, buf.seq),
        buf.assign(pos, new).seq == buf.seq,
{
    let hd = buf.head_dim as int;
    let out = buf.assign(pos, new);
    let end = pos + new.seq;
    lemma_span(pos as int, end as int, buf.seq as int, hd);
    assert(0 * hd == 0) by (nonlinear_arith);
    assert forall|l: int| 0 <= l < out.lanes.len() implies {
        &&& out.slice(0, pos).lanes[l] == buf.slice(0, pos).lanes[l]
        &&& out.slice(pos, end).lanes[l] == new.lanes[l]
        &&& out.slice(end, buf.seq).lanes[l] == buf.slice(end, buf.seq).lanes[l]
    } by {
        assert(buf.lanes[l].len() == buf.seq * buf.head_dim);
        assert(new.lanes[l].len() == new.seq * new.head_dim);
        assert(out.slice(0, pos).lanes[l] =~= buf.slice(0, pos).lanes[l]);
        assert(out.slice(pos, end).lanes[l] =~= new.lanes[l]);
        assert(out.slice(end, buf.seq).lanes[l] =~= buf.slice(end, buf.seq).lanes[l]);
    }
    assert(out.slice(0, pos).lanes =~= buf.slice(0, pos).lanes);
    assert(out.slice(pos, end).lanes =~= new.lanes);
    assert(out.slice(end, buf.seq).lanes =~= buf.slice(end, buf.seq).lanes);
}

/// Value `d` of the vector at position `s` of a head.
pub open spec fn value_at<T>(t: KvModel<T>, b: int, h: int, s: int, d: int) -> T {
    t.lanes[b * t.heads + h][s * t.head_dim + d]
}

/// A value keeps its batch entry, head and place in its vector, wherever its
/// position moves: slices start to count anew, and what is appended comes
/// after what was there.
pub proof fn lemma_values_keep_their_place<T>(
    a: KvModel<T>,
    other: KvModel<T>,
    from: nat,
    to: nat,
    b: int,
    h: int,
    s: int,
    d: int,
)
    requires
        a.wf(),
        other.wf(),
        a.fits(other),
        from <= to <= a.seq,
        0 <= b < a.batch,
        0 <= h < a.heads,
        0 <= s,
        0 <= d < a.head_dim,
    ensures
        s < to - from ==> value_at(a.slice(from, to), b, h, s, d) == value_at(
            a,
            b,
            h,
            from + s,
            d,
        ),
        s < a.seq ==> value_at(a.cat(other), b, h, s, d) == value_at(a, b, h, s, d),
        s < other.seq ==> value_at(a.cat(other), b, h, a.seq + s, d) == value_at(
            other,
            b,
            h,
            s,
            d,
        ),
        a.slice(from, to).seq == to - from,
        a.cat(other).seq == a.seq + other.seq,
{
    let hd = a.head_dim as int;
    let l = b * a.heads + h;
    assert(0 <= l < a.batch * a.heads) by (nonlinear_arith)
        requires
            0 <= b < a.batch,
            0 <= h < a.heads,
            l == b * a.heads + h,
    ;
    assert(a.lanes[l].len() == a.seq * a.head_dim);
    assert(other.lanes[l].len() == other.seq * other.head_dim);
    let i = s * hd + d;
    if s < to - from {
        lemma_span(from as int, to as int, a.seq as int, hd);
        let j = (from + s) * hd + d;
        assert(j == from * hd + i && 0 <= i && j < to * hd) by (nonlinear_arith)
            requires
                i == s * hd + d,
                j == (from + s) * hd + d,
                0 <= s < to - from,
                0 <= d < hd,
                0 <= from,
        ;
    }
    if s < a.seq {
        assert(0 <= i < a.seq * hd) by (nonlinear_arith)
            requires
                i == s * hd + d,
                0 <= s < a.seq,
                0 <= d < hd,
        ;
    }
    if s < other.seq {
        let j = (a.seq + s) * hd + d;
        assert(j == a.seq * hd + i && 0 <= i && j < (a.seq + other.seq) * hd && i < other.seq * hd)
            by (nonlinear_arith)
            requires
                i == s * hd + d,
                j == (a.seq + s) * hd + d,
                0 <= s < other.seq,
                0 <= d < hd,
                0 <= a.seq,
        ;
    }
}

} // verus!

//! Key/value cache in one flat buffer that CPU and GPU share.

use crate::l0::device::L0Context;
use vstd::prelude::*;

verus! {

/// Shape of a cache buffer: `[batch, kv_heads, max_seq_len, head_dim]`, row
/// major. One lane per batch entry and head.
#[derive(Debug, Clone, Copy, PartialEq, Eq, Structural)]
pub struct KvLayout {
    pub batch: usize,
    pub kv_heads: usize,
    pub max_seq_len: usize,
    pub head_dim: usize,
}

/// Where element `d` of position `s` of lane `l` stands.
pub open spec fn slot(layout: KvLayout, l: int, s: int, d: int) -> int {
    (l * layout.max_seq_len + s) * layout.head_dim + d
}

/// Number of lanes.
pub open spec fn lanes(layout: KvLayout) -> int {
    layout.batch * layout.kv_heads
}

/// Number of elements in the buffer.
pub open spec fn elements(layout: KvLayout) -> int {
    lanes(layout) * layout.max_seq_len * layout.head_dim
}

/// A slot of the layout.
pub open spec fn valid_slot(layout: KvLayout, l: int, s: int, d: int) -> bool {
    0 <= l < lanes(layout) && 0 <= s < layout.max_seq_len && 0 <= d < layout.head_dim
}

/// Every slot lies inside the buffer.
pub proof fn lemma_slot_in_range(layout: KvLayout, l: int, s: int, d: int)
    requires
        valid_slot(layout, l, s, d),
    ensures
        0 <= slot(layout, l, s, 0) <= slot(layout, l, s, d) < elements(layout),
        slot(layout, l, s, 0) + layout.head_dim <= elements(layout),
        slot(layout, l, s, 0) == (l * layout.max_seq_len + s) * layout.head_dim,
        0 <= l * layout.max_seq_len,
        l * layout.max_seq_len + s < lanes(layout) * layout.max_seq_len,
{
    let m = layout.max_seq_len as int;
    let h = layout.head_dim as int;
    let n = lanes(layout);
    let row = l * m + s;
    assert(0 <= l * m && 0 <= row && row + 1 <= n * m) by (nonlinear_arith)
        requires
            0 <= l < n,
            0 <= s < m,
            row == l * m + s,
    ;
    assert(0 <= row * h && row * h + h <= n * m * h) by (nonlinear_arith)
        requires
            0 <= row,
            row + 1 <= n * m,
            h >= 0,
    ;
}

/// Different slots stand at different places.
pub proof fn lemma_slots_are_distinct(
    layout: KvLayout,
    l1: int,
    s1: int,
    d1: int,
    l2: int,
    s2: int,
    d2: int,
)
    requires
        valid_slot(layout, l1, s1, d1),
        valid_slot(layout, l2, s2, d2),
        slot(layout, l1, s1, d1) == slot(layout, l2, s2, d2),
    ensures
        l1 == l2 && s1 == s2 && d1 == d2,
{
    let m = layout.max_seq_len as int;
    let h = layout.head_dim as int;
    let r1 = l1 * m + s1;
    let r2 = l2 * m + s2;
    vstd::arithmetic::div_mod::lemma_fundamental_div_mod_converse(r1 * h + d1, h, r1, d1);
    vstd::arithmetic::div_mod::lemma_fundamental_div_mod_converse(r2 * h + d2, h, r2, d2);
    assert(r1 == r2 && d1 == d2);
    vstd::arithmetic::div_mod::lemma_fundamental_div_mod_converse(r1, m, l1, s1);
    vstd::arithmetic::div_mod::lemma_fundamental_div_mod_converse(r2, m, l2, s2);
}

/// The buffer is row major: a vector's elements stand side by side, the vectors
/// of a lane one after the other, and the lanes one after the other, with
/// nothing between them.
pub proof fn lemma_layout_is_row_major(layout: KvLayout, l: int, s: int, d: int)
    ensures
        slot(layout, 0, 0, 0) == 0,
        slot(layout, l, s, d + 1) == slot(layout, l, s, d) + 1,
        slot(layout, l, s + 1, d) == slot(layout, l, s, d) + layout.head_dim,
        slot(layout, l + 1, s, d) == slot(layout, l, s, d) + layout.max_seq_len * layout.head_dim,
        slot(layout, l, layout.max_seq_len as int, 0) == slot(layout, l + 1, 0, 0),
        slot(layout, lanes(layout), 0, 0) == elements(layout),
{
    let m = layout.max_seq_len as int;
    let h = layout.head_dim as int;
    let n = lanes(layout);
    assert((0 * m + 0) * h == 0) by (nonlinear_arith);
    assert((l * m + (s + 1)) * h == (l * m + s) * h + h) by (nonlinear_arith);
    assert(((l + 1) * m + s) * h == (l * m + s) * h + m * h) by (nonlinear_arith);
    assert((l * m + m) * h == ((l + 1) * m + 0) * h) by (nonlinear_arith);
    assert((n * m + 0) * h == n * m * h) by (nonlinear_arith);
}

impl KvLayout {
    /// Where the vector of position `seq_idx` of a head starts.
    pub fn offset(&self, batch_idx: usize, head_idx: usize, seq_idx: usize) -> (r: usize)
        requires
            batch_idx < self.batch,
            head_idx < self.kv_heads,
            seq_idx < self.max_seq_len,
            elements(*self) <= usize::MAX,
            self.head_dim > 0,
        ensures
            r == ((batch_idx * self.kv_heads + head_idx) * self.max_seq_len + seq_idx)
                * self.head_dim,
            r == slot(*self, batch_idx * self.kv_heads + head_idx, seq_idx as int, 0),
    {
        let ghost l = batch_idx * self.kv_heads + head_idx;
        proof {
            assert(0 <= batch_idx * self.kv_heads && l < self.batch * self.kv_heads)
                by (nonlinear_arith)
                requires
                    0 <= batch_idx < self.batch,
                    0 <= head_idx < self.kv_heads,
                    l == batch_idx * self.kv_heads + head_idx,
            ;
            lemma_slot_in_range(*self, l, seq_idx as int, 0);
            let m = self.max_seq_len as int;
            let h = self.head_dim as int;
            let n = lanes(*self);
            assert(l <= l * m && l * m + seq_idx <= (l * m + seq_idx) * h) by (nonlinear_arith)
                requires
                    0 <= l,
                    m >= 1,
                    h >= 1,
                    0 <= seq_idx,
            ;
        }
        ((batch_idx * self.kv_heads + head_idx) * self.max_seq_len + seq_idx) * self.head_dim
    }
}

/// Writes `data` into `buf` from `offset` on.
pub fn write_at<T: Copy>(buf: &mut [T], offset: usize, data: &[T])
    requires
        offset + data@.len() <= old(buf)@.len(),
    ensures
        final(buf)@.len() == old(buf)@.len(),
        forall|i: int|
            0 <= i < old(buf)@.len() ==> #[trigger] final(buf)@[i] == if offset <= i < offset
                + data@.len() {
                data@[i - offset]
            } else {
                old(buf)@[i]
            },
{
    let n: usize = data.len();
    let len: usize = buf.len();
    let ghost before = buf@;
    let mut j: usize = 0;
    while j < n
        invariant
            n == data@.len(),
            len == before.len(),
            j <= n,
            offset + n <= len,
            buf@.len() == len,
            forall|i: int|
                0 <= i < len ==> #[trigger] buf@[i] == if offset <= i < offset + j {
                    data@[i - offset]
                } else {
                    before[i]
                },
        decreases n - j,
    {
        buf[offset + j] = data[j];
        j = j + 1;
    }
}

/// `after` is `before` with `data` written at position `s` of `count` lanes
/// from `first` on: one vector per lane, and nothing else changed.
pub open spec fn lanes_written<T>(
    layout: KvLayout,
    before: Seq<T>,
    after: Seq<T>,
    first: int,
    count: int,
    s: int,
    data: Seq<T>,
) -> bool {
    &&& after.len() == before.len()
    &&& forall|l: int, t: int, d: int|
        valid_slot(layout, l, t, d) ==> after[#[trigger] slot(layout, l, t, d)] == if t == s
            && first <= l < first + count {
            data[(l - first) * layout.head_dim + d]
        } else {
            before[slot(layout, l, t, d)]
        }
}

/// Writes one vector per lane at position `s` of `count` lanes from `first` on.
pub fn write_lanes<T: Copy>(
    layout: &KvLayout,
    buf: &mut [T],
    first: usize,
    count: usize,
    s: usize,
    data: &[T],
)
    requires
        old(buf)@.len() == elements(*layout),
        first + count <= lanes(*layout),
        s < layout.max_seq_len,
        data@.len() == count * layout.head_dim,
    ensures
        lanes_written(
            *layout,
            old(buf)@,
            final(buf)@,
            first as int,
            count as int,
            s as int,
            data@,
        ),
{
    let total: usize = buf.len();
    let have: usize = data.len();
    let hd: usize = layout.head_dim;
    if hd == 0 {
        return;
    }
    let ghost before = buf@;
    let mut k: usize = 0;
    let mut src: usize = 0;
    while k < count
        invariant
            total == elements(*layout),
            have == data@.len(),
            hd == layout.head_dim,
            hd > 0,
            before.len() == total,
            first + count <= lanes(*layout),
            s < layout.max_seq_len,
            data@.len() == count * hd,
            k <= count,
            src == k * hd,
            lanes_written(*layout, before, buf@, first as int, k as int, s as int, data@),
        decreases count - k,
    {
        let ghost mid = buf@;
        let ghost l0 = first + k;
        proof {
            lemma_slot_in_range(*layout, l0, s as int, 0);
            assert((k + 1) * hd == k * hd + hd && (k + 1) * hd <= count * hd) by (nonlinear_arith)
                requires
                    k + 1 <= count,
                    hd >= 0,
            ;
            let m = layout.max_seq_len as int;
            assert(l0 <= l0 * m && l0 * m + s <= (l0 * m + s) * hd) by (nonlinear_arith)
                requires
                    0 <= l0,
                    m >= 1,
                    hd >= 1,
                    0 <= s,
            ;
        }
        let dst: usize = ((first + k) * layout.max_seq_len + s) * hd;
        write_at(buf, dst, vstd::slice::slice_subrange(data, src, src + hd));
        proof {
            assert forall|l: int, t: int, d: int| valid_slot(*layout, l, t, d) implies buf@[
            #[trigger] slot(*layout, l, t, d)] == if t == s && first <= l < first + (k + 1) {
                data@[(l - first) * layout.head_dim + d]
            } else {
                before[slot(*layout, l, t, d)]
            } by {
                let i = slot(*layout, l, t, d);
                lemma_slot_in_range(*layout, l, t, d);
                if dst <= i < dst + hd {
                    let e = i - dst;
                    assert(slot(*layout, l0, s as int, e) == i);
                    lemma_slots_are_distinct(*layout, l, t, d, l0, s as int, e);
                    assert(buf@[i] == data@[src + e]);
                } else {
                    assert(!(l == l0 && t == s)) by {
                        if l == l0 && t == s {
                            assert(slot(*layout, l0, s as int, d) == dst + d);
                        }
                    }
                    assert(buf@[i] == mid[i]);
                }
            }
        }
        src = src + hd;
        k = k + 1;
    }
}

/// Reading back: after a write the written lanes hold the new vector at that
/// position, and every other position of every lane is as before.
pub proof fn lemma_read_after_write<T>(
    layout: KvLayout,
    before: Seq<T>,
    after: Seq<T>,
    first: int,
    count: int,
    s: int,
    data: Seq<T>,
    l: int,
    t: int,
)
    requires
        lanes_written(layout, before, after, first, count, s, data),
        before.len() == elements(layout),
        data.len() == count * layout.head_dim,
        0 <= first,
        0 <= l < lanes(layout),
        0 <= t < layout.max_seq_len,
    ensures
        after.len() == before.len(),
        vector_at(layout, after, l, t) == if t == s && first <= l < first + count {
            data.subrange(
                (l - first) * layout.head_dim,
                (l - first) * layout.head_dim + layout.head_dim,
            )
        } else {
            vector_at(layout, before, l, t)
        },
{
    let hd = layout.head_dim as int;
    let a = vector_at(layout, after, l, t);
    if t == s && first <= l < first + count {
        let k = l - first;
        assert(0 <= k * hd && k * hd + hd <= count * hd) by (nonlinear_arith)
            requires
                0 <= k < count,
                hd >= 0,
        ;
        let b = data.subrange(k * hd, k * hd + hd);
        assert forall|d: int| 0 <= d < hd implies a[d] == b[d] by {
            assert(valid_slot(layout, l, t, d));
            assert(after[slot(layout, l, t, d)] == data[k * hd + d]);
        }
        assert(a =~= b);
    } else {
        let b = vector_at(layout, before, l, t);
        assert forall|d: int| 0 <= d < hd implies a[d] == b[d] by {
            assert(valid_slot(layout, l, t, d));
        }
        assert(a =~= b);
    }
}

/// The vector at position `t` of lane `l`.
pub open spec fn vector_at<T>(layout: KvLayout, buf: Seq<T>, l: int, t: int) -> Seq<T> {
    Seq::new(layout.head_dim as nat, |d: int| buf[slot(layout, l, t, d)])
}

/// The lane that a layer's key/value head uses in a cache that holds all
/// layers one after the other.
pub fn layer_lane(layer_idx: usize, kv_heads: usize, head: usize) -> (r: usize)
    requires
        head < kv_heads,
        layer_idx * kv_heads + head <= usize::MAX,
    ensures
        r == layer_idx * kv_heads + head,
{
    proof {
        assert(0 <= layer_idx * kv_heads) by (nonlinear_arith)
            requires
                layer_idx >= 0,
                kv_heads >= 0,
        ;
    }
    layer_idx * kv_heads + head
}

/// Different heads of different layers never share a lane.
pub proof fn lemma_layer_lanes_are_distinct(
    kv_heads: int,
    layer1: int,
    head1: int,
    layer2: int,
    head2: int,
)
    requires
        0 <= head1 < kv_heads,
        0 <= head2 < kv_heads,
        layer1 * kv_heads + head1 == layer2 * kv_heads + head2,
    ensures
        layer1 == layer2 && head1 == head2,
{
    vstd::arithmetic::div_mod::lemma_fundamental_div_mod_converse(
        layer1 * kv_heads + head1,
        kv_heads,
        layer1,
        head1,
    );
    vstd::arithmetic::div_mod::lemma_fundamental_div_mod_converse(
        layer2 * kv_heads + head2,
        kv_heads,
        layer2,
        head2,
    );
}

/// Cache of keys and values in two flat buffers.
#[derive(Debug, Clone)]
pub struct UsmKvCache<T> {
    pub key: Vec<T>,
    pub value: Vec<T>,
    pub layout: KvLayout,
    pub current_len: usize,
}

impl<T> UsmKvCache<T> {
    pub open spec fn wf(self) -> bool {
        &&& self.key@.len() == elements(self.layout)
        &&& self.value@.len() == elements(self.layout)
        &&& self.current_len <= self.layout.max_seq_len
    }
}

impl<T: Copy> UsmKvCache<T> {
    /// Buffers filled with `fill`.
    pub fn new(
        batch: usize,
        kv_heads: usize,
        max_seq_len: usize,
        head_dim: usize,
        fill: T,
    ) -> (r: Result<Self, AllocError>)
        requires
            batch * kv_heads <= usize::MAX,
            batch * kv_heads * max_seq_len <= usize::MAX,
            batch * kv_heads * max_seq_len * head_dim <= usize::MAX,
        ensures
            match r {
                Ok(c) => {
                    &&& c.wf()
                    &&& c.layout == (KvLayout { batch, kv_heads, max_seq_len, head_dim })
                    &&& c.current_len == 0
                    &&& c.key@ == Seq::new(elements(c.layout) as nat, |i: int| fill)
                    &&& c.value@ == Seq::new(elements(c.layout) as nat, |i: int| fill)
                    &&& elements(c.layout) > 0
                },
                Err(e) => e == AllocError::ZeroBytes && batch * kv_heads * max_seq_len * head_dim
                    == 0,
            },
    {
        proof {
            lemma_products_nonnegative(
                batch as int,
                kv_heads as int,
                max_seq_len as int,
                head_dim as int,
            );
        }
        let layout = KvLayout { batch, kv_heads, max_seq_len, head_dim };
        let total: usize = batch * kv_heads * max_seq_len * head_dim;
        if total == 0 {
            return Err(AllocError::ZeroBytes);
        }
        Ok(
            UsmKvCache {
                key: filled_buffer(total, fill),
                value: filled_buffer(total, fill),
                layout,
                current_len: 0,
            },
        )
    }

    /// Appends one key and one value vector per lane at the current position.
    pub fn append_kv(&mut self, key_data: &[T], value_data: &[T])
        requires
            old(self).wf(),
            old(self).current_len < old(self).layout.max_seq_len,
            key_data@.len() == lanes(old(self).layout) * old(self).layout.head_dim,
            value_data@.len() == lanes(old(self).layout) * old(self).layout.head_dim,
            lanes(old(self).layout) <= usize::MAX,
        ensures
            final(self).wf(),
            final(self).layout == old(self).layout,
            final(self).current_len == old(self).current_len + 1,
            lanes_written(
                old(self).layout,
                old(self).key@,
                final(self).key@,
                0,
                lanes(old(self).layout),
                old(self).current_len as int,
                key_data@,
            ),
            lanes_written(
                old(self).layout,
                old(self).value@,
                final(self).value@,
                0,
                lanes(old(self).layout),
                old(self).current_len as int,
                value_data@,
            ),
    {
        proof {
            assert(0 <= self.layout.batch * self.layout.kv_heads) by (nonlinear_arith)
                requires
                    self.layout.batch >= 0,
                    self.layout.kv_heads >= 0,
            ;
        }
        let layout = self.layout;
        let n: usize = layout.batch * layout.kv_heads;
        write_lanes(&layout, self.key.as_mut_slice(), 0, n, self.current_len, key_data);
        write_lanes(&layout, self.value.as_mut_slice(), 0, n, self.current_len, value_data);
        self.current_len = self.current_len + 1;
    }

    /// Moves on to the next position, once every layer has written this one.
    pub fn advance(&mut self)
        requires
            old(self).current_len < old(self).layout.max_seq_len,
        ensures
            *final(self) == (UsmKvCache {
                current_len: (old(self).current_len + 1) as usize,
                ..*old(self)
            }),
    {
        self.current_len = self.current_len + 1;
    }

    /// The vector at position `s` of lane `l` of a buffer of this layout.
    fn read_vector(&self, buf: &Vec<T>, l: usize, s: usize) -> (r: Vec<T>)
        requires
            buf@.len() == elements(self.layout),
            l < lanes(self.layout),
            s < self.layout.max_seq_len,
        ensures
            r@ == vector_at(self.layout, buf@, l as int, s as int),
    {
        let hd: usize = self.layout.head_dim;
        if hd == 0 {
            let r: Vec<T> = Vec::new();
            assert(r@ =~= vector_at(self.layout, buf@, l as int, s as int));
            return r;
        }
        let total: usize = buf.len();
        proof {
            lemma_slot_in_range(self.layout, l as int, s as int, 0);
            let m = self.layout.max_seq_len as int;
            assert(l <= l * m && l * m + s <= (l * m + s) * hd) by (nonlinear_arith)
                requires
                    0 <= l,
                    m >= 1,
                    hd >= 1,
                    0 <= s,
            ;
        }
        let from: usize = (l * self.layout.max_seq_len + s) * hd;
        let r = crate::audio::chunks::copy_range(buf.as_slice(), from, from + hd);
        assert(r@ =~= vector_at(self.layout, buf@, l as int, s as int));
        r
    }

    /// The vectors at the first `n` positions of lane `l` of a buffer of this
    /// layout.
    pub fn read_lane(&self, buf: &Vec<T>, l: usize, n: usize) -> (r: Vec<Vec<T>>)
        requires
            buf@.len() == elements(self.layout),
            l < lanes(self.layout),
            n <= self.layout.max_seq_len,
        ensures
            r@.len() == n,
            forall|s: int|
                0 <= s < n ==> (#[trigger] r@[s])@ == vector_at(self.layout, buf@, l as int, s),
    {
        let mut out: Vec<Vec<T>> = Vec::new();
        let mut s: usize = 0;
        while s < n
            invariant
                buf@.len() == elements(self.layout),
                l < lanes(self.layout),
                n <= self.layout.max_seq_len,
                s <= n,
                out@.len() == s,
                forall|k: int|
                    0 <= k < s ==> (#[trigger] out@[k])@ == vector_at(
                        self.layout,
                        buf@,
                        l as int,
                        k,
                    ),
            decreases n - s,
        {
            out.push(self.read_vector(buf, l, s));
            s = s + 1;
        }
        out
    }

    /// Starts a new sequence.
    pub fn reset(&mut self)
        ensures
            *final(self) == (UsmKvCache { current_len: 0, ..*old(self) }),
    {
        self.current_len = 0;
    }
}

proof fn lemma_products_nonnegative(a: int, b: int, c: int, d: int)
    requires
        a >= 0,
        b >= 0,
        c >= 0,
        d >= 0,
    ensures
        a * b >= 0,
        a * b * c >= 0,
        a * b * c * d >= 0,
{
    assert(a * b >= 0) by (nonlinear_arith)
        requires
            a >= 0,
            b >= 0,
    ;
    assert(a * b * c >= 0) by (nonlinear_arith)
        requires
            a * b >= 0,
            c >= 0,
    ;
    assert(a * b * c * d >= 0) by (nonlinear_arith)
        requires
            a * b * c >= 0,
            d >= 0,
    ;
}

fn filled_buffer<T: Copy>(n: usize, fill: T) -> (r: Vec<T>)
    ensures
        r@ == Seq::new(n as nat, |i: int| fill),
{
    let mut out: Vec<T> = Vec::with_capacity(n);
    let mut i: usize = 0;
    while i < n
        invariant
            i <= n,
            out@ == Seq::new(i as nat, |j: int| fill),
        decreases n - i,
    {
        out.push(fill);
        i = i + 1;
        assert(out@ =~= Seq::new(i as nat, |j: int| fill));
    }
    out
}

/// Allocates shared memory for a device, by handles.
#[derive(Debug, PartialEq, Eq, Structural)]
pub struct UsmAllocator {
    pub context: usize,
    pub device: usize,
}

impl UsmAllocator {
    /// An allocator for the device of a context.
    pub fn new(ctx: &L0Context) -> (r: Self)
        ensures
            r.context == ctx.context,
            r.device == ctx.device.handle,
    {
        UsmAllocator { context: ctx.context, device: ctx.device.handle }
    }
}

/// Why memory could not be allocated.
#[derive(Debug, Clone, Copy, PartialEq, Eq, Structural)]
pub enum AllocError {
    /// Nothing was asked for.
    ZeroBytes,
}

/// Least alignment of shared memory: one cache line.
pub const MIN_ALIGNMENT: usize = 64;

/// Size in bytes and alignment of an allocation of `count` elements.
pub fn alloc_request(count: usize, elem_size: usize, elem_align: usize) -> (r: Result<
    (usize, usize),
    AllocError,
>)
    requires
        count * elem_size <= usize::MAX,
    ensures
        match r {
            Ok((size, align)) => {
                &&& size == count * elem_size
                &&& size > 0
                &&& align == if elem_align > MIN_ALIGNMENT {
                    elem_align
                } else {
                    MIN_ALIGNMENT
                }
                &&& align >= 64 && align >= elem_align
                &&& align == 64 || align == elem_align
            },
            Err(e) => e == AllocError::ZeroBytes && count * elem_size == 0,
        },
{
    proof {
        assert(0 <= count * elem_size) by (nonlinear_arith)
            requires
                count >= 0,
                elem_size >= 0,
        ;
    }
    let size: usize = count * elem_size;
    if size == 0 {
        return Err(AllocError::ZeroBytes);
    }
    let align: usize = if elem_align > MIN_ALIGNMENT {
        elem_align
    } else {
        MIN_ALIGNMENT
    };
    Ok((size, align))
}

} // verus!

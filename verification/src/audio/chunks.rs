//! Cutting a stream of samples into chunks of one size.

use vstd::prelude::*;

verus! {

/// All chunks put together again.
pub open spec fn joined<T>(chunks: Seq<Seq<T>>) -> Seq<T>
    decreases chunks.len(),
{
    if chunks.len() == 0 {
        Seq::empty()
    } else {
        joined(chunks.drop_last()) + chunks.last()
    }
}

/// The chunks of a signal: slice `k` starts at `k * size` and holds `size`
/// elements, the last one what is left.
pub open spec fn chunk_of<T>(s: Seq<T>, size: int, k: int) -> Seq<T> {
    s.subrange(
        k * size,
        if (k + 1) * size <= s.len() {
            (k + 1) * size
        } else {
            s.len() as int
        },
    )
}

/// How many chunks of `size` a signal of `len` elements has, the last one
/// possibly shorter.
pub open spec fn chunk_count(len: int, size: int) -> int {
    (len + size - 1) / size
}

/// The views of a list of vectors.
pub open spec fn views<T>(v: Seq<Vec<T>>) -> Seq<Seq<T>> {
    v.map_values(|c: Vec<T>| c@)
}

/// A copy of `s[from..to]`.
pub fn copy_range<T: Copy>(s: &[T], from: usize, to: usize) -> (r: Vec<T>)
    requires
        from <= to <= s@.len(),
    ensures
        r@ == s@.subrange(from as int, to as int),
{
    let mut out: Vec<T> = Vec::with_capacity(to - from);
    let mut i: usize = from;
    while i < to
        invariant
            from <= i <= to <= s@.len(),
            out@ == s@.subrange(from as int, i as int),
        decreases to - i,
    {
        out.push(s[i]);
        i = i + 1;
        assert(s@.subrange(from as int, i as int) =~= s@.subrange(from as int, i - 1).push(
            s@[i - 1],
        ));
    }
    out
}

/// Appends the elements of `s` to `v`.
pub fn append_all<T: Copy>(v: &mut Vec<T>, s: &[T])
    ensures
        final(v)@ == old(v)@ + s@,
{
    let mut i: usize = 0;
    let ghost start = v@;
    assert(start + s@.subrange(0, 0) =~= start);
    while i < s.len()
        invariant
            i <= s@.len(),
            v@ == start + s@.subrange(0, i as int),
        decreases s@.len() - i,
    {
        v.push(s[i]);
        i = i + 1;
        assert(start + s@.subrange(0, i as int) =~= (start + s@.subrange(0, i - 1)).push(
            s@[i - 1],
        ));
    }
    assert(s@.subrange(0, i as int) =~= s@);
}

/// Cuts a signal into chunks of `size`; the last one may be shorter.
pub fn split_chunks<T: Copy>(s: &[T], size: usize) -> (r: Vec<Vec<T>>)
    requires
        size > 0,
    ensures
        r@.len() == chunk_count(s@.len() as int, size as int),
        forall|k: int|
            0 <= k < r@.len() ==> (#[trigger] r@[k])@ == chunk_of(s@, size as int, k),
        joined(views(r@)) == s@,
{
    let mut out: Vec<Vec<T>> = Vec::new();
    let n: usize = s.len();
    let mut i: usize = 0;
    proof {
        assert(views(out@) =~= Seq::<Seq<T>>::empty());
        assert(s@.subrange(0, 0) =~= Seq::<T>::empty());
        assert(0 * size == 0) by (nonlinear_arith);
    }
    while i < n
        invariant
            n == s@.len(),
            size > 0,
            i <= n,
            i == if out@.len() * size <= n {
                out@.len() * size
            } else {
                n as int
            },
            i < n || out@.len() == 0 || (out@.len() - 1) * size < n,
            forall|k: int|
                0 <= k < out@.len() ==> (#[trigger] out@[k])@ == chunk_of(s@, size as int, k),
            joined(views(out@)) == s@.subrange(0, i as int),
        decreases n - i,
    {
        let to: usize = if size <= n - i {
            i + size
        } else {
            n
        };
        let ghost k = out@.len() as int;
        let ghost before = out@;
        proof {
            assert((k + 1) * size == k * size + size) by (nonlinear_arith);
        }
        let piece = copy_range(s, i, to);
        out.push(piece);
        proof {
            assert(views(out@) =~= views(before).push(piece@));
            assert(views(out@).drop_last() =~= views(before));
            assert(s@.subrange(0, i as int) + piece@ =~= s@.subrange(0, to as int));
        }
        i = to;
    }
    proof {
        let k = out@.len() as int;
        assert(s@.subrange(0, n as int) =~= s@);
        if n == 0 {
            assert(k * size <= 0 ==> k == 0 || size == 0) by (nonlinear_arith)
                requires
                    k >= 0,
                    size > 0,
            ;
            if k > 0 {
                assert((k - 1) * size >= 0) by (nonlinear_arith)
                    requires
                        k >= 1,
                        size > 0,
                ;
            }
            assert((0 + size - 1) / (size as int) == 0) by (nonlinear_arith)
                requires
                    size > 0,
            ;
        } else {
            assert(k * size >= n);
            assert((n + size - 1) / (size as int) == k) by (nonlinear_arith)
                requires
                    size > 0,
                    k * size >= n,
                    (k - 1) * size < n,
            ;
        }
    }
    out
}

/// The part of `n` values that bucket `i` of `width` takes.
pub open spec fn bucket(i: int, n: int, width: int) -> (int, int) {
    (i * n / width, (i + 1) * n / width)
}

/// Buckets lie inside the values, and none ends before it starts.
proof fn lemma_bucket_bounds(i: int, n: int, width: int)
    requires
        0 <= i < width,
        0 <= n,
    ensures
        0 <= bucket(i, n, width).0 <= bucket(i, n, width).1 <= n,
{
    assert(0 <= i * n && (i + 1) * n == i * n + n) by (nonlinear_arith)
        requires
            i >= 0,
            n >= 0,
    ;
    vstd::arithmetic::div_mod::lemma_div_is_ordered(i * n, (i + 1) * n, width);
    assert(0 <= i * n / width && (i + 1) * n / width <= n) by (nonlinear_arith)
        requires
            0 <= i < width,
            n >= 0,
            0 <= i * n,
            (i + 1) * n == i * n + n,
    ;
}

/// The part of `n` values that bucket `i` of `width` takes.
pub fn bucket_span(i: usize, n: usize, width: usize) -> (r: (usize, usize))
    requires
        i < width,
    ensures
        r.0 == bucket(i as int, n as int, width as int).0,
        r.1 == bucket(i as int, n as int, width as int).1,
        r.0 <= r.1 <= n,
{
    proof {
        lemma_bucket_bounds(i as int, n as int, width as int);
        assert(0 <= i * n && i * n <= (i + 1) * n && (i + 1) * n <= 0xffff_ffff_ffff_ffff
            * 0xffff_ffff_ffff_ffff) by (nonlinear_arith)
            requires
                0 <= i < 0xffff_ffff_ffff_ffff,
                0 <= n <= 0xffff_ffff_ffff_ffff,
        ;
    }
    let from: u128 = i as u128 * n as u128 / width as u128;
    let to: u128 = (i as u128 + 1) * n as u128 / width as u128;
    (from as usize, to as usize)
}

/// The buckets divide the values: the first starts at 0, each starts where the
/// one before ends, and the last ends with the values.
pub proof fn lemma_buckets_partition(i: int, n: int, width: int)
    requires
        0 <= i < width,
        n >= 0,
    ensures
        bucket(0, n, width).0 == 0,
        bucket(i, n, width).1 == bucket(i + 1, n, width).0,
        bucket(width - 1, n, width).1 == n,
{
    assert(0 * n == 0) by (nonlinear_arith);
    assert(0int / width == 0) by (nonlinear_arith)
        requires
            width > 0,
    ;
    assert(width * n / width == n) by {
        assert(width * n == n * width) by (nonlinear_arith);
        vstd::arithmetic::div_mod::lemma_div_by_multiple(n, width);
    }
}

/// Number of whole chunks of `size` in `len` elements.
pub open spec fn whole_chunks(len: int, size: int) -> int {
    len / size
}

/// Whole chunk `k` of a signal.
pub open spec fn whole_chunk<T>(s: Seq<T>, size: int, k: int) -> Seq<T> {
    s.subrange(k * size, (k + 1) * size)
}

/// What is left of a signal after its whole chunks.
pub open spec fn after_chunks<T>(s: Seq<T>, size: int) -> Seq<T> {
    s.subrange(whole_chunks(s.len() as int, size) * size, s.len() as int)
}

/// `chunks` are the whole chunks of `s`, in order.
pub open spec fn are_whole_chunks<T>(chunks: Seq<Vec<T>>, s: Seq<T>, size: int) -> bool {
    &&& chunks.len() == whole_chunks(s.len() as int, size)
    &&& forall|k: int|
        0 <= k < chunks.len() ==> (#[trigger] chunks[k])@ == whole_chunk(s, size, k)
}

/// The whole chunks of a signal lie inside it, one after the other.
pub proof fn lemma_chunk_bounds(len: int, size: int, k: int)
    requires
        size > 0,
        0 <= k < whole_chunks(len, size),
        len >= 0,
    ensures
        0 <= k * size,
        (k + 1) * size == k * size + size,
        (k + 1) * size <= whole_chunks(len, size) * size <= len,
{
    assert(0 <= k * size && (k + 1) * size == k * size + size && (k + 1) * size <= (len / size)
        * size && (len / size) * size <= len) by (nonlinear_arith)
        requires
            size > 0,
            0 <= k < len / size,
            len >= 0,
    ;
}

/// Collects samples and gives them out in chunks of one size.
#[derive(Debug, Clone)]
pub struct Framer<T> {
    size: usize,
    pending: Vec<T>,
}

impl<T> Framer<T> {
    pub closed spec fn size(self) -> nat {
        self.size as nat
    }

    /// Less than one chunk is kept back.
    pub open spec fn wf(self) -> bool {
        self@.len() < self.size()
    }
}

impl<T> View for Framer<T> {
    type V = Seq<T>;

    /// The samples kept back.
    closed spec fn view(&self) -> Seq<T> {
        self.pending@
    }
}

impl<T: Copy> Framer<T> {
    pub fn new(size: usize) -> (r: Self)
        requires
            size > 0,
        ensures
            r.wf(),
            r.size() == size,
            r@ == Seq::<T>::empty(),
    {
        Framer { size, pending: Vec::new() }
    }

    /// Adds samples and gives out every chunk that is now complete.
    pub fn push(&mut self, samples: &[T]) -> (r: Vec<Vec<T>>)
        requires
            old(self).wf(),
            old(self)@.len() + samples@.len() <= usize::MAX,
        ensures
            final(self).wf(),
            final(self).size() == old(self).size(),
            are_whole_chunks(r@, old(self)@ + samples@, old(self).size() as int),
            final(self)@ == after_chunks(old(self)@ + samples@, old(self).size() as int),
    {
        let size: usize = self.size;
        let mut all: Vec<T> = copy_range(self.pending.as_slice(), 0, self.pending.len());
        append_all(&mut all, samples);
        assert(all@ =~= self.pending@ + samples@);
        let n: usize = all.len();
        let count: usize = n / size;
        let mut out: Vec<Vec<T>> = Vec::new();
        let mut at: usize = 0;
        let mut k: usize = 0;
        assert(0 * size == 0) by (nonlinear_arith);
        while k < count
            invariant
                size > 0,
                n == all@.len(),
                count == whole_chunks(n as int, size as int),
                k <= count,
                k == out@.len(),
                at == k * size,
                forall|i: int|
                    0 <= i < out@.len() ==> (#[trigger] out@[i])@ == whole_chunk(
                        all@,
                        size as int,
                        i,
                    ),
            decreases count - k,
        {
            proof {
                lemma_chunk_bounds(n as int, size as int, k as int);
            }
            out.push(copy_range(all.as_slice(), at, at + size));
            at = at + size;
            k = k + 1;
        }
        proof {
            assert(0 <= n - (n / size) * size < size) by (nonlinear_arith)
                requires
                    size > 0,
                    n >= 0,
            ;
        }
        self.pending = copy_range(all.as_slice(), at, n);
        out
    }
}

/// Cutting a stream does not depend on how it arrives: after `a` then `b` the
/// same samples are kept back, and the same chunks were given out, as after
/// `a + b` at once.
pub proof fn lemma_framing_is_split_independent<T>(a: Seq<T>, b: Seq<T>, size: int)
    requires
        size > 0,
    ensures
        after_chunks(after_chunks(a, size) + b, size) == after_chunks(a + b, size),
        whole_chunks((a + b).len() as int, size) == whole_chunks(a.len() as int, size)
            + whole_chunks((after_chunks(a, size) + b).len() as int, size),
        forall|k: int|
            0 <= k < whole_chunks(a.len() as int, size) ==> #[trigger] whole_chunk(
                a + b,
                size,
                k,
            ) == whole_chunk(a, size, k),
        forall|k: int|
            whole_chunks(a.len() as int, size) <= k < whole_chunks((a + b).len() as int, size)
                ==> #[trigger] whole_chunk(a + b, size, k) == whole_chunk(
                after_chunks(a, size) + b,
                size,
                k - whole_chunks(a.len() as int, size),
            ),
{
    let la = a.len() as int;
    let lb = b.len() as int;
    let q = la / size;
    let rest = after_chunks(a, size) + b;
    assert(0 <= q * size <= la && la - q * size < size) by (nonlinear_arith)
        requires
            size > 0,
            la >= 0,
            q == la / size,
    ;
    let lr = la - q * size + lb;
    assert(rest.len() == lr);
    assert((la + lb) / size == q + lr / size) by {
        vstd::arithmetic::div_mod::lemma_hoist_over_denominator(lr, q, size as nat);
        assert(lr + q * size == la + lb);
    }
    let p = lr / size;
    assert(0 <= p * size <= lr) by (nonlinear_arith)
        requires
            size > 0,
            lr >= 0,
            p == lr / size,
    ;
    assert((q + p) * size == q * size + p * size) by (nonlinear_arith);
    assert(after_chunks(rest, size) =~= after_chunks(a + b, size));
    assert forall|k: int| 0 <= k < q implies #[trigger] whole_chunk(a + b, size, k) == whole_chunk(
        a,
        size,
        k,
    ) by {
        lemma_chunk_bounds(la, size, k);
        assert(whole_chunk(a + b, size, k) =~= whole_chunk(a, size, k));
    }
    assert forall|k: int| q <= k < q + p implies #[trigger] whole_chunk(a + b, size, k)
        == whole_chunk(rest, size, k - q) by {
        lemma_chunk_bounds(lr, size, k - q);
        assert(k * size == (k - q) * size + q * size && (k + 1) * size == (k - q + 1) * size + q
            * size) by (nonlinear_arith);
        assert(whole_chunk(a + b, size, k) =~= whole_chunk(rest, size, k - q));
    }
}

/// The buckets are even: each takes its share of the values, rounded down or
/// up.
pub proof fn lemma_buckets_are_even(i: int, n: int, width: int)
    requires
        0 <= i < width,
        n >= 0,
    ensures
        n / width <= bucket(i, n, width).1 - bucket(i, n, width).0 <= n / width + 1,
        n % width == 0 ==> bucket(i, n, width).1 - bucket(i, n, width).0 == n / width,
{
    let q = n / width;
    let r = n % width;
    vstd::arithmetic::div_mod::lemma_fundamental_div_mod(n, width);
    let a = i * n;
    let b = (i + 1) * n;
    let qa = a / width;
    let qb = b / width;
    vstd::arithmetic::div_mod::lemma_fundamental_div_mod(a, width);
    vstd::arithmetic::div_mod::lemma_fundamental_div_mod(b, width);
    let ra = a % width;
    let rb = b % width;
    assert(b == a + n) by (nonlinear_arith)
        requires
            a == i * n,
            b == (i + 1) * n,
    ;
    assert(width * (qb - qa - q) == ra + r - rb) by (nonlinear_arith)
        requires
            b == a + n,
            a == width * qa + ra,
            b == width * qb + rb,
            n == width * q + r,
    ;
    assert(-1 < qb - qa - q < 2) by (nonlinear_arith)
        requires
            width * (qb - qa - q) == ra + r - rb,
            0 <= ra < width,
            0 <= rb < width,
            0 <= r < width,
    ;
    if r == 0 {
        assert(qb - qa - q < 1) by (nonlinear_arith)
            requires
                width * (qb - qa - q) == ra - rb,
                0 <= ra < width,
                0 <= rb < width,
        ;
    }
}

/// Every chunk of a signal but the last has the full size, and the last is
/// neither empty nor longer.
pub proof fn lemma_chunk_sizes<T>(s: Seq<T>, size: int, k: int)
    requires
        size > 0,
        0 <= k < chunk_count(s.len() as int, size),
    ensures
        k + 1 < chunk_count(s.len() as int, size) ==> chunk_of(s, size, k).len() == size,
        0 < chunk_of(s, size, k).len() <= size,
        k > 0 ==> chunk_count(s.len() as int, size) > 1,
        s.len() <= size ==> chunk_count(s.len() as int, size) == 1,
{
    let n = s.len() as int;
    let c = chunk_count(n, size);
    vstd::arithmetic::div_mod::lemma_fundamental_div_mod(n + size - 1, size);
    let r = (n + size - 1) % size;
    assert(k * size < n && 0 <= k * size && (k + 1) * size == k * size + size) by (nonlinear_arith)
        requires
            n + size - 1 == size * c + r,
            0 <= r < size,
            0 <= k < c,
    ;
    if k + 1 < c {
        assert((k + 1) * size < n) by (nonlinear_arith)
            requires
                n + size - 1 == size * c + r,
                0 <= r < size,
                0 <= k,
                k + 1 < c,
        ;
    }
    if n <= size {
        assert(c == 1) by (nonlinear_arith)
            requires
                n + size - 1 == size * c + r,
                0 <= r < size,
                0 < n <= size,
        ;
    }
}

/// The first `k` whole chunks of a signal.
pub open spec fn first_chunks<T>(s: Seq<T>, size: int, k: nat) -> Seq<Seq<T>> {
    Seq::new(k, |i: int| whole_chunk(s, size, i))
}

proof fn lemma_first_chunks_join<T>(s: Seq<T>, size: int, k: nat)
    requires
        size > 0,
        k <= whole_chunks(s.len() as int, size),
    ensures
        joined(first_chunks(s, size, k)) == s.subrange(0, k * size),
        0 <= k * size <= s.len(),
    decreases k,
{
    if k == 0 {
        assert(0 * size == 0) by (nonlinear_arith);
        assert(s.subrange(0, 0) =~= Seq::<T>::empty());
    } else {
        let j = (k - 1) as nat;
        lemma_chunk_bounds(s.len() as int, size, j as int);
        lemma_first_chunks_join(s, size, j);
        assert(first_chunks(s, size, k).drop_last() =~= first_chunks(s, size, j));
        assert(s.subrange(0, j * size) + whole_chunk(s, size, j as int) =~= s.subrange(
            0,
            k * size,
        ));
    }
}

/// Cutting loses nothing: the whole chunks one after the other, followed by
/// what is kept back, are the signal; every chunk has the full size and less
/// than one is kept back.
pub proof fn lemma_whole_chunks_and_rest<T>(s: Seq<T>, size: int)
    requires
        size > 0,
    ensures
        joined(first_chunks(s, size, whole_chunks(s.len() as int, size) as nat)) + after_chunks(
            s,
            size,
        ) == s,
        after_chunks(s, size).len() < size,
        forall|k: int|
            0 <= k < whole_chunks(s.len() as int, size) ==> (#[trigger] whole_chunk(
                s,
                size,
                k,
            )).len() == size,
{
    let n = s.len() as int;
    let c = whole_chunks(n, size);
    vstd::arithmetic::div_mod::lemma_fundamental_div_mod(n, size);
    assert(c >= 0 && 0 <= c * size <= n && n - c * size < size) by (nonlinear_arith)
        requires
            n == size * c + n % size,
            0 <= n % size < size,
            n >= 0,
            size > 0,
    ;
    lemma_first_chunks_join(s, size, c as nat);
    assert(s.subrange(0, c * size) + after_chunks(s, size) =~= s);
    assert forall|k: int| 0 <= k < c implies (#[trigger] whole_chunk(s, size, k)).len() == size by {
        lemma_chunk_bounds(n, size, k);
    }
}

/// What is given out as chunks loses nothing: the chunks one after the other,
/// followed by what is kept back, are the signal.
pub proof fn lemma_chunks_given_out_and_rest<T>(chunks: Seq<Vec<T>>, s: Seq<T>, size: int)
    requires
        size > 0,
        are_whole_chunks(chunks, s, size),
    ensures
        joined(views(chunks)) + after_chunks(s, size) == s,
        forall|k: int| 0 <= k < chunks.len() ==> (#[trigger] chunks[k])@.len() == size,
{
    lemma_whole_chunks_and_rest(s, size);
    assert forall|k: int| 0 <= k < chunks.len() implies (#[trigger] chunks[k])@.len() == size by {
        assert(whole_chunk(s, size, k).len() == size);
    }
    assert(views(chunks) =~= first_chunks(
        s,
        size,
        whole_chunks(s.len() as int, size) as nat,
    ));
}

} // verus!

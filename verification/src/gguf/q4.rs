//! Q4_0 blocks: 32 weights in 18 bytes, a half-precision scale followed by 32
//! four-bit levels. Byte `j` of the levels holds level `j` in its low half and
//! level `j + 16` in its high half.

use vstd::prelude::*;

verus! {

/// Weights per block.
pub const BLOCK_WEIGHTS: usize = 32;

/// Bytes per block.
pub const BLOCK_BYTES: usize = 18;

/// Level 8 stands for 0.
pub const ZERO_LEVEL: i8 = 8;

/// The scale of block `b`, as the bits of a half-precision number.
pub open spec fn scale_of(bytes: Seq<u8>, b: int) -> int {
    bytes[18 * b] + 256 * bytes[18 * b + 1]
}

/// Level `i` of block `b`, before it is centred.
pub open spec fn nibble_of(bytes: Seq<u8>, b: int, i: int) -> int {
    if i < 16 {
        (bytes[18 * b + 2 + i] % 16) as int
    } else {
        (bytes[18 * b + 2 + (i - 16)] / 16) as int
    }
}

/// A row of blocks taken apart: one scale per block, 32 centred levels per
/// block.
#[derive(Debug, Clone)]
pub struct Q4Row {
    pub scales: Vec<u16>,
    pub levels: Vec<i8>,
}

/// `row` holds the scales and levels of the blocks `bytes`.
pub open spec fn unpacks(bytes: Seq<u8>, row: Q4Row) -> bool {
    let blocks = bytes.len() as int / 18;
    &&& row.scales@.len() == blocks
    &&& row.levels@.len() == 32 * blocks
    &&& forall|b: int| 0 <= b < blocks ==> #[trigger] row.scales@[b] == scale_of(bytes, b)
    &&& forall|b: int, i: int|
        0 <= b < blocks && 0 <= i < 32 ==> row.levels@[#[trigger] weight_index(b, i)]
            == nibble_of(bytes, b, i) - 8
}

/// Weight `i` of block `b` in its row.
pub open spec fn weight_index(b: int, i: int) -> int {
    32 * b + i
}

/// Takes a row of blocks apart.
pub fn unpack_row(bytes: &[u8]) -> (r: Q4Row)
    requires
        bytes@.len() % 18 == 0,
        32 * (bytes@.len() / 18) <= usize::MAX,
    ensures
        unpacks(bytes@, r),
{
    let n: usize = bytes.len();
    let blocks: usize = n / BLOCK_BYTES;
    let mut scales: Vec<u16> = Vec::new();
    let mut levels: Vec<i8> = Vec::new();
    let mut b: usize = 0;
    while b < blocks
        invariant
            n == bytes@.len(),
            n == 18 * blocks,
            b <= blocks,
            scales@.len() == b,
            levels@.len() == 32 * b,
            forall|k: int| 0 <= k < b ==> #[trigger] scales@[k] == scale_of(bytes@, k),
            forall|k: int, i: int|
                0 <= k < b && 0 <= i < 32 ==> levels@[#[trigger] weight_index(k, i)]
                    == nibble_of(bytes@, k, i) - 8,
        decreases blocks - b,
    {
        let at: usize = b * BLOCK_BYTES;
        scales.push(bytes[at] as u16 + 256 * (bytes[at + 1] as u16));
        let ghost done = levels@;
        let mut i: usize = 0;
        while i < 32
            invariant
                n == bytes@.len(),
                n == 18 * blocks,
                b < blocks,
                at == 18 * b,
                i <= 32,
                done.len() == 32 * b,
                levels@.len() == 32 * b + i,
                forall|k: int| 0 <= k < done.len() ==> #[trigger] levels@[k] == done[k],
                forall|k: int|
                    0 <= k < i ==> levels@[#[trigger] weight_index(b as int, k)] == nibble_of(
                        bytes@,
                        b as int,
                        k,
                    ) - 8,
            decreases 32 - i,
        {
            let nibble: u8 = if i < 16 {
                bytes[at + 2 + i] % 16
            } else {
                bytes[at + 2 + (i - 16)] / 16
            };
            levels.push(nibble as i8 - ZERO_LEVEL);
            i = i + 1;
        }
        proof {
            assert forall|k: int, j: int| 0 <= k < b + 1 && 0 <= j < 32 implies levels@[
            #[trigger] weight_index(k, j)] == nibble_of(bytes@, k, j) - 8 by {
                if k < b {
                    assert(levels@[weight_index(k, j)] == done[weight_index(k, j)]);
                }
            }
        }
        b = b + 1;
    }
    Q4Row { scales, levels }
}

/// Puts scales and levels together into a row of blocks. Each level is between
/// 0 and 15.
pub fn pack_row(scales: &[u16], nibbles: &[u8]) -> (r: Vec<u8>)
    requires
        nibbles@.len() == 32 * scales@.len(),
        18 * scales@.len() <= usize::MAX,
        forall|i: int| 0 <= i < nibbles@.len() ==> #[trigger] nibbles@[i] < 16,
    ensures
        r@.len() == 18 * scales@.len(),
        forall|b: int| 0 <= b < scales@.len() ==> #[trigger] scales@[b] == scale_of(r@, b),
        forall|b: int, i: int|
            0 <= b < scales@.len() && 0 <= i < 32 ==> nibbles@[#[trigger] weight_index(b, i)]
                == nibble_of(r@, b, i),
{
    let blocks: usize = scales.len();
    let have: usize = nibbles.len();
    let mut out: Vec<u8> = Vec::new();
    let mut b: usize = 0;
    while b < blocks
        invariant
            blocks == scales@.len(),
            have == nibbles@.len(),
            have == 32 * blocks,
            18 * blocks <= usize::MAX,
            b <= blocks,
            out@.len() == 18 * b,
            forall|i: int| 0 <= i < nibbles@.len() ==> #[trigger] nibbles@[i] < 16,
            forall|k: int| 0 <= k < b ==> #[trigger] scales@[k] == scale_of(out@, k),
            forall|k: int, i: int|
                0 <= k < b && 0 <= i < 32 ==> nibbles@[#[trigger] weight_index(k, i)]
                    == nibble_of(out@, k, i),
        decreases blocks - b,
    {
        let ghost done = out@;
        let scale: u16 = scales[b];
        out.push((scale % 256) as u8);
        out.push((scale / 256) as u8);
        let mut j: usize = 0;
        while j < 16
            invariant
                have == nibbles@.len(),
                have == 32 * blocks,
                b < blocks,
                scale == scales@[b as int],
                blocks == scales@.len(),
                j <= 16,
                done.len() == 18 * b,
                out@.len() == 18 * b + 2 + j,
                forall|i: int| 0 <= i < nibbles@.len() ==> #[trigger] nibbles@[i] < 16,
                forall|k: int| 0 <= k < done.len() ==> #[trigger] out@[k] == done[k],
                out@[18 * b] == scale % 256,
                out@[18 * b + 1] == scale / 256,
                forall|k: int|
                    18 * b + 2 <= k < 18 * b + 2 + j ==> #[trigger] out@[k] == nibbles@[32 * b + (k
                        - 18 * b - 2)] + 16 * nibbles@[32 * b + 16 + (k - 18 * b - 2)],
            decreases 16 - j,
        {
            let lo: u8 = nibbles[b * BLOCK_WEIGHTS + j];
            let hi: u8 = nibbles[b * BLOCK_WEIGHTS + 16 + j];
            out.push(lo + 16 * hi);
            j = j + 1;
        }
        proof {
            assert forall|k: int| 0 <= k < b + 1 implies #[trigger] scales@[k] == scale_of(
                out@,
                k,
            ) by {
                if k < b {
                    assert(scales@[k] == scale_of(done, k));
                    assert(out@[18 * k] == done[18 * k]);
                    assert(out@[18 * k + 1] == done[18 * k + 1]);
                }
            }
            assert forall|k: int, i: int| 0 <= k < b + 1 && 0 <= i < 32 implies nibbles@[
            #[trigger] weight_index(k, i)] == nibble_of(out@, k, i) by {
                if k < b {
                    assert(nibbles@[weight_index(k, i)] == nibble_of(done, k, i));
                    let at = if i < 16 { 18 * k + 2 + i } else { 18 * k + 2 + (i - 16) };
                    assert(out@[at] == done[at]);
                } else {
                    let e = if i < 16 { i } else { i - 16 };
                    let at = 18 * b + 2 + e;
                    let lo = nibbles@[32 * b + e];
                    let hi = nibbles@[32 * b + 16 + e];
                    assert(out@[at] == lo + 16 * hi);
                    assert(lo < 16 && hi < 16);
                }
            }
        }
        b = b + 1;
    }
    out
}

/// Packing and taking apart again gives back every scale, and every level less
/// 8.
pub proof fn lemma_unpack_of_pack(scales: Seq<u16>, nibbles: Seq<u8>, bytes: Seq<u8>, row: Q4Row)
    requires
        nibbles.len() == 32 * scales.len(),
        bytes.len() == 18 * scales.len(),
        forall|b: int| 0 <= b < scales.len() ==> #[trigger] scales[b] == scale_of(bytes, b),
        forall|b: int, i: int|
            0 <= b < scales.len() && 0 <= i < 32 ==> nibbles[#[trigger] weight_index(b, i)]
                == nibble_of(bytes, b, i),
        unpacks(bytes, row),
    ensures
        row.scales@ == scales,
        row.levels@.len() == nibbles.len(),
        forall|i: int|
            0 <= i < nibbles.len() ==> #[trigger] row.levels@[i] == nibbles[i] - 8,
{
    assert(row.scales@ =~= scales);
    assert forall|i: int| 0 <= i < nibbles.len() implies #[trigger] row.levels@[i] == nibbles[i]
        - 8 by {
        let b = i / 32;
        let k = i % 32;
        assert(weight_index(b, k) == i);
        assert(row.levels@[weight_index(b, k)] == nibble_of(bytes, b, k) - 8);
        assert(nibbles[weight_index(b, k)] == nibble_of(bytes, b, k));
    }
}

/// The level nearest to a quantised weight.
pub open spec fn nearest_level(q: int) -> int {
    if q < 0 {
        0
    } else if q > 15 {
        15
    } else {
        q
    }
}

/// No level is nearer to a weight than its own, so that a level stays as it is
/// and order is kept.
pub proof fn lemma_nearest_level(q: int, level: int)
    requires
        0 <= level <= 15,
    ensures
        0 <= nearest_level(q) <= 15,
        nearest_level(level) == level,
        (if nearest_level(q) > q {
            nearest_level(q) - q
        } else {
            q - nearest_level(q)
        }) <= (if level > q {
            level - q
        } else {
            q - level
        }),
        q <= level ==> nearest_level(q) <= level,
        q >= level ==> nearest_level(q) >= level,
{
}

/// Keeps a quantised weight between 0 and 15.
pub fn to_nibble(q: i32) -> (r: u8)
    ensures
        r == nearest_level(q as int),
        r == if q < 0 {
            0
        } else if q > 15 {
            15
        } else {
            q as int
        },
{
    if q < 0 {
        0
    } else if q > 15 {
        15
    } else {
        q as u8
    }
}

/// Bytes of a row of `cols` weights.
pub open spec fn row_len(cols: int) -> int {
    (cols / 32) * 18
}

/// Bytes of a row of `cols` weights.
pub fn row_bytes(cols: usize) -> (r: usize)
    ensures
        r == row_len(cols as int),
{
    (cols / BLOCK_WEIGHTS) * BLOCK_BYTES
}

/// The bytes of row `row` of a matrix with `cols` columns.
pub fn matrix_row(bytes: &[u8], cols: usize, row: usize) -> (r: &[u8])
    requires
        (row + 1) * row_len(cols as int) <= bytes@.len(),
    ensures
        r@.len() == row_len(cols as int),
        r@ == bytes@.subrange(
            row * row_len(cols as int),
            row * row_len(cols as int) + row_len(cols as int),
        ),
{
    let n: usize = bytes.len();
    let w: usize = row_bytes(cols);
    proof {
        assert(0 <= row * w && row * w + w == (row + 1) * w) by (nonlinear_arith)
            requires
                row >= 0,
                w >= 0,
        ;
    }
    let from: usize = row * w;
    vstd::slice::slice_subrange(bytes, from, from + w)
}

/// The scales and levels of one row of an embedding matrix: the token's
/// embedding before it is scaled.
pub fn embedding_row(bytes: &[u8], hidden_dim: usize, token_id: u32) -> (r: Q4Row)
    requires
        (token_id + 1) * row_len(hidden_dim as int) <= bytes@.len(),
    ensures
        unpacks(
            bytes@.subrange(
                token_id * row_len(hidden_dim as int),
                token_id * row_len(hidden_dim as int) + row_len(hidden_dim as int),
            ),
            r,
        ),
{
    let row = matrix_row(bytes, hidden_dim, token_id as usize);
    unpack_row(row)
}

/// A block is eighteen bytes: the scale, its low byte first, and sixteen bytes
/// of levels, of which byte `j` is level `j` and, in its upper half, level
/// `j + 16`. So scale and levels make up the block, and nothing else does.
pub proof fn lemma_block_layout(bytes: Seq<u8>, b: int, j: int)
    requires
        0 <= b,
        18 * b + 18 <= bytes.len(),
        0 <= j < 16,
    ensures
        bytes[18 * b] == scale_of(bytes, b) % 256,
        bytes[18 * b + 1] == scale_of(bytes, b) / 256,
        bytes[18 * b + 2 + j] == nibble_of(bytes, b, j) + 16 * nibble_of(bytes, b, j + 16),
        0 <= nibble_of(bytes, b, j) < 16,
        0 <= nibble_of(bytes, b, j + 16) < 16,
        0 <= scale_of(bytes, b) < 65536,
{
}

/// The levels of a row run from -8 to 7, and a half byte of 8 is none at all;
/// the weights of a block stand together, block after block.
pub proof fn lemma_levels_are_centred(bytes: Seq<u8>, row: Q4Row, b: int, j: int)
    requires
        unpacks(bytes, row),
        0 <= b,
        18 * b + 18 <= bytes.len(),
        0 <= j < 16,
    ensures
        row.levels@[32 * b + j] == bytes[18 * b + 2 + j] % 16 - 8,
        row.levels@[32 * b + 16 + j] == bytes[18 * b + 2 + j] / 16 - 8,
        -8 <= row.levels@[32 * b + j] <= 7,
        -8 <= row.levels@[32 * b + 16 + j] <= 7,
        row.scales@[b] == bytes[18 * b] + 256 * bytes[18 * b + 1],
        18 * row.levels@.len() == 32 * (bytes.len() - bytes.len() % 18),
{
    assert(b < bytes.len() as int / 18);
    assert(weight_index(b, j) == 32 * b + j);
    assert(weight_index(b, j + 16) == 32 * b + 16 + j);
    assert(row.levels@[weight_index(b, j)] == nibble_of(bytes, b, j) - 8);
    assert(row.levels@[weight_index(b, j + 16)] == nibble_of(bytes, b, j + 16) - 8);
    assert(row.scales@[b] == scale_of(bytes, b));
}

/// A row of whole blocks has nine bytes for every sixteen weights.
pub proof fn lemma_row_length(cols: int)
    requires
        cols >= 0,
        cols % 32 == 0,
    ensures
        16 * row_len(cols) == 9 * cols,
        row_len(cols + 32) == row_len(cols) + 18,
{
}

} // verus!

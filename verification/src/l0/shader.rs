//! Plain shaders: the WGSL sources that are translated.
//!
//! A plain shader computes with scalars, vectors and storage arrays of them. It
//! has no structures, sized arrays, matrices, pointers, half-precision or
//! 64-bit numbers, and calls no built-in function but barriers. It is short, and
//! so are its statements, so that nothing nests deep. The test is one on the
//! words and signs of the source, comments included.

use crate::text::{chars_of, contains, contains_text, is_space, is_whitespace, occurs_at, stands_at};
use vstd::prelude::*;

verus! {

/// Words that a plain shader does not hold, each between spaces.
pub const REFUSED_WORDS: &'static str = " abs min max clamp saturate cos cosh sin sinh tan tanh acos acosh asin asinh atan atanh atan2 radians degrees ceil floor round fract trunc modf frexp ldexp exp exp2 log log2 pow dot dot4I8Packed dot4U8Packed cross distance length normalize faceForward reflect refract sign fma mix step smoothstep sqrt inverseSqrt transpose determinant quantizeToF16 countTrailingZeros countLeadingZeros countOneBits reverseBits extractBits insertBits firstTrailingBit firstLeadingBit select bitcast all any isNan isInf isFinite isNormal arrayLength workgroupUniformLoad dpdx dpdxCoarse dpdxFine dpdy dpdyCoarse dpdyFine fwidth fwidthCoarse fwidthFine getCommittedHitVertexPositions getCandidateHitVertexPositions num_subgroups discard vertex fragment task mesh struct alias enable requires diagnostic override const_assert ptr ref binding_array acceleration_structure external f16 f64 i64 u64 mat2x2 mat2x3 mat2x4 mat3x2 mat3x3 mat3x4 mat4x2 mat4x3 mat4x4 mat2x2f mat2x3f mat2x4f mat3x2f mat3x3f mat3x4f mat4x2f mat4x3f mat4x4f mat2x2h mat2x3h mat2x4h mat3x2h mat3x3h mat3x4h mat4x2h mat4x3h mat4x4h vec2h vec3h vec4h ";

/// Starts of words that a plain shader does not hold, each between spaces.
pub const REFUSED_STARTS: &'static str = " pack unpack texture sampler atomic subgroup quad ray Ray ";

/// Words that stand before an operand, each between spaces.
pub const OPERAND_FOLLOWS: &'static str = " if while switch return case default else loop continuing in ";

/// Most characters of a plain shader.
pub const SOURCE_LIMIT: usize = 16_384;

/// Most characters of a plain shader from one end of a statement to the next.
pub const STATEMENT_LIMIT: usize = 1_024;

/// A sign that ends a statement or a block.
pub open spec fn ends_statement(c: char) -> bool {
    c == ';' || c == '{' || c == '}'
}

/// How many characters stand before `i` since the last end of a statement.
pub open spec fn statement_len(s: Seq<char>, i: int) -> int
    decreases i,
{
    if i <= 0 || ends_statement(s[i - 1]) {
        0
    } else {
        statement_len(s, i - 1) + 1
    }
}

/// A character of a word.
pub open spec fn is_word_char(c: char) -> bool {
    ('a' <= c <= 'z') || ('A' <= c <= 'Z') || ('0' <= c <= '9') || c == '_'
}

/// The word stands in a list between spaces.
pub open spec fn listed(list: Seq<char>, word: Seq<char>) -> bool {
    contains_text(list, seq![' '] + word + seq![' '])
}

/// A whole word of the source stands from `i` to `j`.
pub open spec fn word_at(s: Seq<char>, i: int, j: int) -> bool {
    &&& 0 <= i < j <= s.len()
    &&& forall|k: int| i <= k < j ==> is_word_char(#[trigger] s[k])
    &&& i > 0 ==> !is_word_char(s[i - 1])
    &&& j < s.len() ==> !is_word_char(s[j])
}

/// A number without the suffix of a half-precision or 64-bit one.
pub open spec fn plain_number(word: Seq<char>) -> bool {
    word.len() > 0 && '0' <= word[0] <= '9' ==> forall|k: int|
        0 <= k < word.len() ==> #[trigger] word[k] != 'h' && word[k] != 'l'
}

/// No start of the word is refused.
pub open spec fn plain_start(word: Seq<char>) -> bool {
    forall|k: int| 0 < k <= word.len() ==> !listed(REFUSED_STARTS@, #[trigger] word.take(k))
}

/// What follows `array` at `at` makes it a storage array of scalars or vectors.
pub open spec fn plain_array(s: Seq<char>, at: int) -> bool {
    ||| occurs_at(s, "<f32>"@, at)
    ||| occurs_at(s, "<i32>"@, at)
    ||| occurs_at(s, "<u32>"@, at)
    ||| occurs_at(s, "<vec2<f32>>"@, at)
    ||| occurs_at(s, "<vec4<f32>>"@, at)
    ||| occurs_at(s, "<vec2<u32>>"@, at)
    ||| occurs_at(s, "<vec4<u32>>"@, at)
}

/// The word from `i` to `j` may stand in a plain shader.
pub open spec fn plain_word(s: Seq<char>, i: int, j: int) -> bool {
    let word = s.subrange(i, j);
    &&& !listed(REFUSED_WORDS@, word)
    &&& plain_start(word)
    &&& plain_number(word)
    &&& word == "array"@ ==> plain_array(s, j)
}

/// One past the last character before `i` that is not white space; 0 where
/// there is none.
pub open spec fn ink_end(s: Seq<char>, i: int) -> int
    decreases i,
{
    if i <= 0 {
        0
    } else if is_space(s[i - 1]) {
        ink_end(s, i - 1)
    } else {
        i
    }
}

/// Where the word that ends at `j` starts; `j` where none does.
pub open spec fn word_start(s: Seq<char>, j: int) -> int
    decreases j,
{
    if j > 0 && is_word_char(s[j - 1]) {
        word_start(s, j - 1)
    } else {
        j
    }
}

/// An operand ends before `i`: a closing bracket, or a word that no operand
/// follows.
pub open spec fn operand_before(s: Seq<char>, i: int) -> bool {
    let end = ink_end(s, i);
    let start = word_start(s, end);
    if end == 0 {
        false
    } else if start < end {
        !listed(OPERAND_FOLLOWS@, s.subrange(start, end))
    } else {
        s[end - 1] == ')' || s[end - 1] == ']'
    }
}

/// The sign `&` at `i` is one between two operands, or the second of two such;
/// it takes no address.
pub open spec fn plain_and(s: Seq<char>, i: int) -> bool {
    if i > 0 && s[i - 1] == '&' {
        i < 2 || s[i - 2] != '&'
    } else {
        operand_before(s, i)
    }
}

/// A plain shader.
pub open spec fn plain_shader(s: Seq<char>) -> bool {
    &&& s.len() <= SOURCE_LIMIT
    &&& forall|i: int| 0 <= i <= s.len() ==> #[trigger] statement_len(s, i) <= STATEMENT_LIMIT
    &&& forall|i: int| 0 <= i < s.len() ==> (#[trigger] s[i] as u32) < 128
    &&& forall|i: int| 0 <= i < s.len() && #[trigger] s[i] == '&' ==> plain_and(s, i)
    &&& forall|i: int, j: int| #[trigger] word_at(s, i, j) ==> plain_word(s, i, j)
}

fn word_char(c: char) -> (r: bool)
    ensures
        r == is_word_char(c),
{
    ('a' <= c && c <= 'z') || ('A' <= c && c <= 'Z') || ('0' <= c && c <= '9') || c == '_'
}

fn is_listed(list: &str, word: &[char]) -> (r: bool)
    ensures
        r == listed(list@, word@),
{
    let mut needle: Vec<char> = Vec::new();
    needle.push(' ');
    crate::audio::chunks::append_all(&mut needle, word);
    needle.push(' ');
    assert(needle@ =~= seq![' '] + word@ + seq![' ']);
    let hay = chars_of(list);
    contains(hay.as_slice(), needle.as_slice())
}

fn text_at(s: &[char], text: &str, at: usize) -> (r: bool)
    requires
        at <= s@.len(),
    ensures
        r == occurs_at(s@, text@, at as int),
{
    let needle = chars_of(text);
    stands_at(s, needle.as_slice(), at)
}

fn starts_plain(word: &[char]) -> (r: bool)
    ensures
        r == plain_start(word@),
{
    let mut k: usize = 1;
    while k <= word.len()
        invariant
            1 <= k <= word@.len() + 1,
            forall|m: int| 0 < m < k ==> !listed(REFUSED_STARTS@, #[trigger] word@.take(m)),
        decreases word@.len() + 1 - k,
    {
        let start = vstd::slice::slice_subrange(word, 0, k);
        assert(start@ =~= word@.take(k as int));
        if is_listed(REFUSED_STARTS, start) {
            return false;
        }
        if k == word.len() {
            return true;
        }
        k = k + 1;
    }
    true
}

fn number_is_plain(word: &[char]) -> (r: bool)
    ensures
        r == plain_number(word@),
{
    if word.len() == 0 || !('0' <= word[0] && word[0] <= '9') {
        return true;
    }
    let mut k: usize = 0;
    while k < word.len()
        invariant
            k <= word@.len(),
            word@.len() > 0 && '0' <= word@[0] <= '9',
            forall|m: int| 0 <= m < k ==> #[trigger] word@[m] != 'h' && word@[m] != 'l',
        decreases word@.len() - k,
    {
        if word[k] == 'h' || word[k] == 'l' {
            assert(word@[k as int] == 'h' || word@[k as int] == 'l');
            return false;
        }
        k = k + 1;
    }
    true
}

fn word_is_plain(s: &[char], i: usize, j: usize) -> (r: bool)
    requires
        i < j <= s@.len(),
    ensures
        r == plain_word(s@, i as int, j as int),
{
    let word = vstd::slice::slice_subrange(s, i, j);
    let array = chars_of("array");
    if is_listed(REFUSED_WORDS, word) || !starts_plain(word) || !number_is_plain(word) {
        return false;
    }
    assert(word@.subrange(0, word@.len() as int) =~= word@);
    if word.len() == array.len() && stands_at(word, array.as_slice(), 0) {
        text_at(s, "<f32>", j) || text_at(s, "<i32>", j) || text_at(s, "<u32>", j) || text_at(
            s,
            "<vec2<f32>>",
            j,
        ) || text_at(s, "<vec4<f32>>", j) || text_at(s, "<vec2<u32>>", j) || text_at(
            s,
            "<vec4<u32>>",
            j,
        )
    } else {
        true
    }
}

fn and_is_plain(s: &[char], i: usize) -> (r: bool)
    requires
        i < s@.len(),
    ensures
        r == plain_and(s@, i as int),
{
    if i > 0 && s[i - 1] == '&' {
        return i < 2 || s[i - 2] != '&';
    }
    let mut end: usize = i;
    while end > 0 && is_whitespace(s[end - 1])
        invariant
            end <= i < s@.len(),
            ink_end(s@, i as int) == ink_end(s@, end as int),
        ensures
            end <= i,
            ink_end(s@, i as int) == ink_end(s@, end as int),
            end > 0 ==> !is_space(s@[end - 1]),
        decreases end,
    {
        end = end - 1;
    }
    if end == 0 {
        return false;
    }
    let mut start: usize = end;
    while start > 0 && word_char(s[start - 1])
        invariant
            start <= end <= i < s@.len(),
            word_start(s@, end as int) == word_start(s@, start as int),
        ensures
            start <= end,
            word_start(s@, end as int) == word_start(s@, start as int),
            start > 0 ==> !is_word_char(s@[start - 1]),
        decreases start,
    {
        start = start - 1;
    }
    if start < end {
        !is_listed(OPERAND_FOLLOWS, vstd::slice::slice_subrange(s, start, end))
    } else {
        s[end - 1] == ')' || s[end - 1] == ']'
    }
}

/// Whether a source is a plain shader.
pub fn is_plain_shader(source: &str) -> (r: bool)
    ensures
        r == plain_shader(source@),
{
    let chars = chars_of(source);
    let s = chars.as_slice();
    let n: usize = s.len();
    if n > SOURCE_LIMIT {
        return false;
    }
    let mut run: usize = 0;
    let mut i: usize = 0;
    while i < n
        invariant
            n == s@.len(),
            i <= n,
            s@ == source@,
            run == statement_len(s@, i as int),
            run <= STATEMENT_LIMIT,
            forall|k: int| 0 <= k <= i ==> #[trigger] statement_len(s@, k) <= STATEMENT_LIMIT,
            forall|k: int| 0 <= k < i ==> (#[trigger] s@[k] as u32) < 128,
            forall|k: int| 0 <= k < i && #[trigger] s@[k] == '&' ==> plain_and(s@, k),
        decreases n - i,
    {
        if s[i] as u32 >= 128 || (s[i] == '&' && !and_is_plain(s, i)) {
            assert(!plain_shader(source@)) by {
                assert(s@[i as int] as u32 >= 128 || !plain_and(s@, i as int));
            }
            return false;
        }
        run = if s[i] == ';' || s[i] == '{' || s[i] == '}' {
            0
        } else {
            run + 1
        };
        i = i + 1;
        if run > STATEMENT_LIMIT {
            assert(statement_len(s@, i as int) > STATEMENT_LIMIT);
            return false;
        }
    }
    let mut from: usize = 0;
    while from < n
        invariant
            n == s@.len(),
            from <= n,
            s@ == source@,
            from > 0 && from < n ==> !is_word_char(s@[from - 1]) || !is_word_char(s@[from as int]),
            forall|a: int, b: int|
                a < from && #[trigger] word_at(s@, a, b) ==> plain_word(s@, a, b),
        decreases n - from,
    {
        if !word_char(s[from]) {
            assert forall|a: int, b: int|
                a < from + 1 && #[trigger] word_at(s@, a, b) implies plain_word(s@, a, b) by {
                if a == from {
                    assert(is_word_char(s@[a]));
                }
            }
            from = from + 1;
            continue;
        }
        let mut to: usize = from;
        while to < n && word_char(s[to])
            invariant
                n == s@.len(),
                from <= to <= n,
                forall|k: int| from <= k < to ==> is_word_char(#[trigger] s@[k]),
            ensures
                from <= to <= n,
                forall|k: int| from <= k < to ==> is_word_char(#[trigger] s@[k]),
                to < n ==> !is_word_char(s@[to as int]),
            decreases n - to,
        {
            to = to + 1;
        }
        assert(is_word_char(s@[from as int]));
        assert(from < to) by {
            if from == to {
                assert(!is_word_char(s@[to as int]));
            }
        }
        assert(word_at(s@, from as int, to as int));
        if !word_is_plain(s, from, to) {
            return false;
        }
        assert forall|a: int, b: int| a < to && #[trigger] word_at(s@, a, b) implies plain_word(
            s@,
            a,
            b,
        ) by {
            if a >= from {
                if a > from {
                    assert(is_word_char(s@[a - 1]));
                }
                if b < to {
                    assert(is_word_char(s@[b]));
                }
                if b > to {
                    assert(is_word_char(s@[to as int]));
                }
            }
        }
        from = to;
    }
    assert forall|a: int, b: int| #[trigger] word_at(s@, a, b) implies plain_word(s@, a, b) by {}
    true
}

/// A plain shader is short and plain to read: at most 16384 characters, all of
/// them ASCII, and never more than 1024 of them in a row without the end of a
/// statement or the bound of a block.
pub proof fn lemma_plain_shaders_are_short(s: Seq<char>, from: int)
    requires
        plain_shader(s),
    ensures
        s.len() <= 16_384,
        forall|i: int| 0 <= i < s.len() ==> (#[trigger] s[i] as u32) <= 0x7f,
        0 <= from && from + 1025 <= s.len() ==> exists|k: int|
            from <= k < from + 1025 && (#[trigger] s[k] == ';' || s[k] == '{' || s[k] == '}'),
{
    if 0 <= from && from + 1025 <= s.len() && !exists|k: int|
        from <= k < from + 1025 && (#[trigger] s[k] == ';' || s[k] == '{' || s[k] == '}') {
        lemma_statement_grows(s, from, from + 1025);
        assert(statement_len(s, from + 1025) <= STATEMENT_LIMIT);
    }
}

proof fn lemma_statement_grows(s: Seq<char>, from: int, to: int)
    requires
        0 <= from <= to <= s.len(),
        forall|k: int| from <= k < to ==> !ends_statement(#[trigger] s[k]),
    ensures
        statement_len(s, to) >= to - from,
    decreases to - from,
{
    if from < to {
        lemma_statement_grows(s, from, to - 1);
    } else {
        lemma_statement_is_natural(s, to);
    }
}

proof fn lemma_statement_is_natural(s: Seq<char>, i: int)
    ensures
        statement_len(s, i) >= 0,
    decreases i,
{
    if i > 0 && !ends_statement(s[i - 1]) {
        lemma_statement_is_natural(s, i - 1);
    }
}

} // verus!

//! Benchmarks: what is run in which order, and how inputs are read.

use crate::assistant::llm::{DoneReason, LlmEvent};
use crate::audio::chunks::joined;
use crate::text::{
    chars_of, decimal, is_space, is_whitespace, lemma_decimal_stands_for_its_number, number_of,
    occurs_at, stands_at, string_of, trim_start,
};
use vstd::prelude::*;
use vstd::utf8::{encode_utf8, is_char_boundary};

verus! {

// ---------------------------------------------------------------------------
// Memory use
// ---------------------------------------------------------------------------

/// The text up to the first line feed.
pub open spec fn first_line(s: Seq<char>) -> Seq<char>
    decreases s.len(),
{
    if s.len() == 0 || s[0] == '\n' {
        Seq::empty()
    } else {
        seq![s[0]] + first_line(s.subrange(1, s.len() as int))
    }
}

/// The first line that starts with `prefix`.
pub open spec fn find_line(s: Seq<char>, prefix: Seq<char>) -> Option<Seq<char>>
    decreases s.len(),
{
    let line = first_line(s);
    if occurs_at(line, prefix, 0) {
        Some(line)
    } else if line.len() < s.len() {
        find_line(s.subrange(line.len() as int + 1, s.len() as int), prefix)
    } else {
        None
    }
}

/// The text up to the first white space.
pub open spec fn first_word(s: Seq<char>) -> Seq<char>
    decreases s.len(),
{
    if s.len() == 0 || is_space(s[0]) {
        Seq::empty()
    } else {
        seq![s[0]] + first_word(s.subrange(1, s.len() as int))
    }
}

/// What follows the first word, white space in front of it left out.
pub open spec fn after_word(s: Seq<char>) -> Seq<char> {
    let t = trim_start(s);
    trim_start(t.subrange(first_word(t).len() as int, t.len() as int))
}

/// The value of a decimal digit.
pub open spec fn digit_value(c: char) -> int {
    c as u32 - '0' as u32
}

/// Only digits, and at least one.
pub open spec fn is_number(s: Seq<char>) -> bool {
    s.len() > 0 && forall|i: int| 0 <= i < s.len() ==> '0' <= #[trigger] s[i] <= '9'
}

/// The number that digits stand for.
pub open spec fn number_value(s: Seq<char>) -> int
    decreases s.len(),
{
    if s.len() == 0 {
        0
    } else {
        10 * number_value(s.drop_last()) + digit_value(s.last())
    }
}

/// Digits behind an optional plus sign.
pub open spec fn digits_of(s: Seq<char>) -> Seq<char> {
    if s.len() > 0 && s[0] == '+' {
        s.subrange(1, s.len() as int)
    } else {
        s
    }
}

/// The number that a word stands for, if it is one and fits.
pub open spec fn parsed_number(s: Seq<char>) -> Option<int> {
    if is_number(digits_of(s)) && number_value(digits_of(s)) <= u64::MAX {
        Some(number_value(digits_of(s)))
    } else {
        None
    }
}

/// The resident set size in a process status text: the second word of the
/// first line that starts with `VmRSS:`.
pub open spec fn rss_of(status: Seq<char>) -> Option<int> {
    match find_line(status, "VmRSS:"@) {
        Some(line) => parsed_number(first_word(after_word(line))),
        None => None,
    }
}

proof fn lemma_first_line(s: Seq<char>, n: int)
    requires
        0 <= n <= s.len(),
        forall|i: int| 0 <= i < n ==> #[trigger] s[i] != '\n',
        n < s.len() ==> s[n] == '\n',
    ensures
        first_line(s) == s.subrange(0, n),
    decreases n,
{
    if n == 0 {
        assert(s.subrange(0, 0) =~= Seq::<char>::empty());
    } else {
        let rest = s.subrange(1, s.len() as int);
        assert forall|i: int| 0 <= i < n - 1 implies #[trigger] rest[i] != '\n' by {
            assert(s[i + 1] != '\n');
        }
        lemma_first_line(rest, n - 1);
        assert(s.subrange(0, n) =~= seq![s[0]] + rest.subrange(0, n - 1));
    }
}

proof fn lemma_first_word(s: Seq<char>, n: int)
    requires
        0 <= n <= s.len(),
        forall|i: int| 0 <= i < n ==> !is_space(#[trigger] s[i]),
        n < s.len() ==> is_space(s[n]),
    ensures
        first_word(s) == s.subrange(0, n),
    decreases n,
{
    if n == 0 {
        assert(s.subrange(0, 0) =~= Seq::<char>::empty());
    } else {
        let rest = s.subrange(1, s.len() as int);
        assert forall|i: int| 0 <= i < n - 1 implies !is_space(#[trigger] rest[i]) by {
            assert(!is_space(s[i + 1]));
        }
        lemma_first_word(rest, n - 1);
        assert(s.subrange(0, n) =~= seq![s[0]] + rest.subrange(0, n - 1));
    }
}

proof fn lemma_trim_start_at(s: Seq<char>, n: int)
    requires
        0 <= n <= s.len(),
        forall|i: int| 0 <= i < n ==> is_space(#[trigger] s[i]),
        n < s.len() ==> !is_space(s[n]),
    ensures
        trim_start(s) == s.subrange(n, s.len() as int),
    decreases n,
{
    if n == 0 {
        assert(s.subrange(0, s.len() as int) =~= s);
    } else {
        let rest = s.subrange(1, s.len() as int);
        assert forall|i: int| 0 <= i < n - 1 implies is_space(#[trigger] rest[i]) by {
            assert(is_space(s[i + 1]));
        }
        lemma_trim_start_at(rest, n - 1);
        assert(rest.subrange(n - 1, rest.len() as int) =~= s.subrange(n, s.len() as int));
    }
}

/// Where the line that starts at `from` ends.
fn line_end(s: &[char], from: usize) -> (r: usize)
    requires
        from <= s@.len(),
    ensures
        from <= r <= s@.len(),
        first_line(s@.subrange(from as int, s@.len() as int)) == s@.subrange(
            from as int,
            r as int,
        ),
{
    let mut i: usize = from;
    while i < s.len() && s[i] != '\n'
        invariant
            from <= i <= s@.len(),
            forall|j: int| from <= j < i ==> #[trigger] s@[j] != '\n',
        ensures
            from <= i <= s@.len(),
            forall|j: int| from <= j < i ==> #[trigger] s@[j] != '\n',
            i < s@.len() ==> s@[i as int] == '\n',
        decreases s@.len() - i,
    {
        i = i + 1;
    }
    proof {
        let t = s@.subrange(from as int, s@.len() as int);
        assert forall|j: int| 0 <= j < i - from implies #[trigger] t[j] != '\n' by {
            assert(s@[from + j] != '\n');
        }
        lemma_first_line(t, i - from);
        assert(t.subrange(0, i - from) =~= s@.subrange(from as int, i as int));
    }
    i
}

/// Where the first word of `s[from..to]` ends.
fn word_end(s: &[char], from: usize, to: usize) -> (r: usize)
    requires
        from <= to <= s@.len(),
    ensures
        from <= r <= to,
        first_word(s@.subrange(from as int, to as int)) == s@.subrange(from as int, r as int),
{
    let mut i: usize = from;
    while i < to && !is_whitespace(s[i])
        invariant
            from <= i <= to <= s@.len(),
            forall|j: int| from <= j < i ==> !is_space(#[trigger] s@[j]),
        ensures
            from <= i <= to,
            forall|j: int| from <= j < i ==> !is_space(#[trigger] s@[j]),
            i < to ==> is_space(s@[i as int]),
        decreases to - i,
    {
        i = i + 1;
    }
    proof {
        let t = s@.subrange(from as int, to as int);
        assert forall|j: int| 0 <= j < i - from implies !is_space(#[trigger] t[j]) by {
            assert(!is_space(s@[from + j]));
        }
        lemma_first_word(t, i - from);
        assert(t.subrange(0, i - from) =~= s@.subrange(from as int, i as int));
    }
    i
}

/// Where the white space at the start of `s[from..to]` ends.
fn space_end(s: &[char], from: usize, to: usize) -> (r: usize)
    requires
        from <= to <= s@.len(),
    ensures
        from <= r <= to,
        trim_start(s@.subrange(from as int, to as int)) == s@.subrange(r as int, to as int),
{
    let mut i: usize = from;
    while i < to && is_whitespace(s[i])
        invariant
            from <= i <= to <= s@.len(),
            forall|j: int| from <= j < i ==> is_space(#[trigger] s@[j]),
        ensures
            from <= i <= to,
            forall|j: int| from <= j < i ==> is_space(#[trigger] s@[j]),
            i < to ==> !is_space(s@[i as int]),
        decreases to - i,
    {
        i = i + 1;
    }
    proof {
        let t = s@.subrange(from as int, to as int);
        assert forall|j: int| 0 <= j < i - from implies is_space(#[trigger] t[j]) by {
            assert(is_space(s@[from + j]));
        }
        lemma_trim_start_at(t, i - from);
        assert(t.subrange(i - from, t.len() as int) =~= s@.subrange(i as int, to as int));
    }
    i
}

/// The number that a word stands for.
pub fn parse_number(word: &[char]) -> (r: Option<u64>)
    ensures
        match (r, parsed_number(word@)) {
            (Some(a), Some(b)) => a == b,
            (None, None) => true,
            _ => false,
        },
{
    let n: usize = word.len();
    let start: usize = if n > 0 && word[0] == '+' {
        1
    } else {
        0
    };
    let ghost digits = digits_of(word@);
    assert(digits =~= word@.subrange(start as int, n as int));
    if start == n {
        return None;
    }
    let mut value: u64 = 0;
    let mut i: usize = start;
    proof {
        assert(digits.take(0) =~= Seq::<char>::empty());
    }
    while i < n
        invariant
            n == word@.len(),
            start <= i <= n,
            digits == digits_of(word@),
            digits == word@.subrange(start as int, n as int),
            forall|j: int| 0 <= j < i - start ==> '0' <= #[trigger] digits[j] <= '9',
            value == number_value(digits.take(i - start)),
        decreases n - i,
    {
        let c = word[i];
        let ghost k = i - start;
        assert(digits[k] == c);
        if !('0' <= c && c <= '9') {
            return None;
        }
        let d: u64 = (c as u32 - '0' as u32) as u64;
        proof {
            assert(digits.take(k + 1).drop_last() =~= digits.take(k));
            assert(digits.take(k + 1).last() == c);
        }
        if value > u64::MAX / 10 || value * 10 > u64::MAX - d {
            proof {
                assert(number_value(digits.take(k + 1)) > u64::MAX);
                if is_number(digits) {
                    lemma_number_grows(digits, k + 1);
                }
            }
            return None;
        }
        value = value * 10 + d;
        i = i + 1;
    }
    proof {
        assert(digits.take(n - start) =~= digits);
    }
    Some(value)
}

/// More digits stand for no smaller number.
proof fn lemma_number_grows(s: Seq<char>, n: int)
    requires
        is_number(s),
        0 <= n <= s.len(),
    ensures
        0 <= number_value(s.take(n)) <= number_value(s),
    decreases s.len(),
{
    lemma_number_is_natural(s.take(n));
    if n == s.len() {
        assert(s.take(n) =~= s);
    } else {
        let t = s.drop_last();
        assert forall|i: int| 0 <= i < t.len() implies '0' <= #[trigger] t[i] <= '9' by {
            assert('0' <= s[i] <= '9');
        }
        assert('0' <= s[s.len() - 1] <= '9');
        if t.len() > 0 {
            lemma_number_grows(t, n);
        }
        lemma_number_is_natural(t);
        assert(t.take(n) =~= s.take(n));
    }
}

proof fn lemma_number_is_natural(s: Seq<char>)
    requires
        forall|i: int| 0 <= i < s.len() ==> '0' <= #[trigger] s[i] <= '9',
    ensures
        number_value(s) >= 0,
    decreases s.len(),
{
    if s.len() > 0 {
        let t = s.drop_last();
        assert forall|i: int| 0 <= i < t.len() implies '0' <= #[trigger] t[i] <= '9' by {
            assert('0' <= s[i] <= '9');
        }
        lemma_number_is_natural(t);
        assert('0' <= s[s.len() - 1] <= '9');
    }
}

/// The resident set size in kilobytes in a process status text.
pub fn parse_rss_kb(status: &str) -> (r: Option<u64>)
    ensures
        match (r, rss_of(status@)) {
            (Some(a), Some(b)) => a == b,
            (None, None) => true,
            _ => false,
        },
{
    let chars = chars_of(status);
    let s = chars.as_slice();
    let n: usize = s.len();
    let prefix = chars_of("VmRSS:");
    let mut from: usize = 0;
    assert(s@.subrange(0, n as int) =~= s@);
    loop
        invariant
            s@ == status@,
            n == s@.len(),
            from <= n,
            prefix@ == "VmRSS:"@,
            find_line(status@, "VmRSS:"@) == find_line(
                s@.subrange(from as int, n as int),
                "VmRSS:"@,
            ),
        decreases n - from,
    {
        let end: usize = line_end(s, from);
        let line = vstd::slice::slice_subrange(s, from, end);
        let ghost rest = s@.subrange(from as int, n as int);
        if stands_at(line, prefix.as_slice(), 0) {
            let len: usize = line.len();
            let a: usize = space_end(line, 0, len);
            let b: usize = word_end(line, a, len);
            let c: usize = space_end(line, b, len);
            let d: usize = word_end(line, c, len);
            proof {
                let l = line@;
                assert(l.subrange(0, len as int) =~= l);
                let t = trim_start(l);
                assert(t == l.subrange(a as int, len as int));
                assert(first_word(t) == l.subrange(a as int, b as int));
                assert(t.subrange(b - a, t.len() as int) =~= l.subrange(b as int, len as int));
                assert(after_word(l) == l.subrange(c as int, len as int));
            }
            return parse_number(vstd::slice::slice_subrange(line, c, d));
        }
        if end == n {
            return None;
        }
        proof {
            assert(first_line(rest).len() == end - from);
            assert(rest.subrange(end - from + 1, rest.len() as int) =~= s@.subrange(
                end + 1,
                n as int,
            ));
        }
        from = end + 1;
    }
}

/// Lines that are no memory line are passed over.
pub proof fn lemma_other_lines_are_skipped(line: Seq<char>, rest: Seq<char>)
    requires
        forall|i: int| 0 <= i < line.len() ==> #[trigger] line[i] != '\n',
        !occurs_at(line, "VmRSS:"@, 0),
    ensures
        rss_of(line + seq!['\n'] + rest) == rss_of(rest),
        rss_of(line) is None,
{
    let s = line + seq!['\n'] + rest;
    let n = line.len() as int;
    lemma_first_line(s, n);
    assert(s.subrange(0, n) =~= line);
    assert(s.subrange(n + 1, s.len() as int) =~= rest);
    lemma_first_line(line, n);
    assert(line.subrange(0, n) =~= line);
}

/// The number in the memory line is the one that is read: after the label,
/// white space, and before more white space or the end of the line.
pub proof fn lemma_memory_line_is_read(
    gap: Seq<char>,
    digits: Seq<char>,
    unit: Seq<char>,
    rest: Seq<char>,
)
    requires
        gap.len() > 0,
        forall|i: int|
            0 <= i < gap.len() ==> is_space(#[trigger] gap[i]) && gap[i] != '\n',
        is_number(digits),
        number_value(digits) <= u64::MAX,
        forall|i: int| 0 <= i < unit.len() ==> #[trigger] unit[i] != '\n',
        unit.len() > 0 ==> is_space(unit[0]),
    ensures
        rss_of("VmRSS:"@ + gap + digits + unit + seq!['\n'] + rest) == Some(
            number_value(digits),
        ),
{
    reveal_strlit("VmRSS:");
    let label = "VmRSS:"@;
    let line = label + gap + digits + unit;
    let s = label + gap + digits + unit + seq!['\n'] + rest;
    let n = line.len() as int;
    assert forall|i: int| 0 <= i < n implies #[trigger] s[i] != '\n' by {
        if i < 6 {
            assert(s[i] == label[i]);
        } else if i < 6 + gap.len() {
            assert(s[i] == gap[i - 6]);
        } else if i < 6 + gap.len() + digits.len() {
            assert(s[i] == digits[i - 6 - gap.len()]);
            assert('0' <= digits[i - 6 - gap.len()] <= '9');
        } else {
            assert(s[i] == unit[i - 6 - gap.len() - digits.len()]);
        }
    }
    assert(s[n] == '\n');
    lemma_first_line(s, n);
    assert(s.subrange(0, n) =~= line);
    assert(line.subrange(0, 6) =~= label);
    assert(occurs_at(line, label, 0));
    assert(find_line(s, label) == Some(line));
    assert(line[0] == 'V');
    lemma_trim_start_at(line, 0);
    assert(line.subrange(0, n) =~= line);
    assert(line[6] == gap[0]);
    assert forall|i: int| 0 <= i < 6 implies !is_space(#[trigger] line[i]) by {
        assert(line[i] == label[i]);
    }
    lemma_first_word(line, 6);
    let tail = line.subrange(6, n);
    let g = gap.len() as int;
    let d = digits.len() as int;
    assert forall|i: int| 0 <= i < g implies is_space(#[trigger] tail[i]) by {
        assert(tail[i] == gap[i]);
    }
    assert(tail[g] == digits[0]);
    assert('0' <= digits[0] <= '9');
    lemma_trim_start_at(tail, g);
    let value = tail.subrange(g, tail.len() as int);
    assert(after_word(line) == value);
    assert forall|i: int| 0 <= i < d implies !is_space(#[trigger] value[i]) by {
        assert(value[i] == digits[i]);
        assert('0' <= digits[i] <= '9');
    }
    if unit.len() > 0 {
        assert(value[d] == unit[0]);
    }
    lemma_first_word(value, d);
    assert(value.subrange(0, d) =~= digits);
    assert(digits_of(digits) == digits);
}

/// A number written in decimal is read as that number, with a plus in front or
/// without; what is no row of digits, and what does not fit, is not read.
pub proof fn lemma_numbers_are_read(n: nat)
    ensures
        n <= u64::MAX ==> parsed_number(decimal(n)) == Some(n as int),
        n <= u64::MAX ==> parsed_number(seq!['+'] + decimal(n)) == Some(n as int),
        n > u64::MAX ==> parsed_number(decimal(n)) is None,
        parsed_number(Seq::empty()) is None,
        parsed_number(seq!['-'] + decimal(n)) is None,
{
    lemma_decimal_stands_for_its_number(n);
    lemma_values_agree(decimal(n));
    let d = decimal(n);
    assert(is_number(d));
    assert('0' <= d[0] <= '9');
    let p = seq!['+'] + d;
    assert(p.subrange(1, p.len() as int) =~= d);
    let m = seq!['-'] + d;
    assert(m[0] == '-');
    assert(digits_of(m) == m);
}

proof fn lemma_values_agree(digits: Seq<char>)
    ensures
        number_value(digits) == number_of(digits),
    decreases digits.len(),
{
    if digits.len() > 0 {
        lemma_values_agree(digits.drop_last());
    }
}

// ---------------------------------------------------------------------------
// Result table
// ---------------------------------------------------------------------------

/// The file part of a path is what follows its last separator, of either kind:
/// it holds none, and what stands before it is nothing or ends in one.
pub proof fn lemma_file_part_follows_the_separator(directory: Seq<char>, name: Seq<char>)
    requires
        forall|i: int|
            0 <= i < name.len() ==> #[trigger] name[i] != '/' && name[i] != '\\',
        directory.len() > 0 ==> directory.last() == '/' || directory.last() == '\\',
    ensures
        file_part(directory + name) == name,
{
    let path = directory + name;
    let from = directory.len() as int;
    assert forall|j: int| from <= j < path.len() implies #[trigger] path[j] != '/' && path[j]
        != '\\' by {
        assert(path[j] == name[j - from]);
    }
    lemma_file_part(path, from);
    assert(path.subrange(from, path.len() as int) =~= name);
}

/// The text after the last path separator.
pub open spec fn file_part(path: Seq<char>) -> Seq<char>
    decreases path.len(),
{
    if path.len() == 0 || path.last() == '/' || path.last() == '\\' {
        Seq::empty()
    } else {
        file_part(path.drop_last()).push(path.last())
    }
}

/// Widest file name in the table, in bytes.
pub const NAME_BYTES: usize = 19;

/// The name that the table shows for a file: its first bytes where it is long.
pub fn short_name(path: &str) -> (r: String)
    requires
        encode_utf8(file_part(path@)).len() > NAME_BYTES ==> is_char_boundary(
            encode_utf8(file_part(path@)),
            NAME_BYTES as int,
        ),
    ensures
        encode_utf8(file_part(path@)).len() <= NAME_BYTES ==> r@ == file_part(path@),
        encode_utf8(file_part(path@)).len() > NAME_BYTES ==> encode_utf8(r@) == encode_utf8(
            file_part(path@),
        ).subrange(0, NAME_BYTES as int),
        encode_utf8(r@).len() <= 19,
{
    let chars = chars_of(path);
    let n: usize = chars.len();
    let mut from: usize = n;
    while from > 0 && chars[from - 1] != '/' && chars[from - 1] != '\\'
        invariant
            n == chars@.len(),
            from <= n,
            forall|j: int| from <= j < n ==> #[trigger] chars@[j] != '/' && chars@[j] != '\\',
        ensures
            from <= n,
            forall|j: int| from <= j < n ==> #[trigger] chars@[j] != '/' && chars@[j] != '\\',
            from > 0 ==> chars@[from - 1] == '/' || chars@[from - 1] == '\\',
        decreases from,
    {
        from = from - 1;
    }
    proof {
        lemma_file_part(chars@, from as int);
    }
    let name = string_of(chars.as_slice(), from, n);
    if name.as_str().as_bytes().len() > NAME_BYTES {
        let (head, _) = name.as_str().split_at(NAME_BYTES);
        head.to_owned()
    } else {
        name
    }
}

proof fn lemma_file_part(path: Seq<char>, from: int)
    requires
        0 <= from <= path.len(),
        forall|j: int| from <= j < path.len() ==> #[trigger] path[j] != '/' && path[j] != '\\',
        from > 0 ==> path[from - 1] == '/' || path[from - 1] == '\\',
    ensures
        file_part(path) == path.subrange(from, path.len() as int),
    decreases path.len(),
{
    if from == path.len() {
        assert(path.subrange(from, path.len() as int) =~= Seq::<char>::empty());
    } else {
        let init = path.drop_last();
        assert forall|j: int| from <= j < init.len() implies #[trigger] init[j] != '/' && init[j]
            != '\\' by {
            assert(path[j] != '/' && path[j] != '\\');
        }
        assert(path[path.len() - 1] != '/' && path[path.len() - 1] != '\\');
        lemma_file_part(init, from);
        assert(path.subrange(from, path.len() as int) =~= init.subrange(
            from,
            init.len() as int,
        ).push(path.last()));
    }
}

// ---------------------------------------------------------------------------
// What is run
// ---------------------------------------------------------------------------

/// One run of a benchmark.
#[derive(Debug, Clone, Copy, PartialEq, Eq, Structural)]
pub struct BenchRun {
    /// Not timed.
    pub warmup: bool,
    /// Number of the file.
    pub file: usize,
}

/// Run `k` of a schedule over `files` files: every file in turn, round after
/// round, the first `warmup` rounds untimed.
pub open spec fn run_at(k: int, warmup: int, files: int) -> BenchRun {
    BenchRun { warmup: k / files < warmup, file: (k % files) as usize }
}

/// The runs of a benchmark, in order.
pub fn bench_schedule(warmup: usize, iterations: usize, files: usize) -> (r: Vec<BenchRun>)
    requires
        warmup + iterations <= usize::MAX,
    ensures
        r@ == Seq::new(
            ((warmup + iterations) * files) as nat,
            |k: int| run_at(k, warmup as int, files as int),
        ),
{
    let rounds: usize = warmup + iterations;
    let mut out: Vec<BenchRun> = Vec::new();
    let mut round: usize = 0;
    assert(0 * files == 0) by (nonlinear_arith);
    while round < rounds
        invariant
            round <= rounds,
            out@.len() == round * files,
            forall|k: int|
                0 <= k < out@.len() ==> #[trigger] out@[k] == run_at(
                    k,
                    warmup as int,
                    files as int,
                ),
        decreases rounds - round,
    {
        let mut file: usize = 0;
        while file < files
            invariant
                file <= files,
                out@.len() == round * files + file,
                forall|k: int|
                    0 <= k < out@.len() ==> #[trigger] out@[k] == run_at(
                        k,
                        warmup as int,
                        files as int,
                    ),
            decreases files - file,
        {
            proof {
                vstd::arithmetic::div_mod::lemma_fundamental_div_mod_converse(
                    round * files + file,
                    files as int,
                    round as int,
                    file as int,
                );
            }
            out.push(BenchRun { warmup: round < warmup, file });
            file = file + 1;
        }
        proof {
            assert((round + 1) * files == round * files + files) by (nonlinear_arith);
        }
        round = round + 1;
    }
    proof {
        assert(0 <= rounds * files) by (nonlinear_arith)
            requires
                rounds >= 0,
                files >= 0,
        ;
        assert(out@ =~= Seq::new(
            ((warmup + iterations) * files) as nat,
            |k: int| run_at(k, warmup as int, files as int),
        ));
    }
    out
}

/// Each round runs each file exactly once: of the runs of a round only run
/// `round * files + file` is on that file. A round is untimed where it is one
/// of the first `warmup`.
pub proof fn lemma_each_file_once_per_round(round: int, file: int, warmup: int, files: int)
    requires
        0 <= file < files,
        0 <= round,
        files <= usize::MAX,
    ensures
        forall|k: int|
            round * files <= k < (round + 1) * files ==> {
                &&& (#[trigger] run_at(k, warmup, files)).warmup == (round < warmup)
                &&& run_at(k, warmup, files).file == file <==> k == round * files + file
            },
        round * files <= round * files + file < (round + 1) * files,
{
    assert((round + 1) * files == round * files + files) by (nonlinear_arith);
    assert forall|k: int| round * files <= k < (round + 1) * files implies {
        &&& (#[trigger] run_at(k, warmup, files)).warmup == (round < warmup)
        &&& run_at(k, warmup, files).file == file <==> k == round * files + file
    } by {
        vstd::arithmetic::div_mod::lemma_fundamental_div_mod_converse(
            k,
            files,
            round,
            k - round * files,
        );
    }
}

/// The name of a benchmark's mode.
pub open spec fn mode_of(hybrid: bool, shannon_prime: bool, device: Seq<char>) -> Seq<char> {
    if hybrid {
        "hybrid"@
    } else if shannon_prime {
        if device == "integrated"@ {
            "integrated+SP"@
        } else {
            "discrete+SP"@
        }
    } else if device == "integrated"@ {
        "integrated"@
    } else if device == "discrete"@ {
        "discrete"@
    } else {
        "auto"@
    }
}

/// The name of a benchmark's mode.
pub fn mode_name(hybrid: bool, shannon_prime: bool, device: &str) -> (r: &'static str)
    ensures
        r@ == mode_of(hybrid, shannon_prime, device@),
{
    let device = device.to_owned();
    if hybrid {
        "hybrid"
    } else if shannon_prime {
        if device == "integrated".to_owned() {
            "integrated+SP"
        } else {
            "discrete+SP"
        }
    } else if device == "integrated".to_owned() {
        "integrated"
    } else if device == "discrete".to_owned() {
        "discrete"
    } else {
        "auto"
    }
}

/// Which stages of the assistant are measured.
#[derive(Debug, Clone, Copy, PartialEq, Eq, Structural)]
pub struct Stages {
    pub asr: bool,
    pub llm: bool,
    pub tts: bool,
}

/// The stages asked for; `None` where none is.
pub open spec fn stages_for(all: bool, asr: bool, llm: bool, tts: bool) -> Option<Stages> {
    if all {
        Some(Stages { asr: true, llm: true, tts: true })
    } else if asr || llm || tts {
        Some(Stages { asr, llm, tts })
    } else {
        None
    }
}

/// A stage is measured exactly when it is asked for, by itself or with all;
/// where nothing is asked for, nothing is.
pub proof fn lemma_stages_are_those_asked_for(all: bool, asr: bool, llm: bool, tts: bool)
    ensures
        stages_for(all, asr, llm, tts) is None <==> !all && !asr && !llm && !tts,
        stages_for(all, asr, llm, tts) matches Some(s) ==> {
            &&& s.asr <==> all || asr
            &&& s.llm <==> all || llm
            &&& s.tts <==> all || tts
        },
{
}

/// The stages asked for; `None` where none is.
pub fn select_stages(all: bool, asr: bool, llm: bool, tts: bool) -> (r: Option<Stages>)
    ensures
        r == stages_for(all, asr, llm, tts),
        r == if all || asr || llm || tts {
            Some(Stages { asr: all || asr, llm: all || llm, tts: all || tts })
        } else {
            None
        },
{
    let stages = Stages { asr: all || asr, llm: all || llm, tts: all || tts };
    if stages.asr || stages.llm || stages.tts {
        Some(stages)
    } else {
        None
    }
}

// ---------------------------------------------------------------------------
// Measuring a reply
// ---------------------------------------------------------------------------

/// What has been heard of a reply so far.
#[derive(Debug, Clone)]
pub struct ReplyMeter {
    pub reply: String,
    pub n_tokens: u32,
    /// When the first piece came, in milliseconds.
    pub ttft_ms: Option<u64>,
    /// How long the reply took, once it is done.
    pub total_ms: Option<u64>,
}

/// Most characters of a reply that a line of the report shows.
pub const PREVIEW_CHARS: usize = 80;

/// The start of a text as one line.
pub open spec fn preview_of(text: Seq<char>) -> Seq<char> {
    Seq::new(
        if text.len() < PREVIEW_CHARS {
            text.len()
        } else {
            PREVIEW_CHARS as nat
        },
        |i: int|
            if text[i] == '\n' {
                ' '
            } else {
                text[i]
            },
    )
}

impl ReplyMeter {
    /// Nothing heard yet.
    pub fn new() -> (r: Self)
        ensures
            r.reply@.len() == 0,
            r.n_tokens == 0,
            r.ttft_ms is None,
            r.total_ms is None,
    {
        ReplyMeter { reply: String::new(), n_tokens: 0, ttft_ms: None, total_ms: None }
    }

    /// Takes an event that came after `elapsed_ms`. Returns whether more is to
    /// come.
    pub fn on_event(&mut self, event: &LlmEvent, elapsed_ms: u64) -> (r: bool)
        ensures
            final(self)@ == heard(old(self)@, *event, elapsed_ms),
            r == (*event is Token),
            match *event {
                LlmEvent::Token(piece) => {
                    &&& r
                    &&& final(self).reply@ == old(self).reply@ + piece@
                    &&& final(self).ttft_ms == Some(
                        match old(self).ttft_ms {
                            Some(t) => t,
                            None => elapsed_ms,
                        },
                    )
                    &&& final(self).n_tokens == old(self).n_tokens
                    &&& final(self).total_ms == old(self).total_ms
                },
                LlmEvent::Done { n_tokens, total_ms, .. } => {
                    &&& !r
                    &&& final(self).reply@ == old(self).reply@
                    &&& final(self).ttft_ms == old(self).ttft_ms
                    &&& final(self).n_tokens == n_tokens
                    &&& final(self).total_ms == Some(total_ms)
                },
            },
    {
        match event {
            LlmEvent::Token(piece) => {
                if self.ttft_ms.is_none() {
                    self.ttft_ms = Some(elapsed_ms);
                }
                self.reply.append(piece.as_str());
                true
            },
            LlmEvent::Done { n_tokens, total_ms, .. } => {
                self.n_tokens = *n_tokens;
                self.total_ms = Some(*total_ms);
                false
            },
        }
    }

    /// The start of the reply as one line.
    pub fn preview(&self) -> (r: String)
        ensures
            r@ == preview_of(self.reply@),
    {
        let chars = chars_of(self.reply.as_str());
        let mut line: Vec<char> = Vec::new();
        let mut i: usize = 0;
        while i < chars.len() && i < PREVIEW_CHARS
            invariant
                i <= chars@.len(),
                i <= PREVIEW_CHARS,
                chars@ == self.reply@,
                line@.len() == i,
                forall|k: int| 0 <= k < i ==> #[trigger] line@[k] == preview_of(self.reply@)[k],
            decreases chars@.len() - i,
        {
            line.push(
                if chars[i] == '\n' {
                    ' '
                } else {
                    chars[i]
                },
            );
            i = i + 1;
        }
        assert(line@ =~= preview_of(self.reply@));
        let n: usize = line.len();
        assert(line@.subrange(0, n as int) =~= line@);
        string_of(line.as_slice(), 0, n)
    }
}

// ---------------------------------------------------------------------------
// Spectrogram layout
// ---------------------------------------------------------------------------

/// A spectrogram with one row per band, row after row.
#[derive(Debug, Clone)]
pub struct MelPlane<T> {
    pub bands: usize,
    pub frames: usize,
    pub values: Vec<T>,
}

/// `plane` is the frames transposed: value `t` of band `m` is value `m` of
/// frame `t`, or `fill` where that frame is shorter.
pub open spec fn transposes<T>(frames: Seq<Vec<T>>, fill: T, plane: MelPlane<T>) -> bool {
    &&& plane.frames == frames.len()
    &&& plane.bands == frames[0]@.len()
    &&& plane.values@.len() == plane.bands * plane.frames
    &&& forall|m: int, t: int|
        0 <= m < plane.bands && 0 <= t < plane.frames ==> plane.values@[#[trigger] plane_index(
            m,
            plane.frames as int,
            t,
        )] == if m < frames[t]@.len() {
            frames[t]@[m]
        } else {
            fill
        }
}

/// Where value `t` of band `m` stands.
pub open spec fn plane_index(m: int, frames: int, t: int) -> int {
    m * frames + t
}

/// Transposes frames of bands into bands of frames. `None` without frames.
pub fn transpose_mel<T: Copy>(frames: &Vec<Vec<T>>, fill: T) -> (r: Option<MelPlane<T>>)
    requires
        forall|t: int| 0 <= t < frames@.len() ==> (#[trigger] frames@[t])@.len() <= frames@[0]@.len(),
    ensures
        r is None <==> frames@.len() == 0,
        r matches Some(plane) ==> transposes(frames@, fill, plane),
{
    let n: usize = frames.len();
    if n == 0 {
        return None;
    }
    let bands: usize = frames[0].len();
    let mut values: Vec<T> = Vec::new();
    let mut m: usize = 0;
    assert(0 * n == 0) by (nonlinear_arith);
    while m < bands
        invariant
            n == frames@.len(),
            n > 0,
            bands == frames@[0]@.len(),
            m <= bands,
            values@.len() == m * n,
            forall|b: int, t: int|
                0 <= b < m && 0 <= t < n ==> values@[#[trigger] plane_index(b, n as int, t)]
                    == if b < frames@[t]@.len() {
                    frames@[t]@[b]
                } else {
                    fill
                },
        decreases bands - m,
    {
        let ghost done = values@;
        let mut t: usize = 0;
        while t < n
            invariant
                n == frames@.len(),
                n > 0,
                m < bands,
                t <= n,
                done.len() == m * n,
                values@.len() == m * n + t,
                forall|k: int| 0 <= k < done.len() ==> #[trigger] values@[k] == done[k],
                forall|u: int|
                    0 <= u < t ==> values@[#[trigger] plane_index(m as int, n as int, u)] == if m
                        < frames@[u]@.len() {
                        frames@[u]@[m as int]
                    } else {
                        fill
                    },
            decreases n - t,
        {
            let v = if m < frames[t].len() {
                frames[t][m]
            } else {
                fill
            };
            let ghost before = values@;
            values.push(v);
            proof {
                assert(0 <= m * n) by (nonlinear_arith)
                    requires
                        m >= 0,
                        n >= 0,
                ;
                assert forall|u: int| 0 <= u < t + 1 implies values@[#[trigger] plane_index(
                    m as int,
                    n as int,
                    u,
                )] == if m < frames@[u]@.len() {
                    frames@[u]@[m as int]
                } else {
                    fill
                } by {
                    if u < t {
                        assert(values@[plane_index(m as int, n as int, u)] == before[plane_index(
                            m as int,
                            n as int,
                            u,
                        )]);
                    }
                }
            }
            t = t + 1;
        }
        proof {
            assert((m + 1) * n == m * n + n) by (nonlinear_arith);
            assert forall|b: int, t: int| 0 <= b < m + 1 && 0 <= t < n implies values@[
            #[trigger] plane_index(b, n as int, t)] == if b < frames@[t]@.len() {
                frames@[t]@[b]
            } else {
                fill
            } by {
                if b < m {
                    assert(0 <= b * n + t < m * n) by (nonlinear_arith)
                        requires
                            0 <= b < m,
                            0 <= t < n,
                    ;
                    assert(values@[plane_index(b, n as int, t)] == done[plane_index(
                        b,
                        n as int,
                        t,
                    )]);
                }
            }
        }
        m = m + 1;
    }
    Some(MelPlane { bands, frames: n, values })
}

/// The hybrid mode is named so whatever else is asked for; a compressed mode is
/// named like the plain one on the same device, with the compression behind it.
pub proof fn lemma_mode_names(shannon_prime: bool, device: Seq<char>)
    ensures
        mode_of(true, shannon_prime, device) == "hybrid"@,
        mode_of(false, true, "integrated"@) == mode_of(false, false, "integrated"@) + "+SP"@,
        mode_of(false, true, "discrete"@) == mode_of(false, false, "discrete"@) + "+SP"@,
        mode_of(false, false, "integrated"@) == "integrated"@,
        mode_of(false, false, "discrete"@) == "discrete"@,
        device != "integrated"@ ==> mode_of(false, true, device) == "discrete"@ + "+SP"@,
        device != "integrated"@ && device != "discrete"@ ==> mode_of(false, false, device)
            == "auto"@,
{
    reveal_strlit("integrated");
    reveal_strlit("discrete");
    reveal_strlit("+SP");
    reveal_strlit("integrated+SP");
    reveal_strlit("discrete+SP");
    assert("integrated"@.len() == 10 && "discrete"@.len() == 8);
    assert("integrated"@ + "+SP"@ =~= "integrated+SP"@);
    assert("discrete"@ + "+SP"@ =~= "discrete+SP"@);
}

/// A preview is the start of the text on one line: up to eighty characters of
/// it, each as it is but for line feeds, which become spaces.
pub proof fn lemma_preview_is_one_line(text: Seq<char>, i: int)
    requires
        0 <= i < preview_of(text).len(),
    ensures
        preview_of(text).len() == if text.len() < 80 {
            text.len() as int
        } else {
            80
        },
        preview_of(text)[i] != '\n',
        text[i] != '\n' ==> preview_of(text)[i] == text[i],
        text[i] == '\n' ==> preview_of(text)[i] == ' ',
{
}

/// The plane holds its bands one after the other, each as a row of frames
/// without gaps.
pub proof fn lemma_plane_is_laid_out_by_band(m: int, frames: int, t: int)
    ensures
        plane_index(0, frames, 0) == 0,
        plane_index(m, frames, t + 1) == plane_index(m, frames, t) + 1,
        plane_index(m, frames, frames) == plane_index(m + 1, frames, 0),
{
    assert(0 * frames == 0) by (nonlinear_arith);
    assert((m + 1) * frames == m * frames + frames) by (nonlinear_arith);
}

/// What has been heard of a reply, without the string that holds it.
#[verifier::ext_equal]
pub struct MeterModel {
    pub reply: Seq<char>,
    pub n_tokens: u32,
    pub ttft_ms: Option<u64>,
    pub total_ms: Option<u64>,
}

impl View for ReplyMeter {
    type V = MeterModel;

    open spec fn view(&self) -> MeterModel {
        MeterModel {
            reply: self.reply@,
            n_tokens: self.n_tokens,
            ttft_ms: self.ttft_ms,
            total_ms: self.total_ms,
        }
    }
}

/// The meter after an event that came at `at`.
pub open spec fn heard(m: MeterModel, event: LlmEvent, at: u64) -> MeterModel {
    match event {
        LlmEvent::Token(piece) => MeterModel {
            reply: m.reply + piece@,
            ttft_ms: if m.ttft_ms is Some {
                m.ttft_ms
            } else {
                Some(at)
            },
            ..m
        },
        LlmEvent::Done { n_tokens, total_ms, .. } => MeterModel {
            n_tokens,
            total_ms: Some(total_ms),
            ..m
        },
    }
}

/// A new meter after a row of pieces, each with the time at which it came.
pub open spec fn heard_pieces(pieces: Seq<(String, u64)>) -> MeterModel
    decreases pieces.len(),
{
    if pieces.len() == 0 {
        MeterModel { reply: Seq::empty(), n_tokens: 0, ttft_ms: None, total_ms: None }
    } else {
        heard(
            heard_pieces(pieces.drop_last()),
            LlmEvent::Token(pieces.last().0),
            pieces.last().1,
        )
    }
}

/// A meter keeps the whole reply, its pieces in order, and the time of the
/// first one; the end adds what it says of the reply and takes nothing away.
pub proof fn lemma_meter_keeps_the_reply(
    pieces: Seq<(String, u64)>,
    reason: DoneReason,
    n_tokens: u32,
    total_ms: u64,
    ttft_ms: u64,
)
    ensures
        heard_pieces(pieces).reply == joined(pieces.map_values(|p: (String, u64)| p.0@)),
        pieces.len() > 0 ==> heard_pieces(pieces).ttft_ms == Some(pieces[0].1),
        pieces.len() == 0 ==> heard_pieces(pieces).ttft_ms is None,
        heard_pieces(pieces).total_ms is None,
        heard(
            heard_pieces(pieces),
            LlmEvent::Done { reason, n_tokens, total_ms, ttft_ms },
            total_ms,
        ) == (MeterModel {
            n_tokens,
            total_ms: Some(total_ms),
            ..heard_pieces(pieces)
        }),
    decreases pieces.len(),
{
    let texts = pieces.map_values(|p: (String, u64)| p.0@);
    if pieces.len() > 0 {
        let init = pieces.drop_last();
        lemma_meter_keeps_the_reply(init, reason, n_tokens, total_ms, ttft_ms);
        assert(texts.drop_last() =~= init.map_values(|p: (String, u64)| p.0@));
        assert(texts.last() == pieces.last().0@);
    }
}

/// Transposing loses and moves nothing but rows and columns: the plane has a
/// row for each band of the first frame and a column for each frame, and what
/// stands in row `m` and column `t` is what stood at `m` in frame `t`.
pub proof fn lemma_transposed_values<T>(
    frames: Seq<Vec<T>>,
    fill: T,
    plane: MelPlane<T>,
    m: int,
    t: int,
)
    requires
        transposes(frames, fill, plane),
        frames.len() > 0,
        0 <= m < frames[0]@.len(),
        0 <= t < frames.len(),
    ensures
        plane.values@.len() == frames[0]@.len() * frames.len(),
        m < frames[t]@.len() ==> plane.values@[m * frames.len() + t] == frames[t]@[m],
        m >= frames[t]@.len() ==> plane.values@[m * frames.len() + t] == fill,
        plane.frames == frames.len(),
        plane.bands == frames[0]@.len(),
{
    assert(plane_index(m, plane.frames as int, t) == m * frames.len() + t);
}

} // verus!

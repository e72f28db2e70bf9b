//! Command-line speech synthesis: where tokens, tokenizers and voices come
//! from.

use crate::text::{chars_of, occurs_at, stands_at, string_of};
use vstd::prelude::*;

verus! {

/// The first candidate that exists.
pub fn first_existing(exists: &[bool]) -> (r: Option<usize>)
    ensures
        match r {
            Some(i) => i < exists@.len() && exists@[i as int] && forall|j: int|
                0 <= j < i ==> !#[trigger] exists@[j],
            None => forall|j: int| 0 <= j < exists@.len() ==> !#[trigger] exists@[j],
        },
{
    let mut i: usize = 0;
    while i < exists.len()
        invariant
            i <= exists@.len(),
            forall|j: int| 0 <= j < i ==> !#[trigger] exists@[j],
        decreases exists@.len() - i,
    {
        if exists[i] {
            return Some(i);
        }
        i = i + 1;
    }
    None
}

/// Where the text's tokens come from.
#[derive(Debug, Clone, Copy, PartialEq, Eq, Structural)]
pub enum TokenSource {
    /// The ids were given.
    Given,
    /// The text is tokenised.
    Encode,
    /// The tokenizer is missing.
    NoTokenizer,
    /// Nothing to say; only the voices are listed.
    Nothing,
    /// Neither text nor ids were given.
    Missing,
}

/// Where the tokens come from, given what there is.
pub open spec fn token_source_for(
    has_ids: bool,
    has_text: bool,
    tokenizer_exists: bool,
    list_voices: bool,
) -> TokenSource {
    match (has_ids, has_text, tokenizer_exists, list_voices) {
        (true, _, _, _) => TokenSource::Given,
        (false, true, true, _) => TokenSource::Encode,
        (false, true, false, _) => TokenSource::NoTokenizer,
        (false, false, _, true) => TokenSource::Nothing,
        (false, false, _, false) => TokenSource::Missing,
    }
}

/// Ids that were given are used whatever else there is; otherwise a text is
/// tokenised, for which alone a tokenizer is needed; and without either the
/// voices can still be listed.
pub proof fn lemma_given_ids_come_first(
    has_ids: bool,
    has_text: bool,
    tokenizer_exists: bool,
    list_voices: bool,
)
    ensures
        ({
            let r = token_source_for(has_ids, has_text, tokenizer_exists, list_voices);
            &&& r == TokenSource::Given <==> has_ids
            &&& r == TokenSource::Encode <==> !has_ids && has_text && tokenizer_exists
            &&& r == TokenSource::NoTokenizer <==> !has_ids && has_text && !tokenizer_exists
            &&& r == TokenSource::Nothing <==> !has_ids && !has_text && list_voices
            &&& r == TokenSource::Missing <==> !has_ids && !has_text && !list_voices
        }),
{
}

/// Decides where the tokens come from. Given ids go before text; text needs a
/// tokenizer; listing voices needs neither.
pub fn token_source(
    has_ids: bool,
    has_text: bool,
    tokenizer_exists: bool,
    list_voices: bool,
) -> (r: TokenSource)
    ensures
        r == token_source_for(has_ids, has_text, tokenizer_exists, list_voices),
        r == if has_ids {
            TokenSource::Given
        } else if has_text && tokenizer_exists {
            TokenSource::Encode
        } else if has_text {
            TokenSource::NoTokenizer
        } else if list_voices {
            TokenSource::Nothing
        } else {
            TokenSource::Missing
        },
{
    if has_ids {
        TokenSource::Given
    } else if has_text {
        if tokenizer_exists {
            TokenSource::Encode
        } else {
            TokenSource::NoTokenizer
        }
    } else if list_voices {
        TokenSource::Nothing
    } else {
        TokenSource::Missing
    }
}

/// The file name ends in `.safetensors` and has a stem.
pub open spec fn is_voice_file(name: Seq<char>) -> bool {
    name.len() > 12 && occurs_at(name, ".safetensors"@, name.len() - 12)
}

/// The name without its extension.
pub open spec fn voice_stem(name: Seq<char>) -> Seq<char> {
    name.subrange(0, name.len() - 12)
}

/// The voice that a file holds; `None` where it is no voice file.
pub fn voice_of_file(name: &str) -> (r: Option<String>)
    ensures
        r is Some <==> is_voice_file(name@),
        r matches Some(s) ==> s@ == voice_stem(name@),
{
    proof {
        reveal_strlit(".safetensors");
        assert(".safetensors"@.len() == 12);
    }
    let chars = chars_of(name);
    let n: usize = chars.len();
    if n <= 12 {
        return None;
    }
    let ext = chars_of(".safetensors");
    if stands_at(chars.as_slice(), ext.as_slice(), n - 12) {
        Some(string_of(chars.as_slice(), 0, n - 12))
    } else {
        None
    }
}

/// `a` comes before `b`, or they are equal, in the order of their characters.
pub open spec fn at_most(a: Seq<char>, b: Seq<char>) -> bool
    decreases a.len(),
{
    if a.len() == 0 {
        true
    } else if b.len() == 0 {
        false
    } else if (a[0] as u32) < (b[0] as u32) {
        true
    } else if (a[0] as u32) > (b[0] as u32) {
        false
    } else {
        at_most(a.subrange(1, a.len() as int), b.subrange(1, b.len() as int))
    }
}

/// Of two texts one is at most the other.
proof fn lemma_at_most_total(a: Seq<char>, b: Seq<char>)
    ensures
        at_most(a, b) || at_most(b, a),
    decreases a.len(),
{
    if a.len() > 0 && b.len() > 0 {
        lemma_at_most_total(a.subrange(1, a.len() as int), b.subrange(1, b.len() as int));
    }
}

/// The order is transitive.
proof fn lemma_at_most_transitive(a: Seq<char>, b: Seq<char>, c: Seq<char>)
    requires
        at_most(a, b),
        at_most(b, c),
    ensures
        at_most(a, c),
    decreases a.len(),
{
    if a.len() > 0 && b.len() > 0 && c.len() > 0 && a[0] as u32 == b[0] as u32 && b[0] as u32
        == c[0] as u32 {
        lemma_at_most_transitive(
            a.subrange(1, a.len() as int),
            b.subrange(1, b.len() as int),
            c.subrange(1, c.len() as int),
        );
    }
}

/// Whether `a` is at most `b`, from position `i` on.
fn not_after(a: &Vec<char>, b: &Vec<char>) -> (r: bool)
    ensures
        r == at_most(a@, b@),
{
    let mut i: usize = 0;
    proof {
        assert(a@.subrange(0, a@.len() as int) =~= a@);
        assert(b@.subrange(0, b@.len() as int) =~= b@);
    }
    while i < a.len()
        invariant
            i <= a@.len(),
            i <= b@.len(),
            at_most(a@, b@) == at_most(
                a@.subrange(i as int, a@.len() as int),
                b@.subrange(i as int, b@.len() as int),
            ),
        decreases a@.len() - i,
    {
        let ghost ra = a@.subrange(i as int, a@.len() as int);
        let ghost rb = b@.subrange(i as int, b@.len() as int);
        if i == b.len() {
            return false;
        }
        let x: u32 = a[i] as u32;
        let y: u32 = b[i] as u32;
        if x < y {
            return true;
        }
        if x > y {
            return false;
        }
        proof {
            assert(ra.subrange(1, ra.len() as int) =~= a@.subrange(i + 1, a@.len() as int));
            assert(rb.subrange(1, rb.len() as int) =~= b@.subrange(i + 1, b@.len() as int));
        }
        i = i + 1;
    }
    true
}

/// The texts are in order.
pub open spec fn in_order(s: Seq<Seq<char>>) -> bool {
    forall|i: int, j: int| 0 <= i <= j < s.len() ==> at_most(#[trigger] s[i], #[trigger] s[j])
}

/// The texts of a list of strings.
pub open spec fn texts(v: Seq<String>) -> Seq<Seq<char>> {
    v.map_values(|s: String| s@)
}

/// Puts a text into an ordered list at its place.
fn insert_ordered(list: &mut Vec<String>, item: String)
    requires
        in_order(texts(old(list)@)),
    ensures
        in_order(texts(final(list)@)),
        texts(final(list)@).to_multiset() == texts(old(list)@).to_multiset().insert(item@),
{
    let chars = chars_of(item.as_str());
    let ghost start = list@;
    let mut at: usize = 0;
    while at < list.len() && not_after(&chars_of(list[at].as_str()), &chars)
        invariant
            list@ == start,
            chars@ == item@,
            at <= list@.len(),
            forall|k: int| 0 <= k < at ==> at_most(#[trigger] texts(start)[k], item@),
        ensures
            list@ == start,
            at <= list@.len(),
            forall|k: int| 0 <= k < at ==> at_most(#[trigger] texts(start)[k], item@),
            at < list@.len() ==> !at_most(texts(start)[at as int], item@),
        decreases list@.len() - at,
    {
        at = at + 1;
    }
    proof {
        let t = texts(start);
        assert(texts(start.insert(at as int, item)) =~= t.insert(at as int, item@));
        let u = t.insert(at as int, item@);
        assert forall|i: int, j: int| 0 <= i <= j < u.len() implies at_most(
            #[trigger] u[i],
            #[trigger] u[j],
        ) by {
            if i == j {
                lemma_at_most_total(u[i], u[i]);
            } else if i < at && j == at {
                assert(u[i] == t[i]);
            } else if i == at && j > at {
                assert(u[j] == t[j - 1]);
                lemma_at_most_total(t[at as int], item@);
                assert(at_most(t[at as int], t[j - 1]));
                lemma_at_most_transitive(item@, t[at as int], t[j - 1]);
            } else {
                let a = if i < at { i } else { i - 1 };
                let b = if j < at { j } else { j - 1 };
                assert(u[i] == t[a] && u[j] == t[b]);
            }
        }
        t.to_multiset_ensures();
        lemma_insert_multiset(t, at as int, item@);
    }
    list.insert(at, item);
}

/// Inserting into a sequence adds to its multiset.
proof fn lemma_insert_multiset(s: Seq<Seq<char>>, at: int, x: Seq<char>)
    requires
        0 <= at <= s.len(),
    ensures
        s.insert(at, x).to_multiset() == s.to_multiset().insert(x),
{
    let a = s.subrange(0, at);
    let b = s.subrange(at, s.len() as int);
    assert(s =~= a + b);
    assert(s.insert(at, x) =~= (a + seq![x]) + b);
    vstd::seq_lib::lemma_multiset_commutative(a, b);
    vstd::seq_lib::lemma_multiset_commutative(a + seq![x], b);
    vstd::seq_lib::lemma_multiset_commutative(a, seq![x]);
    assert(seq![x] =~= Seq::<Seq<char>>::empty().push(x));
    Seq::<Seq<char>>::empty().to_multiset_ensures();
    assert(s.insert(at, x).to_multiset() =~= s.to_multiset().insert(x));
}

/// The stems of the voice files among the first `n` names.
pub open spec fn voice_stems(names: Seq<String>, n: int) -> Seq<Seq<char>>
    decreases n,
{
    if n <= 0 {
        Seq::empty()
    } else if is_voice_file(names[n - 1]@) {
        voice_stems(names, n - 1).push(voice_stem(names[n - 1]@))
    } else {
        voice_stems(names, n - 1)
    }
}

/// The voices that a directory holds, in order, from its file names.
pub fn list_voices(names: &Vec<String>) -> (r: Vec<String>)
    ensures
        in_order(texts(r@)),
        texts(r@).to_multiset() == voice_stems(names@, names@.len() as int).to_multiset(),
{
    let mut out: Vec<String> = Vec::new();
    let mut i: usize = 0;
    proof {
        assert(texts(out@) =~= voice_stems(names@, 0));
    }
    while i < names.len()
        invariant
            i <= names@.len(),
            in_order(texts(out@)),
            texts(out@).to_multiset() == voice_stems(names@, i as int).to_multiset(),
        decreases names@.len() - i,
    {
        proof {
            voice_stems(names@, i as int).to_multiset_ensures();
        }
        match voice_of_file(names[i].as_str()) {
            Some(stem) => insert_ordered(&mut out, stem),
            None => {},
        }
        i = i + 1;
    }
    out
}

/// A voice file is the name of a voice with the extension behind it, and the
/// voice is what stands before the extension.
pub proof fn lemma_voice_files(stem: Seq<char>, name: Seq<char>)
    ensures
        stem.len() > 0 ==> is_voice_file(stem + ".safetensors"@),
        stem.len() > 0 ==> voice_stem(stem + ".safetensors"@) == stem,
        is_voice_file(name) ==> name == voice_stem(name) + ".safetensors"@ && voice_stem(name).len()
            > 0,
{
    reveal_strlit(".safetensors");
    assert(".safetensors"@.len() == 12);
    let full = stem + ".safetensors"@;
    assert(full.subrange(full.len() - 12, full.len() as int) =~= ".safetensors"@);
    assert(voice_stem(full) =~= stem);
    if is_voice_file(name) {
        assert(name =~= voice_stem(name) + name.subrange(name.len() - 12, name.len() as int));
    }
}

/// Texts are ordered like words in a dictionary of code points: what they have
/// in common does not matter, the first difference decides, and a text comes
/// before any that goes on from it.
pub proof fn lemma_order_of_texts(
    common: Seq<char>,
    x: char,
    a: Seq<char>,
    y: char,
    b: Seq<char>,
)
    ensures
        x != y ==> (at_most(common.push(x) + a, common.push(y) + b) <==> (x as u32) < (y as u32)),
        at_most(common, common + a),
        at_most(common + a, common) ==> a.len() == 0,
    decreases common.len(),
{
    let p = common.push(x) + a;
    let q = common.push(y) + b;
    if common.len() > 0 {
        let rest = common.subrange(1, common.len() as int);
        lemma_order_of_texts(rest, x, a, y, b);
        assert(p.subrange(1, p.len() as int) =~= rest.push(x) + a);
        assert(q.subrange(1, q.len() as int) =~= rest.push(y) + b);
        let r = common + a;
        assert(r.subrange(1, r.len() as int) =~= rest + a);
    } else {
        assert(p[0] == x && q[0] == y);
        assert(common + a =~= a);
    }
}

/// Every voice file of a directory is listed, and nothing else is.
pub proof fn lemma_every_voice_is_listed(names: Seq<String>, n: int, i: int, stem: Seq<char>)
    requires
        0 <= i < n <= names.len(),
    ensures
        is_voice_file(names[i]@) ==> voice_stems(names, n).contains(voice_stem(names[i]@)),
        voice_stems(names, n).contains(stem) ==> exists|k: int|
            0 <= k < n && is_voice_file((#[trigger] names[k])@) && voice_stem(names[k]@) == stem,
        voice_stems(names, n).len() <= n,
    decreases n,
{
    let all = voice_stems(names, n);
    let less = voice_stems(names, n - 1);
    lemma_stems_are_bounded(names, n);
    if i < n - 1 {
        lemma_every_voice_is_listed(names, n - 1, i, stem);
        if is_voice_file(names[i]@) {
            let k = choose|k: int| 0 <= k < less.len() && less[k] == voice_stem(names[i]@);
            assert(all[k] == less[k]);
        }
    } else if is_voice_file(names[i]@) {
        assert(all[all.len() - 1] == voice_stem(names[i]@));
    }
    if all.contains(stem) {
        let k = choose|k: int| 0 <= k < all.len() && all[k] == stem;
        lemma_stem_has_a_file(names, n, k);
    }
}

proof fn lemma_stems_are_bounded(names: Seq<String>, n: int)
    requires
        0 <= n,
    ensures
        voice_stems(names, n).len() <= n,
    decreases n,
{
    if n > 0 {
        lemma_stems_are_bounded(names, n - 1);
    }
}

proof fn lemma_stem_has_a_file(names: Seq<String>, n: int, k: int)
    requires
        0 <= k < voice_stems(names, n).len(),
        n <= names.len(),
    ensures
        exists|i: int|
            0 <= i < n && is_voice_file((#[trigger] names[i])@) && voice_stem(names[i]@)
                == voice_stems(names, n)[k],
    decreases n,
{
    if n > 0 {
        let less = voice_stems(names, n - 1);
        if k < less.len() {
            lemma_stem_has_a_file(names, n - 1, k);
            let i = choose|i: int|
                0 <= i < n - 1 && is_voice_file((#[trigger] names[i])@) && voice_stem(names[i]@)
                    == less[k];
            assert(0 <= i < n && is_voice_file(names[i]@));
        } else {
            assert(is_voice_file(names[n - 1]@));
        }
    }
}

/// In an ordered list no text comes before one that stands ahead of it: where
/// two of its texts differ for the first time, the earlier one has the smaller
/// character.
pub proof fn lemma_listed_in_order(
    list: Seq<Seq<char>>,
    i: int,
    j: int,
    common: Seq<char>,
    x: char,
    a: Seq<char>,
    y: char,
    b: Seq<char>,
)
    requires
        in_order(list),
        0 <= i < j < list.len(),
        list[i] == common.push(x) + a,
        list[j] == common.push(y) + b,
    ensures
        x as u32 <= y as u32,
{
    if x != y {
        lemma_order_of_texts(common, x, a, y, b);
        assert(at_most(list[i], list[j]));
    }
}

} // verus!

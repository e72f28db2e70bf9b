//! What a tokenizer is put together from, and which of its parts run on which
//! texts.
//!
//! A tokenizer file can name parts, or settings of them, that stop the program
//! on some texts: a decoder that strips the end of an empty token, a truncation
//! whose windows do not move on. Such a tokenizer is told apart before it runs.

use tokenizers::{
    DecoderWrapper, NormalizerWrapper, PaddingStrategy, PostProcessorWrapper, PreTokenizerWrapper,
    Tokenizer,
};
use vstd::prelude::*;

verus! {

/// A part of a tokenizer that cannot run on every text.
#[derive(Debug, Clone, Copy, PartialEq, Eq, Structural)]
pub enum TokenizerPart {
    AddedTokens,
    Normalizer,
    PreTokenizer,
    Truncation,
    PostProcessor,
    Padding,
    Decoder,
}

// ---------------------------------------------------------------------------
// The parts
// ---------------------------------------------------------------------------

#[verifier::external_type_specification]
#[verifier::external_body]
pub struct ExDecoderWrapper(tokenizers::DecoderWrapper);

#[verifier::external_type_specification]
#[verifier::external_body]
pub struct ExNormalizerWrapper(tokenizers::NormalizerWrapper);

#[verifier::external_type_specification]
#[verifier::external_body]
pub struct ExPreTokenizerWrapper(tokenizers::PreTokenizerWrapper);

#[verifier::external_type_specification]
#[verifier::external_body]
pub struct ExPostProcessorWrapper(tokenizers::PostProcessorWrapper);

/// A decoder, with the settings that decide on which tokens it runs.
#[derive(Debug, Clone, Copy)]
pub enum DecoderStep<'a> {
    Bpe,
    ByteLevel,
    WordPiece,
    Metaspace,
    Ctc,
    Sequence(&'a [DecoderWrapper]),
    Replace,
    Fuse,
    Strip { content: char, start: usize, stop: usize },
    ByteFallback,
}

/// A normalizer.
#[derive(Debug, Clone, Copy)]
pub enum NormalizerStep<'a> {
    Bert,
    Strip,
    StripAccents,
    Nfc,
    Nfd,
    Nfkc,
    Nfkd,
    Sequence(&'a [NormalizerWrapper]),
    Lowercase,
    Nmt,
    Precompiled,
    Replace,
    Prepend,
    ByteLevel,
}

/// A pre-tokenizer, with the settings that decide on which texts it runs.
#[derive(Debug, Clone, Copy)]
pub enum PreTokenizerStep<'a> {
    Bert,
    ByteLevel,
    Delimiter,
    Metaspace,
    Whitespace,
    Sequence(&'a [PreTokenizerWrapper]),
    Split,
    Punctuation,
    WhitespaceSplit,
    Digits,
    UnicodeScripts,
    FixedLength { length: usize },
}

/// A post-processor.
#[derive(Debug, Clone, Copy)]
pub enum PostProcessorStep<'a> {
    Roberta,
    Bert,
    ByteLevel,
    Template,
    Sequence(&'a [PostProcessorWrapper]),
}

/// How encodings are padded.
#[derive(Debug, Clone, Copy, PartialEq, Eq, Structural)]
pub struct Padding {
    /// The length to pad to; `None` for the longest of a batch.
    pub fixed: Option<usize>,
    /// The length is rounded up to a multiple of this.
    pub multiple_of: Option<usize>,
}

/// The decoder of a tokenizer, as `get_decoder` gives it.
pub uninterp spec fn decoder_of(tokenizer: Tokenizer) -> Option<DecoderWrapper>;

/// The normalizer of a tokenizer, as `get_normalizer` gives it.
pub uninterp spec fn normalizer_of(tokenizer: Tokenizer) -> Option<NormalizerWrapper>;

/// The pre-tokenizer of a tokenizer, as `get_pre_tokenizer` gives it.
pub uninterp spec fn pre_tokenizer_of(tokenizer: Tokenizer) -> Option<PreTokenizerWrapper>;

/// The post-processor of a tokenizer, as `get_post_processor` gives it.
pub uninterp spec fn post_processor_of(tokenizer: Tokenizer) -> Option<PostProcessorWrapper>;

/// The variant of a decoder.
pub uninterp spec fn decoder_variant(decoder: DecoderWrapper) -> DecoderStep<'static>;

/// The variant of a normalizer.
pub uninterp spec fn normalizer_variant(normalizer: NormalizerWrapper) -> NormalizerStep<'static>;

/// The variant of a pre-tokenizer.
pub uninterp spec fn pre_tokenizer_variant(
    pre_tokenizer: PreTokenizerWrapper,
) -> PreTokenizerStep<'static>;

/// The variant of a post-processor.
pub uninterp spec fn post_processor_variant(
    post_processor: PostProcessorWrapper,
) -> PostProcessorStep<'static>;

/// The longest encoding and the overlap of its windows, as `get_truncation`
/// gives them.
pub uninterp spec fn truncation_of(tokenizer: Tokenizer) -> Option<(usize, usize)>;

/// How encodings are padded, as `get_padding` tells.
pub uninterp spec fn padding_of(tokenizer: Tokenizer) -> Option<Padding>;

/// Whether added tokens take the white space to their left and right, as
/// `get_added_tokens_decoder` tells of each.
pub uninterp spec fn added_strips(tokenizer: Tokenizer) -> Set<(bool, bool)>;

/// The text of a token, as `id_to_token` gives it.
pub uninterp spec fn token_text(tokenizer: Tokenizer, id: u32) -> Option<Seq<char>>;

/// Whether a token is special, as `is_special_token` of the added vocabulary
/// tells.
pub uninterp spec fn is_special(tokenizer: Tokenizer, token: Seq<char>) -> bool;

/// `TokenizerImpl::get_decoder`.
#[verifier::external_body]
fn get_decoder(tokenizer: &Tokenizer) -> (r: Option<&DecoderWrapper>)
    ensures
        match r {
            Some(d) => decoder_of(*tokenizer) == Some(*d),
            None => decoder_of(*tokenizer) is None,
        },
{
    tokenizer.get_decoder()
}

/// `TokenizerImpl::get_normalizer`.
#[verifier::external_body]
fn get_normalizer(tokenizer: &Tokenizer) -> (r: Option<&NormalizerWrapper>)
    ensures
        match r {
            Some(n) => normalizer_of(*tokenizer) == Some(*n),
            None => normalizer_of(*tokenizer) is None,
        },
{
    tokenizer.get_normalizer()
}

/// `TokenizerImpl::get_pre_tokenizer`.
#[verifier::external_body]
fn get_pre_tokenizer(tokenizer: &Tokenizer) -> (r: Option<&PreTokenizerWrapper>)
    ensures
        match r {
            Some(p) => pre_tokenizer_of(*tokenizer) == Some(*p),
            None => pre_tokenizer_of(*tokenizer) is None,
        },
{
    tokenizer.get_pre_tokenizer()
}

/// `TokenizerImpl::get_post_processor`.
#[verifier::external_body]
fn get_post_processor(tokenizer: &Tokenizer) -> (r: Option<&PostProcessorWrapper>)
    ensures
        match r {
            Some(p) => post_processor_of(*tokenizer) == Some(*p),
            None => post_processor_of(*tokenizer) is None,
        },
{
    tokenizer.get_post_processor()
}

/// The variant of a `DecoderWrapper`, with the public settings of `Strip` and
/// the decoders that `Sequence::get_decoders` gives.
#[verifier::external_body]
fn decoder_step<'a>(decoder: &'a DecoderWrapper) -> (r: DecoderStep<'a>)
    ensures
        r == decoder_variant(*decoder),
{
    match decoder {
        DecoderWrapper::BPE(_) => DecoderStep::Bpe,
        DecoderWrapper::ByteLevel(_) => DecoderStep::ByteLevel,
        DecoderWrapper::WordPiece(_) => DecoderStep::WordPiece,
        DecoderWrapper::Metaspace(_) => DecoderStep::Metaspace,
        DecoderWrapper::CTC(_) => DecoderStep::Ctc,
        DecoderWrapper::Sequence(s) => DecoderStep::Sequence(s.get_decoders()),
        DecoderWrapper::Replace(_) => DecoderStep::Replace,
        DecoderWrapper::Fuse(_) => DecoderStep::Fuse,
        DecoderWrapper::Strip(s) => DecoderStep::Strip { content: s.content, start: s.start, stop: s.stop },
        DecoderWrapper::ByteFallback(_) => DecoderStep::ByteFallback,
    }
}

/// The variant of a `NormalizerWrapper`, with the normalizers of a `Sequence`.
#[verifier::external_body]
fn normalizer_step<'a>(normalizer: &'a NormalizerWrapper) -> (r: NormalizerStep<'a>)
    ensures
        r == normalizer_variant(*normalizer),
{
    match normalizer {
        NormalizerWrapper::BertNormalizer(_) => NormalizerStep::Bert,
        NormalizerWrapper::StripNormalizer(_) => NormalizerStep::Strip,
        NormalizerWrapper::StripAccents(_) => NormalizerStep::StripAccents,
        NormalizerWrapper::NFC(_) => NormalizerStep::Nfc,
        NormalizerWrapper::NFD(_) => NormalizerStep::Nfd,
        NormalizerWrapper::NFKC(_) => NormalizerStep::Nfkc,
        NormalizerWrapper::NFKD(_) => NormalizerStep::Nfkd,
        NormalizerWrapper::Sequence(s) => NormalizerStep::Sequence(s.as_ref()),
        NormalizerWrapper::Lowercase(_) => NormalizerStep::Lowercase,
        NormalizerWrapper::Nmt(_) => NormalizerStep::Nmt,
        NormalizerWrapper::Precompiled(_) => NormalizerStep::Precompiled,
        NormalizerWrapper::Replace(_) => NormalizerStep::Replace,
        NormalizerWrapper::Prepend(_) => NormalizerStep::Prepend, NormalizerWrapper::ByteLevel(_) => NormalizerStep::ByteLevel }
}

/// The variant of a `PreTokenizerWrapper`, with the public length of
/// `FixedLength` and the pre-tokenizers of a `Sequence`.
#[verifier::external_body]
fn pre_tokenizer_step<'a>(pre_tokenizer: &'a PreTokenizerWrapper) -> (r: PreTokenizerStep<'a>)
    ensures
        r == pre_tokenizer_variant(*pre_tokenizer),
{
    match pre_tokenizer {
        PreTokenizerWrapper::BertPreTokenizer(_) => PreTokenizerStep::Bert,
        PreTokenizerWrapper::ByteLevel(_) => PreTokenizerStep::ByteLevel,
        PreTokenizerWrapper::Delimiter(_) => PreTokenizerStep::Delimiter,
        PreTokenizerWrapper::Metaspace(_) => PreTokenizerStep::Metaspace,
        PreTokenizerWrapper::Whitespace(_) => PreTokenizerStep::Whitespace,
        PreTokenizerWrapper::Sequence(s) => PreTokenizerStep::Sequence(s.as_ref()),
        PreTokenizerWrapper::Split(_) => PreTokenizerStep::Split,
        PreTokenizerWrapper::Punctuation(_) => PreTokenizerStep::Punctuation,
        PreTokenizerWrapper::WhitespaceSplit(_) => PreTokenizerStep::WhitespaceSplit,
        PreTokenizerWrapper::Digits(_) => PreTokenizerStep::Digits,
        PreTokenizerWrapper::UnicodeScripts(_) => PreTokenizerStep::UnicodeScripts,
        PreTokenizerWrapper::FixedLength(f) => PreTokenizerStep::FixedLength { length: f.length },
    }
}

/// The variant of a `PostProcessorWrapper`, with the post-processors of a
/// `Sequence`.
#[verifier::external_body]
fn post_processor_step<'a>(post_processor: &'a PostProcessorWrapper) -> (r: PostProcessorStep<'a>)
    ensures
        r == post_processor_variant(*post_processor),
{
    match post_processor {
        PostProcessorWrapper::Roberta(_) => PostProcessorStep::Roberta,
        PostProcessorWrapper::Bert(_) => PostProcessorStep::Bert,
        PostProcessorWrapper::ByteLevel(_) => PostProcessorStep::ByteLevel,
        PostProcessorWrapper::Template(_) => PostProcessorStep::Template,
        PostProcessorWrapper::Sequence(s) => PostProcessorStep::Sequence(s.as_ref()),
    }
}

/// `TokenizerImpl::get_truncation`: its `max_length` and `stride`.
#[verifier::external_body]
fn truncation(tokenizer: &Tokenizer) -> (r: Option<(usize, usize)>)
    ensures
        r == truncation_of(*tokenizer),
{
    tokenizer.get_truncation().map(|t| (t.max_length, t.stride))
}

/// `TokenizerImpl::get_padding`: its strategy and `pad_to_multiple_of`.
#[verifier::external_body]
fn padding(tokenizer: &Tokenizer) -> (r: Option<Padding>)
    ensures
        r == padding_of(*tokenizer),
{
    tokenizer.get_padding().map(
        |p| match p.strategy {
            PaddingStrategy::BatchLongest => Padding { fixed: None, multiple_of: p.pad_to_multiple_of },
            PaddingStrategy::Fixed(n) => Padding { fixed: Some(n), multiple_of: p.pad_to_multiple_of },
        },
    )
}

/// `TokenizerImpl::get_added_tokens_decoder`: `lstrip` and `rstrip` of each
/// added token, in no particular order.
#[verifier::external_body]
fn strips(tokenizer: &Tokenizer) -> (r: Vec<(bool, bool)>)
    ensures
        r@.to_set() == added_strips(*tokenizer),
{
    tokenizer.get_added_tokens_decoder().values().map(|t| (t.lstrip, t.rstrip)).collect()
}

/// `TokenizerImpl::id_to_token`.
#[verifier::external_body]
fn id_to_token(tokenizer: &Tokenizer, id: u32) -> (r: Option<String>)
    ensures
        match r {
            Some(s) => token_text(*tokenizer, id) == Some(s@),
            None => token_text(*tokenizer, id) is None,
        },
{
    tokenizer.id_to_token(id)
}

/// `AddedVocabulary::is_special_token`.
#[verifier::external_body]
fn is_special_token(tokenizer: &Tokenizer, token: &str) -> (r: bool)
    ensures
        r == is_special(*tokenizer, token@),
{
    tokenizer.get_added_vocabulary().is_special_token(token)
}

// ---------------------------------------------------------------------------
// Steps
// ---------------------------------------------------------------------------

/// The steps of the decoder: none, one, or those of a sequence.
pub open spec fn decoder_steps_of<'a>(tokenizer: Tokenizer) -> Seq<DecoderStep<'a>> {
    match decoder_of(tokenizer) {
        None => Seq::empty(),
        Some(only) => match decoder_variant(only) {
            DecoderStep::Sequence(all) => Seq::new(
                all@.len(),
                |i: int| decoder_variant(all@[i]),
            ),
            step => seq![step],
        },
    }
}

fn decoder_steps<'a>(tokenizer: &'a Tokenizer) -> (r: Vec<DecoderStep<'a>>)
    ensures
        r@ == decoder_steps_of(*tokenizer),
{
    let mut out: Vec<DecoderStep<'a>> = Vec::new();
    match get_decoder(tokenizer) {
        None => {},
        Some(only) => match decoder_step(only) {
            DecoderStep::Sequence(all) => {
                let mut i: usize = 0;
                while i < all.len()
                    invariant
                        i <= all@.len(),
                        out@.len() == i,
                        forall|k: int|
                            0 <= k < i ==> #[trigger] out@[k] == decoder_variant(all@[k]),
                    decreases all@.len() - i,
                {
                    out.push(decoder_step(&all[i]));
                    i = i + 1;
                }
            },
            step => {
                out.push(step);
            },
        },
    }
    assert(out@ =~= decoder_steps_of(*tokenizer));
    out
}

/// The steps of the normalizer: none, one, or those of a sequence.
pub open spec fn normalizer_steps_of<'a>(tokenizer: Tokenizer) -> Seq<NormalizerStep<'a>> {
    match normalizer_of(tokenizer) {
        None => Seq::empty(),
        Some(only) => match normalizer_variant(only) {
            NormalizerStep::Sequence(all) => Seq::new(
                all@.len(),
                |i: int| normalizer_variant(all@[i]),
            ),
            step => seq![step],
        },
    }
}

fn normalizer_steps<'a>(tokenizer: &'a Tokenizer) -> (r: Vec<NormalizerStep<'a>>)
    ensures
        r@ == normalizer_steps_of(*tokenizer),
{
    let mut out: Vec<NormalizerStep<'a>> = Vec::new();
    match get_normalizer(tokenizer) {
        None => {},
        Some(only) => match normalizer_step(only) {
            NormalizerStep::Sequence(all) => {
                let mut i: usize = 0;
                while i < all.len()
                    invariant
                        i <= all@.len(),
                        out@.len() == i,
                        forall|k: int|
                            0 <= k < i ==> #[trigger] out@[k] == normalizer_variant(all@[k]),
                    decreases all@.len() - i,
                {
                    out.push(normalizer_step(&all[i]));
                    i = i + 1;
                }
            },
            step => {
                out.push(step);
            },
        },
    }
    assert(out@ =~= normalizer_steps_of(*tokenizer));
    out
}

/// The steps of the pre-tokenizer: none, one, or those of a sequence.
pub open spec fn pre_tokenizer_steps_of<'a>(tokenizer: Tokenizer) -> Seq<PreTokenizerStep<'a>> {
    match pre_tokenizer_of(tokenizer) {
        None => Seq::empty(),
        Some(only) => match pre_tokenizer_variant(only) {
            PreTokenizerStep::Sequence(all) => Seq::new(
                all@.len(),
                |i: int| pre_tokenizer_variant(all@[i]),
            ),
            step => seq![step],
        },
    }
}

fn pre_tokenizer_steps<'a>(tokenizer: &'a Tokenizer) -> (r: Vec<PreTokenizerStep<'a>>)
    ensures
        r@ == pre_tokenizer_steps_of(*tokenizer),
{
    let mut out: Vec<PreTokenizerStep<'a>> = Vec::new();
    match get_pre_tokenizer(tokenizer) {
        None => {},
        Some(only) => match pre_tokenizer_step(only) {
            PreTokenizerStep::Sequence(all) => {
                let mut i: usize = 0;
                while i < all.len()
                    invariant
                        i <= all@.len(),
                        out@.len() == i,
                        forall|k: int|
                            0 <= k < i ==> #[trigger] out@[k] == pre_tokenizer_variant(all@[k]),
                    decreases all@.len() - i,
                {
                    out.push(pre_tokenizer_step(&all[i]));
                    i = i + 1;
                }
            },
            step => {
                out.push(step);
            },
        },
    }
    assert(out@ =~= pre_tokenizer_steps_of(*tokenizer));
    out
}

/// The steps of the post-processor: none, one, or those of a sequence.
pub open spec fn post_processor_steps_of<'a>(tokenizer: Tokenizer) -> Seq<PostProcessorStep<'a>> {
    match post_processor_of(tokenizer) {
        None => Seq::empty(),
        Some(only) => match post_processor_variant(only) {
            PostProcessorStep::Sequence(all) => Seq::new(
                all@.len(),
                |i: int| post_processor_variant(all@[i]),
            ),
            step => seq![step],
        },
    }
}

fn post_processor_steps<'a>(tokenizer: &'a Tokenizer) -> (r: Vec<PostProcessorStep<'a>>)
    ensures
        r@ == post_processor_steps_of(*tokenizer),
{
    let mut out: Vec<PostProcessorStep<'a>> = Vec::new();
    match get_post_processor(tokenizer) {
        None => {},
        Some(only) => match post_processor_step(only) {
            PostProcessorStep::Sequence(all) => {
                let mut i: usize = 0;
                while i < all.len()
                    invariant
                        i <= all@.len(),
                        out@.len() == i,
                        forall|k: int|
                            0 <= k < i ==> #[trigger] out@[k] == post_processor_variant(all@[k]),
                    decreases all@.len() - i,
                {
                    out.push(post_processor_step(&all[i]));
                    i = i + 1;
                }
            },
            step => {
                out.push(step);
            },
        },
    }
    assert(out@ =~= post_processor_steps_of(*tokenizer));
    out
}

// ---------------------------------------------------------------------------
// Encoding
// ---------------------------------------------------------------------------

/// No added token takes white space that another has already taken from the
/// other side.
pub open spec fn strips_one_side(tokenizer: Tokenizer) -> bool {
    ||| forall|s: (bool, bool)| #[trigger] added_strips(tokenizer).contains(s) ==> !s.0
    ||| forall|s: (bool, bool)| #[trigger] added_strips(tokenizer).contains(s) ==> !s.1
}

/// The step rewrites the text as a whole, by the places that its characters
/// have in the original.
pub open spec fn rewrites(step: NormalizerStep) -> bool {
    match step {
        NormalizerStep::Bert => true,
        NormalizerStep::Strip => true,
        NormalizerStep::StripAccents => true,
        NormalizerStep::Nfc => true,
        NormalizerStep::Nfd => true,
        NormalizerStep::Nfkc => true,
        NormalizerStep::Nfkd => true,
        NormalizerStep::Lowercase => true,
        NormalizerStep::Nmt => true,
        NormalizerStep::ByteLevel => true,
        NormalizerStep::Sequence(_) => false,
        NormalizerStep::Precompiled => false,
        NormalizerStep::Replace => false,
        NormalizerStep::Prepend => false,
    }
}

/// The step puts characters into the text, which can then start with one that
/// has no place in the original.
pub open spec fn inserts(step: NormalizerStep) -> bool {
    step is Replace || step is Prepend
}

/// The step cuts every text.
pub open spec fn cuts(step: PreTokenizerStep) -> bool {
    match step {
        PreTokenizerStep::Bert => true,
        PreTokenizerStep::ByteLevel => true,
        PreTokenizerStep::Delimiter => true,
        PreTokenizerStep::Metaspace => true,
        PreTokenizerStep::Whitespace => true,
        PreTokenizerStep::Split => true,
        PreTokenizerStep::Punctuation => true,
        PreTokenizerStep::WhitespaceSplit => true,
        PreTokenizerStep::Digits => true,
        PreTokenizerStep::UnicodeScripts => true,
        PreTokenizerStep::FixedLength { length } => length > 0,
        PreTokenizerStep::Sequence(_) => false,
    }
}

/// The step runs on every encoding of one text. A template can name tokens that
/// the file does not define, and does not tell which it names.
pub open spec fn finishes(step: PostProcessorStep) -> bool {
    match step {
        PostProcessorStep::Roberta => true,
        PostProcessorStep::Bert => true,
        PostProcessorStep::ByteLevel => true,
        PostProcessorStep::Template => false,
        PostProcessorStep::Sequence(_) => false,
    }
}

/// Every step of the normalizer runs, and none rewrites a text after one that
/// can have put in a character without a place.
pub open spec fn normalizers_run(steps: Seq<NormalizerStep>) -> bool {
    &&& forall|i: int|
        0 <= i < steps.len() ==> rewrites(#[trigger] steps[i]) || inserts(steps[i])
    &&& forall|i: int, j: int|
        0 <= i < j < steps.len() && inserts(#[trigger] steps[i]) ==> inserts(#[trigger] steps[j])
}

/// The last step of the normalizer puts characters into the text.
pub open spec fn ends_inserting(steps: Seq<NormalizerStep>) -> bool {
    steps.len() > 0 && inserts(steps.last())
}

/// Every step of the pre-tokenizer runs. Byte level rewrites the text, which
/// the normalizer must not have left with a character without a place.
pub open spec fn pre_tokenizers_run(steps: Seq<PreTokenizerStep>, inserted: bool) -> bool {
    forall|i: int|
        0 <= i < steps.len() ==> cuts(#[trigger] steps[i]) && !(inserted
            && steps[i] is ByteLevel)
}

/// Every step of the post-processor runs.
pub open spec fn post_processors_run(steps: Seq<PostProcessorStep>) -> bool {
    forall|i: int| 0 <= i < steps.len() ==> finishes(#[trigger] steps[i])
}

/// How many tokens the first `n` steps of the post-processor add.
pub open spec fn tokens_added(steps: Seq<PostProcessorStep>, n: int) -> int
    decreases n,
{
    if n <= 0 {
        0
    } else {
        tokens_added(steps, n - 1) + if steps[n - 1] is Bert || steps[n - 1] is Roberta {
            2int
        } else {
            0
        }
    }
}

/// A truncated encoding has room for the added tokens, and its windows move on.
pub open spec fn truncates(truncation: Option<(usize, usize)>, added: int) -> bool {
    truncation matches Some((max_length, stride)) ==> max_length >= added && (max_length == added
        || stride < max_length - added)
}

/// Longest padding, in tokens, that is asked for at once.
pub const PADDING_LIMIT: usize = 16_777_216;

/// A padded encoding can be held.
pub open spec fn pads(padding: Option<Padding>) -> bool {
    padding matches Some(p) ==> {
        &&& p.fixed matches Some(n) ==> n <= PADDING_LIMIT
        &&& p.multiple_of matches Some(n) ==> n <= PADDING_LIMIT
    }
}

/// The first part that may stop on some text while encoding, if there is one.
pub open spec fn encode_refusal(tokenizer: Tokenizer) -> Option<TokenizerPart> {
    let normalizers = normalizer_steps_of(tokenizer);
    let post_processors = post_processor_steps_of(tokenizer);
    if !strips_one_side(tokenizer) {
        Some(TokenizerPart::AddedTokens)
    } else if !normalizers_run(normalizers) {
        Some(TokenizerPart::Normalizer)
    } else if !pre_tokenizers_run(
        pre_tokenizer_steps_of(tokenizer),
        ends_inserting(normalizers),
    ) {
        Some(TokenizerPart::PreTokenizer)
    } else if !post_processors_run(post_processors) {
        Some(TokenizerPart::PostProcessor)
    } else if !truncates(
        truncation_of(tokenizer),
        tokens_added(post_processors, post_processors.len() as int),
    ) {
        Some(TokenizerPart::Truncation)
    } else if !pads(padding_of(tokenizer)) {
        Some(TokenizerPart::Padding)
    } else {
        None
    }
}

fn added_tokens_strip_one_side(tokenizer: &Tokenizer) -> (r: bool)
    ensures
        r == strips_one_side(*tokenizer),
{
    let all = strips(tokenizer);
    let mut left = false;
    let mut right = false;
    let mut i: usize = 0;
    let ghost mut at_left: int = 0;
    let ghost mut at_right: int = 0;
    while i < all.len()
        invariant
            i <= all@.len(),
            left ==> 0 <= at_left < all@.len() && all@[at_left].0,
            right ==> 0 <= at_right < all@.len() && all@[at_right].1,
            !left ==> forall|k: int| 0 <= k < i ==> !(#[trigger] all@[k]).0,
            !right ==> forall|k: int| 0 <= k < i ==> !(#[trigger] all@[k]).1,
        decreases all@.len() - i,
    {
        if all[i].0 {
            left = true;
            proof {
                at_left = i as int;
            }
        }
        if all[i].1 {
            right = true;
            proof {
                at_right = i as int;
            }
        }
        i = i + 1;
    }
    proof {
        if left {
            assert(added_strips(*tokenizer).contains(all@[at_left]));
        }
        if right {
            assert(added_strips(*tokenizer).contains(all@[at_right]));
        }
        if !left {
            assert forall|s: (bool, bool)| #[trigger] added_strips(*tokenizer).contains(
                s,
            ) implies !s.0 by {
                let k = choose|k: int| 0 <= k < all@.len() && all@[k] == s;
                assert(!all@[k].0);
            }
        }
        if !right {
            assert forall|s: (bool, bool)| #[trigger] added_strips(*tokenizer).contains(
                s,
            ) implies !s.1 by {
                let k = choose|k: int| 0 <= k < all@.len() && all@[k] == s;
                assert(!all@[k].1);
            }
        }
    }
    !(left && right)
}

fn step_rewrites(step: &NormalizerStep) -> (r: bool)
    ensures
        r == rewrites(*step),
{
    match step {
        NormalizerStep::Sequence(_) => false,
        NormalizerStep::Precompiled => false,
        NormalizerStep::Replace => false,
        NormalizerStep::Prepend => false,
        _ => true,
    }
}

fn step_inserts(step: &NormalizerStep) -> (r: bool)
    ensures
        r == inserts(*step),
{
    match step {
        NormalizerStep::Replace => true,
        NormalizerStep::Prepend => true,
        _ => false,
    }
}

/// Whether the steps of a normalizer run in this order.
pub fn can_normalize(steps: &Vec<NormalizerStep>) -> (r: bool)
    ensures
        r == normalizers_run(steps@),
{
    let mut inserted = false;
    let mut i: usize = 0;
    let ghost mut at: int = 0;
    while i < steps.len()
        invariant
            i <= steps@.len(),
            forall|k: int| 0 <= k < i ==> rewrites(#[trigger] steps@[k]) || inserts(steps@[k]),
            forall|k: int, j: int|
                0 <= k < j < i && inserts(#[trigger] steps@[k]) ==> inserts(#[trigger] steps@[j]),
            inserted ==> 0 <= at < i && inserts(steps@[at]),
            !inserted ==> forall|k: int| 0 <= k < i ==> !inserts(#[trigger] steps@[k]),
        decreases steps@.len() - i,
    {
        if step_inserts(&steps[i]) {
            inserted = true;
            proof {
                at = i as int;
            }
        } else if inserted || !step_rewrites(&steps[i]) {
            assert(!inserts(steps@[i as int]));
            return false;
        }
        i = i + 1;
    }
    true
}

/// Whether the steps of a pre-tokenizer run, after a normalizer that can have
/// put characters in front of the text or not.
pub fn can_pre_tokenize(steps: &Vec<PreTokenizerStep>, inserted: bool) -> (r: bool)
    ensures
        r == pre_tokenizers_run(steps@, inserted),
{
    let mut i: usize = 0;
    while i < steps.len()
        invariant
            i <= steps@.len(),
            forall|k: int|
                0 <= k < i ==> cuts(#[trigger] steps@[k]) && !(inserted && steps@[k] is ByteLevel),
        decreases steps@.len() - i,
    {
        let ok = match steps[i] {
            PreTokenizerStep::Sequence(_) => false,
            PreTokenizerStep::FixedLength { length } => length > 0,
            PreTokenizerStep::ByteLevel => !inserted,
            _ => true,
        };
        if !ok {
            assert(!(cuts(steps@[i as int]) && !(inserted && steps@[i as int] is ByteLevel)));
            return false;
        }
        i = i + 1;
    }
    true
}

/// Whether the steps of a post-processor run.
pub fn can_post_process(steps: &Vec<PostProcessorStep>) -> (r: bool)
    ensures
        r == post_processors_run(steps@),
{
    let mut i: usize = 0;
    while i < steps.len()
        invariant
            i <= steps@.len(),
            forall|k: int| 0 <= k < i ==> finishes(#[trigger] steps@[k]),
        decreases steps@.len() - i,
    {
        let ok = match steps[i] {
            PostProcessorStep::Template => false,
            PostProcessorStep::Sequence(_) => false,
            _ => true,
        };
        if !ok {
            assert(!finishes(steps@[i as int]));
            return false;
        }
        i = i + 1;
    }
    true
}

/// Whether a truncation has room for what the steps of a post-processor add.
pub fn can_truncate(
    truncation: Option<(usize, usize)>,
    steps: &Vec<PostProcessorStep>,
) -> (r: bool)
    ensures
        r == truncates(truncation, tokens_added(steps@, steps@.len() as int)),
{
    let (max_length, stride) = match truncation {
        Some(t) => t,
        None => {
            return true;
        },
    };
    let mut left: usize = max_length;
    let mut i: usize = 0;
    while i < steps.len()
        invariant
            i <= steps@.len(),
            left == max_length - tokens_added(steps@, i as int),
            truncation == Some((max_length, stride)),
        decreases steps@.len() - i,
    {
        let adds = match steps[i] {
            PostProcessorStep::Bert => true,
            PostProcessorStep::Roberta => true,
            _ => false,
        };
        if adds {
            if left < 2 {
                proof {
                    lemma_added_grows(steps@, i + 1, steps@.len() as int);
                }
                return false;
            }
            left = left - 2;
        }
        i = i + 1;
    }
    left == 0 || stride < left
}

proof fn lemma_added_grows(steps: Seq<PostProcessorStep>, m: int, n: int)
    requires
        0 <= m <= n,
    ensures
        tokens_added(steps, m) <= tokens_added(steps, n),
    decreases n,
{
    if m < n {
        lemma_added_grows(steps, m, n - 1);
    }
}

/// Whether a padded encoding can be held.
pub fn can_pad(padding: Option<Padding>) -> (r: bool)
    ensures
        r == pads(padding),
{
    let p = match padding {
        Some(p) => p,
        None => {
            return true;
        },
    };
    let fixed_fits = match p.fixed {
        Some(n) => n <= PADDING_LIMIT,
        None => true,
    };
    let multiple_fits = match p.multiple_of {
        Some(n) => n <= PADDING_LIMIT,
        None => true,
    };
    fixed_fits && multiple_fits
}

/// The first part that may stop on some text while encoding, if there is one.
pub fn refused_by_encode(tokenizer: &Tokenizer) -> (r: Option<TokenizerPart>)
    ensures
        r == encode_refusal(*tokenizer),
{
    if !added_tokens_strip_one_side(tokenizer) {
        return Some(TokenizerPart::AddedTokens);
    }
    let normalizers = normalizer_steps(tokenizer);
    if !can_normalize(&normalizers) {
        return Some(TokenizerPart::Normalizer);
    }
    let n: usize = normalizers.len();
    let inserted = n > 0 && step_inserts(&normalizers[n - 1]);
    if !can_pre_tokenize(&pre_tokenizer_steps(tokenizer), inserted) {
        return Some(TokenizerPart::PreTokenizer);
    }
    let post_processors = post_processor_steps(tokenizer);
    if !can_post_process(&post_processors) {
        return Some(TokenizerPart::PostProcessor);
    }
    if !can_truncate(truncation(tokenizer), &post_processors) {
        return Some(TokenizerPart::Truncation);
    }
    if !can_pad(padding(tokenizer)) {
        return Some(TokenizerPart::Padding);
    }
    None
}

// ---------------------------------------------------------------------------
// Decoding
// ---------------------------------------------------------------------------

/// The texts of the first `n` ids that decoding keeps: those in the vocabulary
/// that are not special.
pub open spec fn kept_tokens(tokenizer: Tokenizer, ids: Seq<u32>, n: int) -> Seq<Seq<char>>
    decreases n,
{
    if n <= 0 {
        Seq::empty()
    } else {
        match token_text(tokenizer, ids[n - 1]) {
            Some(text) => if is_special(tokenizer, text) {
                kept_tokens(tokenizer, ids, n - 1)
            } else {
                kept_tokens(tokenizer, ids, n - 1).push(text)
            },
            None => kept_tokens(tokenizer, ids, n - 1),
        }
    }
}

/// Some character of the text is not `c`.
pub open spec fn holds_other(text: Seq<char>, c: char) -> bool {
    exists|i: int| 0 <= i < text.len() && #[trigger] text[i] != c
}

/// Stripping `content` from both ends of a token runs: another character stops
/// it, or there is enough to strip.
pub open spec fn strip_runs(token: Seq<char>, content: char, start: int, stop: int) -> bool {
    holds_other(token, content) || (if start < token.len() {
        start
    } else {
        token.len() as int
    }) + stop <= token.len()
}

/// The step runs. Only the first step of a decoder sees the tokens as they are
/// in the vocabulary; `some` tells that there is a token.
pub open spec fn step_decodes(
    step: DecoderStep,
    first: bool,
    tokens: Seq<Seq<char>>,
    some: bool,
) -> bool {
    match step {
        DecoderStep::Bpe => some,
        DecoderStep::Strip { content, start, stop } => stop == 0 || (first && forall|i: int|
            0 <= i < tokens.len() ==> strip_runs(
                #[trigger] tokens[i],
                content,
                start as int,
                stop as int,
            )),
        DecoderStep::Sequence(_) => false,
        DecoderStep::ByteLevel => true,
        DecoderStep::WordPiece => true,
        DecoderStep::Metaspace => true,
        DecoderStep::Ctc => true,
        DecoderStep::Replace => true,
        DecoderStep::Fuse => true,
        DecoderStep::ByteFallback => true,
    }
}

/// There is a token after the step.
pub open spec fn some_after(step: DecoderStep, some: bool) -> bool {
    match step {
        DecoderStep::Fuse => true,
        DecoderStep::ByteLevel => true,
        DecoderStep::Ctc => false,
        _ => some,
    }
}

/// There is a token before step `n`.
pub open spec fn some_before(steps: Seq<DecoderStep>, tokens: Seq<Seq<char>>, n: int) -> bool
    decreases n,
{
    if n <= 0 {
        tokens.len() > 0
    } else {
        some_after(steps[n - 1], some_before(steps, tokens, n - 1))
    }
}

/// Every step of the decoder runs on the tokens.
pub open spec fn steps_decode(steps: Seq<DecoderStep>, tokens: Seq<Seq<char>>) -> bool {
    forall|i: int|
        0 <= i < steps.len() ==> step_decodes(
            #[trigger] steps[i],
            i == 0,
            tokens,
            some_before(steps, tokens, i),
        )
}

/// Decoding runs on these ids.
pub open spec fn decodes(tokenizer: Tokenizer, ids: Seq<u32>) -> bool {
    steps_decode(
        decoder_steps_of(tokenizer),
        kept_tokens(tokenizer, ids, ids.len() as int),
    )
}

/// The texts of a list of strings.
pub open spec fn views_of(v: Seq<String>) -> Seq<Seq<char>> {
    v.map_values(|s: String| s@)
}

fn kept(tokenizer: &Tokenizer, ids: &[u32]) -> (r: Vec<String>)
    ensures
        views_of(r@) == kept_tokens(*tokenizer, ids@, ids@.len() as int),
{
    let mut out: Vec<String> = Vec::new();
    let mut i: usize = 0;
    assert(views_of(out@) =~= Seq::<Seq<char>>::empty());
    while i < ids.len()
        invariant
            i <= ids@.len(),
            views_of(out@) == kept_tokens(*tokenizer, ids@, i as int),
        decreases ids@.len() - i,
    {
        match id_to_token(tokenizer, ids[i]) {
            Some(text) => {
                if !is_special_token(tokenizer, text.as_str()) {
                    let ghost before = out@;
                    out.push(text);
                    assert(views_of(out@) =~= views_of(before).push(text@));
                }
            },
            None => {},
        }
        i = i + 1;
    }
    out
}

/// Whether `content` can be stripped from both ends of a token.
pub fn can_strip(token: &str, content: char, start: usize, stop: usize) -> (r: bool)
    ensures
        r == strip_runs(token@, content, start as int, stop as int),
{
    let chars = crate::text::chars_of(token);
    let n: usize = chars.len();
    let mut i: usize = 0;
    while i < n
        invariant
            i <= n,
            n == chars@.len(),
            chars@ == token@,
            forall|k: int| 0 <= k < i ==> #[trigger] token@[k] == content,
        decreases n - i,
    {
        if chars[i] != content {
            assert(token@[i as int] != content);
            return true;
        }
        i = i + 1;
    }
    let front: usize = if start < n {
        start
    } else {
        n
    };
    stop <= n - front
}

/// Whether the steps of a decoder run on the tokens.
pub fn can_decode_tokens(steps: &Vec<DecoderStep>, tokens: &Vec<String>) -> (r: bool)
    ensures
        r == steps_decode(steps@, views_of(tokens@)),
{
    let ghost texts = views_of(tokens@);
    let mut some = tokens.len() > 0;
    let mut i: usize = 0;
    while i < steps.len()
        invariant
            i <= steps@.len(),
            texts == views_of(tokens@),
            some == some_before(steps@, texts, i as int),
            forall|k: int|
                0 <= k < i ==> step_decodes(
                    #[trigger] steps@[k],
                    k == 0,
                    texts,
                    some_before(steps@, texts, k),
                ),
        decreases steps@.len() - i,
    {
        let ok = match steps[i] {
            DecoderStep::Bpe => some,
            DecoderStep::Sequence(_) => false,
            DecoderStep::Strip { content, start, stop } => stop == 0 || (i == 0 && all_strip(
                tokens,
                content,
                start,
                stop,
            )),
            _ => true,
        };
        if !ok {
            assert(!step_decodes(steps@[i as int], i == 0, texts, some));
            return false;
        }
        some = match steps[i] {
            DecoderStep::Fuse => true,
            DecoderStep::ByteLevel => true,
            DecoderStep::Ctc => false,
            _ => some,
        };
        i = i + 1;
    }
    true
}

fn all_strip(tokens: &Vec<String>, content: char, start: usize, stop: usize) -> (r: bool)
    ensures
        r == forall|i: int|
            0 <= i < views_of(tokens@).len() ==> strip_runs(
                #[trigger] views_of(tokens@)[i],
                content,
                start as int,
                stop as int,
            ),
{
    let ghost texts = views_of(tokens@);
    let mut i: usize = 0;
    while i < tokens.len()
        invariant
            i <= tokens@.len(),
            texts == views_of(tokens@),
            forall|k: int|
                0 <= k < i ==> strip_runs(
                    #[trigger] texts[k],
                    content,
                    start as int,
                    stop as int,
                ),
        decreases tokens@.len() - i,
    {
        if !can_strip(tokens[i].as_str(), content, start, stop) {
            assert(!strip_runs(texts[i as int], content, start as int, stop as int));
            return false;
        }
        i = i + 1;
    }
    true
}

/// Whether decoding runs on these ids.
pub fn can_decode(tokenizer: &Tokenizer, ids: &[u32]) -> (r: bool)
    ensures
        r == decodes(*tokenizer, ids@),
{
    can_decode_tokens(&decoder_steps(tokenizer), &kept(tokenizer, ids))
}

// ---------------------------------------------------------------------------
// Which tokenizers run
// ---------------------------------------------------------------------------

/// Ordinary tokenizers are not refused: one that normalizes Unicode or case,
/// cuts at bytes, white space, punctuation or a pattern, frames the text like
/// BERT or RoBERTa or not at all, and neither truncates, pads nor strips.
pub proof fn lemma_ordinary_tokenizers_encode(tokenizer: Tokenizer)
    requires
        forall|s: (bool, bool)| #[trigger] added_strips(tokenizer).contains(s) ==> !s.0 && !s.1,
        forall|i: int|
            0 <= i < normalizer_steps_of(tokenizer).len() ==> match #[trigger] normalizer_steps_of(
                tokenizer,
            )[i] {
                NormalizerStep::Bert | NormalizerStep::Nfc | NormalizerStep::Nfd
                | NormalizerStep::Nfkc | NormalizerStep::Nfkd | NormalizerStep::Lowercase
                | NormalizerStep::StripAccents | NormalizerStep::ByteLevel => true,
                _ => false,
            },
        forall|i: int|
            0 <= i < pre_tokenizer_steps_of(tokenizer).len() ==> match #[trigger] pre_tokenizer_steps_of(
                tokenizer,
            )[i] {
                PreTokenizerStep::Bert | PreTokenizerStep::ByteLevel | PreTokenizerStep::Metaspace
                | PreTokenizerStep::Whitespace | PreTokenizerStep::WhitespaceSplit
                | PreTokenizerStep::Split | PreTokenizerStep::Punctuation
                | PreTokenizerStep::Digits => true,
                _ => false,
            },
        forall|i: int|
            0 <= i < post_processor_steps_of(tokenizer).len()
                ==> match #[trigger] post_processor_steps_of(tokenizer)[i] {
                PostProcessorStep::Bert | PostProcessorStep::Roberta
                | PostProcessorStep::ByteLevel => true,
                _ => false,
            },
        truncation_of(tokenizer) is None,
        padding_of(tokenizer) is None,
    ensures
        encode_refusal(tokenizer) is None,
{
    let steps = normalizer_steps_of(tokenizer);
    assert forall|i: int| 0 <= i < steps.len() implies rewrites(#[trigger] steps[i]) && !inserts(
        steps[i],
    ) by {}
    let post = post_processor_steps_of(tokenizer);
    assert forall|i: int| 0 <= i < post.len() implies finishes(#[trigger] post[i]) by {}
    let pre = pre_tokenizer_steps_of(tokenizer);
    assert forall|i: int| 0 <= i < pre.len() implies cuts(#[trigger] pre[i]) by {}
}

/// What is named as refused is what cannot run, and nothing that is looked at
/// before it is; a tokenizer with nothing of the kind is not refused.
pub proof fn lemma_refusal_has_a_reason(tokenizer: Tokenizer)
    ensures
        match encode_refusal(tokenizer) {
            Some(TokenizerPart::AddedTokens) => exists|a: (bool, bool), b: (bool, bool)|
                #[trigger] added_strips(tokenizer).contains(a)
                    && #[trigger] added_strips(tokenizer).contains(b) && a.0 && b.1,
            Some(TokenizerPart::Normalizer) => normalizer_steps_of(tokenizer).len() > 0,
            Some(TokenizerPart::PreTokenizer) => pre_tokenizer_steps_of(tokenizer).len() > 0,
            Some(TokenizerPart::PostProcessor) => post_processor_steps_of(tokenizer).len() > 0,
            Some(TokenizerPart::Truncation) => truncation_of(tokenizer) is Some,
            Some(TokenizerPart::Padding) => padding_of(tokenizer) is Some,
            Some(TokenizerPart::Decoder) => false,
            None => true,
        },
{
}

/// A truncation works exactly when there is room for what is added and, if
/// there is room for more, each window starts after the one before.
pub proof fn lemma_windows_move_on(max_length: usize, stride: usize, added: int)
    ensures
        truncates(Some((max_length, stride)), added) ==> max_length >= added,
        max_length > added ==> (truncates(Some((max_length, stride)), added) <==> (max_length
            - added) - stride > 0),
        max_length == added ==> truncates(Some((max_length, stride)), added),
        truncates(None, added),
{
}

/// A frame of two tokens is added for each step that frames the text.
pub proof fn lemma_frames_add_two_tokens(steps: Seq<PostProcessorStep>, n: int)
    requires
        0 <= n < steps.len(),
    ensures
        steps[n] is Bert || steps[n] is Roberta ==> tokens_added(steps, n + 1) == tokens_added(
            steps,
            n,
        ) + 2,
        !(steps[n] is Bert || steps[n] is Roberta) ==> tokens_added(steps, n + 1) == tokens_added(
            steps,
            n,
        ),
        tokens_added(steps, 0) == 0,
{
}

/// Stripping a token stops only where it runs into nothing: with another
/// character in it, or with as much to strip as is asked for, it runs; a token
/// that is too short for its end and holds nothing else does not.
pub proof fn lemma_stripping_needs_something_to_strip(
    token: Seq<char>,
    content: char,
    start: nat,
    stop: nat,
    i: int,
)
    ensures
        0 <= i < token.len() && token[i] != content ==> strip_runs(
            token,
            content,
            start as int,
            stop as int,
        ),
        token.len() >= start + stop ==> strip_runs(token, content, start as int, stop as int),
        stop == 0 ==> strip_runs(token, content, start as int, stop as int),
        (forall|k: int| 0 <= k < token.len() ==> #[trigger] token[k] == content) && token.len()
            < start + stop && stop > 0 ==> !strip_runs(token, content, start as int, stop as int),
{
}

/// Special tokens and numbers without a token are left out of what is decoded;
/// everything else is kept, in order.
pub proof fn lemma_special_tokens_are_left_out(tokenizer: Tokenizer, ids: Seq<u32>, n: int)
    requires
        0 <= n < ids.len(),
    ensures
        ({
            let before = kept_tokens(tokenizer, ids, n);
            let after = kept_tokens(tokenizer, ids, n + 1);
            match token_text(tokenizer, ids[n]) {
                None => after == before,
                Some(text) => {
                    &&& is_special(tokenizer, text) ==> after == before
                    &&& !is_special(tokenizer, text) ==> after.len() == before.len() + 1
                        && after.last() == text && after.drop_last() == before
                },
            }
        }),
{
    let before = kept_tokens(tokenizer, ids, n);
    let after = kept_tokens(tokenizer, ids, n + 1);
    if after.len() > before.len() {
        assert(after.drop_last() =~= before);
    }
}

} // verus!

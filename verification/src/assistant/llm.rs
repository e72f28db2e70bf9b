//! Text generation around a language model: the prompt template, the streaming
//! token decoder and the decisions of the generation loop.

use crate::assistant::tokenizer_parts::{
    can_decode, decodes, encode_refusal, refused_by_encode, TokenizerPart,
};
use tokenizers::Tokenizer;
use vstd::prelude::*;
use vstd::utf8::{decode_utf8, encode_utf8, is_char_boundary};

verus! {

/// Why a generation ended.
#[derive(Debug, Clone, Copy, PartialEq, Eq, Structural)]
pub enum DoneReason {
    Eos,
    MaxTokens,
    Cancelled,
    Error,
}

/// Streamed by the model thread.
#[derive(Debug, Clone)]
pub enum LlmEvent {
    /// One decoded piece of text.
    Token(String),
    /// Generation finished.
    Done { reason: DoneReason, n_tokens: u32, total_ms: u64, ttft_ms: u64 },
}

/// What can go wrong between tokens and text.
#[derive(Debug, Clone)]
pub enum LlmError {
    /// The tokenizer could not decode the tokens.
    Decode(String),
    /// The tokenizer could not encode the prompt.
    Encode(String),
    /// The vocabulary has no end-of-sequence token.
    NoEosToken,
    /// The text already shown ends inside a character of the new text.
    SplitCharacter,
    /// A part of the tokenizer cannot run on every text.
    Unsupported(TokenizerPart),
}

// ---------------------------------------------------------------------------
// Prompt template
// ---------------------------------------------------------------------------

/// The chat prompt: an optional system turn, the user's turn, and the opening
/// of the assistant's turn.
pub open spec fn qwen_chat(system: Seq<char>, user: Seq<char>) -> Seq<char> {
    let system_turn = if system.len() == 0 {
        Seq::empty()
    } else {
        "<|im_start|>system\n"@ + system + "<|im_end|>\n"@
    };
    system_turn + "<|im_start|>user\n"@ + user + "<|im_end|>\n<|im_start|>assistant\n"@
}

/// Formats the chat prompt.
pub fn format_qwen_chat(system: &str, user: &str) -> (r: String)
    ensures
        r@ == qwen_chat(system@, user@),
{
    let mut s = String::new();
    if !system.is_empty() {
        s.append("<|im_start|>system\n");
        s.append(system);
        s.append("<|im_end|>\n");
    }
    s.append("<|im_start|>user\n");
    s.append(user);
    s.append("<|im_end|>\n<|im_start|>assistant\n");
    assert(s@ =~= qwen_chat(system@, user@));
    s
}

// ---------------------------------------------------------------------------
// Tokenizer
// ---------------------------------------------------------------------------

#[verifier::external_type_specification]
#[verifier::external_body]
pub struct ExTokenizer(tokenizers::Tokenizer);

/// The text of a run of tokens, special tokens left out, as the tokenizer's
/// `decode` gives it; `None` where it fails.
pub uninterp spec fn decoded(tokenizer: Tokenizer, ids: Seq<u32>) -> Option<Seq<char>>;

/// The id of a token in the vocabulary with added tokens, as the tokenizer's
/// `get_vocab` lists it.
pub uninterp spec fn vocab_id(tokenizer: Tokenizer, token: Seq<char>) -> Option<u32>;

/// The tokenizer's `encode` can give `ids` for the text, or fail where `ids` is
/// `None`.
pub uninterp spec fn encodes(tokenizer: Tokenizer, text: Seq<char>, ids: Option<Seq<u32>>) -> bool;

/// `char::is_alphanumeric`.
pub uninterp spec fn alphanumeric(c: char) -> bool;

/// `Tokenizer::decode` without special tokens. The text depends on the
/// tokenizer and the ids alone; the message of an error is left open. Left out
/// are the ids on which a step of the decoder stops, for want of a token or of
/// characters to strip.
#[verifier::external_body]
fn tokenizer_decode(tokenizer: &Tokenizer, ids: &[u32]) -> (r: Result<String, String>)
    requires
        decodes(*tokenizer, ids@),
    ensures
        match r {
            Ok(text) => decoded(*tokenizer, ids@) == Some(text@),
            Err(_) => decoded(*tokenizer, ids@) is None,
        },
{
    tokenizer.decode(ids, true).map_err(|e| e.to_string())
}

/// `Tokenizer::get_vocab` with added tokens, looked up at one token.
#[verifier::external_body]
fn tokenizer_id(tokenizer: &Tokenizer, token: &str) -> (r: Option<u32>)
    ensures
        r == vocab_id(*tokenizer, token@),
{
    tokenizer.get_vocab(true).get(token).copied()
}

/// `Tokenizer::encode` with special tokens. The outcome is one that this call
/// can have on the tokenizer and the text; which one is not said, because a
/// tokenizer whose model merges with dropout draws random numbers here. Left
/// out are the tokenizers with a part whose code stops on some text.
#[verifier::external_body]
fn tokenizer_encode(tokenizer: &Tokenizer, text: &str) -> (r: Result<Vec<u32>, String>)
    requires
        encode_refusal(*tokenizer) is None,
    ensures
        match r {
            Ok(ids) => encodes(*tokenizer, text@, Some(ids@)),
            Err(_) => encodes(*tokenizer, text@, None),
        },
{
    tokenizer.encode(text, true).map(|e| e.get_ids().to_vec()).map_err(|e| e.to_string())
}

/// `char::is_alphanumeric`: the character is a letter or a number in Unicode.
#[verifier::external_body]
fn is_alphanumeric(c: char) -> (r: bool)
    ensures
        r == alphanumeric(c),
{
    c.is_alphanumeric()
}

// ---------------------------------------------------------------------------
// Streaming decoder
// ---------------------------------------------------------------------------

/// The text grew past what was shown.
pub open spec fn grew(prev: Seq<char>, text: Seq<char>) -> bool {
    encode_utf8(text).len() > encode_utf8(prev).len()
}

/// The text grew past what was shown and does not end inside a word.
pub open spec fn piece_ready(prev: Seq<char>, text: Seq<char>) -> bool {
    grew(prev, text) && text.len() > 0 && !alphanumeric(text.last())
}

/// What was shown ends at a character boundary of the text.
pub open spec fn aligned(prev: Seq<char>, text: Seq<char>) -> bool {
    is_char_boundary(encode_utf8(text), encode_utf8(prev).len() as int)
}

/// What the text adds to what was shown.
pub open spec fn added_text(prev: Seq<char>, text: Seq<char>) -> Seq<char> {
    decode_utf8(
        encode_utf8(text).subrange(
            encode_utf8(prev).len() as int,
            encode_utf8(text).len() as int,
        ),
    )
}

/// The part of `text` past the bytes of `prev`.
pub fn text_after(prev: &str, text: &str) -> (r: String)
    requires
        grew(prev@, text@),
        aligned(prev@, text@),
    ensures
        r@ == added_text(prev@, text@),
{
    let n: usize = prev.as_bytes().len();
    let m: usize = text.as_bytes().len();
    let (_, tail) = text.split_at(n);
    proof {
        vstd::utf8::encode_utf8_decode_utf8(tail@);
        assert(encode_utf8(tail@) == encode_utf8(text@).subrange(n as int, m as int));
    }
    tail.to_owned()
}

/// Whether the text grew and ends outside a word.
pub fn ready(prev: &str, text: &str) -> (r: bool)
    ensures
        r == piece_ready(prev@, text@),
{
    let n: usize = prev.as_bytes().len();
    let m: usize = text.as_bytes().len();
    if m <= n {
        return false;
    }
    let chars = crate::text::chars_of(text);
    if chars.len() == 0 {
        return false;
    }
    !is_alphanumeric(chars[chars.len() - 1])
}

/// The text of a window of tokens: none of no tokens, else what the tokenizer
/// decodes them to.
pub open spec fn window_text_of(tokenizer: Tokenizer, ids: Seq<u32>) -> Option<Seq<char>> {
    if ids.len() == 0 {
        Some(Seq::empty())
    } else {
        decoded(tokenizer, ids)
    }
}

/// The text of a window of tokens can be had.
pub open spec fn window_decodes(tokenizer: Tokenizer, ids: Seq<u32>) -> bool {
    ids.len() == 0 || decodes(tokenizer, ids)
}

/// Turns a stream of tokens into pieces of text that never end inside a word.
pub struct TokenOutputStream {
    pub tokenizer: Tokenizer,
    pub tokens: Vec<u32>,
    pub prev_index: usize,
    pub current_index: usize,
}

impl TokenOutputStream {
    pub open spec fn wf(self) -> bool {
        self.prev_index <= self.current_index <= self.tokens@.len()
    }

    /// The tokens shown so far of the running window.
    pub open spec fn shown_window(self) -> Seq<u32> {
        self.tokens@.subrange(self.prev_index as int, self.current_index as int)
    }

    /// The running window with the tokens `tokens`.
    pub open spec fn window(self, tokens: Seq<u32>) -> Seq<u32> {
        tokens.subrange(self.prev_index as int, tokens.len() as int)
    }

    /// The text shown so far of the running window; `None` where it cannot be
    /// decoded.
    pub open spec fn shown(self) -> Option<Seq<char>> {
        window_text_of(self.tokenizer, self.shown_window())
    }

    /// The text of the running window with the tokens `tokens`.
    pub open spec fn window_text(self, tokens: Seq<u32>) -> Option<Seq<char>> {
        window_text_of(self.tokenizer, self.window(tokens))
    }

    /// Decoding runs on what was shown and on the window with `tokens`.
    pub open spec fn decodes_with(self, tokens: Seq<u32>) -> bool {
        window_decodes(self.tokenizer, self.shown_window()) && window_decodes(
            self.tokenizer,
            self.window(tokens),
        )
    }

    /// The stream with one more token and the same window.
    pub open spec fn with_token(self, token: u32, after: Self) -> bool {
        &&& after.tokenizer == self.tokenizer
        &&& after.tokens@ == self.tokens@.push(token)
        &&& after.prev_index == self.prev_index
        &&& after.current_index == self.current_index
    }

    /// The stream with one more token after its text was shown.
    pub open spec fn with_shown_token(self, token: u32, after: Self) -> bool {
        &&& after.tokenizer == self.tokenizer
        &&& after.tokens@ == self.tokens@.push(token)
        &&& after.prev_index == self.current_index
        &&& after.current_index == self.tokens@.len() + 1
    }

    /// What the next token gives and leaves behind.
    pub open spec fn next_token_result(
        self,
        token: u32,
        after: Self,
        r: Result<Option<String>, LlmError>,
    ) -> bool {
        match (self.shown(), self.window_text(self.tokens@.push(token))) {
            (None, _) => r matches Err(LlmError::Decode(_)) && after == self,
            (Some(_), None) => r matches Err(LlmError::Decode(_)) && self.with_token(token, after),
            (Some(prev), Some(text)) => if piece_ready(prev, text) {
                &&& r matches Ok(Some(s)) && s@ == added_text(prev, text)
                &&& self.with_shown_token(token, after)
            } else {
                &&& r matches Ok(None)
                &&& self.with_token(token, after)
            },
        }
    }

    /// The next token can be taken: where its text is ready, what was shown
    /// ends at a character boundary of it.
    pub open spec fn can_take(self, token: u32) -> bool {
        match (self.shown(), self.window_text(self.tokens@.push(token))) {
            (Some(prev), Some(text)) => piece_ready(prev, text) ==> aligned(prev, text),
            _ => true,
        }
    }

    pub fn new(tokenizer: Tokenizer) -> (r: Self)
        ensures
            r.wf(),
            r.tokenizer == tokenizer,
            r.tokens@ == Seq::<u32>::empty(),
            r.prev_index == 0,
            r.current_index == 0,
    {
        TokenOutputStream { tokenizer, tokens: Vec::new(), prev_index: 0, current_index: 0 }
    }

    pub fn tokenizer(&self) -> (r: &Tokenizer)
        ensures
            *r == self.tokenizer,
    {
        &self.tokenizer
    }

    pub fn clear(&mut self)
        ensures
            final(self).wf(),
            final(self).tokenizer == old(self).tokenizer,
            final(self).tokens@ == Seq::<u32>::empty(),
            final(self).prev_index == 0,
            final(self).current_index == 0,
    {
        self.tokens.clear();
        self.prev_index = 0;
        self.current_index = 0;
    }

    fn decode(&self, ids: &[u32]) -> (r: Result<String, LlmError>)
        requires
            window_decodes(self.tokenizer, ids@),
        ensures
            match r {
                Ok(text) => window_text_of(self.tokenizer, ids@) == Some(text@),
                Err(e) => e is Decode && window_text_of(self.tokenizer, ids@) is None,
            },
    {
        if ids.len() == 0 {
            let r = String::new();
            assert(r@ =~= Seq::<char>::empty());
            return Ok(r);
        }
        match tokenizer_decode(&self.tokenizer, ids) {
            Ok(text) => Ok(text),
            Err(message) => Err(LlmError::Decode(message)),
        }
    }

    fn shown_text(&self) -> (r: Result<String, LlmError>)
        requires
            self.wf(),
            window_decodes(self.tokenizer, self.shown_window()),
        ensures
            match r {
                Ok(text) => self.shown() == Some(text@),
                Err(e) => e is Decode && self.shown() is None,
            },
    {
        self.decode(
            vstd::slice::slice_subrange(
                self.tokens.as_slice(),
                self.prev_index,
                self.current_index,
            ),
        )
    }

    fn text_from(&self, tokens: &Vec<u32>) -> (r: Result<String, LlmError>)
        requires
            self.prev_index <= tokens@.len(),
            window_decodes(self.tokenizer, self.window(tokens@)),
        ensures
            match r {
                Ok(text) => self.window_text(tokens@) == Some(text@),
                Err(e) => e is Decode && self.window_text(tokens@) is None,
            },
    {
        self.decode(
            vstd::slice::slice_subrange(tokens.as_slice(), self.prev_index, tokens.len()),
        )
    }

    fn can_decode_with(&self, tokens: &Vec<u32>) -> (r: bool)
        requires
            self.wf(),
            self.prev_index <= tokens@.len(),
        ensures
            r == self.decodes_with(tokens@),
    {
        let shown = vstd::slice::slice_subrange(
            self.tokens.as_slice(),
            self.prev_index,
            self.current_index,
        );
        let all = vstd::slice::slice_subrange(tokens.as_slice(), self.prev_index, tokens.len());
        (shown.len() == 0 || can_decode(&self.tokenizer, shown)) && (all.len() == 0 || can_decode(
            &self.tokenizer,
            all,
        ))
    }

    /// Takes the next token. Gives the text it completes, or nothing while the
    /// text still ends inside a word.
    pub fn next_token(&mut self, token: u32) -> (r: Result<Option<String>, LlmError>)
        requires
            old(self).wf(),
            old(self).tokens@.len() < usize::MAX,
            old(self).decodes_with(old(self).tokens@.push(token)),
            old(self).can_take(token),
        ensures
            final(self).wf(),
            old(self).next_token_result(token, *final(self), r),
    {
        let prev_text = match self.shown_text() {
            Ok(text) => text,
            Err(e) => return Err(e),
        };
        self.tokens.push(token);
        let text = match self.text_from(&self.tokens) {
            Ok(text) => text,
            Err(e) => return Err(e),
        };
        if ready(prev_text.as_str(), text.as_str()) {
            let new = text_after(prev_text.as_str(), text.as_str());
            self.prev_index = self.current_index;
            self.current_index = self.tokens.len();
            Ok(Some(new))
        } else {
            Ok(None)
        }
    }

    /// Takes the next token where the tokenizer can decode the window and the
    /// text can be split off what was shown; otherwise leaves the stream as it
    /// was and says so.
    pub fn try_next_token(&mut self, token: u32) -> (r: Result<Option<String>, LlmError>)
        requires
            old(self).wf(),
            old(self).tokens@.len() < usize::MAX,
        ensures
            final(self).wf(),
            !old(self).decodes_with(old(self).tokens@.push(token)) ==> r == Err::<
                Option<String>,
                LlmError,
            >(LlmError::Unsupported(TokenizerPart::Decoder)) && *final(self) == *old(self),
            old(self).decodes_with(old(self).tokens@.push(token)) && old(self).can_take(token)
                ==> old(self).next_token_result(token, *final(self), r),
            old(self).decodes_with(old(self).tokens@.push(token)) && !old(self).can_take(token)
                ==> r == Err::<Option<String>, LlmError>(LlmError::SplitCharacter)
                && *final(self) == *old(self),
    {
        let mut tokens: Vec<u32> = self.tokens.clone();
        assert(tokens@ =~= self.tokens@);
        tokens.push(token);
        if !self.can_decode_with(&tokens) {
            return Err(LlmError::Unsupported(TokenizerPart::Decoder));
        }
        if let Ok(prev) = self.shown_text() {
            if let Ok(text) = self.text_from(&tokens) {
                let prev = prev.as_str();
                let text = text.as_str();
                if ready(prev, text) && !text.is_char_boundary(prev.as_bytes().len()) {
                    return Err(LlmError::SplitCharacter);
                }
            }
        }
        self.next_token(token)
    }

    /// What the rest of the stream gives.
    pub open spec fn rest_result(self, r: Result<Option<String>, LlmError>) -> bool {
        match (self.shown(), self.window_text(self.tokens@)) {
            (Some(prev), Some(text)) => if grew(prev, text) {
                r matches Ok(Some(s)) && s@ == added_text(prev, text)
            } else {
                r matches Ok(None)
            },
            _ => r matches Err(LlmError::Decode(_)),
        }
    }

    /// The rest can be split off what was shown.
    pub open spec fn can_finish(self) -> bool {
        match (self.shown(), self.window_text(self.tokens@)) {
            (Some(prev), Some(text)) => grew(prev, text) ==> aligned(prev, text),
            _ => true,
        }
    }

    /// The text not yet shown, if any.
    pub fn decode_rest(&self) -> (r: Result<Option<String>, LlmError>)
        requires
            self.wf(),
            self.decodes_with(self.tokens@),
            self.can_finish(),
        ensures
            self.rest_result(r),
    {
        let prev_text = match self.shown_text() {
            Ok(text) => text,
            Err(e) => return Err(e),
        };
        let text = match self.text_from(&self.tokens) {
            Ok(text) => text,
            Err(e) => return Err(e),
        };
        let n: usize = prev_text.as_str().as_bytes().len();
        let m: usize = text.as_str().as_bytes().len();
        if m > n {
            Ok(Some(text_after(prev_text.as_str(), text.as_str())))
        } else {
            Ok(None)
        }
    }

    /// The text not yet shown where the tokenizer can decode the window and the
    /// text can be split off; otherwise says so.
    pub fn try_decode_rest(&self) -> (r: Result<Option<String>, LlmError>)
        requires
            self.wf(),
        ensures
            !self.decodes_with(self.tokens@) ==> r == Err::<Option<String>, LlmError>(
                LlmError::Unsupported(TokenizerPart::Decoder),
            ),
            self.decodes_with(self.tokens@) && self.can_finish() ==> self.rest_result(r),
            self.decodes_with(self.tokens@) && !self.can_finish() ==> r == Err::<
                Option<String>,
                LlmError,
            >(LlmError::SplitCharacter),
    {
        if !self.can_decode_with(&self.tokens) {
            return Err(LlmError::Unsupported(TokenizerPart::Decoder));
        }
        if let Ok(prev) = self.shown_text() {
            if let Ok(text) = self.text_from(&self.tokens) {
                let n: usize = prev.as_str().as_bytes().len();
                let m: usize = text.as_str().as_bytes().len();
                if m > n && !text.as_str().is_char_boundary(n) {
                    return Err(LlmError::SplitCharacter);
                }
            }
        }
        self.decode_rest()
    }

    /// The id of a token, if the vocabulary has it.
    pub fn get_token(&self, s: &str) -> (r: Option<u32>)
        ensures
            r == vocab_id(self.tokenizer, s@),
    {
        tokenizer_id(&self.tokenizer, s)
    }

    /// The id that ends a reply, if the vocabulary has one.
    pub open spec fn ending(self) -> Option<u32> {
        if vocab_id(self.tokenizer, "<|im_end|>"@) is Some {
            vocab_id(self.tokenizer, "<|im_end|>"@)
        } else {
            vocab_id(self.tokenizer, "<|endoftext|>"@)
        }
    }

    /// A reply ends with the chat's own marker where the vocabulary has it, and
    /// with the end of text only where it does not.
    pub proof fn lemma_chat_marker_ends_first(self, id: u32)
        ensures
            vocab_id(self.tokenizer, "<|im_end|>"@) == Some(id) ==> self.ending() == Some(id),
            vocab_id(self.tokenizer, "<|im_end|>"@) is None ==> self.ending() == vocab_id(
                self.tokenizer,
                "<|endoftext|>"@,
            ),
    {
    }

    /// The id that ends a reply: the chat end marker, else the end of text.
    pub fn eos_id(&self) -> (r: Result<u32, LlmError>)
        ensures
            match (
                vocab_id(self.tokenizer, "<|im_end|>"@),
                vocab_id(self.tokenizer, "<|endoftext|>"@),
            ) {
                (Some(id), _) => r == Ok::<u32, LlmError>(id),
                (None, Some(id)) => r == Ok::<u32, LlmError>(id),
                (None, None) => r == Err::<u32, LlmError>(LlmError::NoEosToken),
            },
            r == match self.ending() {
                Some(id) => Ok::<u32, LlmError>(id),
                None => Err::<u32, LlmError>(LlmError::NoEosToken),
            },
    {
        match self.get_token("<|im_end|>") {
            Some(id) => Ok(id),
            None => match self.get_token("<|endoftext|>") {
                Some(id) => Ok(id),
                None => Err(LlmError::NoEosToken),
            },
        }
    }

    /// The token ids that the tokenizer gives for the chat prompt, or its
    /// failure. A tokenizer that cannot encode every text is refused.
    pub fn prompt_ids(&self, system: &str, user: &str) -> (r: Result<Vec<u32>, LlmError>)
        ensures
            match encode_refusal(self.tokenizer) {
                Some(part) => r == Err::<Vec<u32>, LlmError>(LlmError::Unsupported(part)),
                None => match r {
                    Ok(ids) => encodes(self.tokenizer, qwen_chat(system@, user@), Some(ids@)),
                    Err(e) => e is Encode && encodes(
                        self.tokenizer,
                        qwen_chat(system@, user@),
                        None,
                    ),
                },
            },
    {
        if let Some(part) = refused_by_encode(&self.tokenizer) {
            return Err(LlmError::Unsupported(part));
        }
        let prompt = format_qwen_chat(system, user);
        match tokenizer_encode(&self.tokenizer, prompt.as_str()) {
            Ok(ids) => Ok(ids),
            Err(message) => Err(LlmError::Encode(message)),
        }
    }
}

// ---------------------------------------------------------------------------
// What the prompt and the stream hold
// ---------------------------------------------------------------------------

/// The prompt is a row of turns: a system turn where there is one, the user's,
/// and the open turn of the assistant. Each turn opens with its role on a line
/// of its own and, but for the open one, closes with a line of its own; the
/// texts stand in it as they are.
pub proof fn lemma_prompt_is_a_row_of_turns(system: Seq<char>, user: Seq<char>)
    ensures
        ({
            let turn = |role: Seq<char>, text: Seq<char>|
                "<|im_start|>"@ + role + "\n"@ + text + "<|im_end|>"@ + "\n"@;
            let open = "<|im_start|>"@ + "assistant"@ + "\n"@;
            &&& qwen_chat(Seq::empty(), user) == turn("user"@, user) + open
            &&& system.len() > 0 ==> qwen_chat(system, user) == turn("system"@, system) + turn(
                "user"@,
                user,
            ) + open
        }),
{
    reveal_strlit("<|im_start|>");
    reveal_strlit("<|im_end|>");
    reveal_strlit("\n");
    reveal_strlit("user");
    reveal_strlit("system");
    reveal_strlit("assistant");
    reveal_strlit("<|im_start|>system\n");
    reveal_strlit("<|im_end|>\n");
    reveal_strlit("<|im_start|>user\n");
    reveal_strlit("<|im_end|>\n<|im_start|>assistant\n");
    assert("<|im_start|>system\n"@ =~= "<|im_start|>"@ + "system"@ + "\n"@);
    assert("<|im_start|>user\n"@ =~= "<|im_start|>"@ + "user"@ + "\n"@);
    assert("<|im_end|>\n"@ =~= "<|im_end|>"@ + "\n"@);
    assert("<|im_end|>\n<|im_start|>assistant\n"@ =~= "<|im_end|>"@ + "\n"@ + ("<|im_start|>"@
        + "assistant"@ + "\n"@));
    let open = "<|im_start|>"@ + "assistant"@ + "\n"@;
    let user_turn = "<|im_start|>"@ + "user"@ + "\n"@ + user + "<|im_end|>"@ + "\n"@;
    let system_turn = "<|im_start|>"@ + "system"@ + "\n"@ + system + "<|im_end|>"@ + "\n"@;
    assert(qwen_chat(Seq::empty(), user) =~= user_turn + open);
    if system.len() > 0 {
        assert(qwen_chat(system, user) =~= system_turn + user_turn + open);
    }
}

/// What a longer text adds is what comes after the shown one: where the text
/// goes on from what was shown, exactly the rest is added, so that both
/// together are the text; and nothing is shown twice or left out.
pub proof fn lemma_added_text_completes(prev: Seq<char>, more: Seq<char>)
    requires
        more.len() > 0,
    ensures
        grew(prev, prev + more),
        aligned(prev, prev + more),
        added_text(prev, prev + more) == more,
        !grew(prev + more, prev),
        !grew(prev, prev),
{
    let text = prev + more;
    lemma_encode_splits(prev, more);
    let n = encode_utf8(prev).len() as int;
    let bytes = encode_utf8(text);
    let rest = encode_utf8(more);
    assert(rest.len() > 0);
    assert(bytes.subrange(n, bytes.len() as int) =~= rest);
    vstd::utf8::encode_utf8_decode_utf8(more);
    vstd::utf8::encode_utf8_valid_utf8(more);
    vstd::utf8::encode_utf8_valid_utf8(text);
    vstd::utf8::is_char_boundary_start_end_of_seq(rest);
    vstd::utf8::is_char_boundary_iff_not_is_continuation_byte(rest, 0);
    assert(bytes[n] == rest[0]);
    vstd::utf8::is_char_boundary_iff_not_is_continuation_byte(bytes, n);
}

/// The bytes of two texts are those of the one after those of the other.
proof fn lemma_encode_splits(a: Seq<char>, b: Seq<char>)
    ensures
        encode_utf8(a + b) == encode_utf8(a) + encode_utf8(b),
    decreases a.len(),
{
    if a.len() == 0 {
        assert(a + b =~= b);
        assert(encode_utf8(a) + encode_utf8(b) =~= encode_utf8(b));
    } else {
        assert((a + b).drop_first() =~= a.drop_first() + b);
        lemma_encode_splits(a.drop_first(), b);
        assert(encode_utf8(a + b) =~= encode_utf8(a) + encode_utf8(b));
    }
}

/// A piece never ends inside a word: it is given out only where it ends in a
/// character that is neither letter nor digit, and as soon as there is one.
pub proof fn lemma_piece_ends_a_word(prev: Seq<char>, more: Seq<char>)
    requires
        more.len() > 0,
    ensures
        piece_ready(prev, prev + more) <==> !alphanumeric(more.last()),
        !piece_ready(prev, prev),
{
    lemma_added_text_completes(prev, more);
    assert((prev + more).last() == more.last());
}

impl TokenOutputStream {
    /// The window follows the stream: once the text of a token was shown, the
    /// shown window is the tokens that came since the text before it, and no
    /// token is ever dropped from the stream.
    pub proof fn lemma_window_follows(self, token: u32, after: Self)
        requires
            self.wf(),
            self.with_shown_token(token, after) || self.with_token(token, after),
        ensures
            after.tokens@.len() == self.tokens@.len() + 1,
            after.tokens@.last() == token,
            after.tokens@.drop_last() == self.tokens@,
            self.with_shown_token(token, after) ==> after.shown_window()
                == self.tokens@.skip(self.current_index as int).push(token),
            self.with_token(token, after) ==> after.shown_window() == self.shown_window()
                && after.window(after.tokens@) == self.window(self.tokens@).push(token),
    {
        assert(after.tokens@.drop_last() =~= self.tokens@);
        if self.with_shown_token(token, after) {
            assert(after.shown_window() =~= self.tokens@.skip(self.current_index as int).push(
                token,
            ));
        }
        if self.with_token(token, after) {
            assert(after.shown_window() =~= self.shown_window());
            assert(after.window(after.tokens@) =~= self.window(self.tokens@).push(token));
        }
    }
}

impl TokenOutputStream {
    /// Nothing of a reply is held back at its end: where the text of the window
    /// goes on from what was shown, the rest is exactly what it goes on with,
    /// and where it does not there is none.
    pub proof fn lemma_rest_completes_the_text(
        self,
        prev: Seq<char>,
        more: Seq<char>,
        r: Result<Option<String>, LlmError>,
    )
        requires
            self.shown() == Some(prev),
            self.window_text(self.tokens@) == Some(prev + more),
            self.rest_result(r),
        ensures
            self.can_finish(),
            more.len() > 0 ==> (r matches Ok(Some(s)) && s@ == more),
            more.len() == 0 ==> r matches Ok(None),
    {
        if more.len() > 0 {
            lemma_added_text_completes(prev, more);
        } else {
            assert(prev + more =~= prev);
            lemma_added_text_completes(prev, seq!['a']);
        }
    }

    /// A token gives out exactly what its text adds, once that ends outside a
    /// word, and until then nothing; either way the token is taken.
    pub proof fn lemma_token_gives_what_it_adds(
        self,
        token: u32,
        prev: Seq<char>,
        more: Seq<char>,
        after: Self,
        r: Result<Option<String>, LlmError>,
    )
        requires
            self.shown() == Some(prev),
            self.window_text(self.tokens@.push(token)) == Some(prev + more),
            more.len() > 0,
            self.next_token_result(token, after, r),
        ensures
            self.can_take(token),
            !alphanumeric(more.last()) ==> (r matches Ok(Some(s)) && s@ == more),
            alphanumeric(more.last()) ==> r matches Ok(None),
            after.tokens@ == self.tokens@.push(token),
            !alphanumeric(more.last()) ==> after.prev_index == self.current_index
                && after.current_index == after.tokens@.len(),
            alphanumeric(more.last()) ==> after.prev_index == self.prev_index
                && after.current_index == self.current_index,
    {
        lemma_added_text_completes(prev, more);
        lemma_piece_ends_a_word(prev, more);
    }
}

impl TokenOutputStream {
    /// No tokens have no text; any others have what the tokenizer makes of them,
    /// and decoding is asked whether it runs on exactly those.
    pub proof fn lemma_window_is_what_is_decoded(self, tokens: Seq<u32>)
        ensures
            window_text_of(self.tokenizer, Seq::empty()) == Some(Seq::<char>::empty()),
            tokens.len() > 0 ==> window_text_of(self.tokenizer, tokens) == decoded(
                self.tokenizer,
                tokens,
            ),
            self.decodes_with(tokens) ==> {
                &&& self.shown_window().len() > 0 ==> decodes(self.tokenizer, self.shown_window())
                &&& self.window(tokens).len() > 0 ==> decodes(self.tokenizer, self.window(tokens))
            },
            self.shown_window() == self.tokens@.subrange(
                self.prev_index as int,
                self.current_index as int,
            ),
    {
    }

    /// A window that cannot be decoded gives an error and nothing else: if it
    /// is what was shown, the stream stays as it was; if it is the window with
    /// the new token, the token is kept and shown by none.
    pub proof fn lemma_undecodable_window_is_an_error(
        self,
        token: u32,
        after: Self,
        r: Result<Option<String>, LlmError>,
    )
        requires
            self.next_token_result(token, after, r),
        ensures
            self.shown() is None ==> r is Err && after == self,
            self.shown() is Some && self.window_text(self.tokens@.push(token)) is None ==> r is Err
                && after.tokens@ == self.tokens@.push(token) && after.prev_index
                == self.prev_index && after.current_index == self.current_index,
            self.shown() is Some && self.window_text(self.tokens@.push(token)) is Some ==> r is Ok,
            r is Err ==> r->Err_0 is Decode,
    {
    }
}

} // verus!

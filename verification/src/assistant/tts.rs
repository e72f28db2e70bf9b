//! Speech synthesis: which files are used, what the model is prompted with,
//! and how its frames are laid out.

use crate::audio::chunks::append_all;
use crate::engine::svm::ComputeDevice;
use crate::speak::{is_voice_file, lemma_voice_files, voice_stem};
use crate::text::{chars_of, is_blank, is_space, trim_bounds};
use vstd::prelude::*;

verus! {

/// Which of the files that synthesis can use exist.
#[derive(Debug, Clone, Copy, PartialEq, Eq, Structural)]
pub struct TtsFiles {
    /// A model is configured.
    pub configured: bool,
    /// The model file exists.
    pub model: bool,
    /// The voice exists in the configured directory.
    pub voice: bool,
    /// The voice exists beside the model.
    pub sibling_voice: bool,
    /// The configured tokenizer exists.
    pub tokenizer: bool,
    /// A tokenizer exists beside the model.
    pub sibling_tokenizer: bool,
}

/// Where a file is taken from.
#[derive(Debug, Clone, Copy, PartialEq, Eq, Structural)]
pub enum FileSource {
    /// The configured path.
    Configured,
    /// Beside the model.
    Sibling,
}

/// Why the model cannot be used.
#[derive(Debug, Clone, Copy, PartialEq, Eq, Structural)]
pub enum TtsUnavailable {
    NotConfigured,
    ModelMissing,
    VoiceMissing,
    TokenizerMissing,
}

/// What the model is loaded from, and where it runs.
#[derive(Debug, Clone, Copy, PartialEq, Eq, Structural)]
pub struct TtsPlan {
    pub voice: FileSource,
    pub tokenizer: FileSource,
    pub device: ComputeDevice,
}

/// The plan for the files there are, or the first thing that is missing.
pub open spec fn tts_plan(files: TtsFiles, hybrid: bool) -> Result<TtsPlan, TtsUnavailable> {
    if !files.configured {
        Err(TtsUnavailable::NotConfigured)
    } else if !files.model {
        Err(TtsUnavailable::ModelMissing)
    } else if !files.voice && !files.sibling_voice {
        Err(TtsUnavailable::VoiceMissing)
    } else if !files.tokenizer && !files.sibling_tokenizer {
        Err(TtsUnavailable::TokenizerMissing)
    } else {
        Ok(
            TtsPlan {
                voice: if files.voice {
                    FileSource::Configured
                } else {
                    FileSource::Sibling
                },
                tokenizer: if files.tokenizer {
                    FileSource::Configured
                } else {
                    FileSource::Sibling
                },
                device: if hybrid {
                    ComputeDevice::DiscreteGpu(0)
                } else {
                    ComputeDevice::DefaultDevice
                },
            },
        )
    }
}

/// Decides what the model is loaded from. Configured files go before those
/// beside the model.
pub fn plan_load(files: &TtsFiles, hybrid: bool) -> (r: Result<TtsPlan, TtsUnavailable>)
    ensures
        r == tts_plan(*files, hybrid),
{
    if !files.configured {
        return Err(TtsUnavailable::NotConfigured);
    }
    if !files.model {
        return Err(TtsUnavailable::ModelMissing);
    }
    let voice = if files.voice {
        FileSource::Configured
    } else if files.sibling_voice {
        FileSource::Sibling
    } else {
        return Err(TtsUnavailable::VoiceMissing);
    };
    let tokenizer = if files.tokenizer {
        FileSource::Configured
    } else {
        FileSource::Sibling
    };
    if !files.tokenizer && !files.sibling_tokenizer {
        return Err(TtsUnavailable::TokenizerMissing);
    }
    let device = if hybrid {
        ComputeDevice::DiscreteGpu(0)
    } else {
        ComputeDevice::DefaultDevice
    };
    Ok(TtsPlan { voice, tokenizer, device })
}

/// The file of a voice preset.
pub fn voice_file(voice: &str) -> (r: String)
    ensures
        r@ == voice@ + ".safetensors"@,
        voice@.len() > 0 ==> is_voice_file(r@) && voice_stem(r@) == voice@,
{
    proof {
        lemma_voice_files(voice@, voice@);
    }
    let mut s = voice.to_owned();
    s.append(".safetensors");
    s
}

/// What a text is spoken with.
#[derive(Debug, Clone, Copy, PartialEq, Eq, Structural)]
pub enum SpeechSource {
    /// Nothing to say.
    Silence,
    /// The model.
    Model,
    /// A tone in place of the model.
    Blip,
}

/// What a text is spoken with.
pub open spec fn speech_for(text: Seq<char>, model_loaded: bool) -> SpeechSource {
    match (is_blank(text), model_loaded) {
        (true, _) => SpeechSource::Silence,
        (false, true) => SpeechSource::Model,
        (false, false) => SpeechSource::Blip,
    }
}

/// White space alone is never spoken and everything else always is, by the
/// model where there is one and by a tone only where there is none.
pub proof fn lemma_every_text_is_spoken(text: Seq<char>, i: int, model_loaded: bool)
    ensures
        0 <= i < text.len() && !is_space(text[i]) ==> speech_for(text, true)
            == SpeechSource::Model,
        0 <= i < text.len() && !is_space(text[i]) ==> speech_for(text, false)
            == SpeechSource::Blip,
        (forall|k: int| 0 <= k < text.len() ==> is_space(#[trigger] text[k])) ==> speech_for(
            text,
            model_loaded,
        ) == SpeechSource::Silence,
{
}

/// Decides what a text is spoken with: nothing for blank text, the model where
/// it could be loaded, a tone otherwise.
pub fn speech_source(text: &str, model_loaded: bool) -> (r: SpeechSource)
    ensures
        r == speech_for(text@, model_loaded),
        r == if is_blank(text@) {
            SpeechSource::Silence
        } else if model_loaded {
            SpeechSource::Model
        } else {
            SpeechSource::Blip
        },
{
    let chars = chars_of(text);
    let (from, to) = trim_bounds(chars.as_slice());
    proof {
        crate::text::lemma_blank_iff_trim_empty(text@);
    }
    if from == to {
        SpeechSource::Silence
    } else if model_loaded {
        SpeechSource::Model
    } else {
        SpeechSource::Blip
    }
}

/// Marker tokens of the synthesis prompt.
#[derive(Debug, Clone, Copy, PartialEq, Eq, Structural)]
pub struct MarkerTokens {
    pub bos: u32,
    pub begin_audio: u32,
    pub next_audio_text: u32,
    pub repeat_audio_text: u32,
}

/// One part of the synthesis prompt.
#[derive(Debug, Clone)]
pub enum PromptPart {
    /// The embeddings of these tokens.
    Tokens(Vec<i32>),
    /// The voice embedding.
    Voice,
}

/// The parts of a prompt, without the vectors that hold them.
pub enum PromptModel {
    Tokens(Seq<i32>),
    Voice,
}

pub open spec fn part_model(p: PromptPart) -> PromptModel {
    match p {
        PromptPart::Tokens(ids) => PromptModel::Tokens(ids@),
        PromptPart::Voice => PromptModel::Voice,
    }
}

/// Token ids as the signed numbers that the embedding takes.
pub open spec fn signed(ids: Seq<u32>) -> Seq<i32> {
    ids.map_values(|id: u32| id as i32)
}

/// The synthesis prompt: the voice between its markers, then the text between
/// its own.
pub open spec fn prompt_parts(m: MarkerTokens, text: Seq<u32>) -> Seq<PromptModel> {
    seq![
        PromptModel::Tokens(seq![m.bos as i32]),
        PromptModel::Tokens(seq![m.begin_audio as i32]),
        PromptModel::Voice,
        PromptModel::Tokens(seq![m.next_audio_text as i32]),
        PromptModel::Tokens(signed(text)),
        PromptModel::Tokens(seq![m.repeat_audio_text as i32]),
        PromptModel::Tokens(seq![m.begin_audio as i32]),
    ]
}

fn one(id: u32) -> (r: PromptPart)
    ensures
        part_model(r) == PromptModel::Tokens(seq![id as i32]),
{
    let mut ids: Vec<i32> = Vec::new();
    ids.push(#[verifier::truncate] (id as i32));
    assert(ids@ =~= seq![id as i32]);
    PromptPart::Tokens(ids)
}

/// The parts of the synthesis prompt for a text.
pub fn tts_prompt(m: &MarkerTokens, text_ids: &[u32]) -> (r: Vec<PromptPart>)
    ensures
        r@.map_values(|p: PromptPart| part_model(p)) == prompt_parts(*m, text_ids@),
{
    let mut ids: Vec<i32> = Vec::new();
    let mut i: usize = 0;
    while i < text_ids.len()
        invariant
            i <= text_ids@.len(),
            ids@.len() == i,
            forall|k: int| 0 <= k < i ==> #[trigger] ids@[k] == text_ids@[k] as i32,
        decreases text_ids@.len() - i,
    {
        ids.push(#[verifier::truncate] (text_ids[i] as i32));
        i = i + 1;
    }
    assert(ids@ =~= signed(text_ids@));
    let mut r: Vec<PromptPart> = Vec::new();
    r.push(one(m.bos));
    r.push(one(m.begin_audio));
    r.push(PromptPart::Voice);
    r.push(one(m.next_audio_text));
    r.push(PromptPart::Tokens(ids));
    r.push(one(m.repeat_audio_text));
    r.push(one(m.begin_audio));
    assert(r@.map_values(|p: PromptPart| part_model(p)) =~= prompt_parts(*m, text_ids@));
    r
}

/// One generated frame: a semantic index and its acoustic levels.
#[derive(Debug, Clone)]
pub struct CodecFrame<L> {
    pub semantic_idx: usize,
    pub acoustic_levels: Vec<L>,
}

/// All acoustic levels of the first `n` frames, frame after frame.
pub open spec fn levels_of<L>(frames: Seq<CodecFrame<L>>, n: int) -> Seq<L>
    decreases n,
{
    if n <= 0 {
        Seq::empty()
    } else {
        levels_of(frames, n - 1) + frames[n - 1].acoustic_levels@
    }
}

/// The semantic indices of the frames, and all acoustic levels frame after
/// frame: what the codec decodes.
pub fn codec_input<L: Copy>(frames: &Vec<CodecFrame<L>>) -> (r: (Vec<usize>, Vec<L>))
    ensures
        r.0@ == Seq::new(frames@.len(), |i: int| frames@[i].semantic_idx),
        r.1@ == levels_of(frames@, frames@.len() as int),
{
    let mut semantic: Vec<usize> = Vec::new();
    let mut levels: Vec<L> = Vec::new();
    let mut i: usize = 0;
    while i < frames.len()
        invariant
            i <= frames@.len(),
            semantic@ == Seq::new(i as nat, |k: int| frames@[k].semantic_idx),
            levels@ == levels_of(frames@, i as int),
        decreases frames@.len() - i,
    {
        semantic.push(frames[i].semantic_idx);
        append_all(&mut levels, frames[i].acoustic_levels.as_slice());
        i = i + 1;
        assert(semantic@ =~= Seq::new(i as nat, |k: int| frames@[k].semantic_idx));
    }
    (semantic, levels)
}

/// Synthesis is possible exactly when a model is configured and there, and a
/// voice and a tokenizer are to be had in one of their two places; a file
/// beside the model is taken only for want of the configured one.
pub proof fn lemma_load_needs_its_files(files: TtsFiles, hybrid: bool)
    ensures
        tts_plan(files, hybrid) is Ok <==> files.configured && files.model && (files.voice
            || files.sibling_voice) && (files.tokenizer || files.sibling_tokenizer),
        tts_plan(files, hybrid) matches Ok(plan) ==> {
            &&& plan.voice == FileSource::Configured ==> files.voice
            &&& plan.voice == FileSource::Sibling ==> files.sibling_voice && !files.voice
            &&& plan.tokenizer == FileSource::Configured ==> files.tokenizer
            &&& plan.tokenizer == FileSource::Sibling ==> files.sibling_tokenizer
                && !files.tokenizer
            &&& hybrid <==> plan.device == ComputeDevice::DiscreteGpu(0)
            &&& !hybrid <==> plan.device == ComputeDevice::DefaultDevice
        },
{
}

/// What is reported missing is missing, and nothing that is asked for before
/// it is.
pub proof fn lemma_first_missing_file_is_named(files: TtsFiles, hybrid: bool)
    ensures
        match tts_plan(files, hybrid) {
            Err(TtsUnavailable::NotConfigured) => !files.configured,
            Err(TtsUnavailable::ModelMissing) => files.configured && !files.model,
            Err(TtsUnavailable::VoiceMissing) => files.configured && files.model && !files.voice
                && !files.sibling_voice,
            Err(TtsUnavailable::TokenizerMissing) => files.configured && files.model && (files.voice
                || files.sibling_voice) && !files.tokenizer && !files.sibling_tokenizer,
            Ok(_) => true,
        },
{
}

/// The prompt opens with the beginning of sequence, holds the voice between
/// the beginning of audio and the marker of the text to come, then the whole
/// text in order, and ends in the marker to repeat it and the beginning of
/// audio, where the model goes on.
pub proof fn lemma_prompt_frames_voice_and_text(m: MarkerTokens, text: Seq<u32>, i: int)
    ensures
        ({
            let parts = prompt_parts(m, text);
            let marker = |at: int, id: u32|
                parts[at] matches PromptModel::Tokens(ids) && ids.len() == 1 && ids[0] == id as i32;
            &&& parts.len() == 7
            &&& marker(0, m.bos)
            &&& marker(1, m.begin_audio)
            &&& parts[2] is Voice
            &&& marker(3, m.next_audio_text)
            &&& parts[4] matches PromptModel::Tokens(ids) && ids.len() == text.len() && (0 <= i
                < text.len() ==> ids[i] == text[i] as i32)
            &&& marker(5, m.repeat_audio_text)
            &&& marker(6, m.begin_audio)
        }),
{
}

/// The codec gets every level of every frame, frame after frame: where all
/// frames have `width` levels, level `j` of frame `i` stands at `i * width + j`.
pub proof fn lemma_levels_are_laid_out_by_frame<L>(
    frames: Seq<CodecFrame<L>>,
    width: int,
    n: int,
    i: int,
    j: int,
)
    requires
        0 <= n <= frames.len(),
        forall|k: int|
            0 <= k < frames.len() ==> (#[trigger] frames[k]).acoustic_levels@.len() == width,
        0 <= i < n,
        0 <= j < width,
    ensures
        levels_of(frames, n).len() == n * width,
        0 <= i * width + j < n * width,
        levels_of(frames, n)[i * width + j] == frames[i].acoustic_levels@[j],
    decreases n,
{
    lemma_level_count(frames, width, n);
    lemma_level_count(frames, width, n - 1);
    assert(n * width == (n - 1) * width + width) by (nonlinear_arith);
    assert(0 <= i * width + j < n * width) by (nonlinear_arith)
        requires
            0 <= i < n,
            0 <= j < width,
    ;
    if i < n - 1 {
        lemma_levels_are_laid_out_by_frame(frames, width, n - 1, i, j);
    }
}

proof fn lemma_level_count<L>(frames: Seq<CodecFrame<L>>, width: int, n: int)
    requires
        0 <= n <= frames.len(),
        forall|k: int|
            0 <= k < frames.len() ==> (#[trigger] frames[k]).acoustic_levels@.len() == width,
    ensures
        levels_of(frames, n).len() == n * width,
    decreases n,
{
    if n > 0 {
        lemma_level_count(frames, width, n - 1);
        assert(frames[n - 1].acoustic_levels@.len() == width);
        assert(n * width == (n - 1) * width + width) by (nonlinear_arith);
    } else {
        assert(0 * width == 0) by (nonlinear_arith);
    }
}

} // verus!

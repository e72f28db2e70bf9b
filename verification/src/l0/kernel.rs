//! Kernels: launch geometry and shader translation.

use crate::l0::shader::{is_plain_shader, plain_shader};
use vstd::prelude::*;

verus! {

/// A module loaded on the device, by its handle.
#[derive(Debug, PartialEq, Eq, Structural)]
pub struct L0Module {
    pub handle: usize,
}

/// A kernel of a module, by its handle.
#[derive(Debug)]
pub struct L0Kernel {
    pub handle: usize,
    pub name: String,
}

/// Number of work groups in each direction.
#[allow(non_camel_case_types, non_snake_case)]
#[derive(Debug, Clone, Copy, PartialEq, Eq, Structural)]
pub struct ze_group_count_t {
    pub groupCountX: u32,
    pub groupCountY: u32,
    pub groupCountZ: u32,
}

/// Work items per group in each of the two directions used.
pub const GROUP_SIZE: u32 = 16;

/// Number of groups of `GROUP_SIZE` that cover `n` work items.
pub open spec fn groups_for(n: int) -> int {
    (n + 15) / 16
}

/// The groups cover all work items, and no group is empty.
pub proof fn lemma_groups_cover(n: int)
    requires
        n >= 0,
    ensures
        groups_for(n) * 16 >= n,
        n > 0 ==> (groups_for(n) - 1) * 16 < n,
        n == 0 ==> groups_for(n) == 0,
{
}

/// Groups for a product of `[b, m, k]` activations with `[n, k]` weights: one
/// work item per output.
pub fn matmul_groups(b: u32, m: u32, n: u32) -> (r: ze_group_count_t)
    requires
        n + 15 <= u32::MAX,
        b * m + 15 <= u32::MAX,
    ensures
        r.groupCountX == groups_for(n as int),
        r.groupCountY == groups_for(b * m),
        r.groupCountZ == 1,
{
    proof {
        assert(0 <= b * m) by (nonlinear_arith)
            requires
                b >= 0,
                m >= 0,
        ;
    }
    ze_group_count_t {
        groupCountX: (n + 15) / GROUP_SIZE,
        groupCountY: (b * m + 15) / GROUP_SIZE,
        groupCountZ: 1,
    }
}

/// Byte `k` of a word, lowest first.
pub open spec fn byte_of(word: u32, k: int) -> u8 {
    if k == 0 {
        (word % 256) as u8
    } else if k == 1 {
        ((word / 256) % 256) as u8
    } else if k == 2 {
        ((word / 65536) % 256) as u8
    } else {
        (word / 16777216) as u8
    }
}

/// The words as bytes, lowest byte first.
pub open spec fn le_bytes(words: Seq<u32>) -> Seq<u8> {
    Seq::new(4 * words.len(), |i: int| byte_of(words[i / 4], i % 4))
}

/// The words as bytes, lowest byte first.
pub fn words_to_bytes(words: &[u32]) -> (r: Vec<u8>)
    ensures
        r@ == le_bytes(words@),
{
    let mut out: Vec<u8> = Vec::new();
    let mut i: usize = 0;
    while i < words.len()
        invariant
            i <= words@.len(),
            out@.len() == 4 * i,
            forall|j: int| 0 <= j < 4 * i ==> #[trigger] out@[j] == byte_of(words@[j / 4], j % 4),
        decreases words@.len() - i,
    {
        let w: u32 = words[i];
        out.push((w % 256) as u8);
        out.push(((w / 256) % 256) as u8);
        out.push(((w / 65536) % 256) as u8);
        out.push((w / 16777216) as u8);
        i = i + 1;
    }
    assert(out@ =~= le_bytes(words@));
    out
}

/// The bytes determine the words.
pub proof fn lemma_bytes_determine_words(words: Seq<u32>, i: int)
    requires
        0 <= i < words.len(),
    ensures
        words[i] == le_bytes(words)[4 * i] + 256 * le_bytes(words)[4 * i + 1] + 65536 * le_bytes(
            words,
        )[4 * i + 2] + 16777216 * le_bytes(words)[4 * i + 3],
{
    let w = words[i];
    assert(w == (w % 256) + 256 * ((w / 256) % 256) + 65536 * ((w / 65536) % 256) + 16777216 * (w
        / 16777216));
    assert((4 * i) / 4 == i && (4 * i + 1) / 4 == i && (4 * i + 2) / 4 == i && (4 * i + 3) / 4
        == i);
}

// ---------------------------------------------------------------------------
// Shader translation
// ---------------------------------------------------------------------------

#[verifier::external_type_specification]
#[verifier::external_body]
pub struct ExModule(naga::Module);

#[verifier::external_type_specification]
#[verifier::external_body]
pub struct ExModuleInfo(naga::valid::ModuleInfo);

/// The module that a WGSL source parses to; `None` where it does not parse.
pub uninterp spec fn parsed(source: Seq<char>) -> Option<naga::Module>;

/// The analysis of a valid module with all validation flags and capabilities;
/// `None` where it is not valid.
pub uninterp spec fn validated(module: naga::Module) -> Option<naga::valid::ModuleInfo>;

/// The SPIR-V words of a module in the given language version, without writer
/// flags; `None` where it cannot be written.
pub uninterp spec fn written(
    module: naga::Module,
    info: naga::valid::ModuleInfo,
    major: u8,
    minor: u8,
) -> Option<Seq<u32>>;

/// `naga::front::wgsl::parse_str`. What module a source parses to is left to
/// the parser; so is the message of an error. Only plain shaders are parsed: on
/// other sources the parser's evaluation of constants and its layout of types
/// can stop, and deep nesting can use up the stack.
#[verifier::external_body]
fn parse_wgsl(source: &str) -> (r: Result<naga::Module, String>)
    requires
        plain_shader(source@),
    ensures
        match r {
            Ok(module) => parsed(source@) == Some(module),
            Err(_) => parsed(source@) is None,
        },
{
    naga::front::wgsl::parse_str(source).map_err(|e| format!("{:?}", e))
}

/// `naga::valid::Validator::validate` with all flags and capabilities, on a
/// module that the parser gave for a plain shader.
#[verifier::external_body]
fn validate_module(module: &naga::Module) -> (r: Result<naga::valid::ModuleInfo, String>)
    requires
        exists|source: Seq<char>|
            plain_shader(source) && #[trigger] parsed(source) == Some(*module),
    ensures
        match r {
            Ok(info) => validated(*module) == Some(info),
            Err(_) => validated(*module) is None,
        },
{
    naga::valid::Validator::new(
        naga::valid::ValidationFlags::all(),
        naga::valid::Capabilities::all(),
    ).validate(module).map_err(|e| format!("{:?}", e))
}

/// `naga::back::spv::write_vec` without writer flags, for the module of a plain
/// shader with its own analysis. The writer has no code for some operations on
/// arrays, structures, pointers and built-in results, which no such module has,
/// nor for some that the validator refuses.
#[verifier::external_body]
fn write_spirv(
    module: &naga::Module,
    info: &naga::valid::ModuleInfo,
    major: u8,
    minor: u8,
) -> (r: Result<Vec<u32>, String>)
    requires
        exists|source: Seq<char>|
            plain_shader(source) && #[trigger] parsed(source) == Some(*module),
        validated(*module) == Some(*info),
    ensures
        match r {
            Ok(words) => written(*module, *info, major, minor) == Some(words@),
            Err(_) => written(*module, *info, major, minor) is None,
        },
{
    let options = naga::back::spv::Options {
        lang_version: (major, minor),
        flags: naga::back::spv::WriterFlags::empty(),
        ..Default::default()
    };
    naga::back::spv::write_vec(module, info, &options, None).map_err(|e| format!("{:?}", e))
}

/// Why a shader could not be translated.
#[derive(Debug, Clone)]
pub enum WgslError {
    /// The source is no plain shader.
    NotPlain,
    Parse(String),
    Validation(String),
    Codegen(String),
}

/// SPIR-V version that shaders are translated to.
pub const SPIRV_MAJOR: u8 = 1;

pub const SPIRV_MINOR: u8 = 3;

/// What translating a source gives.
pub open spec fn translates(source: Seq<char>, r: Result<Vec<u8>, WgslError>) -> bool {
    if !plain_shader(source) {
        r matches Err(WgslError::NotPlain)
    } else {
        match parsed(source) {
            None => r matches Err(WgslError::Parse(_)),
            Some(module) => match validated(module) {
                None => r matches Err(WgslError::Validation(_)),
                Some(info) => match written(module, info, SPIRV_MAJOR, SPIRV_MINOR) {
                    None => r matches Err(WgslError::Codegen(_)),
                    Some(words) => r matches Ok(bytes) && bytes@ == le_bytes(words),
                },
            },
        }
    }
}

/// Translates a plain WGSL shader to SPIR-V bytes.
pub fn wgsl_to_spirv(wgsl_source: &str) -> (r: Result<Vec<u8>, WgslError>)
    ensures
        translates(wgsl_source@, r),
{
    if !is_plain_shader(wgsl_source) {
        return Err(WgslError::NotPlain);
    }
    let module = match parse_wgsl(wgsl_source) {
        Ok(module) => module,
        Err(message) => return Err(WgslError::Parse(message)),
    };
    let info = match validate_module(&module) {
        Ok(info) => info,
        Err(message) => return Err(WgslError::Validation(message)),
    };
    match write_spirv(&module, &info, SPIRV_MAJOR, SPIRV_MINOR) {
        Ok(words) => Ok(words_to_bytes(words.as_slice())),
        Err(message) => Err(WgslError::Codegen(message)),
    }
}

/// A plain shader that parses, is valid and can be written for version 1.3 is
/// translated to the bytes of what was written; no other source is translated.
pub proof fn lemma_translation_is_what_was_written(source: Seq<char>, r: Result<Vec<u8>, WgslError>)
    requires
        translates(source, r),
    ensures
        r matches Ok(bytes) ==> {
            &&& plain_shader(source)
            &&& parsed(source) is Some
            &&& validated(parsed(source)->0) is Some
            &&& written(parsed(source)->0, validated(parsed(source)->0)->0, 1, 3) matches Some(
                words,
            ) && bytes@.len() == 4 * words.len() && bytes@ == le_bytes(words)
        },
        plain_shader(source) && parsed(source) is Some && validated(parsed(source)->0) is Some
            && written(parsed(source)->0, validated(parsed(source)->0)->0, 1, 3) is Some
            ==> r is Ok,
{
}

/// A launch has a work item for every output: output `i` of `n` lies in one of
/// the groups, at a place below sixteen in it, and no smaller number of groups
/// would do.
pub proof fn lemma_every_output_has_a_work_item(n: int, i: int)
    requires
        0 <= i < n,
    ensures
        0 <= i / 16 < groups_for(n),
        16 * (groups_for(n) - 1) < n <= 16 * groups_for(n),
{
}

} // verus!

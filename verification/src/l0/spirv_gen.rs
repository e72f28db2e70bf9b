//! Kernel sources and a hand-written SPIR-V module.

use crate::l0::kernel::{byte_of, le_bytes, words_to_bytes};
use vstd::prelude::*;

verus! {

/// The words of the vector-add module: `c[gid] = a[gid] + b[gid]` for `gid < n`.
pub open spec fn vecadd_words() -> Seq<u32> {
    seq![
        0x07230203u32, 0x00010000, 0, 30, 0,
        0x00020011, 6, 0x00020011, 4, 0x00020011, 11,
        0x0003000e, 2, 2,
        0x0006000f, 6, 1, 0x61636576, 0x00006464, 2,
        0x00040047, 2, 11, 28,
        0x00020013, 3, 0x00040015, 4, 32, 0, 0x00030016, 5, 32, 0x00040017, 6, 4, 3,
        0x00040020, 7, 1, 6, 0x00040020, 8, 5, 5,
        0x00070021, 9, 3, 8, 8, 8, 4, 0x00020014, 10,
        0x0004003b, 7, 2, 1,
        0x00050036, 3, 1, 0, 9, 0x00030037, 8, 11, 0x00030037, 8, 12, 0x00030037, 8, 13, 0x00030037, 4, 14,
        0x000200f8, 15, 0x0004003d, 6, 16, 2, 0x00050051, 4, 17, 16, 0,
        0x000500b0, 10, 18, 17, 14, 0x000300f7, 20, 0, 0x000400fa, 18, 19, 20,
        0x000200f8, 19, 0x00050046, 8, 21, 11, 17, 0x0006003d, 5, 22, 21, 2, 4,
        0x00050046, 8, 23, 12, 17, 0x0006003d, 5, 24, 23, 2, 4,
        0x00050081, 5, 25, 22, 24, 0x00050046, 8, 26, 13, 17, 0x0005003e, 26, 25, 2, 4,
        0x000200f9, 20, 0x000200f8, 20, 0x000100fd, 0x00010038,
    ]
}

/// The bytes of the vector-add module. Its kernel is
/// `vecadd(global float* a, global float* b, global float* c, uint n)`.
pub fn generate_vecadd_spirv() -> (r: Vec<u8>)
    ensures
        r@ == le_bytes(vecadd_words()),
{
    let words: Vec<u32> = vec![
        // magic number, version 1.0, generator, bound, schema
        0x07230203, 0x00010000, 0, 30, 0,
        // capabilities Kernel, Addresses, Int64
        0x00020011, 6, 0x00020011, 4, 0x00020011, 11,
        // memory model Physical64 OpenCL
        0x0003000e, 2, 2,
        // entry point Kernel: function 1, the name "vecadd", global id 2
        0x0006000f, 6, 1, 0x61636576, 0x00006464, 2,
        // 2 is the built-in GlobalInvocationId
        0x00040047, 2, 11, 28,
        // types: 3 void, 4 uint, 5 float, 6 vec3 of uint
        0x00020013, 3, 0x00040015, 4, 32, 0, 0x00030016, 5, 32, 0x00040017, 6, 4, 3,
        // pointers: 7 to the global id, 8 to floats of any work group
        0x00040020, 7, 1, 6, 0x00040020, 8, 5, 5,
        // 9 function of three float pointers and a uint; 10 bool
        0x00070021, 9, 3, 8, 8, 8, 4, 0x00020014, 10,
        // variable 2 of the global id
        0x0004003b, 7, 2, 1,
        // function 1 with parameters 11 a, 12 b, 13 c, 14 n
        0x00050036, 3, 1, 0, 9, 0x00030037, 8, 11, 0x00030037, 8, 12, 0x00030037, 8, 13, 0x00030037, 4, 14,
        // block 15: 17 is the first component of the global id
        0x000200f8, 15, 0x0004003d, 6, 16, 2, 0x00050051, 4, 17, 16, 0,
        // if 17 < n go to block 19, else to block 20
        0x000500b0, 10, 18, 17, 14, 0x000300f7, 20, 0, 0x000400fa, 18, 19, 20,
        // block 19: 22 is a[17]
        0x000200f8, 19, 0x00050046, 8, 21, 11, 17, 0x0006003d, 5, 22, 21, 2, 4,
        // 24 is b[17]
        0x00050046, 8, 23, 12, 17, 0x0006003d, 5, 24, 23, 2, 4,
        // c[17] is 22 + 24
        0x00050081, 5, 25, 22, 24, 0x00050046, 8, 26, 13, 17, 0x0005003e, 26, 25, 2, 4,
        // go to block 20, which returns
        0x000200f9, 20, 0x000200f8, 20, 0x000100fd, 0x00010038,
    ];
    assert(words@ =~= vecadd_words());
    words_to_bytes(words.as_slice())
}

/// OpenCL C source of the vector-add kernel.
pub const OPENCL_VECADD: &'static str = r#"
__kernel void vecadd(
    __global const float* a,
    __global const float* b,
    __global float* c,
    const uint n
) {
    uint gid = get_global_id(0);
    if (gid < n) {
        c[gid] = a[gid] + b[gid];
    }
}
"#;

/// OpenCL C source of the product of single-precision activations with Q4_0
/// weights: `output[b, m, n] = sum over k of input[b, m, k] * weights[n, k]`.
pub const OPENCL_Q4_MATMUL: &'static str = r#"
__kernel void q4_matmul(
    __global const uchar* weights,    // Q4_0 packed weights [N, K/32 blocks × 18 bytes]
    __global const float* input,      // Input activations [B, M, K]
    __global float* output,           // Output [B, M, N]
    const uint B,
    const uint M,
    const uint K,
    const uint N,
    const uint blocks_per_row
) {
    uint n = get_global_id(0);
    uint bm = get_global_id(1);
    uint m = bm % M;
    uint b = bm / M;

    if (n >= N || b >= B) return;

    float acc = 0.0f;
    uint input_base = b * M * K + m * K;

    for (uint blk = 0; blk < blocks_per_row; blk++) {
        uint global_block = n * blocks_per_row + blk;
        uint block_byte = global_block * 18;

        // Read fp16 scale (2 bytes at block start) - byte-level for alignment safety
        ushort scale_bits = (ushort)weights[block_byte] | ((ushort)weights[block_byte + 1] << 8);
        // Manual fp16 → f32 decode (avoids vload_half alignment issues)
        uint sign = (scale_bits >> 15) & 1;
        uint exp = (scale_bits >> 10) & 0x1F;
        uint mant = scale_bits & 0x3FF;
        float scale;
        if (exp == 0) {
            scale = ldexp((float)mant, -24);  // subnormal
        } else if (exp == 31) {
            scale = (mant == 0) ? INFINITY : NAN;
        } else {
            scale = ldexp((float)(mant + 1024), (int)exp - 25);
        }
        if (sign) scale = -scale;

        uint k_base = blk * 32;
        uint data_start = block_byte + 2;

        // Process 16 data bytes = 32 nibbles
        // Packing: byte[j] = nibble[j] (low) | nibble[j+16] (high) for j in 0..16
        for (uint j = 0; j < 16; j++) {
            uchar byte_val = weights[data_start + j];
            float w_lo = ((float)(byte_val & 0xF) - 8.0f) * scale;
            float w_hi = ((float)((byte_val >> 4) & 0xF) - 8.0f) * scale;

            uint k_off = input_base + k_base;
            acc += w_lo * input[k_off + j];
            acc += w_hi * input[k_off + j + 16];
        }
    }

    output[b * M * N + m * N + n] = acc;
}
"#;

/// An offline compiler from OpenCL C to SPIR-V.
#[derive(Debug, Clone, Copy, PartialEq, Eq, Structural)]
pub enum OfflineCompiler {
    Ocloc,
    Clang,
}

/// The compiler to try after `tried` failed.
pub open spec fn compiler_after(tried: Option<OfflineCompiler>) -> Option<OfflineCompiler> {
    if tried is None {
        Some(OfflineCompiler::Ocloc)
    } else if tried == Some(OfflineCompiler::Ocloc) {
        Some(OfflineCompiler::Clang)
    } else {
        None
    }
}

/// Both compilers are tried, each once, `ocloc` before `clang`.
pub proof fn lemma_compilers_are_tried_in_turn()
    ensures
        compiler_after(None) == Some(OfflineCompiler::Ocloc),
        compiler_after(compiler_after(None)) == Some(OfflineCompiler::Clang),
        compiler_after(compiler_after(compiler_after(None))) is None,
{
}

/// The compiler to try after `tried` failed: `ocloc` first, then `clang`.
pub fn next_compiler(tried: Option<OfflineCompiler>) -> (r: Option<OfflineCompiler>)
    ensures
        r == compiler_after(tried),
        r == match tried {
            None => Some(OfflineCompiler::Ocloc),
            Some(OfflineCompiler::Ocloc) => Some(OfflineCompiler::Clang),
            Some(OfflineCompiler::Clang) => None,
        },
{
    match tried {
        None => Some(OfflineCompiler::Ocloc),
        Some(OfflineCompiler::Ocloc) => Some(OfflineCompiler::Clang),
        Some(OfflineCompiler::Clang) => None,
    }
}

/// The arguments that compile `source` into `output`.
pub open spec fn compiler_args(
    compiler: OfflineCompiler,
    source: Seq<char>,
    output: Seq<char>,
) -> Seq<Seq<char>> {
    match compiler {
        OfflineCompiler::Ocloc => seq![
            "compile"@,
            "-file"@,
            source,
            "-spirv_input"@,
            "-device"@,
            "tgllp"@,
            "-output"@,
            output,
        ],
        OfflineCompiler::Clang => seq![
            "-cc1"@,
            "-triple"@,
            "spir64-unknown-unknown"@,
            "-emit-spirv"@,
            "-O2"@,
            "-o"@,
            output,
            source,
        ],
    }
}

/// The arguments that compile `source` into `output`.
pub fn args_for(compiler: OfflineCompiler, source: &str, output: &str) -> (r: Vec<String>)
    ensures
        r@.map_values(|s: String| s@) == compiler_args(compiler, source@, output@),
{
    let mut r: Vec<String> = Vec::new();
    match compiler {
        OfflineCompiler::Ocloc => {
            r.push("compile".to_owned());
            r.push("-file".to_owned());
            r.push(source.to_owned());
            r.push("-spirv_input".to_owned());
            r.push("-device".to_owned());
            r.push("tgllp".to_owned());
            r.push("-output".to_owned());
            r.push(output.to_owned());
        },
        OfflineCompiler::Clang => {
            r.push("-cc1".to_owned());
            r.push("-triple".to_owned());
            r.push("spir64-unknown-unknown".to_owned());
            r.push("-emit-spirv".to_owned());
            r.push("-O2".to_owned());
            r.push("-o".to_owned());
            r.push(output.to_owned());
            r.push(source.to_owned());
        },
    }
    assert(r@.map_values(|s: String| s@) =~= compiler_args(compiler, source@, output@));
    r
}

// ---------------------------------------------------------------------------
// What the module computes
// ---------------------------------------------------------------------------

/// A value in a kernel, by how it comes about.
pub enum KernelTerm {
    /// A value that the device provides, by its number.
    BuiltIn(u32),
    /// A parameter of the kernel, by its place.
    Param(nat),
    /// What stands at an address.
    Load(Box<KernelTerm>),
    /// A component of a vector.
    Component(Box<KernelTerm>, u32),
    /// The address of an element.
    Element(Box<KernelTerm>, Box<KernelTerm>),
    /// A sum of floats.
    Sum(Box<KernelTerm>, Box<KernelTerm>),
    /// Whether one number is below another, both without sign.
    Less(Box<KernelTerm>, Box<KernelTerm>),
}

/// Where the reading of a module stands: the word that comes next, what each
/// number stands for, how many parameters there are, what was branched on, and
/// what was stored where.
pub struct KernelRun {
    pub at: int,
    pub env: Map<u32, KernelTerm>,
    pub params: nat,
    pub guards: Seq<KernelTerm>,
    pub stores: Seq<(KernelTerm, KernelTerm)>,
}

/// The run after the next instruction. A word that starts an instruction holds
/// its length in the upper half and its kind in the lower. Instructions that
/// only declare change nothing but the place.
pub open spec fn stepped(words: Seq<u32>, st: KernelRun) -> KernelRun {
    let len = words[st.at] as int / 65536;
    let kind = words[st.at] as int % 65536;
    let a = words[st.at + 1];
    let b = words[st.at + 2];
    let c = words[st.at + 3];
    let d = words[st.at + 4];
    let next = KernelRun { at: st.at + len, ..st };
    if kind == 71 && b == 11 {
        KernelRun { env: st.env.insert(a, KernelTerm::BuiltIn(c)), ..next }
    } else if kind == 55 {
        KernelRun {
            env: st.env.insert(b, KernelTerm::Param(st.params)),
            params: st.params + 1,
            ..next
        }
    } else if kind == 61 {
        KernelRun { env: st.env.insert(b, KernelTerm::Load(Box::new(st.env[c]))), ..next }
    } else if kind == 81 {
        KernelRun { env: st.env.insert(b, KernelTerm::Component(Box::new(st.env[c]), d)), ..next }
    } else if kind == 70 {
        KernelRun {
            env: st.env.insert(
                b,
                KernelTerm::Element(Box::new(st.env[c]), Box::new(st.env[d])),
            ),
            ..next
        }
    } else if kind == 129 {
        KernelRun {
            env: st.env.insert(b, KernelTerm::Sum(Box::new(st.env[c]), Box::new(st.env[d]))),
            ..next
        }
    } else if kind == 176 {
        KernelRun {
            env: st.env.insert(b, KernelTerm::Less(Box::new(st.env[c]), Box::new(st.env[d]))),
            ..next
        }
    } else if kind == 250 {
        KernelRun { guards: st.guards.push(st.env[a]), ..next }
    } else if kind == 62 {
        KernelRun { stores: st.stores.push((st.env[a], st.env[b])), ..next }
    } else {
        next
    }
}

/// The run after `n` instructions, from behind the header.
pub open spec fn ran(words: Seq<u32>, n: nat) -> KernelRun
    decreases n,
{
    if n == 0 {
        KernelRun {
            at: 5,
            env: Map::empty(),
            params: 0,
            guards: Seq::empty(),
            stores: Seq::empty(),
        }
    } else {
        stepped(words, ran(words, (n - 1) as nat))
    }
}

/// The kernel adds: with four parameters, where the number of the work item is
/// below the last, the element of the third at that number becomes the sum of
/// the elements of the first and of the second there; nothing else is stored,
/// and nothing comes before the test. The instructions make up the module to
/// its last word.
#[verifier::rlimit(60)]
pub proof fn lemma_vecadd_adds()
    ensures
        ({
            let end = ran(vecadd_words(), 38);
            let here = KernelTerm::Component(
                Box::new(KernelTerm::Load(Box::new(KernelTerm::BuiltIn(28)))),
                0,
            );
            let element = |p: nat|
                KernelTerm::Element(Box::new(KernelTerm::Param(p)), Box::new(here));
            &&& end.at == vecadd_words().len()
            &&& end.params == 4
            &&& end.guards == seq![KernelTerm::Less(Box::new(here), Box::new(KernelTerm::Param(3)))]
            &&& end.stores == seq![
                (
                    element(2),
                    KernelTerm::Sum(
                        Box::new(KernelTerm::Load(Box::new(element(0)))),
                        Box::new(KernelTerm::Load(Box::new(element(1)))),
                    ),
                ),
            ]
            &&& ran(vecadd_words(), 25).stores.len() == 0
            &&& ran(vecadd_words(), 26).guards.len() == 1
        }),
{
    let w = vecadd_words();
    let here = KernelTerm::Component(
        Box::new(KernelTerm::Load(Box::new(KernelTerm::BuiltIn(28)))),
        0,
    );
    let element = |p: nat| KernelTerm::Element(Box::new(KernelTerm::Param(p)), Box::new(here));
    let sum = KernelTerm::Sum(
        Box::new(KernelTerm::Load(Box::new(element(0)))),
        Box::new(KernelTerm::Load(Box::new(element(1)))),
    );
    let test = KernelTerm::Less(Box::new(here), Box::new(KernelTerm::Param(3)));
    let s0 = ran(w, 0);
    let s1 = ran(w, 1);
    assert(s1 == stepped(w, s0));
    assert(w[5] == 0x00020011);
    assert(s1.at == 7);
    let s2 = ran(w, 2);
    assert(s2 == stepped(w, s1));
    assert(w[7] == 0x00020011);
    assert(s2.at == 9);
    let s3 = ran(w, 3);
    assert(s3 == stepped(w, s2));
    assert(w[9] == 0x00020011);
    assert(s3.at == 11);
    let s4 = ran(w, 4);
    assert(s4 == stepped(w, s3));
    assert(w[11] == 0x0003000e);
    assert(s4.at == 14);
    let s5 = ran(w, 5);
    assert(s5 == stepped(w, s4));
    assert(w[14] == 0x0006000f);
    assert(s5.at == 20);
    let s6 = ran(w, 6);
    assert(s6 == stepped(w, s5));
    assert(w[20] == 0x00040047 && w[21] == 2 && w[22] == 11 && w[23] == 28);
    assert(s6.at == 24);
    assert(s6.env[2] == KernelTerm::BuiltIn(28));
    let s7 = ran(w, 7);
    assert(s7 == stepped(w, s6));
    assert(w[24] == 0x00020013);
    assert(s7.at == 26);
    let s8 = ran(w, 8);
    assert(s8 == stepped(w, s7));
    assert(w[26] == 0x00040015);
    assert(s8.at == 30);
    let s9 = ran(w, 9);
    assert(s9 == stepped(w, s8));
    assert(w[30] == 0x00030016);
    assert(s9.at == 33);
    let s10 = ran(w, 10);
    assert(s10 == stepped(w, s9));
    assert(w[33] == 0x00040017);
    assert(s10.at == 37);
    let s11 = ran(w, 11);
    assert(s11 == stepped(w, s10));
    assert(w[37] == 0x00040020);
    assert(s11.at == 41);
    let s12 = ran(w, 12);
    assert(s12 == stepped(w, s11));
    assert(w[41] == 0x00040020);
    assert(s12.at == 45);
    let s13 = ran(w, 13);
    assert(s13 == stepped(w, s12));
    assert(w[45] == 0x00070021);
    assert(s13.at == 52);
    let s14 = ran(w, 14);
    assert(s14 == stepped(w, s13));
    assert(w[52] == 0x00020014);
    assert(s14.at == 54);
    let s15 = ran(w, 15);
    assert(s15 == stepped(w, s14));
    assert(w[54] == 0x0004003b);
    assert(s15.at == 58);
    let s16 = ran(w, 16);
    assert(s16 == stepped(w, s15));
    assert(w[58] == 0x00050036);
    assert(s16.at == 63);
    let s17 = ran(w, 17);
    assert(s17 == stepped(w, s16));
    assert(w[63] == 0x00030037 && w[64] == 8 && w[65] == 11);
    assert(s17.at == 66);
    assert(s17.env[11] == KernelTerm::Param(0));
    let s18 = ran(w, 18);
    assert(s18 == stepped(w, s17));
    assert(w[66] == 0x00030037 && w[67] == 8 && w[68] == 12);
    assert(s18.at == 69);
    assert(s18.env[12] == KernelTerm::Param(1));
    let s19 = ran(w, 19);
    assert(s19 == stepped(w, s18));
    assert(w[69] == 0x00030037 && w[70] == 8 && w[71] == 13);
    assert(s19.at == 72);
    assert(s19.env[13] == KernelTerm::Param(2));
    let s20 = ran(w, 20);
    assert(s20 == stepped(w, s19));
    assert(w[72] == 0x00030037 && w[73] == 4 && w[74] == 14);
    assert(s20.at == 75);
    assert(s20.env[14] == KernelTerm::Param(3));
    let s21 = ran(w, 21);
    assert(s21 == stepped(w, s20));
    assert(w[75] == 0x000200f8);
    assert(s21.at == 77);
    let s22 = ran(w, 22);
    assert(s22 == stepped(w, s21));
    assert(w[77] == 0x0004003d && w[78] == 6 && w[79] == 16 && w[80] == 2);
    assert(s22.at == 81);
    assert(s22.env[16] == KernelTerm::Load(Box::new(KernelTerm::BuiltIn(28))));
    let s23 = ran(w, 23);
    assert(s23 == stepped(w, s22));
    assert(w[81] == 0x00050051 && w[82] == 4 && w[83] == 17 && w[84] == 16 && w[85] == 0);
    assert(s23.at == 86);
    assert(s23.env[17] == here);
    let s24 = ran(w, 24);
    assert(s24 == stepped(w, s23));
    assert(w[86] == 0x000500b0 && w[87] == 10 && w[88] == 18 && w[89] == 17 && w[90] == 14);
    assert(s24.at == 91);
    assert(s24.env[18] == test);
    let s25 = ran(w, 25);
    assert(s25 == stepped(w, s24));
    assert(w[91] == 0x000300f7);
    assert(s25.at == 94);
    let s26 = ran(w, 26);
    assert(s26 == stepped(w, s25));
    assert(w[94] == 0x000400fa && w[95] == 18);
    assert(s26.at == 98);
    let s27 = ran(w, 27);
    assert(s27 == stepped(w, s26));
    assert(w[98] == 0x000200f8);
    assert(s27.at == 100);
    let s28 = ran(w, 28);
    assert(s28 == stepped(w, s27));
    assert(w[100] == 0x00050046 && w[101] == 8 && w[102] == 21 && w[103] == 11 && w[104] == 17);
    assert(s28.at == 105);
    assert(s28.env[21] == element(0));
    let s29 = ran(w, 29);
    assert(s29 == stepped(w, s28));
    assert(w[105] == 0x0006003d && w[106] == 5 && w[107] == 22 && w[108] == 21);
    assert(s29.at == 111);
    assert(s29.env[22] == KernelTerm::Load(Box::new(element(0))));
    let s30 = ran(w, 30);
    assert(s30 == stepped(w, s29));
    assert(w[111] == 0x00050046 && w[112] == 8 && w[113] == 23 && w[114] == 12 && w[115] == 17);
    assert(s30.at == 116);
    assert(s30.env[23] == element(1));
    let s31 = ran(w, 31);
    assert(s31 == stepped(w, s30));
    assert(w[116] == 0x0006003d && w[117] == 5 && w[118] == 24 && w[119] == 23);
    assert(s31.at == 122);
    assert(s31.env[24] == KernelTerm::Load(Box::new(element(1))));
    let s32 = ran(w, 32);
    assert(s32 == stepped(w, s31));
    assert(w[122] == 0x00050081 && w[123] == 5 && w[124] == 25 && w[125] == 22 && w[126] == 24);
    assert(s32.at == 127);
    assert(s32.env[25] == sum);
    let s33 = ran(w, 33);
    assert(s33 == stepped(w, s32));
    assert(w[127] == 0x00050046 && w[128] == 8 && w[129] == 26 && w[130] == 13 && w[131] == 17);
    assert(s33.at == 132);
    assert(s33.env[26] == element(2));
    let s34 = ran(w, 34);
    assert(s34 == stepped(w, s33));
    assert(w[132] == 0x0005003e && w[133] == 26 && w[134] == 25);
    assert(s34.at == 137);
    let s35 = ran(w, 35);
    assert(s35 == stepped(w, s34));
    assert(w[137] == 0x000200f9);
    assert(s35.at == 139);
    let s36 = ran(w, 36);
    assert(s36 == stepped(w, s35));
    assert(w[139] == 0x000200f8);
    assert(s36.at == 141);
    let s37 = ran(w, 37);
    assert(s37 == stepped(w, s36));
    assert(w[141] == 0x000100fd);
    assert(s37.at == 142);
    let s38 = ran(w, 38);
    assert(s38 == stepped(w, s37));
    assert(w[142] == 0x00010038);
    assert(s38.at == 143);
    assert(s38.guards =~= seq![test]);
    assert(s38.stores =~= seq![(element(2), sum)]);
}

/// The module says what it is: it opens with the magic number, its entry point
/// bears the kernel's name, ended by a zero, and no number in it reaches the
/// bound that it gives.
pub proof fn lemma_vecadd_is_named(i: int)
    requires
        0 <= i < 6,
    ensures
        vecadd_words()[0] == 0x0723_0203,
        vecadd_words()[3] == 30,
        byte_of(vecadd_words()[17 + i / 4], i % 4) == "vecadd"@[i] as u32,
        byte_of(vecadd_words()[18], 2) == 0,
{
    reveal_strlit("vecadd");
    let w = vecadd_words();
    assert(w[0] == 0x0723_0203 && w[3] == 30);
    assert(w[17] == 0x6163_6576);
    assert(w[18] == 0x0000_6464);
    assert(i == 0 || i == 1 || i == 2 || i == 3 || i == 4 || i == 5);
}

} // verus!

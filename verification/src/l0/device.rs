//! Choice of the GPU device.

use crate::text::{chars_of, contains, contains_text, occurs_at};
use vstd::prelude::*;
use vstd::utf8::{decode_utf8, valid_utf8};

verus! {

/// A GPU device and its properties.
#[derive(Debug)]
pub struct L0Device {
    pub handle: usize,
    pub name: String,
    pub vendor_id: u32,
    pub device_id: u32,
    pub max_mem_alloc_size: u64,
    pub num_slices: u32,
    pub num_subslices_per_slice: u32,
    pub num_eus_per_subslice: u32,
}

/// A device with the queue and fence made for it, by their handles.
#[derive(Debug)]
pub struct L0Context {
    pub device: L0Device,
    pub driver: usize,
    pub context: usize,
    pub queue: usize,
    pub fence: usize,
}

/// A device that a driver reports.
#[derive(Debug)]
pub struct Candidate {
    pub driver: usize,
    pub device_type: i32,
    pub device: L0Device,
}

pub const ZE_DEVICE_TYPE_GPU: i32 = 1;

pub const INTEL_VENDOR_ID: u32 = 0x8086;

/// An integrated GPU, going by its name.
pub open spec fn is_integrated_name(name: Seq<char>) -> bool {
    contains_text(name, "UHD"@) || contains_text(name, "Iris"@) || contains_text(
        name,
        "HD Graphics"@,
    )
}

/// An Intel integrated GPU.
pub open spec fn is_preferred(d: L0Device) -> bool {
    d.vendor_id == INTEL_VENDOR_ID && is_integrated_name(d.name@)
}

/// The device chosen among the first `n` candidates: the first GPU, replaced by
/// an Intel integrated one as long as the choice is not an Intel UHD.
pub open spec fn chosen(candidates: Seq<Candidate>, n: int) -> Option<int>
    decreases n,
{
    if n <= 0 {
        None
    } else {
        let c = candidates[n - 1];
        match chosen(candidates, n - 1) {
            None => if c.device_type == ZE_DEVICE_TYPE_GPU {
                Some(n - 1)
            } else {
                None
            },
            Some(i) => if c.device_type == ZE_DEVICE_TYPE_GPU && is_preferred(c.device)
                && !(is_preferred(candidates[i].device) && contains_text(
                candidates[i].device.name@,
                "UHD"@,
            )) {
                Some(n - 1)
            } else {
                Some(i)
            },
        }
    }
}

fn name_contains(name: &String, word: &str) -> (r: bool)
    ensures
        r == contains_text(name@, word@),
{
    let hay = chars_of(name.as_str());
    let needle = chars_of(word);
    contains(hay.as_slice(), needle.as_slice())
}

/// Whether the device is an Intel integrated GPU.
pub fn preferred(d: &L0Device) -> (r: bool)
    ensures
        r == is_preferred(*d),
{
    d.vendor_id == INTEL_VENDOR_ID && (name_contains(&d.name, "UHD") || name_contains(
        &d.name,
        "Iris",
    ) || name_contains(&d.name, "HD Graphics"))
}

/// The index of the device to use; `None` where there is no GPU.
pub fn select_gpu(candidates: &Vec<Candidate>) -> (r: Option<usize>)
    ensures
        match (r, chosen(candidates@, candidates@.len() as int)) {
            (Some(i), Some(j)) => i == j,
            (None, None) => true,
            _ => false,
        },
{
    let mut best: Option<usize> = None;
    let mut i: usize = 0;
    while i < candidates.len()
        invariant
            i <= candidates@.len(),
            match (best, chosen(candidates@, i as int)) {
                (Some(a), Some(b)) => a == b && a < i,
                (None, None) => true,
                _ => false,
            },
        decreases candidates@.len() - i,
    {
        let c = &candidates[i];
        if c.device_type == ZE_DEVICE_TYPE_GPU {
            match best {
                None => {
                    best = Some(i);
                },
                Some(j) => {
                    let settled = preferred(&candidates[j].device) && name_contains(
                        &candidates[j].device.name,
                        "UHD",
                    );
                    if preferred(&c.device) && !settled {
                        best = Some(i);
                    }
                },
            }
        }
        i = i + 1;
    }
    best
}

/// A GPU is chosen wherever there is one, and an Intel integrated GPU wherever
/// there is one.
pub proof fn lemma_choice_prefers_integrated(candidates: Seq<Candidate>, n: int, k: int)
    requires
        0 <= k < n <= candidates.len(),
        candidates[k].device_type == ZE_DEVICE_TYPE_GPU,
    ensures
        chosen(candidates, n) is Some,
        0 <= chosen(candidates, n)->0 < n,
        candidates[chosen(candidates, n)->0].device_type == ZE_DEVICE_TYPE_GPU,
        is_preferred(candidates[k].device) ==> is_preferred(
            candidates[chosen(candidates, n)->0].device,
        ),
    decreases n,
{
    if k < n - 1 {
        lemma_choice_prefers_integrated(candidates, n - 1, k);
    } else {
        lemma_choice_is_gpu(candidates, n - 1);
    }
}

/// What is chosen is a GPU.
proof fn lemma_choice_is_gpu(candidates: Seq<Candidate>, n: int)
    requires
        0 <= n <= candidates.len(),
    ensures
        chosen(candidates, n) matches Some(i) ==> 0 <= i < n && candidates[i].device_type
            == ZE_DEVICE_TYPE_GPU,
    decreases n,
{
    if n > 0 {
        lemma_choice_is_gpu(candidates, n - 1);
    }
}

/// The text that bytes decode to where broken sequences are replaced.
pub uninterp spec fn lossy_text(bytes: Seq<u8>) -> Seq<char>;

/// `String::from_utf8_lossy`: valid UTF-8 is decoded as it is; what replaces a
/// broken sequence is left to it.
#[verifier::external_body]
fn from_utf8_lossy(bytes: &[u8]) -> (r: String)
    ensures
        r@ == lossy_text(bytes@),
        valid_utf8(bytes@) ==> r@ == decode_utf8(bytes@),
{
    String::from_utf8_lossy(bytes).into_owned()
}

/// The bytes before the first zero.
pub open spec fn before_nul(bytes: Seq<u8>) -> Seq<u8>
    decreases bytes.len(),
{
    if bytes.len() == 0 || bytes[0] == 0 {
        Seq::empty()
    } else {
        seq![bytes[0]] + before_nul(bytes.subrange(1, bytes.len() as int))
    }
}

proof fn lemma_before_nul(bytes: Seq<u8>, n: int)
    requires
        0 <= n <= bytes.len(),
        forall|i: int| 0 <= i < n ==> #[trigger] bytes[i] != 0,
        n < bytes.len() ==> bytes[n] == 0,
    ensures
        before_nul(bytes) == bytes.subrange(0, n),
    decreases n,
{
    if n == 0 {
        assert(bytes.subrange(0, 0) =~= Seq::<u8>::empty());
    } else {
        let rest = bytes.subrange(1, bytes.len() as int);
        assert forall|i: int| 0 <= i < n - 1 implies #[trigger] rest[i] != 0 by {
            assert(bytes[i + 1] != 0);
        }
        lemma_before_nul(rest, n - 1);
        assert(bytes.subrange(0, n) =~= seq![bytes[0]] + rest.subrange(0, n - 1));
    }
}

/// The name in a zero-terminated field.
pub fn device_name(field: &[u8]) -> (r: String)
    ensures
        r@ == lossy_text(before_nul(field@)),
        valid_utf8(before_nul(field@)) ==> r@ == decode_utf8(before_nul(field@)),
{
    let mut n: usize = 0;
    while n < field.len() && field[n] != 0
        invariant
            n <= field@.len(),
            forall|i: int| 0 <= i < n ==> #[trigger] field@[i] != 0,
        ensures
            n <= field@.len(),
            forall|i: int| 0 <= i < n ==> #[trigger] field@[i] != 0,
            n < field@.len() ==> field@[n as int] == 0,
        decreases field@.len() - n,
    {
        n = n + 1;
    }
    proof {
        lemma_before_nul(field@, n as int);
    }
    from_utf8_lossy(vstd::slice::slice_subrange(field, 0, n))
}

/// The vendor in a field of `len` bytes, the last of which is a zero. The zero
/// may be left out of the field.
pub fn vendor_name(field: &[u8], len: usize) -> (r: String)
    requires
        len <= field@.len() + 1,
    ensures
        r@ == lossy_text(
            field@.subrange(
                0,
                if len > 0 {
                    len - 1
                } else {
                    0
                },
            ),
        ),
{
    let n: usize = if len > 0 {
        len - 1
    } else {
        0
    };
    from_utf8_lossy(vstd::slice::slice_subrange(field, 0, n))
}

/// Device `d` of platform `p` is an Intel device.
pub open spec fn intel_at(vendors: Seq<Vec<String>>, p: int, d: int) -> bool {
    0 <= p < vendors.len() && 0 <= d < vendors[p]@.len() && contains_text(
        vendors[p]@[d]@,
        "Intel"@,
    )
}

/// The first Intel device, by platform and then by device; `None` where there
/// is none. `vendors` lists the vendors of each platform's devices.
pub fn find_intel(vendors: &Vec<Vec<String>>) -> (r: Option<(usize, usize)>)
    ensures
        match r {
            Some((p, d)) => {
                &&& intel_at(vendors@, p as int, d as int)
                &&& forall|q: int, e: int|
                    q < p || (q == p && e < d) ==> !#[trigger] intel_at(vendors@, q, e)
            },
            None => forall|q: int, e: int| !#[trigger] intel_at(vendors@, q, e),
        },
{
    let mut p: usize = 0;
    while p < vendors.len()
        invariant
            p <= vendors@.len(),
            forall|q: int, e: int| q < p ==> !#[trigger] intel_at(vendors@, q, e),
        decreases vendors@.len() - p,
    {
        let mut d: usize = 0;
        while d < vendors[p].len()
            invariant
                p < vendors@.len(),
                d <= vendors@[p as int]@.len(),
                forall|q: int, e: int|
                    q < p || (q == p && e < d) ==> !#[trigger] intel_at(vendors@, q, e),
            decreases vendors@[p as int]@.len() - d,
        {
            if name_contains(&vendors[p][d], "Intel") {
                return Some((p, d));
            }
            d = d + 1;
        }
        p = p + 1;
    }
    None
}

// ---------------------------------------------------------------------------
// Which device is chosen
// ---------------------------------------------------------------------------

/// A name with one of three words anywhere in it is that of an integrated GPU,
/// and no other is; among those of Intel's number they are preferred.
pub proof fn lemma_integrated_names(before: Seq<char>, after: Seq<char>, d: L0Device)
    ensures
        is_integrated_name(before + "UHD"@ + after),
        is_integrated_name(before + "Iris"@ + after),
        is_integrated_name(before + "HD Graphics"@ + after),
        is_preferred(d) ==> d.vendor_id == 0x8086,
        d.vendor_id == 0x8086 && is_integrated_name(d.name@) ==> is_preferred(d),
        is_integrated_name(d.name@) ==> contains_text(d.name@, "UHD"@) || contains_text(
            d.name@,
            "Iris"@,
        ) || contains_text(d.name@, "HD Graphics"@),
{
    lemma_holds(before, "UHD"@, after);
    lemma_holds(before, "Iris"@, after);
    lemma_holds(before, "HD Graphics"@, after);
}

proof fn lemma_holds(before: Seq<char>, word: Seq<char>, after: Seq<char>)
    ensures
        contains_text(before + word + after, word),
{
    let s = before + word + after;
    let n = before.len() as int;
    assert(s.subrange(n, n + word.len()) =~= word);
    assert(occurs_at(s, word, n));
}

/// The first Intel UHD among the GPUs is chosen where there is one.
pub proof fn lemma_first_uhd_is_chosen(candidates: Seq<Candidate>, n: int, k: int)
    requires
        0 <= k < n <= candidates.len(),
        candidates[k].device_type == 1,
        candidates[k].device.vendor_id == 0x8086,
        contains_text(candidates[k].device.name@, "UHD"@),
        forall|i: int|
            #![trigger candidates[i]]
            0 <= i < k ==> candidates[i].device_type != 1 || candidates[i].device.vendor_id
                != 0x8086 || !contains_text(candidates[i].device.name@, "UHD"@),
    ensures
        chosen(candidates, n) == Some(k),
    decreases n,
{
    if k == n - 1 {
        lemma_choice_is_gpu(candidates, n - 1);
        if let Some(i) = chosen(candidates, n - 1) {
            assert(candidates[i].device_type == 1);
        }
    } else {
        lemma_first_uhd_is_chosen(candidates, n - 1, k);
    }
}

/// Where no GPU is an Intel UHD, the last one that is Intel's and integrated is
/// chosen, if there is one.
pub proof fn lemma_last_integrated_is_chosen(candidates: Seq<Candidate>, n: int, k: int)
    requires
        0 <= k < n <= candidates.len(),
        candidates[k].device_type == 1,
        is_preferred(candidates[k].device),
        forall|i: int|
            #![trigger candidates[i]]
            0 <= i < n && candidates[i].device_type == 1 && is_preferred(candidates[i].device)
                ==> i <= k && !contains_text(candidates[i].device.name@, "UHD"@),
    ensures
        chosen(candidates, n) == Some(k),
    decreases n,
{
    if k == n - 1 {
        lemma_choice_is_gpu(candidates, n - 1);
        if let Some(i) = chosen(candidates, n - 1) {
            assert(candidates[i].device_type == 1);
        }
    } else {
        lemma_last_integrated_is_chosen(candidates, n - 1, k);
        assert(candidates[n - 1] == candidates[n - 1]);
    }
}

/// Where no GPU is Intel's and integrated, the first GPU is chosen, and none
/// where there is no GPU.
pub proof fn lemma_first_gpu_is_chosen(candidates: Seq<Candidate>, n: int, k: int)
    requires
        0 <= n <= candidates.len(),
        forall|i: int|
            #![trigger candidates[i]]
            0 <= i < n && candidates[i].device_type == 1 ==> !is_preferred(candidates[i].device),
    ensures
        0 <= k < n && candidates[k].device_type == 1 && (forall|i: int|
            #![trigger candidates[i]]
            0 <= i < k ==> candidates[i].device_type != 1) ==> chosen(candidates, n) == Some(k),
        (forall|i: int| #![trigger candidates[i]] 0 <= i < n ==> candidates[i].device_type != 1)
            ==> chosen(candidates, n) is None,
    decreases n,
{
    if n > 0 {
        lemma_first_gpu_is_chosen(candidates, n - 1, k);
        lemma_choice_is_gpu(candidates, n - 1);
        assert(candidates[n - 1] == candidates[n - 1]);
        if let Some(i) = chosen(candidates, n - 1) {
            assert(candidates[i].device_type == 1);
        }
    }
}

/// A zero-terminated field ends at its first zero, or with the field.
pub proof fn lemma_field_ends_at_zero(bytes: Seq<u8>)
    ensures
        before_nul(bytes).len() <= bytes.len(),
        forall|i: int|
            0 <= i < before_nul(bytes).len() ==> #[trigger] before_nul(bytes)[i] == bytes[i]
                && bytes[i] != 0,
        before_nul(bytes).len() < bytes.len() ==> bytes[before_nul(bytes).len() as int] == 0,
    decreases bytes.len(),
{
    if bytes.len() > 0 && bytes[0] != 0 {
        let rest = bytes.subrange(1, bytes.len() as int);
        lemma_field_ends_at_zero(rest);
        let all = before_nul(bytes);
        let less = before_nul(rest);
        assert(all == seq![bytes[0]] + less);
        assert forall|i: int| 0 <= i < all.len() implies #[trigger] all[i] == bytes[i] && bytes[i]
            != 0 by {
            if i > 0 {
                assert(all[i] == less[i - 1]);
                assert(rest[i - 1] == bytes[i]);
            }
        }
        if all.len() < bytes.len() {
            assert(rest[less.len() as int] == bytes[all.len() as int]);
        }
    }
}

/// A vendor's name with `Intel` anywhere in it is Intel's.
pub proof fn lemma_intel_by_name(
    vendors: Seq<Vec<String>>,
    p: int,
    d: int,
    before: Seq<char>,
    after: Seq<char>,
)
    requires
        0 <= p < vendors.len(),
        0 <= d < vendors[p]@.len(),
        vendors[p]@[d]@ == before + "Intel"@ + after,
    ensures
        intel_at(vendors, p, d),
{
    lemma_holds(before, "Intel"@, after);
}

/// A device without that word is not Intel's, and where there is no device
/// there is none of Intel's.
pub proof fn lemma_others_are_not_intel(vendors: Seq<Vec<String>>, p: int, d: int)
    ensures
        intel_at(vendors, p, d) ==> 0 <= p < vendors.len() && 0 <= d < vendors[p]@.len(),
        0 <= p < vendors.len() && 0 <= d < vendors[p]@.len() && !contains_text(
            vendors[p]@[d]@,
            "Intel"@,
        ) ==> !intel_at(vendors, p, d),
{
}

} // verus!

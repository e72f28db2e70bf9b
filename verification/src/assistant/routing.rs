//! Tier affinity of voices and early hints from the first tokens of a reply.

use crate::audio::chunks::joined;
use crate::text::{chars_of, contains, contains_text, occurs_at, stands_at};
use vstd::prelude::*;
use vstd::utf8::encode_utf8;

verus! {

/// Where a turn runs.
#[derive(Debug, Clone, Copy, PartialEq, Eq, Structural, Hash)]
pub enum Tier {
    /// Big model on the discrete GPU.
    GpuPrimary,
    /// Small CPU model for utility tasks.
    CpuUtility,
    /// Tiny router model.
    CpuRouter,
}

pub open spec fn tier_label(t: Tier) -> Seq<char> {
    match t {
        Tier::GpuPrimary => "gpu_primary"@,
        Tier::CpuUtility => "cpu_utility"@,
        Tier::CpuRouter => "cpu_router"@,
    }
}

impl Tier {
    pub fn label(self) -> (r: &'static str)
        ensures
            r@ == tier_label(self),
    {
        match self {
            Tier::GpuPrimary => "gpu_primary",
            Tier::CpuUtility => "cpu_utility",
            Tier::CpuRouter => "cpu_router",
        }
    }
}

/// Bounded map from voice to tier that forgets the least recently used voice.
pub struct AgentAffinity {
    capacity: usize,
    /// Least recently used first.
    entries: Vec<(String, Tier)>,
}

/// What an affinity map holds: voices and their tiers, the least recently used
/// first, and how many it may hold.
#[verifier::ext_equal]
pub struct AffinityModel {
    pub capacity: nat,
    pub entries: Seq<(Seq<char>, Tier)>,
}

impl AffinityModel {
    /// Not over capacity, and no voice twice.
    pub open spec fn wf(self) -> bool {
        &&& self.capacity > 0
        &&& self.entries.len() <= self.capacity
        &&& forall|i: int, j: int|
            0 <= i < j < self.entries.len() ==> (#[trigger] self.entries[i]).0 != (
            #[trigger] self.entries[j]).0
    }

    /// The voice stands at position `i`.
    pub open spec fn at(self, voice: Seq<char>, i: int) -> bool {
        0 <= i < self.entries.len() && self.entries[i].0 == voice
    }

    /// The voice is known.
    pub open spec fn knows(self, voice: Seq<char>) -> bool {
        exists|i: int| #[trigger] self.at(voice, i)
    }

    /// The tier of a voice, if it is known.
    pub open spec fn tier_of(self, voice: Seq<char>) -> Option<Tier> {
        if self.knows(voice) {
            Some(self.entries[choose|i: int| #[trigger] self.at(voice, i)].1)
        } else {
            None
        }
    }

    /// The map without the entry that makes room for `voice`: its own, or the
    /// least recently used one where the map is full.
    pub open spec fn make_room(self, voice: Seq<char>) -> Seq<(Seq<char>, Tier)> {
        if self.knows(voice) {
            self.entries.remove(choose|i: int| #[trigger] self.at(voice, i))
        } else if self.entries.len() >= self.capacity {
            self.entries.remove(0)
        } else {
            self.entries
        }
    }

    /// The map after `voice` ran on `tier`: that voice is now the most recent.
    pub open spec fn recorded(self, voice: Seq<char>, tier: Tier) -> AffinityModel {
        AffinityModel {
            capacity: self.capacity,
            entries: self.make_room(voice).push((voice, tier)),
        }
    }
}

impl View for AgentAffinity {
    type V = AffinityModel;

    closed spec fn view(&self) -> AffinityModel {
        AffinityModel {
            capacity: self.capacity as nat,
            entries: self.entries@.map_values(|e: (String, Tier)| (e.0@, e.1)),
        }
    }
}

impl AgentAffinity {
    pub fn new(capacity: usize) -> (r: Self)
        requires
            capacity > 0,
        ensures
            r@.wf(),
            r@.capacity == capacity,
            r@.entries == Seq::<(Seq<char>, Tier)>::empty(),
    {
        let r = AgentAffinity { capacity, entries: Vec::new() };
        assert(r@.entries =~= Seq::<(Seq<char>, Tier)>::empty());
        r
    }

    fn position(&self, voice_id: &str) -> (r: Option<usize>)
        ensures
            r is None <==> !self@.knows(voice_id@),
            r matches Some(i) ==> self@.at(voice_id@, i as int),
    {
        let wanted = voice_id.to_owned();
        let mut i: usize = 0;
        while i < self.entries.len()
            invariant
                wanted@ == voice_id@,
                i <= self.entries@.len(),
                forall|j: int| 0 <= j < i ==> !self@.at(voice_id@, j),
            decreases self.entries@.len() - i,
        {
            assert(self@.entries[i as int].0 == self.entries@[i as int].0@);
            if self.entries[i].0 == wanted {
                assert(self@.at(voice_id@, i as int));
                return Some(i);
            }
            i = i + 1;
        }
        assert forall|j: int| !self@.at(voice_id@, j) by {}
        None
    }

    /// The tier of a voice, or `None` if it is unknown.
    pub fn get(&self, voice_id: &str) -> (r: Option<Tier>)
        requires
            self@.wf(),
        ensures
            r == self@.tier_of(voice_id@),
    {
        match self.position(voice_id) {
            Some(i) => {
                proof {
                    let j = choose|j: int| #[trigger] self@.at(voice_id@, j);
                    assert(i == j);
                }
                Some(self.entries[i].1)
            },
            None => None,
        }
    }

    /// Records that a voice just ran on a tier. A new voice pushes the least
    /// recently used one out of a full map.
    pub fn record(&mut self, voice_id: &str, tier: Tier)
        requires
            old(self)@.wf(),
        ensures
            final(self)@.wf(),
            final(self)@ == old(self)@.recorded(voice_id@, tier),
    {
        let ghost before = self@;
        match self.position(voice_id) {
            Some(i) => {
                proof {
                    let j = choose|j: int| #[trigger] before.at(voice_id@, j);
                    assert(i == j);
                }
                self.entries.remove(i);
            },
            None => {
                if self.entries.len() >= self.capacity {
                    self.entries.remove(0);
                }
            },
        }
        assert(self@.entries =~= before.make_room(voice_id@));
        self.entries.push((voice_id.to_owned(), tier));
        assert(self@ =~= before.recorded(voice_id@, tier));
        proof {
            lemma_recorded_keeps_wf(before, voice_id@, tier);
        }
    }

    pub fn len(&self) -> (r: usize)
        ensures
            r == self@.entries.len(),
    {
        self.entries.len()
    }

    pub fn is_empty(&self) -> (r: bool)
        ensures
            r == (self@.entries.len() == 0),
    {
        self.entries.len() == 0
    }
}

impl Default for AgentAffinity {
    fn default() -> (r: Self)
        ensures
            r@.wf(),
            r@.capacity == 256,
            r@.entries == Seq::<(Seq<char>, Tier)>::empty(),
    {
        Self::new(256)
    }
}

/// Recording keeps the map within its capacity and free of repeated voices.
proof fn lemma_recorded_keeps_wf(m: AffinityModel, voice: Seq<char>, tier: Tier)
    requires
        m.wf(),
    ensures
        m.recorded(voice, tier).wf(),
{
    let room = m.make_room(voice);
    assert forall|j: int| 0 <= j < room.len() implies (#[trigger] room[j]).0 != voice by {
        if m.knows(voice) {
            let i = choose|i: int| #[trigger] m.at(voice, i);
            if j < i {
                assert(room[j] == m.entries[j]);
                assert(m.entries[i].0 == voice);
            } else {
                assert(room[j] == m.entries[j + 1]);
                assert(m.entries[i].0 == voice);
            }
        } else if room[j].0 == voice {
            if m.entries.len() >= m.capacity {
                assert(m.at(voice, j + 1));
            } else {
                assert(m.at(voice, j));
            }
        }
    }
    let out = m.recorded(voice, tier).entries;
    assert forall|i: int, j: int| 0 <= i < j < out.len() implies (#[trigger] out[i]).0 != (
    #[trigger] out[j]).0 by {
        if j < room.len() {
            if m.knows(voice) {
                let k = choose|k: int| #[trigger] m.at(voice, k);
                let a = if i < k { i } else { i + 1 };
                let b = if j < k { j } else { j + 1 };
                assert(out[i] == m.entries[a] && out[j] == m.entries[b]);
            } else if m.entries.len() >= m.capacity {
                assert(out[i] == m.entries[i + 1] && out[j] == m.entries[j + 1]);
            } else {
                assert(out[i] == m.entries[i] && out[j] == m.entries[j]);
            }
        }
    }
}

/// A voice that was just recorded has the tier it ran on.
pub proof fn lemma_get_after_record(m: AffinityModel, voice: Seq<char>, tier: Tier)
    requires
        m.wf(),
    ensures
        m.recorded(voice, tier).tier_of(voice) == Some(tier),
{
    lemma_recorded_keeps_wf(m, voice, tier);
    let out = m.recorded(voice, tier);
    let last = out.entries.len() - 1;
    assert(out.at(voice, last));
    let i = choose|i: int| #[trigger] out.at(voice, i);
    assert(i == last) by {
        if i < last {
            assert(out.entries[i].0 != out.entries[last].0);
        }
    }
}

/// Recording one voice changes no other voice's tier, unless the map was full
/// and that other voice was the least recently used: then it is forgotten.
pub proof fn lemma_record_keeps_others(
    m: AffinityModel,
    voice: Seq<char>,
    tier: Tier,
    other: Seq<char>,
)
    requires
        m.wf(),
        other != voice,
    ensures
        m.recorded(voice, tier).tier_of(other) == if !m.knows(voice) && m.entries.len()
            >= m.capacity && m.entries[0].0 == other {
            None
        } else {
            m.tier_of(other)
        },
{
    lemma_recorded_keeps_wf(m, voice, tier);
    let out = m.recorded(voice, tier);
    let room = m.make_room(voice);
    let gone: int = if m.knows(voice) {
        choose|k: int| #[trigger] m.at(voice, k)
    } else if m.entries.len() >= m.capacity {
        0
    } else {
        m.entries.len() as int
    };
    if m.knows(other) {
        let i = choose|i: int| #[trigger] m.at(other, i);
        if i != gone {
            let j = if i < gone { i } else { i - 1 };
            assert(out.entries[j] == m.entries[i]);
            assert(out.at(other, j));
            let k = choose|k: int| #[trigger] out.at(other, k);
            assert(k == j) by {
                if k < j {
                    assert(out.entries[k].0 != out.entries[j].0);
                } else if j < k {
                    assert(out.entries[j].0 != out.entries[k].0);
                }
            }
            if !m.knows(voice) && m.entries.len() >= m.capacity {
                assert(m.entries[0].0 != m.entries[i].0);
            }
        } else {
            assert forall|k: int| !out.at(other, k) by {
                if out.at(other, k) {
                    assert(k < room.len());
                    let a = if k < gone { k } else { k + 1 };
                    assert(out.entries[k] == m.entries[a]);
                    assert(m.entries[a].0 == m.entries[i].0);
                }
            }
        }
    } else {
        assert forall|k: int| !out.at(other, k) by {
            if out.at(other, k) {
                assert(k < room.len());
                let a = if k < gone { k } else { k + 1 };
                assert(out.entries[k] == m.entries[a]);
                assert(m.at(other, a));
            }
        }
        if !m.knows(voice) && m.entries.len() >= m.capacity && m.entries[0].0 == other {
            assert(m.at(other, 0));
        }
    }
}

/// A hint to prepare a resource before the reply is complete.
#[derive(Debug, Clone)]
pub enum PreWarm {
    /// Swap to this voice for the rest of the reply.
    Voice(String),
    /// Higher synthesis quality, for narration.
    HighQualityTts,
    /// Faster synthesis, for very short replies.
    FastTts,
}

/// Watches the first tokens of a reply and gives at most one hint per turn.
pub struct TokenAheadDispatcher {
    saturated: bool,
    prefix: String,
}

/// The text in lower case, as `str::to_lowercase` gives it.
pub uninterp spec fn lowercased(s: Seq<char>) -> Seq<char>;

/// `str::to_lowercase`: the Unicode lower-case mapping of the text.
#[verifier::external_body]
fn to_lowercase(s: &str) -> (r: String)
    ensures
        r@ == lowercased(s@),
{
    s.to_lowercase()
}

/// Length in bytes of the UTF-8 form.
pub open spec fn byte_len(s: Seq<char>) -> nat {
    encode_utf8(s).len()
}

/// The reply opens a story.
pub open spec fn is_story(lower: Seq<char>) -> bool {
    contains_text(lower, "once upon"@) || contains_text(lower, "let me tell you a story"@)
}

/// The reply opens with a short answer.
pub open spec fn is_short_answer(lower: Seq<char>) -> bool {
    occurs_at(lower, "yes"@, 0) || occurs_at(lower, "no"@, 0) || occurs_at(lower, "sure"@, 0)
        || occurs_at(lower, "ok"@, 0)
}

/// The hint that the text so far gives. `lower` is that text in lower case and
/// `bytes` its length in bytes.
pub open spec fn hint(lower: Seq<char>, bytes: nat) -> Option<PreWarm> {
    if is_story(lower) {
        Some(PreWarm::HighQualityTts)
    } else if is_short_answer(lower) && bytes > 16 {
        Some(PreWarm::FastTts)
    } else {
        None
    }
}

/// The hint that the text so far gives, from its lower-case form and its
/// length in bytes.
pub fn classify(lower: &str, bytes: usize) -> (r: Option<PreWarm>)
    ensures
        r == hint(lower@, bytes as nat),
{
    let p = chars_of(lower);
    let p = p.as_slice();
    if contains(p, chars_of("once upon").as_slice()) || contains(
        p,
        chars_of("let me tell you a story").as_slice(),
    ) {
        return Some(PreWarm::HighQualityTts);
    }
    if (stands_at(p, chars_of("yes").as_slice(), 0) || stands_at(p, chars_of("no").as_slice(), 0)
        || stands_at(p, chars_of("sure").as_slice(), 0) || stands_at(
        p,
        chars_of("ok").as_slice(),
        0,
    )) && bytes > 16 {
        return Some(PreWarm::FastTts);
    }
    None
}

/// What a dispatcher holds: whether its turn is over, and the text so far.
#[verifier::ext_equal]
pub struct DispatchState {
    pub saturated: bool,
    pub prefix: Seq<char>,
}

/// The hint that the next piece gives.
pub open spec fn observed_hint(st: DispatchState, piece: Seq<char>) -> Option<PreWarm> {
    let text = st.prefix + piece;
    if st.saturated || byte_len(text) > 128 {
        None
    } else {
        hint(lowercased(text), byte_len(text))
    }
}

/// The state after the next piece: a hint, or more than 128 bytes without one,
/// ends the turn; then nothing changes any more.
pub open spec fn observed(st: DispatchState, piece: Seq<char>) -> DispatchState {
    if st.saturated {
        st
    } else {
        let text = st.prefix + piece;
        DispatchState {
            saturated: byte_len(text) > 128 || hint(lowercased(text), byte_len(text)) is Some,
            prefix: text,
        }
    }
}

impl View for TokenAheadDispatcher {
    type V = DispatchState;

    closed spec fn view(&self) -> DispatchState {
        DispatchState { saturated: self.saturated, prefix: self.prefix@ }
    }
}

impl TokenAheadDispatcher {
    pub fn new() -> (r: Self)
        ensures
            r@ == (DispatchState { saturated: false, prefix: Seq::empty() }),
    {
        TokenAheadDispatcher { saturated: false, prefix: String::new() }
    }

    /// Takes the next piece of the reply; gives at most one hint per turn.
    pub fn observe(&mut self, piece: &str) -> (r: Option<PreWarm>)
        ensures
            r == observed_hint(old(self)@, piece@),
            final(self)@ == observed(old(self)@, piece@),
    {
        if self.saturated {
            return None;
        }
        self.prefix.append(piece);
        let bytes: usize = self.prefix.as_str().as_bytes().len();
        if bytes > 128 {
            self.saturated = true;
            return None;
        }
        let lower = to_lowercase(self.prefix.as_str());
        let r = classify(lower.as_str(), bytes);
        if r.is_some() {
            self.saturated = true;
        }
        r
    }

    /// Starts a new turn.
    pub fn reset(&mut self)
        ensures
            final(self)@ == (DispatchState { saturated: false, prefix: Seq::empty() }),
    {
        self.saturated = false;
        self.prefix = String::new();
    }
}

impl Default for TokenAheadDispatcher {
    fn default() -> (r: Self)
        ensures
            r@ == (DispatchState { saturated: false, prefix: Seq::empty() }),
    {
        Self::new()
    }
}

/// The state after several pieces.
pub open spec fn observed_all(st: DispatchState, pieces: Seq<Seq<char>>) -> DispatchState
    decreases pieces.len(),
{
    if pieces.len() == 0 {
        st
    } else {
        observed(observed_all(st, pieces.drop_last()), pieces.last())
    }
}

/// At most one hint per turn: after a hint no later piece gives another,
/// whatever came between.
pub proof fn lemma_one_hint_per_turn(
    st: DispatchState,
    piece: Seq<char>,
    between: Seq<Seq<char>>,
    later: Seq<char>,
)
    requires
        observed_hint(st, piece) is Some,
    ensures
        observed_hint(observed_all(observed(st, piece), between), later) is None,
    decreases between.len(),
{
    if between.len() > 0 {
        lemma_one_hint_per_turn(st, piece, between.drop_last(), later);
        lemma_saturated_stays(observed(st, piece), between);
    }
}

proof fn lemma_saturated_stays(st: DispatchState, pieces: Seq<Seq<char>>)
    requires
        st.saturated,
    ensures
        observed_all(st, pieces) == st,
    decreases pieces.len(),
{
    if pieces.len() > 0 {
        lemma_saturated_stays(st, pieces.drop_last());
    }
}

// ---------------------------------------------------------------------------
// What a map remembers of a log of runs
// ---------------------------------------------------------------------------

/// The map of the given capacity after the runs in `log`.
pub open spec fn recorded_all(capacity: nat, log: Seq<(Seq<char>, Tier)>) -> AffinityModel
    decreases log.len(),
{
    if log.len() == 0 {
        AffinityModel { capacity, entries: Seq::empty() }
    } else {
        recorded_all(capacity, log.drop_last()).recorded(log.last().0, log.last().1)
    }
}

/// When `voice` last ran: its last place in the log, -1 where it never did.
pub open spec fn last_run(log: Seq<(Seq<char>, Tier)>, voice: Seq<char>) -> int
    decreases log.len(),
{
    if log.len() == 0 {
        -1
    } else if log.last().0 == voice {
        log.len() - 1
    } else {
        last_run(log.drop_last(), voice)
    }
}

proof fn lemma_last_run(log: Seq<(Seq<char>, Tier)>, voice: Seq<char>)
    ensures
        -1 <= last_run(log, voice) < log.len(),
        last_run(log, voice) >= 0 ==> log[last_run(log, voice)].0 == voice,
        forall|k: int| last_run(log, voice) < k < log.len() ==> (#[trigger] log[k]).0 != voice,
    decreases log.len(),
{
    if log.len() > 0 && log.last().0 != voice {
        let init = log.drop_last();
        lemma_last_run(init, voice);
        assert forall|k: int| last_run(log, voice) < k < log.len() implies (#[trigger] log[k]).0
            != voice by {
            if k < init.len() {
                assert(init[k] == log[k]);
            }
        }
    }
}

/// The entries stand in the order of their last runs, each with the tier of
/// that run; a voice that is not among them last ran before all of them, and
/// they fill the map.
spec fn remembers(m: AffinityModel, log: Seq<(Seq<char>, Tier)>) -> bool {
    &&& forall|i: int|
        #![trigger m.entries[i]]
        0 <= i < m.entries.len() ==> {
            let at = last_run(log, m.entries[i].0);
            at >= 0 && log[at].1 == m.entries[i].1
        }
    &&& forall|i: int, j: int|
        0 <= i < j < m.entries.len() ==> last_run(log, (#[trigger] m.entries[i]).0) < last_run(
            log,
            (#[trigger] m.entries[j]).0,
        )
    &&& forall|voice: Seq<char>, i: int|
        #![trigger m.knows(voice), m.entries[i]]
        last_run(log, voice) >= 0 && !m.knows(voice) && 0 <= i < m.entries.len() ==> last_run(
            log,
            voice,
        ) < last_run(log, m.entries[i].0)
    &&& forall|voice: Seq<char>|
        last_run(log, voice) >= 0 && !#[trigger] m.knows(voice) ==> m.entries.len() == m.capacity
}

proof fn lemma_map_remembers(capacity: nat, log: Seq<(Seq<char>, Tier)>)
    requires
        capacity > 0,
    ensures
        recorded_all(capacity, log).wf(),
        recorded_all(capacity, log).capacity == capacity,
        remembers(recorded_all(capacity, log), log),
    decreases log.len(),
{
    if log.len() > 0 {
        let init = log.drop_last();
        let voice = log.last().0;
        let tier = log.last().1;
        let now = log.len() - 1;
        lemma_map_remembers(capacity, init);
        let m = recorded_all(capacity, init);
        let out = m.recorded(voice, tier);
        lemma_recorded_keeps_wf(m, voice, tier);
        let room = m.make_room(voice);
        let last = room.len() as int;
        let gone: int = if m.knows(voice) {
            choose|k: int| #[trigger] m.at(voice, k)
        } else if m.entries.len() >= m.capacity {
            0
        } else {
            m.entries.len() as int
        };
        assert forall|j: int| 0 <= j < last implies out.entries[j] == m.entries[if j < gone {
            j
        } else {
            j + 1
        }] && (#[trigger] out.entries[j]).0 != voice by {
            assert(out.entries[j].0 != out.entries[last].0);
        }
        assert(out.entries[last] == (voice, tier));
        assert forall|v: Seq<char>| v != voice implies #[trigger] last_run(log, v) == last_run(
            init,
            v,
        ) by {}
        assert(last_run(log, voice) == now);
        assert forall|i: int|
            #![trigger out.entries[i]]
            0 <= i < out.entries.len() implies {
            let at = last_run(log, out.entries[i].0);
            at >= 0 && log[at].1 == out.entries[i].1
        } by {
            if i < last {
                let a = if i < gone { i } else { i + 1 };
                let e = m.entries[a];
                lemma_last_run(init, e.0);
                assert(init[last_run(init, e.0)] == log[last_run(init, e.0)]);
            }
        }
        assert forall|i: int, j: int| 0 <= i < j < out.entries.len() implies last_run(
            log,
            (#[trigger] out.entries[i]).0,
        ) < last_run(log, (#[trigger] out.entries[j]).0) by {
            let a = if i < gone { i } else { i + 1 };
            let e = m.entries[a];
            lemma_last_run(init, e.0);
            if j < last {
                let b = if j < gone { j } else { j + 1 };
                assert(last_run(init, m.entries[a].0) < last_run(init, m.entries[b].0));
            }
        }
        assert forall|v: Seq<char>| last_run(log, v) >= 0 && !#[trigger] out.knows(v) implies {
            &&& out.entries.len() == out.capacity
            &&& forall|i: int|
                0 <= i < out.entries.len() ==> last_run(log, v) < last_run(
                    log,
                    (#[trigger] out.entries[i]).0,
                )
        } by {
            assert(out.at(voice, last));
            assert(v != voice);
            lemma_last_run(init, v);
            if m.knows(v) {
                let k = choose|k: int| #[trigger] m.at(v, k);
                if k != gone {
                    let j = if k < gone { k } else { k - 1 };
                    assert(out.entries[j] == m.entries[k]);
                    assert(out.at(v, j));
                }
                assert(k == gone);
                assert(!m.knows(voice));
                assert(k == 0);
                assert forall|i: int| 0 <= i < out.entries.len() implies last_run(log, v)
                    < last_run(log, (#[trigger] out.entries[i]).0) by {
                    if i < last {
                        assert(out.entries[i] == m.entries[i + 1]);
                        assert(last_run(init, m.entries[0].0) < last_run(init, m.entries[i + 1].0));
                    }
                }
            } else {
                assert(m.entries.len() == m.capacity);
                assert forall|i: int| 0 <= i < out.entries.len() implies last_run(log, v)
                    < last_run(log, (#[trigger] out.entries[i]).0) by {
                    if i < last {
                        let a = if i < gone { i } else { i + 1 };
                        assert(out.entries[i] == m.entries[a]);
                        assert(!m.knows(v));
                        assert(last_run(init, v) < last_run(init, m.entries[a].0));
                    }
                }
            }
        }
        assert forall|v: Seq<char>, i: int|
            #![trigger out.knows(v), out.entries[i]]
            last_run(log, v) >= 0 && !out.knows(v) && 0 <= i < out.entries.len() implies last_run(
            log,
            v,
        ) < last_run(log, out.entries[i].0) by {}
        assert(remembers(out, log));
    }
}

/// A map remembers the voices that ran most recently, with the tier of their
/// last run. A voice that never ran is unknown; one that ran and is forgotten
/// has made way for as many others as the map holds, each of which ran after
/// it.
pub proof fn lemma_recent_voices_are_remembered(
    capacity: nat,
    log: Seq<(Seq<char>, Tier)>,
    voice: Seq<char>,
)
    requires
        capacity > 0,
    ensures
        ({
            let m = recorded_all(capacity, log);
            let at = last_run(log, voice);
            &&& m.tier_of(voice) matches Some(tier) ==> at >= 0 && log[at] == (voice, tier)
            &&& at >= 0 && m.tier_of(voice) is None ==> {
                &&& m.entries.len() == capacity
                &&& forall|i: int|
                    0 <= i < m.entries.len() ==> at < last_run(log, (#[trigger] m.entries[i]).0)
            }
            &&& m.entries.len() <= capacity
            &&& forall|i: int, j: int|
                0 <= i < j < m.entries.len() ==> (#[trigger] m.entries[i]).0 != (
                #[trigger] m.entries[j]).0
        }),
        forall|k: int| last_run(log, voice) < k < log.len() ==> (#[trigger] log[k]).0 != voice,
{
    lemma_map_remembers(capacity, log);
    lemma_last_run(log, voice);
    let m = recorded_all(capacity, log);
    if m.knows(voice) {
        let i = choose|i: int| #[trigger] m.at(voice, i);
        assert(m.entries[i].0 == voice);
    }
}

// ---------------------------------------------------------------------------
// What gives a hint
// ---------------------------------------------------------------------------

/// A story is told with high quality wherever in the text it is announced.
pub proof fn lemma_story_is_told_well(before: Seq<char>, after: Seq<char>, bytes: nat)
    ensures
        hint(before + "once upon"@ + after, bytes) == Some(PreWarm::HighQualityTts),
        hint(before + "let me tell you a story"@ + after, bytes) == Some(PreWarm::HighQualityTts),
{
    let a = before + "once upon"@ + after;
    let b = before + "let me tell you a story"@ + after;
    let n = before.len() as int;
    assert(a.subrange(n, n + "once upon"@.len()) =~= "once upon"@);
    assert(b.subrange(n, n + "let me tell you a story"@.len()) =~= "let me tell you a story"@);
    assert(occurs_at(a, "once upon"@, n));
    assert(occurs_at(b, "let me tell you a story"@, n));
}

/// A text that opens with a short answer and goes on past sixteen bytes is
/// spoken fast, unless it tells a story; up to sixteen bytes it gives no hint.
pub proof fn lemma_short_answer_is_spoken_fast(after: Seq<char>, bytes: nat)
    ensures
        ({
            let answered = |text: Seq<char>| match hint(text, bytes) {
                Some(PreWarm::FastTts) => bytes > 16,
                Some(PreWarm::HighQualityTts) => true,
                Some(PreWarm::Voice(_)) => false,
                None => bytes <= 16,
            };
            &&& answered("yes"@ + after)
            &&& answered("no"@ + after)
            &&& answered("sure"@ + after)
            &&& answered("ok"@ + after)
        }),
{
    assert(("yes"@ + after).subrange(0, "yes"@.len() as int) =~= "yes"@);
    assert(("no"@ + after).subrange(0, "no"@.len() as int) =~= "no"@);
    assert(("sure"@ + after).subrange(0, "sure"@.len() as int) =~= "sure"@);
    assert(("ok"@ + after).subrange(0, "ok"@.len() as int) =~= "ok"@);
    assert(occurs_at("yes"@ + after, "yes"@, 0));
    assert(occurs_at("no"@ + after, "no"@, 0));
    assert(occurs_at("sure"@ + after, "sure"@, 0));
    assert(occurs_at("ok"@ + after, "ok"@, 0));
}

/// Nothing else gives a hint: high quality only where a story is announced,
/// speed only where a short answer opens the text.
pub proof fn lemma_hint_has_a_reason(lower: Seq<char>, bytes: nat)
    ensures
        match hint(lower, bytes) {
            Some(PreWarm::HighQualityTts) => exists|before: Seq<char>, after: Seq<char>|
                lower == #[trigger] (before + "once upon"@ + after) || lower == before
                    + "let me tell you a story"@ + after,
            Some(PreWarm::FastTts) => bytes > 16 && (exists|after: Seq<char>|
                lower == #[trigger] ("yes"@ + after) || lower == "no"@ + after || lower == "sure"@
                    + after || lower == "ok"@ + after),
            Some(PreWarm::Voice(_)) => false,
            None => true,
        },
{
    if contains_text(lower, "once upon"@) {
        let at = choose|at: int| occurs_at(lower, "once upon"@, at);
        let (before, after) = lemma_occurrence_splits(lower, "once upon"@, at);
        assert(lower == before + "once upon"@ + after);
    } else if contains_text(lower, "let me tell you a story"@) {
        let at = choose|at: int| occurs_at(lower, "let me tell you a story"@, at);
        let (before, after) = lemma_occurrence_splits(lower, "let me tell you a story"@, at);
        let other = before + "once upon"@ + after;
        assert(lower == before + "let me tell you a story"@ + after);
    } else if is_short_answer(lower) {
        let word = if occurs_at(lower, "yes"@, 0) {
            "yes"@
        } else if occurs_at(lower, "no"@, 0) {
            "no"@
        } else if occurs_at(lower, "sure"@, 0) {
            "sure"@
        } else {
            "ok"@
        };
        let (before, after) = lemma_occurrence_splits(lower, word, 0);
        assert(before + word + after =~= word + after);
        let yes = "yes"@ + after;
    }
}

proof fn lemma_occurrence_splits(hay: Seq<char>, needle: Seq<char>, at: int) -> (r: (
    Seq<char>,
    Seq<char>,
))
    requires
        occurs_at(hay, needle, at),
    ensures
        r.0.len() == at,
        hay == r.0 + needle + r.1,
{
    let before = hay.subrange(0, at);
    let after = hay.subrange(at + needle.len(), hay.len() as int);
    assert(hay =~= before + hay.subrange(at, at + needle.len()) + after);
    (before, after)
}

/// Until a turn is over the dispatcher reads all of its text, however it is
/// divided into pieces; a hint comes only while that text has at most 128
/// bytes, and a longer text ends the turn.
pub proof fn lemma_hint_reads_the_whole_text(pieces: Seq<Seq<char>>, piece: Seq<char>)
    requires
        !observed_all(
            DispatchState { saturated: false, prefix: Seq::empty() },
            pieces,
        ).saturated,
    ensures
        ({
            let st = observed_all(
                DispatchState { saturated: false, prefix: Seq::empty() },
                pieces,
            );
            let text = joined(pieces) + piece;
            &&& st.prefix == joined(pieces)
            &&& encode_utf8(text).len() <= 128 ==> observed_hint(st, piece) == hint(
                lowercased(text),
                encode_utf8(text).len(),
            )
            &&& encode_utf8(text).len() > 128 ==> observed_hint(st, piece) is None && observed(
                st,
                piece,
            ).saturated
            &&& encode_utf8(text).len() <= 128 ==> (observed(st, piece).saturated <==> hint(
                lowercased(text),
                encode_utf8(text).len(),
            ) is Some)
            &&& observed(st, piece).prefix == text
        }),
    decreases pieces.len(),
{
    let fresh = DispatchState { saturated: false, prefix: Seq::empty() };
    if pieces.len() > 0 {
        let init = pieces.drop_last();
        let before = observed_all(fresh, init);
        assert(!before.saturated);
        lemma_hint_reads_the_whole_text(init, pieces.last());
        assert(observed_all(fresh, pieces).prefix =~= joined(pieces));
    } else {
        assert(observed_all(fresh, pieces).prefix =~= joined(pieces));
    }
}

/// No two tiers share a label.
pub proof fn lemma_tier_labels_differ(a: Tier, b: Tier)
    ensures
        tier_label(a) == tier_label(b) ==> a == b,
{
    reveal_strlit("gpu_primary");
    reveal_strlit("cpu_utility");
    reveal_strlit("cpu_router");
    assert("gpu_primary"@[0] == 'g' && "cpu_utility"@[0] == 'c' && "cpu_router"@[0] == 'c');
    assert("cpu_utility"@.len() == 11 && "cpu_router"@.len() == 10);
}

} // verus!

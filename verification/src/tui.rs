//! Terminal interface: transcript history, waveform cells, header fields.

use crate::assistant::state::{lemma_labels_are_distinct, state_label, SessionState};
use crate::text::{
    decimal, decimal_text, digit, lemma_decimal_stands_for_its_number, number_of,
};
use std::collections::VecDeque;
use vstd::prelude::*;

verus! {

/// Who said a line.
#[derive(Debug, Clone, Copy, PartialEq, Eq, Structural)]
pub enum TranscriptRole {
    User,
    Assistant,
    System,
}

/// One line of the transcript.
#[derive(Debug, Clone)]
pub struct TranscriptLine {
    pub role: TranscriptRole,
    pub text: String,
}

/// Lines kept.
pub const TRANSCRIPT_LINES: usize = 64;

/// The last lines of the conversation.
#[derive(Debug)]
pub struct Transcript {
    pub lines: VecDeque<TranscriptLine>,
}

/// The lines shown after one more.
pub open spec fn with_line(
    lines: Seq<TranscriptLine>,
    line: TranscriptLine,
) -> Seq<TranscriptLine> {
    if lines.len() < TRANSCRIPT_LINES {
        lines.push(line)
    } else {
        lines.drop_first().push(line)
    }
}

/// The lines shown after all of `said`, from none.
pub open spec fn shown_of(said: Seq<TranscriptLine>) -> Seq<TranscriptLine>
    decreases said.len(),
{
    if said.len() == 0 {
        Seq::empty()
    } else {
        with_line(shown_of(said.drop_last()), said.last())
    }
}

/// What is shown is the end of the conversation: all of it up to sixty-four
/// lines, and of a longer one the last sixty-four, in order.
pub proof fn lemma_last_lines_are_shown(said: Seq<TranscriptLine>)
    ensures
        said.len() <= 64 ==> shown_of(said) == said,
        said.len() > 64 ==> shown_of(said) == said.subrange(said.len() - 64, said.len() as int),
    decreases said.len(),
{
    if said.len() > 0 {
        let init = said.drop_last();
        lemma_last_lines_are_shown(init);
        if said.len() <= 64 {
            assert(shown_of(said) =~= said);
        } else {
            assert(shown_of(said) =~= said.subrange(said.len() - 64, said.len() as int));
        }
    } else {
        assert(shown_of(said) =~= said);
    }
}

impl Transcript {
    pub fn new() -> (r: Self)
        ensures
            r.lines@ == Seq::<TranscriptLine>::empty(),
    {
        Transcript { lines: VecDeque::new() }
    }

    /// Adds a line; the oldest one leaves a full history.
    pub fn push_transcript(&mut self, role: TranscriptRole, text: String)
        requires
            old(self).lines@.len() < usize::MAX,
        ensures
            final(self).lines@ == (if old(self).lines@.len() >= TRANSCRIPT_LINES {
                old(self).lines@.subrange(1, old(self).lines@.len() as int)
            } else {
                old(self).lines@
            }).push(TranscriptLine { role, text }),
            final(self).lines@ == with_line(old(self).lines@, TranscriptLine { role, text }),
            old(self).lines@.len() <= TRANSCRIPT_LINES ==> final(self).lines@.len()
                <= TRANSCRIPT_LINES,
    {
        if self.lines.len() >= TRANSCRIPT_LINES {
            self.lines.pop_front();
        }
        self.lines.push_back(TranscriptLine { role, text });
    }
}

/// The tag in front of a line.
pub open spec fn tag_of(role: TranscriptRole) -> Seq<char> {
    match role {
        TranscriptRole::User => "you: "@,
        TranscriptRole::Assistant => "assistant: "@,
        TranscriptRole::System => "system: "@,
    }
}

/// The tag in front of a line.
pub fn role_tag(role: TranscriptRole) -> (r: &'static str)
    ensures
        r@ == tag_of(role),
{
    match role {
        TranscriptRole::User => "you: ",
        TranscriptRole::Assistant => "assistant: ",
        TranscriptRole::System => "system: ",
    }
}

/// The height of a waveform bar on one side of the centre: full rows, and
/// eighths of the row beyond them.
#[derive(Debug, Clone, Copy, PartialEq, Eq, Structural)]
pub struct Bar {
    pub full_rows: u16,
    pub eighths: u16,
}

/// What a cell of the waveform shows.
#[derive(Debug, Clone, Copy, PartialEq, Eq, Structural)]
pub enum Glyph {
    Blank,
    /// The centre line.
    Line,
    /// A full block.
    Full,
    /// A partial block, by its index among the eight block characters.
    Partial(u16),
}

/// Rows between two rows.
pub open spec fn distance(a: int, b: int) -> int {
    if a > b {
        a - b
    } else {
        b - a
    }
}

/// What row `row` of a column shows: bars grow from the centre row up and down
/// alike.
pub open spec fn glyph_at(height: int, bar: Option<Bar>, row: int) -> Glyph {
    let mid = height / 2;
    let d = distance(row, mid);
    if d == 0 {
        Glyph::Line
    } else {
        match bar {
            None => Glyph::Blank,
            Some(b) => if d <= b.full_rows {
                Glyph::Full
            } else if d == b.full_rows + 1 && b.eighths > 0 && b.full_rows < mid {
                Glyph::Partial(b.eighths)
            } else {
                Glyph::Blank
            },
        }
    }
}

/// What row `row` of a waveform column of `height` rows shows.
pub fn waveform_glyph(height: u16, bar: Option<Bar>, row: u16) -> (r: Glyph)
    requires
        row < height,
        bar matches Some(b) ==> b.full_rows <= height / 2,
    ensures
        r == glyph_at(height as int, bar, row as int),
{
    let mid: u16 = height / 2;
    let d: u16 = if row > mid {
        row - mid
    } else {
        mid - row
    };
    if d == 0 {
        return Glyph::Line;
    }
    match bar {
        None => Glyph::Blank,
        Some(b) => {
            if d <= b.full_rows {
                Glyph::Full
            } else if d - 1 == b.full_rows && b.eighths > 0 && b.full_rows < mid {
                Glyph::Partial(b.eighths)
            } else {
                Glyph::Blank
            }
        },
    }
}

/// The waveform is the same above and below its centre.
pub proof fn lemma_waveform_is_mirrored(height: int, bar: Option<Bar>, k: int)
    requires
        height > 0,
        0 <= k,
    ensures
        glyph_at(height, bar, height / 2 - k) == glyph_at(height, bar, height / 2 + k),
{
}

/// Two decimal digits at least.
pub open spec fn two_digits(n: nat) -> Seq<char> {
    if n < 10 {
        seq!['0'] + decimal(n)
    } else {
        decimal(n)
    }
}

/// Minutes and seconds of a session, `mm:ss`.
pub fn session_clock(elapsed_secs: usize) -> (r: String)
    ensures
        r@ == two_digits((elapsed_secs / 60) as nat) + seq![':'] + two_digits(
            (elapsed_secs % 60) as nat,
        ),
        r@ == clock_of(elapsed_secs as nat),
{
    let mm: usize = elapsed_secs / 60;
    let ss: usize = elapsed_secs % 60;
    let mut s = String::new();
    if mm < 10 {
        s.push('0');
    }
    s.append(decimal_text(mm).as_str());
    s.push(':');
    if ss < 10 {
        s.push('0');
    }
    s.append(decimal_text(ss).as_str());
    assert(s@ =~= two_digits(mm as nat) + seq![':'] + two_digits(ss as nat));
    s
}

/// Background of the state pill, as red, green and blue; `None` for grey.
pub open spec fn pill_of(label: Seq<char>) -> Option<(u8, u8, u8)> {
    if label == "LISTENING"@ {
        Some((60u8, 110u8, 180u8))
    } else if label == "THINKING"@ {
        Some((180u8, 140u8, 60u8))
    } else if label == "SPEAKING"@ {
        Some((60u8, 160u8, 90u8))
    } else if label == "INTERRUPTED"@ {
        Some((180u8, 60u8, 60u8))
    } else {
        None
    }
}

/// The colour of the pill tells the state: no two states share one, an idle
/// session is grey, listening is blue, thinking amber, speaking green and an
/// interruption red.
pub proof fn lemma_pill_tells_the_state(a: SessionState, b: SessionState)
    ensures
        pill_of(state_label(a)) == pill_of(state_label(b)) ==> a == b,
        pill_of(state_label(SessionState::Idle)) is None,
        a != SessionState::Idle ==> pill_of(state_label(a)) is Some,
        pill_of(state_label(SessionState::Listening)) matches Some(c) && c.2 > c.1 && c.1 > c.0,
        pill_of(state_label(SessionState::Thinking)) matches Some(c) && c.0 > c.1 && c.1 > c.2,
        pill_of(state_label(SessionState::Speaking)) matches Some(c) && c.1 > c.2 && c.2 > c.0,
        pill_of(state_label(SessionState::Interrupted)) matches Some(c) && c.0 > c.1 && c.1 == c.2,
{
    if state_label(SessionState::Idle) == state_label(SessionState::Listening) {
        lemma_labels_are_distinct(SessionState::Idle, SessionState::Listening);
    }
    if state_label(SessionState::Idle) == state_label(SessionState::Thinking) {
        lemma_labels_are_distinct(SessionState::Idle, SessionState::Thinking);
    }
    if state_label(SessionState::Idle) == state_label(SessionState::Speaking) {
        lemma_labels_are_distinct(SessionState::Idle, SessionState::Speaking);
    }
    if state_label(SessionState::Idle) == state_label(SessionState::Interrupted) {
        lemma_labels_are_distinct(SessionState::Idle, SessionState::Interrupted);
    }
    if state_label(SessionState::Listening) == state_label(SessionState::Thinking) {
        lemma_labels_are_distinct(SessionState::Listening, SessionState::Thinking);
    }
    if state_label(SessionState::Listening) == state_label(SessionState::Speaking) {
        lemma_labels_are_distinct(SessionState::Listening, SessionState::Speaking);
    }
    if state_label(SessionState::Listening) == state_label(SessionState::Interrupted) {
        lemma_labels_are_distinct(SessionState::Listening, SessionState::Interrupted);
    }
    if state_label(SessionState::Thinking) == state_label(SessionState::Speaking) {
        lemma_labels_are_distinct(SessionState::Thinking, SessionState::Speaking);
    }
    if state_label(SessionState::Thinking) == state_label(SessionState::Interrupted) {
        lemma_labels_are_distinct(SessionState::Thinking, SessionState::Interrupted);
    }
    if state_label(SessionState::Speaking) == state_label(SessionState::Interrupted) {
        lemma_labels_are_distinct(SessionState::Speaking, SessionState::Interrupted);
    }
}

/// Background of the state pill, as red, green and blue; `None` for grey.
pub fn pill_color(state_label: &str) -> (r: Option<(u8, u8, u8)>)
    ensures
        r == pill_of(state_label@),
        r == if state_label@ == "LISTENING"@ {
            Some((60u8, 110u8, 180u8))
        } else if state_label@ == "THINKING"@ {
            Some((180u8, 140u8, 60u8))
        } else if state_label@ == "SPEAKING"@ {
            Some((60u8, 160u8, 90u8))
        } else if state_label@ == "INTERRUPTED"@ {
            Some((180u8, 60u8, 60u8))
        } else {
            None
        },
{
    let label = state_label.to_owned();
    if label == "LISTENING".to_owned() {
        Some((60, 110, 180))
    } else if label == "THINKING".to_owned() {
        Some((180, 140, 60))
    } else if label == "SPEAKING".to_owned() {
        Some((60, 160, 90))
    } else if label == "INTERRUPTED".to_owned() {
        Some((180, 60, 60))
    } else {
        None
    }
}

/// Whether the text on the state pill is black; it is white otherwise.
pub fn pill_text_is_black(state_label: &str) -> (r: bool)
    ensures
        r == (state_label@ == "THINKING"@ || state_label@ == "SPEAKING"@),
{
    let label = state_label.to_owned();
    label == "THINKING".to_owned() || label == "SPEAKING".to_owned()
}

/// Going out from the centre line, a bar shows its full rows, then its partial
/// one if it has any left and there is room, and nothing further out; without
/// a bar there is the line alone.
pub proof fn lemma_bar_grows_from_the_centre(height: int, bar: Bar, k: int)
    requires
        height > 0,
        0 < k,
    ensures
        glyph_at(height, Some(bar), height / 2) == Glyph::Line,
        glyph_at(height, None, height / 2) == Glyph::Line,
        glyph_at(height, None, height / 2 - k) == Glyph::Blank,
        k <= bar.full_rows ==> glyph_at(height, Some(bar), height / 2 - k) == Glyph::Full,
        k == bar.full_rows + 1 && bar.eighths > 0 && bar.full_rows < height / 2 ==> glyph_at(
            height,
            Some(bar),
            height / 2 - k,
        ) == Glyph::Partial(bar.eighths),
        k == bar.full_rows + 1 && bar.eighths == 0 ==> glyph_at(height, Some(bar), height / 2 - k)
            == Glyph::Blank,
        k > bar.full_rows + 1 ==> glyph_at(height, Some(bar), height / 2 - k) == Glyph::Blank,
{
}

/// Minutes and seconds of a session.
pub open spec fn clock_of(secs: nat) -> Seq<char> {
    two_digits(secs / 60) + seq![':'] + two_digits(secs % 60)
}

/// The clock tells the time: the two numbers around its colon are minutes and
/// seconds that add up to what has passed, each of two digits or more, the
/// seconds of exactly two and below sixty.
pub proof fn lemma_clock_tells_the_time(secs: nat)
    ensures
        ({
            let clock = clock_of(secs);
            let n = clock.len() as int;
            let minutes = number_of(clock.take(n - 3));
            let seconds = number_of(clock.skip(n - 2));
            &&& n >= 5
            &&& clock[n - 3] == ':'
            &&& 60 * minutes + seconds == secs
            &&& 0 <= seconds < 60
        }),
{
    let clock = clock_of(secs);
    let n = clock.len() as int;
    lemma_two_digits(secs / 60);
    lemma_two_digits(secs % 60);
    assert(clock.take(n - 3) =~= two_digits(secs / 60));
    assert(clock.skip(n - 2) =~= two_digits(secs % 60));
}

proof fn lemma_two_digits(n: nat)
    ensures
        number_of(two_digits(n)) == n,
        two_digits(n).len() >= 2,
        n < 100 ==> two_digits(n).len() == 2,
{
    lemma_decimal_stands_for_its_number(n);
    let d = decimal(n);
    let t = two_digits(n);
    if n < 10 {
        assert(t.drop_last() =~= seq!['0']);
        assert(t.drop_last().drop_last() =~= Seq::<char>::empty());
        assert(d.drop_last() =~= Seq::<char>::empty());
        assert(t.last() == d.last());
        assert(number_of(t.drop_last().drop_last()) == 0);
        assert(number_of(t.drop_last()) == 0);
        assert(number_of(d.drop_last()) == 0);
    } else {
        assert(d == decimal(n / 10).push(digit(n % 10)));
        lemma_decimal_stands_for_its_number(n / 10);
    }
}

} // verus!

//! The grammar of a to-do line.
//!
//! A line begins with a checkbox and ends with its metadata, markers of five kinds:
//! - `@time`, when to remind,
//! - `!recurrence`, how often,
//! - `#tag`, any number of them,
//! - `^intensity`, how loud,
//! - `~id`, the identifier of the item.
//!
//! Text between a pair of quotation marks is never read as a marker; a quotation mark
//! without a partner is an ordinary character. The line falls into tokens at white space and
//! quotations. The tokens are read from the right, and the first one that is no marker
//! ends the metadata. A marker with an illegal value is part of the text again, and is
//! reported.

use vstd::prelude::*;
use vstd::slice::slice_subrange;

use crate::runs::{find_runs, lemma_runs, run_pairs, runs, Run};
use crate::text::{
    blank, byte_len, byte_offsets, chars_of, count_leading_white, find_trimmed_len, has_prefix,
    is_blank, lemma_byte_len_monotonic, starts_with, trim_start, trimmed_len,
};

pub use crate::todo::value::{
    days_in_month, is_leap, DatePart, Intensity, MarkerKind, MarkerValue, Recurrence, TimeExpr,
};
use crate::todo::value::{parse_time_expr, parse_value, time_of, value_of, Value};

verus! {

/// Bytes of a line, from `start` to `end`, both of them included.
#[derive(Debug, Clone, Copy, PartialEq, Eq, Structural)]
pub struct Span {
    pub start: usize,
    pub end: usize,
}

/// Bytes of a line, from `start` to `end`, both of them included. The text before the
/// first byte of a line has `end` equal to `start - 1`.
pub struct Extent {
    pub start: int,
    pub end: int,
}

impl View for Span {
    type V = Extent;

    open spec fn view(&self) -> Extent {
        Extent { start: self.start as int, end: self.end as int }
    }
}

/// A marker: its value and where it stands.
#[derive(Debug, Clone, PartialEq, Eq)]
pub struct Marker {
    pub value: MarkerValue,
    pub span: Span,
}

/// A marker's value, and where it stands in the line.
pub struct MarkerView {
    pub value: Value,
    pub span: Extent,
}

impl View for Marker {
    type V = MarkerView;

    open spec fn view(&self) -> MarkerView {
        MarkerView { value: self.value@, span: self.span@ }
    }
}

/// A token that looks like a marker and is none: what it seems to be and where it stands.
#[derive(Debug, Clone, Copy, PartialEq, Eq)]
pub struct Degraded {
    pub suspected: MarkerKind,
    pub span: Span,
}

pub struct DegradedView {
    pub suspected: MarkerKind,
    pub span: Extent,
}

impl View for Degraded {
    type V = DegradedView;

    open spec fn view(&self) -> DegradedView {
        DegradedView { suspected: self.suspected, span: self.span@ }
    }
}

/// What a line says.
#[derive(Debug, Clone, PartialEq, Eq)]
pub struct TodoLine {
    /// Whether the checkbox is ticked.
    pub checked: bool,
    /// The text, without the checkbox and without the metadata.
    pub content: Span,
    /// The markers, from the right to the left.
    pub markers: Vec<Marker>,
    /// What looks like a marker and is none.
    pub degraded: Vec<Degraded>,
    /// The quotations, with their quotation marks.
    pub quoted: Vec<Span>,
}

pub struct TodoView {
    pub checked: bool,
    pub content: Extent,
    pub markers: Seq<MarkerView>,
    pub degraded: Seq<DegradedView>,
    pub quoted: Seq<Extent>,
}

pub open spec fn marker_views(v: Seq<Marker>) -> Seq<MarkerView> {
    v.map_values(|m: Marker| m@)
}

pub open spec fn degraded_views(v: Seq<Degraded>) -> Seq<DegradedView> {
    v.map_values(|d: Degraded| d@)
}

pub open spec fn span_views(v: Seq<Span>) -> Seq<Extent> {
    v.map_values(|s: Span| s@)
}

impl View for TodoLine {
    type V = TodoView;

    open spec fn view(&self) -> TodoView {
        TodoView {
            checked: self.checked,
            content: self.content@,
            markers: marker_views(self.markers@),
            degraded: degraded_views(self.degraded@),
            quoted: span_views(self.quoted@),
        }
    }
}

impl TodoLine {
    /// The first marker of the list that covers a byte of the line.
    pub fn marker_at(&self, offset: usize) -> (r: Option<&Marker>)
        ensures
            match r {
                Some(m) => exists|i: int|
                    {
                        &&& 0 <= i < self.markers.len()
                        &&& *m == #[trigger] self.markers[i]
                        &&& m.span.start <= offset <= m.span.end
                        &&& forall|k: int|
                            0 <= k < i ==> !((#[trigger] self.markers[k]).span.start <= offset
                                <= self.markers[k].span.end)
                    },
                None => forall|k: int|
                    0 <= k < self.markers.len() ==> !((#[trigger] self.markers[k]).span.start
                        <= offset <= self.markers[k].span.end),
            },
    {
        let mut i: usize = 0;
        while i < self.markers.len()
            invariant
                i <= self.markers.len(),
                forall|k: int|
                    0 <= k < i ==> !((#[trigger] self.markers[k]).span.start <= offset
                        <= self.markers[k].span.end),
            decreases self.markers.len() - i,
        {
            let m: &Marker = &self.markers[i];
            if offset >= m.span.start && offset <= m.span.end {
                return Some(m);
            }
            i = i + 1;
        }
        None
    }
}

// ---------- Quotations ----------

/// Where the quotation marks of a line stand.
pub open spec fn quotes(s: Seq<char>) -> Seq<int>
    decreases s.len(),
{
    if s.len() == 0 {
        Seq::empty()
    } else {
        let before = quotes(s.drop_last());
        if s.last() == '"' {
            before.push(s.len() - 1)
        } else {
            before
        }
    }
}

/// The quotations of a line: the first quotation mark with the second, the third with the
/// fourth, and so on. One that is left over opens nothing.
pub open spec fn quotations(s: Seq<char>) -> Seq<Run> {
    Seq::new(
        quotes(s).len() / 2,
        |k: int| Run { start: quotes(s)[2 * k], end: quotes(s)[2 * k + 1] + 1 },
    )
}

/// Whether a position of a line lies within a quotation.
#[verifier::opaque]
pub open spec fn in_quotation(s: Seq<char>, i: int) -> bool {
    exists|k: int|
        0 <= k < quotations(s).len() && (#[trigger] quotations(s)[k]).start <= i < quotations(
            s,
        )[k].end
}

pub proof fn lemma_quotes(s: Seq<char>)
    ensures
        forall|k: int|
            0 <= k < quotes(s).len() ==> 0 <= #[trigger] quotes(s)[k] < s.len()
                && s[quotes(s)[k]] == '"',
        forall|j: int, k: int|
            0 <= j < k < quotes(s).len() ==> #[trigger] quotes(s)[j] < #[trigger] quotes(s)[k],
    decreases s.len(),
{
    if s.len() > 0 {
        let before = quotes(s.drop_last());
        lemma_quotes(s.drop_last());
        assert forall|k: int| 0 <= k < quotes(s).len() implies 0 <= #[trigger] quotes(s)[k]
            < s.len() && s[quotes(s)[k]] == '"' by {
            if k < before.len() {
                assert(0 <= before[k] < s.len() - 1 && s.drop_last()[before[k]] == '"');
            }
        }
        assert forall|j: int, k: int| 0 <= j < k < quotes(s).len() implies #[trigger] quotes(s)[j]
            < #[trigger] quotes(s)[k] by {
            if k < before.len() {
                assert(before[j] < before[k]);
            } else {
                assert(before[j] < s.len() - 1);
            }
        }
    }
}

/// Finds the quotations of a line.
fn quoted_ranges(s: &[char]) -> (r: Vec<(usize, usize)>)
    ensures
        run_pairs(r@) == quotations(s@),
{
    let mut r: Vec<(usize, usize)> = Vec::new();
    let mut open: Option<usize> = None;
    let mut i: usize = 0;
    while i < s.len()
        invariant
            i <= s.len(),
            quotes(s@.take(i as int)).len() == 2 * r.len() + (if open is Some {
                1int
            } else {
                0int
            }),
            open matches Some(start) ==> start < i && quotes(s@.take(i as int)).last() == start,
            forall|k: int|
                0 <= k < r.len() ==> {
                    &&& quotes(s@.take(i as int))[2 * k] == (#[trigger] r[k]).0
                    &&& quotes(s@.take(i as int))[2 * k + 1] == r[k].1 - 1
                    &&& r[k].1 <= i
                },
        decreases s.len() - i,
    {
        proof {
            assert(s@.take(i + 1).drop_last() =~= s@.take(i as int));
        }
        if s[i] == '"' {
            match open {
                Some(start) => {
                    r.push((start, i + 1));
                    open = None;
                },
                None => {
                    open = Some(i);
                },
            }
        }
        i = i + 1;
    }
    assert(s@.take(i as int) =~= s@);
    assert(run_pairs(r@) =~= quotations(s@));
    r
}

/// Whether a position lies within one of the given ranges.
fn is_in_quoted(pos: usize, quoted: &[(usize, usize)]) -> (r: bool)
    ensures
        r == exists|k: int|
            0 <= k < quoted.len() && (#[trigger] run_pairs(quoted@)[k]).start <= pos < run_pairs(
                quoted@,
            )[k].end,
{
    let mut k: usize = 0;
    while k < quoted.len()
        invariant
            k <= quoted.len(),
            forall|j: int|
                0 <= j < k ==> !((#[trigger] run_pairs(quoted@)[j]).start <= pos < run_pairs(
                    quoted@,
                )[j].end),
        decreases quoted.len() - k,
    {
        assert(run_pairs(quoted@)[k as int].start == quoted[k as int].0);
        if quoted[k].0 <= pos && pos < quoted[k].1 {
            return true;
        }
        k = k + 1;
    }
    false
}

// ---------- Tokens ----------

/// Which positions of a line belong to a token: those from `start` on that are neither
/// blank nor within a quotation. The white space at the end of the line belongs to none,
/// whether blank or not.
pub open spec fn token_mask(s: Seq<char>, start: int) -> Seq<bool> {
    Seq::new(
        s.len(),
        |i: int| start <= i < trimmed_len(s) && !is_blank(s[i]) && !in_quotation(s, i),
    )
}

/// The tokens of a line from `start` on.
pub open spec fn tokens(s: Seq<char>, start: int) -> Seq<Run> {
    runs(token_mask(s, start))
}

/// Finds the tokens of a line.
fn tokenize(s: &[char], start: usize, quoted: &[(usize, usize)]) -> (r: Vec<(usize, usize)>)
    requires
        run_pairs(quoted@) == quotations(s@),
    ensures
        run_pairs(r@) == tokens(s@, start as int),
{
    let end: usize = find_trimmed_len(s);
    let mut mask: Vec<bool> = Vec::new();
    let mut i: usize = 0;
    while i < s.len()
        invariant
            i <= s.len(),
            end == trimmed_len(s@),
            run_pairs(quoted@) == quotations(s@),
            mask@ == token_mask(s@, start as int).take(i as int),
        decreases s.len() - i,
    {
        proof {
            reveal(in_quotation);
        }
        let in_token: bool = i >= start && i < end && !blank(s[i]) && !is_in_quoted(i, quoted);
        assert(in_token == token_mask(s@, start as int)[i as int]);
        mask.push(in_token);
        i = i + 1;
    }
    assert(token_mask(s@, start as int).take(i as int) =~= token_mask(s@, start as int));
    find_runs(mask.as_slice())
}

/// The bytes of a line that a run of its characters takes.
pub open spec fn extent(s: Seq<char>, r: Run) -> Extent {
    Extent {
        start: byte_len(s.take(r.start)) as int,
        end: byte_len(s.take(r.end)) - 1,
    }
}

// ---------- Metadata ----------

/// The kind of marker that a character begins.
pub open spec fn kind_of(c: char) -> Option<MarkerKind> {
    if c == '@' {
        Some(MarkerKind::Time)
    } else if c == '!' {
        Some(MarkerKind::Repeat)
    } else if c == '#' {
        Some(MarkerKind::Tag)
    } else if c == '^' {
        Some(MarkerKind::Intensity)
    } else if c == '~' {
        Some(MarkerKind::Id)
    } else {
        None
    }
}

/// What the last tokens of a line are.
pub enum Reading {
    /// No marker.
    Text,
    /// A marker that begins with the token of this number.
    Marker { value: Value, first: int },
    /// A marker with an illegal value.
    Illegal { kind: MarkerKind },
}

/// What the last of some tokens is: a marker, where it begins like one; or, together with
/// the token before it, a date and a time.
pub open spec fn reading(s: Seq<char>, toks: Seq<Run>) -> Reading {
    let n = toks.len() as int;
    let last = toks[n - 1];
    match kind_of(s[last.start]) {
        Some(kind) => match value_of(kind, s.subrange(last.start + 1, last.end)) {
            Some(value) => Reading::Marker { value, first: n - 1 },
            None => Reading::Illegal { kind },
        },
        None => if n >= 2 && s[toks[n - 2].start] == '@' {
            match time_of(s.subrange(toks[n - 2].start + 1, last.end)) {
                Some(t) => Reading::Marker { value: Value::Time(t), first: n - 2 },
                None => Reading::Text,
            }
        } else {
            Reading::Text
        },
    }
}

/// A marker, and the characters of the line that it takes.
pub struct Found {
    pub value: Value,
    pub run: Run,
}

/// A token that looks like a marker, and the characters of the line that it takes.
pub struct Suspect {
    pub kind: MarkerKind,
    pub run: Run,
}

/// What the tokens of a line say: the markers from the right to the left, what looks like
/// a marker and is none, and the number of tokens that are left as text.
pub struct Metadata {
    pub markers: Seq<Found>,
    pub degraded: Seq<Suspect>,
    pub body: int,
}

/// The characters from the beginning of one token to the end of the last.
pub open spec fn from_token(toks: Seq<Run>, first: int) -> Run {
    Run { start: toks[first].start, end: toks.last().end }
}

/// Reads tokens from the right, up to the first that is no marker. A second marker of the
/// same kind is none, unless it is a tag; `seen` holds the kinds met so far.
#[verifier::opaque]
pub open spec fn metadata(s: Seq<char>, toks: Seq<Run>, seen: Set<MarkerKind>) -> Metadata
    decreases toks.len(),
{
    let n = toks.len() as int;
    if n == 0 {
        Metadata { markers: Seq::empty(), degraded: Seq::empty(), body: 0 }
    } else {
        match reading(s, toks) {
            Reading::Text => Metadata { markers: Seq::empty(), degraded: Seq::empty(), body: n },
            Reading::Illegal { kind } => Metadata {
                markers: Seq::empty(),
                degraded: seq![Suspect { kind, run: toks.last() }],
                body: n,
            },
            Reading::Marker { value, first } => {
                let run = from_token(toks, first);
                if value.kind() != MarkerKind::Tag && seen.contains(value.kind()) {
                    Metadata {
                        markers: Seq::empty(),
                        degraded: seq![Suspect { kind: value.kind(), run }],
                        body: n,
                    }
                } else {
                    let rest = metadata(s, toks.take(first), seen.insert(value.kind()));
                    Metadata { markers: seq![Found { value, run }] + rest.markers, ..rest }
                }
            },
        }
    }
}

/// The end of the last of some runs that end at a position or before it; zero, where none
/// does.
pub open spec fn last_end(rs: Seq<Run>, limit: int) -> int
    decreases rs.len(),
{
    if rs.len() == 0 {
        0
    } else if rs.last().end <= limit {
        rs.last().end
    } else {
        last_end(rs.drop_last(), limit)
    }
}

/// Where the text of a line ends: behind the last token that is text, or behind the last
/// quotation before the markers.
pub open spec fn text_end(s: Seq<char>, start: int, toks: Seq<Run>, m: Metadata) -> int {
    let words_end = if m.body > 0 {
        toks[m.body - 1].end
    } else {
        start
    };
    let limit = if m.markers.len() > 0 {
        m.markers.last().run.start
    } else {
        s.len() as int
    };
    let quoted_end = last_end(quotations(s), limit);
    if quoted_end > words_end {
        quoted_end
    } else {
        words_end
    }
}

/// The last byte of the characters before a position; the first byte of the line, where
/// there are none.
pub open spec fn last_byte(s: Seq<char>, end: int) -> int {
    if byte_len(s.take(end)) > 0 {
        byte_len(s.take(end)) - 1
    } else {
        0
    }
}

/// Markers, with the bytes of the line that they take.
pub open spec fn found_views(s: Seq<char>, v: Seq<Found>) -> Seq<MarkerView> {
    v.map_values(|f: Found| MarkerView { value: f.value, span: extent(s, f.run) })
}

/// The characters of the line that each of some markers takes.
pub open spec fn found_runs(v: Seq<Found>) -> Seq<Run> {
    v.map_values(|f: Found| f.run)
}

/// What looks like a marker, with the bytes of the line that it takes.
pub open spec fn suspect_views(s: Seq<char>, v: Seq<Suspect>) -> Seq<DegradedView> {
    v.map_values(|d: Suspect| DegradedView { suspected: d.kind, span: extent(s, d.run) })
}

/// The bytes of a line that each of some runs takes.
pub open spec fn extents(s: Seq<char>, v: Seq<Run>) -> Seq<Extent> {
    v.map_values(|r: Run| extent(s, r))
}

/// What a line says whose text begins at a given character.
pub open spec fn scanned(s: Seq<char>, checked: bool, start: int) -> TodoView {
    let toks = tokens(s, start);
    let m = metadata(s, toks, Set::empty());
    TodoView {
        checked,
        content: Extent {
            start: byte_len(s.take(start)) as int,
            end: last_byte(s, text_end(s, start, toks, m)),
        },
        markers: found_views(s, m.markers),
        degraded: suspect_views(s, m.degraded),
        quoted: extents(s, quotations(s)),
    }
}

/// The checkbox that a line begins with, behind white space and an optional bullet:
/// whether it is ticked, and where the text behind it begins.
#[verifier::opaque]
pub open spec fn checkbox(s: Seq<char>) -> Option<(bool, int)> {
    let trimmed = trim_start(s);
    let rest = if starts_with(trimmed, "- "@) || starts_with(trimmed, "* "@) {
        trim_start(trimmed.skip(2))
    } else {
        trimmed
    };
    let start = s.len() - rest.len() + 4;
    if starts_with(rest, "[ ] "@) {
        Some((false, start))
    } else if starts_with(rest, "[x] "@) || starts_with(rest, "[X] "@) {
        Some((true, start))
    } else {
        None
    }
}

/// What a line says, where it begins with a checkbox.
pub open spec fn parsed(s: Seq<char>) -> Option<TodoView> {
    match checkbox(s) {
        Some((checked, start)) => Some(scanned(s, checked, start)),
        None => None,
    }
}

/// Where the text of a line begins, with a checkbox or without one.
pub open spec fn line_start(s: Seq<char>) -> int {
    match checkbox(s) {
        Some((_, start)) => start,
        None => 0,
    }
}

/// The metadata of a line, with a checkbox or without one.
pub open spec fn line_metadata(s: Seq<char>) -> Metadata {
    metadata(s, tokens(s, line_start(s)), Set::empty())
}

/// What a text without a checkbox says.
pub open spec fn parsed_fragment(s: Seq<char>) -> TodoView {
    scanned(s, false, 0)
}

/// The markers of a line, from the right to the left, lie within the tokens that they are
/// read from, and no two of them meet.
pub proof fn lemma_metadata_bounds(s: Seq<char>, toks: Seq<Run>, seen: Set<MarkerKind>)
    requires
        forall|k: int|
            0 <= k < toks.len() ==> 0 <= (#[trigger] toks[k]).start < toks[k].end <= s.len(),
        forall|j: int, k: int|
            0 <= j < k < toks.len() ==> (#[trigger] toks[j]).end < (#[trigger] toks[k]).start,
    ensures
        ({
            let m = metadata(s, toks, seen);
            &&& 0 <= m.body <= toks.len()
            &&& m.markers.len() == 0 ==> m.body == toks.len()
            &&& forall|k: int|
                0 <= k < m.markers.len() ==> 0 <= (#[trigger] m.markers[k]).run.start
                    < m.markers[k].run.end <= s.len()
            &&& forall|k: int|
                0 <= k < m.markers.len() ==> (#[trigger] m.markers[k]).run.end
                    <= toks.last().end
            &&& forall|k: int|
                0 <= k < m.markers.len() && m.body > 0 ==> toks[m.body - 1].end < (
                #[trigger] m.markers[k]).run.start
            &&& forall|j: int, k: int|
                0 <= j < k < m.markers.len() ==> (#[trigger] m.markers[k]).run.end < (
                #[trigger] m.markers[j]).run.start
            &&& m.degraded.len() <= 1
            &&& m.degraded.len() == 1 ==> m.body > 0 && m.degraded[0].run.end == toks[m.body
                - 1].end && 0 <= m.degraded[0].run.start < m.degraded[0].run.end
        }),
    decreases toks.len(),
{
    reveal(metadata);
    let m = metadata(s, toks, seen);
    if toks.len() > 0 {
        if let Reading::Marker { value, first } = reading(s, toks) {
            if !(value.kind() != MarkerKind::Tag && seen.contains(value.kind())) {
                let left = toks.take(first);
                let rest = metadata(s, left, seen.insert(value.kind()));
                let new = Found { value, run: from_token(toks, first) };
                lemma_metadata_bounds(s, left, seen.insert(value.kind()));
                assert(m.markers == seq![new] + rest.markers);
                assert(toks[first].end <= toks.last().end);
                if first > 0 {
                    assert(left.last() == toks[first - 1]);
                    assert(toks[first - 1].end < toks[first].start);
                }
                assert forall|k: int| 0 <= k < m.markers.len() implies 0 <= (
                #[trigger] m.markers[k]).run.start < m.markers[k].run.end <= s.len()
                    && m.markers[k].run.end <= toks.last().end by {
                    if k > 0 {
                        assert(m.markers[k] == rest.markers[k - 1]);
                    }
                }
                assert forall|j: int, k: int| 0 <= j < k < m.markers.len() implies (
                #[trigger] m.markers[k]).run.end < (#[trigger] m.markers[j]).run.start by {
                    assert(m.markers[k] == rest.markers[k - 1]);
                    if j > 0 {
                        assert(m.markers[j] == rest.markers[j - 1]);
                    }
                }
                assert forall|k: int| 0 <= k < m.markers.len() && m.body > 0 implies toks[m.body
                    - 1].end < (#[trigger] m.markers[k]).run.start by {
                    assert(toks[m.body - 1] == left[m.body - 1]);
                    assert(toks[m.body - 1].end < toks[first].start);
                    if k > 0 {
                        assert(m.markers[k] == rest.markers[k - 1]);
                    }
                }
            }
        }
    }
}

fn marker_char_to_kind(c: char) -> (r: Option<MarkerKind>)
    ensures
        r == kind_of(c),
{
    match c {
        '@' => Some(MarkerKind::Time),
        '!' => Some(MarkerKind::Repeat),
        '#' => Some(MarkerKind::Tag),
        '^' => Some(MarkerKind::Intensity),
        '~' => Some(MarkerKind::Id),
        _ => None,
    }
}

/// Finds the checkbox that a line begins with.
fn todo_prefix(s: &[char]) -> (r: Option<(bool, usize)>)
    ensures
        match r {
            Some((checked, start)) => checkbox(s@) == Some((checked, start as int)) && start
                <= s.len(),
            None => checkbox(s@) is None,
        },
{
    proof {
        reveal(checkbox);
        reveal_strlit("- ");
        reveal_strlit("* ");
        reveal_strlit("[ ] ");
        reveal_strlit("[x] ");
        reveal_strlit("[X] ");
    }
    let white: usize = count_leading_white(s);
    let trimmed: &[char] = slice_subrange(s, white, s.len());
    let rest: &[char] = if has_prefix(trimmed, "- ") || has_prefix(trimmed, "* ") {
        let behind: &[char] = slice_subrange(trimmed, 2, trimmed.len());
        let more: usize = count_leading_white(behind);
        slice_subrange(behind, more, behind.len())
    } else {
        trimmed
    };
    if has_prefix(rest, "[ ] ") {
        Some((false, s.len() - rest.len() + 4))
    } else if has_prefix(rest, "[x] ") || has_prefix(rest, "[X] ") {
        Some((true, s.len() - rest.len() + 4))
    } else {
        None
    }
}

/// Whether a kind is among those met so far.
fn is_seen(seen: &[MarkerKind], kind: MarkerKind) -> (r: bool)
    ensures
        r == seen@.contains(kind),
{
    let mut i: usize = 0;
    while i < seen.len()
        invariant
            i <= seen.len(),
            forall|k: int| 0 <= k < i ==> #[trigger] seen@[k] != kind,
        decreases seen.len() - i,
    {
        if seen[i] == kind {
            assert(seen@[i as int] == kind);
            return true;
        }
        i = i + 1;
    }
    false
}

/// The bytes that a run of characters takes.
fn span_of(
    s: &[char],
    offsets: &[usize],
    start: usize,
    end: usize,
) -> (r: Span)
    requires
        start < end <= s.len(),
        offsets.len() == s.len() + 1,
        forall|i: int| 0 <= i <= s.len() ==> #[trigger] offsets[i] == byte_len(s@.take(i)),
    ensures
        r@ == extent(s@, Run { start: start as int, end: end as int }),
{
    proof {
        lemma_byte_len_monotonic(s@, start as int, end as int);
    }
    Span { start: offsets[start], end: offsets[end] - 1 }
}

/// What the last of some tokens is.
enum Piece {
    Text,
    Marker { value: MarkerValue, first: usize },
    Illegal { kind: MarkerKind },
}

impl View for Piece {
    type V = Reading;

    closed spec fn view(&self) -> Reading {
        match self {
            Piece::Text => Reading::Text,
            Piece::Marker { value, first } => Reading::Marker {
                value: value@,
                first: *first as int,
            },
            Piece::Illegal { kind } => Reading::Illegal { kind: *kind },
        }
    }
}

/// Reads the last of the first `n` tokens.
fn read_last(s: &[char], toks: &[(usize, usize)], n: usize) -> (r: Piece)
    requires
        0 < n <= toks.len(),
        forall|k: int| 0 <= k < toks.len() ==> (#[trigger] toks[k]).0 < toks[k].1 <= s.len(),
        forall|j: int, k: int| 0 <= j < k < toks.len() ==> (#[trigger] toks[j]).1 < (#[trigger] toks[k]).0,
    ensures
        r@ == reading(s@, run_pairs(toks@).take(n as int)),
        r matches Piece::Marker { first, .. } ==> first < n,
{
    let ghost here = run_pairs(toks@).take(n as int);
    let (start, end): (usize, usize) = toks[n - 1];
    assert(here[n - 1] == Run { start: start as int, end: end as int });
    match marker_char_to_kind(s[start]) {
        Some(kind) => match parse_value(slice_subrange(s, start + 1, end), kind) {
            Some(value) => Piece::Marker { value, first: n - 1 },
            None => Piece::Illegal { kind },
        },
        None => {
            if n >= 2 {
                let (before, _): (usize, usize) = toks[n - 2];
                assert(here[n - 2].start == before);
                if s[before] == '@' {
                    return match parse_time_expr(slice_subrange(s, before + 1, end)) {
                        Some(t) => Piece::Marker { value: MarkerValue::Time(t), first: n - 2 },
                        None => Piece::Text,
                    };
                }
            }
            Piece::Text
        },
    }
}

/// Adds a kind to those met so far.
fn add_seen(seen: &mut Vec<MarkerKind>, kind: MarkerKind)
    ensures
        final(seen)@.to_set() == old(seen)@.to_set().insert(kind),
{
    let ghost before = seen@;
    seen.push(kind);
    proof {
        let after = seen@;
        assert forall|k: MarkerKind| after.to_set().contains(k) <==> before.to_set().insert(
            kind,
        ).contains(k) by {
            if before.contains(k) {
                let i = choose|i: int| 0 <= i < before.len() && before[i] == k;
                assert(after[i] == k);
            }
            assert(after[after.len() - 1] == kind);
            if after.contains(k) && k != kind {
                let i = choose|i: int| 0 <= i < after.len() && after[i] == k;
                assert(before[i] == k);
            }
        }
        assert(after.to_set() =~= before.to_set().insert(kind));
    }
}

/// The metadata that the tokens of a line say: the markers and the characters that each of
/// them takes, what looks like a marker and is none, and the number of tokens that are left
/// as text.
pub(crate) struct Scan {
    pub(crate) markers: Vec<Marker>,
    pub(crate) places: Vec<(usize, usize)>,
    pub(crate) degraded: Vec<Degraded>,
    pub(crate) body: usize,
}

impl Scan {
    /// Whether this is what the tokens of a line say.
    pub(crate) open spec fn says(self, s: Seq<char>, m: Metadata) -> bool {
        &&& marker_views(self.markers@) == found_views(s, m.markers)
        &&& run_pairs(self.places@) == found_runs(m.markers)
        &&& degraded_views(self.degraded@) == suspect_views(s, m.degraded)
        &&& self.body == m.body
    }
}

/// Reads tokens from the right, up to the first that is no marker.
fn read_metadata(s: &[char], offsets: &[usize], toks: &[(usize, usize)]) -> (r: Scan)
    requires
        offsets.len() == s.len() + 1,
        forall|i: int| 0 <= i <= s.len() ==> #[trigger] offsets[i] == byte_len(s@.take(i)),
        forall|k: int| 0 <= k < toks.len() ==> (#[trigger] toks[k]).0 < toks[k].1 <= s.len(),
        forall|j: int, k: int| 0 <= j < k < toks.len() ==> (#[trigger] toks[j]).1 < (#[trigger] toks[k]).0,
    ensures
        r.says(s@, metadata(s@, run_pairs(toks@), Set::empty())),
        r.body <= toks.len(),
{
    let ghost all = run_pairs(toks@);
    let ghost whole = metadata(s@, all, Set::empty());
    let mut markers: Vec<Marker> = Vec::new();
    let mut places: Vec<(usize, usize)> = Vec::new();
    let mut degraded: Vec<Degraded> = Vec::new();
    let mut seen: Vec<MarkerKind> = Vec::new();
    let ghost mut found: Seq<Found> = Seq::empty();
    let mut n: usize = toks.len();
    proof {
        assert(all.take(all.len() as int) =~= all);
        assert(seen@.to_set() =~= Set::<MarkerKind>::empty());
        assert(found + whole.markers =~= whole.markers);
        assert(marker_views(markers@) =~= found_views(s@, found));
        assert(run_pairs(places@) =~= found_runs(found));
    }
    while n > 0
        invariant
            n <= toks.len(),
            all == run_pairs(toks@),
            whole == metadata(s@, all, Set::empty()),
            offsets.len() == s.len() + 1,
            forall|i: int| 0 <= i <= s.len() ==> #[trigger] offsets[i] == byte_len(s@.take(i)),
            forall|k: int| 0 <= k < toks.len() ==> (#[trigger] toks[k]).0 < toks[k].1 <= s.len(),
            forall|j: int, k: int|
                0 <= j < k < toks.len() ==> (#[trigger] toks[j]).1 < (#[trigger] toks[k]).0,
            marker_views(markers@) == found_views(s@, found),
            run_pairs(places@) == found_runs(found),
            degraded.len() == 0,
            ({
                let rest = metadata(s@, all.take(n as int), seen@.to_set());
                whole == (Metadata { markers: found + rest.markers, ..rest })
            }),
        decreases n,
    {
        let ghost here = all.take(n as int);
        proof {
            reveal(metadata);
        }
        let ghost rest = metadata(s@, here, seen@.to_set());
        let piece: Piece = read_last(s, toks, n);
        match piece {
            Piece::Marker { value, first } => {
                let kind: MarkerKind = value.kind();
                let ghost run = from_token(here, first as int);
                if first < n - 1 {
                    assert(toks[first as int].1 < toks[n - 1].0);
                }
                let span: Span = span_of(s, offsets, toks[first].0, toks[n - 1].1);
                assert(span@ == extent(s@, run));
                if kind != MarkerKind::Tag && is_seen(seen.as_slice(), kind) {
                    degraded.push(Degraded { suspected: kind, span });
                    proof {
                        assert(found + rest.markers =~= found);
                        assert(degraded_views(degraded@) =~= suspect_views(s@, whole.degraded));
                    }
                    return Scan { markers, places, degraded, body: n };
                }
                proof {
                    let next = metadata(
                        s@,
                        here.take(first as int),
                        seen@.to_set().insert(kind),
                    );
                    let new = Found { value: value@, run };
                    assert(found_views(s@, found.push(new)) =~= marker_views(markers@).push(
                        MarkerView { value: value@, span: span@ },
                    ));
                    assert(found_runs(found.push(new)) =~= run_pairs(places@).push(run));
                    assert(here.take(first as int) =~= all.take(first as int));
                    assert(rest.markers == seq![new] + next.markers);
                    assert(found + rest.markers =~= found.push(new) + next.markers);
                    found = found.push(new);
                }
                add_seen(&mut seen, kind);
                proof {
                    let m = Marker { value, span };
                    assert(marker_views(markers@.push(m)) =~= marker_views(markers@).push(m@));
                    let place = (toks[first as int].0, toks[n - 1].1);
                    assert(run_pairs(places@.push(place)) =~= run_pairs(places@).push(run));
                }
                markers.push(Marker { value, span });
                places.push((toks[first].0, toks[n - 1].1));
                n = first;
            },
            Piece::Illegal { kind } => {
                let span: Span = span_of(s, offsets, toks[n - 1].0, toks[n - 1].1);
                degraded.push(Degraded { suspected: kind, span });
                proof {
                    assert(found + rest.markers =~= found);
                    assert(degraded_views(degraded@) =~= suspect_views(s@, whole.degraded));
                }
                return Scan { markers, places, degraded, body: n };
            },
            Piece::Text => {
                proof {
                    assert(found + rest.markers =~= found);
                    assert(degraded_views(degraded@) =~= suspect_views(s@, whole.degraded));
                }
                return Scan { markers, places, degraded, body: n };
            },
        }
    }
    proof {
        reveal(metadata);
        let rest = metadata(s@, all.take(0), seen@.to_set());
        assert(found + rest.markers =~= found);
        assert(degraded_views(degraded@) =~= suspect_views(s@, whole.degraded));
    }
    Scan { markers, places, degraded, body: 0 }
}

/// The bytes that each of some runs of characters takes.
fn spans_of(s: &[char], offsets: &[usize], ranges: &[(usize, usize)]) -> (r: Vec<Span>)
    requires
        offsets.len() == s.len() + 1,
        forall|i: int| 0 <= i <= s.len() ==> #[trigger] offsets[i] == byte_len(s@.take(i)),
        forall|k: int| 0 <= k < ranges.len() ==> (#[trigger] ranges[k]).0 < ranges[k].1 <= s.len(),
    ensures
        span_views(r@) == extents(s@, run_pairs(ranges@)),
{
    let mut r: Vec<Span> = Vec::new();
    let mut k: usize = 0;
    while k < ranges.len()
        invariant
            k <= ranges.len(),
            offsets.len() == s.len() + 1,
            forall|i: int| 0 <= i <= s.len() ==> #[trigger] offsets[i] == byte_len(s@.take(i)),
            forall|j: int|
                0 <= j < ranges.len() ==> (#[trigger] ranges[j]).0 < ranges[j].1 <= s.len(),
            span_views(r@) == extents(s@, run_pairs(ranges@)).take(k as int),
        decreases ranges.len() - k,
    {
        let ghost before = r@;
        r.push(span_of(s, offsets, ranges[k].0, ranges[k].1));
        assert(span_views(r@) =~= span_views(before).push(r@[k as int]@));
        assert(extents(s@, run_pairs(ranges@))[k as int] == r@[k as int]@);
        k = k + 1;
        assert(span_views(r@) =~= extents(s@, run_pairs(ranges@)).take(k as int));
    }
    assert(extents(s@, run_pairs(ranges@)).take(k as int) =~= extents(s@, run_pairs(ranges@)));
    r
}

/// Finds the tokens of a line whose text begins at a given character.
fn tokens_from(s: &[char], start: usize, quoted: &[(usize, usize)]) -> (r: Vec<(usize, usize)>)
    requires
        run_pairs(quoted@) == quotations(s@),
    ensures
        run_pairs(r@) == tokens(s@, start as int),
        forall|k: int| 0 <= k < r.len() ==> (#[trigger] r[k]).0 < r[k].1 <= s.len(),
        forall|j: int, k: int| 0 <= j < k < r.len() ==> (#[trigger] r[j]).1 < (#[trigger] r[k]).0,
{
    let toks: Vec<(usize, usize)> = tokenize(s, start, quoted);
    proof {
        let all = tokens(s@, start as int);
        lemma_runs(token_mask(s@, start as int));
        assert forall|k: int| 0 <= k < toks.len() implies (#[trigger] toks[k]).0 < toks[k].1
            <= s.len() by {
            assert(run_pairs(toks@)[k] == all[k]);
        }
        assert forall|j: int, k: int| 0 <= j < k < toks.len() implies (#[trigger] toks[j]).1 < (
        #[trigger] toks[k]).0 by {
            assert(run_pairs(toks@)[j] == all[j]);
            assert(run_pairs(toks@)[k] == all[k]);
            assert(all[j].end < all[k].start);
        }
    }
    toks
}

/// Reads the metadata of a line, with a checkbox or without one.
pub(crate) fn read_line(line: &str, s: &[char]) -> (r: Scan)
    requires
        s@ == line@,
    ensures
        r.says(s@, line_metadata(s@)),
{
    let start: usize = match todo_prefix(s) {
        Some((_, start)) => start,
        None => 0,
    };
    let offsets: Vec<usize> = byte_offsets(line, s);
    let quoted: Vec<(usize, usize)> = quoted_ranges(s);
    let toks: Vec<(usize, usize)> = tokens_from(s, start, quoted.as_slice());
    read_metadata(s, offsets.as_slice(), toks.as_slice())
}

/// Finds the end of the last of some runs that end at a position or before it.
fn find_last_end(rs: &[(usize, usize)], limit: usize) -> (r: usize)
    ensures
        r == last_end(run_pairs(rs@), limit as int),
        r <= limit,
{
    let ghost all = run_pairs(rs@);
    let mut n: usize = rs.len();
    assert(all.take(n as int) =~= all);
    while n > 0
        invariant
            n <= rs.len(),
            all == run_pairs(rs@),
            last_end(all, limit as int) == last_end(all.take(n as int), limit as int),
        decreases n,
    {
        assert(all[n - 1].end == rs[n - 1].1);
        assert(all.take(n as int).last() == all[n - 1]);
        assert(all.take(n as int).drop_last() =~= all.take(n - 1));
        if rs[n - 1].1 <= limit {
            return rs[n - 1].1;
        }
        n = n - 1;
    }
    0
}

/// Reads a line whose text begins at a given character.
pub fn scan(line: &str, s: &[char], checked: bool, start: usize) -> (r: TodoLine)
    requires
        s@ == line@,
        start <= s.len(),
    ensures
        r@ == scanned(s@, checked, start as int),
{
    let offsets: Vec<usize> = byte_offsets(line, s);
    let quoted: Vec<(usize, usize)> = quoted_ranges(s);
    let toks: Vec<(usize, usize)> = tokens_from(s, start, quoted.as_slice());
    proof {
        lemma_quotes(s@);
        assert(run_pairs(quoted@).len() == quotations(s@).len());
        assert forall|k: int| 0 <= k < quoted.len() implies (#[trigger] quoted[k]).0 < quoted[k].1
            <= s.len() by {
            assert(run_pairs(quoted@)[k] == quotations(s@)[k]);
            assert(quotes(s@)[2 * k] < quotes(s@)[2 * k + 1]);
        }
    }
    let found: Scan = read_metadata(s, offsets.as_slice(), toks.as_slice());
    let ghost all = tokens(s@, start as int);
    let ghost m = metadata(s@, all, Set::empty());
    proof {
        lemma_runs(token_mask(s@, start as int));
        lemma_metadata_bounds(s@, all, Set::empty());
    }
    let words_end: usize = if found.body > 0 {
        assert(run_pairs(toks@)[found.body - 1].end == toks[found.body - 1].1);
        toks[found.body - 1].1
    } else {
        start
    };
    let limit: usize = if found.places.len() > 0 {
        proof {
            let last = found.places.len() - 1;
            assert(run_pairs(found.places@)[last] == found_runs(m.markers)[last]);
        }
        found.places[found.places.len() - 1].0
    } else {
        assert(found_runs(m.markers).len() == 0);
        s.len()
    };
    let quoted_end: usize = find_last_end(quoted.as_slice(), limit);
    let text_ends: usize = if quoted_end > words_end {
        quoted_end
    } else {
        words_end
    };
    proof {
        assert(found_runs(m.markers).len() == m.markers.len());
        assert(text_ends == text_end(s@, start as int, all, m));
    }
    let end: usize = if offsets[text_ends] > 0 {
        offsets[text_ends] - 1
    } else {
        0
    };
    TodoLine {
        checked,
        content: Span { start: offsets[start], end },
        markers: found.markers,
        degraded: found.degraded,
        quoted: spans_of(s, offsets.as_slice(), quoted.as_slice()),
    }
}

/// Reads a line that begins with a checkbox; `None` for one that does not.
pub fn parse(line: &str) -> (r: Option<TodoLine>)
    ensures
        match r {
            Some(todo) => parsed(line@) == Some(todo@),
            None => parsed(line@) is None,
        },
{
    let s: Vec<char> = chars_of(line);
    match todo_prefix(s.as_slice()) {
        Some((checked, start)) => Some(scan(line, s.as_slice(), checked, start)),
        None => None,
    }
}

/// Reads a text that needs no checkbox. Everything else is as with [`parse`].
pub fn parse_fragment(text: &str) -> (r: TodoLine)
    ensures
        r@ == parsed_fragment(text@),
{
    let s: Vec<char> = chars_of(text);
    scan(text, s.as_slice(), false, 0)
}

} // verus!

//! Markers as text, and how they are written into a line.
//!
//! Whatever goes into a document comes from here. A value that the grammar of a line
//! cannot express is refused: no text is written that would read back as something else.

use vstd::prelude::*;
use vstd::slice::slice_subrange;

use crate::number::{decimal, padded, write_decimal, write_padded};
use crate::runs::{lemma_runs, run_pairs, Run};
use crate::text::{
    chars_of, concat, find_trimmed_len, is_white, push_chars, string_from, trim, trimmed,
    trimmed_len, white,
};
use crate::todo::syntax::{
    found_runs, found_views, lemma_metadata_bounds, line_metadata, line_start, marker_views,
    read_line, token_mask, tokens, Found, Scan,
};
use crate::todo::value::{
    days_in_month, id_of, parse_id, valid_clock, valid_date, DatePart, Intensity, MarkerKind,
    MarkerValue, Recurrence, TimeExpr, Value,
};

verus! {

// ---------- Values as text ----------

/// A date as text; nothing, where the calendar has no such date.
pub open spec fn date_text(d: DatePart) -> Option<Seq<char>> {
    match d {
        DatePart::Absolute { year, month, day } => if valid_date(year, month, day) {
            Some(
                padded(year as nat, 4).push('-') + padded(month as nat, 2).push('-') + padded(
                    day as nat,
                    2,
                ),
            )
        } else {
            None
        },
        DatePart::Today => Some("today"@),
        DatePart::Tomorrow => Some("tomorrow"@),
    }
}

/// A time of day as text; nothing, where a day has no such time.
pub open spec fn clock_text(t: (u32, u32)) -> Option<Seq<char>> {
    if valid_clock(t.0, t.1) {
        Some(padded(t.0 as nat, 2).push(':') + padded(t.1 as nat, 2))
    } else {
        None
    }
}

/// A time expression as text. Where one of its parts is illegal, or both are missing,
/// there is no text.
pub open spec fn time_text(e: TimeExpr) -> Option<Seq<char>> {
    match (e.date, e.time) {
        (Some(d), Some(t)) => match (date_text(d), clock_text(t)) {
            (Some(date), Some(clock)) => Some(date.push(' ') + clock),
            _ => None,
        },
        (Some(d), None) => date_text(d),
        (None, Some(t)) => clock_text(t),
        (None, None) => None,
    }
}

/// A recurrence as text. The usual one is not written, and none comes back every zero days.
pub open spec fn recurrence_text(r: Recurrence) -> Option<Seq<char>> {
    match r {
        Recurrence::Once => None,
        Recurrence::Daily => Some("daily"@),
        Recurrence::Weekly => Some("weekly"@),
        Recurrence::Monthly => Some("monthly"@),
        Recurrence::Yearly => Some("yearly"@),
        Recurrence::Weekdays => Some("weekdays"@),
        Recurrence::EveryDays { n } => if n > 0 {
            Some("every_"@ + decimal(n as nat).push('d'))
        } else {
            None
        },
        Recurrence::EveryWeeks { n } => if n > 0 {
            Some("every_"@ + decimal(n as nat).push('w'))
        } else {
            None
        },
    }
}

/// Whether a tag can stand in a line: it is not empty and holds neither white space nor a
/// quotation mark.
pub open spec fn plain_tag(t: Seq<char>) -> bool {
    t.len() > 0 && forall|i: int| 0 <= i < t.len() ==> !is_white(#[trigger] t[i]) && t[i] != '"'
}

/// An intensity as text. The usual one is not written.
pub open spec fn intensity_text(i: Intensity) -> Option<Seq<char>> {
    match i {
        Intensity::Toast => None,
        Intensity::Ring => Some("ring"@),
        Intensity::Full => Some("full"@),
    }
}

/// The text of a value behind the marker character.
#[verifier::opaque]
pub open spec fn value_text(v: Value) -> Option<Seq<char>> {
    match v {
        Value::Time(e) => time_text(e),
        Value::Repeat(r) => recurrence_text(r),
        Value::Tag(t) => if plain_tag(t) {
            Some(t)
        } else {
            None
        },
        Value::Intensity(i) => intensity_text(i),
        Value::Id(t) => id_of(t),
    }
}

/// The character that begins a marker.
pub open spec fn marker_char(k: MarkerKind) -> char {
    match k {
        MarkerKind::Time => '@',
        MarkerKind::Repeat => '!',
        MarkerKind::Tag => '#',
        MarkerKind::Intensity => '^',
        MarkerKind::Id => '~',
    }
}

/// The text of a marker.
pub open spec fn marker_text(v: Value) -> Option<Seq<char>> {
    match value_text(v) {
        Some(t) => Some(seq![marker_char(v.kind())] + t),
        None => None,
    }
}

/// Whether a value is one that is left out by convention.
pub open spec fn omitted_default(v: Value) -> bool {
    v == Value::Repeat(Recurrence::Once) || v == Value::Intensity(Intensity::Toast)
}

fn serialize_date(d: &DatePart) -> (r: Option<Vec<char>>)
    ensures
        match r {
            Some(t) => date_text(*d) == Some(t@),
            None => date_text(*d) is None,
        },
{
    match d {
        DatePart::Absolute { year, month, day } => {
            if *month == 0 || *month > 12 || *day == 0 || *day > days_in_month(*year, *month) {
                return None;
            }
            let mut r: Vec<char> = write_padded(*year as u64, 4);
            r.push('-');
            let mut month_digits: Vec<char> = write_padded(*month as u64, 2);
            month_digits.push('-');
            r.append(&mut month_digits);
            let mut day_digits: Vec<char> = write_padded(*day as u64, 2);
            r.append(&mut day_digits);
            Some(r)
        },
        DatePart::Today => Some(chars_of("today")),
        DatePart::Tomorrow => Some(chars_of("tomorrow")),
    }
}

fn serialize_clock(t: (u32, u32)) -> (r: Option<Vec<char>>)
    ensures
        match r {
            Some(text) => clock_text(t) == Some(text@),
            None => clock_text(t) is None,
        },
{
    if t.0 > 23 || t.1 > 59 {
        return None;
    }
    let mut r: Vec<char> = write_padded(t.0 as u64, 2);
    r.push(':');
    let mut minute: Vec<char> = write_padded(t.1 as u64, 2);
    r.append(&mut minute);
    Some(r)
}

/// Writes a time expression.
pub fn serialize_time(expr: &TimeExpr) -> (r: Option<Vec<char>>)
    ensures
        match r {
            Some(t) => time_text(*expr) == Some(t@),
            None => time_text(*expr) is None,
        },
{
    match (&expr.date, expr.time) {
        (Some(d), Some(t)) => {
            let mut date: Vec<char> = match serialize_date(d) {
                Some(text) => text,
                None => return None,
            };
            let mut clock: Vec<char> = match serialize_clock(t) {
                Some(text) => text,
                None => return None,
            };
            date.push(' ');
            date.append(&mut clock);
            Some(date)
        },
        (Some(d), None) => serialize_date(d),
        (None, Some(t)) => serialize_clock(t),
        (None, None) => None,
    }
}

fn every(n: u32, unit: char) -> (r: Vec<char>)
    ensures
        r@ == "every_"@ + decimal(n as nat).push(unit),
{
    let mut r: Vec<char> = chars_of("every_");
    let mut digits: Vec<char> = write_decimal(n as u64);
    digits.push(unit);
    r.append(&mut digits);
    r
}

/// Writes a recurrence.
pub fn serialize_recurrence(r: &Recurrence) -> (t: Option<Vec<char>>)
    ensures
        match t {
            Some(text) => recurrence_text(*r) == Some(text@),
            None => recurrence_text(*r) is None,
        },
{
    match r {
        Recurrence::Once => None,
        Recurrence::Daily => Some(chars_of("daily")),
        Recurrence::Weekly => Some(chars_of("weekly")),
        Recurrence::Monthly => Some(chars_of("monthly")),
        Recurrence::Yearly => Some(chars_of("yearly")),
        Recurrence::Weekdays => Some(chars_of("weekdays")),
        Recurrence::EveryDays { n } => {
            if *n > 0 {
                Some(every(*n, 'd'))
            } else {
                None
            }
        },
        Recurrence::EveryWeeks { n } => {
            if *n > 0 {
                Some(every(*n, 'w'))
            } else {
                None
            }
        },
    }
}

/// Writes a tag.
pub fn serialize_tag(tag: &str) -> (r: Option<Vec<char>>)
    ensures
        match r {
            Some(t) => plain_tag(tag@) && t@ == tag@,
            None => !plain_tag(tag@),
        },
{
    let t: Vec<char> = chars_of(tag);
    if t.len() == 0 {
        return None;
    }
    let mut i: usize = 0;
    while i < t.len()
        invariant
            i <= t.len(),
            t@ == tag@,
            forall|k: int| 0 <= k < i ==> !is_white(#[trigger] tag@[k]) && tag@[k] != '"',
        decreases t.len() - i,
    {
        if white(t[i]) || t[i] == '"' {
            assert(is_white(tag@[i as int]) || tag@[i as int] == '"');
            return None;
        }
        i = i + 1;
    }
    Some(t)
}

/// Writes an intensity.
pub fn serialize_intensity(i: Intensity) -> (r: Option<Vec<char>>)
    ensures
        match r {
            Some(t) => intensity_text(i) == Some(t@),
            None => intensity_text(i) is None,
        },
{
    match i {
        Intensity::Toast => None,
        Intensity::Ring => Some(chars_of("ring")),
        Intensity::Full => Some(chars_of("full")),
    }
}

fn char_of_kind(k: MarkerKind) -> (r: char)
    ensures
        r == marker_char(k),
{
    match k {
        MarkerKind::Time => '@',
        MarkerKind::Repeat => '!',
        MarkerKind::Tag => '#',
        MarkerKind::Intensity => '^',
        MarkerKind::Id => '~',
    }
}

fn marker_chars(value: &MarkerValue) -> (r: Option<Vec<char>>)
    ensures
        match r {
            Some(t) => marker_text(value@) == Some(t@),
            None => marker_text(value@) is None,
        },
{
    proof {
        reveal(value_text);
    }
    let text: Option<Vec<char>> = match value {
        MarkerValue::Time(e) => serialize_time(e),
        MarkerValue::Repeat(r) => serialize_recurrence(r),
        MarkerValue::Tag(t) => serialize_tag(t.as_str()),
        MarkerValue::Intensity(i) => serialize_intensity(*i),
        MarkerValue::Id(t) => {
            let chars: Vec<char> = chars_of(t.as_str());
            match parse_id(chars.as_slice()) {
                Some(id) => Some(chars_of(id.as_str())),
                None => None,
            }
        },
    };
    match text {
        Some(mut t) => {
            let mut r: Vec<char> = Vec::new();
            r.push(char_of_kind(value.kind()));
            r.append(&mut t);
            assert(r@ =~= seq![marker_char(value@.kind())] + value_text(value@).unwrap());
            Some(r)
        },
        None => None,
    }
}

/// The text of a marker, with the character that begins it.
///
/// There is none for a value that is left out by convention (`!once`, `^toast`), and none
/// for one that a line cannot express: a tag that is empty or holds white space or a
/// quotation mark, an identifier of a wrong length, a recurrence of every zero days, a date
/// or a time that does not exist, a time expression without either.
pub fn serialize_marker(value: &MarkerValue) -> (r: Option<String>)
    ensures
        match r {
            Some(t) => marker_text(value@) == Some(t@),
            None => marker_text(value@) is None,
        },
{
    match marker_chars(value) {
        Some(t) => Some(string_from(t.as_slice())),
        None => None,
    }
}

/// Whether a value is one that is left out by convention.
pub fn is_omitted_default(value: &MarkerValue) -> (r: bool)
    ensures
        r == omitted_default(value@),
{
    match value {
        MarkerValue::Repeat(Recurrence::Once) => true,
        MarkerValue::Intensity(Intensity::Toast) => true,
        _ => false,
    }
}

// ---------- Writing into a line ----------

/// The number of the first marker of a kind; that of the markers, where there is none.
pub open spec fn first_of(markers: Seq<Found>, kind: MarkerKind) -> nat
    decreases markers.len(),
{
    if markers.len() == 0 || markers[0].value.kind() == kind {
        0
    } else {
        1 + first_of(markers.skip(1), kind)
    }
}

/// Where the marker of a kind stands; a tag has no place of its own.
pub open spec fn place_of(markers: Seq<Found>, kind: MarkerKind) -> Option<Run> {
    let k = first_of(markers, kind) as int;
    if kind != MarkerKind::Tag && k < markers.len() {
        Some(markers[k].run)
    } else {
        None
    }
}

/// What [`first_of`] finds.
pub proof fn lemma_first_of(markers: Seq<Found>, kind: MarkerKind)
    ensures
        first_of(markers, kind) <= markers.len(),
        forall|j: int|
            0 <= j < first_of(markers, kind) ==> (#[trigger] markers[j]).value.kind() != kind,
        first_of(markers, kind) < markers.len() ==> markers[first_of(markers, kind) as int].value.kind()
            == kind,
    decreases markers.len(),
{
    if markers.len() > 0 && markers[0].value.kind() != kind {
        let rest = markers.skip(1);
        lemma_first_of(rest, kind);
        assert forall|j: int| 0 <= j < first_of(markers, kind) implies (
        #[trigger] markers[j]).value.kind() != kind by {
            if j > 0 {
                assert(rest[j - 1] == markers[j]);
            }
        }
    }
}

/// Whether a value is among the markers.
pub open spec fn has_value(markers: Seq<Found>, v: Value) -> bool {
    exists|k: int| 0 <= k < markers.len() && (#[trigger] markers[k]).value == v
}

/// A line with other characters in the place of a run.
pub open spec fn replaced(s: Seq<char>, run: Run, text: Seq<char>) -> Seq<char> {
    s.take(run.start) + text + s.skip(run.end)
}

/// A line without a run and without the space before it.
pub open spec fn removed(s: Seq<char>, run: Run) -> Seq<char> {
    if run.start > 0 && s[run.start - 1] == ' ' {
        s.take(run.start - 1) + s.skip(run.end)
    } else {
        s.take(run.start) + s.skip(run.end)
    }
}

/// A line with a marker behind its last character that is not white space.
pub open spec fn appended(s: Seq<char>, text: Seq<char>) -> Seq<char> {
    let k = trimmed_len(s) as int;
    s.take(k).push(' ') + text + s.skip(k)
}

/// The name of a kind.
pub open spec fn kind_name(k: MarkerKind) -> Seq<char> {
    match k {
        MarkerKind::Time => "Time"@,
        MarkerKind::Repeat => "Repeat"@,
        MarkerKind::Tag => "Tag"@,
        MarkerKind::Intensity => "Intensity"@,
        MarkerKind::Id => "Id"@,
    }
}

/// A line into which a value has been written, or why it has not.
pub open spec fn written(s: Seq<char>, v: Value) -> Result<Seq<char>, Seq<char>> {
    let markers = line_metadata(s).markers;
    if trim(s).len() == 0 {
        Err("空行无法承载标记"@)
    } else {
        match (marker_text(v), place_of(markers, v.kind())) {
            (Some(text), Some(run)) => Ok(replaced(s, run, text)),
            (Some(text), None) => if v is Tag && has_value(markers, v) {
                Ok(s)
            } else {
                Ok(appended(s, text))
            },
            (None, place) => if !omitted_default(v) {
                Err(kind_name(v.kind()) + " 的取值无法用行内语法表达，拒绝写入"@)
            } else {
                match place {
                    Some(run) => Ok(removed(s, run)),
                    None => Ok(s),
                }
            },
        }
    }
}

fn name_of_kind(k: MarkerKind) -> (r: &'static str)
    ensures
        r@ == kind_name(k),
{
    match k {
        MarkerKind::Time => "Time",
        MarkerKind::Repeat => "Repeat",
        MarkerKind::Tag => "Tag",
        MarkerKind::Intensity => "Intensity",
        MarkerKind::Id => "Id",
    }
}

fn find_place(scan: &Scan, kind: MarkerKind, Ghost(s): Ghost<Seq<char>>) -> (r: Option<(usize, usize)>)
    requires
        scan.says(s, line_metadata(s)),
    ensures
        match r {
            Some(p) => place_of(line_metadata(s).markers, kind) == Some(
                Run { start: p.0 as int, end: p.1 as int },
            ),
            None => place_of(line_metadata(s).markers, kind) is None,
        },
{
    if kind == MarkerKind::Tag {
        return None;
    }
    let ghost markers = line_metadata(s).markers;
    assert(markers.skip(0) =~= markers);
    proof {
        assert(marker_views(scan.markers@).len() == found_views(s, markers).len());
        assert(run_pairs(scan.places@).len() == found_runs(markers).len());
    }
    let mut i: usize = 0;
    while i < scan.markers.len()
        invariant
            i <= scan.markers.len() == scan.places.len() == markers.len(),
            kind != MarkerKind::Tag,
            scan.says(s, line_metadata(s)),
            markers == line_metadata(s).markers,
            first_of(markers, kind) == i + first_of(markers.skip(i as int), kind),
        decreases scan.markers.len() - i,
    {
        proof {
            assert(marker_views(scan.markers@)[i as int] == found_views(s, markers)[i as int]);
            assert(run_pairs(scan.places@)[i as int] == found_runs(markers)[i as int]);
            assert(markers.skip(i as int).skip(1) =~= markers.skip(i + 1));
        }
        if scan.markers[i].value.kind() == kind {
            return Some(scan.places[i]);
        }
        i = i + 1;
    }
    None
}

fn has_tag(scan: &Scan, tag: &String, Ghost(s): Ghost<Seq<char>>) -> (r: bool)
    requires
        scan.says(s, line_metadata(s)),
    ensures
        r == has_value(line_metadata(s).markers, Value::Tag(tag@)),
{
    let ghost markers = line_metadata(s).markers;
    proof {
        assert(marker_views(scan.markers@).len() == found_views(s, markers).len());
    }
    let mut i: usize = 0;
    while i < scan.markers.len()
        invariant
            i <= scan.markers.len() == markers.len(),
            scan.says(s, line_metadata(s)),
            markers == line_metadata(s).markers,
            forall|k: int| 0 <= k < i ==> (#[trigger] markers[k]).value != Value::Tag(tag@),
        decreases scan.markers.len() - i,
    {
        proof {
            assert(marker_views(scan.markers@)[i as int] == found_views(s, markers)[i as int]);
        }
        if let MarkerValue::Tag(t) = &scan.markers[i].value {
            if *t == *tag {
                assert(markers[i as int].value == Value::Tag(tag@));
                return true;
            }
        }
        i = i + 1;
    }
    false
}

/// Takes a marker out of a line, together with the space before it.
fn remove_span(s: &[char], start: usize, end: usize) -> (r: Vec<char>)
    requires
        start <= end <= s.len(),
    ensures
        r@ == removed(s@, Run { start: start as int, end: end as int }),
{
    let from: usize = if start > 0 && s[start - 1] == ' ' {
        start - 1
    } else {
        start
    };
    let mut r: Vec<char> = Vec::new();
    push_chars(&mut r, slice_subrange(s, 0, from));
    push_chars(&mut r, slice_subrange(s, end, s.len()));
    r
}

/// Puts a marker behind the last character of a line that is not white space, so that the
/// white space at the end of the line stays where it is.
fn append_marker(s: &[char], text: &[char]) -> (r: Vec<char>)
    ensures
        r@ == appended(s@, text@),
{
    let at: usize = find_trimmed_len(s);
    let mut r: Vec<char> = Vec::new();
    push_chars(&mut r, slice_subrange(s, 0, at));
    r.push(' ');
    push_chars(&mut r, text);
    push_chars(&mut r, slice_subrange(s, at, s.len()));
    r
}

/// Writes a marker into a line: in the place of the marker of its kind, or behind the others.
///
/// Nothing else of the line changes. A value that is left out by convention takes the
/// marker of its kind out of the line. A tag is added, unless the line has it. A value that
/// a line cannot express is refused, and so is a line that is empty.
pub fn write_marker_to_line(line: &str, value: &MarkerValue) -> (r: Result<String, String>)
    ensures
        match r {
            Ok(out) => written(line@, value@) == Ok::<Seq<char>, Seq<char>>(out@),
            Err(e) => written(line@, value@) == Err::<Seq<char>, Seq<char>>(e@),
        },
{
    let s: Vec<char> = chars_of(line);
    if trimmed(s.as_slice()).len() == 0 {
        return Err(string_from(chars_of("空行无法承载标记").as_slice()));
    }
    let kind: MarkerKind = value.kind();
    let scan: Scan = read_line(line, s.as_slice());
    let place: Option<(usize, usize)> = find_place(&scan, kind, Ghost(s@));
    proof {
        lemma_place_bounds(s@, kind);
    }
    match marker_chars(value) {
        Some(text) => match place {
            Some((start, end)) => {
                let mut out: Vec<char> = Vec::new();
                push_chars(&mut out, slice_subrange(s.as_slice(), 0, start));
                push_chars(&mut out, text.as_slice());
                push_chars(&mut out, slice_subrange(s.as_slice(), end, s.len()));
                Ok(string_from(out.as_slice()))
            },
            None => {
                if let MarkerValue::Tag(t) = value {
                    if has_tag(&scan, t, Ghost(s@)) {
                        return Ok(string_from(s.as_slice()));
                    }
                }
                Ok(string_from(append_marker(s.as_slice(), text.as_slice()).as_slice()))
            },
        },
        None => {
            if !is_omitted_default(value) {
                return Err(
                    concat(name_of_kind(kind), " 的取值无法用行内语法表达，拒绝写入"),
                );
            }
            match place {
                Some((start, end)) => Ok(
                    string_from(remove_span(s.as_slice(), start, end).as_slice()),
                ),
                None => Ok(string_from(s.as_slice())),
            }
        },
    }
}

/// A marker stands within its line.
pub proof fn lemma_place_bounds(s: Seq<char>, kind: MarkerKind)
    ensures
        place_of(line_metadata(s).markers, kind) matches Some(run) ==> 0 <= run.start < run.end
            <= s.len(),
{
    lemma_runs(token_mask(s, line_start(s)));
    lemma_metadata_bounds(s, tokens(s, line_start(s)), Set::empty());
}

} // verus!

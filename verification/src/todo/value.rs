//! The values that a marker can have, and how they are read from its text.

use vstd::prelude::*;
use vstd::slice::slice_subrange;

use crate::number::{all_digits, has_digits_alone, number_of, parse_u32};
use crate::runs::{find_runs, lemma_runs, run_pairs, runs, Run};
use crate::text::{
    blank, has_prefix, is_blank, same_text, split, split_on, starts_with, string_from, texts,
};

verus! {

/// The kinds of markers.
#[derive(Debug, Clone, Copy, PartialEq, Eq, Hash, Structural)]
pub enum MarkerKind {
    Time,
    Repeat,
    Tag,
    Intensity,
    Id,
}

/// The date of a time expression, not evaluated.
#[derive(Debug, Clone, Copy, PartialEq, Eq, Structural)]
pub enum DatePart {
    /// A date of the calendar, written `YYYY-MM-DD`.
    Absolute { year: u32, month: u32, day: u32 },
    /// The day on which it is evaluated.
    Today,
    /// The day after that.
    Tomorrow,
}

/// A time expression, not evaluated.
///
/// At least one of its parts is there:
/// - `@18:00` has a time alone,
/// - `@2026-08-14` a date alone,
/// - `@today 20:00` both.
#[derive(Debug, Clone, Copy, PartialEq, Eq)]
pub struct TimeExpr {
    pub date: Option<DatePart>,
    /// Hour and minute.
    pub time: Option<(u32, u32)>,
}

/// How often a reminder comes back.
#[derive(Debug, Clone, Copy, PartialEq, Eq, Structural)]
pub enum Recurrence {
    Once,
    Daily,
    Weekly,
    Monthly,
    Yearly,
    Weekdays,
    /// `every_3d`
    EveryDays { n: u32 },
    /// `every_2w`
    EveryWeeks { n: u32 },
}

/// How loud a reminder is.
#[derive(Debug, Clone, Copy, PartialEq, Eq, Structural)]
pub enum Intensity {
    Toast,
    Ring,
    Full,
}

/// The value of a marker.
#[derive(Debug, Clone, PartialEq, Eq)]
pub enum MarkerValue {
    Time(TimeExpr),
    Repeat(Recurrence),
    Tag(String),
    Intensity(Intensity),
    Id(String),
}

/// The value of a marker, its texts as sequences of characters.
pub enum Value {
    Time(TimeExpr),
    Repeat(Recurrence),
    Tag(Seq<char>),
    Intensity(Intensity),
    Id(Seq<char>),
}

impl View for MarkerValue {
    type V = Value;

    open spec fn view(&self) -> Value {
        match self {
            MarkerValue::Time(t) => Value::Time(*t),
            MarkerValue::Repeat(r) => Value::Repeat(*r),
            MarkerValue::Tag(t) => Value::Tag(t@),
            MarkerValue::Intensity(i) => Value::Intensity(*i),
            MarkerValue::Id(t) => Value::Id(t@),
        }
    }
}

impl Value {
    pub open spec fn kind(self) -> MarkerKind {
        match self {
            Value::Time(_) => MarkerKind::Time,
            Value::Repeat(_) => MarkerKind::Repeat,
            Value::Tag(_) => MarkerKind::Tag,
            Value::Intensity(_) => MarkerKind::Intensity,
            Value::Id(_) => MarkerKind::Id,
        }
    }
}

impl MarkerValue {
    /// The kind of marker that has this value.
    pub fn kind(&self) -> (r: MarkerKind)
        ensures
            r == self@.kind(),
    {
        match self {
            MarkerValue::Time(_) => MarkerKind::Time,
            MarkerValue::Repeat(_) => MarkerKind::Repeat,
            MarkerValue::Tag(_) => MarkerKind::Tag,
            MarkerValue::Intensity(_) => MarkerKind::Intensity,
            MarkerValue::Id(_) => MarkerKind::Id,
        }
    }
}

// ---------- The calendar ----------

/// Whether a year has a 29th of February.
pub open spec fn leap(year: int) -> bool {
    (year % 4 == 0 && year % 100 != 0) || year % 400 == 0
}

/// How many days a month has; none, where there is no such month.
pub open spec fn month_days(year: int, month: int) -> int {
    if month == 4 || month == 6 || month == 9 || month == 11 {
        30
    } else if month == 2 {
        if leap(year) {
            29
        } else {
            28
        }
    } else if 1 <= month <= 12 {
        31
    } else {
        0
    }
}

/// Whether the calendar has a date.
pub open spec fn valid_date(year: u32, month: u32, day: u32) -> bool {
    1 <= month <= 12 && 1 <= day <= month_days(year as int, month as int)
}

/// Whether a day has a time.
pub open spec fn valid_clock(hour: u32, minute: u32) -> bool {
    hour <= 23 && minute <= 59
}

/// Whether a year is a leap year.
pub fn is_leap(year: u32) -> (r: bool)
    ensures
        r == leap(year as int),
{
    (year % 4 == 0 && year % 100 != 0) || (year % 400 == 0)
}

/// How many days a month has; `0`, where there is no such month.
pub fn days_in_month(year: u32, month: u32) -> (r: u32)
    ensures
        r == month_days(year as int, month as int),
{
    match month {
        1 | 3 | 5 | 7 | 8 | 10 | 12 => 31,
        4 | 6 | 9 | 11 => 30,
        2 => {
            if is_leap(year) {
                29
            } else {
                28
            }
        },
        _ => 0,
    }
}

// ---------- Times ----------

/// The words of a text: its maximal runs of characters that are not blank.
pub open spec fn words(s: Seq<char>) -> Seq<Seq<char>> {
    runs(s.map_values(|c: char| !is_blank(c))).map_values(|r: Run| s.subrange(r.start, r.end))
}

/// The year that a text writes: four digits or more.
pub open spec fn year_of(s: Seq<char>) -> Option<u32> {
    if s.len() >= 4 && all_digits(s) {
        number_of(s)
    } else {
        None
    }
}

/// The number that a text writes with two digits.
pub open spec fn two_digits_of(s: Seq<char>) -> Option<u32> {
    if s.len() == 2 && all_digits(s) {
        number_of(s)
    } else {
        None
    }
}

/// The date that a text writes as `YYYY-MM-DD`, with zeros where a number is short.
pub open spec fn calendar_date_of(s: Seq<char>) -> Option<DatePart> {
    let parts = split_on(s, '-');
    if parts.len() != 3 {
        None
    } else {
        match (year_of(parts[0]), two_digits_of(parts[1]), two_digits_of(parts[2])) {
            (Some(year), Some(month), Some(day)) => if valid_date(year, month, day) {
                Some(DatePart::Absolute { year, month, day })
            } else {
                None
            },
            _ => None,
        }
    }
}

/// The date that a word writes.
pub open spec fn date_of(s: Seq<char>) -> Option<DatePart> {
    if s == "today"@ {
        Some(DatePart::Today)
    } else if s == "tomorrow"@ {
        Some(DatePart::Tomorrow)
    } else {
        calendar_date_of(s)
    }
}

/// The time of day that a word writes as `HH:MM`, with zeros where a number is short.
pub open spec fn clock_of(s: Seq<char>) -> Option<(u32, u32)> {
    let parts = split_on(s, ':');
    if parts.len() != 2 {
        None
    } else {
        match (two_digits_of(parts[0]), two_digits_of(parts[1])) {
            (Some(hour), Some(minute)) => if valid_clock(hour, minute) {
                Some((hour, minute))
            } else {
                None
            },
            _ => None,
        }
    }
}

/// What words say of a date and a time, the later ones overruling the earlier; nothing,
/// where one of them is neither.
pub open spec fn time_of_words(ws: Seq<Seq<char>>) -> Option<TimeExpr>
    decreases ws.len(),
{
    if ws.len() == 0 {
        Some(TimeExpr { date: None, time: None })
    } else {
        match time_of_words(ws.drop_last()) {
            None => None,
            Some(before) => match date_of(ws.last()) {
                Some(d) => Some(TimeExpr { date: Some(d), time: before.time }),
                None => match clock_of(ws.last()) {
                    Some(t) => Some(TimeExpr { date: before.date, time: Some(t) }),
                    None => None,
                },
            },
        }
    }
}

/// The time expression that a text writes.
#[verifier::opaque]
pub open spec fn time_of(s: Seq<char>) -> Option<TimeExpr> {
    if words(s).len() == 0 {
        None
    } else {
        time_of_words(words(s))
    }
}

fn parse_year(s: &[char]) -> (r: Option<u32>)
    ensures
        r == year_of(s@),
{
    if s.len() >= 4 && has_digits_alone(s) {
        parse_u32(s)
    } else {
        None
    }
}

fn parse_two_digits(s: &[char]) -> (r: Option<u32>)
    ensures
        r == two_digits_of(s@),
{
    if s.len() == 2 && has_digits_alone(s) {
        parse_u32(s)
    } else {
        None
    }
}

/// Reads a date written as `YYYY-MM-DD`.
pub fn parse_absolute_date(s: &[char]) -> (r: Option<DatePart>)
    ensures
        r == calendar_date_of(s@),
{
    let parts: Vec<Vec<char>> = split(s, '-');
    if parts.len() != 3 {
        return None;
    }
    assert(texts(parts@)[0] == parts[0]@);
    assert(texts(parts@)[1] == parts[1]@);
    assert(texts(parts@)[2] == parts[2]@);
    let year: u32 = match parse_year(parts[0].as_slice()) {
        Some(n) => n,
        None => return None,
    };
    let month: u32 = match parse_two_digits(parts[1].as_slice()) {
        Some(n) => n,
        None => return None,
    };
    let day: u32 = match parse_two_digits(parts[2].as_slice()) {
        Some(n) => n,
        None => return None,
    };
    if month == 0 || month > 12 || day == 0 || day > days_in_month(year, month) {
        return None;
    }
    Some(DatePart::Absolute { year, month, day })
}

/// Reads a time of day written as `HH:MM`.
pub fn parse_time(s: &[char]) -> (r: Option<(u32, u32)>)
    ensures
        r == clock_of(s@),
{
    let parts: Vec<Vec<char>> = split(s, ':');
    if parts.len() != 2 {
        return None;
    }
    assert(texts(parts@)[0] == parts[0]@);
    assert(texts(parts@)[1] == parts[1]@);
    let hour: u32 = match parse_two_digits(parts[0].as_slice()) {
        Some(n) => n,
        None => return None,
    };
    let minute: u32 = match parse_two_digits(parts[1].as_slice()) {
        Some(n) => n,
        None => return None,
    };
    if hour > 23 || minute > 59 {
        return None;
    }
    Some((hour, minute))
}

/// Reads a time expression: `18:00`, `2026-08-14`, `2026-08-14 18:00`, `today`,
/// `tomorrow 09:00` and the like.
pub fn parse_time_expr(s: &[char]) -> (r: Option<TimeExpr>)
    ensures
        r == time_of(s@),
{
    let ghost word = |c: char| !is_blank(c);
    proof {
        reveal(time_of);
    }
    let mut mask: Vec<bool> = Vec::new();
    let mut i: usize = 0;
    while i < s.len()
        invariant
            i <= s.len(),
            word == (|c: char| !is_blank(c)),
            mask@ == s@.take(i as int).map_values(word),
        decreases s.len() - i,
    {
        mask.push(!blank(s[i]));
        i = i + 1;
        assert(mask@ =~= s@.take(i as int).map_values(word));
    }
    assert(s@.take(i as int) =~= s@);
    let parts: Vec<(usize, usize)> = find_runs(mask.as_slice());
    let ghost ws = words(s@);
    proof {
        lemma_runs(mask@);
    }
    if parts.len() == 0 {
        return None;
    }
    let mut date: Option<DatePart> = None;
    let mut time: Option<(u32, u32)> = None;
    let mut k: usize = 0;
    while k < parts.len()
        invariant
            k <= parts.len() == ws.len(),
            run_pairs(parts@) == runs(mask@),
            mask.len() == s.len(),
            ws == words(s@),
            ws == runs(mask@).map_values(|r: Run| s@.subrange(r.start, r.end)),
            time_of_words(ws.take(k as int)) == Some(TimeExpr { date, time }),
        decreases parts.len() - k,
    {
        proof {
            lemma_runs(mask@);
            assert(run_pairs(parts@)[k as int] == runs(mask@)[k as int]);
            assert(ws.take(k + 1).drop_last() =~= ws.take(k as int));
            assert(ws.take(k + 1).last() == ws[k as int]);
        }
        let (start, end): (usize, usize) = parts[k];
        let part: &[char] = slice_subrange(s, start, end);
        assert(part@ == ws[k as int]);
        let found: Option<DatePart> = if same_text(part, "today") {
            Some(DatePart::Today)
        } else if same_text(part, "tomorrow") {
            Some(DatePart::Tomorrow)
        } else {
            parse_absolute_date(part)
        };
        assert(found == date_of(part@));
        if found.is_some() {
            date = found;
        } else {
            let clock: Option<(u32, u32)> = parse_time(part);
            if clock.is_none() {
                proof {
                    reveal(time_of);
                    lemma_time_of_words_stops(ws, k + 1);
                }
                return None;
            }
            time = clock;
        }
        k = k + 1;
    }
    assert(ws.take(k as int) =~= ws);
    Some(TimeExpr { date, time })
}

/// Where the first words say nothing of a time, all of them say nothing.
proof fn lemma_time_of_words_stops(ws: Seq<Seq<char>>, k: int)
    requires
        0 <= k <= ws.len(),
        time_of_words(ws.take(k)) is None,
    ensures
        time_of_words(ws) is None,
    decreases ws.len() - k,
{
    if k == ws.len() {
        assert(ws.take(k) =~= ws);
    } else {
        assert(ws.take(k + 1).drop_last() =~= ws.take(k));
        lemma_time_of_words_stops(ws, k + 1);
    }
}

// ---------- The other values ----------

/// The number of days or weeks between the beginning of a text and the letter at its end.
pub open spec fn every_of(s: Seq<char>) -> Option<Recurrence> {
    if !starts_with(s, "every_"@) || s.len() == 6 {
        None
    } else {
        match number_of(s.subrange(6, s.len() - 1)) {
            Some(n) => if n == 0 {
                None
            } else if s.last() == 'd' {
                Some(Recurrence::EveryDays { n })
            } else if s.last() == 'w' {
                Some(Recurrence::EveryWeeks { n })
            } else {
                None
            },
            None => None,
        }
    }
}

/// The recurrence that a text writes.
pub open spec fn recurrence_of(s: Seq<char>) -> Option<Recurrence> {
    if s == "once"@ {
        Some(Recurrence::Once)
    } else if s == "daily"@ {
        Some(Recurrence::Daily)
    } else if s == "weekly"@ {
        Some(Recurrence::Weekly)
    } else if s == "monthly"@ {
        Some(Recurrence::Monthly)
    } else if s == "yearly"@ {
        Some(Recurrence::Yearly)
    } else if s == "weekdays"@ {
        Some(Recurrence::Weekdays)
    } else {
        every_of(s)
    }
}

/// The intensity that a text writes.
pub open spec fn intensity_of(s: Seq<char>) -> Option<Intensity> {
    if s == "toast"@ {
        Some(Intensity::Toast)
    } else if s == "ring"@ {
        Some(Intensity::Ring)
    } else if s == "full"@ {
        Some(Intensity::Full)
    } else {
        None
    }
}

/// Whether a character is a digit in base sixteen, in upper or lower case.
pub open spec fn is_hex(c: char) -> bool {
    '0' <= c <= '9' || 'a' <= c <= 'f' || 'A' <= c <= 'F'
}

/// A digit in base sixteen, in lower case.
pub open spec fn hex_lower(c: char) -> char {
    if 'A' <= c <= 'F' {
        (c as int + 32) as char
    } else {
        c
    }
}

/// The identifier that a text writes: four to eight digits in base sixteen, in lower case.
pub open spec fn id_of(s: Seq<char>) -> Option<Seq<char>> {
    if 4 <= s.len() <= 8 && (forall|i: int| 0 <= i < s.len() ==> is_hex(#[trigger] s[i])) {
        Some(s.map_values(|c: char| hex_lower(c)))
    } else {
        None
    }
}

/// A text without the quotation marks around it, where it has both.
pub open spec fn unquoted(s: Seq<char>) -> Seq<char> {
    if s.len() >= 2 && s[0] == '"' && s.last() == '"' {
        s.subrange(1, s.len() - 1)
    } else {
        s
    }
}

/// The value that a text behind a marker character writes.
#[verifier::opaque]
pub open spec fn value_of(kind: MarkerKind, text: Seq<char>) -> Option<Value> {
    let s = unquoted(text);
    match kind {
        MarkerKind::Time => match time_of(s) {
            Some(t) => Some(Value::Time(t)),
            None => None,
        },
        MarkerKind::Repeat => match recurrence_of(s) {
            Some(r) => Some(Value::Repeat(r)),
            None => None,
        },
        MarkerKind::Tag => Some(Value::Tag(s)),
        MarkerKind::Intensity => match intensity_of(s) {
            Some(i) => Some(Value::Intensity(i)),
            None => None,
        },
        MarkerKind::Id => match id_of(s) {
            Some(id) => Some(Value::Id(id)),
            None => None,
        },
    }
}

/// A value that was read is of the kind that it was read as.
pub proof fn lemma_value_kind(kind: MarkerKind, text: Seq<char>)
    ensures
        value_of(kind, text) matches Some(v) ==> v.kind() == kind,
{
    reveal(value_of);
}

/// Reads a recurrence.
pub fn parse_recurrence(s: &[char]) -> (r: Option<Recurrence>)
    ensures
        r == recurrence_of(s@),
{
    if same_text(s, "once") {
        Some(Recurrence::Once)
    } else if same_text(s, "daily") {
        Some(Recurrence::Daily)
    } else if same_text(s, "weekly") {
        Some(Recurrence::Weekly)
    } else if same_text(s, "monthly") {
        Some(Recurrence::Monthly)
    } else if same_text(s, "yearly") {
        Some(Recurrence::Yearly)
    } else if same_text(s, "weekdays") {
        Some(Recurrence::Weekdays)
    } else {
        proof {
            reveal_strlit("every_");
        }
        if !has_prefix(s, "every_") || s.len() == 6 {
            return None;
        }
        let unit: char = s[s.len() - 1];
        let n: u32 = match parse_u32(slice_subrange(s, 6, s.len() - 1)) {
            Some(n) => n,
            None => return None,
        };
        if n == 0 {
            None
        } else if unit == 'd' {
            Some(Recurrence::EveryDays { n })
        } else if unit == 'w' {
            Some(Recurrence::EveryWeeks { n })
        } else {
            None
        }
    }
}

/// Reads an intensity.
pub fn parse_intensity(s: &[char]) -> (r: Option<Intensity>)
    ensures
        r == intensity_of(s@),
{
    if same_text(s, "toast") {
        Some(Intensity::Toast)
    } else if same_text(s, "ring") {
        Some(Intensity::Ring)
    } else if same_text(s, "full") {
        Some(Intensity::Full)
    } else {
        None
    }
}

fn lower(c: char) -> (r: char)
    requires
        is_hex(c),
    ensures
        r == hex_lower(c),
{
    match c {
        'A' => 'a',
        'B' => 'b',
        'C' => 'c',
        'D' => 'd',
        'E' => 'e',
        'F' => 'f',
        _ => c,
    }
}

/// Reads an identifier.
pub fn parse_id(s: &[char]) -> (r: Option<String>)
    ensures
        match r {
            Some(id) => id_of(s@) == Some(id@),
            None => id_of(s@) is None,
        },
{
    if s.len() < 4 || s.len() > 8 {
        return None;
    }
    let mut id: String = String::new();
    let mut i: usize = 0;
    while i < s.len()
        invariant
            i <= s.len(),
            id@ == s@.take(i as int).map_values(|c: char| hex_lower(c)),
            forall|k: int| 0 <= k < i ==> is_hex(#[trigger] s@[k]),
        decreases s.len() - i,
    {
        let c: char = s[i];
        if !(('0' <= c && c <= '9') || ('a' <= c && c <= 'f') || ('A' <= c && c <= 'F')) {
            assert(!is_hex(s@[i as int]));
            return None;
        }
        id.push(lower(c));
        i = i + 1;
        assert(id@ =~= s@.take(i as int).map_values(|c: char| hex_lower(c)));
    }
    assert(s@.take(i as int) =~= s@);
    Some(id)
}

/// Reads the value behind a marker character.
pub fn parse_value(text: &[char], kind: MarkerKind) -> (r: Option<MarkerValue>)
    ensures
        match r {
            Some(v) => value_of(kind, text@) == Some(v@) && v@.kind() == kind,
            None => value_of(kind, text@) is None,
        },
{
    let s: &[char] = if text.len() >= 2 && text[0] == '"' && text[text.len() - 1] == '"' {
        slice_subrange(text, 1, text.len() - 1)
    } else {
        text
    };
    proof {
        reveal(value_of);
    }
    assert(s@ == unquoted(text@));
    match kind {
        MarkerKind::Time => match parse_time_expr(s) {
            Some(t) => Some(MarkerValue::Time(t)),
            None => None,
        },
        MarkerKind::Repeat => match parse_recurrence(s) {
            Some(r) => Some(MarkerValue::Repeat(r)),
            None => None,
        },
        MarkerKind::Tag => Some(MarkerValue::Tag(string_from(s))),
        MarkerKind::Intensity => match parse_intensity(s) {
            Some(i) => Some(MarkerValue::Intensity(i)),
            None => None,
        },
        MarkerKind::Id => match parse_id(s) {
            Some(id) => Some(MarkerValue::Id(id)),
            None => None,
        },
    }
}

} // verus!

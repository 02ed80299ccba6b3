//! What the words of a to-do line say: the grammar of the markers, word by word.

use vstd::prelude::*;

use crate::number::{
    all_digits, decimal, digits_value, is_digit, law_decimal_is_plain,
    law_nothing_else_is_a_number, law_padded_is_filled_up, lemma_padded_len, number_of, padded,
};
use crate::runs::{
    lemma_runs, lemma_runs_concat, lemma_runs_full, lemma_runs_none, runs, shift, shift_all,
};
use crate::text::{
    is_blank, is_white, join, law_join_undoes_split, law_split_parts_at_a_separator,
    law_trim_cuts_white_space, lemma_split_on_none, lemma_trim_empty, split_on, starts_with, trim,
};
use crate::todo::read_back::{
    law_id_reads_back, lemma_clock_text, lemma_date_text, normalized, word_mask,
};
use crate::todo::serialize::{
    clock_text, date_text, intensity_text, marker_char, marker_text, omitted_default,
    recurrence_text, time_text, value_text, written,
};
use crate::todo::splice::lemma_runs_cover;
use crate::todo::syntax::kind_of;
use crate::todo::value::{
    calendar_date_of, clock_of, date_of, every_of, hex_lower, id_of, intensity_of, is_hex, leap,
    month_days, recurrence_of, time_of, time_of_words, two_digits_of, unquoted, value_of, words,
    DatePart, Intensity, MarkerKind, Recurrence, TimeExpr, Value,
};

verus! {

// ---------- The calendar ----------

/// The years with a 29th of February are those by which the count of every fourth year,
/// without every hundredth, and with every four hundredth, grows.
pub proof fn law_leap_years(year: int)
    requires
        year >= 1,
    ensures
        year / 4 - year / 100 + year / 400 == (year - 1) / 4 - (year - 1) / 100 + (year - 1) / 400
            + (if leap(year) {
            1int
        } else {
            0
        }),
{
}

/// The months but February have thirty days and thirty-one in turn, July and August both
/// thirty-one; and all months of a year have three hundred and sixty-five days, or one more in
/// a leap year.
pub proof fn law_days_of_the_months(year: int, month: int)
    ensures
        1 <= month <= 12 && month != 2 ==> month_days(year, month) == 30 + (month + month / 8) % 2,
        !(1 <= month <= 12) ==> month_days(year, month) == 0,
        month_days(year, 1) + month_days(year, 2) + month_days(year, 3) + month_days(year, 4)
            + month_days(year, 5) + month_days(year, 6) + month_days(year, 7) + month_days(year, 8)
            + month_days(year, 9) + month_days(year, 10) + month_days(year, 11) + month_days(
            year,
            12,
        ) == (if leap(year) {
            366int
        } else {
            365
        }),
{
}

// ---------- Characters ----------

/// Each kind of marker begins with a character of its own, and no other character begins one.
pub proof fn law_characters_of_markers(c: char)
    ensures
        kind_of(c) == Some(MarkerKind::Time) <==> c == '@',
        kind_of(c) == Some(MarkerKind::Repeat) <==> c == '!',
        kind_of(c) == Some(MarkerKind::Tag) <==> c == '#',
        kind_of(c) == Some(MarkerKind::Intensity) <==> c == '^',
        kind_of(c) == Some(MarkerKind::Id) <==> c == '~',
        forall|k: MarkerKind| kind_of(#[trigger] marker_char(k)) == Some(k),
{
}

// ---------- Recurrences ----------

proof fn lemma_recurrence_words()
    ensures
        "once"@ == seq!['o', 'n', 'c', 'e'],
        "daily"@ == seq!['d', 'a', 'i', 'l', 'y'],
        "weekly"@ == seq!['w', 'e', 'e', 'k', 'l', 'y'],
        "monthly"@ == seq!['m', 'o', 'n', 't', 'h', 'l', 'y'],
        "yearly"@ == seq!['y', 'e', 'a', 'r', 'l', 'y'],
        "weekdays"@ == seq!['w', 'e', 'e', 'k', 'd', 'a', 'y', 's'],
        "every_"@ == seq!['e', 'v', 'e', 'r', 'y', '_'],
{
    reveal_strlit("once");
    reveal_strlit("daily");
    reveal_strlit("weekly");
    reveal_strlit("monthly");
    reveal_strlit("yearly");
    reveal_strlit("weekdays");
    reveal_strlit("every_");
    assert("once"@ =~= seq!['o', 'n', 'c', 'e']);
    assert("daily"@ =~= seq!['d', 'a', 'i', 'l', 'y']);
    assert("weekly"@ =~= seq!['w', 'e', 'e', 'k', 'l', 'y']);
    assert("monthly"@ =~= seq!['m', 'o', 'n', 't', 'h', 'l', 'y']);
    assert("yearly"@ =~= seq!['y', 'e', 'a', 'r', 'l', 'y']);
    assert("weekdays"@ =~= seq!['w', 'e', 'e', 'k', 'd', 'a', 'y', 's']);
    assert("every_"@ =~= seq!['e', 'v', 'e', 'r', 'y', '_']);
}

/// What is read as a recurrence that has a word is this word, and the word is read as it. So
/// no two words are read as the same recurrence.
pub proof fn law_words_of_recurrences(s: Seq<char>)
    ensures
        recurrence_of(s) == Some(Recurrence::Once) <==> s == "once"@,
        recurrence_of(s) == Some(Recurrence::Daily) <==> s == "daily"@,
        recurrence_of(s) == Some(Recurrence::Weekly) <==> s == "weekly"@,
        recurrence_of(s) == Some(Recurrence::Monthly) <==> s == "monthly"@,
        recurrence_of(s) == Some(Recurrence::Yearly) <==> s == "yearly"@,
        recurrence_of(s) == Some(Recurrence::Weekdays) <==> s == "weekdays"@,
{
    lemma_recurrence_words();
    assert("once"@.len() == 4);
    assert("daily"@.len() == 5);
    assert("weekly"@[0] == 'w' && "weekly"@.len() == 6);
    assert("monthly"@.len() == 7);
    assert("yearly"@[0] == 'y' && "yearly"@.len() == 6);
    assert("weekdays"@.len() == 8);
}

/// A number of days or weeks above zero, between `every_` and the letter of the unit, is read
/// as this interval, and nothing else is.
pub proof fn law_intervals_are_read(s: Seq<char>, n: u32)
    ensures
        recurrence_of(s) == Some(Recurrence::EveryDays { n }) <==> n > 0 && exists|d: Seq<char>|
            number_of(d) == Some(n) && s == "every_"@ + #[trigger] d.push('d'),
        recurrence_of(s) == Some(Recurrence::EveryWeeks { n }) <==> n > 0 && exists|d: Seq<char>|
            number_of(d) == Some(n) && s == "every_"@ + #[trigger] d.push('w'),
{
    lemma_recurrence_words();
    let every = "every_"@;
    assert(every[0] == 'e' && every.len() == 6);
    if recurrence_of(s) matches Some(r) && (r is EveryDays || r is EveryWeeks) {
        let d = s.subrange(6, s.len() - 1);
        law_nothing_else_is_a_number(d);
        assert(s.take(6) == every);
        assert(s =~= every + d.push(s.last()));
        assert(d.push(s.last()).last() == s.last());
    }
    if exists|d: Seq<char>| number_of(d) == Some(n) && s == every + #[trigger] d.push('d') {
        let d = choose|d: Seq<char>| number_of(d) == Some(n) && s == every + #[trigger] d.push('d');
        lemma_interval(s, d, 'd');
    }
    if exists|d: Seq<char>| number_of(d) == Some(n) && s == every + #[trigger] d.push('w') {
        let d = choose|d: Seq<char>| number_of(d) == Some(n) && s == every + #[trigger] d.push('w');
        lemma_interval(s, d, 'w');
    }
}

/// The number between the beginning and the letter of an interval.
proof fn lemma_interval(s: Seq<char>, d: Seq<char>, unit: char)
    requires
        s == "every_"@ + d.push(unit),
    ensures
        recurrence_of(s) == every_of(s),
        starts_with(s, "every_"@),
        s.len() > 6,
        s.subrange(6, s.len() - 1) == d,
        s.last() == unit,
{
    lemma_recurrence_words();
    let every = "every_"@;
    assert(s.take(6) =~= every);
    assert(s[0] == every[0]);
    assert("once"@[0] == 'o' && "daily"@[0] == 'd' && "weekly"@[0] == 'w');
    assert("monthly"@[0] == 'm' && "yearly"@[0] == 'y' && "weekdays"@[0] == 'w');
    assert(s.subrange(6, s.len() - 1) =~= d);
}

/// Every recurrence but the usual one is written: by its word, or as `every_`, the number and
/// the letter of the unit. An interval of zero is not.
pub proof fn law_recurrences_are_written(n: u32)
    ensures
        recurrence_text(Recurrence::Once) is None,
        recurrence_text(Recurrence::Daily) == Some("daily"@),
        recurrence_text(Recurrence::Weekly) == Some("weekly"@),
        recurrence_text(Recurrence::Monthly) == Some("monthly"@),
        recurrence_text(Recurrence::Yearly) == Some("yearly"@),
        recurrence_text(Recurrence::Weekdays) == Some("weekdays"@),
        n > 0 ==> recurrence_text(Recurrence::EveryDays { n }) == Some(
            "every_"@ + decimal(n as nat).push('d'),
        ),
        n > 0 ==> recurrence_text(Recurrence::EveryWeeks { n }) == Some(
            "every_"@ + decimal(n as nat).push('w'),
        ),
        recurrence_text(Recurrence::EveryDays { n: 0 }) is None,
        recurrence_text(Recurrence::EveryWeeks { n: 0 }) is None,
{
}

// ---------- Intensities ----------

/// What is read as an intensity is its word, and the word is read as it. The usual one is
/// read as well, though it is never written.
pub proof fn law_words_of_intensities(s: Seq<char>)
    ensures
        intensity_of(s) == Some(Intensity::Toast) <==> s == "toast"@,
        intensity_of(s) == Some(Intensity::Ring) <==> s == "ring"@,
        intensity_of(s) == Some(Intensity::Full) <==> s == "full"@,
        intensity_text(Intensity::Toast) is None,
        intensity_text(Intensity::Ring) == Some("ring"@),
        intensity_text(Intensity::Full) == Some("full"@),
{
    reveal_strlit("toast");
    reveal_strlit("ring");
    reveal_strlit("full");
    assert("toast"@.len() == 5);
    assert("ring"@[0] == 'r' && "ring"@.len() == 4);
    assert("full"@[0] == 'f' && "full"@.len() == 4);
}

// ---------- Identifiers ----------

/// An identifier is four to eight digits in base sixteen. Letters in upper case are read as
/// those in lower case; nothing else of it changes.
pub proof fn law_identifiers_are_read(s: Seq<char>, t: Seq<char>)
    ensures
        id_of(s) == Some(t) <==> {
            &&& 4 <= s.len() <= 8
            &&& t.len() == s.len()
            &&& forall|i: int|
                0 <= i < s.len() ==> {
                    ||| ('0' <= #[trigger] s[i] <= '9' || 'a' <= s[i] <= 'f') && t[i] == s[i]
                    ||| 'A' <= s[i] <= 'F' && t[i] as int == s[i] as int + 32
                }
        },
{
    let lower = s.map_values(|c: char| hex_lower(c));
    if id_of(s) == Some(t) {
        assert(t == lower);
        assert forall|i: int| 0 <= i < s.len() implies {
            ||| ('0' <= #[trigger] s[i] <= '9' || 'a' <= s[i] <= 'f') && t[i] == s[i]
            ||| 'A' <= s[i] <= 'F' && t[i] as int == s[i] as int + 32
        } by {
            assert(is_hex(s[i]));
            assert(t[i] == hex_lower(s[i]));
        }
    }
    if 4 <= s.len() <= 8 && t.len() == s.len() && (forall|i: int|
        0 <= i < s.len() ==> {
            ||| ('0' <= #[trigger] s[i] <= '9' || 'a' <= s[i] <= 'f') && t[i] == s[i]
            ||| 'A' <= s[i] <= 'F' && t[i] as int == s[i] as int + 32
        }) {
        assert forall|i: int| 0 <= i < s.len() implies is_hex(
            #[trigger] s[i],
        ) && lower[i] == t[i] by {}
        assert(lower =~= t);
    }
}

// ---------- Dates and times ----------

/// Two digits are worth ten times the first and once the second.
proof fn lemma_two_digits(s: Seq<char>)
    requires
        s.len() == 2,
        '0' <= s[0] <= '9',
        '0' <= s[1] <= '9',
    ensures
        two_digits_of(s) == Some(
            (10 * (s[0] as int - '0' as int) + (s[1] as int - '0' as int)) as u32,
        ),
{
    reveal_with_fuel(digits_value, 3);
    assert(all_digits(s)) by {
        assert forall|i: int| 0 <= i < s.len() implies is_digit(#[trigger] s[i]) by {}
    }
    assert(s.drop_last().last() == s[0]);
    assert(s.drop_last().drop_last().len() == 0);
}

/// A time of day is two digits, a colon and two digits, up to 23:59, and means the hour and
/// the minute that they write. Nothing else is one.
pub proof fn law_clock_is_read(s: Seq<char>, hour: u32, minute: u32)
    ensures
        clock_of(s) == Some((hour, minute)) <==> {
            &&& s.len() == 5
            &&& s[2] == ':'
            &&& '0' <= s[0] <= '9'
            &&& '0' <= s[1] <= '9'
            &&& '0' <= s[3] <= '9'
            &&& '0' <= s[4] <= '9'
            &&& hour == 10 * (s[0] as int - '0' as int) + (s[1] as int - '0' as int)
            &&& minute == 10 * (s[3] as int - '0' as int) + (s[4] as int - '0' as int)
            &&& hour <= 23
            &&& minute <= 59
        },
{
    let parts = split_on(s, ':');
    if clock_of(s) is Some {
        law_join_undoes_split(s, ':');
        reveal_with_fuel(join, 2);
        assert(parts.drop_last().len() == 1);
        assert(parts.drop_last()[0] == parts[0]);
        assert(s =~= parts[0].push(':') + parts[1]);
        assert(is_digit(parts[0][0]) && is_digit(parts[0][1]));
        assert(is_digit(parts[1][0]) && is_digit(parts[1][1]));
        assert(s[0] == parts[0][0] && s[1] == parts[0][1]);
        assert(s[3] == parts[1][0] && s[4] == parts[1][1]);
        lemma_two_digits(parts[0]);
        lemma_two_digits(parts[1]);
    }
    if s.len() == 5 && s[2] == ':' && '0' <= s[0] <= '9' && '0' <= s[1] <= '9' && '0' <= s[3]
        <= '9' && '0' <= s[4] <= '9' {
        let a = s.take(2);
        let b = s.skip(3);
        assert(s =~= a.push(':') + b);
        assert(!a.contains(':') && !b.contains(':'));
        lemma_split_on_none(a, ':');
        lemma_split_on_none(b, ':');
        law_split_parts_at_a_separator(a, b, ':');
        assert(parts =~= seq![a, b]);
        lemma_two_digits(a);
        lemma_two_digits(b);
    }
}

/// A date of the calendar is a year of four digits or more, a dash, two digits for the month,
/// a dash and two digits for the day, and means what they write. Nothing else is one.
pub proof fn law_date_is_read(s: Seq<char>, year: u32, month: u32, day: u32)
    ensures
        calendar_date_of(s) == Some(DatePart::Absolute { year, month, day }) <==> {
            let n = s.len() as int;
            &&& n >= 10
            &&& s[n - 3] == '-'
            &&& s[n - 6] == '-'
            &&& forall|i: int|
                0 <= i < n && i != n - 3 && i != n - 6 ==> '0' <= #[trigger] s[i] <= '9'
            &&& year == digits_value(s.take(n - 6))
            &&& month == 10 * (s[n - 5] as int - '0' as int) + (s[n - 4] as int - '0' as int)
            &&& day == 10 * (s[n - 2] as int - '0' as int) + (s[n - 1] as int - '0' as int)
            &&& 1 <= month <= 12
            &&& 1 <= day <= month_days(year as int, month as int)
        },
        calendar_date_of(s) matches Some(d) ==> d is Absolute,
{
    let parts = split_on(s, '-');
    let n = s.len() as int;
    if calendar_date_of(s) is Some {
        law_join_undoes_split(s, '-');
        reveal_with_fuel(join, 3);
        let y = parts[0];
        let m = parts[1];
        let d = parts[2];
        assert(parts.drop_last().drop_last().len() == 1);
        assert(parts.drop_last().drop_last()[0] == y);
        assert(parts.drop_last().last() == m);
        assert(s =~= (y.push('-') + m).push('-') + d);
        assert(y.len() == n - 6);
        assert(s.take(n - 6) =~= y);
        assert forall|i: int| 0 <= i < n && i != n - 3 && i != n - 6 implies '0'
            <= #[trigger] s[i] <= '9' by {
            if i < n - 6 {
                assert(is_digit(y[i]));
            } else if i < n - 3 {
                assert(is_digit(m[i - (n - 5)]));
            } else {
                assert(is_digit(d[i - (n - 2)]));
            }
        }
        assert(s[n - 5] == m[0] && s[n - 4] == m[1] && s[n - 2] == d[0] && s[n - 1] == d[1]);
        assert(is_digit(m[0]) && is_digit(m[1]) && is_digit(d[0]) && is_digit(d[1]));
        lemma_two_digits(m);
        lemma_two_digits(d);
        assert(is_digit(y[0]));
    }
    if n >= 10 && s[n - 3] == '-' && s[n - 6] == '-' && (forall|i: int|
        0 <= i < n && i != n - 3 && i != n - 6 ==> '0' <= #[trigger] s[i] <= '9') {
        let y = s.take(n - 6);
        let m = s.subrange(n - 5, n - 3);
        let d = s.skip(n - 2);
        let md = m.push('-') + d;
        assert(s =~= y.push('-') + md);
        assert(!y.contains('-')) by {
            if y.contains('-') {
                let i = choose|i: int| 0 <= i < y.len() && y[i] == '-';
                assert('0' <= s[i] <= '9');
            }
        }
        assert('0' <= s[n - 5] <= '9' && '0' <= s[n - 4] <= '9');
        assert('0' <= s[n - 2] <= '9' && '0' <= s[n - 1] <= '9');
        assert(!m.contains('-') && !d.contains('-'));
        lemma_split_on_none(y, '-');
        lemma_split_on_none(m, '-');
        lemma_split_on_none(d, '-');
        law_split_parts_at_a_separator(m, d, '-');
        law_split_parts_at_a_separator(y, md, '-');
        assert(parts =~= seq![y, m, d]);
        lemma_two_digits(m);
        lemma_two_digits(d);
        assert(all_digits(y)) by {
            assert forall|i: int| 0 <= i < y.len() implies is_digit(#[trigger] y[i]) by {
                assert('0' <= s[i] <= '9');
            }
        }
        assert(is_digit(y[0]));
    }
}

/// The words for the day on which a time is evaluated, and for the next, are read as these;
/// every other date is one of the calendar.
pub proof fn law_words_of_dates(s: Seq<char>)
    ensures
        date_of(s) == Some(DatePart::Today) <==> s == "today"@,
        date_of(s) == Some(DatePart::Tomorrow) <==> s == "tomorrow"@,
        s != "today"@ && s != "tomorrow"@ ==> date_of(s) == calendar_date_of(s),
{
    reveal_strlit("today");
    reveal_strlit("tomorrow");
    assert("today"@.len() == 5 && "tomorrow"@.len() == 8);
    if calendar_date_of(s) is Some {
        law_date_is_read(s, 0, 0, 0);
    }
}

/// Words say of a date and a time what their parts say, the later ones overruling the
/// earlier.
proof fn lemma_time_of_words(a: Seq<Seq<char>>, b: Seq<Seq<char>>)
    ensures
        time_of_words(a + b) == (match (time_of_words(a), time_of_words(b)) {
            (Some(x), Some(y)) => Some(
                TimeExpr {
                    date: if y.date is Some {
                        y.date
                    } else {
                        x.date
                    },
                    time: if y.time is Some {
                        y.time
                    } else {
                        x.time
                    },
                },
            ),
            _ => None,
        }),
    decreases b.len(),
{
    if b.len() == 0 {
        assert(a + b =~= a);
    } else {
        lemma_time_of_words(a, b.drop_last());
        assert((a + b).drop_last() =~= a + b.drop_last());
        assert((a + b).last() == b.last());
    }
}

/// The words of two texts with a blank between them are those of both.
pub proof fn lemma_words_parted(a: Seq<char>, c: char, b: Seq<char>)
    requires
        is_blank(c),
    ensures
        words(a.push(c) + b) == words(a) + words(b),
{
    let s = a.push(c) + b;
    let gap = seq![false];
    let ma = word_mask(a);
    let mb = word_mask(b);
    assert(word_mask(s) =~= ma + gap + mb);
    lemma_runs_none(gap);
    lemma_runs_concat(ma, gap);
    lemma_runs_concat(ma + gap, mb);
    let n = (a.len() + 1) as int;
    assert(runs(word_mask(s)) =~= runs(ma) + shift_all(runs(mb), n));
    lemma_runs(ma);
    lemma_runs(mb);
    let both = words(a) + words(b);
    assert forall|k: int| 0 <= k < words(s).len() implies #[trigger] words(s)[k] == both[k] by {
        if k < runs(ma).len() {
            let r = runs(ma)[k];
            assert(s.subrange(r.start, r.end) =~= a.subrange(r.start, r.end));
        } else {
            let r = runs(mb)[k - runs(ma).len()];
            assert(runs(word_mask(s))[k] == shift(r, n));
            assert(s.subrange(r.start + n, r.end + n) =~= b.subrange(r.start, r.end));
        }
    }
    assert(words(s) =~= both);
}

/// A text with a character that is not blank has a word.
proof fn lemma_has_word(s: Seq<char>, i: int)
    requires
        0 <= i < s.len(),
        !is_blank(s[i]),
    ensures
        words(s).len() > 0,
{
    let k = lemma_runs_cover(word_mask(s), i);
}

/// A text without blanks is one word.
pub proof fn lemma_one_word(s: Seq<char>)
    requires
        s.len() > 0,
        forall|i: int| 0 <= i < s.len() ==> !is_blank(#[trigger] s[i]),
    ensures
        words(s) == seq![s],
{
    let mask = word_mask(s);
    assert forall|i: int| 0 <= i < mask.len() implies #[trigger] mask[i] by {
        assert(!is_blank(s[i]));
    }
    lemma_runs_full(mask);
    assert(s.subrange(0, s.len() as int) =~= s);
    assert(words(s) =~= seq![s]);
}

/// One word is a time expression where it is a date or a time of day, and says this alone.
pub proof fn law_one_word_says_a_date_or_a_time(s: Seq<char>)
    requires
        s.len() > 0,
        forall|i: int| 0 <= i < s.len() ==> !is_blank(#[trigger] s[i]),
    ensures
        time_of(s) == (if date_of(s) is Some {
            Some(TimeExpr { date: date_of(s), time: None })
        } else if clock_of(s) is Some {
            Some(TimeExpr { date: None, time: clock_of(s) })
        } else {
            None
        }),
{
    reveal(time_of);
    reveal_with_fuel(time_of_words, 2);
    lemma_one_word(s);
    assert(seq![s].drop_last() =~= Seq::<Seq<char>>::empty());
}

/// Two time expressions with a blank between them say what both say; where both say a date,
/// or both a time of day, the later one holds. Where one of them is none, both together are
/// none.
pub proof fn law_time_expressions_add_up(a: Seq<char>, c: char, b: Seq<char>, i: int, j: int)
    requires
        is_blank(c),
        0 <= i < a.len(),
        !is_blank(a[i]),
        0 <= j < b.len(),
        !is_blank(b[j]),
    ensures
        time_of(a.push(c) + b) == (match (time_of(a), time_of(b)) {
            (Some(x), Some(y)) => Some(
                TimeExpr {
                    date: if y.date is Some {
                        y.date
                    } else {
                        x.date
                    },
                    time: if y.time is Some {
                        y.time
                    } else {
                        x.time
                    },
                },
            ),
            _ => None,
        }),
{
    reveal(time_of);
    lemma_words_parted(a, c, b);
    lemma_has_word(a, i);
    lemma_has_word(b, j);
    lemma_time_of_words(words(a), words(b));
}

/// Blanks alone say no time, and blanks around a time expression change nothing.
pub proof fn law_blanks_say_no_time(a: Seq<char>, c: char)
    requires
        is_blank(c),
    ensures
        (forall|i: int| 0 <= i < a.len() ==> is_blank(#[trigger] a[i])) ==> time_of(a) is None,
        time_of(a.push(c)) == time_of(a),
        time_of(seq![c] + a) == time_of(a),
{
    reveal(time_of);
    let none = Seq::<char>::empty();
    lemma_runs_none(word_mask(none));
    assert(words(none) =~= Seq::<Seq<char>>::empty());
    lemma_words_parted(a, c, none);
    assert(a.push(c) + none =~= a.push(c));
    assert(words(a) + words(none) =~= words(a));
    lemma_words_parted(none, c, a);
    assert(none.push(c) + a =~= seq![c] + a);
    assert(words(none) + words(a) =~= words(a));
    if forall|i: int| 0 <= i < a.len() ==> is_blank(#[trigger] a[i]) {
        lemma_runs_none(word_mask(a));
    }
}

// ---------- Values ----------

/// What stands behind the character of a marker is read as a value of its kind: of a tag
/// everything, of the others what says a time expression, a recurrence, an intensity or an
/// identifier. A pair of quotation marks around it changes nothing.
pub proof fn law_values_are_read_by_their_kind(kind: MarkerKind, t: Seq<char>)
    requires
        !(t.len() >= 2 && t[0] == '"' && t.last() == '"'),
    ensures
        value_of(MarkerKind::Tag, t) == Some(Value::Tag(t)),
        match (value_of(MarkerKind::Time, t), time_of(t)) {
            (Some(v), Some(e)) => v == Value::Time(e),
            (None, None) => true,
            _ => false,
        },
        match (value_of(MarkerKind::Repeat, t), recurrence_of(t)) {
            (Some(v), Some(r)) => v == Value::Repeat(r),
            (None, None) => true,
            _ => false,
        },
        match (value_of(MarkerKind::Intensity, t), intensity_of(t)) {
            (Some(v), Some(i)) => v == Value::Intensity(i),
            (None, None) => true,
            _ => false,
        },
        match (value_of(MarkerKind::Id, t), id_of(t)) {
            (Some(v), Some(d)) => v == Value::Id(d),
            (None, None) => true,
            _ => false,
        },
        value_of(kind, t) matches Some(v) ==> v.kind() == kind,
        value_of(kind, seq!['"'] + t + seq!['"']) == value_of(kind, t),
{
    reveal(value_of);
    let q = seq!['"'] + t + seq!['"'];
    assert(q.subrange(1, q.len() - 1) =~= t);
    assert(q.last() == '"');
}

/// The kind of each value.
pub proof fn law_kinds_of_values(e: TimeExpr, r: Recurrence, t: Seq<char>, i: Intensity)
    ensures
        Value::Time(e).kind() == MarkerKind::Time,
        Value::Repeat(r).kind() == MarkerKind::Repeat,
        Value::Tag(t).kind() == MarkerKind::Tag,
        Value::Intensity(i).kind() == MarkerKind::Intensity,
        Value::Id(t).kind() == MarkerKind::Id,
{
}

/// The text of a marker is the character of its kind and the text of its value. A tag is its
/// own text, unless it is empty or holds white space or a quotation mark; an identifier is
/// written as it is read.
pub proof fn law_markers_are_written(e: TimeExpr, r: Recurrence, t: Seq<char>, i: Intensity)
    ensures
        marker_text(Value::Time(e)) == (match time_text(e) {
            Some(text) => Some(seq!['@'] + text),
            None => None,
        }),
        marker_text(Value::Repeat(r)) == (match recurrence_text(r) {
            Some(text) => Some(seq!['!'] + text),
            None => None,
        }),
        marker_text(Value::Intensity(i)) == (match intensity_text(i) {
            Some(text) => Some(seq!['^'] + text),
            None => None,
        }),
        marker_text(Value::Id(t)) == (match id_of(t) {
            Some(text) => Some(seq!['~'] + text),
            None => None,
        }),
        marker_text(Value::Tag(t)) == (if t.len() > 0 && (forall|k: int|
            0 <= k < t.len() ==> !is_white(#[trigger] t[k]) && t[k] != '"') {
            Some(seq!['#'] + t)
        } else {
            None
        }),
{
    reveal(value_text);
}

/// A date that the calendar has is written so that it is read back, and with four digits for
/// the year unless it needs more. One that the calendar does not have is not written.
pub proof fn law_dates_are_written(year: u32, month: u32, day: u32)
    ensures
        date_text(DatePart::Today) == Some("today"@),
        date_text(DatePart::Tomorrow) == Some("tomorrow"@),
        date_text(DatePart::Absolute { year, month, day }) is Some <==> 1 <= month <= 12 && 1 <= day
            <= month_days(year as int, month as int),
        date_text(DatePart::Absolute { year, month, day }) matches Some(t) ==> calendar_date_of(t)
            == Some(DatePart::Absolute { year, month, day }) && (t.len() == 10 || t.len() > 10
            && t[0] != '0'),
{
    let d = DatePart::Absolute { year, month, day };
    if date_text(d) is Some {
        let t = date_text(d).unwrap();
        reveal_strlit("today");
        reveal_strlit("tomorrow");
        lemma_date_text(d);
        law_padded_is_filled_up(year as nat, 4);
        lemma_padded_len(month as nat, 2);
        lemma_padded_len(day as nat, 2);
        let y = padded(year as nat, 4);
        assert(t.len() == y.len() + 6);
        assert(t[0] == y[0]);
        assert('0' <= y[0] <= '9');
        assert(t != "today"@ && t != "tomorrow"@) by {
            assert("today"@[0] == 't' && "tomorrow"@[0] == 't');
        }
        if y.len() > 4 && year == 0 {
            law_decimal_is_plain(0);
        }
    }
}

/// A time that a day has is written so that it is read back; no other is written.
pub proof fn law_clocks_are_written(hour: u32, minute: u32)
    ensures
        clock_text((hour, minute)) is Some <==> hour <= 23 && minute <= 59,
        clock_text((hour, minute)) matches Some(t) ==> clock_of(t) == Some((hour, minute)),
{
    if clock_text((hour, minute)) is Some {
        lemma_clock_text((hour, minute));
    }
}

/// A time expression is written as its date, or its time of day, or both with a space between
/// them. One without either is not written, and neither is one with a part that is not.
pub proof fn law_time_expressions_are_written(d: DatePart, t: (u32, u32))
    ensures
        time_text(TimeExpr { date: None, time: None }) is None,
        time_text(TimeExpr { date: Some(d), time: None }) == date_text(d),
        time_text(TimeExpr { date: None, time: Some(t) }) == clock_text(t),
        time_text(TimeExpr { date: Some(d), time: Some(t) }) is Some <==> date_text(d) is Some
            && clock_text(t) is Some,
        date_text(d) is Some && clock_text(t) is Some ==> time_text(
            TimeExpr { date: Some(d), time: Some(t) },
        ) == Some(date_text(d).unwrap() + seq![' '] + clock_text(t).unwrap()),
{
    if date_text(d) is Some && clock_text(t) is Some {
        let a = date_text(d).unwrap();
        assert(a.push(' ') =~= a + seq![' ']);
    }
}

/// The values that are left out by convention are these two.
pub proof fn law_two_values_are_left_out(v: Value)
    ensures
        omitted_default(v) <==> v == Value::Repeat(Recurrence::Once) || v == Value::Intensity(
            Intensity::Toast,
        ),
        omitted_default(v) ==> marker_text(v) is None,
{
    reveal(value_text);
}

/// What is read of a value that was written is this value, but for the case of the letters of
/// an identifier.
pub proof fn law_only_identifiers_change(v: Value)
    ensures
        !(v is Id) ==> normalized(v) == v,
        v matches Value::Id(t) && id_of(t) is Some ==> normalized(v) == Value::Id(
            id_of(v->Id_0).unwrap(),
        ),
{
}

/// Words that say a time expression say parts that can be written.
proof fn lemma_read_parts(ws: Seq<Seq<char>>)
    requires
        time_of_words(ws) is Some,
    ensures
        ({
            let e = time_of_words(ws).unwrap();
            &&& e.date matches Some(d) ==> date_text(d) is Some
            &&& e.time matches Some(t) ==> clock_text(t) is Some
            &&& ws.len() > 0 ==> e.date is Some || e.time is Some
        }),
    decreases ws.len(),
{
    if ws.len() > 0 {
        lemma_read_parts(ws.drop_last());
    }
}

/// Every value that can be read from a line can be written into one, unless it is left out by
/// convention, or is a tag that no line can hold.
pub proof fn law_values_that_are_read_can_be_written(kind: MarkerKind, text: Seq<char>)
    ensures
        value_of(kind, text) matches Some(v) ==> v == Value::Repeat(Recurrence::Once) || v
            == Value::Intensity(Intensity::Toast) || v is Tag || marker_text(v) is Some,
{
    reveal(value_of);
    reveal(value_text);
    reveal(time_of);
    let s = unquoted(text);
    if value_of(kind, text) is Some {
        match kind {
            MarkerKind::Time => {
                lemma_read_parts(words(s));
            },
            MarkerKind::Repeat => {},
            MarkerKind::Tag => {},
            MarkerKind::Intensity => {},
            MarkerKind::Id => {
                law_id_reads_back(s);
            },
        }
    }
}

/// A value is written into a line exactly where the line holds more than white space, and the
/// value has a text or is left out by convention. What the user is told otherwise.
pub proof fn law_writing_fails_only_where_it_must(s: Seq<char>, v: Value)
    ensures
        ({
            let blank = forall|i: int| 0 <= i < s.len() ==> is_white(#[trigger] s[i]);
            let written_out = marker_text(v) is Some || v == Value::Repeat(Recurrence::Once) || v
                == Value::Intensity(Intensity::Toast);
            let name = match v {
                Value::Time(_) => "Time"@,
                Value::Repeat(_) => "Repeat"@,
                Value::Tag(_) => "Tag"@,
                Value::Intensity(_) => "Intensity"@,
                Value::Id(_) => "Id"@,
            };
            &&& written(s, v) is Ok <==> !blank && written_out
            &&& blank ==> written(s, v) == Err::<Seq<char>, Seq<char>>("空行无法承载标记"@)
            &&& !blank && !written_out ==> written(s, v) == Err::<Seq<char>, Seq<char>>(
                name + " 的取值无法用行内语法表达，拒绝写入"@,
            )
        }),
{
    let none = Seq::<char>::empty();
    if forall|i: int| 0 <= i < s.len() ==> is_white(#[trigger] s[i]) {
        assert(s + none + none =~= s);
        law_trim_cuts_white_space(s, none, none);
    } else if trim(s).len() == 0 {
        lemma_trim_empty(s);
    }
}

} // verus!

//! What is written reads back: the text of a value says that value.

use vstd::prelude::*;

use crate::number::{
    all_digits, decimal, is_digit, law_padded_reads_back, lemma_decimal_digits, lemma_padded_len,
    padded,
};
use crate::runs::{lemma_runs_concat, lemma_runs_full, lemma_runs_none, runs, Run};
use crate::text::{is_blank, is_white, lemma_split_on_append, lemma_split_on_none, split_on};
use crate::todo::serialize::{
    clock_text, date_text, intensity_text, recurrence_text, time_text, value_text,
};
use crate::todo::value::{
    clock_of, date_of, every_of, hex_lower, id_of, intensity_of, is_hex, recurrence_of, time_of,
    time_of_words, unquoted, value_of, words, DatePart, Intensity, Recurrence, TimeExpr, Value,
};

verus! {

/// A value as it is written: an identifier is in lower case.
pub open spec fn normalized(v: Value) -> Value {
    match v {
        Value::Id(t) => Value::Id(t.map_values(|c: char| hex_lower(c))),
        _ => v,
    }
}

/// Whether a text holds neither white space nor a quotation mark, and at least one character.
pub open spec fn is_word(s: Seq<char>) -> bool {
    s.len() > 0 && forall|i: int| 0 <= i < s.len() ==> !is_white(#[trigger] s[i]) && s[i] != '"'
}

pub open spec fn word_mask(s: Seq<char>) -> Seq<bool> {
    s.map_values(|c: char| !is_blank(c))
}

proof fn lemma_words_one(s: Seq<char>)
    requires
        is_word(s),
    ensures
        words(s) == seq![s],
{
    let mask = word_mask(s);
    assert forall|i: int| 0 <= i < mask.len() implies #[trigger] mask[i] by {
        assert(!is_white(s[i]));
    }
    lemma_runs_full(mask);
    assert(s.subrange(0, s.len() as int) =~= s);
    assert(words(s) =~= seq![s]);
}

proof fn lemma_words_two(a: Seq<char>, b: Seq<char>)
    requires
        is_word(a),
        is_word(b),
    ensures
        words(a.push(' ') + b) == seq![a, b],
{
    let s = a.push(' ') + b;
    let ma = word_mask(a);
    let mb = word_mask(b);
    let gap = seq![false];
    assert forall|i: int| 0 <= i < ma.len() implies #[trigger] ma[i] by {
        assert(!is_white(a[i]));
    }
    assert forall|i: int| 0 <= i < mb.len() implies #[trigger] mb[i] by {
        assert(!is_white(b[i]));
    }
    lemma_runs_full(ma);
    lemma_runs_full(mb);
    lemma_runs_none(gap);
    lemma_runs_concat(ma, gap);
    lemma_runs_concat(ma + gap, mb);
    assert(word_mask(s) =~= ma + gap + mb);
    let n = a.len() as int;
    let ra = Run { start: 0, end: n };
    let rb = Run { start: n + 1, end: n + 1 + b.len() };
    assert(runs(ma + gap) =~= seq![ra]);
    assert(runs(word_mask(s)) =~= seq![ra, rb]);
    assert(s.subrange(0, n) =~= a);
    assert(s.subrange(n + 1, n + 1 + b.len()) =~= b);
    assert(words(s) =~= seq![a, b]);
}

/// Digits hold no other character.
proof fn lemma_digits_hold_none(d: Seq<char>, c: char)
    requires
        all_digits(d),
        !is_digit(c),
    ensures
        !d.contains(c),
{
    if d.contains(c) {
        let i = choose|i: int| 0 <= i < d.len() && d[i] == c;
        assert(is_digit(d[i]));
    }
}

pub proof fn lemma_date_text(d: DatePart)
    requires
        date_text(d) is Some,
    ensures
        date_of(date_text(d).unwrap()) == Some(d),
        is_word(date_text(d).unwrap()),
{
    reveal_strlit("today");
    reveal_strlit("tomorrow");
    let t = date_text(d).unwrap();
    match d {
        DatePart::Absolute { year, month, day } => {
            let y = padded(year as nat, 4);
            let m = padded(month as nat, 2);
            let n = padded(day as nat, 2);
            law_padded_reads_back(year, 4);
            law_padded_reads_back(month, 2);
            law_padded_reads_back(day, 2);
            lemma_padded_len(year as nat, 4);
            lemma_padded_len(month as nat, 2);
            lemma_padded_len(day as nat, 2);
            lemma_digits_hold_none(y, '-');
            lemma_digits_hold_none(m, '-');
            lemma_digits_hold_none(n, '-');
            lemma_split_on_none(y, '-');
            lemma_split_on_append(y, '-', m);
            lemma_split_on_append(y.push('-') + m, '-', n);
            assert(t =~= (y.push('-') + m).push('-') + n);
            assert(split_on(t, '-') =~= seq![y, m, n]);
            assert(t[0] == y[0]);
            assert(is_digit(y[0]));
            assert forall|i: int| 0 <= i < t.len() implies !is_white(#[trigger] t[i]) && t[i]
                != '"' by {
                let a = y.len() as int;
                let b = a + 1 + m.len();
                if i < a {
                    assert(is_digit(y[i]));
                } else if a < i < b {
                    assert(is_digit(m[i - a - 1]));
                } else if i > b {
                    assert(is_digit(n[i - b - 1]));
                }
            }
        },
        DatePart::Today => {},
        DatePart::Tomorrow => {},
    }
}

pub proof fn lemma_clock_text(t: (u32, u32))
    requires
        clock_text(t) is Some,
    ensures
        clock_of(clock_text(t).unwrap()) == Some(t),
        date_of(clock_text(t).unwrap()) is None,
        is_word(clock_text(t).unwrap()),
{
    reveal_strlit("today");
    reveal_strlit("tomorrow");
    let s = clock_text(t).unwrap();
    let h = padded(t.0 as nat, 2);
    let m = padded(t.1 as nat, 2);
    law_padded_reads_back(t.0, 2);
    law_padded_reads_back(t.1, 2);
    lemma_padded_len(t.0 as nat, 2);
    lemma_padded_len(t.1 as nat, 2);
    lemma_digits_hold_none(h, ':');
    lemma_digits_hold_none(m, ':');
    lemma_split_on_none(h, ':');
    lemma_split_on_append(h, ':', m);
    assert(split_on(s, ':') =~= seq![h, m]);
    assert(s[0] == h[0]);
    assert(is_digit(h[0]));
    assert forall|i: int| 0 <= i < s.len() implies !is_white(#[trigger] s[i]) && s[i] != '"' && s[i]
        != '-' by {
        if i < h.len() {
            assert(is_digit(h[i]));
        } else if i > h.len() {
            assert(is_digit(m[i - h.len() - 1]));
        }
    }
    assert(!s.contains('-'));
    lemma_split_on_none(s, '-');
}

/// The text of a time expression says that expression. It is one word, or two with a space
/// between them.
pub proof fn law_time_reads_back(e: TimeExpr)
    requires
        time_text(e) is Some,
    ensures
        time_of(time_text(e).unwrap()) == Some(e),
        match (e.date, e.time) {
            (Some(d), Some(t)) => is_word(date_text(d).unwrap()) && is_word(clock_text(t).unwrap())
                && time_text(e).unwrap() == date_text(d).unwrap().push(' ') + clock_text(
                t,
            ).unwrap(),
            _ => is_word(time_text(e).unwrap()),
        },
{
    reveal(time_of);
    reveal_with_fuel(time_of_words, 3);
    let s = time_text(e).unwrap();
    match (e.date, e.time) {
        (Some(d), Some(t)) => {
            let a = date_text(d).unwrap();
            let b = clock_text(t).unwrap();
            lemma_date_text(d);
            lemma_clock_text(t);
            lemma_words_two(a, b);
            assert(seq![a, b].drop_last() =~= seq![a]);
            assert(seq![a].drop_last() =~= Seq::<Seq<char>>::empty());
        },
        (Some(d), None) => {
            lemma_date_text(d);
            lemma_words_one(s);
            assert(seq![s].drop_last() =~= Seq::<Seq<char>>::empty());
        },
        (None, Some(t)) => {
            lemma_clock_text(t);
            lemma_words_one(s);
            assert(seq![s].drop_last() =~= Seq::<Seq<char>>::empty());
        },
        (None, None) => {},
    }
}

proof fn lemma_every_text(n: u32, unit: char)
    requires
        n > 0,
        unit == 'd' || unit == 'w',
    ensures
        ({
            let s = "every_"@ + decimal(n as nat).push(unit);
            &&& is_word(s)
            &&& s[0] == 'e'
            &&& every_of(s) == Some(
                if unit == 'd' {
                    Recurrence::EveryDays { n }
                } else {
                    Recurrence::EveryWeeks { n }
                },
            )
        }),
{
    reveal_strlit("every_");
    let d = decimal(n as nat);
    let s = "every_"@ + d.push(unit);
    lemma_decimal_digits(n as nat);
    law_padded_reads_back(n, 0);
    assert(padded(n as nat, 0) == d);
    assert(s.take(6) =~= "every_"@);
    assert(s.subrange(6, s.len() - 1) =~= d);
    assert forall|i: int| 0 <= i < s.len() implies !is_white(#[trigger] s[i]) && s[i] != '"' by {
        if 6 <= i < s.len() - 1 {
            assert(is_digit(d[i - 6]));
        }
    }
}

/// The text of a recurrence says that recurrence.
pub proof fn law_recurrence_reads_back(r: Recurrence)
    requires
        recurrence_text(r) is Some,
    ensures
        recurrence_of(recurrence_text(r).unwrap()) == Some(r),
        is_word(recurrence_text(r).unwrap()),
{
    reveal_strlit("once");
    reveal_strlit("daily");
    reveal_strlit("weekly");
    reveal_strlit("monthly");
    reveal_strlit("yearly");
    reveal_strlit("weekdays");
    let s = recurrence_text(r).unwrap();
    match r {
        Recurrence::EveryDays { n } => {
            lemma_every_text(n, 'd');
        },
        Recurrence::EveryWeeks { n } => {
            lemma_every_text(n, 'w');
        },
        Recurrence::Daily => {
            assert(s[0] == 'd');
        },
        Recurrence::Weekly => {
            assert(s[4] == 'l');
        },
        Recurrence::Monthly => {
            assert(s[0] == 'm');
        },
        Recurrence::Yearly => {
            assert(s[0] == 'y');
        },
        _ => {
            assert(s.len() == 8);
        },
    }
}

/// The text of an intensity says that intensity.
pub proof fn law_intensity_reads_back(i: Intensity)
    requires
        intensity_text(i) is Some,
    ensures
        intensity_of(intensity_text(i).unwrap()) == Some(i),
        is_word(intensity_text(i).unwrap()),
{
    reveal_strlit("toast");
    reveal_strlit("ring");
    reveal_strlit("full");
    let s = intensity_text(i).unwrap();
    assert(s[0] == 'r' || s[0] == 'f');
}

/// The text of an identifier says that identifier, in lower case.
pub proof fn law_id_reads_back(t: Seq<char>)
    requires
        id_of(t) is Some,
    ensures
        id_of(id_of(t).unwrap()) == Some(id_of(t).unwrap()),
        is_word(id_of(t).unwrap()),
{
    let s = id_of(t).unwrap();
    assert forall|i: int| 0 <= i < s.len() implies is_hex(#[trigger] s[i]) && hex_lower(s[i]) == s[i]
        by {
        assert(is_hex(t[i]));
    }
    assert(s.map_values(|c: char| hex_lower(c)) =~= s);
}

/// Behind its marker character, the text of a value is one word that says this value; or it
/// is a date and a time, with a space between them.
pub proof fn law_value_reads_back(v: Value)
    requires
        value_text(v) is Some,
    ensures
        value_of(v.kind(), value_text(v).unwrap()) == Some(normalized(v)),
        match v {
            Value::Time(TimeExpr { date: Some(d), time: Some(t) }) => is_word(
                date_text(d).unwrap(),
            ) && is_word(clock_text(t).unwrap()) && value_text(v).unwrap() == date_text(
                d,
            ).unwrap().push(' ') + clock_text(t).unwrap(),
            _ => is_word(value_text(v).unwrap()),
        },
        forall|i: int|
            0 <= i < value_text(v).unwrap().len() ==> #[trigger] value_text(v).unwrap()[i] != '"',
{
    reveal(value_text);
    reveal(value_of);
    let s = value_text(v).unwrap();
    match v {
        Value::Time(e) => {
            law_time_reads_back(e);
        },
        Value::Repeat(r) => {
            law_recurrence_reads_back(r);
        },
        Value::Tag(t) => {
            assert forall|i: int| 0 <= i < s.len() implies !is_white(#[trigger] s[i]) && s[i]
                != '"' by {
                assert(!is_white(t[i]));
            }
        },
        Value::Intensity(i) => {
            law_intensity_reads_back(i);
        },
        Value::Id(t) => {
            law_id_reads_back(t);
        },
    }
    assert forall|i: int| 0 <= i < s.len() implies #[trigger] s[i] != '"' by {
        if let Value::Time(TimeExpr { date: Some(d), time: Some(t) }) = v {
            let a = date_text(d).unwrap();
            if i < a.len() {
                assert(a[i] != '"');
            } else if i > a.len() {
                assert(clock_text(t).unwrap()[i - a.len() - 1] != '"');
            }
        }
    }
    if s.len() > 0 {
        assert(s[0] != '"');
    }
    assert(unquoted(s) == s);
}

} // verus!

//! How the tokens of a line change when a part of it is exchanged.

use vstd::prelude::*;

use crate::number::{is_digit, number_of, unsigned_digits};
use crate::runs::{lemma_runs, lemma_runs_concat, runs, shift, shift_all};
use crate::text::{
    is_blank, is_white, join, law_join_undoes_split, leading_white, lemma_leading_white,
    lemma_trimmed_len, lemma_trimmed_len_is, split_on, starts_with, trim_start, trimmed_len,
};
use crate::todo::read_back::word_mask;
use crate::todo::syntax::{
    checkbox, in_quotation, lemma_quotes, quotations, quotes, token_mask,
};
use crate::todo::value::{
    clock_of, date_of, every_of, intensity_of, is_hex, recurrence_of, time_of, time_of_words,
    unquoted, value_of, words, MarkerKind,
};

verus! {

// ---------- Texts without quotation marks ----------

/// Whether a text holds no quotation mark.
pub open spec fn unmarked(s: Seq<char>) -> bool {
    forall|i: int| 0 <= i < s.len() ==> #[trigger] s[i] != '"'
}

proof fn lemma_number_unmarked(s: Seq<char>)
    requires
        number_of(s) is Some,
    ensures
        unmarked(s),
{
    let d = unsigned_digits(s);
    assert forall|i: int| 0 <= i < s.len() implies #[trigger] s[i] != '"' by {
        if d.len() == s.len() {
            assert(is_digit(d[i]));
        } else if i > 0 {
            assert(is_digit(d[i - 1]));
        }
    }
}

proof fn lemma_join_unmarked(pieces: Seq<Seq<char>>, sep: char)
    requires
        sep != '"',
        forall|i: int| 0 <= i < pieces.len() ==> unmarked(#[trigger] pieces[i]),
    ensures
        unmarked(join(pieces, sep)),
    decreases pieces.len(),
{
    if pieces.len() > 1 {
        lemma_join_unmarked(pieces.drop_last(), sep);
        let whole = join(pieces, sep);
        let left = join(pieces.drop_last(), sep);
        assert(unmarked(pieces[pieces.len() - 1]));
        assert forall|i: int| 0 <= i < whole.len() implies #[trigger] whole[i] != '"' by {
            if i < left.len() {
                assert(whole[i] == left[i]);
            } else if i > left.len() {
                assert(whole[i] == pieces.last()[i - left.len() - 1]);
            }
        }
    }
}

proof fn lemma_date_unmarked(s: Seq<char>)
    requires
        date_of(s) is Some,
    ensures
        unmarked(s),
{
    reveal_strlit("today");
    reveal_strlit("tomorrow");
    if s != "today"@ && s != "tomorrow"@ {
        let parts = split_on(s, '-');
        lemma_number_unmarked(parts[0]);
        lemma_number_unmarked(parts[1]);
        lemma_number_unmarked(parts[2]);
        lemma_join_unmarked(parts, '-');
        law_join_undoes_split(s, '-');
    }
}

proof fn lemma_clock_unmarked(s: Seq<char>)
    requires
        clock_of(s) is Some,
    ensures
        unmarked(s),
{
    let parts = split_on(s, ':');
    lemma_number_unmarked(parts[0]);
    lemma_number_unmarked(parts[1]);
    lemma_join_unmarked(parts, ':');
    law_join_undoes_split(s, ':');
}

proof fn lemma_time_words_unmarked(ws: Seq<Seq<char>>)
    requires
        time_of_words(ws) is Some,
    ensures
        forall|i: int| 0 <= i < ws.len() ==> unmarked(#[trigger] ws[i]),
    decreases ws.len(),
{
    if ws.len() > 0 {
        lemma_time_words_unmarked(ws.drop_last());
        if date_of(ws.last()) is Some {
            lemma_date_unmarked(ws.last());
        } else {
            lemma_clock_unmarked(ws.last());
        }
        assert forall|i: int| 0 <= i < ws.len() implies unmarked(#[trigger] ws[i]) by {
            if i < ws.len() - 1 {
                assert(ws.drop_last()[i] == ws[i]);
            }
        }
    }
}

/// Each marked position lies in a run.
pub proof fn lemma_runs_cover(mask: Seq<bool>, i: int) -> (k: int)
    requires
        0 <= i < mask.len(),
        mask[i],
    ensures
        0 <= k < runs(mask).len(),
        runs(mask)[k].start <= i < runs(mask)[k].end,
    decreases mask.len(),
{
    let n = mask.len() - 1;
    let before = runs(mask.drop_last());
    lemma_runs(mask);
    if i == n {
        runs(mask).len() - 1
    } else {
        lemma_runs(mask.drop_last());
        let k = lemma_runs_cover(mask.drop_last(), i);
        k
    }
}

/// A text of a time holds no quotation marks.
pub proof fn lemma_time_unmarked(s: Seq<char>)
    requires
        time_of(s) is Some,
    ensures
        unmarked(s),
{
    reveal(time_of);
    lemma_time_words_unmarked(words(s));
    let mask = s.map_values(|c: char| !is_blank(c));
    lemma_runs(mask);
    assert forall|i: int| 0 <= i < s.len() implies #[trigger] s[i] != '"' by {
        if !is_blank(s[i]) {
            let k = lemma_runs_cover(mask, i);
            let r = runs(mask)[k];
            assert(words(s)[k] == s.subrange(r.start, r.end));
            assert(words(s)[k][i - r.start] == s[i]);
        }
    }
}

proof fn lemma_recurrence_unmarked(s: Seq<char>)
    requires
        recurrence_of(s) is Some,
    ensures
        unmarked(s),
{
    reveal_strlit("once");
    reveal_strlit("daily");
    reveal_strlit("weekly");
    reveal_strlit("monthly");
    reveal_strlit("yearly");
    reveal_strlit("weekdays");
    reveal_strlit("every_");
    if every_of(s) is Some {
        let d = s.subrange(6, s.len() - 1);
        lemma_number_unmarked(d);
        assert forall|i: int| 0 <= i < s.len() implies #[trigger] s[i] != '"' by {
            if i < 6 {
                assert(s.take(6)[i] == s[i]);
            } else if i < s.len() - 1 {
                assert(d[i - 6] == s[i]);
            }
        }
    }
}

proof fn lemma_intensity_unmarked(s: Seq<char>)
    requires
        intensity_of(s) is Some,
    ensures
        unmarked(s),
{
    reveal_strlit("toast");
    reveal_strlit("ring");
    reveal_strlit("full");
}

/// The text of a value that is not a tag holds no quotation marks, but for a pair round it.
pub proof fn lemma_value_unmarked(kind: MarkerKind, s: Seq<char>)
    requires
        kind != MarkerKind::Tag,
        value_of(kind, s) is Some,
        unquoted(s) == s,
    ensures
        unmarked(s),
{
    reveal(value_of);
    match kind {
        MarkerKind::Time => {
            lemma_time_unmarked(s);
        },
        MarkerKind::Repeat => {
            lemma_recurrence_unmarked(s);
        },
        MarkerKind::Intensity => {
            lemma_intensity_unmarked(s);
        },
        MarkerKind::Id => {
            assert forall|i: int| 0 <= i < s.len() implies #[trigger] s[i] != '"' by {
                assert(is_hex(s[i]));
            }
        },
        MarkerKind::Tag => {},
    }
}

// ---------- Quotations ----------

/// The quotation marks of two texts side by side.
proof fn lemma_quotes_concat(a: Seq<char>, b: Seq<char>)
    ensures
        quotes(a + b) == quotes(a) + quotes(b).map_values(|p: int| p + a.len()),
    decreases b.len(),
{
    let moved = quotes(b).map_values(|p: int| p + a.len());
    if b.len() == 0 {
        assert(a + b =~= a);
        assert(quotes(a) + moved =~= quotes(a));
    } else {
        lemma_quotes_concat(a, b.drop_last());
        assert((a + b).drop_last() =~= a + b.drop_last());
        assert(quotes(a + b) =~= quotes(a) + moved);
    }
}

proof fn lemma_quotes_none(s: Seq<char>)
    requires
        unmarked(s),
    ensures
        quotes(s).len() == 0,
{
    lemma_quotes(s);
    if quotes(s).len() > 0 {
        assert(s[quotes(s)[0]] == '"');
    }
}

/// Each quotation mark of a text is among its quotation marks.
proof fn lemma_quotes_all(s: Seq<char>, i: int) -> (k: int)
    requires
        0 <= i < s.len(),
        s[i] == '"',
    ensures
        0 <= k < quotes(s).len(),
        quotes(s)[k] == i,
    decreases s.len(),
{
    if i == s.len() - 1 {
        quotes(s).len() - 1
    } else {
        lemma_quotes_all(s.drop_last(), i)
    }
}

/// Two quotation marks outside the quotations do not occur.
pub proof fn lemma_one_left_over(s: Seq<char>, i: int, j: int)
    requires
        0 <= i < j < s.len(),
        s[i] == '"',
        s[j] == '"',
    ensures
        in_quotation(s, i) || in_quotation(s, j),
{
    reveal(in_quotation);
    lemma_quotes(s);
    let a = lemma_quotes_all(s, i);
    let b = lemma_quotes_all(s, j);
    assert(a < b) by {
        if b < a {
            assert(quotes(s)[b] < quotes(s)[a]);
        }
    }
    let k = a / 2;
    assert(2 * k <= a <= 2 * k + 1);
    assert(k < quotes(s).len() / 2);
    let q = quotations(s)[k];
    assert(q.start == quotes(s)[2 * k] && q.end == quotes(s)[2 * k + 1] + 1);
    if a == 2 * k {
        assert(quotes(s)[a] < quotes(s)[a + 1]);
    } else {
        assert(quotes(s)[2 * k] < quotes(s)[a]);
    }
}

/// A part without quotation marks that no quotation goes across.
pub open spec fn free_part(s: Seq<char>, a: int, b: int) -> bool {
    &&& 0 <= a <= b <= s.len()
    &&& unmarked(s.subrange(a, b))
    &&& forall|k: int|
        0 <= k < quotations(s).len() ==> (#[trigger] quotations(s)[k]).end <= a || quotations(
            s,
        )[k].start >= b
}

/// A line with other characters in the place of those from `a` to `b`.
pub open spec fn spliced(s: Seq<char>, a: int, b: int, mid: Seq<char>) -> Seq<char> {
    s.take(a) + mid + s.skip(b)
}

/// Where the other quotations stand after characters were exchanged for others.
pub proof fn lemma_quotations_spliced(s: Seq<char>, a: int, b: int, mid: Seq<char>)
    requires
        free_part(s, a, b),
        unmarked(mid),
    ensures
        ({
            let out = spliced(s, a, b, mid);
            let by = mid.len() - (b - a);
            &&& quotations(out).len() == quotations(s).len()
            &&& forall|k: int|
                0 <= k < quotations(s).len() ==> #[trigger] quotations(out)[k] == (if quotations(
                    s,
                )[k].end <= a {
                    quotations(s)[k]
                } else {
                    shift(quotations(s)[k], by)
                })
        }),
{
    let out = spliced(s, a, b, mid);
    let by = mid.len() - (b - a);
    let left = s.take(a);
    let old_mid = s.subrange(a, b);
    let right = s.skip(b);
    let ql = quotes(left);
    assert(s =~= left + old_mid + right);
    lemma_quotes_concat(left, old_mid);
    lemma_quotes_concat(left + old_mid, right);
    lemma_quotes_concat(left, mid);
    lemma_quotes_concat(left + mid, right);
    lemma_quotes_none(old_mid);
    lemma_quotes_none(mid);
    lemma_quotes(left);
    lemma_quotes(right);
    lemma_quotes(s);
    assert(quotes(left + old_mid) =~= ql);
    assert(quotes(left + mid) =~= ql);
    assert(quotes(s).len() == quotes(out).len());
    assert forall|k: int| 0 <= k < quotes(s).len() implies #[trigger] quotes(out)[k] == (if quotes(
        s,
    )[k] < a {
        quotes(s)[k]
    } else {
        quotes(s)[k] + by
    }) by {
        if k < ql.len() {
            assert(quotes(s)[k] == ql[k]);
        } else {
            assert(quotes(s)[k] == quotes(right)[k - ql.len()] + b);
            assert(quotes(right)[k - ql.len()] >= 0);
        }
    }
    assert forall|k: int| 0 <= k < quotations(s).len() implies #[trigger] quotations(out)[k] == (
    if quotations(s)[k].end <= a {
        quotations(s)[k]
    } else {
        shift(quotations(s)[k], by)
    }) by {
        let q = quotations(s)[k];
        assert(quotes(s)[2 * k] < quotes(s)[2 * k + 1]);
        assert(q.end <= a || q.start >= b);
    }
}

/// Which of the other positions lie within a quotation stays as it is, and the exchanged
/// characters lie in none.
pub proof fn lemma_in_quotation_spliced(s: Seq<char>, a: int, b: int, mid: Seq<char>)
    requires
        free_part(s, a, b),
        unmarked(mid),
    ensures
        ({
            let out = spliced(s, a, b, mid);
            let by = mid.len() - (b - a);
            &&& forall|i: int| 0 <= i < a ==> #[trigger] in_quotation(out, i) == in_quotation(s, i)
            &&& forall|i: int| a <= i < a + mid.len() ==> !#[trigger] in_quotation(out, i)
            &&& forall|i: int|
                b <= i < s.len() ==> in_quotation(out, i + by) == #[trigger] in_quotation(s, i)
        }),
{
    reveal(in_quotation);
    let out = spliced(s, a, b, mid);
    let by = mid.len() - (b - a);
    lemma_quotations_spliced(s, a, b, mid);
    lemma_quotes(s);
    assert forall|i: int| 0 <= i < a implies #[trigger] in_quotation(out, i) == in_quotation(s, i) by {
        if in_quotation(s, i) {
            let k = choose|k: int|
                0 <= k < quotations(s).len() && (#[trigger] quotations(s)[k]).start <= i
                    < quotations(s)[k].end;
            assert(quotations(out)[k] == quotations(s)[k]);
        }
        if in_quotation(out, i) {
            let k = choose|k: int|
                0 <= k < quotations(out).len() && (#[trigger] quotations(out)[k]).start <= i
                    < quotations(out)[k].end;
            assert(quotations(s)[k].end <= a || quotations(s)[k].start >= b);
        }
    }
    assert forall|i: int| a <= i < a + mid.len() implies !#[trigger] in_quotation(out, i) by {
        if in_quotation(out, i) {
            let k = choose|k: int|
                0 <= k < quotations(out).len() && (#[trigger] quotations(out)[k]).start <= i
                    < quotations(out)[k].end;
            assert(quotations(s)[k].end <= a || quotations(s)[k].start >= b);
        }
    }
    assert forall|i: int| b <= i < s.len() implies in_quotation(out, i + by)
        == #[trigger] in_quotation(s, i) by {
        if in_quotation(s, i) {
            let k = choose|k: int|
                0 <= k < quotations(s).len() && (#[trigger] quotations(s)[k]).start <= i
                    < quotations(s)[k].end;
            assert(quotations(s)[k].end <= a || quotations(s)[k].start >= b);
            assert(quotations(out)[k] == shift(quotations(s)[k], by));
        }
        if in_quotation(out, i + by) {
            let k = choose|k: int|
                0 <= k < quotations(out).len() && (#[trigger] quotations(out)[k]).start <= i + by
                    < quotations(out)[k].end;
            assert(quotations(s)[k].end <= a || quotations(s)[k].start >= b);
        }
    }
}

// ---------- Tokens ----------

/// How much of a line is left without the white space at its end, after characters were
/// exchanged for others: the same, where what stands behind them, or they themselves, end
/// in another character.
pub proof fn lemma_trimmed_spliced(s: Seq<char>, a: int, b: int, mid: Seq<char>)
    requires
        0 <= a <= b <= trimmed_len(s),
        b < trimmed_len(s) || (mid.len() > 0 && !is_white(mid.last())),
    ensures
        trimmed_len(spliced(s, a, b, mid)) == trimmed_len(s) + mid.len() - (b - a),
{
    let out = spliced(s, a, b, mid);
    let by = mid.len() - (b - a);
    let n = trimmed_len(s) + by;
    lemma_trimmed_len(s);
    assert forall|i: int| n <= i < out.len() implies is_white(#[trigger] out[i]) by {
        assert(out[i] == s[i - by]);
    }
    if b < trimmed_len(s) {
        assert(out[n - 1] == s[trimmed_len(s) - 1]);
    } else {
        assert(out[n - 1] == mid.last());
    }
    lemma_trimmed_len_is(out, n);
}

/// Which positions belong to tokens, after characters were exchanged for others. What the
/// line has lost at its end with them, if anything, is blank.
pub proof fn lemma_token_mask_spliced(s: Seq<char>, a: int, b: int, mid: Seq<char>, start: int)
    requires
        free_part(s, a, b),
        unmarked(mid),
        start <= a,
        b <= trimmed_len(s),
        trimmed_len(spliced(s, a, b, mid)) <= trimmed_len(s) + mid.len() - (b - a),
        forall|i: int|
            trimmed_len(spliced(s, a, b, mid)) <= i < trimmed_len(s) + mid.len() - (b - a)
                ==> is_blank(#[trigger] spliced(s, a, b, mid)[i]),
    ensures
        token_mask(spliced(s, a, b, mid), start) == token_mask(s, start).take(a) + word_mask(mid)
            + token_mask(s, start).skip(b),
{
    let out = spliced(s, a, b, mid);
    let by = mid.len() - (b - a);
    let whole = token_mask(out, start);
    let mask = token_mask(s, start);
    let parts = mask.take(a) + word_mask(mid) + mask.skip(b);
    lemma_in_quotation_spliced(s, a, b, mid);
    lemma_trimmed_len(s);
    assert forall|i: int| 0 <= i < whole.len() implies #[trigger] whole[i] == parts[i] by {
        if i < a {
            assert(out[i] == s[i]);
            assert(in_quotation(out, i) == in_quotation(s, i));
        } else if i < a + mid.len() {
            assert(out[i] == mid[i - a]);
            assert(!in_quotation(out, i));
        } else {
            assert(out[i] == s[i - by]);
            assert(in_quotation(out, (i - by) + by) == in_quotation(s, i - by));
            assert(parts[i] == mask[i - by]);
        }
    }
    assert(whole =~= parts);
}

/// Where tokens end at both sides, the tokens of a line are those of its three parts.
pub proof fn lemma_runs_three(x: Seq<bool>, y: Seq<bool>, z: Seq<bool>)
    requires
        x.len() == 0 || !x.last(),
        z.len() == 0 || !z[0],
    ensures
        runs(x + y + z) == runs(x) + shift_all(runs(y), x.len() as int) + shift_all(
            runs(z),
            (x.len() + y.len()) as int,
        ),
{
    lemma_runs_concat(x, y);
    lemma_runs_concat(x + y, z);
}

// ---------- The checkbox ----------

/// The characters that may stand in a checkbox or before it.
pub open spec fn box_char(c: char) -> bool {
    is_white(c) || c == '-' || c == '*' || c == '[' || c == ']' || c == 'x' || c == 'X'
}

/// What stands before the text of a line that begins with a checkbox.
pub proof fn lemma_checkbox_chars(s: Seq<char>)
    requires
        checkbox(s) is Some,
    ensures
        leading_white(s) + 4 <= checkbox(s).unwrap().1 <= s.len(),
        s[checkbox(s).unwrap().1 - 2] == ']',
        s[checkbox(s).unwrap().1 - 1] == ' ',
        forall|i: int| 0 <= i < checkbox(s).unwrap().1 ==> box_char(#[trigger] s[i]),
{
    reveal(checkbox);
    reveal_strlit("- ");
    reveal_strlit("* ");
    reveal_strlit("[ ] ");
    reveal_strlit("[x] ");
    reveal_strlit("[X] ");
    let st = checkbox(s).unwrap().1;
    let trimmed = trim_start(s);
    let w = leading_white(s) as int;
    lemma_leading_white(s);
    let bullet = starts_with(trimmed, "- "@) || starts_with(trimmed, "* "@);
    let behind = trimmed.skip(2);
    let more = leading_white(behind) as int;
    lemma_leading_white(behind);
    let rest = if bullet {
        trim_start(behind)
    } else {
        trimmed
    };
    assert(rest.take(4)[2] == s[st - 2]);
    assert(rest.take(4)[3] == s[st - 1]);
    assert forall|i: int| 0 <= i < st implies box_char(#[trigger] s[i]) by {
        if i >= w {
            if i >= st - 4 {
                assert(rest.take(4)[i - (st - 4)] == s[i]);
            } else if i < w + 2 {
                assert(trimmed.take(2)[i - w] == s[i]);
            } else {
                assert(behind[i - w - 2] == s[i]);
            }
        }
    }
}

proof fn lemma_leading_white_prefix(s: Seq<char>, t: Seq<char>)
    requires
        leading_white(s) < s.len(),
        leading_white(s) < t.len(),
        forall|i: int| 0 <= i <= leading_white(s) ==> #[trigger] s[i] == t[i],
    ensures
        leading_white(t) == leading_white(s),
{
    lemma_leading_white(s);
    lemma_leading_white(t);
    let w = leading_white(s) as int;
    let v = leading_white(t) as int;
    if w < v {
        assert(is_white(t[w]));
        assert(s[w] == t[w]);
    } else if v < w {
        assert(is_white(s[v]));
        assert(s[v] == t[v]);
    }
}

/// A checkbox does not depend on what stands behind it.
pub proof fn lemma_checkbox_prefix(s: Seq<char>, t: Seq<char>)
    requires
        checkbox(s) is Some,
        checkbox(s).unwrap().1 <= t.len(),
        forall|i: int| 0 <= i < checkbox(s).unwrap().1 ==> #[trigger] s[i] == t[i],
    ensures
        checkbox(t) == checkbox(s),
{
    reveal(checkbox);
    reveal_strlit("- ");
    reveal_strlit("* ");
    reveal_strlit("[ ] ");
    reveal_strlit("[x] ");
    reveal_strlit("[X] ");
    lemma_checkbox_chars(s);
    let st = checkbox(s).unwrap().1;
    let w = leading_white(s) as int;
    lemma_leading_white(s);
    lemma_leading_white_prefix(s, t);
    let a = trim_start(s);
    let b = trim_start(t);
    assert forall|i: int| w <= i < st implies #[trigger] a[i - w] == b[i - w] by {
        assert(s[i] == t[i]);
    }
    assert(a.take(2) =~= b.take(2)) by {
        assert(a[w - w] == b[w - w]);
        assert(a[(w + 1) - w] == b[(w + 1) - w]);
    }
    let bullet = starts_with(a, "- "@) || starts_with(a, "* "@);
    if bullet {
        lemma_leading_white(a.skip(2));
        lemma_leading_white_prefix(a.skip(2), b.skip(2));
        assert(trim_start(a.skip(2)).take(4) =~= trim_start(b.skip(2)).take(4));
    } else {
        assert(a.take(4) =~= b.take(4));
    }
}

/// Two lines that agree up to behind their checkboxes have the same one.
pub proof fn lemma_same_checkbox(s: Seq<char>, t: Seq<char>, a: int)
    requires
        0 <= a <= s.len(),
        a <= t.len(),
        s.take(a) == t.take(a),
        checkbox(s) is Some ==> checkbox(s).unwrap().1 <= a,
        checkbox(t) is Some ==> checkbox(t).unwrap().1 <= a,
    ensures
        checkbox(s) == checkbox(t),
{
    assert forall|i: int| 0 <= i < a implies #[trigger] s[i] == t[i] by {
        assert(s.take(a)[i] == s[i]);
        assert(t.take(a)[i] == t[i]);
    }
    if checkbox(s) is Some {
        lemma_checkbox_prefix(s, t);
    } else if checkbox(t) is Some {
        assert forall|i: int| 0 <= i < checkbox(t).unwrap().1 implies #[trigger] t[i] == s[i] by {
            assert(s[i] == t[i]);
        }
        lemma_checkbox_prefix(t, s);
    }
}

} // verus!

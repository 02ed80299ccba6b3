//! How the tokens of a line are read: what a reading depends on, and what it does not.

use vstd::prelude::*;

use crate::number::{is_digit, law_padded_reads_back, padded};
use crate::runs::{
    lemma_runs, lemma_runs_concat, lemma_runs_full, lemma_runs_none, runs, shift, shift_all, Run,
};
use crate::text::{is_blank, is_white};
use crate::todo::read_back::{law_value_reads_back, normalized, word_mask};
use crate::todo::serialize::{clock_text, date_text, marker_char, marker_text, replaced, value_text};
use crate::todo::splice::{
    box_char, free_part, lemma_checkbox_chars, lemma_one_left_over, lemma_runs_three,
    lemma_same_checkbox, lemma_time_unmarked, lemma_token_mask_spliced, lemma_trimmed_spliced,
    lemma_value_unmarked,
    spliced, unmarked,
};
use crate::todo::syntax::{
    checkbox, from_token, in_quotation, kind_of, lemma_metadata_bounds, lemma_quotes, line_metadata,
    line_start, metadata, quotations, quotes, reading, token_mask, tokens, Found, Reading,
};
use crate::todo::value::{
    lemma_value_kind, time_of, unquoted, value_of, MarkerKind, TimeExpr, Value,
};

verus! {

// ---------- Reading tokens ----------

/// Whether runs follow one another from left to right within a line.
pub open spec fn in_order(toks: Seq<Run>, len: nat) -> bool {
    &&& forall|k: int| 0 <= k < toks.len() ==> 0 <= (#[trigger] toks[k]).start < toks[k].end <= len
    &&& forall|j: int, k: int|
        0 <= j < k < toks.len() ==> (#[trigger] toks[j]).end < (#[trigger] toks[k]).start
}

/// What tokens say depends on the characters of the tokens alone.
pub proof fn lemma_metadata_prefix(
    s: Seq<char>,
    t: Seq<char>,
    toks: Seq<Run>,
    seen: Set<MarkerKind>,
    k: int,
)
    requires
        in_order(toks, k as nat),
        0 <= k <= s.len(),
        k <= t.len(),
        s.take(k) == t.take(k),
    ensures
        metadata(s, toks, seen) == metadata(t, toks, seen),
    decreases toks.len(),
{
    reveal(metadata);
    if toks.len() > 0 {
        let n = toks.len() as int;
        let last = toks[n - 1];
        assert forall|i: int| 0 <= i < k implies #[trigger] s[i] == t[i] by {
            assert(s.take(k)[i] == s[i]);
            assert(t.take(k)[i] == t[i]);
        }
        assert(s.subrange(last.start + 1, last.end) =~= t.subrange(last.start + 1, last.end));
        if n >= 2 {
            let before = toks[n - 2];
            assert(s.subrange(before.start + 1, last.end) =~= t.subrange(
                before.start + 1,
                last.end,
            ));
        }
        assert(reading(s, toks) == reading(t, toks));
        if let Reading::Marker { value, first } = reading(s, toks) {
            lemma_metadata_prefix(s, t, toks.take(first), seen.insert(value.kind()), k);
        }
    }
}

/// That a kind counts as met changes nothing where no marker of this kind follows.
pub proof fn lemma_metadata_seen(s: Seq<char>, toks: Seq<Run>, seen: Set<MarkerKind>, kind: MarkerKind)
    requires
        kind == MarkerKind::Tag || forall|j: int|
            0 <= j < metadata(s, toks, seen).markers.len() ==> (#[trigger] metadata(
                s,
                toks,
                seen,
            ).markers[j]).value.kind() != kind,
    ensures
        metadata(s, toks, seen.insert(kind)) == metadata(s, toks, seen),
    decreases toks.len(),
{
    reveal(metadata);
    if toks.len() > 0 {
        if let Reading::Marker { value, first } = reading(s, toks) {
            let met = value.kind();
            if !(met != MarkerKind::Tag && seen.contains(met)) {
                let m = metadata(s, toks, seen);
                let rest = metadata(s, toks.take(first), seen.insert(met));
                assert(m.markers[0].value == value);
                assert forall|j: int| 0 <= j < rest.markers.len() && kind != MarkerKind::Tag implies (
                #[trigger] rest.markers[j]).value.kind() != kind by {
                    assert(m.markers[j + 1] == rest.markers[j]);
                }
                lemma_metadata_seen(s, toks.take(first), seen.insert(met), kind);
                assert(seen.insert(kind).insert(met) =~= seen.insert(met).insert(kind));
            }
        }
    }
}

/// Whether the text of a line ends in a second marker of a kind, which was refused for this
/// alone.
pub open spec fn repeated(s: Seq<char>, toks: Seq<Run>, body: int, kind: MarkerKind) -> bool {
    body > 0 && (reading(s, toks.take(body)) matches Reading::Marker { value, first }
        && value.kind() == kind)
}

/// That a kind counts as met changes nothing where no marker was refused for it.
pub proof fn lemma_metadata_unseen(
    s: Seq<char>,
    toks: Seq<Run>,
    seen: Set<MarkerKind>,
    kind: MarkerKind,
)
    requires
        !repeated(s, toks, metadata(s, toks, seen.insert(kind)).body, kind),
    ensures
        metadata(s, toks, seen.insert(kind)) == metadata(s, toks, seen),
    decreases toks.len(),
{
    reveal(metadata);
    if toks.len() > 0 {
        if let Reading::Marker { value, first } = reading(s, toks) {
            let met = value.kind();
            let m = metadata(s, toks, seen.insert(kind));
            if met != MarkerKind::Tag && seen.insert(kind).contains(met) {
                assert(toks.take(m.body) =~= toks);
            } else {
                let left = toks.take(first);
                assert(seen.insert(kind).insert(met) =~= seen.insert(met).insert(kind));
                lemma_metadata_body(s, left, seen.insert(met).insert(kind));
                assert(left.take(m.body) =~= toks.take(m.body));
                lemma_metadata_unseen(s, left, seen.insert(met), kind);
            }
        }
    }
}

/// The text of a line is some of its tokens.
pub proof fn lemma_metadata_body(s: Seq<char>, toks: Seq<Run>, seen: Set<MarkerKind>)
    ensures
        0 <= metadata(s, toks, seen).body <= toks.len(),
    decreases toks.len(),
{
    reveal(metadata);
    if toks.len() > 0 {
        if let Reading::Marker { value, first } = reading(s, toks) {
            lemma_metadata_body(s, toks.take(first), seen.insert(value.kind()));
        }
    }
}

/// No two markers are of the same kind, but for tags; and none is of a kind met before.
pub proof fn lemma_metadata_kinds(s: Seq<char>, toks: Seq<Run>, seen: Set<MarkerKind>)
    ensures
        forall|j: int|
            0 <= j < metadata(s, toks, seen).markers.len() ==> (#[trigger] metadata(
                s,
                toks,
                seen,
            ).markers[j]).value is Tag || !seen.contains(
                metadata(s, toks, seen).markers[j].value.kind(),
            ),
        forall|j: int, k: int|
            0 <= j < k < metadata(s, toks, seen).markers.len() && !(metadata(
                s,
                toks,
                seen,
            ).markers[k].value is Tag) ==> (#[trigger] metadata(
                s,
                toks,
                seen,
            ).markers[j]).value.kind() != (#[trigger] metadata(
                s,
                toks,
                seen,
            ).markers[k]).value.kind(),
    decreases toks.len(),
{
    reveal(metadata);
    if toks.len() > 0 {
        if let Reading::Marker { value, first } = reading(s, toks) {
            if !(value.kind() != MarkerKind::Tag && seen.contains(value.kind())) {
                let m = metadata(s, toks, seen);
                let rest = metadata(s, toks.take(first), seen.insert(value.kind()));
                lemma_metadata_kinds(s, toks.take(first), seen.insert(value.kind()));
                assert forall|j: int| 0 < j < m.markers.len() implies #[trigger] m.markers[j]
                    == rest.markers[j - 1] by {}
                assert forall|j: int, k: int|
                    0 <= j < k < m.markers.len() && !(m.markers[k].value is Tag) implies (
                #[trigger] m.markers[j]).value.kind() != (#[trigger] m.markers[k]).value.kind() by {
                    assert(m.markers[k] == rest.markers[k - 1]);
                    if j > 0 {
                        assert(m.markers[j] == rest.markers[j - 1]);
                    }
                }
            }
        }
    }
}

/// The tokens that a marker was read from: the numbers of the first and of the last.
pub proof fn lemma_marker_tokens(s: Seq<char>, toks: Seq<Run>, seen: Set<MarkerKind>, k: int) -> (ends:
    (int, int))
    requires
        0 <= k < metadata(s, toks, seen).markers.len(),
    ensures
        ({
            let (f, e) = ends;
            let found = metadata(s, toks, seen).markers[k];
            &&& 0 <= f <= e < toks.len()
            &&& found.run == Run { start: toks[f].start, end: toks[e].end }
            &&& e == f || e == f + 1
            &&& e == f ==> kind_of(s[found.run.start]) == Some(found.value.kind()) && value_of(
                found.value.kind(),
                s.subrange(found.run.start + 1, found.run.end),
            ) == Some(found.value)
            &&& e == f + 1 ==> s[found.run.start] == '@' && found.value is Time && time_of(
                s.subrange(found.run.start + 1, found.run.end),
            ) == Some(found.value->Time_0)
        }),
    decreases toks.len(),
{
    reveal(metadata);
    let n = toks.len() as int;
    match reading(s, toks) {
        Reading::Marker { value, first } => {
            if k == 0 {
                let last = toks[n - 1];
                if let Some(kind) = kind_of(s[last.start]) {
                    lemma_value_kind(kind, s.subrange(last.start + 1, last.end));
                }
                (first, n - 1)
            } else {
                let ends = lemma_marker_tokens(
                    s,
                    toks.take(first),
                    seen.insert(value.kind()),
                    k - 1,
                );
                assert(toks.take(first)[ends.0] == toks[ends.0]);
                assert(toks.take(first)[ends.1] == toks[ends.1]);
                assert(metadata(s, toks, seen).markers[k] == metadata(
                    s,
                    toks.take(first),
                    seen.insert(value.kind()),
                ).markers[k - 1]);
                ends
            }
        },
        _ => (0, 0),
    }
}

/// Markers moved to the right.
pub open spec fn moved(markers: Seq<Found>, by: int) -> Seq<Found> {
    markers.map_values(|f: Found| Found { value: f.value, run: shift(f.run, by) })
}

/// A marker whose tokens all stand behind a position is read in the same way wherever they
/// stand.
pub proof fn lemma_reading_moved(
    s: Seq<char>,
    out: Seq<char>,
    x: Seq<Run>,
    r: Seq<Run>,
    y: Seq<Run>,
    by: int,
    lo: int,
)
    requires
        r.len() > 0,
        forall|i: int|
            0 <= i < r.len() ==> lo <= (#[trigger] r[i]).start < r[i].end <= s.len(),
        0 <= lo,
        0 <= lo + by,
        out.len() == s.len() + by,
        forall|i: int| lo <= i < s.len() ==> #[trigger] s[i] == out[i + by],
        reading(s, x + r) is Marker,
        reading(s, x + r)->first >= x.len(),
        r.len() >= 2 ==> r[r.len() - 2].end < r[r.len() - 1].start,
    ensures
        reading(out, y + shift_all(r, by)) == (Reading::Marker {
            value: reading(s, x + r)->value,
            first: reading(s, x + r)->first - x.len() + y.len(),
        }),
{
    let toks = x + r;
    let new_toks = y + shift_all(r, by);
    let len = toks.len() as int;
    let nlen = new_toks.len() as int;
    let last = toks[len - 1];
    assert(last == r[r.len() - 1]);
    assert(new_toks[nlen - 1] == shift(last, by));
    assert(s[last.start] == out[last.start + by]);
    assert(s.subrange(last.start + 1, last.end) =~= out.subrange(
        last.start + 1 + by,
        last.end + by,
    ));
    if kind_of(s[last.start]) is None {
        let before = toks[len - 2];
        assert(before == r[r.len() - 2]);
        assert(new_toks[nlen - 2] == shift(before, by));
        assert(s[before.start] == out[before.start + by]);
        assert(s.subrange(before.start + 1, last.end) =~= out.subrange(
            before.start + 1 + by,
            last.end + by,
        ));
    }
}

/// Tokens that end in a marker say it, and what the tokens before it say.
proof fn lemma_metadata_step(s: Seq<char>, toks: Seq<Run>, seen: Set<MarkerKind>)
    requires
        toks.len() > 0,
        reading(s, toks) matches Reading::Marker { value, first } && !(value.kind()
            != MarkerKind::Tag && seen.contains(value.kind())),
    ensures
        ({
            let m = metadata(s, toks, seen);
            let value = reading(s, toks)->value;
            let first = reading(s, toks)->first;
            let rest = metadata(s, toks.take(first), seen.insert(value.kind()));
            &&& m.markers == seq![Found { value, run: from_token(toks, first) }] + rest.markers
            &&& m.degraded == rest.degraded
            &&& m.body == rest.body
        }),
{
    reveal(metadata);
}

/// Where tokens say a marker, they end in one.
proof fn lemma_metadata_first(s: Seq<char>, toks: Seq<Run>, seen: Set<MarkerKind>)
    requires
        metadata(s, toks, seen).markers.len() > 0,
    ensures
        toks.len() > 0,
        reading(s, toks) matches Reading::Marker { value, first } && !(value.kind()
            != MarkerKind::Tag && seen.contains(value.kind())),
        metadata(s, toks, seen).markers[0] == (Found {
            value: reading(s, toks)->value,
            run: from_token(toks, reading(s, toks)->first),
        }),
{
    reveal(metadata);
}

/// The markers behind a given one are read in the same way wherever they stand, and
/// whatever stands before them.
pub proof fn lemma_metadata_right(
    s: Seq<char>,
    out: Seq<char>,
    x: Seq<Run>,
    r: Seq<Run>,
    y: Seq<Run>,
    by: int,
    lo: int,
    seen: Set<MarkerKind>,
    k: int,
) -> (later: Set<MarkerKind>)
    requires
        in_order(x + r, s.len()),
        x.len() > 0,
        forall|i: int| 0 <= i < r.len() ==> lo <= (#[trigger] r[i]).start,
        0 <= lo <= s.len(),
        0 <= lo + by,
        out.len() == s.len() + by,
        forall|i: int| lo <= i < s.len() ==> #[trigger] s[i] == out[i + by],
        0 <= k < metadata(s, x + r, seen).markers.len(),
        metadata(s, x + r, seen).markers[k].run.end == x.last().end,
    ensures
        ({
            let m = metadata(s, x + r, seen);
            let left = metadata(s, x, later);
            let n = metadata(out, y + shift_all(r, by), seen);
            let new_left = metadata(out, y, later);
            &&& m.markers == m.markers.take(k) + left.markers
            &&& m.degraded == left.degraded
            &&& m.body == left.body
            &&& n.markers == moved(m.markers.take(k), by) + new_left.markers
            &&& n.degraded == new_left.degraded
            &&& n.body == new_left.body
        }),
    decreases r.len(),
{
    let toks = x + r;
    let ro = shift_all(r, by);
    let new_toks = y + ro;
    let m = metadata(s, toks, seen);
    let n = metadata(out, new_toks, seen);
    lemma_metadata_bounds(s, toks, seen);
    lemma_metadata_first(s, toks, seen);
    if r.len() == 0 {
        assert(toks =~= x);
        assert(new_toks =~= y);
        assert(m.markers[0].run.end == x.last().end);
        if k > 0 {
            assert(m.markers[k].run.end < m.markers[0].run.start);
            assert(false);
        }
        assert(m.markers =~= m.markers.take(0) + m.markers);
        assert(n.markers =~= moved(m.markers.take(0), by) + n.markers);
        seen
    } else {
        let len = toks.len() as int;
        let nlen = new_toks.len() as int;
        let value = m.markers[0].value;
        let first = reading(s, toks)->first;
        assert(reading(s, toks) == Reading::Marker { value, first });
        assert(toks.last() == r.last());
        assert(x.last() == toks[x.len() - 1]);
        assert(toks[x.len() - 1].end < toks[len - 1].start);
        assert(k > 0);
        assert(first >= x.len()) by {
            if first < x.len() {
                assert(first == x.len() - 1);
                assert(m.markers[0].run.start == toks[first].start);
                assert(m.markers[k].run.end < m.markers[0].run.start);
                assert(false);
            }
        }
        let cut = first - x.len();
        let last = toks[len - 1];
        assert forall|i: int| 0 <= i < r.len() implies lo <= (#[trigger] r[i]).start < r[i].end
            <= s.len() by {
            assert(r[i] == toks[x.len() + i]);
        }
        if r.len() >= 2 {
            assert(r[r.len() - 2] == toks[len - 2]);
        }
        lemma_reading_moved(s, out, x, r, y, by, lo);
        let new_first = y.len() + cut;
        assert(reading(out, new_toks) == Reading::Marker { value, first: new_first });
        lemma_metadata_step(s, toks, seen);
        lemma_metadata_step(out, new_toks, seen);
        let met = seen.insert(value.kind());
        let fewer = r.take(cut);
        assert(toks.take(first) =~= x + fewer);
        assert(new_toks.take(new_first) =~= y + shift_all(fewer, by));
        let rest = metadata(s, x + fewer, met);
        let new_rest = metadata(out, y + shift_all(fewer, by), met);
        assert(m.markers == seq![m.markers[0]] + rest.markers);
        assert(rest.markers[k - 1] == m.markers[k]);
        assert forall|i: int| 0 <= i < fewer.len() implies lo <= (#[trigger] fewer[i]).start by {
            assert(fewer[i] == r[i]);
        }
        assert(in_order(x + fewer, s.len())) by {
            let sub = x + fewer;
            assert forall|i: int| 0 <= i < sub.len() implies 0 <= (#[trigger] sub[i]).start
                < sub[i].end <= s.len() by {
                assert(sub[i] == toks[i]);
            }
            assert forall|i: int, j: int| 0 <= i < j < sub.len() implies (#[trigger] sub[i]).end < (
            #[trigger] sub[j]).start by {
                assert(sub[i] == toks[i]);
                assert(sub[j] == toks[j]);
            }
        }
        let later = lemma_metadata_right(s, out, x, fewer, y, by, lo, met, k - 1);
        let left = metadata(s, x, later);
        let new_left = metadata(out, y, later);
        let run = m.markers[0].run;
        assert(toks[first] == r[cut]);
        assert(new_toks[new_first] == shift(r[cut], by));
        assert(new_toks.last() == shift(last, by));
        assert(n.markers == seq![Found { value, run: shift(run, by) }] + new_rest.markers);
        assert(m.markers.take(k) =~= seq![m.markers[0]] + rest.markers.take(k - 1));
        assert(m.markers =~= m.markers.take(k) + left.markers);
        assert(moved(m.markers.take(k), by) =~= seq![Found { value, run: shift(run, by) }] + moved(
            rest.markers.take(k - 1),
            by,
        ));
        assert(n.markers =~= moved(m.markers.take(k), by) + new_left.markers);
        later
    }
}

// ---------- The tokens of a marker ----------

/// A marker begins with its character and holds no quotation mark.
pub proof fn lemma_marker_text(v: Value)
    requires
        marker_text(v) is Some,
    ensures
        ({
            let text = marker_text(v).unwrap();
            &&& text.len() > 0
            &&& text[0] == marker_char(v.kind())
            &&& kind_of(text[0]) == Some(v.kind())
            &&& text.skip(1) == value_text(v).unwrap()
            &&& unmarked(text)
            &&& !is_white(text.last())
            &&& normalized(v).kind() == v.kind()
        }),
{
    let t = value_text(v).unwrap();
    let text = marker_text(v).unwrap();
    law_value_reads_back(v);
    assert(text.skip(1) =~= t);
    assert forall|i: int| 0 <= i < text.len() implies #[trigger] text[i] != '"' by {
        if i > 0 {
            assert(text[i] == t[i - 1]);
        }
    }
    if let Value::Time(TimeExpr { date: Some(d), time: Some(c) }) = v {
        let word = clock_text(c).unwrap();
        assert(!is_white(word[word.len() - 1]));
        assert(text.last() == word.last());
    } else {
        assert(!is_white(t[t.len() - 1]));
    }
}

/// The words of a marker.
pub proof fn lemma_marker_words(v: Value)
    requires
        marker_text(v) is Some,
    ensures
        ({
            let text = marker_text(v).unwrap();
            let n = text.len() as int;
            match v {
                Value::Time(TimeExpr { date: Some(d), time: Some(_) }) => {
                    let k = 1 + date_text(d).unwrap().len() as int;
                    &&& k + 1 < n
                    &&& is_digit(text[k + 1])
                    &&& runs(word_mask(text)) == seq![
                        Run { start: 0, end: k },
                        Run { start: k + 1, end: n },
                    ]
                },
                _ => runs(word_mask(text)) == seq![Run { start: 0, end: n }],
            }
        }),
{
    reveal(value_text);
    let t = value_text(v).unwrap();
    let text = marker_text(v).unwrap();
    let mask = word_mask(text);
    law_value_reads_back(v);
    if let Value::Time(TimeExpr { date: Some(d), time: Some(c) }) = v {
        let a = date_text(d).unwrap();
        let b = clock_text(c).unwrap();
        let k = 1 + a.len() as int;
        let left = mask.take(k);
        let right = mask.skip(k + 1);
        assert forall|i: int| 0 <= i < left.len() implies #[trigger] left[i] by {
            if i > 0 {
                assert(!is_white(a[i - 1]));
                assert(text[i] == a[i - 1]);
            }
        }
        assert forall|i: int| 0 <= i < right.len() implies #[trigger] right[i] by {
            assert(!is_white(b[i]));
            assert(text[k + 1 + i] == b[i]);
        }
        lemma_runs_full(left);
        lemma_runs_full(right);
        lemma_runs_none(seq![false]);
        lemma_runs_concat(left, seq![false]);
        lemma_runs_concat(left + seq![false], right);
        assert(text[k] == ' ');
        assert(mask =~= left + seq![false] + right);
        assert(runs(mask) =~= seq![
            Run { start: 0, end: k },
            Run { start: k + 1, end: text.len() as int },
        ]);
        law_padded_reads_back(c.0, 2);
        assert(is_digit(padded(c.0 as nat, 2)[0]));
        assert(text[k + 1] == b[0]);
    } else {
        assert forall|i: int| 0 <= i < mask.len() implies #[trigger] mask[i] by {
            if i > 0 {
                assert(!is_white(t[i - 1]));
                assert(text[i] == t[i - 1]);
            }
        }
        lemma_runs_full(mask);
    }
}

/// Whether a value is a date and a time, which are two words.
pub open spec fn has_two_words(v: Value) -> bool {
    v matches Value::Time(e) && e.date is Some && e.time is Some
}

/// The last token of a line, where it is a marker of one word, says its value.
pub proof fn lemma_one_word_reading(out: Seq<char>, x: Seq<Run>, p: int, v: Value)
    requires
        marker_text(v) is Some,
        !has_two_words(v),
        0 <= p,
        p + marker_text(v).unwrap().len() <= out.len(),
        out.subrange(p, p + marker_text(v).unwrap().len()) == marker_text(v).unwrap(),
    ensures
        reading(out, x.push(Run { start: p, end: p + marker_text(v).unwrap().len() })) == (
        Reading::Marker { value: normalized(v), first: x.len() as int }),
{
    let text = marker_text(v).unwrap();
    let part = out.subrange(p, p + text.len());
    lemma_marker_text(v);
    law_value_reads_back(v);
    assert(out.subrange(p + 1, p + text.len()) =~= part.skip(1));
    assert(part[0] == out[p]);
}

/// The last two tokens of a line, where they are a date and a time, say them.
pub proof fn lemma_two_word_reading(out: Seq<char>, x: Seq<Run>, p: int, v: Value, k: int)
    requires
        marker_text(v) is Some,
        has_two_words(v),
        0 <= p,
        p + marker_text(v).unwrap().len() <= out.len(),
        out.subrange(p, p + marker_text(v).unwrap().len()) == marker_text(v).unwrap(),
        0 < k,
        k + 1 < marker_text(v).unwrap().len(),
        is_digit(marker_text(v).unwrap()[k + 1]),
    ensures
        reading(
            out,
            x.push(Run { start: p, end: p + k }).push(
                Run { start: p + k + 1, end: p + marker_text(v).unwrap().len() },
            ),
        ) == (Reading::Marker { value: normalized(v), first: x.len() as int }),
{
    let text = marker_text(v).unwrap();
    let t = value_text(v).unwrap();
    let part = out.subrange(p, p + text.len());
    lemma_marker_text(v);
    assert(out.subrange(p + 1, p + text.len()) =~= part.skip(1));
    assert(part.skip(1) =~= t);
    assert(part[0] == out[p]);
    assert(part[k + 1] == out[p + k + 1]);
    assert(time_of(t) == Some(v->Time_0)) by {
        lemma_time_reads_back(v);
    }
    assert(kind_of(out[p + k + 1]) is None);
}

/// A time expression is read from its text.
proof fn lemma_time_reads_back(v: Value)
    requires
        marker_text(v) is Some,
        v is Time,
    ensures
        time_of(value_text(v).unwrap()) == Some(v->Time_0),
        normalized(v) == v,
{
    reveal(value_of);
    let t = value_text(v).unwrap();
    law_value_reads_back(v);
    lemma_marker_text(v);
    assert(t.len() > 0 ==> t[0] != '"');
    assert(unquoted(t) == t);
}

/// The last tokens of a line, where they are the words of a marker, say its value.
pub proof fn lemma_marker_reading(out: Seq<char>, x: Seq<Run>, p: int, v: Value)
    requires
        marker_text(v) is Some,
        0 <= p,
        p + marker_text(v).unwrap().len() <= out.len(),
        out.subrange(p, p + marker_text(v).unwrap().len()) == marker_text(v).unwrap(),
    ensures
        ({
            let text = marker_text(v).unwrap();
            let toks = x + shift_all(runs(word_mask(text)), p);
            &&& toks.len() > x.len()
            &&& reading(out, toks) == (Reading::Marker {
                value: normalized(v),
                first: x.len() as int,
            })
            &&& from_token(toks, x.len() as int) == Run { start: p, end: p + text.len() }
        }),
{
    let text = marker_text(v).unwrap();
    let toks = x + shift_all(runs(word_mask(text)), p);
    lemma_marker_words(v);
    if has_two_words(v) {
        let k = 1 + date_text(v->Time_0.date.unwrap()).unwrap().len() as int;
        let first = Run { start: p, end: p + k };
        let second = Run { start: p + k + 1, end: p + text.len() };
        lemma_two_word_reading(out, x, p, v, k);
        assert(toks =~= x.push(first).push(second));
    } else {
        lemma_one_word_reading(out, x, p, v);
        assert(toks =~= x.push(Run { start: p, end: p + text.len() }));
    }
}

/// Tokens stand in order within their line.
pub proof fn lemma_tokens_in_order(s: Seq<char>, start: int)
    ensures
        in_order(tokens(s, start), s.len()),
        forall|k: int| 0 <= k < tokens(s, start).len() ==> start <= (#[trigger] tokens(s, start)[k]).start,
{
    let mask = token_mask(s, start);
    lemma_runs(mask);
    assert forall|k: int| 0 <= k < tokens(s, start).len() implies start <= (#[trigger] tokens(
        s,
        start,
    )[k]).start by {
        let r = runs(mask)[k];
        assert(mask[r.start]);
    }
}

/// A marker stands behind the checkbox, and meets no quotation.
pub proof fn lemma_marker_apart(s: Seq<char>, start: int, k: int)
    requires
        0 <= start <= s.len(),
        0 <= k < metadata(s, tokens(s, start), Set::empty()).markers.len(),
    ensures
        ({
            let run = metadata(s, tokens(s, start), Set::empty()).markers[k].run;
            &&& start <= run.start < run.end <= s.len()
            &&& forall|q: int|
                0 <= q < quotations(s).len() ==> (#[trigger] quotations(s)[q]).end <= run.start
                    || quotations(s)[q].start >= run.end
        }),
{
    reveal(in_quotation);
    let toks = tokens(s, start);
    let mask = token_mask(s, start);
    let run = metadata(s, toks, Set::empty()).markers[k].run;
    let (f, e) = lemma_marker_tokens(s, toks, Set::empty(), k);
    lemma_tokens_in_order(s, start);
    lemma_runs(mask);
    lemma_quotes(s);
    assert(toks[f].end <= toks[e].end);
    assert(mask[run.start]);
    if e > f {
        lemma_time_unmarked(s.subrange(run.start + 1, run.end));
    }
    assert forall|q: int| 0 <= q < quotations(s).len() implies (#[trigger] quotations(s)[q]).end
        <= run.start || quotations(s)[q].start >= run.end by {
        let a = quotes(s)[2 * q];
        let b = quotes(s)[2 * q + 1];
        assert(a < b);
        assert(s[a] == '"' && s[b] == '"');
        if a <= run.start <= b {
            assert(quotations(s)[q].start <= run.start < quotations(s)[q].end);
            assert(in_quotation(s, run.start));
        } else if run.start < a < run.end {
            if e == f {
                assert(mask[a]);
                assert(quotations(s)[q].start <= a < quotations(s)[q].end);
                assert(in_quotation(s, a));
            } else {
                assert(s.subrange(run.start + 1, run.end)[a - run.start - 1] == '"');
            }
        }
    }
}

/// The characters of a marker that is not a tag hold no quotation mark, and no quotation
/// goes across them; and tokens end at both sides of them.
pub proof fn lemma_marker_free(s: Seq<char>, k: int)
    requires
        0 <= k < line_metadata(s).markers.len(),
        !(line_metadata(s).markers[k].value is Tag),
    ensures
        ({
            let run = line_metadata(s).markers[k].run;
            let mask = token_mask(s, line_start(s));
            &&& 0 <= run.start < run.end <= s.len()
            &&& line_start(s) <= run.start
            &&& free_part(s, run.start, run.end)
            &&& run.start > 0 ==> !mask[run.start - 1]
            &&& run.end < s.len() ==> !mask[run.end]
            &&& mask[run.end - 1]
            &&& kind_of(s[run.start]) is Some
        }),
{
    reveal(in_quotation);
    let start = line_start(s);
    let toks = tokens(s, start);
    let mask = token_mask(s, start);
    let found = line_metadata(s).markers[k];
    let run = found.run;
    let (f, e) = lemma_marker_tokens(s, toks, Set::empty(), k);
    if checkbox(s) is Some {
        lemma_checkbox_chars(s);
    }
    lemma_marker_apart(s, start, k);
    lemma_tokens_in_order(s, start);
    lemma_runs(mask);
    assert(toks[f].end <= toks[e].end);
    assert(mask[run.start]);
    assert(mask[run.end - 1]);
    let part = s.subrange(run.start, run.end);
    let t = s.subrange(run.start + 1, run.end);
    if e == f {
        assert(unquoted(t) == t) by {
            if t.len() >= 2 && t[0] == '"' && t.last() == '"' {
                assert(mask[run.start + 1]);
                lemma_one_left_over(s, run.start + 1, run.end - 1);
                assert(false);
            }
        }
        lemma_value_unmarked(found.value.kind(), t);
    } else {
        lemma_time_unmarked(t);
    }
    assert(unmarked(part)) by {
        assert forall|i: int| 0 <= i < part.len() implies #[trigger] part[i] != '"' by {
            if i > 0 {
                assert(part[i] == t[i - 1]);
            }
        }
    }
}

/// The tokens of a line before a position.
pub open spec fn tokens_before(s: Seq<char>, a: int) -> Seq<Run> {
    runs(token_mask(s, line_start(s)).take(a))
}

/// The tokens of a line from one position to another.
pub open spec fn tokens_between(s: Seq<char>, a: int, b: int) -> Seq<Run> {
    shift_all(runs(token_mask(s, line_start(s)).subrange(a, b)), a)
}

/// The tokens of a line from a position on.
pub open spec fn tokens_behind(s: Seq<char>, b: int) -> Seq<Run> {
    shift_all(runs(token_mask(s, line_start(s)).skip(b)), b)
}

/// The tokens of a line fall into those before a marker, its own, and those behind it.
pub proof fn lemma_marker_split(s: Seq<char>, k: int)
    requires
        0 <= k < line_metadata(s).markers.len(),
        !(line_metadata(s).markers[k].value is Tag),
    ensures
        ({
            let run = line_metadata(s).markers[k].run;
            let x = tokens_before(s, run.start) + tokens_between(s, run.start, run.end);
            let r = tokens_behind(s, run.end);
            &&& tokens(s, line_start(s)) == x + r
            &&& in_order(x + r, s.len())
            &&& x.len() > 0
            &&& x.last().end == run.end
            &&& in_order(tokens_before(s, run.start), run.start as nat)
            &&& forall|i: int| 0 <= i < r.len() ==> run.end <= (#[trigger] r[i]).start
        }),
{
    let run = line_metadata(s).markers[k].run;
    let mask = token_mask(s, line_start(s));
    let left = mask.take(run.start);
    let own = mask.subrange(run.start, run.end);
    let right = mask.skip(run.end);
    lemma_marker_free(s, k);
    lemma_tokens_in_order(s, line_start(s));
    assert(mask =~= left + own + right);
    lemma_runs_three(left, own, right);
    lemma_runs(left);
    lemma_runs(own);
    lemma_runs(right);
    assert(own.last());
    let x = tokens_before(s, run.start) + tokens_between(s, run.start, run.end);
    assert(x.last() == shift(runs(own).last(), run.start));
}

/// A marker at the end of the tokens: what remains are the tokens before it.
pub proof fn lemma_marker_left(s: Seq<char>, k: int, seen: Set<MarkerKind>)
    requires
        0 <= k < line_metadata(s).markers.len(),
        !(line_metadata(s).markers[k].value is Tag),
        ({
            let found = line_metadata(s).markers[k];
            let x = tokens_before(s, found.run.start) + tokens_between(
                s,
                found.run.start,
                found.run.end,
            );
            let m = metadata(s, x, seen);
            m.markers.len() > 0 && m.markers[0] == found
        }),
    ensures
        ({
            let found = line_metadata(s).markers[k];
            let left = tokens_before(s, found.run.start);
            let x = left + tokens_between(s, found.run.start, found.run.end);
            let m = metadata(s, x, seen);
            let rest = metadata(s, left, seen.insert(found.value.kind()));
            &&& !seen.contains(found.value.kind())
            &&& m.markers == seq![found] + rest.markers
            &&& m.degraded == rest.degraded
            &&& m.body == rest.body
        }),
{
    reveal(metadata);
    let found = line_metadata(s).markers[k];
    let left = tokens_before(s, found.run.start);
    let own = tokens_between(s, found.run.start, found.run.end);
    let x = left + own;
    let first = reading(s, x)->first;
    lemma_marker_split(s, k);
    let r = tokens_behind(s, found.run.end);
    assert forall|i: int| 0 <= i < x.len() implies #[trigger] x[i] == (x + r)[i] by {}
    assert(x[first].start == found.run.start);
    lemma_runs(token_mask(s, line_start(s)).subrange(found.run.start, found.run.end));
    assert(first == left.len()) by {
        if first < left.len() {
            assert(x[first] == left[first]);
            assert(left[first].end <= found.run.start);
        } else if first > left.len() {
            assert(x[left.len() as int] == own[0]);
            assert((x + r)[left.len() as int].end < (x + r)[first].start);
            assert(own[0].start >= found.run.start);
        }
    }
    assert(x.take(first) =~= left);
}

/// A blank before the first position changes no token.
pub proof fn lemma_tokens_from(s: Seq<char>, start: int)
    requires
        0 < start <= s.len(),
        is_blank(s[start - 1]),
    ensures
        token_mask(s, start - 1) == token_mask(s, start),
{
    assert(token_mask(s, start - 1) =~= token_mask(s, start));
}

/// The tokens of a line after a marker in it was replaced by another.
pub proof fn lemma_replaced_tokens(s: Seq<char>, k: int, v: Value)
    requires
        0 <= k < line_metadata(s).markers.len(),
        !(line_metadata(s).markers[k].value is Tag),
        marker_text(v) is Some,
    ensures
        ({
            let run = line_metadata(s).markers[k].run;
            let text = marker_text(v).unwrap();
            let out = replaced(s, run, text);
            &&& checkbox(out) == checkbox(s)
            &&& tokens(out, line_start(out)) == tokens_before(s, run.start) + shift_all(
                runs(word_mask(text)),
                run.start,
            ) + shift_all(tokens_behind(s, run.end), text.len() - (run.end - run.start))
        }),
{
    let run = line_metadata(s).markers[k].run;
    let text = marker_text(v).unwrap();
    let out = replaced(s, run, text);
    let by = text.len() - (run.end - run.start);
    let mask = token_mask(s, line_start(s));
    lemma_marker_text(v);
    lemma_marker_free(s, k);
    assert(out == spliced(s, run.start, run.end, text));
    assert(out.take(run.start) =~= s.take(run.start));
    if checkbox(out) is Some {
        lemma_checkbox_chars(out);
        assert(out[run.start] == text[0]);
        assert(checkbox(out).unwrap().1 <= run.start) by {
            if checkbox(out).unwrap().1 > run.start {
                assert(box_char(out[run.start]));
            }
        }
    }
    lemma_same_checkbox(s, out, run.start);
    let r = tokens_behind(s, run.end);
    lemma_trimmed_spliced(s, run.start, run.end, text);
    lemma_token_mask_spliced(s, run.start, run.end, text, line_start(s));
    lemma_runs_three(mask.take(run.start), word_mask(text), mask.skip(run.end));
    assert(shift_all(runs(mask.skip(run.end)), run.start + text.len()) =~= shift_all(r, by));
}

/// What a line says before a marker that was replaced by another.
pub proof fn lemma_replaced_left(s: Seq<char>, k: int, v: Value, seen: Set<MarkerKind>)
    requires
        0 <= k < line_metadata(s).markers.len(),
        line_metadata(s).markers[k].value.kind() == v.kind(),
        !(v is Tag),
        marker_text(v) is Some,
        !seen.contains(v.kind()),
    ensures
        ({
            let run = line_metadata(s).markers[k].run;
            let text = marker_text(v).unwrap();
            let out = replaced(s, run, text);
            let left = tokens_before(s, run.start);
            let n = metadata(out, left + shift_all(runs(word_mask(text)), run.start), seen);
            let rest = metadata(s, left, seen.insert(v.kind()));
            let new = Found {
                value: normalized(v),
                run: Run { start: run.start, end: run.start + text.len() },
            };
            &&& n.markers == seq![new] + rest.markers
            &&& n.degraded == rest.degraded
            &&& n.body == rest.body
        }),
{
    reveal(metadata);
    let run = line_metadata(s).markers[k].run;
    let text = marker_text(v).unwrap();
    let out = replaced(s, run, text);
    let left = tokens_before(s, run.start);
    let y = left + shift_all(runs(word_mask(text)), run.start);
    assert(!(line_metadata(s).markers[k].value is Tag));
    lemma_marker_free(s, k);
    lemma_marker_split(s, k);
    lemma_marker_text(v);
    assert(out.take(run.start) =~= s.take(run.start));
    assert(out.subrange(run.start, run.start + text.len()) =~= text);
    lemma_marker_reading(out, left, run.start, v);
    assert(y.take(left.len() as int) =~= left);
    lemma_metadata_prefix(s, out, left, seen.insert(v.kind()), run.start);
}

} // verus!

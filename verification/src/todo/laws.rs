//! What holds of to-do lines: what reading finds, and what writing changes.

use vstd::prelude::*;
use vstd::utf8::encode_utf8;

use crate::runs::{lemma_runs, lemma_runs_concat, lemma_runs_none, runs, shift_all, Run};
use crate::text::{
    byte_len, is_blank, is_white, leading_white, lemma_byte_len_monotonic, lemma_encode_concat,
    lemma_leading_white, lemma_trimmed_len, lemma_trimmed_len_is, trim, trimmed_len,
};
use crate::todo::read_back::{normalized, word_mask};
use crate::todo::readings::{
    in_order, lemma_marker_apart, lemma_marker_free, lemma_marker_left, lemma_marker_reading,
    lemma_marker_split, lemma_marker_text, lemma_metadata_body, lemma_metadata_kinds,
    lemma_metadata_prefix, lemma_metadata_right, lemma_metadata_seen, lemma_metadata_unseen,
    lemma_replaced_left, lemma_replaced_tokens, lemma_tokens_from, lemma_tokens_in_order, moved,
    repeated, tokens_before, tokens_behind, tokens_between,
};
use crate::todo::serialize::{
    appended, first_of, has_value, lemma_first_of, marker_text, place_of, removed, replaced,
    written,
};
use crate::todo::splice::{
    box_char, free_part, lemma_checkbox_chars, lemma_runs_three, lemma_token_mask_spliced,
    lemma_trimmed_spliced, spliced, unmarked,
};
use crate::todo::syntax::{
    checkbox, extent, in_quotation, last_end, lemma_metadata_bounds, lemma_quotes, line_metadata,
    line_start, metadata, parsed, quotations, quotes, reading, scanned, text_end, token_mask, tokens,
    Found, Reading,
};
use crate::todo::value::{time_of, MarkerKind, Value};

verus! {

// ---------- Laws of writing ----------

/// Where a marker is replaced by another of its kind, the line says the new value in the
/// place of the old one, and everything else that it said: the checkbox, the other markers
/// and what looked like one.
pub proof fn law_replaced_marker_reads_back(s: Seq<char>, k: int, v: Value)
    requires
        0 <= k < line_metadata(s).markers.len(),
        line_metadata(s).markers[k].value.kind() == v.kind(),
        !(v is Tag),
        marker_text(v) is Some,
    ensures
        ({
            let m = line_metadata(s);
            let run = m.markers[k].run;
            let text = marker_text(v).unwrap();
            let out = replaced(s, run, text);
            let new = Found {
                value: normalized(v),
                run: Run { start: run.start, end: run.start + text.len() },
            };
            &&& checkbox(out) == checkbox(s)
            &&& line_metadata(out).markers == moved(
                m.markers.take(k),
                text.len() - (run.end - run.start),
            ) + seq![new] + m.markers.skip(k + 1)
            &&& line_metadata(out).degraded == m.degraded
            &&& line_metadata(out).body == m.body
        }),
{
    let m = line_metadata(s);
    let found = m.markers[k];
    let run = found.run;
    let text = marker_text(v).unwrap();
    let out = replaced(s, run, text);
    let by = text.len() - (run.end - run.start);
    assert(!(found.value is Tag));
    lemma_marker_free(s, k);
    lemma_marker_split(s, k);
    lemma_replaced_tokens(s, k, v);
    let left = tokens_before(s, run.start);
    let x = left + tokens_between(s, run.start, run.end);
    let r = tokens_behind(s, run.end);
    let y = left + shift_all(runs(word_mask(text)), run.start);
    let later = lemma_metadata_right(s, out, x, r, y, by, run.end, Set::empty(), k);
    let old_left = metadata(s, x, later);
    assert(m.markers[k] == old_left.markers[0]);
    lemma_marker_left(s, k, later);
    lemma_replaced_left(s, k, v, later);
    let rest = metadata(s, left, later.insert(v.kind()));
    let new = Found {
        value: normalized(v),
        run: Run { start: run.start, end: run.start + text.len() },
    };
    assert(m.markers.skip(k + 1) =~= rest.markers);
    assert(line_metadata(out).markers =~= moved(m.markers.take(k), by) + seq![new]
        + m.markers.skip(k + 1));
}

/// The tokens of a line after a marker was appended to it, from a position in the old part
/// of the line.
pub proof fn lemma_appended_mask(s: Seq<char>, v: Value, start: int)
    requires
        marker_text(v) is Some,
        start <= trimmed_len(s),
    ensures
        ({
            let k = trimmed_len(s) as int;
            let text = marker_text(v).unwrap();
            tokens(appended(s, text), start) == runs(token_mask(s, start).take(k)) + shift_all(
                runs(word_mask(text)),
                k + 1,
            )
        }),
{
    let k = trimmed_len(s) as int;
    let text = marker_text(v).unwrap();
    let out = appended(s, text);
    let mid = seq![' '] + text;
    let mask = token_mask(s, start);
    let left = mask.take(k);
    let right = mask.skip(k);
    lemma_marker_text(v);
    lemma_trimmed_len(s);
    assert(out =~= spliced(s, k, k, mid));
    assert(unmarked(mid)) by {
        assert forall|i: int| 0 <= i < mid.len() implies #[trigger] mid[i] != '"' by {
            if i > 0 {
                assert(mid[i] == text[i - 1]);
            }
        }
    }
    lemma_quotes(s);
    assert forall|q: int| 0 <= q < quotations(s).len() implies (#[trigger] quotations(s)[q]).end
        <= k by {
        let b = quotes(s)[2 * q + 1];
        assert(s[b] == '"');
        if b >= k {
            assert(is_white(s[b]));
        }
    }
    assert(free_part(s, k, k));
    assert(mid.last() == text.last());
    lemma_trimmed_spliced(s, k, k, mid);
    lemma_token_mask_spliced(s, k, k, mid, start);
    assert(word_mask(mid) =~= seq![false] + word_mask(text));
    let gap = seq![false];
    assert(left + word_mask(mid) + right =~= (left + gap) + word_mask(text) + right);
    assert forall|i: int| 0 <= i < right.len() implies !#[trigger] right[i] by {
        assert(is_white(s[k + i]));
    }
    lemma_runs_three(left + gap, word_mask(text), right);
    lemma_runs_none(right);
    lemma_runs_none(gap);
    lemma_runs_concat(left, gap);
    assert(runs(left + gap) =~= runs(left));
    assert(tokens(out, start) =~= runs(left) + shift_all(runs(word_mask(text)), k + 1));
}

/// Where the text of a line begins to which a marker was appended: not behind the marker's
/// first character.
pub proof fn lemma_appended_start(s: Seq<char>, v: Value)
    requires
        marker_text(v) is Some,
    ensures
        ({
            let out = appended(s, marker_text(v).unwrap());
            let k = trimmed_len(s) as int;
            &&& 0 <= line_start(out) <= k + 1
            &&& k + 1 < out.len()
            &&& out[k] == ' '
        }),
{
    let k = trimmed_len(s) as int;
    let text = marker_text(v).unwrap();
    let out = appended(s, text);
    lemma_marker_text(v);
    lemma_trimmed_len(s);
    assert(out[k] == ' ');
    assert(out[k + 1] == text[0]);
    if checkbox(out) is Some {
        lemma_checkbox_chars(out);
        if checkbox(out).unwrap().1 > k + 1 {
            assert(box_char(out[k + 1]));
        }
    }
}

/// What a line says before a marker that was appended to it.
proof fn lemma_appended_left(s: Seq<char>, v: Value)
    requires
        marker_text(v) is Some,
        line_start(appended(s, marker_text(v).unwrap())) == line_start(s),
        v is Tag || first_of(line_metadata(s).markers, v.kind()) == line_metadata(
            s,
        ).markers.len(),
    ensures
        ({
            let k = trimmed_len(s) as int;
            let start = line_start(s);
            let from = if start > k {
                k
            } else {
                start
            };
            metadata(
                appended(s, marker_text(v).unwrap()),
                runs(token_mask(s, from).take(k)),
                Set::empty().insert(v.kind()),
            ) == line_metadata(s)
        }),
{
    let m = line_metadata(s);
    let out = appended(s, marker_text(v).unwrap());
    let k = trimmed_len(s) as int;
    let kind = v.kind();
    let start = line_start(s);
    let from = if start > k {
        k
    } else {
        start
    };
    let left = runs(token_mask(s, from).take(k));
    let none = Set::<MarkerKind>::empty();
    let mask = token_mask(s, start);
    lemma_trimmed_len(s);
    assert(mask.take(k) =~= token_mask(s, from).take(k));
    assert(mask =~= mask.take(k) + mask.skip(k));
    assert forall|i: int| 0 <= i < mask.skip(k).len() implies !#[trigger] mask.skip(k)[i] by {
        assert(is_white(s[k + i]));
    }
    lemma_runs_none(mask.skip(k));
    lemma_runs_concat(mask.take(k), mask.skip(k));
    assert(tokens(s, start) =~= left);
    lemma_runs(mask.take(k));
    assert(s.take(k) =~= out.take(k));
    lemma_metadata_prefix(s, out, left, none.insert(kind), k);
    lemma_first_of(m.markers, kind);
    lemma_metadata_seen(s, left, none, kind);
}

/// A marker that was appended to a line is the first that is read from the right. Where
/// the line keeps its checkbox and had no other marker of this kind, the line also says
/// everything that it said before.
pub proof fn law_appended_marker_reads_back(s: Seq<char>, v: Value)
    requires
        marker_text(v) is Some,
    ensures
        ({
            let m = line_metadata(s);
            let text = marker_text(v).unwrap();
            let out = appended(s, text);
            let k = trimmed_len(s) as int;
            let new = Found {
                value: normalized(v),
                run: Run { start: k + 1, end: k + 1 + text.len() },
            };
            &&& line_metadata(out).markers.len() > 0
            &&& line_metadata(out).markers[0] == new
            &&& line_start(out) == line_start(s) && (v is Tag || first_of(m.markers, v.kind())
                == m.markers.len()) ==> line_metadata(out).markers == seq![new] + m.markers
                && line_metadata(out).degraded == m.degraded && line_metadata(out).body == m.body
        }),
{
    reveal(metadata);
    let m = line_metadata(s);
    let text = marker_text(v).unwrap();
    let out = appended(s, text);
    let k = trimmed_len(s) as int;
    let new = Found { value: normalized(v), run: Run { start: k + 1, end: k + 1 + text.len() } };
    let kind = v.kind();
    let start = line_start(out);
    let from = if start > k {
        k
    } else {
        start
    };
    lemma_trimmed_len(s);
    lemma_marker_text(v);
    lemma_appended_start(s, v);
    lemma_appended_mask(s, v, from);
    if start > k {
        lemma_tokens_from(out, start);
    }
    let left = runs(token_mask(s, from).take(k));
    let toks = left + shift_all(runs(word_mask(text)), k + 1);
    assert(tokens(out, start) == toks);
    assert(out.subrange(k + 1, k + 1 + text.len()) =~= text);
    lemma_marker_reading(out, left, k + 1, v);
    assert(toks.take(left.len() as int) =~= left);
    let none = Set::<MarkerKind>::empty();
    let rest = metadata(out, left, none.insert(kind));
    assert(line_metadata(out).markers == seq![new] + rest.markers);
    if line_start(out) == line_start(s) && (v is Tag || first_of(m.markers, v.kind())
        == m.markers.len()) {
        lemma_appended_left(s, v);
    }
}

/// Whether the text of a line, with a checkbox or without one, ends in a second marker of a
/// kind, which would be one if the first were gone.
pub open spec fn repeats(s: Seq<char>, kind: MarkerKind) -> bool {
    repeated(s, tokens(s, line_start(s)), line_metadata(s).body, kind)
}

/// Whether nothing that belongs to a token counts as the end of a line when a marker is gone
/// from it. It would where the marker is the last thing in the line and white space stands
/// before it that is not blank.
pub open spec fn ends_plainly(s: Seq<char>, run: Run) -> bool {
    run.end == trimmed_len(s) ==> forall|i: int|
        trimmed_len(s.take(run.start)) <= i < run.start ==> is_blank(#[trigger] s[i])
}

/// Where a marker that is not a tag is taken out of a line that keeps its checkbox, the line
/// says everything else that it said.
pub proof fn lemma_removed_line(s: Seq<char>, k: int)
    requires
        0 <= k < line_metadata(s).markers.len(),
        !(line_metadata(s).markers[k].value is Tag),
        !repeats(s, line_metadata(s).markers[k].value.kind()),
        ends_plainly(s, line_metadata(s).markers[k].run),
        line_start(removed(s, line_metadata(s).markers[k].run)) == line_start(s),
    ensures
        ({
            let m = line_metadata(s);
            let out = removed(s, m.markers[k].run);
            &&& line_metadata(out).markers == moved(m.markers.take(k), out.len() - s.len())
                + m.markers.skip(k + 1)
            &&& line_metadata(out).degraded == m.degraded
            &&& line_metadata(out).body == m.body
            &&& first_of(line_metadata(out).markers, m.markers[k].value.kind()) == line_metadata(
                out,
            ).markers.len()
        }),
{
    let m = line_metadata(s);
    let found = m.markers[k];
    let run = found.run;
    let kind = found.value.kind();
    let out = removed(s, run);
    let start = line_start(s);
    let left = tokens_before(s, run.start);
    let x = left + tokens_between(s, run.start, run.end);
    let r = tokens_behind(s, run.end);
    let by = out.len() - s.len();
    lemma_marker_free(s, k);
    lemma_marker_split(s, k);
    lemma_removed_tokens(s, k);
    let a = run.end + by;
    assert(out.take(a) =~= s.take(a));
    let later = lemma_metadata_right(s, out, x, r, left, by, run.end, Set::empty(), k);
    let old_left = metadata(s, x, later);
    assert(m.markers[k] == old_left.markers[0]);
    lemma_marker_left(s, k, later);
    let rest = metadata(s, left, later.insert(kind));
    lemma_metadata_body(s, left, later.insert(kind));
    assert(left.take(m.body) =~= tokens(s, start).take(m.body));
    lemma_metadata_unseen(s, left, later, kind);
    lemma_metadata_prefix(s, out, left, later, a);
    assert(m.markers.skip(k + 1) =~= rest.markers);
    assert(line_metadata(out).markers =~= moved(m.markers.take(k), by) + m.markers.skip(k + 1));
    let n = line_metadata(out).markers;
    lemma_first_of(n, kind);
    lemma_metadata_kinds(s, tokens(s, start), Set::empty());
    if first_of(n, kind) < n.len() {
        let j = first_of(n, kind) as int;
        if j < k {
            assert(n[j].value == m.markers[j].value);
            assert(m.markers[j].value.kind() != m.markers[k].value.kind());
        } else {
            assert(n[j] == m.markers.skip(k + 1)[j - k]);
            assert(m.markers.skip(k + 1)[j - k] == m.markers[j + 1]);
            assert(m.markers[k].value.kind() != m.markers[j + 1].value.kind());
        }
    }
}

/// What is taken out of a line with a marker lies between the quotations.
pub proof fn lemma_removed_part(s: Seq<char>, k: int)
    requires
        0 <= k < line_metadata(s).markers.len(),
        !(line_metadata(s).markers[k].value is Tag),
    ensures
        ({
            let run = line_metadata(s).markers[k].run;
            let out = removed(s, run);
            let a = run.end + out.len() - s.len();
            &&& out == spliced(s, a, run.end, Seq::<char>::empty())
            &&& free_part(s, a, run.end)
        }),
{
    let run = line_metadata(s).markers[k].run;
    let out = removed(s, run);
    let a = run.end + out.len() - s.len();
    lemma_marker_free(s, k);
    assert(out =~= spliced(s, a, run.end, Seq::<char>::empty()));
    let part = s.subrange(a, run.end);
    assert forall|i: int| 0 <= i < part.len() implies #[trigger] part[i] != '"' by {
        if a + i >= run.start {
            assert(part[i] == s.subrange(run.start, run.end)[a + i - run.start]);
        }
    }
    lemma_quotes(s);
    assert forall|q: int| 0 <= q < quotations(s).len() implies (#[trigger] quotations(s)[q]).end
        <= a || quotations(s)[q].start >= run.end by {
        let b = quotes(s)[2 * q + 1];
        assert(s[b] == '"');
        assert(quotations(s)[q].end <= run.start || quotations(s)[q].start >= run.end);
    }
}

/// How much of a line is left without the white space at its end, after a marker that was
/// the last thing in it was taken out.
proof fn lemma_trimmed_removed(s: Seq<char>, run: Run, a: int)
    requires
        0 <= a <= run.start <= run.end == trimmed_len(s),
        a == run.start || (a == run.start - 1 && s[a] == ' '),
    ensures
        trimmed_len(spliced(s, a, run.end, Seq::<char>::empty())) == trimmed_len(s.take(run.start))
            <= a,
{
    let out = spliced(s, a, run.end, Seq::<char>::empty());
    let left = s.take(run.start);
    let n = trimmed_len(left) as int;
    lemma_trimmed_len(s);
    lemma_trimmed_len(left);
    assert forall|i: int| n <= i < out.len() implies is_white(#[trigger] out[i]) by {
        if i < a {
            assert(out[i] == left[i]);
        } else {
            assert(out[i] == s[i - a + run.end]);
        }
    }
    if n > 0 {
        assert(left[n - 1] == s[n - 1]);
    }
    lemma_trimmed_len_is(out, n);
}

/// The tokens of a line after a marker was taken out of it.
pub proof fn lemma_removed_tokens(s: Seq<char>, k: int)
    requires
        0 <= k < line_metadata(s).markers.len(),
        !(line_metadata(s).markers[k].value is Tag),
        line_start(removed(s, line_metadata(s).markers[k].run)) == line_start(s),
        ends_plainly(s, line_metadata(s).markers[k].run),
    ensures
        ({
            let run = line_metadata(s).markers[k].run;
            let out = removed(s, run);
            let by = out.len() - s.len();
            let left = tokens_before(s, run.start);
            &&& tokens(out, line_start(out)) == left + shift_all(tokens_behind(s, run.end), by)
            &&& in_order(left, (run.end + by) as nat)
        }),
{
    let run = line_metadata(s).markers[k].run;
    let out = removed(s, run);
    let start = line_start(s);
    let mask = token_mask(s, start);
    let none = Seq::<char>::empty();
    lemma_marker_free(s, k);
    lemma_marker_split(s, k);
    let spaced = run.start > 0 && s[run.start - 1] == ' ';
    let a = if spaced {
        run.start - 1
    } else {
        run.start
    };
    lemma_removed_part(s, k);
    let from = if start > a {
        a
    } else {
        start
    };
    if start > a {
        lemma_tokens_from(s, start);
        lemma_checkbox_chars(out);
        lemma_tokens_from(out, start);
    }
    assert(token_mask(s, from) == mask);
    lemma_trimmed_len(s);
    if run.end < trimmed_len(s) {
        lemma_trimmed_spliced(s, a, run.end, none);
    } else {
        lemma_trimmed_removed(s, run, a);
    }
    lemma_token_mask_spliced(s, a, run.end, none, from);
    let right = mask.skip(run.end);
    assert(mask.take(a) + word_mask(none) + right =~= mask.take(a) + right);
    lemma_runs_concat(mask.take(a), right);
    if spaced {
        assert(mask.take(run.start) =~= mask.take(a) + seq![false]);
        lemma_runs_none(seq![false]);
        lemma_runs_concat(mask.take(a), seq![false]);
        assert(runs(mask.take(run.start)) =~= runs(mask.take(a)));
    }
    lemma_runs(mask.take(a));
    let by = out.len() - s.len();
    assert(shift_all(runs(right), a) =~= shift_all(tokens_behind(s, run.end), by));
}

/// A value that was written into a line is read back from it: an identifier in lower case,
/// every other value as it is.
pub proof fn law_written_value_reads_back(s: Seq<char>, v: Value)
    requires
        marker_text(v) is Some,
        written(s, v) is Ok,
    ensures
        has_value(line_metadata(written(s, v)->Ok_0).markers, normalized(v)),
        !(v is Tag) ==> first_of(line_metadata(written(s, v)->Ok_0).markers, v.kind())
            < line_metadata(written(s, v)->Ok_0).markers.len() && line_metadata(
            written(s, v)->Ok_0,
        ).markers[first_of(line_metadata(written(s, v)->Ok_0).markers, v.kind()) as int].value
            == normalized(v),
{
    let m = line_metadata(s);
    let kind = v.kind();
    let text = marker_text(v).unwrap();
    let out = written(s, v)->Ok_0;
    let n = line_metadata(out).markers;
    lemma_first_of(m.markers, kind);
    lemma_first_of(n, kind);
    lemma_marker_text(v);
    lemma_metadata_kinds(out, tokens(out, line_start(out)), Set::empty());
    if place_of(m.markers, kind) is Some {
        let k = first_of(m.markers, kind) as int;
        law_replaced_marker_reads_back(s, k, v);
        assert(n[k].value == normalized(v));
        assert forall|j: int| 0 <= j < k implies (#[trigger] n[j]).value.kind() != kind by {
            assert(n[j].value == m.markers[j].value);
        }
    } else if v is Tag && has_value(m.markers, v) {
    } else {
        law_appended_marker_reads_back(s, v);
        assert(n[0].value == normalized(v));
    }
}

/// Writing a value where it stands already changes nothing.
proof fn lemma_written_in_place(s: Seq<char>, v: Value, j: int)
    requires
        marker_text(v) is Some,
        !(v is Tag),
        0 <= j < line_metadata(s).markers.len(),
        first_of(line_metadata(s).markers, v.kind()) == j,
        ({
            let run = line_metadata(s).markers[j].run;
            let text = marker_text(v).unwrap();
            &&& 0 <= run.start
            &&& run.end == run.start + text.len() <= s.len()
            &&& s.subrange(run.start, run.end) == text
        }),
    ensures
        written(s, v) == Ok::<Seq<char>, Seq<char>>(s),
{
    let run = line_metadata(s).markers[j].run;
    let text = marker_text(v).unwrap();
    lemma_marker_text(v);
    assert(s.subrange(run.start, run.end)[0] == s[run.start]);
    lemma_not_blank_line(s, run.start, text[0]);
    assert(replaced(s, run, s.subrange(run.start, run.end)) =~= s);
}

/// Writing a value a second time changes nothing.
pub proof fn law_writing_twice_is_writing_once(s: Seq<char>, v: Value)
    requires
        marker_text(v) is Some,
        written(s, v) is Ok,
    ensures
        written(written(s, v)->Ok_0, v) == written(s, v),
{
    let m = line_metadata(s);
    let kind = v.kind();
    let text = marker_text(v).unwrap();
    let out = written(s, v)->Ok_0;
    lemma_first_of(m.markers, kind);
    lemma_marker_text(v);
    lemma_trimmed_len(s);
    if place_of(m.markers, kind) is Some {
        let k = first_of(m.markers, kind) as int;
        let run = m.markers[k].run;
        lemma_marker_free(s, k);
        law_replaced_marker_reads_back(s, k, v);
        let n = line_metadata(out).markers;
        lemma_first_of(n, kind);
        assert(n[k].value == normalized(v));
        assert(first_of(n, kind) == k) by {
            if first_of(n, kind) < k {
                let j = first_of(n, kind) as int;
                assert(n[j].value == m.markers[j].value);
            } else if first_of(n, kind) > k {
                assert(n[k].value.kind() != kind);
            }
        }
        assert(out.subrange(run.start, run.start + text.len()) =~= text);
        lemma_written_in_place(out, v, k);
    } else if v is Tag && has_value(m.markers, v) {
    } else {
        let k = trimmed_len(s) as int;
        law_appended_marker_reads_back(s, v);
        let n = line_metadata(out).markers;
        assert(out.subrange(k + 1, k + 1 + text.len()) =~= text);
        assert(out[k + 1] == text[0]);
        assert(n[0].value == normalized(v));
        if v is Tag {
            lemma_not_blank_line(out, k + 1, text[0]);
            assert(has_value(n, v));
        } else {
            assert(first_of(n, kind) == 0);
            lemma_written_in_place(out, v, 0);
        }
    }
}

/// A line with a character that is not white space is not blank.
pub proof fn lemma_not_blank_line(s: Seq<char>, i: int, c: char)
    requires
        0 <= i < s.len(),
        s[i] == c,
        !is_white(c),
    ensures
        trim(s).len() > 0,
{
    let w = leading_white(s) as int;
    lemma_leading_white(s);
    assert(w <= i) by {
        if w > i {
            assert(is_white(s[i]));
        }
    }
    let t = s.skip(w);
    lemma_trimmed_len(t);
    assert(t[i - w] == c);
    if trimmed_len(t) <= i - w {
        assert(is_white(t[i - w]));
    }
}

// ---------- Laws of reading ----------

/// The bytes of a run are those of its characters: a span never cuts through a character.
pub proof fn law_extent_holds_the_characters(s: Seq<char>, r: Run)
    requires
        0 <= r.start < r.end <= s.len(),
    ensures
        0 <= extent(s, r).start <= extent(s, r).end < encode_utf8(s).len(),
        encode_utf8(s).subrange(extent(s, r).start, extent(s, r).end + 1) == encode_utf8(
            s.subrange(r.start, r.end),
        ),
{
    let left = s.take(r.start);
    let part = s.subrange(r.start, r.end);
    let right = s.skip(r.end);
    lemma_encode_concat(left, part);
    lemma_encode_concat(left + part, right);
    assert(left + part =~= s.take(r.end));
    assert(left + part + right =~= s);
    lemma_byte_len_monotonic(s, r.start, r.end);
    assert(encode_utf8(s).subrange(extent(s, r).start, extent(s, r).end + 1) =~= encode_utf8(part));
}

/// A time expression that was read says a date or a time of day.
pub proof fn law_time_says_something(s: Seq<char>)
    requires
        time_of(s) is Some,
    ensures
        time_of(s).unwrap().date is Some || time_of(s).unwrap().time is Some,
{
    reveal(time_of);
}

/// Text within quotation marks is never part of a marker.
pub proof fn law_quotations_hold_no_marker(s: Seq<char>, k: int, i: int)
    requires
        0 <= k < line_metadata(s).markers.len(),
        line_metadata(s).markers[k].run.start <= i < line_metadata(s).markers[k].run.end,
    ensures
        !in_quotation(s, i),
{
    reveal(in_quotation);
    if checkbox(s) is Some {
        lemma_checkbox_chars(s);
    }
    lemma_marker_apart(s, line_start(s), k);
}

/// The parts of a text, whether it begins with a checkbox or not: behind the checkbox what
/// it says, and then the markers, which are listed from the right to the left and do not
/// meet. Each kind of marker but a tag stands there once at most. What looks like a marker
/// and is none is part of the text, and no marker meets a quotation.
pub proof fn law_parts_of_a_text(s: Seq<char>, checked: bool, start: int)
    requires
        0 <= start <= s.len(),
    ensures
        ({
            let t = scanned(s, checked, start);
            &&& t.checked == checked
            &&& t.content.start == byte_len(s.take(start))
            &&& t.content.start <= t.content.end + 1
            &&& s.len() > 0 ==> t.content.end < byte_len(s)
            &&& forall|k: int|
                0 <= k < t.markers.len() ==> t.content.start <= (#[trigger] t.markers[k]).span.start
                    <= t.markers[k].span.end < byte_len(s)
            &&& forall|k: int|
                0 <= k < t.markers.len() ==> t.content.end <= (#[trigger] t.markers[k]).span.start
            &&& forall|j: int, k: int|
                0 <= j < k < t.markers.len() ==> (#[trigger] t.markers[k]).span.end < (
                #[trigger] t.markers[j]).span.start
            &&& forall|j: int, k: int|
                0 <= j < k < t.markers.len() && (#[trigger] t.markers[j]).value.kind() == (
                #[trigger] t.markers[k]).value.kind() ==> t.markers[j].value is Tag
            &&& t.degraded.len() <= 1
            &&& forall|d: int|
                0 <= d < t.degraded.len() ==> t.content.start <= (
                #[trigger] t.degraded[d]).span.start <= t.degraded[d].span.end <= t.content.end
                    < byte_len(s)
            &&& forall|d: int, k: int|
                0 <= d < t.degraded.len() && 0 <= k < t.markers.len() ==> (
                #[trigger] t.degraded[d]).span.end < (#[trigger] t.markers[k]).span.start
            &&& forall|k: int, q: int|
                0 <= k < t.markers.len() && 0 <= q < t.quoted.len() ==> (
                #[trigger] t.markers[k]).span.end < (#[trigger] t.quoted[q]).start
                    || t.quoted[q].end < t.markers[k].span.start
        }),
{
    let toks = tokens(s, start);
    let m = metadata(s, toks, Set::empty());
    let t = scanned(s, checked, start);
    let end = text_end(s, start, toks, m);
    lemma_tokens_in_order(s, start);
    lemma_metadata_bounds(s, toks, Set::empty());
    lemma_metadata_kinds(s, toks, Set::empty());
    lemma_degraded_start(s, toks, Set::empty());
    lemma_text_end(s, start);
    assert(s.take(s.len() as int) =~= s);
    lemma_byte_len_monotonic(s, 0, start);
    lemma_byte_len_monotonic(s, start, end);
    lemma_byte_len_monotonic(s, end, s.len() as int);
    if s.len() > 0 {
        lemma_byte_len_monotonic(s, 0, s.len() as int);
    }
    assert forall|k: int| 0 <= k < t.markers.len() implies t.content.start <= (
    #[trigger] t.markers[k]).span.start <= t.markers[k].span.end < byte_len(s)
        && t.content.end <= t.markers[k].span.start by {
        let run = m.markers[k].run;
        lemma_marker_apart(s, start, k);
        lemma_byte_len_monotonic(s, start, run.start);
        lemma_byte_len_monotonic(s, end, run.start);
        lemma_byte_len_monotonic(s, run.start, run.end);
        lemma_byte_len_monotonic(s, run.end, s.len() as int);
    }
    assert forall|j: int, k: int| 0 <= j < k < t.markers.len() implies (
    #[trigger] t.markers[k]).span.end < (#[trigger] t.markers[j]).span.start by {
        let a = m.markers[k].run;
        let b = m.markers[j].run;
        assert(a.end < b.start);
        lemma_byte_len_monotonic(s, a.end, b.start);
    }
    assert forall|j: int, k: int|
        0 <= j < k < t.markers.len() && (#[trigger] t.markers[j]).value.kind() == (
        #[trigger] t.markers[k]).value.kind() implies t.markers[j].value is Tag by {
        assert(m.markers[j].value.kind() == m.markers[k].value.kind());
    }
    if m.degraded.len() == 1 {
        let run = m.degraded[0].run;
        lemma_byte_len_monotonic(s, start, run.start);
        lemma_byte_len_monotonic(s, run.start, run.end);
        lemma_byte_len_monotonic(s, run.end, end);
        assert forall|k: int| 0 <= k < t.markers.len() implies t.degraded[0].span.end < (
        #[trigger] t.markers[k]).span.start by {
            let place = m.markers[k].run;
            assert(run.end < place.start);
            lemma_byte_len_monotonic(s, run.end, place.start);
        }
    }
    assert forall|k: int, q: int|
        0 <= k < t.markers.len() && 0 <= q < t.quoted.len() implies (
    #[trigger] t.markers[k]).span.end < (#[trigger] t.quoted[q]).start || t.quoted[q].end
        < t.markers[k].span.start by {
        let run = m.markers[k].run;
        let quotation = quotations(s)[q];
        lemma_marker_apart(s, start, k);
        lemma_quotes(s);
        assert(0 <= quotes(s)[2 * q] < quotes(s)[2 * q + 1] < s.len());
        if quotation.end <= run.start {
            lemma_byte_len_monotonic(s, quotation.end, run.start);
        } else {
            lemma_byte_len_monotonic(s, run.end, quotation.start);
        }
    }
}

/// The parts of a line that begins with a checkbox: the checkbox takes four bytes at least,
/// and the text ends before every marker.
pub proof fn law_parts_of_a_line(s: Seq<char>)
    requires
        parsed(s) is Some,
    ensures
        ({
            let t = parsed(s).unwrap();
            &&& 4 <= t.content.start <= t.content.end + 1
            &&& t.content.end < byte_len(s)
            &&& forall|k: int|
                0 <= k < t.markers.len() ==> t.content.end < (#[trigger] t.markers[k]).span.start
        }),
{
    let (checked, start) = checkbox(s).unwrap();
    let toks = tokens(s, start);
    let m = metadata(s, toks, Set::empty());
    let t = parsed(s).unwrap();
    let end = text_end(s, start, toks, m);
    lemma_checkbox_chars(s);
    law_parts_of_a_text(s, checked, start);
    lemma_text_end(s, start);
    lemma_byte_len_monotonic(s, 0, start);
    lemma_byte_len_monotonic(s, start, end);
    assert forall|k: int| 0 <= k < t.markers.len() implies t.content.end < (
    #[trigger] t.markers[k]).span.start by {
        let run = m.markers[k].run;
        lemma_marker_apart(s, start, k);
        lemma_byte_len_monotonic(s, end, run.start);
    }
}

/// The text lies behind the checkbox and before every marker.
pub proof fn lemma_text_end(s: Seq<char>, start: int)
    requires
        0 <= start <= s.len(),
    ensures
        ({
            let toks = tokens(s, start);
            let m = metadata(s, toks, Set::empty());
            let end = text_end(s, start, toks, m);
            &&& start <= end <= s.len()
            &&& m.body > 0 ==> toks[m.body - 1].end <= end
            &&& forall|k: int|
                0 <= k < m.markers.len() ==> end <= (#[trigger] m.markers[k]).run.start
        }),
{
    let toks = tokens(s, start);
    let m = metadata(s, toks, Set::empty());
    lemma_tokens_in_order(s, start);
    lemma_metadata_bounds(s, toks, Set::empty());
    if m.body > 0 {
        assert(start <= toks[m.body - 1].start);
    }
    if m.markers.len() > 0 {
        let last = m.markers.len() - 1;
        let limit = m.markers[last].run.start;
        lemma_marker_apart(s, start, last);
        lemma_last_end(quotations(s), limit);
        assert forall|k: int| 0 <= k < m.markers.len() implies limit <= (
        #[trigger] m.markers[k]).run.start by {
            if k < last {
                assert(m.markers[last].run.end < m.markers[k].run.start);
            }
        }
    } else {
        lemma_last_end(quotations(s), s.len() as int);
    }
}

/// What [`last_end`] finds ends where it may.
pub proof fn lemma_last_end(rs: Seq<Run>, limit: int)
    requires
        0 <= limit,
    ensures
        last_end(rs, limit) <= limit,
    decreases rs.len(),
{
    if rs.len() > 0 {
        lemma_last_end(rs.drop_last(), limit);
    }
}

/// What looks like a marker begins where a token begins.
proof fn lemma_degraded_start(s: Seq<char>, toks: Seq<Run>, seen: Set<MarkerKind>)
    ensures
        ({
            let m = metadata(s, toks, seen);
            m.degraded.len() > 0 ==> exists|i: int|
                0 <= i < toks.len() && (#[trigger] toks[i]).start == m.degraded[0].run.start
        }),
    decreases toks.len(),
{
    reveal(metadata);
    let m = metadata(s, toks, seen);
    if toks.len() > 0 {
        let n = toks.len() as int;
        match reading(s, toks) {
            Reading::Text => {},
            Reading::Illegal { kind } => {
                assert(toks[n - 1].start == m.degraded[0].run.start);
            },
            Reading::Marker { value, first } => {
                if value.kind() != MarkerKind::Tag && seen.contains(value.kind()) {
                    assert(toks[first].start == m.degraded[0].run.start);
                } else {
                    let left = toks.take(first);
                    lemma_degraded_start(s, left, seen.insert(value.kind()));
                    if m.degraded.len() > 0 {
                        let i = choose|i: int|
                            0 <= i < left.len() && (#[trigger] left[i]).start
                                == m.degraded[0].run.start;
                        assert(toks[i].start == m.degraded[0].run.start);
                    }
                }
            },
        }
    }
}

} // verus!

//! What writing a value into a to-do line leaves as it was.

use vstd::prelude::*;
use vstd::utf8::encode_utf8;

use crate::runs::{lemma_runs, lemma_runs_concat, lemma_runs_none, runs, Run};
use crate::text::{
    byte_len, ends_with, is_white, lemma_byte_len_monotonic, lemma_encode_concat,
    lemma_trimmed_len, trim, trimmed_len,
};
use crate::todo::laws::{
    ends_plainly, law_appended_marker_reads_back, law_replaced_marker_reads_back,
    law_written_value_reads_back, lemma_appended_mask, lemma_appended_start, lemma_not_blank_line,
    lemma_removed_line, lemma_removed_part, lemma_removed_tokens, lemma_text_end, repeats,
};
use crate::todo::read_back::normalized;
use crate::todo::readings::{
    lemma_marker_free, lemma_marker_split, lemma_marker_text, lemma_marker_tokens,
    lemma_replaced_tokens, lemma_tokens_from, lemma_tokens_in_order, moved, tokens_before,
    tokens_behind, tokens_between,
};
use crate::todo::serialize::{
    appended, first_of, has_value, lemma_first_of, marker_text, omitted_default, place_of, removed,
    replaced, value_text, written,
};
use crate::todo::splice::{
    box_char, lemma_checkbox_chars, lemma_checkbox_prefix, lemma_quotations_spliced,
    lemma_runs_cover, lemma_same_checkbox, spliced, unmarked,
};
use crate::todo::syntax::{
    checkbox, in_quotation, last_byte, last_end, lemma_metadata_bounds, lemma_quotes,
    line_metadata, line_start, metadata, parsed, quotations, quotes, reading, text_end, token_mask,
    tokens, Found, MarkerView, Reading,
};
use crate::todo::value::{MarkerKind, Value};

verus! {

// ---------- The text ----------

/// Where the text of a line ends, in characters.
spec fn line_text_end(s: Seq<char>) -> int {
    text_end(s, line_start(s), tokens(s, line_start(s)), line_metadata(s))
}

/// Where the last token of a line ends that is text.
spec fn words_end(s: Seq<char>) -> int {
    if line_metadata(s).body > 0 {
        tokens(s, line_start(s))[line_metadata(s).body - 1].end
    } else {
        line_start(s)
    }
}

/// Where the markers of a line begin.
spec fn text_limit(s: Seq<char>) -> int {
    if line_metadata(s).markers.len() > 0 {
        line_metadata(s).markers.last().run.start
    } else {
        s.len() as int
    }
}

/// The last run before one position is the last run before another, where the same runs end
/// before each of them.
proof fn lemma_last_end_same(rs: Seq<Run>, ts: Seq<Run>, rs_limit: int, ts_limit: int)
    requires
        rs.len() == ts.len(),
        forall|q: int|
            0 <= q < rs.len() && (#[trigger] rs[q]).end <= rs_limit ==> ts[q] == rs[q] && ts[q].end
                <= ts_limit,
        forall|q: int|
            0 <= q < rs.len() && (#[trigger] rs[q]).end > rs_limit ==> ts[q].end > ts_limit,
    ensures
        last_end(rs, rs_limit) == last_end(ts, ts_limit),
    decreases rs.len(),
{
    if rs.len() > 0 {
        assert(rs.last() == rs[rs.len() - 1]);
        if rs.last().end > rs_limit {
            assert forall|q: int| 0 <= q < rs.len() - 1 implies #[trigger] rs.drop_last()[q]
                == rs[q] && ts.drop_last()[q] == ts[q] by {}
            lemma_last_end_same(rs.drop_last(), ts.drop_last(), rs_limit, ts_limit);
        }
    }
}

/// The text of a line ends where it did before, where the same quotations stand before the
/// markers.
proof fn lemma_same_text_end(s: Seq<char>, t: Seq<char>)
    requires
        words_end(s) == words_end(t),
        quotations(s).len() == quotations(t).len(),
        forall|q: int|
            0 <= q < quotations(s).len() && (#[trigger] quotations(s)[q]).end <= text_limit(s)
                ==> quotations(t)[q] == quotations(s)[q] && quotations(t)[q].end <= text_limit(t),
        forall|q: int|
            0 <= q < quotations(s).len() && (#[trigger] quotations(s)[q]).end > text_limit(s)
                ==> quotations(t)[q].end > text_limit(t),
    ensures
        line_text_end(s) == line_text_end(t),
{
    lemma_last_end_same(quotations(s), quotations(t), text_limit(s), text_limit(t));
}

/// Tokens before a marker that are text stand before all of its own tokens.
proof fn lemma_body_before(s: Seq<char>, k: int)
    requires
        0 <= k < line_metadata(s).markers.len(),
        !(line_metadata(s).markers[k].value is Tag),
    ensures
        ({
            let m = line_metadata(s);
            let run = m.markers[k].run;
            let left = tokens_before(s, run.start);
            &&& 0 <= m.body <= left.len()
            &&& m.body > 0 ==> tokens(s, line_start(s))[m.body - 1] == left[m.body - 1]
        }),
{
    let m = line_metadata(s);
    let run = m.markers[k].run;
    let toks = tokens(s, line_start(s));
    let left = tokens_before(s, run.start);
    lemma_marker_free(s, k);
    lemma_marker_split(s, k);
    lemma_tokens_in_order(s, line_start(s));
    lemma_metadata_bounds(s, toks, Set::empty());
    if m.body > 0 {
        let j = m.body - 1;
        assert(toks[j].end < run.start);
        if j >= left.len() {
            lemma_runs(token_mask(s, line_start(s)).subrange(run.start, run.end));
            let own = tokens_between(s, run.start, run.end);
            if j < left.len() + own.len() {
                assert(toks[j] == own[j - left.len()]);
            } else {
                assert(toks[j] == tokens_behind(s, run.end)[j - left.len() - own.len()]);
            }
            assert(false);
        }
        assert(toks[j] == left[j]);
    }
}

/// The text of a line ends where it did before, in front of a marker that was replaced.
proof fn lemma_replaced_text_end(s: Seq<char>, k: int, v: Value)
    requires
        0 <= k < line_metadata(s).markers.len(),
        line_metadata(s).markers[k].value.kind() == v.kind(),
        !(v is Tag),
        marker_text(v) is Some,
    ensures
        line_text_end(replaced(s, line_metadata(s).markers[k].run, marker_text(v).unwrap()))
            == line_text_end(s),
{
    let m = line_metadata(s);
    let run = m.markers[k].run;
    let text = marker_text(v).unwrap();
    let out = replaced(s, run, text);
    let by = text.len() - (run.end - run.start);
    let last = m.markers.len() - 1;
    assert(!(m.markers[k].value is Tag));
    lemma_marker_text(v);
    lemma_marker_free(s, k);
    lemma_marker_split(s, k);
    lemma_replaced_tokens(s, k, v);
    law_replaced_marker_reads_back(s, k, v);
    lemma_body_before(s, k);
    lemma_tokens_in_order(s, line_start(s));
    lemma_metadata_bounds(s, tokens(s, line_start(s)), Set::empty());
    if m.body > 0 {
        assert(tokens(out, line_start(out))[m.body - 1] == tokens_before(s, run.start)[m.body - 1]);
    }
    assert(out =~= spliced(s, run.start, run.end, text));
    lemma_quotations_spliced(s, run.start, run.end, text);
    lemma_quotes(s);
    let n = line_metadata(out).markers;
    assert(n.len() == m.markers.len());
    if k < last {
        assert(n[last] == m.markers.skip(k + 1)[last - k - 1]);
        assert(m.markers[last].run.end < m.markers[k].run.start);
    } else {
        assert(n[last].run.start == run.start);
    }
    assert(text_limit(out) == text_limit(s));
    assert forall|q: int|
        0 <= q < quotations(s).len() && (#[trigger] quotations(s)[q]).end <= text_limit(
            s,
        ) implies quotations(out)[q] == quotations(s)[q] && quotations(out)[q].end <= text_limit(
        out,
    ) by {}
    assert forall|q: int|
        0 <= q < quotations(s).len() && (#[trigger] quotations(s)[q]).end > text_limit(
            s,
        ) implies quotations(out)[q].end > text_limit(out) by {
        assert(quotes(s)[2 * q] < quotes(s)[2 * q + 1]);
        assert(quotations(s)[q].end <= run.start || quotations(s)[q].start >= run.end);
        assert(quotations(out)[q].end == quotations(s)[q].end || quotations(out)[q].end
            == quotations(s)[q].end + by);
    }
    lemma_same_text_end(s, out);
}

/// The text of a line that begins with a checkbox ends where it did before, in front of a
/// marker that was appended.
proof fn lemma_appended_text_end(s: Seq<char>, v: Value)
    requires
        checkbox(s) is Some,
        marker_text(v) is Some,
        v is Tag || first_of(line_metadata(s).markers, v.kind()) == line_metadata(
            s,
        ).markers.len(),
    ensures
        ({
            let out = appended(s, marker_text(v).unwrap());
            &&& checkbox(out) == checkbox(s)
            &&& line_text_end(out) == line_text_end(s)
            &&& line_text_end(s) <= out.len()
            &&& out.take(line_text_end(s)) == s.take(line_text_end(s))
        }),
{
    let m = line_metadata(s);
    let text = marker_text(v).unwrap();
    let out = appended(s, text);
    let k = trimmed_len(s) as int;
    let start = checkbox(s).unwrap().1;
    lemma_trimmed_len(s);
    lemma_checkbox_chars(s);
    lemma_appended_start(s, v);
    assert(start - 1 <= k) by {
        if k <= start - 2 {
            assert(is_white(s[start - 2]));
        }
    }
    let shared = if start > k {
        start
    } else {
        k
    };
    assert(s.take(shared) =~= out.take(shared));
    if checkbox(out) is Some && checkbox(out).unwrap().1 > shared {
        assert(shared == k);
        lemma_checkbox_prefix(s, out);
    }
    lemma_same_checkbox(s, out, shared);
    law_appended_marker_reads_back(s, v);
    let from = if start > k {
        k
    } else {
        start
    };
    lemma_appended_mask(s, v, from);
    if start > k {
        lemma_tokens_from(out, start);
    }
    let mask = token_mask(s, start);
    let left = runs(token_mask(s, from).take(k));
    assert(mask.take(k) =~= token_mask(s, from).take(k));
    assert(mask =~= mask.take(k) + mask.skip(k));
    assert forall|i: int| 0 <= i < mask.skip(k).len() implies !#[trigger] mask.skip(k)[i] by {
        assert(is_white(s[k + i]));
    }
    lemma_runs_none(mask.skip(k));
    lemma_runs_concat(mask.take(k), mask.skip(k));
    assert(tokens(s, start) =~= left);
    lemma_tokens_in_order(s, start);
    lemma_metadata_bounds(s, left, Set::empty());
    lemma_runs(mask.take(k));
    if m.body > 0 {
        assert(tokens(out, start)[m.body - 1] == left[m.body - 1]);
        assert(left[m.body - 1].end <= k);
    }
    lemma_marker_text(v);
    lemma_appended_quotations(s, text);
    lemma_same_text_end(s, out);
    lemma_text_end(s, start);
    assert(line_text_end(s) <= shared) by {
        lemma_last_end_within(quotations(s), text_limit(s), k);
    }
    assert(out.take(line_text_end(s)) =~= out.take(shared).take(line_text_end(s)));
    assert(s.take(line_text_end(s)) =~= s.take(shared).take(line_text_end(s)));
}

/// The quotations of a line end before a marker that is appended to it.
proof fn lemma_appended_quotations(s: Seq<char>, text: Seq<char>)
    requires
        unmarked(text),
    ensures
        quotations(appended(s, text)) == quotations(s),
        forall|q: int|
            0 <= q < quotations(s).len() ==> (#[trigger] quotations(s)[q]).end <= trimmed_len(s),
{
    let k = trimmed_len(s) as int;
    let mid = seq![' '] + text;
    lemma_trimmed_len(s);
    lemma_quotes(s);
    assert forall|q: int| 0 <= q < quotations(s).len() implies (#[trigger] quotations(s)[q]).end
        <= k by {
        let b = quotes(s)[2 * q + 1];
        assert(s[b] == '"');
        if b >= k {
            assert(is_white(s[b]));
        }
    }
    assert(appended(s, text) =~= spliced(s, k, k, mid));
    lemma_quotations_spliced(s, k, k, mid);
    assert(quotations(appended(s, text)) =~= quotations(s));
}

/// What [`last_end`] finds ends where all the runs do that it may find.
proof fn lemma_last_end_within(rs: Seq<Run>, limit: int, bound: int)
    requires
        0 <= bound,
        forall|q: int|
            0 <= q < rs.len() && (#[trigger] rs[q]).end <= limit ==> rs[q].end <= bound,
    ensures
        last_end(rs, limit) <= bound,
    decreases rs.len(),
{
    if rs.len() > 0 {
        lemma_last_end_within(rs.drop_last(), limit, bound);
    }
}

// ---------- Without a marker ----------

/// Whether a quotation stands between a marker and what follows it on the right: the next
/// marker, or the end of the line.
pub open spec fn quoted_behind(s: Seq<char>, k: int) -> bool {
    let markers = line_metadata(s).markers;
    exists|q: int|
        0 <= q < quotations(s).len() && markers[k].run.end <= (#[trigger] quotations(s)[q]).start
            && (k > 0 ==> quotations(s)[q].end <= markers[k - 1].run.start)
}

/// Whether a line says the rest of what it said without one of its markers. It keeps its
/// checkbox, as the space before the marker is not the checkbox's own, or as another space
/// follows. The text does not end in a second marker of the same kind, refused while this
/// one stands. No white space that is part of a token comes to stand at the end of the line.
/// And no quotation becomes the end of the text when the leftmost marker is gone.
pub open spec fn removable(s: Seq<char>, k: int) -> bool {
    let m = line_metadata(s);
    let run = m.markers[k].run;
    &&& checkbox(s) is Some ==> run.start > line_start(s) || (run.end < s.len() && s[run.end]
        == ' ')
    &&& !repeats(s, m.markers[k].value.kind())
    &&& ends_plainly(s, run)
    &&& k == m.markers.len() - 1 ==> !quoted_behind(s, k)
}

/// A line keeps its checkbox without a marker, unless the space before the marker is the
/// checkbox's own; and a line without one gets none.
pub proof fn law_removing_keeps_the_checkbox(s: Seq<char>, k: int)
    requires
        0 <= k < line_metadata(s).markers.len(),
        !(line_metadata(s).markers[k].value is Tag),
        ({
            let run = line_metadata(s).markers[k].run;
            checkbox(s) is Some ==> run.start > line_start(s) || (run.end < s.len() && s[run.end]
                == ' ')
        }),
    ensures
        checkbox(removed(s, line_metadata(s).markers[k].run)) == checkbox(s),
{
    let run = line_metadata(s).markers[k].run;
    let out = removed(s, run);
    lemma_marker_free(s, k);
    if checkbox(s) is Some {
        lemma_checkbox_chars(s);
        assert forall|i: int| 0 <= i < line_start(s) implies #[trigger] s[i] == out[i] by {}
        lemma_checkbox_prefix(s, out);
    } else if checkbox(out) is Some {
        let start = checkbox(out).unwrap().1;
        let a = run.end + out.len() - s.len();
        lemma_checkbox_chars(out);
        lemma_removed_part(s, k);
        if start - 2 >= a {
            lemma_no_bracket_behind(s, k, start - 2 - a + run.end);
            let i = choose|i: int|
                run.end <= i <= start - 2 - a + run.end && !box_char(#[trigger] s[i]);
            assert(out[i - run.end + a] == s[i]);
        } else if start - 2 == a - 1 && s[a] != ' ' {
            reveal(in_quotation);
            assert(a == run.start);
            assert(s[a - 1] == ']');
            assert(in_quotation(s, a - 1));
            let q = choose|q: int|
                0 <= q < quotations(s).len() && (#[trigger] quotations(s)[q]).start <= a - 1
                    < quotations(s)[q].end;
            lemma_quotes(s);
            assert(s[quotes(s)[2 * q + 1]] == '"');
        } else {
            assert forall|i: int| 0 <= i < start implies #[trigger] out[i] == s[i] by {}
            lemma_checkbox_prefix(out, s);
        }
    }
}

/// Where a marker that is not a tag is taken out of a line, the line says everything else
/// that it said, unless the space before the marker is the checkbox's own, a second marker of
/// this kind was refused while this one stood, or white space that is part of a token comes
/// to stand at the end of the line.
pub proof fn law_removed_marker_is_gone(s: Seq<char>, k: int)
    requires
        0 <= k < line_metadata(s).markers.len(),
        !(line_metadata(s).markers[k].value is Tag),
        ({
            let run = line_metadata(s).markers[k].run;
            checkbox(s) is Some ==> run.start > line_start(s) || (run.end < s.len() && s[run.end]
                == ' ')
        }),
        !repeats(s, line_metadata(s).markers[k].value.kind()),
        ends_plainly(s, line_metadata(s).markers[k].run),
    ensures
        ({
            let m = line_metadata(s);
            let out = removed(s, m.markers[k].run);
            &&& checkbox(out) == checkbox(s)
            &&& line_metadata(out).markers == moved(m.markers.take(k), out.len() - s.len())
                + m.markers.skip(k + 1)
            &&& line_metadata(out).degraded == m.degraded
            &&& line_metadata(out).body == m.body
            &&& first_of(line_metadata(out).markers, m.markers[k].value.kind()) == line_metadata(
                out,
            ).markers.len()
        }),
{
    law_removing_keeps_the_checkbox(s, k);
    lemma_removed_line(s, k);
}

/// A bracket behind a marker stands behind another marker's first character, or behind a
/// quotation mark.
proof fn lemma_no_bracket_behind(s: Seq<char>, k: int, p: int)
    requires
        0 <= k < line_metadata(s).markers.len(),
        !(line_metadata(s).markers[k].value is Tag),
        line_metadata(s).markers[k].run.end <= p < s.len(),
        s[p] == ']',
    ensures
        exists|i: int|
            line_metadata(s).markers[k].run.end <= i <= p && !box_char(#[trigger] s[i]),
{
    reveal(in_quotation);
    let m = line_metadata(s);
    let run = m.markers[k].run;
    let start = line_start(s);
    let toks = tokens(s, start);
    let mask = token_mask(s, start);
    lemma_marker_free(s, k);
    lemma_quotes(s);
    if in_quotation(s, p) {
        let q = choose|q: int|
            0 <= q < quotations(s).len() && (#[trigger] quotations(s)[q]).start <= p
                < quotations(s)[q].end;
        assert(quotations(s)[q].start >= run.end);
        assert(s[quotes(s)[2 * q]] == '"');
        assert(!box_char(s[quotations(s)[q].start]));
    } else {
        lemma_trimmed_len(s);
        assert(mask[p]);
        let t = lemma_runs_cover(mask, p);
        lemma_tokens_in_order(s, start);
        lemma_metadata_bounds(s, toks, Set::empty());
        if m.body > t {
            assert(toks[m.body - 1].end < run.start);
            if t < m.body - 1 {
                assert(toks[t].end < toks[m.body - 1].start);
            }
            assert(false);
        }
        let j = lemma_body_tokens(s, toks, Set::empty(), t);
        let (f, e) = lemma_marker_tokens(s, toks, Set::empty(), j);
        let other = m.markers[j].run;
        if j > k {
            assert(m.markers[j].run.end < m.markers[k].run.start);
        } else if j < k {
            assert(m.markers[k].run.end < m.markers[j].run.start);
        }
        assert(!box_char(s[other.start]));
    }
}

/// A token behind the text is part of a marker.
proof fn lemma_body_tokens(s: Seq<char>, toks: Seq<Run>, seen: Set<MarkerKind>, i: int) -> (k: int)
    requires
        metadata(s, toks, seen).body <= i < toks.len(),
        0 <= i,
        forall|j: int| 0 <= j < toks.len() ==> (#[trigger] toks[j]).start < toks[j].end,
        forall|j: int, k: int|
            0 <= j < k < toks.len() ==> (#[trigger] toks[j]).end < (#[trigger] toks[k]).start,
    ensures
        0 <= k < metadata(s, toks, seen).markers.len(),
        metadata(s, toks, seen).markers[k].run.start <= toks[i].start,
        toks[i].end <= metadata(s, toks, seen).markers[k].run.end,
    decreases toks.len(),
{
    reveal(metadata);
    let m = metadata(s, toks, seen);
    match reading(s, toks) {
        Reading::Marker { value, first } => {
            if first <= i {
                assert(toks[first].start <= toks[i].start);
                assert(toks[i].end <= toks.last().end);
                0
            } else {
                let left = toks.take(first);
                let rest = metadata(s, left, seen.insert(value.kind()));
                let k = lemma_body_tokens(s, left, seen.insert(value.kind()), i);
                assert(m.markers[k + 1] == rest.markers[k]);
                k + 1
            }
        },
        _ => 0,
    }
}

/// The last token that is text ends where it did before, in front of a marker that was taken
/// out.
proof fn lemma_removed_words(s: Seq<char>, k: int)
    requires
        checkbox(s) is Some,
        0 <= k < line_metadata(s).markers.len(),
        !(line_metadata(s).markers[k].value is Tag),
        removable(s, k),
    ensures
        ({
            let run = line_metadata(s).markers[k].run;
            let out = removed(s, run);
            &&& words_end(out) == words_end(s)
            &&& words_end(s) <= run.end + out.len() - s.len() || words_end(s) == line_start(s)
        }),
{
    let m = line_metadata(s);
    let run = m.markers[k].run;
    let out = removed(s, run);
    law_removed_marker_is_gone(s, k);
    lemma_removed_tokens(s, k);
    lemma_body_before(s, k);
    lemma_marker_free(s, k);
    if m.body > 0 {
        assert(tokens(out, line_start(out))[m.body - 1] == tokens_before(s, run.start)[m.body - 1]);
    }
}

/// The quotations before the markers are the same without one of the markers.
proof fn lemma_removed_quotations(s: Seq<char>, k: int)
    requires
        checkbox(s) is Some,
        0 <= k < line_metadata(s).markers.len(),
        !(line_metadata(s).markers[k].value is Tag),
        removable(s, k),
    ensures
        ({
            let run = line_metadata(s).markers[k].run;
            let out = removed(s, run);
            let last = last_end(quotations(s), text_limit(s));
            &&& last_end(quotations(out), text_limit(out)) == last
            &&& last <= run.end + out.len() - s.len()
        }),
{
    let m = line_metadata(s);
    let run = m.markers[k].run;
    let out = removed(s, run);
    let by = out.len() - s.len();
    let a = run.end + by;
    let last = m.markers.len() - 1;
    let n = line_metadata(out).markers;
    law_removed_marker_is_gone(s, k);
    lemma_marker_free(s, k);
    lemma_tokens_in_order(s, line_start(s));
    lemma_metadata_bounds(s, tokens(s, line_start(s)), Set::empty());
    lemma_removed_part(s, k);
    lemma_quotations_spliced(s, a, run.end, Seq::<char>::empty());
    lemma_quotes(s);
    if k < last {
        assert(n[last - 1] == m.markers.skip(k + 1)[last - k - 1]);
        assert(m.markers[last].run.end < m.markers[k].run.start);
    } else if k > 0 {
        assert(n[k - 1] == moved(m.markers.take(k), by)[k - 1]);
        assert(m.markers[k].run.end < m.markers[k - 1].run.start);
    }
    assert forall|q: int| 0 <= q < quotations(s).len() implies (#[trigger] quotations(s)[q]).start
        < quotations(s)[q].end <= s.len() by {
        assert(quotes(s)[2 * q] < quotes(s)[2 * q + 1]);
    }
    assert forall|q: int|
        0 <= q < quotations(s).len() && (#[trigger] quotations(s)[q]).end > text_limit(
            s,
        ) implies quotations(out)[q].end > text_limit(out) by {
        if k == last {
            assert(quotations(s)[q].start >= run.end);
            assert(!quoted_behind(s, k));
        }
    }
    lemma_last_end_same(quotations(s), quotations(out), text_limit(s), text_limit(out));
    lemma_last_end_within(quotations(s), text_limit(s), a);
}

/// The text of a line ends where it did before, in front of a marker that was taken out.
proof fn lemma_removed_text_end(s: Seq<char>, k: int)
    requires
        checkbox(s) is Some,
        0 <= k < line_metadata(s).markers.len(),
        !(line_metadata(s).markers[k].value is Tag),
        removable(s, k),
    ensures
        ({
            let out = removed(s, line_metadata(s).markers[k].run);
            &&& checkbox(out) == checkbox(s)
            &&& line_text_end(out) == line_text_end(s)
            &&& line_text_end(s) <= out.len()
            &&& out.take(line_text_end(s)) == s.take(line_text_end(s))
        }),
{
    let run = line_metadata(s).markers[k].run;
    let out = removed(s, run);
    let start = line_start(s);
    let a = run.end + out.len() - s.len();
    let shared = if start > a {
        start
    } else {
        a
    };
    law_removing_keeps_the_checkbox(s, k);
    lemma_removed_words(s, k);
    lemma_removed_quotations(s, k);
    lemma_checkbox_chars(s);
    lemma_checkbox_chars(out);
    lemma_marker_free(s, k);
    lemma_text_end(s, start);
    assert(out.take(shared) =~= s.take(shared));
    assert(line_text_end(s) <= shared);
    assert(out.take(line_text_end(s)) =~= out.take(shared).take(line_text_end(s)));
    assert(s.take(line_text_end(s)) =~= s.take(shared).take(line_text_end(s)));
}

// ---------- The values ----------

/// The values of some markers.
pub open spec fn marker_values(markers: Seq<MarkerView>) -> Seq<Value> {
    markers.map_values(|m: MarkerView| m.value)
}

/// Values of other kinds than one, in their order.
pub open spec fn other_values(values: Seq<Value>, kind: MarkerKind) -> Seq<Value>
    decreases values.len(),
{
    if values.len() == 0 {
        Seq::empty()
    } else if values.last().kind() == kind {
        other_values(values.drop_last(), kind)
    } else {
        other_values(values.drop_last(), kind).push(values.last())
    }
}

/// Other values of two sequences, one behind the other.
proof fn lemma_other_values(a: Seq<Value>, b: Seq<Value>, kind: MarkerKind)
    ensures
        other_values(a + b, kind) == other_values(a, kind) + other_values(b, kind),
    decreases b.len(),
{
    if b.len() == 0 {
        assert(a + b =~= a);
    } else {
        assert((a + b).drop_last() =~= a + b.drop_last());
        assert((a + b).last() == b.last());
        lemma_other_values(a, b.drop_last(), kind);
        assert(other_values(a + b, kind) =~= other_values(a, kind) + other_values(b, kind));
    }
}

/// A value of the kind itself is not among the others.
proof fn lemma_other_values_around(a: Seq<Value>, v: Value, b: Seq<Value>)
    ensures
        other_values(a + seq![v] + b, v.kind()) == other_values(a + b, v.kind()),
{
    let kind = v.kind();
    lemma_other_values(a + seq![v], b, kind);
    lemma_other_values(a, seq![v], kind);
    lemma_other_values(a, b, kind);
    let one = seq![v];
    assert(one.last() == v);
    assert(other_values(one.drop_last(), kind) =~= Seq::<Value>::empty());
    assert(other_values(a, kind) + other_values(one, kind) =~= other_values(a, kind));
}

/// The values of the markers that a line says, and those of its parts.
spec fn found_values(markers: Seq<Found>) -> Seq<Value> {
    markers.map_values(|f: Found| f.value)
}

/// Where the marker of a kind is replaced or taken out, the values of the other kinds stay,
/// in their order.
proof fn lemma_others_stay(before: Seq<Found>, after: Seq<Found>, k: int, by: int)
    requires
        0 <= k < before.len(),
        after == moved(before.take(k), by) + before.skip(k + 1) || exists|new: Found|
            new.value.kind() == before[k].value.kind() && after == #[trigger] (moved(
                before.take(k),
                by,
            ) + seq![new]) + before.skip(k + 1),
    ensures
        other_values(found_values(after), before[k].value.kind()) == other_values(
            found_values(before),
            before[k].value.kind(),
        ),
{
    let v = before[k].value;
    let a = found_values(before.take(k));
    let b = found_values(before.skip(k + 1));
    assert(found_values(before) =~= a + seq![v] + b);
    lemma_other_values_around(a, v, b);
    if after == moved(before.take(k), by) + before.skip(k + 1) {
        assert(found_values(after) =~= a + b);
    } else {
        let new = choose|new: Found|
            new.value.kind() == v.kind() && after == #[trigger] (moved(before.take(k), by)
                + seq![new]) + before.skip(k + 1);
        assert(found_values(after) =~= a + seq![new.value] + b);
        lemma_other_values_around(a, new.value, b);
    }
}

// ---------- The law ----------

/// Two lines with the same checkbox that agree up to the end of their texts have the same
/// text.
proof fn lemma_same_text(s: Seq<char>, t: Seq<char>)
    requires
        parsed(s) is Some,
        checkbox(t) == checkbox(s),
        line_text_end(t) == line_text_end(s),
        line_text_end(s) <= t.len(),
        t.take(line_text_end(s)) == s.take(line_text_end(s)),
    ensures
        parsed(t).unwrap().content == parsed(s).unwrap().content,
        encode_utf8(t).take(parsed(s).unwrap().content.end + 1) == encode_utf8(s).take(
            parsed(s).unwrap().content.end + 1,
        ),
{
    let start = line_start(s);
    let end = line_text_end(s);
    lemma_checkbox_chars(s);
    lemma_text_end(s, start);
    assert(t.take(start) =~= t.take(end).take(start));
    assert(s.take(start) =~= s.take(end).take(start));
    lemma_byte_len_monotonic(s, 0, end);
    assert(last_byte(s, end) == byte_len(s.take(end)) - 1);
    assert(s =~= s.take(end) + s.skip(end));
    assert(t =~= t.take(end) + t.skip(end));
    lemma_encode_concat(s.take(end), s.skip(end));
    lemma_encode_concat(t.take(end), t.skip(end));
    let bytes = encode_utf8(s.take(end));
    assert(encode_utf8(s).take(bytes.len() as int) =~= bytes);
    assert(encode_utf8(t).take(bytes.len() as int) =~= bytes);
}

/// The white space at the end of a line ends everything that a later part of it ends.
proof fn lemma_white_end(s: Seq<char>, t: Seq<char>, b: int)
    requires
        0 <= b <= trimmed_len(s),
        ends_with(t, s.skip(b)),
    ensures
        ends_with(t, s.skip(trimmed_len(s) as int)),
{
    let k = trimmed_len(s) as int;
    lemma_trimmed_len(s);
    assert(s.skip(k) =~= s.skip(b).skip(k - b));
    let from = t.len() - s.skip(b).len();
    assert(t.skip(from) =~= s.skip(b));
    assert(t.skip(t.len() - s.skip(k).len()) =~= t.skip(from).skip(k - b));
}

/// A marker stands before the white space at the end of its line.
proof fn lemma_marker_before_white(s: Seq<char>, k: int)
    requires
        0 <= k < line_metadata(s).markers.len(),
        !(line_metadata(s).markers[k].value is Tag),
    ensures
        line_metadata(s).markers[k].run.end <= trimmed_len(s),
{
    let run = line_metadata(s).markers[k].run;
    lemma_marker_free(s, k);
    lemma_trimmed_len(s);
    if run.end > trimmed_len(s) {
        assert(is_white(s[run.end - 1]));
    }
}

/// Whether a line is another but for markers of one kind: it has the same checkbox, the same
/// text, the same other values and the same white space at its end.
spec fn line_kept(s: Seq<char>, out: Seq<char>, kind: MarkerKind) -> bool {
    &&& checkbox(out) == checkbox(s)
    &&& line_text_end(out) == line_text_end(s)
    &&& line_text_end(s) <= out.len()
    &&& out.take(line_text_end(s)) == s.take(line_text_end(s))
    &&& other_values(found_values(line_metadata(out).markers), kind) == other_values(
        found_values(line_metadata(s).markers),
        kind,
    )
    &&& ends_with(out, s.skip(trimmed_len(s) as int))
}

/// What a line keeps in which a marker was replaced.
proof fn lemma_replaced_kept(s: Seq<char>, k: int, v: Value)
    requires
        checkbox(s) is Some,
        0 <= k < line_metadata(s).markers.len(),
        line_metadata(s).markers[k].value.kind() == v.kind(),
        !(v is Tag),
        marker_text(v) is Some,
    ensures
        line_kept(
            s,
            replaced(s, line_metadata(s).markers[k].run, marker_text(v).unwrap()),
            v.kind(),
        ),
{
    let m = line_metadata(s);
    let run = m.markers[k].run;
    let text = marker_text(v).unwrap();
    let out = replaced(s, run, text);
    assert(!(m.markers[k].value is Tag));
    lemma_marker_before_white(s, k);
    lemma_marker_free(s, k);
    lemma_replaced_tokens(s, k, v);
    law_replaced_marker_reads_back(s, k, v);
    lemma_replaced_text_end(s, k, v);
    lemma_checkbox_chars(s);
    lemma_text_end(s, line_start(s));
    assert(line_text_end(s) <= run.start);
    assert(out.take(line_text_end(s)) =~= s.take(line_text_end(s)));
    lemma_marker_text(v);
    lemma_others_stay(m.markers, line_metadata(out).markers, k, out.len() - s.len());
    assert(out.skip(out.len() - s.skip(run.end).len()) =~= s.skip(run.end));
    lemma_white_end(s, out, run.end);
}

/// What a line keeps from which a marker was taken out.
proof fn lemma_removed_kept(s: Seq<char>, k: int)
    requires
        checkbox(s) is Some,
        0 <= k < line_metadata(s).markers.len(),
        !(line_metadata(s).markers[k].value is Tag),
        removable(s, k),
    ensures
        line_kept(
            s,
            removed(s, line_metadata(s).markers[k].run),
            line_metadata(s).markers[k].value.kind(),
        ),
{
    let m = line_metadata(s);
    let run = m.markers[k].run;
    let out = removed(s, run);
    lemma_marker_before_white(s, k);
    lemma_marker_free(s, k);
    lemma_removed_text_end(s, k);
    law_removed_marker_is_gone(s, k);
    lemma_others_stay(m.markers, line_metadata(out).markers, k, out.len() - s.len());
    assert(out.skip(out.len() - s.skip(run.end).len()) =~= s.skip(run.end));
    lemma_white_end(s, out, run.end);
}

/// What a line keeps to which a marker was appended.
proof fn lemma_appended_kept(s: Seq<char>, v: Value)
    requires
        checkbox(s) is Some,
        marker_text(v) is Some,
        v is Tag || first_of(line_metadata(s).markers, v.kind()) == line_metadata(
            s,
        ).markers.len(),
    ensures
        line_kept(s, appended(s, marker_text(v).unwrap()), v.kind()),
        found_values(line_metadata(appended(s, marker_text(v).unwrap())).markers) == seq![
            normalized(v),
        ] + found_values(line_metadata(s).markers),
{
    let m = line_metadata(s);
    let end = trimmed_len(s) as int;
    let out = appended(s, marker_text(v).unwrap());
    let n = line_metadata(out).markers;
    let none = Seq::<Value>::empty();
    lemma_trimmed_len(s);
    lemma_appended_text_end(s, v);
    law_appended_marker_reads_back(s, v);
    lemma_marker_text(v);
    assert(out.skip(out.len() - s.skip(end).len()) =~= s.skip(end));
    assert(found_values(n) =~= none + seq![normalized(v)] + found_values(m.markers));
    assert(found_values(n) =~= seq![normalized(v)] + found_values(m.markers));
    assert(found_values(m.markers) =~= none + found_values(m.markers));
    lemma_other_values_around(none, normalized(v), found_values(m.markers));
}

/// What writing a value leaves of a line that begins with a checkbox: the checkbox, the text
/// with every byte up to its end, the white space at the end of the line, and the markers of
/// the other kinds in their order; of tags, every one. A value that is left out by
/// convention may take a marker out; that much is kept wherever the line says the rest of
/// what it said without this marker.
pub proof fn law_writing_keeps_the_line(s: Seq<char>, v: Value)
    requires
        parsed(s) is Some,
        written(s, v) is Ok,
        omitted_default(v) && first_of(line_metadata(s).markers, v.kind()) < line_metadata(
            s,
        ).markers.len() ==> removable(s, first_of(line_metadata(s).markers, v.kind()) as int),
    ensures
        ({
            let out = written(s, v)->Ok_0;
            let before = parsed(s).unwrap();
            &&& parsed(out) matches Some(after) && after.checked == before.checked && after.content
                == before.content && other_values(marker_values(after.markers), v.kind())
                == other_values(marker_values(before.markers), v.kind()) && (v is Tag
                ==> marker_values(after.markers) == marker_values(before.markers) || marker_values(
                after.markers,
            ) == seq![v] + marker_values(before.markers))
            &&& encode_utf8(out).take(before.content.end + 1) == encode_utf8(s).take(
                before.content.end + 1,
            )
            &&& ends_with(out, s.skip(trimmed_len(s) as int))
        }),
{
    let m = line_metadata(s);
    let kind = v.kind();
    let k = first_of(m.markers, kind) as int;
    let end = trimmed_len(s) as int;
    let out = written(s, v)->Ok_0;
    lemma_first_of(m.markers, kind);
    assert(line_kept(s, out, kind)) by {
        lemma_trimmed_len(s);
        lemma_checkbox_chars(s);
        lemma_text_end(s, line_start(s));
        if place_of(m.markers, kind) is Some {
            if marker_text(v) is Some {
                lemma_replaced_kept(s, k, v);
            } else {
                lemma_removed_kept(s, k);
            }
        } else if marker_text(v) is Some && !(v is Tag && has_value(m.markers, v)) {
            lemma_appended_kept(s, v);
        } else {
            assert(s.skip(s.len() - s.skip(end).len()) =~= s.skip(end));
        }
    }
    if v is Tag && !has_value(m.markers, v) {
        assert(normalized(v) == v);
        lemma_appended_kept(s, v);
    }
    lemma_same_text(s, out);
    assert(marker_values(parsed(s).unwrap().markers) =~= found_values(m.markers));
    assert(marker_values(parsed(out).unwrap().markers) =~= found_values(
        line_metadata(out).markers,
    ));
}

/// A value that is written into a line that begins with a checkbox is among the markers
/// that reading the line finds.
pub proof fn law_written_value_is_parsed(s: Seq<char>, v: Value)
    requires
        parsed(s) is Some,
        marker_text(v) is Some,
    ensures
        written(s, v) is Ok,
        parsed(written(s, v)->Ok_0) matches Some(after) && exists|k: int|
            0 <= k < after.markers.len() && (#[trigger] after.markers[k]).value == normalized(v),
{
    reveal(value_text);
    let start = checkbox(s).unwrap().1;
    lemma_checkbox_chars(s);
    lemma_not_blank_line(s, start - 2, ']');
    law_writing_keeps_the_line(s, v);
    law_written_value_reads_back(s, v);
    let out = written(s, v)->Ok_0;
    let found = line_metadata(out).markers;
    let k = choose|k: int| 0 <= k < found.len() && (#[trigger] found[k]).value == normalized(v);
    assert(parsed(out).unwrap().markers[k].value == normalized(v));
}

/// Writing a value that is left out by convention takes the marker of its kind out of a
/// line, with a checkbox or without one.
pub proof fn law_default_takes_the_marker_out(s: Seq<char>, v: Value)
    requires
        trim(s).len() > 0,
        omitted_default(v),
        ({
            let m = line_metadata(s);
            let k = first_of(m.markers, v.kind()) as int;
            k < m.markers.len() ==> (checkbox(s) is Some ==> m.markers[k].run.start > line_start(s)
                || (m.markers[k].run.end < s.len() && s[m.markers[k].run.end] == ' '))
        }),
        ({
            let markers = line_metadata(s).markers;
            let k = first_of(markers, v.kind()) as int;
            k < markers.len() ==> !repeats(s, v.kind()) && ends_plainly(s, markers[k].run)
        }),
    ensures
        written(s, v) is Ok,
        checkbox(written(s, v)->Ok_0) == checkbox(s),
        forall|k: int|
            0 <= k < line_metadata(written(s, v)->Ok_0).markers.len() ==> (
            #[trigger] line_metadata(written(s, v)->Ok_0).markers[k]).value.kind() != v.kind(),
{
    reveal(value_text);
    let markers = line_metadata(s).markers;
    let out = written(s, v)->Ok_0;
    lemma_first_of(markers, v.kind());
    if place_of(markers, v.kind()) is Some {
        let k = first_of(markers, v.kind()) as int;
        law_removed_marker_is_gone(s, k);
    }
    lemma_first_of(line_metadata(out).markers, v.kind());
}

} // verus!

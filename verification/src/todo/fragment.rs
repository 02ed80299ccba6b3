//! A text without a checkbox, and the same text behind one.

use vstd::prelude::*;

use crate::runs::{lemma_runs, lemma_runs_concat, lemma_runs_none, runs, shift, shift_all, Run};
use crate::text::{
    byte_len, is_white, lemma_byte_len_monotonic, lemma_byte_len_push, lemma_encode_concat,
    lemma_leading_white, lemma_trimmed_len, starts_with, trim_start, trimmed_len,
};
use crate::todo::laws::lemma_text_end;
use crate::todo::readings::{lemma_tokens_in_order, moved};
use crate::todo::splice::{
    free_part, lemma_in_quotation_spliced, lemma_quotations_spliced, lemma_trimmed_spliced, spliced,
    unmarked,
};
use crate::todo::syntax::{
    checkbox, in_quotation, last_end, lemma_metadata_bounds, lemma_quotes, metadata, parsed,
    parsed_fragment, quotations, quotes, reading, scanned, text_end, token_mask, tokens,
    DegradedView, Extent, Found, MarkerView, Metadata, Reading, Suspect,
};
use crate::todo::value::MarkerKind;

verus! {

/// Bytes that stand further to the right.
pub open spec fn moved_extent(e: Extent, by: int) -> Extent {
    Extent { start: e.start + by, end: e.end + by }
}

/// Markers whose bytes stand further to the right.
pub open spec fn moved_markers(v: Seq<MarkerView>, by: int) -> Seq<MarkerView> {
    v.map_values(|m: MarkerView| MarkerView { value: m.value, span: moved_extent(m.span, by) })
}

/// What looks like a marker, further to the right.
pub open spec fn moved_degraded(v: Seq<DegradedView>, by: int) -> Seq<DegradedView> {
    v.map_values(
        |d: DegradedView| DegradedView { suspected: d.suspected, span: moved_extent(d.span, by) },
    )
}

/// Quotations further to the right.
pub open spec fn moved_extents(v: Seq<Extent>, by: int) -> Seq<Extent> {
    v.map_values(|e: Extent| moved_extent(e, by))
}

/// What tokens say that stand further to the right.
spec fn moved_metadata(m: Metadata, by: int) -> Metadata {
    Metadata {
        markers: moved(m.markers, by),
        degraded: m.degraded.map_values(
            |d: Suspect| Suspect { kind: d.kind, run: shift(d.run, by) },
        ),
        body: m.body,
    }
}

/// The last tokens are read in the same way behind another text.
proof fn lemma_reading_behind(pre: Seq<char>, s: Seq<char>, toks: Seq<Run>)
    requires
        toks.len() > 0,
        forall|i: int| 0 <= i < toks.len() ==> 0 <= (#[trigger] toks[i]).start < toks[i].end
            <= s.len(),
        forall|i: int, j: int|
            0 <= i < j < toks.len() ==> (#[trigger] toks[i]).end < (#[trigger] toks[j]).start,
    ensures
        reading(pre + s, shift_all(toks, pre.len() as int)) == reading(s, toks),
{
    let by = pre.len() as int;
    let out = pre + s;
    let n = toks.len() as int;
    let more = shift_all(toks, by);
    let last = toks[n - 1];
    assert(more[n - 1] == shift(last, by));
    assert(out[last.start + by] == s[last.start]);
    assert(out.subrange(last.start + by + 1, last.end + by) =~= s.subrange(
        last.start + 1,
        last.end,
    ));
    if n >= 2 {
        let before = toks[n - 2];
        assert(more[n - 2] == shift(before, by));
        assert(out[before.start + by] == s[before.start]);
        assert(before.end < last.start);
        assert(out.subrange(before.start + by + 1, last.end + by) =~= s.subrange(
            before.start + 1,
            last.end,
        ));
    }
}

/// Tokens say the same behind another text.
proof fn lemma_metadata_behind(
    pre: Seq<char>,
    s: Seq<char>,
    toks: Seq<Run>,
    seen: Set<MarkerKind>,
)
    requires
        forall|i: int| 0 <= i < toks.len() ==> 0 <= (#[trigger] toks[i]).start < toks[i].end
            <= s.len(),
        forall|i: int, j: int|
            0 <= i < j < toks.len() ==> (#[trigger] toks[i]).end < (#[trigger] toks[j]).start,
    ensures
        metadata(pre + s, shift_all(toks, pre.len() as int), seen) == moved_metadata(
            metadata(s, toks, seen),
            pre.len() as int,
        ),
    decreases toks.len(),
{
    reveal(metadata);
    let by = pre.len() as int;
    let out = pre + s;
    let m = metadata(s, toks, seen);
    let n = metadata(out, shift_all(toks, by), seen);
    if toks.len() > 0 {
        lemma_reading_behind(pre, s, toks);
        assert(shift_all(toks, by).last() == shift(toks.last(), by));
        if let Reading::Marker { value, first } = reading(s, toks) {
            let left = toks.take(first);
            assert(shift_all(toks, by)[first] == shift(toks[first], by));
            if !(value.kind() != MarkerKind::Tag && seen.contains(value.kind())) {
                lemma_metadata_behind(pre, s, left, seen.insert(value.kind()));
                assert(shift_all(toks, by).take(first) =~= shift_all(left, by));
                let rest = metadata(s, left, seen.insert(value.kind()));
                let new = Found {
                    value,
                    run: Run { start: toks[first].start, end: toks.last().end },
                };
                assert(m.markers == seq![new] + rest.markers);
            }
        }
    }
    assert(n.markers =~= moved(m.markers, by));
    assert(n.degraded =~= moved_metadata(m, by).degraded);
}

/// Quotations and tokens stand at the same places behind another text without quotation
/// marks.
proof fn lemma_tokens_behind(pre: Seq<char>, s: Seq<char>)
    requires
        unmarked(pre),
    ensures
        quotations(pre + s) == shift_all(quotations(s), pre.len() as int),
        tokens(pre + s, pre.len() as int) == shift_all(tokens(s, 0), pre.len() as int),
{
    let by = pre.len() as int;
    let out = pre + s;
    assert(out =~= spliced(s, 0, 0, pre));
    lemma_quotes(s);
    assert(free_part(s, 0, 0));
    lemma_quotations_spliced(s, 0, 0, pre);
    lemma_in_quotation_spliced(s, 0, 0, pre);
    assert forall|q: int| 0 <= q < quotations(s).len() implies #[trigger] quotations(out)[q]
        == shift(quotations(s)[q], by) by {
        assert(0 <= quotes(s)[2 * q] < quotes(s)[2 * q + 1]);
    }
    assert(quotations(out) =~= shift_all(quotations(s), by));
    lemma_trimmed_len(s);
    lemma_trimmed_len(out);
    if trimmed_len(s) > 0 {
        lemma_trimmed_spliced(s, 0, 0, pre);
    } else if by < trimmed_len(out) {
        let last = trimmed_len(out) - 1;
        assert(out[last] == s[last - by]);
        assert(is_white(s[last - by]));
    }
    let gap = Seq::new(pre.len(), |i: int| false);
    let mask = token_mask(s, 0);
    let whole = token_mask(out, by);
    assert forall|i: int| 0 <= i < whole.len() implies #[trigger] whole[i] == (gap + mask)[i] by {
        if i >= by {
            assert(out[i] == s[i - by]);
            assert(in_quotation(out, (i - by) + by) == in_quotation(s, i - by));
        }
    }
    assert(whole =~= gap + mask);
    lemma_runs_none(gap);
    lemma_runs_concat(gap, mask);
    assert(runs(gap) + shift_all(runs(mask), by) =~= shift_all(runs(mask), by));
}

/// The last run before a position moves with all of them.
proof fn lemma_last_end_behind(rs: Seq<Run>, limit: int, by: int)
    requires
        forall|q: int| 0 <= q < rs.len() ==> 0 < (#[trigger] rs[q]).end,
    ensures
        last_end(rs, limit) >= 0,
        last_end(shift_all(rs, by), limit + by) == (if last_end(rs, limit) > 0 {
            last_end(rs, limit) + by
        } else {
            0
        }),
    decreases rs.len(),
{
    if rs.len() > 0 {
        assert(shift_all(rs, by).last() == shift(rs.last(), by));
        assert(shift_all(rs, by).drop_last() =~= shift_all(rs.drop_last(), by));
        assert(rs.last() == rs[rs.len() - 1]);
        assert forall|q: int| 0 <= q < rs.drop_last().len() implies 0 < (
        #[trigger] rs.drop_last()[q]).end by {
            assert(rs.drop_last()[q] == rs[q]);
        }
        lemma_last_end_behind(rs.drop_last(), limit, by);
    }
}

/// The text ends at the same place behind another text.
proof fn lemma_text_end_behind(pre: Seq<char>, s: Seq<char>)
    requires
        unmarked(pre),
    ensures
        ({
            let by = pre.len() as int;
            let out = pre + s;
            let toks = tokens(s, 0);
            let m = metadata(s, toks, Set::empty());
            let n = metadata(out, tokens(out, by), Set::empty());
            &&& n == moved_metadata(m, by)
            &&& text_end(out, by, tokens(out, by), n) == text_end(s, 0, toks, m) + by
        }),
{
    let by = pre.len() as int;
    let out = pre + s;
    let toks = tokens(s, 0);
    let m = metadata(s, toks, Set::empty());
    lemma_tokens_behind(pre, s);
    lemma_tokens_in_order(s, 0);
    lemma_runs(token_mask(s, 0));
    lemma_metadata_behind(pre, s, toks, Set::empty());
    lemma_metadata_bounds(s, toks, Set::empty());
    lemma_quotes(s);
    assert forall|q: int| 0 <= q < quotations(s).len() implies 0 < (
    #[trigger] quotations(s)[q]).end by {
        assert(0 <= quotes(s)[2 * q + 1]);
    }
    let limit = if m.markers.len() > 0 {
        m.markers.last().run.start
    } else {
        s.len() as int
    };
    lemma_last_end_behind(quotations(s), limit, by);
}

/// The bytes before a position behind another text.
proof fn lemma_bytes_behind(pre: Seq<char>, s: Seq<char>, i: int)
    requires
        0 <= i <= s.len(),
    ensures
        byte_len((pre + s).take(pre.len() + i)) == byte_len(pre) + byte_len(s.take(i)),
{
    assert((pre + s).take(pre.len() + i) =~= pre + s.take(i));
    lemma_encode_concat(pre, s.take(i));
}

/// The checkbox of an item that is to be done, and the bytes it takes.
proof fn lemma_open_checkbox(s: Seq<char>)
    ensures
        "- [ ] "@.len() == 6,
        byte_len("- [ ] "@) == 6,
        unmarked("- [ ] "@),
        checkbox("- [ ] "@ + s) == Some((false, 6int)),
{
    reveal(checkbox);
    reveal_strlit("- [ ] ");
    reveal_strlit("- ");
    reveal_strlit("[ ] ");
    let pre = "- [ ] "@;
    let line = pre + s;
    lemma_leading_white(line);
    assert(line[0] == '-');
    assert(trim_start(line) =~= line);
    assert(starts_with(line, "- "@)) by {
        assert(line.take(2) =~= "- "@);
    }
    let rest = line.skip(2);
    lemma_leading_white(rest);
    assert(rest[0] == '[');
    assert(trim_start(rest) =~= rest);
    assert(starts_with(rest, "[ ] "@)) by {
        assert(rest.take(4) =~= "[ ] "@);
    }
    let none = Seq::<char>::empty();
    let (a, b, c) = (none.push('-'), none.push('-').push(' '), none.push('-').push(' ').push('['));
    assert(byte_len(none) == 0) by {
        assert(none + none =~= none);
        lemma_encode_concat(none, none);
    }
    lemma_byte_len_push(none, '-');
    lemma_byte_len_push(a, ' ');
    lemma_byte_len_push(b, '[');
    lemma_byte_len_push(c, ' ');
    lemma_byte_len_push(c.push(' '), ']');
    lemma_byte_len_push(c.push(' ').push(']'), ' ');
    assert(pre =~= c.push(' ').push(']').push(' '));
}

/// A text without a checkbox says what it says behind one, six bytes further to the left.
/// Where it has no text at all, its content ends with its first byte, and not before it.
pub proof fn law_fragment_reads_as_a_line(s: Seq<char>)
    ensures
        ({
            let f = parsed_fragment(s);
            let toks = tokens(s, 0);
            let end = text_end(s, 0, toks, metadata(s, toks, Set::empty()));
            &&& parsed("- [ ] "@ + s) matches Some(t) && t.checked == f.checked && t.markers
                == moved_markers(f.markers, 6) && t.degraded == moved_degraded(f.degraded, 6)
                && t.quoted == moved_extents(f.quoted, 6) && t.content.start == f.content.start + 6
                && (if end > 0 {
                t.content.end == f.content.end + 6
            } else {
                t.content.end == 5 && f.content.end == 0
            })
        }),
{
    let pre = "- [ ] "@;
    let line = pre + s;
    let f = parsed_fragment(s);
    let t = scanned(line, false, 6);
    let toks = tokens(s, 0);
    let m = metadata(s, toks, Set::empty());
    let end = text_end(s, 0, toks, m);
    lemma_open_checkbox(s);
    lemma_tokens_behind(pre, s);
    lemma_text_end_behind(pre, s);
    lemma_text_end(s, 0);
    lemma_tokens_in_order(s, 0);
    lemma_metadata_bounds(s, toks, Set::empty());
    lemma_bytes_behind(pre, s, 0);
    lemma_bytes_behind(pre, s, end);
    lemma_byte_len_monotonic(s, 0, end);
    let n = moved_metadata(m, 6);
    assert forall|k: int| 0 <= k < m.markers.len() implies #[trigger] t.markers[k]
        == moved_markers(f.markers, 6)[k] by {
        let run = m.markers[k].run;
        assert(n.markers[k].run == shift(run, 6));
        lemma_bytes_behind(pre, s, run.start);
        lemma_bytes_behind(pre, s, run.end);
    }
    assert(t.markers =~= moved_markers(f.markers, 6));
    assert forall|k: int| 0 <= k < m.degraded.len() implies #[trigger] t.degraded[k]
        == moved_degraded(f.degraded, 6)[k] by {
        let run = m.degraded[k].run;
        assert(n.degraded[k].run == shift(run, 6));
        lemma_bytes_behind(pre, s, run.start);
        lemma_bytes_behind(pre, s, run.end);
    }
    assert(t.degraded =~= moved_degraded(f.degraded, 6));
    lemma_quotes(s);
    assert forall|q: int| 0 <= q < quotations(s).len() implies #[trigger] t.quoted[q]
        == moved_extents(f.quoted, 6)[q] by {
        let run = quotations(s)[q];
        assert(0 <= quotes(s)[2 * q] < quotes(s)[2 * q + 1] < s.len());
        assert(quotations(line)[q] == shift(run, 6));
        lemma_bytes_behind(pre, s, run.start);
        lemma_bytes_behind(pre, s, run.end);
    }
    assert(t.quoted =~= moved_extents(f.quoted, 6));
}

} // verus!

//! What reading a to-do line finds, from one word to the next.

use vstd::prelude::*;

use crate::runs::{lemma_runs_concat, lemma_runs_full, lemma_runs_none, runs, Run};
use crate::text::{
    byte_len, is_blank, is_white, leading_white, lemma_byte_len_monotonic, lemma_byte_len_push,
    lemma_encode_concat, lemma_leading_white, lemma_trimmed_len, lemma_trimmed_len_is, starts_with,
    trim_start, trimmed_len,
};
use crate::todo::grammar::{lemma_one_word, lemma_words_parted};
use crate::todo::readings::{
    lemma_marker_tokens, lemma_metadata_kinds, lemma_metadata_prefix, lemma_metadata_seen,
    lemma_tokens_in_order,
};
use crate::todo::splice::{
    free_part, lemma_checkbox_chars, lemma_checkbox_prefix, lemma_in_quotation_spliced,
    lemma_quotations_spliced, spliced, unmarked,
};
use crate::todo::syntax::{
    checkbox, extent, extents, found_views, from_token, in_quotation, kind_of, last_end,
    lemma_metadata_bounds, lemma_quotes, metadata, parsed, quotations, quotes, reading, scanned,
    suspect_views, text_end, token_mask, tokens, DegradedView, Extent, Found, MarkerView, Metadata,
    Reading, Suspect,
};
use crate::todo::value::{clock_of, date_of, time_of, value_of, words, MarkerKind, TimeExpr, Value};

verus! {

// ---------- The checkbox ----------

/// Whether a line is made of white space, an optional bullet with white space behind it, a
/// checkbox, and the rest.
pub open spec fn is_boxed(
    s: Seq<char>,
    indent: Seq<char>,
    bullet: Seq<char>,
    gap: Seq<char>,
    mark: char,
    rest: Seq<char>,
) -> bool {
    &&& forall|i: int| 0 <= i < indent.len() ==> is_white(#[trigger] indent[i])
    &&& forall|i: int| 0 <= i < gap.len() ==> is_white(#[trigger] gap[i])
    &&& bullet == seq!['-', ' '] || bullet == seq!['*', ' '] || (bullet.len() == 0 && gap.len()
        == 0)
    &&& mark == ' ' || mark == 'x' || mark == 'X'
    &&& s == indent + bullet + gap + seq!['[', mark, ']', ' '] + rest
}

/// White space before a character that is none is cut off.
proof fn lemma_trim_start(a: Seq<char>, t: Seq<char>)
    requires
        forall|i: int| 0 <= i < a.len() ==> is_white(#[trigger] a[i]),
        t.len() > 0,
        !is_white(t[0]),
    ensures
        trim_start(a + t) == t,
{
    let s = a + t;
    let w = leading_white(s) as int;
    lemma_leading_white(s);
    if w < a.len() {
        assert(s[w] == a[w]);
    } else if w > a.len() {
        assert(s[a.len() as int] == t[0]);
    }
    assert(s.skip(w) =~= t);
}

/// Where the text of a line with a checkbox begins.
proof fn lemma_boxed(
    s: Seq<char>,
    indent: Seq<char>,
    bullet: Seq<char>,
    gap: Seq<char>,
    mark: char,
    rest: Seq<char>,
)
    requires
        is_boxed(s, indent, bullet, gap, mark, rest),
    ensures
        checkbox(s) == Some((mark != ' ', s.len() - rest.len())),
{
    reveal(checkbox);
    reveal_strlit("- ");
    reveal_strlit("* ");
    reveal_strlit("[ ] ");
    reveal_strlit("[x] ");
    reveal_strlit("[X] ");
    let square = seq!['[', mark, ']', ' '] + rest;
    let trimmed = bullet + gap + square;
    assert(s =~= indent + trimmed);
    if bullet.len() == 0 {
        assert(trimmed =~= square);
    } else {
        assert(trimmed[0] == bullet[0]);
    }
    lemma_trim_start(indent, trimmed);
    let after = if starts_with(trimmed, "- "@) || starts_with(trimmed, "* "@) {
        trim_start(trimmed.skip(2))
    } else {
        trimmed
    };
    if bullet.len() == 0 {
        assert(trimmed.take(2)[0] == '[');
    } else {
        assert(trimmed.take(2) =~= bullet);
        assert("- "@ =~= seq!['-', ' ']);
        assert("* "@ =~= seq!['*', ' ']);
        assert(trimmed.skip(2) =~= gap + square);
        lemma_trim_start(gap, square);
    }
    assert(after == square);
    assert(square.take(4) =~= seq!['[', mark, ']', ' ']);
    assert("[ ] "@ =~= seq!['[', ' ', ']', ' ']);
    assert("[x] "@ =~= seq!['[', 'x', ']', ' ']);
    assert("[X] "@ =~= seq!['[', 'X', ']', ' ']);
    assert(square.take(4)[1] == mark);
    assert("[ ] "@[1] == ' ' && "[x] "@[1] == 'x' && "[X] "@[1] == 'X');
}

/// A line begins with a checkbox behind white space and an optional bullet, which is ticked
/// where it holds an `x`, and its text begins behind the checkbox.
pub proof fn law_checkbox_is_read(
    s: Seq<char>,
    indent: Seq<char>,
    bullet: Seq<char>,
    gap: Seq<char>,
    mark: char,
    rest: Seq<char>,
)
    requires
        is_boxed(s, indent, bullet, gap, mark, rest),
    ensures
        parsed(s) matches Some(t) && t.checked == (mark == 'x' || mark == 'X') && t.content.start
            == byte_len(s) - byte_len(rest),
{
    lemma_boxed(s, indent, bullet, gap, mark, rest);
    let n = s.len() - rest.len();
    assert(s.take(n) + rest =~= s);
    lemma_encode_concat(s.take(n), rest);
}

/// Every line that is read begins with a checkbox.
pub proof fn law_only_lines_with_a_checkbox_are_read(s: Seq<char>)
    requires
        parsed(s) is Some,
    ensures
        exists|indent: Seq<char>, bullet: Seq<char>, gap: Seq<char>, mark: char, rest: Seq<char>|
            is_boxed(s, indent, bullet, gap, mark, rest),
{
    reveal(checkbox);
    reveal_strlit("- ");
    reveal_strlit("* ");
    reveal_strlit("[ ] ");
    reveal_strlit("[x] ");
    reveal_strlit("[X] ");
    let w = leading_white(s) as int;
    lemma_leading_white(s);
    let indent = s.take(w);
    let trimmed = trim_start(s);
    let listed = starts_with(trimmed, "- "@) || starts_with(trimmed, "* "@);
    let bullet = if listed {
        trimmed.take(2)
    } else {
        Seq::empty()
    };
    let behind = trimmed.skip(2);
    let v = leading_white(behind) as int;
    lemma_leading_white(behind);
    let gap = if listed {
        behind.take(v)
    } else {
        Seq::empty()
    };
    let square = if listed {
        trim_start(behind)
    } else {
        trimmed
    };
    let mark = square[1];
    let rest = square.skip(4);
    assert("- "@ =~= seq!['-', ' ']);
    assert("* "@ =~= seq!['*', ' ']);
    assert(square =~= seq!['[', mark, ']', ' '] + rest) by {
        assert(square.take(4)[0] == square[0] && square.take(4)[1] == square[1]);
        assert(square.take(4)[2] == square[2] && square.take(4)[3] == square[3]);
        assert("[ ] "@[0] == '[' && "[ ] "@[2] == ']' && "[ ] "@[3] == ' ');
        assert("[x] "@[0] == '[' && "[x] "@[2] == ']' && "[x] "@[3] == ' ');
        assert("[X] "@[0] == '[' && "[X] "@[2] == ']' && "[X] "@[3] == ' ');
    }
    assert(mark == ' ' || mark == 'x' || mark == 'X') by {
        assert(square.take(4)[1] == square[1]);
        assert("[ ] "@[1] == ' ' && "[x] "@[1] == 'x' && "[X] "@[1] == 'X');
    }
    assert(s =~= indent + trimmed);
    if listed {
        assert(trimmed =~= bullet + behind);
        assert(behind =~= gap + square);
    } else {
        assert(trimmed =~= bullet + gap + square);
    }
    assert(trimmed =~= bullet + gap + square);
    assert(s =~= indent + bullet + gap + seq!['[', mark, ']', ' '] + rest);
    assert forall|i: int| 0 <= i < gap.len() implies is_white(#[trigger] gap[i]) by {
        assert(gap[i] == behind[i]);
    }
    assert(is_boxed(s, indent, bullet, gap, mark, rest));
}

// ---------- Words ----------

/// Whether a text is one word behind a line: it holds no blank, does not end in white space,
/// and no quotation begins or ends in it.
pub open spec fn is_token(p: Seq<char>, w: Seq<char>) -> bool {
    &&& w.len() > 0
    &&& forall|i: int| 0 <= i < w.len() ==> !is_blank(#[trigger] w[i])
    &&& !is_white(w.last())
    &&& quote_marks(w) == 0 || (quote_marks(w) == 1 && quote_marks(p) % 2 == 0)
}

/// Whether the white space at the end of a text is blank.
pub open spec fn ends_blank(s: Seq<char>) -> bool {
    forall|i: int| trimmed_len(s) <= i < s.len() ==> is_blank(#[trigger] s[i])
}

/// A line with one more word at its end.
pub open spec fn with_word(p: Seq<char>, gap: Seq<char>, w: Seq<char>) -> Seq<char> {
    p + gap + w
}

/// The bytes of the word at the end of a line.
pub open spec fn word_extent(p: Seq<char>, gap: Seq<char>, w: Seq<char>) -> Extent {
    Extent {
        start: (byte_len(p) + byte_len(gap)) as int,
        end: byte_len(p) + byte_len(gap) + byte_len(w) - 1,
    }
}

/// Whether what follows a line does not belong to its last word: blanks part them, or the line
/// ends with a quotation.
pub open spec fn parted(p: Seq<char>, gap: Seq<char>) -> bool {
    &&& ends_blank(p)
    &&& forall|i: int| 0 <= i < gap.len() ==> is_blank(#[trigger] gap[i])
    &&& gap.len() > 0 || (p.len() > 0 && p.last() == '"' && quote_marks(p) % 2 == 0)
}

/// The last character of a line that ends with a quotation lies in it.
proof fn lemma_ends_in_quotation(p: Seq<char>)
    requires
        p.len() > 0,
        p.last() == '"',
        quote_marks(p) % 2 == 0,
    ensures
        in_quotation(p, p.len() - 1),
{
    reveal(in_quotation);
    lemma_quote_marks(p);
    lemma_quotes(p);
    let k = quotations(p).len() - 1;
    assert(quotes(p)[2 * k + 1] == p.len() - 1);
    assert(quotes(p)[2 * k] < quotes(p)[2 * k + 1]);
    assert(quotations(p)[k].start <= p.len() - 1 < quotations(p)[k].end);
}

/// A word that no quotation begins or ends in leaves the quotations of a line as they are.
proof fn lemma_same_quotations(p: Seq<char>, gap: Seq<char>, w: Seq<char>)
    requires
        is_token(p, w),
        forall|i: int| 0 <= i < gap.len() ==> is_blank(#[trigger] gap[i]),
    ensures
        quotations(p + (gap + w)) == quotations(p),
        forall|i: int| #[trigger] in_quotation(p + (gap + w), i) == in_quotation(p, i),
        forall|i: int| i >= p.len() ==> !#[trigger] in_quotation(p, i),
{
    let mid = gap + w;
    lemma_quotes_parted(p, mid);
    lemma_quotes_parted(gap, w);
    lemma_quotes(gap);
    if quotes(gap).len() > 0 {
        assert(is_blank(gap[quotes(gap)[0]]));
    }
    lemma_quote_marks(p);
    lemma_quote_marks(w);
    assert(quotations(p + mid) =~= quotations(p));
    reveal(in_quotation);
    lemma_quotations_within(p);
}

/// The tokens of a line with one more word.
proof fn lemma_tokens_with_word(p: Seq<char>, gap: Seq<char>, w: Seq<char>, start: int)
    requires
        is_token(p, w),
        parted(p, gap),
        0 <= start <= p.len(),
    ensures
        ({
            let q = with_word(p, gap, w);
            &&& quotations(q) == quotations(p)
            &&& tokens(q, start) == tokens(p, start).push(
                Run { start: (p.len() + gap.len()) as int, end: q.len() as int },
            )
        }),
{
    let q = with_word(p, gap, w);
    let n = p.len() as int;
    let g = gap.len() as int;
    let mid = gap + w;
    assert(q =~= p + mid);
    lemma_same_quotations(p, gap, w);
    assert(q.last() == w.last());
    lemma_trimmed_len_is(q, q.len() as int);
    lemma_trimmed_len(p);
    let mask = token_mask(p, start);
    let blank = Seq::new(gap.len(), |i: int| false);
    let full = Seq::new(w.len(), |i: int| true);
    let whole = token_mask(q, start);
    let parts = mask + blank + full;
    assert forall|i: int| 0 <= i < whole.len() implies #[trigger] whole[i] == parts[i] by {
        if i < n {
            assert(q[i] == p[i]);
            assert(in_quotation(q, i) == in_quotation(p, i));
            if i >= trimmed_len(p) {
                assert(is_blank(p[i]));
            }
        } else if i < n + g {
            assert(q[i] == gap[i - n]);
        } else {
            assert(q[i] == w[i - n - g]);
            assert(!in_quotation(q, i));
        }
    }
    assert(whole =~= parts);
    lemma_runs_none(blank);
    lemma_runs_concat(mask, blank);
    lemma_runs_full(full);
    if g == 0 {
        lemma_ends_in_quotation(p);
        assert(!(mask + blank).last());
    } else {
        assert(!(mask + blank).last());
    }
    lemma_runs_concat(mask + blank, full);
    assert(runs(whole) =~= runs(mask).push(Run { start: n + g, end: q.len() as int }));
}

/// What stands at the beginning of two lines takes the same bytes in both.
proof fn lemma_same_extents(p: Seq<char>, q: Seq<char>, m: Metadata)
    requires
        p.len() <= q.len(),
        q.take(p.len() as int) == p,
        forall|k: int|
            0 <= k < m.markers.len() ==> 0 <= (#[trigger] m.markers[k]).run.start
                < m.markers[k].run.end <= p.len(),
        forall|k: int|
            0 <= k < m.degraded.len() ==> 0 <= (#[trigger] m.degraded[k]).run.start
                < m.degraded[k].run.end <= p.len(),
    ensures
        found_views(q, m.markers) == found_views(p, m.markers),
        suspect_views(q, m.degraded) == suspect_views(p, m.degraded),
        extents(q, quotations(p)) == extents(p, quotations(p)),
        forall|i: int| 0 <= i <= p.len() ==> #[trigger] q.take(i) == p.take(i),
{
    assert forall|i: int| 0 <= i <= p.len() implies #[trigger] q.take(i) == p.take(i) by {
        assert(q.take(i) =~= q.take(p.len() as int).take(i));
    }
    assert forall|k: int| 0 <= k < m.markers.len() implies #[trigger] found_views(q, m.markers)[k]
        == found_views(p, m.markers)[k] by {
        assert(q.take(m.markers[k].run.start) == p.take(m.markers[k].run.start));
        assert(q.take(m.markers[k].run.end) == p.take(m.markers[k].run.end));
    }
    assert forall|k: int| 0 <= k < m.degraded.len() implies #[trigger] suspect_views(
        q,
        m.degraded,
    )[k] == suspect_views(p, m.degraded)[k] by {
        assert(q.take(m.degraded[k].run.start) == p.take(m.degraded[k].run.start));
        assert(q.take(m.degraded[k].run.end) == p.take(m.degraded[k].run.end));
    }
    lemma_quotes(p);
    assert forall|k: int| 0 <= k < quotations(p).len() implies #[trigger] extents(
        q,
        quotations(p),
    )[k] == extents(p, quotations(p))[k] by {
        let r = quotations(p)[k];
        assert(0 <= quotes(p)[2 * k] < quotes(p)[2 * k + 1] < p.len());
        assert(q.take(r.start) == p.take(r.start));
        assert(q.take(r.end) == p.take(r.end));
    }
    assert(found_views(q, m.markers) =~= found_views(p, m.markers));
    assert(suspect_views(q, m.degraded) =~= suspect_views(p, m.degraded));
    assert(extents(q, quotations(p)) =~= extents(p, quotations(p)));
}

/// The bytes of a word at the end of a line.
proof fn lemma_word_extent(p: Seq<char>, gap: Seq<char>, w: Seq<char>)
    ensures
        ({
            let q = with_word(p, gap, w);
            let n = (p.len() + gap.len()) as int;
            &&& q.take(p.len() as int) == p
            &&& byte_len(q.take(n)) == byte_len(p) + byte_len(gap)
            &&& byte_len(q) == byte_len(p) + byte_len(gap) + byte_len(w)
            &&& q.take(q.len() as int) == q
            &&& extent(q, Run { start: n, end: q.len() as int }) == word_extent(p, gap, w)
        }),
{
    let q = with_word(p, gap, w);
    let n = (p.len() + gap.len()) as int;
    assert(q.take(p.len() as int) =~= p);
    assert(q.take(n) =~= p + gap);
    lemma_encode_concat(p, gap);
    lemma_encode_concat(p + gap, w);
    assert(q.take(q.len() as int) =~= q);
}

/// What the last word of a line is read as, where it begins like a marker.
proof fn lemma_reading_of_word(p: Seq<char>, gap: Seq<char>, w: Seq<char>, toks: Seq<Run>)
    requires
        w.len() > 0,
        kind_of(w[0]) is Some,
    ensures
        ({
            let q = with_word(p, gap, w);
            let kind = kind_of(w[0]).unwrap();
            reading(
                q,
                toks.push(Run { start: (p.len() + gap.len()) as int, end: q.len() as int }),
            ) == (match value_of(kind, w.skip(1)) {
                Some(value) => Reading::Marker { value, first: toks.len() as int },
                None => Reading::Illegal { kind },
            })
        }),
{
    let q = with_word(p, gap, w);
    let n = (p.len() + gap.len()) as int;
    assert(q[n] == w[0]);
    assert(q.subrange(n + 1, q.len() as int) =~= w.skip(1));
}

/// The checkbox of a line stays whatever is added to the line.
proof fn lemma_same_box(p: Seq<char>, q: Seq<char>)
    requires
        checkbox(p) is Some,
        p.len() <= q.len(),
        q.take(p.len() as int) == p,
    ensures
        checkbox(q) == checkbox(p),
        0 <= checkbox(p).unwrap().1 <= p.len(),
{
    lemma_checkbox_chars(p);
    assert forall|i: int| 0 <= i < checkbox(p).unwrap().1 implies #[trigger] p[i] == q[i] by {
        assert(q.take(p.len() as int)[i] == q[i]);
    }
    lemma_checkbox_prefix(p, q);
}

/// The last run before a position, where all runs end before it.
proof fn lemma_last_end_all(rs: Seq<Run>, a: int, b: int)
    requires
        forall|k: int| 0 <= k < rs.len() ==> (#[trigger] rs[k]).end <= a && rs[k].end <= b,
    ensures
        last_end(rs, a) == last_end(rs, b),
{
    if rs.len() > 0 {
        assert(rs[rs.len() - 1].end <= a);
    }
}

/// The quotations of a line end within it.
proof fn lemma_quotations_within(p: Seq<char>)
    ensures
        forall|k: int|
            0 <= k < quotations(p).len() ==> 0 < (#[trigger] quotations(p)[k]).end <= p.len(),
{
    lemma_quotes(p);
    assert forall|k: int| 0 <= k < quotations(p).len() implies 0 < (
    #[trigger] quotations(p)[k]).end <= p.len() by {
        assert(0 <= quotes(p)[2 * k + 1] < p.len());
    }
}

/// What the tokens of a line say, within it.
proof fn lemma_within(p: Seq<char>, start: int)
    requires
        0 <= start <= p.len(),
    ensures
        ({
            let toks = tokens(p, start);
            let m = metadata(p, toks, Set::empty());
            &&& forall|k: int|
                0 <= k < m.markers.len() ==> 0 <= (#[trigger] m.markers[k]).run.start
                    < m.markers[k].run.end <= p.len()
            &&& forall|k: int|
                0 <= k < m.degraded.len() ==> 0 <= (#[trigger] m.degraded[k]).run.start
                    < m.degraded[k].run.end <= p.len()
            &&& 0 <= m.body <= toks.len()
            &&& m.degraded.len() <= 1
        }),
{
    let toks = tokens(p, start);
    lemma_tokens_in_order(p, start);
    lemma_metadata_bounds(p, toks, Set::empty());
}

/// A word at the end of a line that is a marker is the first that is read from the right, and
/// the line says all else that it said before: unless it has a marker of this kind already,
/// and it is no tag.
pub proof fn law_marker_at_the_end_is_read(
    p: Seq<char>,
    gap: Seq<char>,
    w: Seq<char>,
    v: Value,
)
    requires
        parsed(p) is Some,
        parted(p, gap),
        is_token(p, w),
        kind_of(w[0]) == Some(v.kind()),
        value_of(v.kind(), w.skip(1)) == Some(v),
        v is Tag || forall|k: int|
            0 <= k < parsed(p).unwrap().markers.len() ==> (#[trigger] parsed(
                p,
            ).unwrap().markers[k]).value.kind() != v.kind(),
    ensures
        ({
            let t = parsed(p).unwrap();
            &&& parsed(with_word(p, gap, w)) matches Some(u) && u.checked == t.checked && u.content
                == t.content && u.markers == seq![
                MarkerView { value: v, span: word_extent(p, gap, w) },
            ] + t.markers && u.degraded == t.degraded && u.quoted == t.quoted
        }),
{
    reveal(metadata);
    let q = with_word(p, gap, w);
    let (checked, start) = checkbox(p).unwrap();
    let t = parsed(p).unwrap();
    let toks = tokens(p, start);
    let none = Set::<MarkerKind>::empty();
    let m = metadata(p, toks, none);
    let n = p.len() as int;
    lemma_word_extent(p, gap, w);
    lemma_same_box(p, q);
    lemma_tokens_with_word(p, gap, w, start);
    lemma_reading_of_word(p, gap, w, toks);
    lemma_tokens_in_order(p, start);
    lemma_within(p, start);
    assert(p.take(n) =~= p);
    lemma_metadata_prefix(p, q, toks, none.insert(v.kind()), n);
    assert forall|j: int| 0 <= j < m.markers.len() && !(v is Tag) implies (
    #[trigger] m.markers[j]).value.kind() != v.kind() by {
        assert(t.markers[j].value == m.markers[j].value);
    }
    lemma_metadata_seen(p, toks, none, v.kind());
    let run = Run { start: n + gap.len(), end: q.len() as int };
    let all = toks.push(run);
    assert(all.take(toks.len() as int) =~= toks);
    assert(from_token(all, toks.len() as int) == run);
    let new = Found { value: v, run };
    let mq = metadata(q, tokens(q, start), none);
    assert(mq.markers == seq![new] + m.markers);
    assert(mq.degraded == m.degraded && mq.body == m.body);
    lemma_same_extents(p, q, m);
    let u = scanned(q, checked, start);
    assert(u.markers =~= seq![MarkerView { value: v, span: word_extent(p, gap, w) }] + found_views(
        q,
        m.markers,
    ));
    assert(u.content == t.content) by {
        lemma_quotations_within(p);
        let a = if m.markers.len() > 0 {
            m.markers.last().run.start
        } else {
            n
        };
        let b = mq.markers.last().run.start;
        if m.markers.len() > 0 {
            assert(mq.markers.last() == m.markers.last());
        } else {
            lemma_last_end_all(quotations(p), a, b);
        }
        if m.body > 0 {
            assert(all[m.body - 1] == toks[m.body - 1]);
        }
        let end = text_end(p, start, toks, m);
        assert(text_end(q, start, all, mq) == end);
        crate::todo::laws::lemma_text_end(p, start);
        assert(q.take(end) == p.take(end));
        assert(q.take(start) == p.take(start));
    }
}

/// The tokens of a line up to the rightmost marker of a kind, where this kind counts as seen.
proof fn lemma_metadata_repeat(
    s: Seq<char>,
    toks: Seq<Run>,
    seen: Set<MarkerKind>,
    kind: MarkerKind,
    j: int,
)
    requires
        kind != MarkerKind::Tag,
        0 <= j < metadata(s, toks, seen).markers.len(),
        metadata(s, toks, seen).markers[j].value.kind() == kind,
        forall|i: int|
            0 <= i < j ==> (#[trigger] metadata(s, toks, seen).markers[i]).value.kind() != kind,
    ensures
        ({
            let m = metadata(s, toks, seen);
            let r = metadata(s, toks, seen.insert(kind));
            &&& r.markers == m.markers.take(j)
            &&& r.degraded == seq![Suspect { kind, run: m.markers[j].run }]
            &&& 0 < r.body <= toks.len()
            &&& toks[r.body - 1].end == m.markers[j].run.end
        }),
    decreases toks.len(),
{
    reveal(metadata);
    let m = metadata(s, toks, seen);
    let r = metadata(s, toks, seen.insert(kind));
    if let Reading::Marker { value, first } = reading(s, toks) {
        let found = Found { value, run: from_token(toks, first) };
        let before = toks.take(first);
        let rest = metadata(s, before, seen.insert(value.kind()));
        assert(m.markers == seq![found] + rest.markers);
        if j == 0 {
            assert(m.markers[0] == found);
            assert(r.markers =~= m.markers.take(0));
        } else {
            assert(m.markers[0] == found);
            assert(value.kind() != kind);
            assert forall|i: int| 0 <= i < j - 1 implies (
            #[trigger] rest.markers[i]).value.kind() != kind by {
                assert(m.markers[i + 1] == rest.markers[i]);
            }
            assert(rest.markers[j - 1] == m.markers[j]);
            lemma_metadata_repeat(s, before, seen.insert(value.kind()), kind, j - 1);
            assert(seen.insert(value.kind()).insert(kind) =~= seen.insert(kind).insert(
                value.kind(),
            ));
            assert(seq![found] + rest.markers.take(j - 1) =~= m.markers.take(j));
        }
    }
}

/// A second marker of a kind of which a line has one is read in place of the first, which is
/// refused and belongs to the text from then on, with all markers before it.
pub proof fn law_second_marker_refuses_the_first(
    p: Seq<char>,
    gap: Seq<char>,
    w: Seq<char>,
    v: Value,
    j: int,
)
    requires
        parsed(p) is Some,
        parted(p, gap),
        is_token(p, w),
        kind_of(w[0]) == Some(v.kind()),
        value_of(v.kind(), w.skip(1)) == Some(v),
        !(v is Tag),
        0 <= j < parsed(p).unwrap().markers.len(),
        parsed(p).unwrap().markers[j].value.kind() == v.kind(),
    ensures
        ({
            let t = parsed(p).unwrap();
            &&& parsed(with_word(p, gap, w)) matches Some(u) && u.checked == t.checked
                && u.content.start == t.content.start && u.content.end >= t.markers[j].span.end
                && u.markers == seq![MarkerView { value: v, span: word_extent(p, gap, w) }]
                + t.markers.take(j) && u.degraded == seq![
                DegradedView { suspected: v.kind(), span: t.markers[j].span },
            ] && u.quoted == t.quoted
        }),
{
    reveal(metadata);
    let q = with_word(p, gap, w);
    let (checked, start) = checkbox(p).unwrap();
    let t = parsed(p).unwrap();
    let toks = tokens(p, start);
    let none = Set::<MarkerKind>::empty();
    let m = metadata(p, toks, none);
    let n = p.len() as int;
    lemma_word_extent(p, gap, w);
    lemma_same_box(p, q);
    lemma_tokens_with_word(p, gap, w, start);
    lemma_reading_of_word(p, gap, w, toks);
    lemma_tokens_in_order(p, start);
    lemma_within(p, start);
    assert(p.take(n) =~= p);
    lemma_metadata_prefix(p, q, toks, none.insert(v.kind()), n);
    assert(m.markers[j].value == t.markers[j].value);
    lemma_metadata_kinds(p, toks, none);
    lemma_metadata_repeat(p, toks, none, v.kind(), j);
    let r = metadata(p, toks, none.insert(v.kind()));
    let run = Run { start: n + gap.len(), end: q.len() as int };
    let all = toks.push(run);
    assert(all.take(toks.len() as int) =~= toks);
    assert(from_token(all, toks.len() as int) == run);
    let new = Found { value: v, run };
    let mq = metadata(q, all, none);
    assert(mq.markers == seq![new] + r.markers);
    assert(mq.degraded == r.degraded && mq.body == r.body);
    lemma_same_extents(p, q, m);
    let u = scanned(q, checked, start);
    assert(u.markers =~= seq![MarkerView { value: v, span: word_extent(p, gap, w) }]
        + t.markers.take(j)) by {
        assert forall|i: int| 0 <= i < j implies #[trigger] u.markers[i + 1] == t.markers[i] by {
            assert(mq.markers[i + 1] == m.markers[i]);
            assert(found_views(q, m.markers)[i] == t.markers[i]);
        }
    }
    let old = m.markers[j].run;
    assert(found_views(q, m.markers)[j] == t.markers[j]);
    assert(extent(q, old) == t.markers[j].span);
    assert(u.degraded =~= seq![DegradedView { suspected: v.kind(), span: t.markers[j].span }]);
    assert(q.take(start) == p.take(start));
    let end = text_end(q, start, all, mq);
    assert(all[mq.body - 1] == toks[r.body - 1]);
    assert(end >= old.end);
    crate::todo::laws::lemma_text_end(q, start);
    lemma_byte_len_monotonic(q, old.end, end);
}

/// A word at the end of a line that begins like a marker and says nothing is refused, and all
/// before it is text.
pub proof fn law_word_that_says_nothing_is_refused(
    p: Seq<char>,
    gap: Seq<char>,
    w: Seq<char>,
    kind: MarkerKind,
)
    requires
        parsed(p) is Some,
        parted(p, gap),
        is_token(p, w),
        kind_of(w[0]) == Some(kind),
        value_of(kind, w.skip(1)) is None,
    ensures
        ({
            let t = parsed(p).unwrap();
            &&& parsed(with_word(p, gap, w)) matches Some(u) && u.checked == t.checked
                && u.content.start == t.content.start && u.content.end == word_extent(p, gap, w).end
                && u.markers.len() == 0 && u.degraded == seq![
                DegradedView { suspected: kind, span: word_extent(p, gap, w) },
            ] && u.quoted == t.quoted
        }),
{
    reveal(metadata);
    let q = with_word(p, gap, w);
    let (checked, start) = checkbox(p).unwrap();
    let toks = tokens(p, start);
    lemma_word_extent(p, gap, w);
    lemma_same_box(p, q);
    lemma_tokens_with_word(p, gap, w, start);
    lemma_reading_of_word(p, gap, w, toks);
    lemma_within(p, start);
    lemma_same_extents(p, q, metadata(p, toks, Set::empty()));
    lemma_all_text(p, q, start);
    let u = scanned(q, checked, start);
    assert(u.degraded =~= seq![DegradedView { suspected: kind, span: word_extent(p, gap, w) }]);
}

/// Where all tokens of a line are text, the text ends with the last.
proof fn lemma_all_text(p: Seq<char>, q: Seq<char>, start: int)
    requires
        0 <= start <= p.len() < q.len(),
        q.take(p.len() as int) == p,
        quotations(q) == quotations(p),
        tokens(q, start).len() > 0,
        tokens(q, start).last().end == q.len(),
        ({
            let m = metadata(q, tokens(q, start), Set::empty());
            m.markers.len() == 0 && m.body == tokens(q, start).len()
        }),
    ensures
        scanned(q, true, start).content == (Extent {
            start: byte_len(p.take(start)) as int,
            end: byte_len(q) - 1,
        }),
        scanned(q, false, start).content == scanned(q, true, start).content,
{
    lemma_quotations_within(p);
    let toks = tokens(q, start);
    let m = metadata(q, toks, Set::empty());
    assert(q.take(start) =~= p.take(start));
    crate::todo::laws::lemma_text_end(q, start);
    assert(text_end(q, start, toks, m) == q.len());
    assert(q.take(q.len() as int) =~= q);
}

/// A word at the end of a line that neither begins like a marker nor ends a time is text, and
/// so is all before it.
proof fn lemma_text_word(p: Seq<char>, gap: Seq<char>, w: Seq<char>)
    requires
        parsed(p) is Some,
        parted(p, gap),
        is_token(p, w),
        kind_of(w[0]) is None,
        ({
            let toks = tokens(p, checkbox(p).unwrap().1);
            let n = toks.len() as int;
            n > 0 && p[toks[n - 1].start] == '@' ==> time_of(
                p.skip(toks[n - 1].start + 1) + gap + w,
            ) is None
        }),
    ensures
        text_only(p, gap, w),
{
    reveal(metadata);
    let q = with_word(p, gap, w);
    let (checked, start) = checkbox(p).unwrap();
    let toks = tokens(p, start);
    let n = toks.len() as int;
    lemma_word_extent(p, gap, w);
    lemma_same_box(p, q);
    lemma_tokens_with_word(p, gap, w, start);
    lemma_tokens_in_order(p, start);
    lemma_within(p, start);
    lemma_same_extents(p, q, metadata(p, toks, Set::empty()));
    assert(q[(p.len() + gap.len()) as int] == w[0]);
    if n > 0 {
        let at = toks[n - 1].start;
        assert(q[at] == p[at]);
        assert(q.subrange(at + 1, q.len() as int) =~= p.skip(at + 1) + gap + w);
    }
    assert(reading(q, tokens(q, start)) is Text);
    lemma_all_text(p, q, start);
}

/// What a line says whose last word is text: nothing but its text.
pub open spec fn text_only(p: Seq<char>, gap: Seq<char>, w: Seq<char>) -> bool {
    let t = parsed(p).unwrap();
    parsed(with_word(p, gap, w)) matches Some(u) && u.checked == t.checked && u.content.start
        == t.content.start && u.content.end == word_extent(p, gap, w).end && u.markers.len() == 0
        && u.degraded.len() == 0 && u.quoted == t.quoted
}

/// The text of a time ends with a date or a time of day.
proof fn lemma_time_ends_in_a_word(a: Seq<char>, gap: Seq<char>, w: Seq<char>)
    requires
        w.len() > 0,
        forall|i: int| 0 <= i < w.len() ==> !is_blank(#[trigger] w[i]),
        gap.len() > 0,
        is_blank(gap.last()),
        time_of(a + gap + w) is Some,
    ensures
        date_of(w) is Some || clock_of(w) is Some,
{
    reveal(time_of);
    let b = a + gap.drop_last();
    assert(a + gap + w =~= b.push(gap.last()) + w);
    lemma_words_parted(b, gap.last(), w);
    lemma_one_word(w);
    assert((words(b) + seq![w]).last() == w);
}

/// A word that neither begins like a marker nor is a date or a time of day is text, and so is
/// all that stands before it.
pub proof fn law_plain_word_makes_a_line_text(p: Seq<char>, gap: Seq<char>, w: Seq<char>)
    requires
        parsed(p) is Some,
        parted(p, gap),
        gap.len() > 0,
        is_token(p, w),
        kind_of(w[0]) is None,
        date_of(w) is None,
        clock_of(w) is None,
    ensures
        text_only(p, gap, w),
{
    let toks = tokens(p, checkbox(p).unwrap().1);
    let n = toks.len() as int;
    if n > 0 {
        let a = p.skip(toks[n - 1].start + 1);
        if time_of(a + gap + w) is Some {
            lemma_time_ends_in_a_word(a, gap, w);
        }
    }
    lemma_text_word(p, gap, w);
}

/// A date or a time of day behind a word that does not begin like a time is text.
pub proof fn law_word_behind_no_time_is_text(
    p: Seq<char>,
    g: Seq<char>,
    u: Seq<char>,
    h: Seq<char>,
    w: Seq<char>,
)
    requires
        parsed(p) is Some,
        parted(p, g),
        is_token(p, u),
        is_token(with_word(p, g, u), w),
        h.len() > 0,
        forall|i: int| 0 <= i < h.len() ==> is_blank(#[trigger] h[i]),
        kind_of(w[0]) is None,
        u[0] != '@' || time_of(u.skip(1) + h + w) is None,
    ensures
        text_only(with_word(p, g, u), h, w),
{
    let q = with_word(p, g, u);
    let start = checkbox(p).unwrap().1;
    lemma_word_extent(p, g, u);
    lemma_same_box(p, q);
    lemma_tokens_with_word(p, g, u, start);
    assert(q[(p.len() + g.len()) as int] == u[0]);
    assert(q.skip((p.len() + g.len() + 1) as int) =~= u.skip(1));
    assert(q.last() == u.last());
    lemma_trimmed_len_is(q, q.len() as int);
    lemma_text_word(q, h, w);
}

/// A date and a time of day behind `@`, as two words, are one marker.
pub proof fn law_two_words_say_a_time(
    p: Seq<char>,
    g: Seq<char>,
    u: Seq<char>,
    h: Seq<char>,
    w: Seq<char>,
    e: TimeExpr,
)
    requires
        parsed(p) is Some,
        parted(p, g),
        is_token(p, u),
        is_token(with_word(p, g, u), w),
        h.len() > 0,
        forall|i: int| 0 <= i < h.len() ==> is_blank(#[trigger] h[i]),
        u[0] == '@',
        kind_of(w[0]) is None,
        time_of(u.skip(1) + h + w) == Some(e),
        forall|k: int|
            0 <= k < parsed(p).unwrap().markers.len() ==> (#[trigger] parsed(
                p,
            ).unwrap().markers[k]).value.kind() != MarkerKind::Time,
    ensures
        ({
            let t = parsed(p).unwrap();
            let span = Extent {
                start: word_extent(p, g, u).start,
                end: word_extent(with_word(p, g, u), h, w).end,
            };
            &&& parsed(with_word(with_word(p, g, u), h, w)) matches Some(r) && r.checked
                == t.checked && r.content == t.content && r.markers == seq![
                MarkerView { value: Value::Time(e), span },
            ] + t.markers && r.degraded == t.degraded && r.quoted == t.quoted
        }),
{
    reveal(metadata);
    let mid = with_word(p, g, u);
    let q = with_word(mid, h, w);
    let v = Value::Time(e);
    let (checked, start) = checkbox(p).unwrap();
    let t = parsed(p).unwrap();
    let toks = tokens(p, start);
    let none = Set::<MarkerKind>::empty();
    let m = metadata(p, toks, none);
    let n = p.len() as int;
    lemma_word_extent(p, g, u);
    lemma_same_box(p, mid);
    lemma_tokens_with_word(p, g, u, start);
    assert(mid.last() == u.last());
    lemma_trimmed_len_is(mid, mid.len() as int);
    lemma_word_extent(mid, h, w);
    lemma_same_box(mid, q);
    lemma_tokens_with_word(mid, h, w, start);
    lemma_tokens_in_order(p, start);
    lemma_within(p, start);
    assert(q.take(n) =~= p);
    assert(p.take(n) =~= p);
    lemma_metadata_prefix(p, q, toks, none.insert(v.kind()), n);
    assert forall|j: int| 0 <= j < m.markers.len() && !(v is Tag) implies (
    #[trigger] m.markers[j]).value.kind() != v.kind() by {
        assert(t.markers[j].value == m.markers[j].value);
    }
    lemma_metadata_seen(p, toks, none, v.kind());
    let first = n + g.len();
    let second = mid.len() as int + h.len();
    let one = Run { start: first, end: mid.len() as int };
    let two = Run { start: second, end: q.len() as int };
    let run = Run { start: first, end: q.len() as int };
    let all = toks.push(one).push(two);
    assert(tokens(q, start) == all);
    assert(q[second] == w[0]);
    assert(q[first] == u[0]);
    assert(q.subrange(first + 1, q.len() as int) =~= u.skip(1) + h + w);
    assert(reading(q, all) == (Reading::Marker { value: v, first: toks.len() as int }));
    assert(all.take(toks.len() as int) =~= toks);
    assert(from_token(all, toks.len() as int) == run);
    let new = Found { value: v, run };
    let mq = metadata(q, all, none);
    assert(mq.markers == seq![new] + m.markers);
    assert(mq.degraded == m.degraded && mq.body == m.body);
    lemma_same_extents(p, q, m);
    assert(q.take(first) =~= mid.take(first));
    let span = Extent { start: word_extent(p, g, u).start, end: word_extent(mid, h, w).end };
    assert(extent(q, run) == span);
    let r = scanned(q, checked, start);
    assert(r.markers =~= seq![MarkerView { value: v, span }] + found_views(q, m.markers));
    assert(r.content == t.content) by {
        lemma_quotations_within(p);
        if m.markers.len() > 0 {
            assert(mq.markers.last() == m.markers.last());
        } else {
            lemma_last_end_all(quotations(p), n, mq.markers.last().run.start);
        }
        if m.body > 0 {
            assert(all[m.body - 1] == toks[m.body - 1]);
        }
        let end = text_end(p, start, toks, m);
        assert(text_end(q, start, all, mq) == end);
        crate::todo::laws::lemma_text_end(p, start);
        assert(q.take(end) == p.take(end));
        assert(q.take(start) == p.take(start));
    }
}

// ---------- What stands between words ----------

/// A line without words behind its checkbox says nothing.
pub proof fn law_line_without_words_says_nothing(
    s: Seq<char>,
    indent: Seq<char>,
    bullet: Seq<char>,
    gap: Seq<char>,
    mark: char,
    rest: Seq<char>,
)
    requires
        is_boxed(s, indent, bullet, gap, mark, rest),
        forall|i: int| 0 <= i < rest.len() ==> is_white(#[trigger] rest[i]),
    ensures
        parsed(s) matches Some(t) && t.markers.len() == 0 && t.degraded.len() == 0
            && t.quoted.len() == 0 && t.content.end == t.content.start - 1,
{
    reveal(metadata);
    lemma_boxed(s, indent, bullet, gap, mark, rest);
    let start = s.len() - rest.len();
    assert(s.take(s.len() as int) =~= s);
    lemma_same_box(s, s);
    lemma_checkbox_chars(s);
    lemma_trimmed_len(s);
    assert(trimmed_len(s) <= start) by {
        if trimmed_len(s) > start {
            let i = trimmed_len(s) - 1;
            assert(s[i] == rest[i - start]);
        }
    }
    lemma_runs_none(token_mask(s, start));
    lemma_quotes(s);
    if quotes(s).len() > 0 {
        let i = quotes(s)[0];
        assert(s[i] == '"');
        if i >= start {
            assert(s[i] == rest[i - start]);
        }
    }
    assert(s[start - 1] == ' ');
    assert(s.take(start) =~= s.take(start - 1).push(' '));
    lemma_byte_len_push(s.take(start - 1), ' ');
}

/// White space at the end of a line says nothing.
pub proof fn law_white_space_at_the_end_says_nothing(p: Seq<char>, w: Seq<char>)
    requires
        parsed(p) is Some,
        p.len() > 0,
        !is_white(p.last()),
        forall|i: int| 0 <= i < w.len() ==> is_white(#[trigger] w[i]),
    ensures
        parsed(p + w) == parsed(p),
{
    let q = p + w;
    let n = p.len() as int;
    let (checked, start) = checkbox(p).unwrap();
    assert(q.take(n) =~= p);
    assert(p.take(n) =~= p);
    lemma_same_box(p, q);
    assert(q =~= spliced(p, n, n, w));
    lemma_quotes(p);
    assert(unmarked(w));
    assert(free_part(p, n, n));
    lemma_quotations_spliced(p, n, n, w);
    lemma_in_quotation_spliced(p, n, n, w);
    assert(quotations(q) =~= quotations(p));
    assert(q[n - 1] == p.last());
    assert forall|i: int| n <= i < q.len() implies is_white(#[trigger] q[i]) by {
        assert(q[i] == w[i - n]);
    }
    lemma_trimmed_len_is(q, n);
    lemma_trimmed_len_is(p, n);
    let mask = token_mask(p, start);
    let gap = Seq::new(w.len(), |i: int| false);
    let whole = token_mask(q, start);
    assert forall|i: int| 0 <= i < whole.len() implies #[trigger] whole[i] == (mask + gap)[i] by {
        if i < n {
            assert(q[i] == p[i]);
            assert(in_quotation(q, i) == in_quotation(p, i));
        }
    }
    assert(whole =~= mask + gap);
    lemma_runs_none(gap);
    lemma_runs_concat(mask, gap);
    let toks = tokens(p, start);
    assert(tokens(q, start) =~= toks);
    let none = Set::<MarkerKind>::empty();
    let m = metadata(p, toks, none);
    lemma_tokens_in_order(p, start);
    lemma_within(p, start);
    lemma_metadata_prefix(p, q, toks, none, n);
    lemma_same_extents(p, q, m);
    lemma_quotations_within(p);
    lemma_last_end_all(quotations(p), n, q.len() as int);
    let end = text_end(p, start, toks, m);
    assert(text_end(q, start, toks, m) == end);
    crate::todo::laws::lemma_text_end(p, start);
    assert(q.take(end) == p.take(end));
    assert(q.take(start) == p.take(start));
}

// ---------- Quotations ----------

/// The number of quotation marks in a text.
pub open spec fn quote_marks(s: Seq<char>) -> nat
    decreases s.len(),
{
    if s.len() == 0 {
        0
    } else if s.last() == '"' {
        quote_marks(s.drop_last()) + 1
    } else {
        quote_marks(s.drop_last())
    }
}

proof fn lemma_quote_marks(s: Seq<char>)
    ensures
        quotes(s).len() == quote_marks(s),
    decreases s.len(),
{
    if s.len() > 0 {
        lemma_quote_marks(s.drop_last());
    }
}

/// The quotation marks of two texts, one behind the other.
proof fn lemma_quotes_parted(a: Seq<char>, b: Seq<char>)
    ensures
        quotes(a + b) == quotes(a) + quotes(b).map_values(|i: int| i + a.len()),
    decreases b.len(),
{
    if b.len() == 0 {
        assert(a + b =~= a);
        assert(quotes(a + b) =~= quotes(a) + quotes(b).map_values(|i: int| i + a.len()));
    } else {
        lemma_quotes_parted(a, b.drop_last());
        assert((a + b).drop_last() =~= a + b.drop_last());
        assert((a + b).last() == b.last());
        assert(quotes(a + b) =~= quotes(a) + quotes(b).map_values(|i: int| i + a.len()));
    }
}

/// Every two quotation marks of a line make a quotation. One that is left over makes none.
pub proof fn law_quotation_marks_make_quotations(s: Seq<char>)
    requires
        parsed(s) is Some,
    ensures
        parsed(s).unwrap().quoted.len() == quote_marks(s) / 2,
{
    lemma_quote_marks(s);
}

/// The quotation marks of a line make quotations two by two: before the one that a quotation
/// begins with stand two for each quotation before it, and between its two stands none.
pub proof fn law_quotation_marks_pair_up(s: Seq<char>, k: int)
    requires
        parsed(s) is Some,
        0 <= k < parsed(s).unwrap().quoted.len(),
    ensures
        exists|a: Seq<char>, x: Seq<char>, b: Seq<char>|
            is_quotation(s, a, x, b) && quote_marks(a) == 2 * k && parsed(s).unwrap().quoted[k] == (
            Extent { start: byte_len(a) as int, end: byte_len(a) as int + byte_len(x) + 1 }),
{
    lemma_quote_marks(s);
    lemma_quotes(s);
    let i = quotes(s)[2 * k];
    let j = quotes(s)[2 * k + 1];
    assert(0 <= i < j < s.len() && s[i] == '"' && s[j] == '"');
    let a = s.take(i);
    let x = s.subrange(i + 1, j);
    let b = s.skip(j + 1);
    assert(s =~= a + seq!['"'] + x + seq!['"'] + b);
    lemma_quotes_before(s, 2 * k);
    lemma_quotes_before(s, 2 * k + 1);
    lemma_quote_marks(a);
    assert forall|y: int| 0 <= y < x.len() implies #[trigger] x[y] != '"' by {
        if s[i + 1 + y] == '"' {
            lemma_quote_found(s, i + 1 + y);
            let z = choose|z: int| 0 <= z < quotes(s).len() && quotes(s)[z] == i + 1 + y;
            if z < 2 * k {
                assert(quotes(s)[z] < quotes(s)[2 * k]);
            } else if z > 2 * k + 1 {
                assert(quotes(s)[2 * k + 1] < quotes(s)[z]);
            }
        }
    }
    let r = quotations(s)[k];
    assert(extents(s, quotations(s))[k] == extent(s, r));
    assert(s.take(j + 1) =~= (a.push('"') + x).push('"'));
    lemma_byte_len_push(a.push('"') + x, '"');
    lemma_encode_concat(a.push('"'), x);
    lemma_byte_len_push(a, '"');
    assert(is_quotation(s, a, x, b));
}

/// Whether a line is made of something, a text in quotation marks, and something else.
pub open spec fn is_quotation(s: Seq<char>, a: Seq<char>, x: Seq<char>, b: Seq<char>) -> bool {
    s == a + seq!['"'] + x + seq!['"'] + b && forall|i: int|
        0 <= i < x.len() ==> #[trigger] x[i] != '"'
}

/// Every quotation mark is among them.
proof fn lemma_quote_found(s: Seq<char>, i: int)
    requires
        0 <= i < s.len(),
        s[i] == '"',
    ensures
        exists|z: int| 0 <= z < quotes(s).len() && quotes(s)[z] == i,
    decreases s.len(),
{
    if i == s.len() - 1 {
        assert(quotes(s)[quotes(s).len() - 1] == i);
    } else {
        lemma_quote_found(s.drop_last(), i);
        let z = choose|z: int|
            0 <= z < quotes(s.drop_last()).len() && quotes(s.drop_last())[z] == i;
        assert(quotes(s)[z] == i);
    }
}

/// The quotation marks before one of them.
proof fn lemma_quotes_before(s: Seq<char>, k: int)
    requires
        0 <= k < quotes(s).len(),
    ensures
        0 <= quotes(s)[k] < s.len(),
        quotes(s.take(quotes(s)[k])).len() == k,
{
    lemma_quotes(s);
    let i = quotes(s)[k];
    let a = s.take(i);
    let b = s.skip(i);
    assert(a + b =~= s);
    lemma_quotes_parted(a, b);
    lemma_quotes(a);
    let n = quotes(a).len() as int;
    if n < k {
        assert(quotes(s)[n] < quotes(s)[k]);
        assert(quotes(s)[n] == quotes(b)[0] + i);
        lemma_quotes(b);
    } else if k < n {
        assert(quotes(s)[k] == quotes(a)[k]);
    }
}

/// A line with a quotation at its end.
pub open spec fn with_quotation(p: Seq<char>, x: Seq<char>) -> Seq<char> {
    p + seq!['"'] + x + seq!['"']
}

/// A quotation at the end of a line is no marker, whatever it holds, and belongs to the text
/// where no marker stands before it.
pub proof fn law_quotation_at_the_end_is_no_marker(p: Seq<char>, x: Seq<char>)
    requires
        parsed(p) is Some,
        ends_blank(p),
        quote_marks(p) % 2 == 0,
        forall|i: int| 0 <= i < x.len() ==> #[trigger] x[i] != '"',
    ensures
        ({
            let t = parsed(p).unwrap();
            let q = with_quotation(p, x);
            &&& parsed(q) matches Some(u) && u.checked == t.checked && u.content.start
                == t.content.start && u.content.end == (if t.markers.len() == 0 {
                byte_len(q) - 1
            } else {
                t.content.end
            }) && u.markers == t.markers && u.degraded == t.degraded && u.quoted == t.quoted.push(
                Extent { start: byte_len(p) as int, end: byte_len(q) - 1 },
            )
        }),
{
    let q = with_quotation(p, x);
    let n = p.len() as int;
    let (checked, start) = checkbox(p).unwrap();
    let t = parsed(p).unwrap();
    assert(q.take(n) =~= p);
    assert(p.take(n) =~= p);
    assert(q.take(q.len() as int) =~= q);
    lemma_same_box(p, q);
    let x0 = seq!['"'] + x;
    let y = x0.push('"');
    assert(q =~= p + y);
    lemma_quotes_parted(p, y);
    lemma_quote_marks(p);
    assert(quotes(y) =~= seq![0int, y.len() - 1]) by {
        assert(y.drop_last() =~= x0);
        lemma_quotes_parted(seq!['"'], x);
        assert(seq!['"'].drop_last() =~= Seq::<char>::empty());
        reveal_with_fuel(quotes, 2);
        assert(quotes(seq!['"']) =~= seq![0int]);
        lemma_quotes(x);
        if quotes(x).len() > 0 {
            assert(x[quotes(x)[0]] == '"');
        }
        assert(quotes(x0) =~= seq![0int]);
    }
    let run = Run { start: n, end: q.len() as int };
    assert(quotes(q) =~= quotes(p).push(n).push(q.len() - 1));
    assert(quotations(q) =~= quotations(p).push(run));
    assert forall|i: int| 0 <= i < n implies #[trigger] in_quotation(q, i) == in_quotation(
        p,
        i,
    ) by {
        reveal(in_quotation);
        let k = quotations(p).len() as int;
        assert(quotations(q)[k] == run);
        if in_quotation(q, i) {
            let z = choose|z: int|
                0 <= z < quotations(q).len() && (#[trigger] quotations(q)[z]).start <= i
                    < quotations(q)[z].end;
            assert(quotations(p)[z] == quotations(q)[z]);
        }
        if in_quotation(p, i) {
            let z = choose|z: int|
                0 <= z < quotations(p).len() && (#[trigger] quotations(p)[z]).start <= i
                    < quotations(p)[z].end;
            assert(quotations(p)[z] == quotations(q)[z]);
        }
    }
    assert(q.last() == '"');
    lemma_trimmed_len_is(q, q.len() as int);
    lemma_trimmed_len(p);
    let mask = token_mask(p, start);
    let gap = Seq::new(y.len(), |i: int| false);
    let whole = token_mask(q, start);
    assert forall|i: int| 0 <= i < whole.len() implies #[trigger] whole[i] == (mask + gap)[i] by {
        if i < n {
            assert(q[i] == p[i]);
            assert(in_quotation(q, i) == in_quotation(p, i));
            if i >= trimmed_len(p) {
                assert(is_blank(p[i]));
            }
        } else {
            reveal(in_quotation);
            assert(quotations(q)[quotations(p).len() as int] == run);
            assert(in_quotation(q, i));
        }
    }
    assert(whole =~= mask + gap);
    lemma_runs_none(gap);
    lemma_runs_concat(mask, gap);
    let toks = tokens(p, start);
    assert(tokens(q, start) =~= toks);
    let none = Set::<MarkerKind>::empty();
    let m = metadata(p, toks, none);
    lemma_tokens_in_order(p, start);
    lemma_within(p, start);
    lemma_metadata_prefix(p, q, toks, none, n);
    lemma_same_extents(p, q, m);
    assert(extents(q, quotations(q)) =~= extents(q, quotations(p)).push(extent(q, run)));
    assert(q.take(start) == p.take(start));
    crate::todo::laws::lemma_text_end(p, start);
    crate::todo::laws::lemma_text_end(q, start);
    let end = text_end(p, start, toks, m);
    if m.markers.len() == 0 {
        assert(quotations(q).last() == run);
        assert(text_end(q, start, toks, m) == q.len());
        assert(q =~= p + y);
        lemma_encode_concat(p, y);
        assert(y =~= x0.push('"'));
        lemma_byte_len_push(x0, '"');
    } else {
        let limit = m.markers.last().run.start;
        assert(quotations(q).drop_last() =~= quotations(p));
        assert(last_end(quotations(q), limit) == last_end(quotations(p), limit));
        assert(q.take(end) == p.take(end));
    }
}

// ---------- Markers ----------

/// Whether a part of a line is a marker with a value.
pub open spec fn says(m: Seq<char>, v: Value) -> bool {
    &&& m.len() > 0
    &&& kind_of(m[0]) == Some(v.kind())
    &&& value_of(v.kind(), m.skip(1)) == Some(v) || (v is Time && time_of(m.skip(1)) == Some(
        v->Time_0,
    ))
}

/// Every marker that is read from a line says its value in the bytes that it is said to take.
pub proof fn law_markers_say_their_values(s: Seq<char>, k: int)
    requires
        parsed(s) is Some,
        0 <= k < parsed(s).unwrap().markers.len(),
    ensures
        exists|a: Seq<char>, m: Seq<char>, b: Seq<char>|
            s == #[trigger] (a + m + b) && says(m, parsed(s).unwrap().markers[k].value) && parsed(
                s,
            ).unwrap().markers[k].span == (Extent {
                start: byte_len(a) as int,
                end: byte_len(a) + byte_len(m) - 1,
            }),
{
    let (checked, start) = checkbox(s).unwrap();
    assert(s.take(s.len() as int) =~= s);
    lemma_same_box(s, s);
    let toks = tokens(s, start);
    let found = metadata(s, toks, Set::empty()).markers[k];
    lemma_within(s, start);
    lemma_tokens_in_order(s, start);
    let ends = lemma_marker_tokens(s, toks, Set::empty(), k);
    let run = found.run;
    let a = s.take(run.start);
    let m = s.subrange(run.start, run.end);
    let b = s.skip(run.end);
    assert(s =~= a + m + b);
    assert(m.skip(1) =~= s.subrange(run.start + 1, run.end));
    assert(m[0] == s[run.start]);
    assert(s.take(run.end) =~= a + m);
    lemma_encode_concat(a, m);
    assert(parsed(s).unwrap().markers[k].value == found.value);
    assert(says(m, found.value));
    assert(extent(s, run) == parsed(s).unwrap().markers[k].span);
    assert(s == a + m + b);
}

} // verus!

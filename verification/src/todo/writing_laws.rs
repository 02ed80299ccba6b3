//! What stands in a line into which a value has been written, character by character.

use vstd::prelude::*;

use crate::runs::Run;
use crate::text::{
    byte_len, is_white, lemma_byte_len_monotonic, lemma_encode_concat, lemma_trim_empty,
    lemma_trimmed_len_is, trim,
};
use crate::todo::readings::{lemma_metadata_kinds, lemma_tokens_in_order};
use crate::todo::serialize::{first_of, has_value, lemma_first_of, marker_text, written};
use crate::todo::splice::lemma_checkbox_chars;
use crate::todo::syntax::{
    extent, found_views, lemma_metadata_bounds, line_metadata, line_start, parsed, parsed_fragment,
    tokens, Extent, MarkerView,
};
use crate::todo::value::{Intensity, MarkerKind, Recurrence, Value};

verus! {

/// The markers that a line is read to have, with a checkbox or without one.
pub open spec fn markers_of(s: Seq<char>) -> Seq<MarkerView> {
    match parsed(s) {
        Some(t) => t.markers,
        None => parsed_fragment(s).markers,
    }
}

/// Whether a line has no marker of a kind.
pub open spec fn lacks(s: Seq<char>, kind: MarkerKind) -> bool {
    forall|k: int|
        0 <= k < markers_of(s).len() ==> (#[trigger] markers_of(s)[k]).value.kind() != kind
}

/// Whether a line has a tag.
pub open spec fn has_tag(s: Seq<char>, v: Value) -> bool {
    exists|k: int| 0 <= k < markers_of(s).len() && (#[trigger] markers_of(s)[k]).value == v
}

/// Whether a part of a line is the marker at a place in the list.
pub open spec fn is_marker(a: Seq<char>, m: Seq<char>, b: Seq<char>, k: int) -> bool {
    let markers = markers_of(a + m + b);
    0 <= k < markers.len() && markers[k].span == (Extent {
        start: byte_len(a) as int,
        end: byte_len(a) + byte_len(m) - 1,
    })
}

/// The markers of a line, by characters and by bytes.
proof fn lemma_markers_of(s: Seq<char>)
    ensures
        markers_of(s) == found_views(s, line_metadata(s).markers),
        forall|k: int|
            0 <= k < line_metadata(s).markers.len() ==> 0 <= (
            #[trigger] line_metadata(s).markers[k]).run.start < line_metadata(s).markers[k].run.end
                <= s.len(),
        forall|j: int, k: int|
            0 <= j < k < line_metadata(s).markers.len() && !(line_metadata(s).markers[k].value
                is Tag) ==> (#[trigger] line_metadata(s).markers[j]).value.kind() != (
            #[trigger] line_metadata(s).markers[k]).value.kind(),
{
    if parsed(s) is Some {
        lemma_checkbox_chars(s);
    }
    lemma_tokens_in_order(s, line_start(s));
    lemma_metadata_bounds(s, tokens(s, line_start(s)), Set::empty());
    lemma_metadata_kinds(s, tokens(s, line_start(s)), Set::empty());
}

/// Two beginnings of a line that take the same bytes are the same.
proof fn lemma_same_place(s: Seq<char>, i: int, j: int)
    requires
        0 <= i <= s.len(),
        0 <= j <= s.len(),
        byte_len(s.take(i)) == byte_len(s.take(j)),
    ensures
        i == j,
{
    if i < j {
        lemma_byte_len_monotonic(s, i, j);
    } else if j < i {
        lemma_byte_len_monotonic(s, j, i);
    }
}

/// The characters of a marker, by its bytes.
proof fn lemma_marker_run(a: Seq<char>, m: Seq<char>, b: Seq<char>, k: int)
    requires
        is_marker(a, m, b, k),
    ensures
        ({
            let s = a + m + b;
            let markers = line_metadata(s).markers;
            &&& 0 <= k < markers.len() == markers_of(s).len()
            &&& markers[k].value == markers_of(s)[k].value
            &&& markers[k].run == Run { start: a.len() as int, end: a.len() as int + m.len() }
            &&& !(markers[k].value is Tag) ==> first_of(markers, markers[k].value.kind()) == k
        }),
{
    let s = a + m + b;
    let markers = line_metadata(s).markers;
    lemma_markers_of(s);
    let run = markers[k].run;
    assert(markers_of(s)[k].span == extent(s, run));
    assert(s.take(a.len() as int) =~= a);
    assert(s.take((a.len() + m.len()) as int) =~= a + m);
    lemma_encode_concat(a, m);
    lemma_same_place(s, run.start, a.len() as int);
    lemma_same_place(s, run.end, (a.len() + m.len()) as int);
    let kind = markers[k].value.kind();
    lemma_first_of(markers, kind);
    let f = first_of(markers, kind) as int;
    if k < f {
        assert(markers[k].value.kind() != kind);
    } else if f < k && !(markers[k].value is Tag) {
        assert(markers[f].value.kind() != markers[k].value.kind());
    }
}

/// A line that holds more than white space is not blank.
proof fn lemma_not_blank(s: Seq<char>, i: int)
    requires
        0 <= i < s.len(),
        !is_white(s[i]),
    ensures
        trim(s).len() > 0,
{
    if trim(s).len() == 0 {
        lemma_trim_empty(s);
    }
}

/// A value of a kind that a line lacks, or a tag that it lacks, is written behind the last
/// character of the line that is not white space, with one space before it.
pub proof fn law_new_marker_is_written_at_the_end(a: Seq<char>, w: Seq<char>, v: Value)
    requires
        a.len() > 0,
        !is_white(a.last()),
        forall|i: int| 0 <= i < w.len() ==> is_white(#[trigger] w[i]),
        marker_text(v) is Some,
        if v is Tag {
            !has_tag(a + w, v)
        } else {
            lacks(a + w, v.kind())
        },
    ensures
        written(a + w, v) == Ok::<Seq<char>, Seq<char>>(
            a + seq![' '] + marker_text(v).unwrap() + w,
        ),
{
    let s = a + w;
    let n = a.len() as int;
    let text = marker_text(v).unwrap();
    let markers = line_metadata(s).markers;
    lemma_markers_of(s);
    assert(s[n - 1] == a.last());
    lemma_not_blank(s, n - 1);
    assert forall|i: int| n <= i < s.len() implies is_white(#[trigger] s[i]) by {
        assert(s[i] == w[i - n]);
    }
    lemma_trimmed_len_is(s, n);
    lemma_first_of(markers, v.kind());
    let f = first_of(markers, v.kind()) as int;
    if v is Tag {
        if has_value(markers, v) {
            let k = choose|k: int| 0 <= k < markers.len() && (#[trigger] markers[k]).value == v;
            assert(markers_of(s)[k].value == v);
        }
    } else if f < markers.len() {
        assert(markers_of(s)[f].value == markers[f].value);
    }
    assert(s.take(n) =~= a);
    assert(s.skip(n) =~= w);
    assert(a.push(' ') + text + w =~= a + seq![' '] + text + w);
}

/// A value of a kind of which a line has a marker is written in the place of this marker, and
/// nothing else of the line changes.
pub proof fn law_marker_is_written_in_its_place(
    a: Seq<char>,
    m: Seq<char>,
    b: Seq<char>,
    k: int,
    v: Value,
)
    requires
        is_marker(a, m, b, k),
        trim(a + m + b).len() > 0,
        markers_of(a + m + b)[k].value.kind() == v.kind(),
        !(v is Tag),
        marker_text(v) is Some,
    ensures
        written(a + m + b, v) == Ok::<Seq<char>, Seq<char>>(a + marker_text(v).unwrap() + b),
{
    let s = a + m + b;
    lemma_marker_run(a, m, b, k);
    assert(s.take(a.len() as int) =~= a);
    assert(s.skip((a.len() + m.len()) as int) =~= b);
}

/// A tag that a line has is not written again.
pub proof fn law_tag_is_not_written_twice(s: Seq<char>, v: Value)
    requires
        v is Tag,
        marker_text(v) is Some,
        has_tag(s, v),
        trim(s).len() > 0,
    ensures
        written(s, v) == Ok::<Seq<char>, Seq<char>>(s),
{
    let markers = line_metadata(s).markers;
    lemma_markers_of(s);
    let k = choose|k: int| 0 <= k < markers_of(s).len() && (#[trigger] markers_of(s)[k]).value == v;
    assert(markers[k].value == v);
    assert(has_value(markers, v));
}

/// Of a value that goes without a marker, the marker is taken out, with the one space before
/// it, and nothing else of the line changes.
pub proof fn law_marker_of_a_default_is_taken_out(
    a: Seq<char>,
    m: Seq<char>,
    b: Seq<char>,
    k: int,
    v: Value,
)
    requires
        is_marker(a, m, b, k),
        trim(a + m + b).len() > 0,
        markers_of(a + m + b)[k].value.kind() == v.kind(),
        v == Value::Repeat(Recurrence::Once) || v == Value::Intensity(Intensity::Toast),
    ensures
        written(a + m + b, v) == Ok::<Seq<char>, Seq<char>>(
            if a.len() > 0 && a.last() == ' ' {
                a.drop_last() + b
            } else {
                a + b
            },
        ),
{
    let s = a + m + b;
    let n = a.len() as int;
    lemma_marker_run(a, m, b, k);
    crate::todo::grammar::law_two_values_are_left_out(v);
    assert(s.take(n) =~= a);
    assert(s.skip((a.len() + m.len()) as int) =~= b);
    if n > 0 {
        assert(s[n - 1] == a.last());
        assert(s.take(n - 1) =~= a.drop_last());
    }
}

/// A line that has no marker of a kind stays as it is where a value that goes without a
/// marker is written into it.
pub proof fn law_default_is_not_written(s: Seq<char>, v: Value)
    requires
        trim(s).len() > 0,
        lacks(s, v.kind()),
        v == Value::Repeat(Recurrence::Once) || v == Value::Intensity(Intensity::Toast),
    ensures
        written(s, v) == Ok::<Seq<char>, Seq<char>>(s),
{
    let markers = line_metadata(s).markers;
    lemma_markers_of(s);
    crate::todo::grammar::law_two_values_are_left_out(v);
    lemma_first_of(markers, v.kind());
    let f = first_of(markers, v.kind()) as int;
    if f < markers.len() {
        assert(markers_of(s)[f].value == markers[f].value);
    }
}

} // verus!

//! Edits: ranges of a text that are replaced, given in UTF-16 code units.

use vstd::prelude::*;
use vstd::slice::slice_subrange;

use crate::actor::change::{edit_views, rejected, Edit, EditView, WriteError, WriteErrorView};
use crate::text::{
    byte_len, chars_of, ends_with, lemma_byte_len_push, push_chars, push_text, starts_with,
};

verus! {

// ---------- UTF-16 offsets ----------

/// The number of UTF-16 code units of a character.
pub open spec fn utf16_width(c: char) -> nat {
    if c as u32 >= 0x10000 {
        2
    } else {
        1
    }
}

/// The number of UTF-16 code units of a text.
pub open spec fn utf16_len(s: Seq<char>) -> nat
    decreases s.len(),
{
    if s.len() == 0 {
        0
    } else {
        utf16_len(s.drop_last()) + utf16_width(s.last())
    }
}

/// The number of characters of a text before an offset in UTF-16 code units; nothing, where
/// the offset is behind the text or lies within a character.
pub open spec fn utf16_index(s: Seq<char>, offset: int) -> Option<int>
    decreases s.len(),
{
    if utf16_len(s) == offset {
        Some(s.len() as int)
    } else if s.len() == 0 {
        None
    } else {
        utf16_index(s.drop_last(), offset)
    }
}

/// What [`utf16_index`] finds: the one beginning of the text that is as long as the offset.
pub proof fn lemma_utf16_index(s: Seq<char>, offset: int)
    ensures
        match utf16_index(s, offset) {
            Some(k) => 0 <= k <= s.len() && utf16_len(s.take(k)) == offset,
            None => forall|k: int| 0 <= k <= s.len() ==> utf16_len(#[trigger] s.take(k)) != offset,
        },
    decreases s.len(),
{
    assert(s.take(s.len() as int) =~= s);
    if utf16_len(s) != offset && s.len() > 0 {
        let t = s.drop_last();
        lemma_utf16_index(t, offset);
        assert forall|k: int| 0 <= k <= t.len() implies #[trigger] s.take(k) == t.take(k) by {
            assert(s.take(k) =~= t.take(k));
        }
        if utf16_index(t, offset) is None {
            assert forall|k: int| 0 <= k <= s.len() implies utf16_len(#[trigger] s.take(k))
                != offset by {
                if k < s.len() {
                    assert(utf16_len(t.take(k)) != offset);
                }
            }
        }
    } else if s.len() == 0 {
        assert forall|k: int| 0 <= k <= s.len() implies #[trigger] s.take(k) == s by {
            assert(s.take(k) =~= s);
        }
    }
}

/// A longer beginning of a text is longer in code units too.
pub proof fn lemma_utf16_monotonic(s: Seq<char>, i: int, j: int)
    requires
        0 <= i <= j <= s.len(),
    ensures
        utf16_len(s.take(i)) + (j - i) <= utf16_len(s.take(j)),
    decreases j - i,
{
    if i < j {
        lemma_utf16_monotonic(s, i, j - 1);
        assert(s.take(j).drop_last() =~= s.take(j - 1));
    }
}

/// A text has at most as many code units in UTF-16 as it has bytes in UTF-8.
pub proof fn lemma_utf16_bytes(s: Seq<char>)
    ensures
        utf16_len(s) <= byte_len(s),
    decreases s.len(),
{
    if s.len() > 0 {
        lemma_utf16_bytes(s.drop_last());
        lemma_byte_len_push(s.drop_last(), s.last());
        assert(s.drop_last().push(s.last()) =~= s);
    }
}

fn width_utf16(c: char) -> (r: usize)
    ensures
        r == utf16_width(c),
{
    if c as u32 >= 0x10000 {
        2
    } else {
        1
    }
}

/// The number of UTF-16 code units of a text.
fn count_utf16(s: &[char]) -> (r: usize)
    requires
        utf16_len(s@) <= usize::MAX,
    ensures
        r == utf16_len(s@),
{
    let mut total: usize = 0;
    let mut i: usize = 0;
    assert(s@.take(s@.len() as int) =~= s@);
    while i < s.len()
        invariant
            i <= s.len(),
            total == utf16_len(s@.take(i as int)),
            utf16_len(s@) <= usize::MAX,
            s@.take(s@.len() as int) == s@,
        decreases s.len() - i,
    {
        proof {
            assert(s@.take(i + 1).drop_last() =~= s@.take(i as int));
            lemma_utf16_monotonic(s@, i + 1, s@.len() as int);
        }
        total = total + width_utf16(s[i]);
        i = i + 1;
    }
    total
}

/// The number of characters of a text before an offset in UTF-16 code units.
fn utf16_to_index(s: &[char], offset: usize) -> (r: Option<usize>)
    requires
        utf16_len(s@) <= usize::MAX,
    ensures
        match r {
            Some(k) => utf16_index(s@, offset as int) == Some(k as int) && k <= s.len(),
            None => utf16_index(s@, offset as int) is None,
        },
{
    let mut seen: usize = count_utf16(s);
    let mut i: usize = s.len();
    assert(s@.take(i as int) =~= s@);
    while i > 0 && seen != offset
        invariant
            i <= s.len(),
            seen == utf16_len(s@.take(i as int)),
            utf16_index(s@, offset as int) == utf16_index(s@.take(i as int), offset as int),
        decreases i,
    {
        assert(s@.take(i as int).drop_last() =~= s@.take(i - 1));
        i = i - 1;
        seen = seen - width_utf16(s[i]);
    }
    if seen == offset {
        Some(i)
    } else {
        None
    }
}

// ---------- The order of edits ----------

/// Whether an edit is made before another: from the right to the left.
pub open spec fn comes_first(a: EditView, b: EditView) -> bool {
    a.from > b.from || a.from == b.from && a.to > b.to
}

/// Edits in order, with one more in its place: behind those that it does not come before.
pub open spec fn placed(edits: Seq<EditView>, e: EditView) -> Seq<EditView>
    decreases edits.len(),
{
    if edits.len() == 0 || !comes_first(e, edits.last()) {
        edits.push(e)
    } else {
        placed(edits.drop_last(), e).push(edits.last())
    }
}

/// Edits in the order in which they are made; those with the same range keep their order.
pub open spec fn ordered(edits: Seq<EditView>) -> Seq<EditView>
    decreases edits.len(),
{
    if edits.len() == 0 {
        Seq::empty()
    } else {
        placed(ordered(edits.drop_last()), edits.last())
    }
}

/// Edits that are picked by their numbers.
pub open spec fn picked(edits: Seq<Edit>, order: Seq<usize>) -> Seq<EditView> {
    order.map_values(|i: usize| edits[i as int]@)
}

fn is_first(a: &Edit, b: &Edit) -> (r: bool)
    ensures
        r == comes_first(a@, b@),
{
    a.from > b.from || (a.from == b.from && a.to > b.to)
}

/// Where one more edit has its place among those in order.
fn find_slot(edits: &[Edit], order: &[usize], e: &Edit) -> (p: usize)
    requires
        forall|i: int| 0 <= i < order.len() ==> #[trigger] order[i] < edits.len(),
    ensures
        p <= order.len(),
        placed(picked(edits@, order@), e@) == picked(edits@, order@).insert(p as int, e@),
{
    let ghost all = picked(edits@, order@);
    let mut p: usize = order.len();
    assert(all.take(p as int) =~= all);
    assert(all.skip(p as int) =~= Seq::empty());
    assert(placed(all, e@) + Seq::empty() =~= placed(all, e@));
    while p > 0 && is_first(e, &edits[order[p - 1]])
        invariant
            all == picked(edits@, order@),
            p <= order.len(),
            forall|i: int| 0 <= i < order.len() ==> #[trigger] order[i] < edits.len(),
            placed(all, e@) == placed(all.take(p as int), e@) + all.skip(p as int),
        decreases p,
    {
        proof {
            assert(all[p - 1] == edits[order[p - 1] as int]@);
            assert(all.take(p as int).last() == all[p - 1]);
            assert(all.take(p as int).drop_last() =~= all.take(p - 1));
            assert(placed(all.take(p as int), e@) == placed(all.take(p - 1), e@).push(all[p - 1]));
            assert(placed(all.take(p - 1), e@).push(all[p - 1]) + all.skip(p as int) =~= placed(
                all.take(p - 1),
                e@,
            ) + all.skip(p - 1));
        }
        p = p - 1;
    }
    proof {
        if p > 0 {
            assert(all[p - 1] == edits[order[p - 1] as int]@);
            assert(all.take(p as int).last() == all[p - 1]);
        }
        assert(placed(all.take(p as int), e@) == all.take(p as int).push(e@));
        assert(all.take(p as int).push(e@) + all.skip(p as int) =~= all.insert(p as int, e@));
    }
    p
}

/// The numbers of edits in the order in which they are made.
fn order_of(edits: &[Edit]) -> (r: Vec<usize>)
    ensures
        forall|i: int| 0 <= i < r.len() ==> #[trigger] r[i] < edits.len(),
        picked(edits@, r@) == ordered(edit_views(edits@)),
{
    let mut order: Vec<usize> = Vec::new();
    let mut i: usize = 0;
    assert(picked(edits@, order@) =~= ordered(edit_views(edits@).take(0)));
    while i < edits.len()
        invariant
            i <= edits.len(),
            forall|k: int| 0 <= k < order.len() ==> #[trigger] order[k] < edits.len(),
            picked(edits@, order@) == ordered(edit_views(edits@).take(i as int)),
        decreases edits.len() - i,
    {
        let ghost before = order@;
        let p: usize = find_slot(edits, order.as_slice(), &edits[i]);
        order.insert(p, i);
        proof {
            let views = edit_views(edits@);
            assert(views.take(i + 1).drop_last() =~= views.take(i as int));
            assert(views.take(i + 1).last() == edits[i as int]@);
            assert(picked(edits@, order@) =~= picked(edits@, before).insert(
                p as int,
                edits[i as int]@,
            ));
        }
        i = i + 1;
    }
    assert(edit_views(edits@).take(i as int) =~= edit_views(edits@));
    order
}

// ---------- Applying edits ----------

/// Edits in order, with their ranges in characters; or why they cannot be made. Each must
/// lie within the text, begin and end between two characters, and end before `limit`,
/// where the one before it begins.
pub open spec fn resolved(s: Seq<char>, edits: Seq<EditView>, limit: int) -> Result<
    Seq<EditView>,
    Seq<char>,
>
    decreases edits.len(),
{
    if edits.len() == 0 {
        Ok(Seq::empty())
    } else {
        let e = edits[0];
        if e.from > e.to || e.to > utf16_len(s) {
            Err("编辑区间超出文件边界"@)
        } else {
            match (utf16_index(s, e.from), utf16_index(s, e.to)) {
                (Some(from), Some(to)) => if e.to > limit {
                    Err("编辑区间重叠"@)
                } else {
                    match resolved(s, edits.skip(1), e.from) {
                        Ok(rest) => Ok(seq![EditView { from, to, insert: e.insert }] + rest),
                        Err(m) => Err(m),
                    }
                },
                _ => Err("编辑区间未对齐字符边界"@),
            }
        }
    }
}

/// The part of a text before `end`, with what edits insert in the place of their ranges. The
/// edits go from the right to the left.
pub open spec fn assembled(s: Seq<char>, edits: Seq<EditView>, end: int) -> Seq<char>
    decreases edits.len(),
{
    if edits.len() == 0 {
        s.take(end)
    } else {
        let e = edits[0];
        assembled(s, edits.skip(1), e.from) + e.insert + s.subrange(e.to, end)
    }
}

/// A text after edits, or why they are not made. They are made all together or not at all.
pub open spec fn edited(s: Seq<char>, edits: Seq<EditView>) -> Result<Seq<char>, Seq<char>> {
    match resolved(s, ordered(edits), utf16_len(s) as int) {
        Ok(ranges) => Ok(assembled(s, ranges, s.len() as int)),
        Err(m) => Err(m),
    }
}

/// Whether ranges lie in a text before `end`, the first one last, and do not overlap.
pub open spec fn from_the_right(ranges: Seq<EditView>, end: int) -> bool {
    &&& forall|k: int|
        0 <= k < ranges.len() ==> 0 <= (#[trigger] ranges[k]).from <= ranges[k].to <= end
    &&& forall|j: int, k: int|
        0 <= j < k < ranges.len() ==> (#[trigger] ranges[k]).to <= (#[trigger] ranges[j]).from
}

/// The ranges that [`resolved`] finds lie in the text from the right to the left.
pub proof fn lemma_resolved(s: Seq<char>, edits: Seq<EditView>, limit: int, end: int)
    requires
        resolved(s, edits, limit) is Ok,
        0 <= end <= s.len(),
        utf16_len(s.take(end)) == limit,
    ensures
        from_the_right(resolved(s, edits, limit)->Ok_0, end),
    decreases edits.len(),
{
    if edits.len() > 0 {
        let e = edits[0];
        let from = utf16_index(s, e.from).unwrap();
        let to = utf16_index(s, e.to).unwrap();
        lemma_utf16_index(s, e.from);
        lemma_utf16_index(s, e.to);
        if from > to {
            lemma_utf16_monotonic(s, to, from);
        }
        if to > end {
            lemma_utf16_monotonic(s, end, to);
        }
        lemma_resolved(s, edits.skip(1), e.from, from);
        let rest = resolved(s, edits.skip(1), e.from)->Ok_0;
        let all = resolved(s, edits, limit)->Ok_0;
        assert forall|k: int| 0 <= k < all.len() implies 0 <= (#[trigger] all[k]).from <= all[k].to
            <= end by {
            if k > 0 {
                assert(all[k] == rest[k - 1]);
            }
        }
        assert forall|j: int, k: int| 0 <= j < k < all.len() implies (#[trigger] all[k]).to <= (
        #[trigger] all[j]).from by {
            assert(all[k] == rest[k - 1]);
            if j > 0 {
                assert(all[j] == rest[j - 1]);
            }
        }
    }
}

/// A range in characters, and the number of the edit that it belongs to.
struct Range {
    from: usize,
    to: usize,
    edit: usize,
}

spec fn range_views(edits: Seq<Edit>, ranges: Seq<Range>) -> Seq<EditView> {
    ranges.map_values(
        |r: Range|
            EditView {
                from: r.from as int,
                to: r.to as int,
                insert: edits[r.edit as int].insert@,
            },
    )
}

/// Finds the range of one edit.
fn resolve_edit(s: &[char], e: &Edit, len: usize, limit: usize) -> (r: Result<
    (usize, usize),
    WriteError,
>)
    requires
        utf16_len(s@) == len,
    ensures
        ({
            let one = resolved(s@, seq![e@], limit as int);
            match r {
                Ok((from, to)) => one is Ok && utf16_index(s@, e.from as int) == Some(from as int)
                    && utf16_index(s@, e.to as int) == Some(to as int) && from <= s.len() && to
                    <= s.len(),
                Err(err) => one is Err && err@ == WriteErrorView::Rejected(one->Err_0),
            }
        }),
{
    proof {
        reveal_with_fuel(resolved, 2);
    }
    if e.from > e.to || e.to > len {
        return Err(rejected("编辑区间超出文件边界"));
    }
    let from: usize = match utf16_to_index(s, e.from) {
        Some(k) => k,
        None => {
            return Err(rejected("编辑区间未对齐字符边界"));
        },
    };
    let to: usize = match utf16_to_index(s, e.to) {
        Some(k) => k,
        None => {
            return Err(rejected("编辑区间未对齐字符边界"));
        },
    };
    if e.to > limit {
        return Err(rejected("编辑区间重叠"));
    }
    Ok((from, to))
}

/// Finds the ranges of edits that are in order.
fn resolve_edits(s: &[char], edits: &[Edit], order: &[usize]) -> (r: Result<Vec<Range>, WriteError>)
    requires
        utf16_len(s@) <= usize::MAX,
        forall|i: int| 0 <= i < order.len() ==> #[trigger] order[i] < edits.len(),
    ensures
        match (r, resolved(s@, picked(edits@, order@), utf16_len(s@) as int)) {
            (Ok(v), Ok(ranges)) => range_views(edits@, v@) == ranges && (forall|i: int|
                0 <= i < v.len() ==> (#[trigger] v[i]).edit < edits.len()),
            (Err(e), Err(m)) => e@ == WriteErrorView::Rejected(m),
            _ => false,
        },
{
    let ghost views = picked(edits@, order@);
    let len: usize = count_utf16(s);
    let mut limit: usize = len;
    let mut ranges: Vec<Range> = Vec::new();
    let mut i: usize = 0;
    assert(views.skip(0) =~= views);
    assert(resolved(s@, views, len as int) is Ok ==> range_views(edits@, ranges@) + resolved(
        s@,
        views,
        len as int,
    )->Ok_0 =~= resolved(s@, views, len as int)->Ok_0);
    while i < order.len()
        invariant
            i <= order.len(),
            len == utf16_len(s@),
            views == picked(edits@, order@),
            forall|k: int| 0 <= k < order.len() ==> #[trigger] order[k] < edits.len(),
            forall|k: int| 0 <= k < ranges.len() ==> (#[trigger] ranges[k]).edit < edits.len(),
            match (
                resolved(s@, views, len as int),
                resolved(s@, views.skip(i as int), limit as int),
            ) {
                (Ok(all), Ok(rest)) => all == range_views(edits@, ranges@) + rest,
                (Err(m), Err(n)) => m == n,
                _ => false,
            },
        decreases order.len() - i,
    {
        let e: &Edit = &edits[order[i]];
        proof {
            reveal_with_fuel(resolved, 2);
            assert(views.skip(i as int)[0] == e@);
            assert(views.skip(i as int).skip(1) =~= views.skip(i + 1));
            assert(seq![e@].skip(1) =~= Seq::<EditView>::empty());
        }
        let (from, to): (usize, usize) = match resolve_edit(s, e, len, limit) {
            Ok(range) => range,
            Err(err) => {
                return Err(err);
            },
        };
        let ghost before = range_views(edits@, ranges@);
        ranges.push(Range { from, to, edit: order[i] });
        limit = e.from;
        i = i + 1;
        proof {
            let new = EditView { from: from as int, to: to as int, insert: e@.insert };
            assert(range_views(edits@, ranges@) =~= before.push(new));
            if resolved(s@, views.skip(i as int), limit as int) is Ok {
                let rest = resolved(s@, views.skip(i as int), limit as int)->Ok_0;
                assert(before + (seq![new] + rest) =~= before.push(new) + rest);
            }
        }
    }
    proof {
        assert(views.skip(i as int) =~= Seq::<EditView>::empty());
        assert(range_views(edits@, ranges@) + Seq::<EditView>::empty() =~= range_views(
            edits@,
            ranges@,
        ));
    }
    Ok(ranges)
}

/// Puts what edits insert in the place of their ranges.
fn assemble(s: &[char], edits: &[Edit], ranges: &[Range]) -> (out: Vec<char>)
    requires
        from_the_right(range_views(edits@, ranges@), s.len() as int),
        forall|i: int| 0 <= i < ranges.len() ==> (#[trigger] ranges[i]).edit < edits.len(),
    ensures
        out@ == assembled(s@, range_views(edits@, ranges@), s.len() as int),
{
    let ghost views = range_views(edits@, ranges@);
    let ghost mut tail: Seq<char> = Seq::empty();
    let mut end: usize = s.len();
    let mut out: Vec<char> = Vec::new();
    push_chars(&mut out, s);
    let mut i: usize = 0;
    proof {
        assert(views.skip(0) =~= views);
        assert(out@ =~= s@.take(end as int) + tail);
        assert(assembled(s@, views, end as int) + tail =~= assembled(s@, views, end as int));
    }
    while i < ranges.len()
        invariant
            i <= ranges.len(),
            end <= s.len(),
            i == 0 ==> end == s.len(),
            i > 0 ==> end == views[i - 1].from,
            views == range_views(edits@, ranges@),
            from_the_right(views, s.len() as int),
            forall|k: int| 0 <= k < ranges.len() ==> (#[trigger] ranges[k]).edit < edits.len(),
            out@ == s@.take(end as int) + tail,
            assembled(s@, views, s.len() as int) == assembled(
                s@,
                views.skip(i as int),
                end as int,
            ) + tail,
        decreases ranges.len() - i,
    {
        let r: &Range = &ranges[i];
        let ghost e = views[i as int];
        proof {
            assert(e.from == r.from && e.to == r.to);
            if i > 0 {
                assert(e.to <= views[i - 1].from);
            }
        }
        let mut next: Vec<char> = Vec::new();
        push_chars(&mut next, slice_subrange(out.as_slice(), 0, r.from));
        push_text(&mut next, edits[r.edit].insert.as_str());
        push_chars(&mut next, slice_subrange(out.as_slice(), r.to, out.len()));
        proof {
            let old_tail = tail;
            let old_end = end as int;
            tail = e.insert + s@.subrange(e.to, old_end) + old_tail;
            assert(next@ =~= s@.take(e.from) + tail);
            assert(views.skip(i as int)[0] == e);
            assert(views.skip(i as int).skip(1) =~= views.skip(i + 1));
            let left = assembled(s@, views.skip(i + 1), e.from);
            assert(left + e.insert + s@.subrange(e.to, old_end) + old_tail =~= left + tail);
        }
        out = next;
        end = r.from;
        i = i + 1;
    }
    assert(views.skip(i as int) =~= Seq::<EditView>::empty());
    out
}

/// Makes edits in a text.
pub fn apply_edits(current: &str, edits: &[Edit]) -> (r: Result<Vec<char>, WriteError>)
    ensures
        match (r, edited(current@, edit_views(edits@))) {
            (Ok(out), Ok(text)) => out@ == text,
            (Err(e), Err(m)) => e@ == WriteErrorView::Rejected(m),
            _ => false,
        },
{
    let chars: Vec<char> = chars_of(current);
    let bytes: usize = current.as_bytes().len();
    proof {
        lemma_utf16_bytes(current@);
        assert(bytes == byte_len(current@));
        assert(current@.take(current@.len() as int) =~= current@);
    }
    let order: Vec<usize> = order_of(edits);
    let ranges: Vec<Range> = match resolve_edits(chars.as_slice(), edits, order.as_slice()) {
        Ok(ranges) => ranges,
        Err(e) => {
            return Err(e);
        },
    };
    proof {
        lemma_resolved(
            current@,
            ordered(edit_views(edits@)),
            utf16_len(current@) as int,
            current@.len() as int,
        );
    }
    Ok(assemble(chars.as_slice(), edits, ranges.as_slice()))
}

// ---------- Laws ----------

proof fn lemma_placed(edits: Seq<EditView>, e: EditView)
    requires
        forall|j: int, k: int|
            0 <= j < k < edits.len() ==> !comes_first(#[trigger] edits[k], #[trigger] edits[j]),
    ensures
        placed(edits, e).to_multiset() == edits.to_multiset().insert(e),
        forall|j: int, k: int|
            0 <= j < k < placed(edits, e).len() ==> !comes_first(
                #[trigger] placed(edits, e)[k],
                #[trigger] placed(edits, e)[j],
            ),
        forall|k: int|
            0 <= k < placed(edits, e).len() ==> #[trigger] placed(edits, e)[k] == e
                || edits.contains(placed(edits, e)[k]),
    decreases edits.len(),
{
    broadcast use vstd::seq_lib::group_to_multiset_ensures;

    let all = placed(edits, e);
    if edits.len() == 0 || !comes_first(e, edits.last()) {
        assert forall|j: int, k: int| 0 <= j < k < all.len() implies !comes_first(
            #[trigger] all[k],
            #[trigger] all[j],
        ) by {
            if k == edits.len() {
                assert(!comes_first(e, edits[edits.len() - 1]));
                if j < edits.len() - 1 {
                    assert(!comes_first(edits[edits.len() - 1], edits[j]));
                }
            }
        }
        assert forall|k: int| 0 <= k < all.len() implies #[trigger] all[k] == e || edits.contains(
            all[k],
        ) by {
            if k < edits.len() {
                assert(all[k] == edits[k]);
            }
        }
    } else {
        let fewer = edits.drop_last();
        let last = edits.last();
        lemma_placed(fewer, e);
        let before = placed(fewer, e);
        assert(fewer.push(last) =~= edits);
        assert(all.to_multiset() =~= edits.to_multiset().insert(e));
        assert forall|k: int| 0 <= k < before.len() implies !comes_first(
            last,
            #[trigger] before[k],
        ) by {
            if before[k] != e {
                let j = choose|j: int| 0 <= j < fewer.len() && fewer[j] == before[k];
                assert(!comes_first(edits[edits.len() - 1], edits[j]));
            }
        }
        assert forall|k: int| 0 <= k < all.len() implies #[trigger] all[k] == e || edits.contains(
            all[k],
        ) by {
            if k < before.len() {
                if before[k] != e {
                    let j = choose|j: int| 0 <= j < fewer.len() && fewer[j] == before[k];
                    assert(edits[j] == all[k]);
                }
            } else {
                assert(edits[edits.len() - 1] == all[k]);
            }
        }
    }
}

/// Putting edits in order neither drops nor adds one, and none comes before one that stands
/// to the left of it.
pub proof fn law_order_keeps_the_edits(edits: Seq<EditView>)
    ensures
        ordered(edits).to_multiset() == edits.to_multiset(),
        forall|j: int, k: int|
            0 <= j < k < ordered(edits).len() ==> !comes_first(
                #[trigger] ordered(edits)[k],
                #[trigger] ordered(edits)[j],
            ),
    decreases edits.len(),
{
    broadcast use vstd::seq_lib::group_to_multiset_ensures;

    if edits.len() > 0 {
        law_order_keeps_the_edits(edits.drop_last());
        lemma_placed(ordered(edits.drop_last()), edits.last());
        assert(edits.drop_last().push(edits.last()) =~= edits);
    } else {
        assert(ordered(edits) =~= edits);
    }
}

/// Without edits a text stays as it is.
pub proof fn law_no_edits_change_nothing(s: Seq<char>)
    ensures
        edited(s, Seq::empty()) == Ok::<Seq<char>, Seq<char>>(s),
{
    assert(s.take(s.len() as int) =~= s);
}

/// One edit between two characters replaces what stands between them, and nothing else.
pub proof fn law_one_edit(s: Seq<char>, a: int, b: int, insert: Seq<char>)
    requires
        0 <= a <= b <= s.len(),
    ensures
        edited(
            s,
            seq![
                EditView {
                    from: utf16_len(s.take(a)) as int,
                    to: utf16_len(s.take(b)) as int,
                    insert,
                },
            ],
        ) == Ok::<Seq<char>, Seq<char>>(s.take(a) + insert + s.skip(b)),
{
    let from = utf16_len(s.take(a)) as int;
    let to = utf16_len(s.take(b)) as int;
    let e = EditView { from, to, insert };
    reveal_with_fuel(ordered, 2);
    reveal_with_fuel(resolved, 2);
    reveal_with_fuel(assembled, 2);
    assert(seq![e].drop_last() =~= Seq::<EditView>::empty());
    assert(ordered(seq![e]) =~= seq![e]);
    lemma_utf16_index(s, from);
    lemma_utf16_index(s, to);
    lemma_utf16_monotonic(s, a, b);
    assert(s.take(s.len() as int) =~= s);
    lemma_utf16_monotonic(s, b, s.len() as int);
    lemma_same_index(s, a);
    lemma_same_index(s, b);
    let range = EditView { from: a, to: b, insert };
    assert(seq![e].skip(1) =~= Seq::<EditView>::empty());
    assert(seq![range] + Seq::<EditView>::empty() =~= seq![range]);
    assert(seq![range].skip(1) =~= Seq::<EditView>::empty());
    assert(assembled(s, seq![range], s.len() as int) =~= s.take(a) + insert + s.skip(b));
}

/// A beginning of a text is found by its length.
pub proof fn lemma_same_index(s: Seq<char>, k: int)
    requires
        0 <= k <= s.len(),
    ensures
        utf16_index(s, utf16_len(s.take(k)) as int) == Some(k),
{
    let offset = utf16_len(s.take(k)) as int;
    lemma_utf16_index(s, offset);
    match utf16_index(s, offset) {
        Some(j) => {
            if j < k {
                lemma_utf16_monotonic(s, j, k);
            } else if k < j {
                lemma_utf16_monotonic(s, k, j);
            }
        },
        None => {
            assert(utf16_len(s.take(k)) != offset);
        },
    }
}

proof fn lemma_assembled(s: Seq<char>, ranges: Seq<EditView>, end: int)
    requires
        ranges.len() > 0,
        0 <= end <= s.len(),
        from_the_right(ranges, end),
    ensures
        starts_with(assembled(s, ranges, end), s.take(ranges.last().from)),
        ends_with(assembled(s, ranges, end), s.subrange(ranges[0].to, end)),
    decreases ranges.len(),
{
    let e = ranges[0];
    let rest = ranges.skip(1);
    let left = assembled(s, rest, e.from);
    let all = assembled(s, ranges, end);
    let tail = s.subrange(e.to, end);
    assert(all.skip(all.len() - tail.len()) =~= tail);
    let first = s.take(ranges.last().from);
    if rest.len() == 0 {
        assert(left == s.take(e.from));
        assert(all.take(first.len() as int) =~= first);
    } else {
        assert forall|k: int| 0 <= k < rest.len() implies 0 <= (#[trigger] rest[k]).from
            <= rest[k].to <= e.from by {
            assert(rest[k] == ranges[k + 1]);
            assert(ranges[k + 1].to <= ranges[0].from);
        }
        assert forall|j: int, k: int| 0 <= j < k < rest.len() implies (#[trigger] rest[k]).to <= (
        #[trigger] rest[j]).from by {
            assert(rest[k] == ranges[k + 1] && rest[j] == ranges[j + 1]);
        }
        lemma_assembled(s, rest, e.from);
        assert(left.take(first.len() as int) == first);
        assert(all.take(first.len() as int) =~= left.take(first.len() as int));
    }
}

/// What stands before the first and behind the last of the ranges stays as it is.
pub proof fn law_rest_of_the_text_stays(s: Seq<char>, edits: Seq<EditView>)
    requires
        edited(s, edits) is Ok,
        resolved(s, ordered(edits), utf16_len(s) as int)->Ok_0.len() > 0,
    ensures
        ({
            let ranges = resolved(s, ordered(edits), utf16_len(s) as int)->Ok_0;
            let text = edited(s, edits)->Ok_0;
            &&& from_the_right(ranges, s.len() as int)
            &&& starts_with(text, s.take(ranges.last().from))
            &&& ends_with(text, s.skip(ranges[0].to))
        }),
{
    let ranges = resolved(s, ordered(edits), utf16_len(s) as int)->Ok_0;
    assert(s.take(s.len() as int) =~= s);
    lemma_resolved(s, ordered(edits), utf16_len(s) as int, s.len() as int);
    lemma_assembled(s, ranges, s.len() as int);
    assert(s.subrange(ranges[0].to, s.len() as int) =~= s.skip(ranges[0].to));
}

// ---------- The order in which edits are given ----------

/// Edits without what they insert.
spec fn bare(edits: Seq<EditView>) -> Seq<EditView> {
    edits.map_values(|e: EditView| EditView { from: e.from, to: e.to, insert: Seq::empty() })
}

/// Whether edits of the same range are the same.
spec fn no_rivals(edits: Seq<EditView>) -> bool {
    forall|i: int, j: int|
        0 <= i < edits.len() && 0 <= j < edits.len() && (#[trigger] edits[i]).from == (
        #[trigger] edits[j]).from && edits[i].to == edits[j].to ==> edits[i] == edits[j]
}

/// Two edits that are no rivals take their places in either order.
proof fn lemma_placed_in_either_order(edits: Seq<EditView>, x: EditView, y: EditView)
    requires
        x == y || x.from != y.from || x.to != y.to,
    ensures
        placed(placed(edits, x), y) == placed(placed(edits, y), x),
    decreases edits.len(),
{
    reveal_with_fuel(placed, 2);
    if edits.len() > 0 {
        let fewer = edits.drop_last();
        lemma_placed_in_either_order(fewer, x, y);
        assert(placed(fewer, x).push(edits.last()).drop_last() =~= placed(fewer, x));
        assert(placed(fewer, y).push(edits.last()).drop_last() =~= placed(fewer, y));
    }
    assert(edits.push(x).drop_last() =~= edits);
    assert(edits.push(y).drop_last() =~= edits);
}

/// An edit may as well be the last that is put in order.
proof fn lemma_ordered_last(edits: Seq<EditView>, j: int)
    requires
        0 <= j < edits.len(),
        no_rivals(edits),
    ensures
        ordered(edits) == placed(ordered(edits.remove(j)), edits[j]),
    decreases edits.len(),
{
    let fewer = edits.drop_last();
    let last = edits.last();
    if j == edits.len() - 1 {
        assert(edits.remove(j) =~= fewer);
    } else {
        assert forall|a: int, b: int|
            0 <= a < fewer.len() && 0 <= b < fewer.len() && (#[trigger] fewer[a]).from == (
            #[trigger] fewer[b]).from && fewer[a].to == fewer[b].to implies fewer[a]
            == fewer[b] by {
            assert(edits[a] == fewer[a] && edits[b] == fewer[b]);
        }
        lemma_ordered_last(fewer, j);
        assert(edits.remove(j).drop_last() =~= fewer.remove(j));
        assert(edits.remove(j).last() == last);
        assert(edits[edits.len() - 1] == last && edits[j] == fewer[j]);
        lemma_placed_in_either_order(ordered(fewer.remove(j)), edits[j], last);
    }
}

/// Some of the edits that are no rivals are none either.
proof fn lemma_no_rivals_among(edits: Seq<EditView>, some: Seq<EditView>)
    requires
        no_rivals(edits),
        forall|i: int| 0 <= i < some.len() ==> edits.contains(#[trigger] some[i]),
    ensures
        no_rivals(some),
{
    assert forall|i: int, j: int|
        0 <= i < some.len() && 0 <= j < some.len() && (#[trigger] some[i]).from == (
        #[trigger] some[j]).from && some[i].to == some[j].to implies some[i] == some[j] by {
        let a = choose|a: int| 0 <= a < edits.len() && edits[a] == some[i];
        let b = choose|b: int| 0 <= b < edits.len() && edits[b] == some[j];
        assert(edits[a] == edits[b]);
    }
}

/// The same edits are put in the same order, however they are given, as far as they are no
/// rivals. `strip` leaves out what they insert; there are no rivals then.
proof fn lemma_same_order(a: Seq<EditView>, b: Seq<EditView>, strip: bool)
    requires
        a.to_multiset() == b.to_multiset(),
        strip || no_rivals(a),
    ensures
        strip ==> ordered(bare(a)) == ordered(bare(b)),
        !strip ==> ordered(a) == ordered(b),
    decreases a.len(),
{
    broadcast use vstd::seq_lib::group_to_multiset_ensures;

    a.to_multiset_ensures();
    b.to_multiset_ensures();
    if a.len() == 0 {
        assert(a =~= b);
    } else {
        let x = a.last();
        let fewer = a.drop_last();
        assert(fewer.push(x) =~= a);
        assert(a[a.len() - 1] == x);
        assert(a.contains(x));
        assert(b.to_multiset().count(x) > 0);
        let j = choose|j: int| 0 <= j < b.len() && b[j] == x;
        let rest = b.remove(j);
        assert(rest.to_multiset() =~= fewer.to_multiset());
        if strip {
            lemma_same_order(fewer, rest, strip);
            assert(bare(a).drop_last() =~= bare(fewer));
            assert(bare(b).remove(j) =~= bare(rest));
            lemma_ordered_last(bare(b), j);
        } else {
            assert forall|i: int| 0 <= i < fewer.len() implies a.contains(#[trigger] fewer[i]) by {
                assert(a[i] == fewer[i]);
            }
            assert forall|i: int| 0 <= i < b.len() implies a.contains(#[trigger] b[i]) by {
                assert(b.contains(b[i]));
                assert(b.to_multiset().count(b[i]) > 0);
            }
            lemma_no_rivals_among(a, fewer);
            lemma_no_rivals_among(a, b);
            lemma_same_order(fewer, rest, strip);
            lemma_ordered_last(b, j);
        }
    }
}

/// What edits insert does not matter for their order.
proof fn lemma_bare_ordered(edits: Seq<EditView>)
    ensures
        ordered(bare(edits)) == bare(ordered(edits)),
    decreases edits.len(),
{
    if edits.len() > 0 {
        lemma_bare_ordered(edits.drop_last());
        assert(bare(edits).drop_last() =~= bare(edits.drop_last()));
        lemma_bare_placed(ordered(edits.drop_last()), edits.last());
    } else {
        assert(bare(edits) =~= edits);
    }
}

/// What edits insert does not matter for their places.
proof fn lemma_bare_placed(edits: Seq<EditView>, e: EditView)
    ensures
        placed(bare(edits), bare(seq![e])[0]) == bare(placed(edits, e)),
    decreases edits.len(),
{
    let one = bare(seq![e])[0];
    if edits.len() == 0 || !comes_first(e, edits.last()) {
        assert(bare(edits).push(one) =~= bare(edits.push(e)));
    } else {
        let fewer = edits.drop_last();
        lemma_bare_placed(fewer, e);
        assert(bare(edits).drop_last() =~= bare(fewer));
        assert(bare(placed(fewer, e)).push(bare(edits).last()) =~= bare(
            placed(fewer, e).push(edits.last()),
        ));
    }
}

/// What edits insert does not matter for whether they can be made.
proof fn lemma_bare_resolved(s: Seq<char>, edits: Seq<EditView>, limit: int)
    ensures
        match (resolved(s, bare(edits), limit), resolved(s, edits, limit)) {
            (Err(m), Err(n)) => m == n,
            (Ok(_), Ok(_)) => true,
            _ => false,
        },
    decreases edits.len(),
{
    if edits.len() > 0 {
        assert(bare(edits).skip(1) =~= bare(edits.skip(1)));
        lemma_bare_resolved(s, edits.skip(1), edits[0].from);
    }
}

/// The order in which edits are given does not matter, unless two of them that can be made
/// insert different texts at the same place.
pub proof fn law_given_order_does_not_matter(s: Seq<char>, a: Seq<EditView>, b: Seq<EditView>)
    requires
        a.to_multiset() == b.to_multiset(),
        edited(s, a) is Ok ==> forall|i: int, j: int|
            0 <= i < a.len() && 0 <= j < a.len() && (#[trigger] a[i]).from == (
            #[trigger] a[j]).from && a[i].to == a[j].to ==> a[i].insert == a[j].insert,
    ensures
        edited(s, a) == edited(s, b),
{
    if edited(s, a) is Ok {
        lemma_same_order(a, b, false);
    } else {
        let limit = utf16_len(s) as int;
        lemma_same_order(a, b, true);
        lemma_bare_ordered(a);
        lemma_bare_ordered(b);
        lemma_bare_resolved(s, ordered(a), limit);
        lemma_bare_resolved(s, ordered(b), limit);
    }
}

} // verus!

//! What holds of edits: what they leave of a text, and which of them are made.

use vstd::prelude::*;

use crate::actor::change::EditView;
use crate::actor::edits::{
    assembled, comes_first, edited, law_given_order_does_not_matter, law_order_keeps_the_edits,
    lemma_same_index, lemma_utf16_index, lemma_utf16_monotonic, ordered, placed, resolved,
    utf16_index, utf16_len,
};
use crate::text::{byte_len, lemma_byte_len_push};

verus! {

// ---------- UTF-16 offsets ----------

/// Two texts, one behind the other, have the code units of both.
pub proof fn law_code_units_add_up(a: Seq<char>, b: Seq<char>)
    ensures
        utf16_len(a + b) == utf16_len(a) + utf16_len(b),
    decreases b.len(),
{
    if b.len() == 0 {
        assert(a + b =~= a);
    } else {
        law_code_units_add_up(a, b.drop_last());
        assert((a + b).drop_last() =~= a + b.drop_last());
    }
}

/// A character has two code units where it takes four bytes in UTF-8, and one otherwise.
pub proof fn law_code_units_of_a_character(c: char)
    ensures
        utf16_len(seq![c]) == (if byte_len(seq![c]) == 4 {
            2nat
        } else {
            1
        }),
{
    reveal_with_fuel(utf16_len, 2);
    let none = Seq::<char>::empty();
    assert(seq![c] =~= none.push(c));
    assert(byte_len(none) == 0) by {
        assert(none.len() == 0);
    }
    lemma_byte_len_push(none, c);
}

// ---------- What edits leave ----------

/// A text made of parts that alternate with others: the first of the one, the first of the
/// other, the second of the one, and so on to the last of the one.
pub open spec fn woven(kept: Seq<Seq<char>>, between: Seq<Seq<char>>) -> Seq<char>
    decreases between.len(),
{
    if between.len() == 0 {
        kept[0]
    } else {
        woven(kept.drop_last(), between.drop_last()) + between.last() + kept.last()
    }
}

/// What edits insert, from the left to the right, where they are given from the right.
pub open spec fn inserted(edits: Seq<EditView>) -> Seq<Seq<char>> {
    Seq::new(edits.len(), |i: int| edits[edits.len() - 1 - i].insert)
}

/// The text before a part that alternates with others begins the whole text.
proof fn lemma_woven_prefix(kept: Seq<Seq<char>>, between: Seq<Seq<char>>, m: int)
    requires
        kept.len() == between.len() + 1,
        0 <= m < between.len(),
    ensures
        ({
            let s = woven(kept, between);
            let left = woven(kept.take(m + 1), between.take(m));
            let a = left.len() as int;
            let b = a + between[m].len();
            let c = b + kept[m + 1].len();
            &&& c <= s.len()
            &&& s.take(a) == left
            &&& s.take(b) == left + between[m]
            &&& s.take(c) == woven(kept.take(m + 2), between.take(m + 1))
            &&& s.subrange(b, c) == kept[m + 1]
        }),
    decreases between.len(),
{
    let s = woven(kept, between);
    let left = woven(kept.take(m + 1), between.take(m));
    let a = left.len() as int;
    let b = a + between[m].len();
    let c = b + kept[m + 1].len();
    let n = between.len() as int;
    let next = woven(kept.take(m + 2), between.take(m + 1));
    assert(kept.take(m + 2).drop_last() =~= kept.take(m + 1));
    assert(between.take(m + 1).drop_last() =~= between.take(m));
    assert(next == left + between[m] + kept[m + 1]);
    if m == n - 1 {
        assert(kept.take(m + 2) =~= kept);
        assert(between.take(m + 1) =~= between);
    } else {
        let k = kept.drop_last();
        let g = between.drop_last();
        lemma_woven_prefix(k, g, m);
        assert(k.take(m + 1) =~= kept.take(m + 1));
        assert(k.take(m + 2) =~= kept.take(m + 2));
        assert(g.take(m) =~= between.take(m));
        assert(g.take(m + 1) =~= between.take(m + 1));
        let t = woven(k, g);
        assert(s.take(c) =~= t.take(c));
    }
    assert(s.take(c) == next);
    assert(s.take(a) =~= s.take(c).take(a));
    assert(next.take(a) =~= left);
    assert(s.take(b) =~= s.take(c).take(b));
    assert(next.take(b) =~= left + between[m]);
    assert(s.subrange(b, c) =~= s.take(c).skip(b));
    assert(next.skip(b) =~= kept[m + 1]);
}

/// Edits that stand from the right to the left are in order.
proof fn lemma_ordered_already(edits: Seq<EditView>)
    requires
        forall|j: int, k: int|
            0 <= j < k < edits.len() ==> !comes_first(#[trigger] edits[k], #[trigger] edits[j]),
    ensures
        ordered(edits) == edits,
    decreases edits.len(),
{
    if edits.len() > 0 {
        let fewer = edits.drop_last();
        assert forall|j: int, k: int| 0 <= j < k < fewer.len() implies !comes_first(
            #[trigger] fewer[k],
            #[trigger] fewer[j],
        ) by {
            assert(fewer[j] == edits[j] && fewer[k] == edits[k]);
        }
        lemma_ordered_already(fewer);
        if fewer.len() > 0 {
            assert(!comes_first(edits[edits.len() - 1], edits[edits.len() - 2]));
        }
        assert(fewer.push(edits.last()) =~= edits);
    } else {
        assert(ordered(edits) =~= edits);
    }
}

/// Whether edits, given from the right to the left, are those of the parts that alternate
/// with others.
#[verifier::opaque]
pub open spec fn edits_of(
    edits: Seq<EditView>,
    kept: Seq<Seq<char>>,
    gone: Seq<Seq<char>>,
) -> bool {
    &&& kept.len() == gone.len() + 1
    &&& edits.len() == gone.len()
    &&& forall|i: int|
        0 <= i < gone.len() ==> {
            let e = edits[edits.len() - 1 - i];
            let before = woven(kept.take(i + 1), gone.take(i));
            &&& e.from == utf16_len(before)
            &&& e.to == utf16_len(before) + utf16_len(#[trigger] gone[i])
        }
}

/// What the rightmost of some edits adds to what the others leave.
proof fn lemma_resolved_step(s: Seq<char>, some: Seq<EditView>, limit: int, a: int, b: int, end: int)
    requires
        some.len() > 0,
        some[0].from <= some[0].to <= limit <= utf16_len(s),
        utf16_index(s, some[0].from) == Some(a),
        utf16_index(s, some[0].to) == Some(b),
        resolved(s, some.skip(1), some[0].from) is Ok,
    ensures
        resolved(s, some, limit) is Ok,
        assembled(s, resolved(s, some, limit)->Ok_0, end) == assembled(
            s,
            resolved(s, some.skip(1), some[0].from)->Ok_0,
            a,
        ) + some[0].insert + s.subrange(b, end),
{
    let e = some[0];
    let rest = resolved(s, some.skip(1), e.from)->Ok_0;
    let new = EditView { from: a, to: b, insert: e.insert };
    let ranges = seq![new] + rest;
    assert(resolved(s, some, limit) == Ok::<Seq<EditView>, Seq<char>>(ranges));
    assert(ranges.skip(1) =~= rest);
    assert(ranges[0] == new);
}

/// Where the range of an edit stands among the parts, in code units and in characters.
proof fn lemma_range_of(edits: Seq<EditView>, kept: Seq<Seq<char>>, gone: Seq<Seq<char>>, i: int)
    requires
        edits_of(edits, kept, gone),
        0 <= i < gone.len(),
    ensures
        ({
            let s = woven(kept, gone);
            let before = woven(kept.take(i + 1), gone.take(i));
            let left = woven(kept.take(i + 2), gone.take(i + 1));
            let e = edits[edits.len() - 1 - i];
            let a = before.len() as int;
            let b = a + gone[i].len();
            &&& e.from == utf16_len(before)
            &&& e.from <= e.to <= utf16_len(left) <= utf16_len(s)
            &&& utf16_index(s, e.from) == Some(a)
            &&& utf16_index(s, e.to) == Some(b)
            &&& s.subrange(b, left.len() as int) == kept[i + 1]
        }),
{
    reveal(edits_of);
    let s = woven(kept, gone);
    let before = woven(kept.take(i + 1), gone.take(i));
    let left = woven(kept.take(i + 2), gone.take(i + 1));
    let a = before.len() as int;
    let b = a + gone[i].len();
    lemma_woven_prefix(kept, gone, i);
    assert(gone[i].len() >= 0);
    law_code_units_add_up(before, gone[i]);
    law_code_units_add_up(before + gone[i], kept[i + 1]);
    assert(left == before + gone[i] + kept[i + 1]) by {
        assert(kept.take(i + 2).drop_last() =~= kept.take(i + 1));
        assert(gone.take(i + 1).drop_last() =~= gone.take(i));
    }
    lemma_same_index(s, a);
    lemma_same_index(s, b);
    assert(s.take(s.len() as int) =~= s);
    lemma_utf16_monotonic(s, left.len() as int, s.len() as int);
}

/// What the first edits from the left leave of the text before the next.
proof fn lemma_edits_of(
    edits: Seq<EditView>,
    kept: Seq<Seq<char>>,
    gone: Seq<Seq<char>>,
    m: int,
)
    requires
        edits_of(edits, kept, gone),
        0 <= m <= gone.len(),
    ensures
        ({
            let s = woven(kept, gone);
            let left = woven(kept.take(m + 1), gone.take(m));
            let found = resolved(s, edits.skip(edits.len() - m), utf16_len(left) as int);
            &&& found is Ok
            &&& assembled(s, found->Ok_0, left.len() as int) == woven(
                kept.take(m + 1),
                inserted(edits).take(m),
            )
        }),
    decreases m,
{
    assert(kept.len() == gone.len() + 1 && edits.len() == gone.len()) by {
        reveal(edits_of);
    }
    let s = woven(kept, gone);
    let left = woven(kept.take(m + 1), gone.take(m));
    let some = edits.skip(edits.len() - m);
    let n = gone.len() as int;
    let ins = inserted(edits);
    if m == 0 {
        assert(some =~= Seq::<EditView>::empty());
        if n > 0 {
            lemma_woven_prefix(kept, gone, 0);
        } else {
            assert(kept.take(1) =~= kept);
            assert(gone.take(0) =~= gone);
            assert(s.take(s.len() as int) =~= s);
        }
        assert(ins.take(0) =~= Seq::<Seq<char>>::empty());
    } else {
        let i = m - 1;
        let before = woven(kept.take(m), gone.take(i));
        let e = edits[edits.len() - 1 - i];
        let a = before.len() as int;
        let b = a + gone[i].len();
        lemma_edits_of(edits, kept, gone, i);
        lemma_range_of(edits, kept, gone, i);
        assert(some[0] == e);
        assert(some.skip(1) =~= edits.skip(edits.len() - i));
        lemma_resolved_step(s, some, utf16_len(left) as int, a, b, left.len() as int);
        assert(ins[i] == e.insert);
        assert(ins.take(m).drop_last() =~= ins.take(i));
        assert(ins.take(m).last() == e.insert);
        assert(kept.take(m + 1).drop_last() =~= kept.take(m));
        assert(kept.take(m + 1).last() == kept[m]);
    }
}

/// Edits put what they insert in the place of their ranges: every range is gone, every
/// inserted text is there, and all that stands between the ranges is kept. The edits are
/// given from the right to the left.
pub proof fn law_edits_replace_their_ranges(
    kept: Seq<Seq<char>>,
    gone: Seq<Seq<char>>,
    edits: Seq<EditView>,
)
    requires
        edits_of(edits, kept, gone),
    ensures
        edited(woven(kept, gone), edits) == Ok::<Seq<char>, Seq<char>>(
            woven(kept, inserted(edits)),
        ),
{
    assert(kept.len() == gone.len() + 1 && edits.len() == gone.len()) by {
        reveal(edits_of);
    }
    let s = woven(kept, gone);
    let n = gone.len() as int;
    lemma_edits_of(edits, kept, gone, n);
    assert(kept.take(n + 1) =~= kept);
    assert(gone.take(n) =~= gone);
    assert(inserted(edits).take(n) =~= inserted(edits));
    assert(edits.skip(0) =~= edits);
    assert forall|j: int, k: int| 0 <= j < k < n implies !comes_first(
        #[trigger] edits[k],
        #[trigger] edits[j],
    ) by {
        lemma_edits_in_place(edits, kept, gone, n - 1 - k, n - 1 - j);
    }
    lemma_ordered_already(edits);
}

/// Of two edits, the one that stands to the left ends where the other begins, or before.
proof fn lemma_edits_in_place(
    edits: Seq<EditView>,
    kept: Seq<Seq<char>>,
    gone: Seq<Seq<char>>,
    i: int,
    j: int,
)
    requires
        edits_of(edits, kept, gone),
        0 <= i < j < gone.len(),
    ensures
        edits[edits.len() - 1 - i].from <= edits[edits.len() - 1 - i].to,
        edits[edits.len() - 1 - i].to <= edits[edits.len() - 1 - j].from,
        edits[edits.len() - 1 - j].from <= edits[edits.len() - 1 - j].to,
    decreases j - i,
{
    reveal(edits_of);
    let before = woven(kept.take(i + 1), gone.take(i));
    let next = woven(kept.take(i + 2), gone.take(i + 1));
    assert(kept.take(i + 2).drop_last() =~= kept.take(i + 1));
    assert(gone.take(i + 1).drop_last() =~= gone.take(i));
    assert(next == before + gone[i] + kept[i + 1]);
    law_code_units_add_up(before, gone[i]);
    law_code_units_add_up(before + gone[i], kept[i + 1]);
    assert(gone[i].len() >= 0 && gone[j].len() >= 0 && gone[i + 1].len() >= 0);
    if i + 1 < j {
        lemma_edits_in_place(edits, kept, gone, i + 1, j);
    }
}

/// The same edits leave the same text in whatever order they are given, as long as no two of
/// them insert different texts at the same place.
pub proof fn law_edits_in_any_order_replace_their_ranges(
    kept: Seq<Seq<char>>,
    gone: Seq<Seq<char>>,
    edits: Seq<EditView>,
    given: Seq<EditView>,
)
    requires
        edits_of(edits, kept, gone),
        given.to_multiset() == edits.to_multiset(),
        forall|i: int, j: int|
            0 <= i < given.len() && 0 <= j < given.len() && (#[trigger] given[i]).from == (
            #[trigger] given[j]).from && given[i].to == given[j].to ==> given[i].insert
                == given[j].insert,
    ensures
        edited(woven(kept, gone), given) == Ok::<Seq<char>, Seq<char>>(
            woven(kept, inserted(edits)),
        ),
{
    law_edits_replace_their_ranges(kept, gone, edits);
    law_given_order_does_not_matter(woven(kept, gone), given, edits);
}

// ---------- Which edits are made ----------

/// Whether an offset in code units lies between two characters of a text, or at an end of it.
pub open spec fn between_characters(s: Seq<char>, offset: int) -> bool {
    exists|k: int| 0 <= k <= s.len() && utf16_len(#[trigger] s.take(k)) == offset
}

/// Whether the range of an edit lies in a text, the right way round.
pub open spec fn lies_within(s: Seq<char>, e: EditView) -> bool {
    e.from <= e.to <= utf16_len(s)
}

/// Whether two edits do not overlap.
pub open spec fn apart(a: EditView, b: EditView) -> bool {
    a.to <= b.from || b.to <= a.from
}

/// Whether no two of some edits overlap.
pub open spec fn all_apart(edits: Seq<EditView>) -> bool {
    forall|i: int, j: int|
        0 <= i < j < edits.len() ==> apart(#[trigger] edits[i], #[trigger] edits[j])
}

/// Whether the ranges of all edits lie in a text and cut no character.
pub open spec fn all_fit(s: Seq<char>, edits: Seq<EditView>) -> bool {
    forall|i: int|
        0 <= i < edits.len() ==> lies_within(s, #[trigger] edits[i]) && between_characters(
            s,
            edits[i].from,
        ) && between_characters(s, edits[i].to)
}

proof fn lemma_index_found(s: Seq<char>, offset: int)
    ensures
        utf16_index(s, offset) is Some <==> between_characters(s, offset),
{
    lemma_utf16_index(s, offset);
    match utf16_index(s, offset) {
        Some(k) => {
            assert(utf16_len(s.take(k)) == offset);
        },
        None => {
            if between_characters(s, offset) {
                let k = choose|k: int|
                    0 <= k <= s.len() && utf16_len(#[trigger] s.take(k)) == offset;
                assert(utf16_len(s.take(k)) != offset);
            }
        },
    }
}

/// Where one more edit takes its place among others.
proof fn lemma_placed_slot(edits: Seq<EditView>, e: EditView) -> (p: int)
    ensures
        0 <= p <= edits.len(),
        placed(edits, e) == edits.insert(p, e),
    decreases edits.len(),
{
    if edits.len() == 0 || !comes_first(e, edits.last()) {
        assert(edits.push(e) =~= edits.insert(edits.len() as int, e));
        edits.len() as int
    } else {
        let p = lemma_placed_slot(edits.drop_last(), e);
        assert(edits.drop_last().insert(p, e).push(edits.last()) =~= edits.insert(p, e));
        p
    }
}

/// Edits in order fit and are apart exactly where they did before.
proof fn lemma_ordered_fits(s: Seq<char>, edits: Seq<EditView>)
    ensures
        all_fit(s, ordered(edits)) == all_fit(s, edits),
        all_apart(ordered(edits)) == all_apart(edits),
        ordered(edits).len() == edits.len(),
        forall|i: int| 0 <= i < ordered(edits).len() ==> edits.contains(#[trigger] ordered(edits)[i]),
        forall|i: int| 0 <= i < edits.len() ==> ordered(edits).contains(#[trigger] edits[i]),
    decreases edits.len(),
{
    if edits.len() > 0 {
        let fewer = edits.drop_last();
        let e = edits.last();
        let before = ordered(fewer);
        let all = ordered(edits);
        lemma_ordered_fits(s, fewer);
        let p = lemma_placed_slot(before, e);
        assert(all == before.insert(p, e));
        assert(all[p] == e);
        assert(edits[edits.len() - 1] == e);
        assert forall|i: int| 0 <= i < fewer.len() implies #[trigger] fewer[i] == edits[i] by {}
        assert forall|i: int| 0 <= i < before.len() implies #[trigger] before[i] == all[if i < p {
            i
        } else {
            i + 1
        }] by {}
        assert forall|i: int| 0 <= i < all.len() implies edits.contains(#[trigger] all[i]) by {
            if i != p {
                let k = if i < p {
                    i
                } else {
                    i - 1
                };
                assert(all[i] == before[k]);
                assert(fewer.contains(before[k]));
                let j = choose|j: int| 0 <= j < fewer.len() && fewer[j] == before[k];
                assert(edits[j] == all[i]);
            }
        }
        assert forall|i: int| 0 <= i < edits.len() implies all.contains(#[trigger] edits[i]) by {
            if i < fewer.len() {
                assert(before.contains(fewer[i]));
                let k = choose|k: int| 0 <= k < before.len() && before[k] == fewer[i];
                assert(all[if k < p {
                    k
                } else {
                    k + 1
                }] == edits[i]);
            }
        }
        if all_fit(s, edits) {
            assert forall|i: int| 0 <= i < all.len() implies lies_within(s, #[trigger] all[i])
                && between_characters(s, all[i].from) && between_characters(s, all[i].to) by {
                let j = choose|j: int| 0 <= j < edits.len() && edits[j] == all[i];
                assert(lies_within(s, edits[j]));
            }
        }
        if all_fit(s, all) {
            assert forall|i: int| 0 <= i < edits.len() implies lies_within(s, #[trigger] edits[i])
                && between_characters(s, edits[i].from) && between_characters(s, edits[i].to) by {
                let j = choose|j: int| 0 <= j < all.len() && all[j] == edits[i];
                assert(lies_within(s, all[j]));
            }
        }
        if all_apart(edits) {
            assert(all_apart(fewer)) by {
                assert forall|i: int, j: int| 0 <= i < j < fewer.len() implies apart(
                    #[trigger] fewer[i],
                    #[trigger] fewer[j],
                ) by {
                    assert(apart(edits[i], edits[j]));
                }
            }
            assert forall|k: int| 0 <= k < before.len() implies apart(#[trigger] before[k], e) by {
                assert(fewer.contains(before[k]));
                let j = choose|j: int| 0 <= j < fewer.len() && fewer[j] == before[k];
                assert(apart(edits[j], edits[edits.len() - 1]));
            }
            assert forall|i: int, j: int| 0 <= i < j < all.len() implies apart(
                #[trigger] all[i],
                #[trigger] all[j],
            ) by {
                lemma_insert_parts(before, p, e, i, j);
            }
        }
        if all_apart(all) {
            assert(all_apart(before)) by {
                assert forall|i: int, j: int| 0 <= i < j < before.len() implies apart(
                    #[trigger] before[i],
                    #[trigger] before[j],
                ) by {
                    let a = if i < p {
                        i
                    } else {
                        i + 1
                    };
                    let b = if j < p {
                        j
                    } else {
                        j + 1
                    };
                    assert(apart(all[a], all[b]));
                }
            }
            assert forall|i: int, j: int| 0 <= i < j < edits.len() implies apart(
                #[trigger] edits[i],
                #[trigger] edits[j],
            ) by {
                if j < fewer.len() {
                    assert(apart(fewer[i], fewer[j]));
                } else {
                    assert(before.contains(fewer[i]));
                    let k = choose|k: int| 0 <= k < before.len() && before[k] == fewer[i];
                    if k < p {
                        assert(apart(all[k], all[p]));
                    } else {
                        assert(apart(all[p], all[k + 1]));
                    }
                }
            }
        }
    } else {
        assert(ordered(edits) =~= edits);
    }
}

/// Two of some edits, with one more among them, are apart.
proof fn lemma_insert_parts(before: Seq<EditView>, p: int, e: EditView, i: int, j: int)
    requires
        0 <= p <= before.len(),
        0 <= i < j <= before.len(),
        all_apart(before),
        forall|k: int| 0 <= k < before.len() ==> apart(#[trigger] before[k], e),
    ensures
        apart(before.insert(p, e)[i], before.insert(p, e)[j]),
{
    let a = if i < p {
        i
    } else {
        i - 1
    };
    let b = if j < p {
        j
    } else {
        j - 1
    };
    if i == p {
        assert(apart(before[b], e));
    } else if j == p {
        assert(apart(before[a], e));
    } else {
        assert(apart(before[a], before[b]));
    }
}

/// Edits in order can be made exactly where they fit, are apart, and end before a limit.
proof fn lemma_resolved_where_they_fit(s: Seq<char>, edits: Seq<EditView>, limit: int)
    requires
        forall|j: int, k: int|
            0 <= j < k < edits.len() ==> !comes_first(#[trigger] edits[k], #[trigger] edits[j]),
    ensures
        resolved(s, edits, limit) is Ok <==> all_fit(s, edits) && all_apart(edits) && (edits.len()
            > 0 ==> edits[0].to <= limit),
    decreases edits.len(),
{
    if edits.len() > 0 {
        let e = edits[0];
        let rest = edits.skip(1);
        lemma_index_found(s, e.from);
        lemma_index_found(s, e.to);
        assert forall|k: int| 0 <= k < rest.len() implies #[trigger] rest[k] == edits[k + 1] by {}
        assert forall|j: int, k: int| 0 <= j < k < rest.len() implies !comes_first(
            #[trigger] rest[k],
            #[trigger] rest[j],
        ) by {
            assert(!comes_first(edits[k + 1], edits[j + 1]));
        }
        lemma_resolved_where_they_fit(s, rest, e.from);
        if all_fit(s, edits) && all_apart(edits) {
            assert(lies_within(s, edits[0]));
            assert forall|i: int| 0 <= i < rest.len() implies lies_within(s, #[trigger] rest[i])
                && between_characters(s, rest[i].from) && between_characters(s, rest[i].to) by {
                assert(lies_within(s, edits[i + 1]));
            }
            assert forall|i: int, j: int| 0 <= i < j < rest.len() implies apart(
                #[trigger] rest[i],
                #[trigger] rest[j],
            ) by {
                assert(apart(edits[i + 1], edits[j + 1]));
            }
            if rest.len() > 0 {
                assert(lies_within(s, edits[1]));
                assert(apart(edits[0], edits[1]));
                assert(!comes_first(edits[1], edits[0]));
            }
        }
        if resolved(s, edits, limit) is Ok {
            assert(resolved(s, rest, e.from) is Ok);
            assert forall|i: int| 0 <= i < edits.len() implies lies_within(s, #[trigger] edits[i])
                && between_characters(s, edits[i].from) && between_characters(s, edits[i].to) by {
                if i > 0 {
                    assert(lies_within(s, rest[i - 1]));
                }
            }
            assert forall|k: int| 0 <= k < rest.len() implies (#[trigger] rest[k]).to <= e.from by {
                assert(lies_within(s, rest[0]));
                assert(lies_within(s, rest[k]));
                if k > 0 {
                    assert(apart(rest[0], rest[k]));
                    assert(!comes_first(rest[k], rest[0]));
                }
            }
            assert forall|i: int, j: int| 0 <= i < j < edits.len() implies apart(
                #[trigger] edits[i],
                #[trigger] edits[j],
            ) by {
                if i > 0 {
                    assert(apart(rest[i - 1], rest[j - 1]));
                } else {
                    assert(rest[j - 1].to <= e.from);
                }
            }
        }
    }
}

/// Edits are made exactly where each of their ranges lies in the text, the right way round,
/// begins and ends between two characters, and no two of them overlap. Otherwise none is.
pub proof fn law_edits_are_made_where_they_fit(s: Seq<char>, edits: Seq<EditView>)
    ensures
        edited(s, edits) is Ok <==> all_fit(s, edits) && all_apart(edits),
{
    law_order_keeps_the_edits(edits);
    lemma_ordered_fits(s, edits);
    lemma_resolved_where_they_fit(s, ordered(edits), utf16_len(s) as int);
    if all_fit(s, edits) && edits.len() > 0 {
        assert(lies_within(s, ordered(edits)[0]));
    }
}

/// Why edits in order cannot be made.
proof fn lemma_refusal(s: Seq<char>, edits: Seq<EditView>, limit: int) -> (i: int)
    requires
        resolved(s, edits, limit) is Err,
    ensures
        0 <= i < edits.len(),
        ({
            let m = resolved(s, edits, limit)->Err_0;
            let e = edits[i];
            ||| m == "编辑区间超出文件边界"@ && !lies_within(s, e)
            ||| m == "编辑区间未对齐字符边界"@ && !(between_characters(s, e.from)
                && between_characters(s, e.to))
            ||| m == "编辑区间重叠"@ && lies_within(s, e) && (if i == 0 {
                e.to > limit
            } else {
                e.to > edits[i - 1].from && lies_within(s, edits[i - 1])
            })
        }),
    decreases edits.len(),
{
    let e = edits[0];
    lemma_index_found(s, e.from);
    lemma_index_found(s, e.to);
    if lies_within(s, e) && between_characters(s, e.from) && between_characters(s, e.to) && e.to
        <= limit {
        let rest = edits.skip(1);
        let i = lemma_refusal(s, rest, e.from);
        assert(rest[i] == edits[i + 1]);
        if i > 0 {
            assert(rest[i - 1] == edits[i]);
        }
        i + 1
    } else {
        0
    }
}

/// What the user is told of edits that are not made is true of them: a range lies outside of
/// the text, or cuts a character, or overlaps another.
pub proof fn law_refused_edits_have_the_fault(s: Seq<char>, edits: Seq<EditView>)
    requires
        edited(s, edits) is Err,
    ensures
        ({
            let m = edited(s, edits)->Err_0;
            ||| m == "编辑区间超出文件边界"@ && exists|i: int|
                0 <= i < edits.len() && !lies_within(s, #[trigger] edits[i])
            ||| m == "编辑区间未对齐字符边界"@ && exists|i: int|
                0 <= i < edits.len() && !(between_characters(s, (#[trigger] edits[i]).from)
                    && between_characters(s, edits[i].to))
            ||| m == "编辑区间重叠"@ && !all_apart(edits)
        }),
{
    let all = ordered(edits);
    let i = lemma_refusal(s, all, utf16_len(s) as int);
    law_order_keeps_the_edits(edits);
    lemma_ordered_fits(s, edits);
    assert(edits.contains(all[i]));
    let k = choose|k: int| 0 <= k < edits.len() && edits[k] == all[i];
    assert(lies_within(s, edits[k]) == lies_within(s, all[i]));
    if i > 0 && all[i].to > all[i - 1].from && all_apart(all) {
        assert(apart(all[i - 1], all[i]));
        assert(!comes_first(all[i], all[i - 1]));
        let j = choose|j: int| 0 <= j < edits.len() && edits[j] == all[i - 1];
        assert(edits.contains(all[i - 1]));
        assert(lies_within(s, edits[j]) == lies_within(s, all[i - 1]));
    }
}

} // verus!

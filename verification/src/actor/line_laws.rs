//! What holds of the lines of a file: what adding some leaves, and which line is replaced.

use vstd::prelude::*;

use crate::actor::lines::{
    has_trailing_newline, is_appended, law_replacing_a_line_keeps_the_rest, lemma_join_len,
    lemma_line_offset_prefix, lemma_occurrences, lemma_occurrences_two, lemma_only_index,
    line_offset, line_replaced, lines_of, occurrences, target, with_appended,
};
use crate::number::decimal;
use crate::text::{
    join, law_join_puts_separators_between, law_join_undoes_split, law_split_parts_at_a_separator,
    lemma_split_on_len, lemma_split_on_none, lemma_split_on_pieces, split_on,
};

verus! {

// ---------- Lines ----------

/// How many line feeds a text holds.
pub open spec fn line_feeds(s: Seq<char>) -> nat
    decreases s.len(),
{
    if s.len() == 0 {
        0
    } else if s.last() == '\n' {
        line_feeds(s.drop_last()) + 1
    } else {
        line_feeds(s.drop_last())
    }
}

/// Whether a text is a line between two others: line feeds part it from both of them, and it
/// holds none. Behind a line feed at the end of a text there is no line.
pub open spec fn is_line(before: Seq<char>, line: Seq<char>, after: Seq<char>) -> bool {
    &&& !line.contains('\n')
    &&& before.len() > 0 ==> before.last() == '\n'
    &&& after.len() > 0 ==> after[0] == '\n'
    &&& line.len() > 0 || after.len() > 0 || before.len() == 0
}

/// A text has one piece more than it has line feeds.
proof fn lemma_pieces(s: Seq<char>)
    ensures
        split_on(s, '\n').len() == line_feeds(s) + 1,
    decreases s.len(),
{
    if s.len() > 0 {
        lemma_pieces(s.drop_last());
    }
}

/// The pieces of a text around a line.
proof fn lemma_pieces_around(before: Seq<char>, line: Seq<char>, after: Seq<char>)
    requires
        is_line(before, line, after),
    ensures
        ({
            let left = if before.len() > 0 {
                split_on(before.drop_last(), '\n')
            } else {
                Seq::empty()
            };
            let right = if after.len() > 0 {
                split_on(after.skip(1), '\n')
            } else {
                Seq::empty()
            };
            &&& split_on(before + line + after, '\n') == left + seq![line] + right
            &&& left.len() == line_feeds(before)
            &&& after.len() > 0 ==> right.len() > 0
        }),
{
    let s = before + line + after;
    let left = if before.len() > 0 {
        split_on(before.drop_last(), '\n')
    } else {
        Seq::empty()
    };
    let right = if after.len() > 0 {
        split_on(after.skip(1), '\n')
    } else {
        Seq::empty()
    };
    lemma_split_on_none(line, '\n');
    let tail = line + after;
    if after.len() > 0 {
        assert(tail =~= line.push('\n') + after.skip(1));
        law_split_parts_at_a_separator(line, after.skip(1), '\n');
        lemma_split_on_len(after.skip(1), '\n');
    } else {
        assert(tail =~= line);
        assert(seq![line] + right =~= seq![line]);
    }
    assert(split_on(tail, '\n') == seq![line] + right);
    if before.len() > 0 {
        let c = before.drop_last();
        assert(s =~= c.push('\n') + tail);
        law_split_parts_at_a_separator(c, tail, '\n');
        lemma_pieces(c);
    } else {
        assert(s =~= tail);
    }
    assert(split_on(s, '\n') =~= left + seq![line] + right);
}

/// A line between two texts is the line of the whole with as many before it as there are line
/// feeds, and begins where the text before it ends.
proof fn lemma_line_stands(before: Seq<char>, line: Seq<char>, after: Seq<char>)
    requires
        is_line(before, line, after),
    ensures
        ({
            let s = before + line + after;
            let k = line_feeds(before) as int;
            &&& k < lines_of(s).len()
            &&& lines_of(s)[k] == line
            &&& line_offset(lines_of(s), k) == before.len()
            &&& after.len() == 0 || after == seq!['\n'] ==> lines_of(s).len() == k + 1
        }),
{
    let s = before + line + after;
    let k = line_feeds(before) as int;
    let lines = lines_of(s);
    let left = if before.len() > 0 {
        split_on(before.drop_last(), '\n')
    } else {
        Seq::empty()
    };
    let right = if after.len() > 0 {
        split_on(after.skip(1), '\n')
    } else {
        Seq::empty()
    };
    lemma_pieces_around(before, line, after);
    let all = left + seq![line] + right;
    assert(split_on(s, '\n') == all);
    assert(all[k] == line);
    if after.len() == 0 {
        assert(all.last() == line);
    } else {
        assert(all.last() == right.last());
        if after == seq!['\n'] {
            assert(after.skip(1) =~= Seq::<char>::empty());
        }
    }
    assert(k < lines.len() && lines[k] == line);
    if before.len() > 0 {
        let c = before.drop_last();
        lemma_split_on_len(c, '\n');
        law_join_undoes_split(c, '\n');
        lemma_join_len(left);
        assert forall|i: int| 0 <= i < k implies #[trigger] left[i] == lines[i] by {
            assert(all[i] == left[i]);
        }
        lemma_line_offset_prefix(left, lines, k);
        assert(line_offset(left, k) == c.len() + 1);
    }
}

/// Pieces without line feeds are those of the text that they make.
proof fn lemma_split_undoes_join(pieces: Seq<Seq<char>>)
    requires
        pieces.len() > 0,
        forall|i: int| 0 <= i < pieces.len() ==> !(#[trigger] pieces[i]).contains('\n'),
    ensures
        split_on(join(pieces, '\n'), '\n') == pieces,
    decreases pieces.len(),
{
    let last = pieces.last();
    assert(!pieces[pieces.len() - 1].contains('\n'));
    lemma_split_on_none(last, '\n');
    if pieces.len() == 1 {
        assert(pieces =~= seq![last]);
    } else {
        let fewer = pieces.drop_last();
        assert forall|i: int| 0 <= i < fewer.len() implies !(#[trigger] fewer[i]).contains(
            '\n',
        ) by {
            assert(fewer[i] == pieces[i]);
        }
        lemma_split_undoes_join(fewer);
        law_split_parts_at_a_separator(join(fewer, '\n'), last, '\n');
        assert(fewer + seq![last] =~= pieces);
    }
}

/// Every line of a text is a line between two texts.
proof fn lemma_line_between(s: Seq<char>, k: int) -> (around: (Seq<char>, Seq<char>))
    requires
        0 <= k < lines_of(s).len(),
    ensures
        s == around.0 + lines_of(s)[k] + around.1,
        is_line(around.0, lines_of(s)[k], around.1),
        line_feeds(around.0) == k,
{
    let all = split_on(s, '\n');
    let line = all[k];
    let n = all.len() as int;
    lemma_split_on_pieces(s, '\n');
    law_join_undoes_split(s, '\n');
    assert(!all[k].contains('\n'));
    let none = Seq::<char>::empty();
    let after = if k + 1 < n {
        seq!['\n'] + join(all.skip(k + 1), '\n')
    } else {
        none
    };
    let before = if k > 0 {
        join(all.take(k), '\n').push('\n')
    } else {
        none
    };
    let tail = join(all.skip(k), '\n');
    if k + 1 < n {
        assert(all.skip(k) =~= seq![line] + all.skip(k + 1));
        law_join_puts_separators_between(seq![line], all.skip(k + 1), '\n');
        assert(tail =~= line + after);
    } else {
        assert(all.skip(k) =~= seq![line]);
        assert(tail =~= line + after);
    }
    if k > 0 {
        assert(all =~= all.take(k) + all.skip(k));
        law_join_puts_separators_between(all.take(k), all.skip(k), '\n');
        assert(s =~= before + line + after);
        let left = all.take(k);
        assert forall|i: int| 0 <= i < left.len() implies !(#[trigger] left[i]).contains('\n') by {
            assert(!all[i].contains('\n'));
        }
        lemma_split_undoes_join(left);
        lemma_pieces(join(left, '\n'));
        assert(before.drop_last() =~= join(left, '\n'));
    } else {
        assert(all.skip(0) =~= all);
        assert(s =~= before + line + after);
    }
    (before, after)
}

// ---------- Replacing a line ----------

/// The number of the line between two texts, where it is the only one that is equal to it.
proof fn lemma_located(s: Seq<char>, before: Seq<char>, old: Seq<char>, after: Seq<char>)
    requires
        s == before + old + after,
        is_line(before, old, after),
        forall|b: Seq<char>, a: Seq<char>| #[trigger]
            is_line(b, old, a) && b + old + a == s ==> b == before,
    ensures
        target(lines_of(s), false, 0, old) == Ok::<int, Seq<char>>(line_feeds(before) as int),
{
    let lines = lines_of(s);
    let k = line_feeds(before) as int;
    lemma_line_stands(before, old, after);
    lemma_occurrences(lines, old);
    assert(lines.contains(old)) by {
        assert(lines[k] == old);
    }
    assert forall|j: int| 0 <= j < lines.len() && j != k implies #[trigger] lines[j] != old by {
        if lines[j] == old {
            let (b, a) = lemma_line_between(s, j);
            assert(is_line(b, old, a));
            assert(b == before);
        }
    }
    lemma_occurrences_one(lines, old, k);
    lemma_only_index(lines, old, k);
}

/// A text that one line alone is equal to is counted once.
proof fn lemma_occurrences_one(lines: Seq<Seq<char>>, text: Seq<char>, k: int)
    requires
        0 <= k < lines.len(),
        lines[k] == text,
        forall|j: int| 0 <= j < lines.len() && j != k ==> #[trigger] lines[j] != text,
    ensures
        occurrences(lines, text) == 1,
    decreases lines.len(),
{
    let fewer = lines.drop_last();
    lemma_occurrences(fewer, text);
    if k == lines.len() - 1 {
        if fewer.contains(text) {
            let j = choose|j: int| 0 <= j < fewer.len() && fewer[j] == text;
            assert(lines[j] == text);
        }
    } else {
        assert forall|j: int| 0 <= j < fewer.len() && j != k implies #[trigger] fewer[j] != text by {
            assert(lines[j] != text);
        }
        lemma_occurrences_one(fewer, text, k);
        assert(lines[lines.len() - 1] != text);
    }
}

/// The text with another line in the place of the one that was found.
proof fn lemma_replaced_between(
    before: Seq<char>,
    old: Seq<char>,
    after: Seq<char>,
    new: Seq<char>,
    base_matches: bool,
    line_number: int,
)
    requires
        is_line(before, old, after),
        line_number >= 0,
        target(lines_of(before + old + after), base_matches, line_number, old) == Ok::<
            int,
            Seq<char>,
        >(line_feeds(before) as int),
    ensures
        line_replaced(before + old + after, base_matches, line_number, old, new) == Ok::<
            Seq<char>,
            Seq<char>,
        >(before + new + after),
{
    let s = before + old + after;
    lemma_line_stands(before, old, after);
    law_replacing_a_line_keeps_the_rest(s, base_matches, line_number, old, new);
    assert(s.take(before.len() as int) =~= before);
    assert(s.skip((before.len() + old.len()) as int) =~= after);
}

/// Where the content is the one that the request was made for, and the line with the given
/// number is the old one, the new one takes its place, however many others are equal to it.
/// All that stands before and behind it stays.
pub proof fn law_line_is_replaced_by_its_number(
    before: Seq<char>,
    old: Seq<char>,
    after: Seq<char>,
    new: Seq<char>,
)
    requires
        is_line(before, old, after),
    ensures
        line_replaced(
            before + old + after,
            true,
            line_feeds(before) as int + 1,
            old,
            new,
        ) == Ok::<Seq<char>, Seq<char>>(before + new + after),
{
    lemma_line_stands(before, old, after);
    lemma_replaced_between(before, old, after, new, true, line_feeds(before) as int + 1);
}

/// Where the content has changed since, a line is found again by what it says, if no other
/// line says the same: whatever its number was, the new one takes its place.
pub proof fn law_moved_line_is_found_again(
    before: Seq<char>,
    old: Seq<char>,
    after: Seq<char>,
    new: Seq<char>,
    line_number: int,
)
    requires
        line_number >= 0,
        is_line(before, old, after),
        forall|b: Seq<char>, a: Seq<char>| #[trigger]
            is_line(b, old, a) && b + old + a == before + old + after ==> b == before,
    ensures
        line_replaced(before + old + after, false, line_number, old, new) == Ok::<
            Seq<char>,
            Seq<char>,
        >(before + new + after),
{
    lemma_located(before + old + after, before, old, after);
    lemma_replaced_between(before, old, after, new, false, line_number);
}

/// Where the content has changed since, and two lines are equal to the old one, none is
/// replaced, and the user is told so.
pub proof fn law_one_of_two_lines_is_not_guessed(
    s: Seq<char>,
    before: Seq<char>,
    after: Seq<char>,
    other_before: Seq<char>,
    other_after: Seq<char>,
    old: Seq<char>,
    new: Seq<char>,
    line_number: int,
)
    requires
        s == before + old + after,
        s == other_before + old + other_after,
        is_line(before, old, after),
        is_line(other_before, old, other_after),
        before.len() < other_before.len(),
    ensures
        line_replaced(s, false, line_number, old, new) == Err::<Seq<char>, Seq<char>>(
            "有多行内容相同，无法确定改哪一行："@ + old,
        ),
{
    let j = line_feeds(before) as int;
    let k = line_feeds(other_before) as int;
    lemma_line_stands(before, old, after);
    lemma_line_stands(other_before, old, other_after);
    assert(j != k);
    if j < k {
        lemma_occurrences_two(lines_of(s), old, j, k);
    } else {
        lemma_occurrences_two(lines_of(s), old, k, j);
    }
}

/// Where the content has changed since, and no line is equal to the old one, nothing is
/// replaced, and the user is told so.
pub proof fn law_lost_line_is_not_replaced(
    s: Seq<char>,
    old: Seq<char>,
    new: Seq<char>,
    line_number: int,
)
    requires
        forall|b: Seq<char>, a: Seq<char>| #[trigger] is_line(b, old, a) ==> b + old + a != s,
    ensures
        line_replaced(s, false, line_number, old, new) == Err::<Seq<char>, Seq<char>>(
            "目标行已不存在，可能已被改动："@ + old,
        ),
{
    let lines = lines_of(s);
    lemma_occurrences(lines, old);
    if lines.contains(old) {
        let k = choose|k: int| 0 <= k < lines.len() && lines[k] == old;
        let (b, a) = lemma_line_between(s, k);
        assert(is_line(b, old, a));
    }
}

/// Where the content is the one that the request was made for, but another line has the given
/// number, the old one is looked for as if the content had changed.
pub proof fn law_wrong_number_does_not_matter(
    before: Seq<char>,
    line: Seq<char>,
    after: Seq<char>,
    old: Seq<char>,
    new: Seq<char>,
)
    requires
        is_line(before, line, after),
        line != old,
    ensures
        line_replaced(
            before + line + after,
            true,
            line_feeds(before) as int + 1,
            old,
            new,
        ) == line_replaced(before + line + after, false, line_feeds(before) as int + 1, old, new),
{
    lemma_line_stands(before, line, after);
}

/// Where the content is the one that the request was made for, a number that no line has is
/// refused: zero, and any behind the last line.
pub proof fn law_number_without_a_line_is_refused(
    before: Seq<char>,
    last: Seq<char>,
    after: Seq<char>,
    old: Seq<char>,
    new: Seq<char>,
    line_number: int,
)
    requires
        is_line(before, last, after),
        after.len() == 0 || after == seq!['\n'],
        line_number == 0 || line_number > line_feeds(before) + 1,
    ensures
        line_replaced(before + last + after, true, line_number, old, new) == Err::<
            Seq<char>,
            Seq<char>,
        >(
            if line_number == 0 {
                "行号从 1 开始，收到 0"@
            } else {
                "行号 "@ + decimal(line_number as nat) + " 超出文件范围（共 "@ + decimal(
                    line_feeds(before) + 1,
                ) + " 行）"@
            },
        ),
{
    lemma_line_stands(before, last, after);
}

// ---------- Adding at the end ----------

/// Added lines stand behind what was there. A line feed comes between them only where a line
/// was not ended, and one at the end only where there is none. Nothing else is added.
pub proof fn law_added_lines_stand_behind(current: Seq<char>, content: Seq<char>)
    ensures
        ({
            let gap = if current.len() > 0 && current.last() != '\n' {
                seq!['\n']
            } else {
                Seq::empty()
            };
            let lines = current + gap + content;
            with_appended(current, content) == (if lines.len() > 0 && lines.last() == '\n' {
                lines
            } else {
                lines.push('\n')
            })
        }),
{
    let gap = if current.len() > 0 && current.last() != '\n' {
        seq!['\n']
    } else {
        Seq::empty()
    };
    let lines = current + gap + content;
    if current.len() == 0 {
        assert(lines =~= content);
    } else if current.last() == '\n' {
        assert(lines =~= current + content);
    } else {
        assert(lines =~= current.push('\n') + content);
    }
}

/// The last piece of a text is empty only behind a line feed.
proof fn lemma_trailing(s: Seq<char>)
    requires
        s.len() > 0,
    ensures
        has_trailing_newline(s) <==> s.last() == '\n',
{
}

/// A text that ends in a line feed has the pieces before it as its lines.
proof fn lemma_ended_lines(t: Seq<char>)
    ensures
        lines_of(t.push('\n')) == split_on(t, '\n'),
{
    let s = t.push('\n');
    assert(s.drop_last() =~= t);
    lemma_trailing(s);
    assert(split_on(s, '\n').drop_last() =~= split_on(t, '\n'));
}

/// The lines of a file to which lines were added are those that it had, and then the added
/// ones.
pub proof fn law_added_lines_are_lines(current: Seq<char>, content: Seq<char>)
    requires
        current.len() > 0,
        content.len() > 0,
    ensures
        lines_of(with_appended(current, content)) == lines_of(current) + lines_of(content),
{
    let d = if current.last() == '\n' {
        current.drop_last()
    } else {
        current
    };
    let y = if content.last() == '\n' {
        content.drop_last()
    } else {
        content
    };
    assert(lines_of(current) == split_on(d, '\n')) by {
        if current.last() == '\n' {
            assert(d.push('\n') =~= current);
            lemma_ended_lines(d);
        } else {
            lemma_trailing(current);
        }
    }
    assert(lines_of(content) == split_on(y, '\n')) by {
        if content.last() == '\n' {
            assert(y.push('\n') =~= content);
            lemma_ended_lines(y);
        } else {
            lemma_trailing(content);
        }
    }
    let e = d.push('\n') + y;
    law_split_parts_at_a_separator(d, y, '\n');
    law_added_lines_stand_behind(current, content);
    assert(with_appended(current, content) =~= e.push('\n'));
    lemma_ended_lines(e);
}

/// A file ends with lines that were to be added exactly where they stand at its end with a
/// line feed behind them; one that does not exist does not.
pub proof fn law_lines_are_found_at_the_end(s: Seq<char>, content: Seq<char>)
    ensures
        ({
            let lines = if content.len() > 0 && content.last() == '\n' {
                content
            } else {
                content.push('\n')
            };
            is_appended(Some(s), content) <==> s.len() >= lines.len() && s.skip(
                s.len() - lines.len(),
            ) == lines
        }),
        !is_appended(None, content),
{
}

} // verus!

//! Lines of a file: adding some at the end, and replacing one.

use vstd::prelude::*;

use crate::actor::change::{rejected, rejected_with, WriteError, WriteErrorView};
use crate::number::{decimal, write_decimal};
use crate::text::{
    chars_of, ends_with, has_suffix, join, join_with, law_join_undoes_split,
    lemma_split_on_len, push_chars, push_text, same_chars, split, split_on, starts_with, string_from, texts,
};

verus! {

// ---------- Adding at the end ----------

/// A text that ends in a line feed.
pub open spec fn terminated(s: Seq<char>) -> Seq<char> {
    if s.len() > 0 && s.last() == '\n' {
        s
    } else {
        s.push('\n')
    }
}

/// A text with more lines at its end: what was there and what is added both end in a line
/// feed.
pub open spec fn with_appended(current: Seq<char>, content: Seq<char>) -> Seq<char> {
    terminated(if current.len() == 0 {
        content
    } else {
        terminated(current) + content
    })
}

/// Whether a file ends with lines that were to be added to it.
pub open spec fn is_appended(current: Option<Seq<char>>, content: Seq<char>) -> bool {
    match current {
        Some(s) => ends_with(s, terminated(content)),
        None => false,
    }
}

/// Ends a text in a line feed.
fn terminate(s: &mut Vec<char>)
    ensures
        final(s)@ == terminated(old(s)@),
{
    if s.len() == 0 || s[s.len() - 1] != '\n' {
        s.push('\n');
    }
}

/// Adds lines at the end of a text.
pub fn append(current: &str, content: &str) -> (r: Vec<char>)
    ensures
        r@ == with_appended(current@, content@),
{
    let mut out: Vec<char> = chars_of(current);
    if out.len() > 0 {
        terminate(&mut out);
    }
    push_text(&mut out, content);
    proof {
        if current@.len() == 0 {
            assert(current@ + content@ =~= content@);
        }
    }
    terminate(&mut out);
    out
}

/// Whether a file ends with lines that were to be added to it; a file that does not exist
/// does not.
pub fn already_appended(current: Option<&str>, content: &str) -> (r: bool)
    ensures
        r == is_appended(
            match current {
                Some(s) => Some(s@),
                None => None,
            },
            content@,
        ),
{
    match current {
        Some(s) => {
            let mut expected: Vec<char> = chars_of(content);
            terminate(&mut expected);
            has_suffix(chars_of(s).as_slice(), expected.as_slice())
        },
        None => false,
    }
}

/// What was added is found at the end.
pub proof fn law_appended_is_found(current: Seq<char>, content: Seq<char>)
    ensures
        is_appended(Some(with_appended(current, content)), content),
{
    let out = with_appended(current, content);
    let end = terminated(content);
    assert(out.skip(out.len() - end.len()) =~= end);
}

/// Adding lines keeps what was there.
pub proof fn law_append_keeps_the_beginning(current: Seq<char>, content: Seq<char>)
    ensures
        starts_with(with_appended(current, content), current),
{
    assert(with_appended(current, content).take(current.len() as int) =~= current);
}

/// What was added begins on a line of its own, and ends one.
pub proof fn law_appended_lines_stand_alone(current: Seq<char>, content: Seq<char>)
    ensures
        with_appended(current, content).last() == '\n',
        current.len() > 0 ==> with_appended(current, content) == terminated(
            terminated(current) + content,
        ) && terminated(current).last() == '\n',
{
}

// ---------- Replacing a line ----------

/// Whether a text ends in a line feed.
pub open spec fn has_trailing_newline(s: Seq<char>) -> bool {
    s.len() > 0 && split_on(s, '\n').last().len() == 0
}

/// The lines of a text. A line feed at the end begins no further line.
pub open spec fn lines_of(s: Seq<char>) -> Seq<Seq<char>> {
    if has_trailing_newline(s) {
        split_on(s, '\n').drop_last()
    } else {
        split_on(s, '\n')
    }
}

/// How many of some lines are equal to a text.
pub open spec fn occurrences(lines: Seq<Seq<char>>, text: Seq<char>) -> nat
    decreases lines.len(),
{
    if lines.len() == 0 {
        0
    } else {
        occurrences(lines.drop_last(), text) + (if lines.last() == text {
            1nat
        } else {
            0
        })
    }
}

/// The number of the line that is equal to a text, counted from zero, where there is one
/// alone; or why there is not.
pub open spec fn located(lines: Seq<Seq<char>>, text: Seq<char>) -> Result<int, Seq<char>> {
    if occurrences(lines, text) > 1 {
        Err("有多行内容相同，无法确定改哪一行："@ + text)
    } else if occurrences(lines, text) == 0 {
        Err("目标行已不存在，可能已被改动："@ + text)
    } else {
        Ok(lines.index_of(text))
    }
}

/// The number of the line that a request means, counted from zero, or why there is none.
/// The line number holds where the content is the one that the request was made for;
/// otherwise, or where another line stands there, the old content of the line decides.
pub open spec fn target(
    lines: Seq<Seq<char>>,
    base_matches: bool,
    line_number: int,
    old_content: Seq<char>,
) -> Result<int, Seq<char>> {
    if !base_matches {
        located(lines, old_content)
    } else if line_number == 0 {
        Err("行号从 1 开始，收到 0"@)
    } else if line_number > lines.len() {
        Err(
            "行号 "@ + decimal(line_number as nat) + " 超出文件范围（共 "@ + decimal(lines.len())
                + " 行）"@,
        )
    } else if lines[line_number - 1] == old_content {
        Ok(line_number - 1)
    } else {
        located(lines, old_content)
    }
}

/// A text made of lines, with a line feed at the end where asked for.
pub open spec fn text_of_lines(lines: Seq<Seq<char>>, trailing: bool) -> Seq<char> {
    let out = join(lines, '\n');
    if trailing {
        out.push('\n')
    } else {
        out
    }
}

/// A text in which a line is replaced, or why it is not.
pub open spec fn line_replaced(
    s: Seq<char>,
    base_matches: bool,
    line_number: int,
    old_content: Seq<char>,
    new_content: Seq<char>,
) -> Result<Seq<char>, Seq<char>> {
    match target(lines_of(s), base_matches, line_number, old_content) {
        Ok(k) => Ok(text_of_lines(lines_of(s).update(k, new_content), has_trailing_newline(s))),
        Err(m) => Err(m),
    }
}

/// What [`occurrences`] counts.
pub proof fn lemma_occurrences(lines: Seq<Seq<char>>, text: Seq<char>)
    ensures
        occurrences(lines, text) > 0 <==> lines.contains(text),
    decreases lines.len(),
{
    if lines.len() > 0 {
        let fewer = lines.drop_last();
        lemma_occurrences(fewer, text);
        if fewer.contains(text) {
            let k = choose|k: int| 0 <= k < fewer.len() && fewer[k] == text;
            assert(lines[k] == text);
        }
        if lines.contains(text) && lines.last() != text {
            let k = choose|k: int| 0 <= k < lines.len() && lines[k] == text;
            assert(fewer[k] == text);
        }
        if lines.last() == text {
            assert(lines[lines.len() - 1] == text);
        }
    }
}

/// A text that more lines are equal to when more lines are looked at.
pub proof fn lemma_occurrences_prefix(lines: Seq<Seq<char>>, text: Seq<char>, n: int)
    requires
        0 <= n <= lines.len(),
    ensures
        occurrences(lines.take(n), text) <= occurrences(lines, text),
    decreases lines.len() - n,
{
    if n < lines.len() {
        lemma_occurrences_prefix(lines, text, n + 1);
        assert(lines.take(n + 1).drop_last() =~= lines.take(n));
    } else {
        assert(lines.take(n) =~= lines);
    }
}

/// Finds the line that is equal to a text.
fn locate_by_content(lines: &[Vec<char>], old_content: &str) -> (r: Result<usize, WriteError>)
    ensures
        match (r, located(texts(lines@), old_content@)) {
            (Ok(i), Ok(k)) => i == k && i < lines.len(),
            (Err(e), Err(m)) => e@ == WriteErrorView::Rejected(m),
            _ => false,
        },
{
    let ghost all = texts(lines@);
    let wanted: Vec<char> = chars_of(old_content);
    let mut found: Option<usize> = None;
    let mut i: usize = 0;
    while i < lines.len()
        invariant
            i <= lines.len(),
            all == texts(lines@),
            wanted@ == old_content@,
            match found {
                Some(k) => k < i && all[k as int] == wanted@ && occurrences(
                    all.take(i as int),
                    wanted@,
                ) == 1,
                None => occurrences(all.take(i as int), wanted@) == 0,
            },
        decreases lines.len() - i,
    {
        proof {
            assert(all.take(i + 1).drop_last() =~= all.take(i as int));
            assert(all.take(i + 1).last() == lines[i as int]@);
            lemma_occurrences_prefix(all, wanted@, i + 1);
        }
        if same_chars(lines[i].as_slice(), wanted.as_slice()) {
            if found.is_some() {
                return Err(rejected_with("有多行内容相同，无法确定改哪一行：", old_content));
            }
            found = Some(i);
        }
        i = i + 1;
    }
    assert(all.take(i as int) =~= all);
    match found {
        Some(k) => {
            proof {
                lemma_only_index(all, wanted@, k as int);
            }
            Ok(k)
        },
        None => Err(rejected_with("目标行已不存在，可能已被改动：", old_content)),
    }
}

/// Two lines that are equal to a text are counted.
pub proof fn lemma_occurrences_two(lines: Seq<Seq<char>>, text: Seq<char>, j: int, k: int)
    requires
        0 <= j < k < lines.len(),
        lines[j] == text,
        lines[k] == text,
    ensures
        occurrences(lines, text) >= 2,
    decreases lines.len(),
{
    let fewer = lines.drop_last();
    if k < lines.len() - 1 {
        lemma_occurrences_two(fewer, text, j, k);
    } else {
        lemma_occurrences(fewer, text);
        assert(fewer[j] == text);
    }
}

/// A line that is equal to a text and alone in this is the one that is found.
pub proof fn lemma_only_index(lines: Seq<Seq<char>>, text: Seq<char>, k: int)
    requires
        0 <= k < lines.len(),
        lines[k] == text,
        occurrences(lines, text) == 1,
    ensures
        lines.index_of(text) == k,
{
    let j = lines.index_of(text);
    assert(lines.contains(text));
    assert(0 <= j < lines.len() && lines[j] == text);
    if j < k {
        lemma_occurrences_two(lines, text, j, k);
    } else if k < j {
        lemma_occurrences_two(lines, text, k, j);
    }
}

/// What the user is told of a line number behind the end of a file.
fn out_of_range(line_number: usize, count: usize) -> (r: WriteError)
    ensures
        r@ == WriteErrorView::Rejected(
            "行号 "@ + decimal(line_number as nat) + " 超出文件范围（共 "@ + decimal(count as nat)
                + " 行）"@,
        ),
{
    let mut m: Vec<char> = chars_of("行号 ");
    push_chars(&mut m, write_decimal(line_number as u64).as_slice());
    push_text(&mut m, " 超出文件范围（共 ");
    push_chars(&mut m, write_decimal(count as u64).as_slice());
    push_text(&mut m, " 行）");
    WriteError::Rejected(string_from(m.as_slice()))
}

/// Finds the line that a request means.
fn find_target(
    lines: &[Vec<char>],
    base_matches: bool,
    line_number: usize,
    old_content: &str,
) -> (r: Result<usize, WriteError>)
    ensures
        match (r, target(texts(lines@), base_matches, line_number as int, old_content@)) {
            (Ok(i), Ok(k)) => i == k && i < lines.len(),
            (Err(e), Err(m)) => e@ == WriteErrorView::Rejected(m),
            _ => false,
        },
{
    if !base_matches {
        return locate_by_content(lines, old_content);
    }
    if line_number == 0 {
        return Err(rejected("行号从 1 开始，收到 0"));
    }
    if line_number > lines.len() {
        return Err(out_of_range(line_number, lines.len()));
    }
    let wanted: Vec<char> = chars_of(old_content);
    assert(texts(lines@)[line_number - 1] == lines[line_number - 1]@);
    if same_chars(lines[line_number - 1].as_slice(), wanted.as_slice()) {
        Ok(line_number - 1)
    } else {
        locate_by_content(lines, old_content)
    }
}

/// Replaces one line of a text; every other character stays as it is.
pub fn replace_line(
    current: &str,
    base_matches: bool,
    line_number: usize,
    old_content: &str,
    new_content: &str,
) -> (r: Result<Vec<char>, WriteError>)
    ensures
        match (
            r,
            line_replaced(
                current@,
                base_matches,
                line_number as int,
                old_content@,
                new_content@,
            ),
        ) {
            (Ok(out), Ok(text)) => out@ == text,
            (Err(e), Err(m)) => e@ == WriteErrorView::Rejected(m),
            _ => false,
        },
{
    let chars: Vec<char> = chars_of(current);
    let mut lines: Vec<Vec<char>> = split(chars.as_slice(), '\n');
    assert(texts(lines@).last() == lines@.last()@);
    let trailing: bool = chars.len() > 0 && lines[lines.len() - 1].len() == 0;
    if trailing {
        let ghost before = lines@;
        let _ = lines.pop();
        assert(texts(lines@) =~= texts(before).drop_last());
    }
    assert(texts(lines@) == lines_of(current@));
    let k: usize = match find_target(lines.as_slice(), base_matches, line_number, old_content) {
        Ok(k) => k,
        Err(e) => {
            return Err(e);
        },
    };
    let ghost before = lines@;
    lines.set(k, chars_of(new_content));
    assert(texts(lines@) =~= texts(before).update(k as int, new_content@));
    let mut out: Vec<char> = join_with(lines.as_slice(), '\n');
    if trailing {
        out.push('\n');
    }
    Ok(out)
}

// ---------- What replacing a line keeps ----------

/// Where a line begins in the text that lines make.
pub open spec fn line_offset(lines: Seq<Seq<char>>, k: int) -> int
    decreases k,
{
    if k <= 0 {
        0
    } else {
        line_offset(lines, k - 1) + lines[k - 1].len() + 1
    }
}

pub proof fn lemma_line_offset_prefix(a: Seq<Seq<char>>, b: Seq<Seq<char>>, k: int)
    requires
        0 <= k <= a.len(),
        k <= b.len(),
        forall|i: int| 0 <= i < k ==> #[trigger] a[i] == b[i],
    ensures
        line_offset(a, k) == line_offset(b, k),
    decreases k,
{
    if k > 0 {
        lemma_line_offset_prefix(a, b, k - 1);
        assert(a[k - 1] == b[k - 1]);
    }
}

/// The text that lines make ends with the last of them.
pub proof fn lemma_join_len(lines: Seq<Seq<char>>)
    requires
        lines.len() > 0,
    ensures
        join(lines, '\n').len() == line_offset(lines, lines.len() - 1) + lines.last().len(),
    decreases lines.len(),
{
    if lines.len() == 1 {
        assert(line_offset(lines, 0) == 0);
    } else {
        let fewer = lines.drop_last();
        lemma_join_len(fewer);
        lemma_line_offset_prefix(fewer, lines, lines.len() - 2);
        assert(fewer.last() == lines[lines.len() - 2]);
    }
}

/// A line in the text that lines make: it stands at its offset, and another line in its
/// place changes nothing else.
pub proof fn lemma_join_update(lines: Seq<Seq<char>>, k: int, new: Seq<char>)
    requires
        0 <= k < lines.len(),
    ensures
        ({
            let s = join(lines, '\n');
            let p = line_offset(lines, k);
            let q = p + lines[k].len();
            &&& 0 <= p <= q <= s.len()
            &&& s.subrange(p, q) == lines[k]
            &&& join(lines.update(k, new), '\n') == s.take(p) + new + s.skip(q)
        }),
    decreases lines.len(),
{
    let s = join(lines, '\n');
    let p = line_offset(lines, k);
    let q = p + lines[k].len();
    let changed = lines.update(k, new);
    lemma_join_len(lines);
    if lines.len() == 1 {
        assert(line_offset(lines, 0) == 0);
        assert(s.subrange(p, q) =~= lines[k]);
        assert(join(changed, '\n') =~= s.take(p) + new + s.skip(q));
    } else {
        let fewer = lines.drop_last();
        let before = join(fewer, '\n');
        lemma_join_len(fewer);
        lemma_line_offset_prefix(fewer, lines, lines.len() - 2);
        assert(fewer.last() == lines[lines.len() - 2]);
        if k < lines.len() - 1 {
            lemma_join_update(fewer, k, new);
            lemma_line_offset_prefix(fewer, lines, k);
            assert(fewer[k] == lines[k]);
            assert(changed.drop_last() =~= fewer.update(k, new));
            assert(s.subrange(p, q) =~= before.subrange(p, q));
            assert(join(changed, '\n') =~= s.take(p) + new + s.skip(q));
        } else {
            assert(changed.drop_last() =~= fewer);
            assert(before.len() + 1 == p);
            assert(s.subrange(p, q) =~= lines[k]);
            assert(join(changed, '\n') =~= s.take(p) + new + s.skip(q));
        }
    }
}

/// The lines of a text make the text again.
pub proof fn law_lines_make_the_text(s: Seq<char>)
    ensures
        lines_of(s).len() > 0,
        text_of_lines(lines_of(s), has_trailing_newline(s)) == s,
{
    let all = split_on(s, '\n');
    law_join_undoes_split(s, '\n');
    lemma_split_on_len(s, '\n');
    if has_trailing_newline(s) {
        let fewer = all.drop_last();
        if all.len() == 1 {
            assert(join(all, '\n') == all[0]);
            assert(false);
        }
        assert(join(all, '\n') =~= join(fewer, '\n').push('\n'));
    }
}

/// Replacing a line exchanges its characters for others, and keeps all that stands before
/// and behind it.
pub proof fn law_replacing_a_line_keeps_the_rest(
    s: Seq<char>,
    base_matches: bool,
    line_number: int,
    old_content: Seq<char>,
    new_content: Seq<char>,
)
    requires
        line_number >= 0,
        line_replaced(s, base_matches, line_number, old_content, new_content) is Ok,
    ensures
        ({
            let k = target(lines_of(s), base_matches, line_number, old_content)->Ok_0;
            let p = line_offset(lines_of(s), k);
            let q = p + old_content.len();
            &&& 0 <= k < lines_of(s).len()
            &&& lines_of(s)[k] == old_content
            &&& 0 <= p <= q <= s.len()
            &&& s.subrange(p, q) == old_content
            &&& line_replaced(s, base_matches, line_number, old_content, new_content)->Ok_0
                == s.take(p) + new_content + s.skip(q)
        }),
{
    let lines = lines_of(s);
    let trailing = has_trailing_newline(s);
    let k = target(lines, base_matches, line_number, old_content)->Ok_0;
    law_lines_make_the_text(s);
    lemma_occurrences(lines, old_content);
    assert(0 <= k < lines.len() && lines[k] == old_content);
    lemma_join_update(lines, k, new_content);
    let joined = join(lines, '\n');
    let p = line_offset(lines, k);
    let q = p + old_content.len();
    let out = joined.take(p) + new_content + joined.skip(q);
    assert(s.subrange(p, q) =~= joined.subrange(p, q));
    if trailing {
        assert(out.push('\n') =~= s.take(p) + new_content + s.skip(q));
    }
}

/// Where the file has changed and two lines are equal to the old one, none is replaced: the
/// wrong one could be.
pub proof fn law_ambiguous_lines_are_left_alone(
    s: Seq<char>,
    line_number: int,
    old_content: Seq<char>,
    new_content: Seq<char>,
    j: int,
    k: int,
)
    requires
        0 <= j < k < lines_of(s).len(),
        lines_of(s)[j] == old_content,
        lines_of(s)[k] == old_content,
    ensures
        line_replaced(s, false, line_number, old_content, new_content) is Err,
{
    lemma_occurrences_two(lines_of(s), old_content, j, k);
}

/// Where the line with the given number in the content that the request was made for is the
/// old one, it is replaced, however many others are equal to it.
pub proof fn law_known_lines_are_replaced(
    s: Seq<char>,
    line_number: int,
    old_content: Seq<char>,
    new_content: Seq<char>,
)
    requires
        1 <= line_number <= lines_of(s).len(),
        lines_of(s)[line_number - 1] == old_content,
    ensures
        line_replaced(s, true, line_number, old_content, new_content) == Ok::<
            Seq<char>,
            Seq<char>,
        >(
            text_of_lines(
                lines_of(s).update(line_number - 1, new_content),
                has_trailing_newline(s),
            ),
        ),
{
}

} // verus!

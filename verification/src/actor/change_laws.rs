//! What a file holds after a change, for each of the operations.

use vstd::prelude::*;

use crate::actor::apply::{applied, changed, FileWriteView};
use crate::actor::change::{ChangeSetView, EditView, OperationView, WriteErrorView};
use crate::actor::edit_laws::{
    all_apart, all_fit, edits_of, inserted, law_edits_are_made_where_they_fit,
    law_edits_replace_their_ranges, woven,
};
use crate::actor::line_laws::{
    is_line, law_added_lines_stand_behind, law_line_is_replaced_by_its_number,
    law_lost_line_is_not_replaced, law_moved_line_is_found_again,
    law_one_of_two_lines_is_not_guessed, line_feeds,
};
use crate::actor::path::VaultPathView;

verus! {

/// A file that is created or replaced holds what the request says, whatever it held. One that
/// is there is not created.
pub proof fn law_whole_files_are_written(
    cs: ChangeSetView,
    content: Seq<char>,
    current: Seq<char>,
    current_hash: Seq<char>,
)
    ensures
        cs.op == (OperationView::ReplaceFile { content }) ==> changed(cs, None, current_hash)
            == Ok::<Seq<char>, Seq<char>>(content) && changed(cs, Some(current), current_hash)
            == Ok::<Seq<char>, Seq<char>>(content),
        cs.op == (OperationView::Create { content }) ==> changed(cs, None, current_hash) == Ok::<
            Seq<char>,
            Seq<char>,
        >(content) && changed(cs, Some(current), current_hash) == Err::<Seq<char>, Seq<char>>(
            "文件已存在: "@ + cs.file_path,
        ),
{
}

/// Lines are added behind what the file holds, and begin a file that is not there. No base is
/// asked for.
pub proof fn law_lines_are_added(
    cs: ChangeSetView,
    content: Seq<char>,
    current: Seq<char>,
    current_hash: Seq<char>,
)
    requires
        cs.op == (OperationView::Append { content }),
    ensures
        ({
            let gap = if current.len() > 0 && current.last() != '\n' {
                seq!['\n']
            } else {
                Seq::empty()
            };
            let lines = current + gap + content;
            &&& changed(cs, Some(current), current_hash) == Ok::<Seq<char>, Seq<char>>(
                if lines.len() > 0 && lines.last() == '\n' {
                    lines
                } else {
                    lines.push('\n')
                },
            )
            &&& changed(cs, None, current_hash) == Ok::<Seq<char>, Seq<char>>(
                if content.len() > 0 && content.last() == '\n' {
                    content
                } else {
                    content.push('\n')
                },
            )
        }),
{
    let none = Seq::<char>::empty();
    law_added_lines_stand_behind(current, content);
    law_added_lines_stand_behind(none, content);
    assert(none + none + content =~= content);
}

/// A line is replaced where it stands, by its number if the file is the one that the request
/// was made for, and else by what it says, if no other line says the same.
pub proof fn law_lines_are_replaced(
    cs: ChangeSetView,
    before: Seq<char>,
    old: Seq<char>,
    after: Seq<char>,
    new: Seq<char>,
    line_number: int,
    current_hash: Seq<char>,
)
    requires
        cs.op == (OperationView::ReplaceLine { line_number, old_content: old, new_content: new }),
        line_number >= 0,
        is_line(before, old, after),
        if cs.base_hash == Some(current_hash) {
            line_number == line_feeds(before) + 1
        } else {
            forall|b: Seq<char>, a: Seq<char>| #[trigger]
                is_line(b, old, a) && b + old + a == before + old + after ==> b == before
        },
    ensures
        changed(cs, Some(before + old + after), current_hash) == Ok::<Seq<char>, Seq<char>>(
            before + new + after,
        ),
{
    if cs.base_hash == Some(current_hash) {
        law_line_is_replaced_by_its_number(before, old, after, new);
    } else {
        law_moved_line_is_found_again(before, old, after, new, line_number);
    }
}

/// Without the file that the request was made for, a line that is lost is not replaced.
pub proof fn law_lost_lines_are_reported(
    cs: ChangeSetView,
    s: Seq<char>,
    old: Seq<char>,
    new: Seq<char>,
    line_number: int,
    current_hash: Seq<char>,
)
    requires
        cs.op == (OperationView::ReplaceLine { line_number, old_content: old, new_content: new }),
        cs.base_hash != Some(current_hash),
        forall|b: Seq<char>, a: Seq<char>| #[trigger] is_line(b, old, a) ==> b + old + a != s,
    ensures
        changed(cs, Some(s), current_hash) == Err::<Seq<char>, Seq<char>>(
            "目标行已不存在，可能已被改动："@ + old,
        ),
{
    law_lost_line_is_not_replaced(s, old, new, line_number);
}

/// Without the file that the request was made for, none of two lines that say the same is
/// replaced.
pub proof fn law_equal_lines_are_reported(
    cs: ChangeSetView,
    s: Seq<char>,
    before: Seq<char>,
    after: Seq<char>,
    other_before: Seq<char>,
    other_after: Seq<char>,
    old: Seq<char>,
    new: Seq<char>,
    line_number: int,
    current_hash: Seq<char>,
)
    requires
        cs.op == (OperationView::ReplaceLine { line_number, old_content: old, new_content: new }),
        cs.base_hash != Some(current_hash),
        s == before + old + after,
        s == other_before + old + other_after,
        is_line(before, old, after),
        is_line(other_before, old, other_after),
        before.len() < other_before.len(),
    ensures
        changed(cs, Some(s), current_hash) == Err::<Seq<char>, Seq<char>>(
            "有多行内容相同，无法确定改哪一行："@ + old,
        ),
{
    law_one_of_two_lines_is_not_guessed(
        s,
        before,
        after,
        other_before,
        other_after,
        old,
        new,
        line_number,
    );
}

/// Edits of the file that the request was made for put what they insert in the place of their
/// ranges.
pub proof fn law_edits_are_made(
    cs: ChangeSetView,
    kept: Seq<Seq<char>>,
    gone: Seq<Seq<char>>,
    edits: Seq<EditView>,
    current_hash: Seq<char>,
)
    requires
        cs.op == (OperationView::ApplyEdits { edits }),
        cs.base_hash == Some(current_hash),
        edits_of(edits, kept, gone),
    ensures
        changed(cs, Some(woven(kept, gone)), current_hash) == Ok::<Seq<char>, Seq<char>>(
            woven(kept, inserted(edits)),
        ),
{
    law_edits_replace_their_ranges(kept, gone, edits);
}

/// Edits of the file that the request was made for are made exactly where their ranges lie in
/// it, cut no character and do not overlap.
pub proof fn law_edits_are_made_all_or_none(
    cs: ChangeSetView,
    edits: Seq<EditView>,
    current: Seq<char>,
    current_hash: Seq<char>,
)
    requires
        cs.op == (OperationView::ApplyEdits { edits }),
        cs.base_hash == Some(current_hash),
    ensures
        changed(cs, Some(current), current_hash) is Ok <==> all_fit(current, edits) && all_apart(
            edits,
        ),
{
    law_edits_are_made_where_they_fit(current, edits);
}

/// Edits of another file than the one that the request was made for are refused, and so are
/// edits without a word on what they were made for.
pub proof fn law_edits_need_their_base(
    cs: ChangeSetView,
    current: Option<Seq<char>>,
    current_hash: Seq<char>,
)
    requires
        cs.op is ApplyEdits,
    ensures
        cs.base_hash is None ==> changed(cs, current, current_hash) == Err::<Seq<char>, Seq<char>>(
            "apply_edits 必须携带基线哈希"@,
        ),
        cs.base_hash is Some && cs.base_hash != Some(current_hash) ==> changed(
            cs,
            current,
            current_hash,
        ) == Err::<Seq<char>, Seq<char>>(
            "编辑冲突：磁盘内容已变化（当前哈希："@ + current_hash + "）"@,
        ),
{
}

/// What is written is what the change leaves, in the file that the path leads to. Where the
/// path or the change is refused, nothing is written, and the reason is the same.
pub proof fn law_files_are_written_where_the_path_leads(
    path: VaultPathView,
    refused: WriteErrorView,
    cs: ChangeSetView,
    current: Option<Seq<char>>,
    current_hash: Seq<char>,
)
    ensures
        applied(Err(refused), cs, current, current_hash) == Err::<FileWriteView, WriteErrorView>(
            refused,
        ),
        match (applied(Ok(path), cs, current, current_hash), changed(cs, current, current_hash)) {
            (Ok(w), Ok(text)) => w.path == path && w.content == text,
            (Err(e), Err(m)) => e == WriteErrorView::Rejected(m),
            _ => false,
        },
{
}

/// A file is read for its content, but where it is created or replaced as a whole.
pub proof fn law_contents_are_read_where_they_matter(op: OperationView)
    ensures
        op.reads_content() <==> !(op is Create || op is ReplaceFile),
{
}

} // verus!

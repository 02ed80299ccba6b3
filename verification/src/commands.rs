//! What the windows ask for.

use vstd::prelude::*;

use crate::actor::change::{ChangeSet, ChangeSetView, Operation, OperationView};
use crate::actor::queue::{
    discard_failed, has_failed, list_failed, reset_failed, failed_rows, failed_views, with_mark,
    without, FailedView, FailedWrite, MarkView, QueueView, WriteQueue,
};
use crate::config::{StatusView, VaultStatus};
use crate::text::{
    chars_of, concat, is_white, law_trim_cuts_white_space, lemma_trim_empty, push_chars,
    string_from, trim, trimmed,
};
use crate::todo::fragment::law_fragment_reads_as_a_line;
use crate::todo::identity::{
    all_taken, answered, generate_id, id_exists, is_candidate, is_known, law_candidates_are_digits,
    MAX_ATTEMPTS,
};
use crate::todo::serialize::{write_marker_to_line, written};
use crate::todo::syntax::{parse, parsed, TodoLine};
use crate::todo::value::{MarkerValue, Value};
use crate::vault::INBOX;

verus! {

/// The vault that is in use.
#[derive(Debug)]
pub struct VaultState(pub VaultStatus);

/// What a quick note becomes: a new item at the end of the inbox.
pub open spec fn note_change(text: Seq<char>) -> ChangeSetView {
    ChangeSetView {
        file_path: "inbox.md"@,
        op: OperationView::Append { content: "- [ ] "@ + text },
        base_hash: None,
    }
}

/// What comes of a quick note: a change, nothing for a blank one, or why the vault cannot
/// be used.
pub open spec fn captured(text: Seq<char>, status: StatusView) -> Result<
    Option<ChangeSetView>,
    Seq<char>,
> {
    if trim(text).len() == 0 {
        Ok(None)
    } else {
        match status.reason() {
            Some(m) => Err(m),
            None => Ok(Some(note_change(trim(text)))),
        }
    }
}

/// What a result of [`capture`] holds.
pub open spec fn capture_result(r: Result<Option<ChangeSet>, String>) -> Result<
    Option<ChangeSetView>,
    Seq<char>,
> {
    match r {
        Ok(Some(cs)) => Ok(Some(cs@)),
        Ok(None) => Ok(None),
        Err(m) => Err(m@),
    }
}

/// Takes a quick note.
pub fn capture(text: &str, vault: &VaultState) -> (r: Result<Option<ChangeSet>, String>)
    ensures
        capture_result(r) == captured(text@, vault.0@),
{
    let chars: Vec<char> = chars_of(text);
    let note: &[char] = trimmed(chars.as_slice());
    if note.len() == 0 {
        return Ok(None);
    }
    if let Some(reason) = vault.0.reason() {
        return Err(reason);
    }
    let mut content: Vec<char> = chars_of("- [ ] ");
    push_chars(&mut content, note);
    Ok(
        Some(
            ChangeSet {
                file_path: INBOX.to_string(),
                op: Operation::Append { content: string_from(content.as_slice()) },
                base_hash: None,
            },
        ),
    )
}

/// Why the vault cannot be used, for the windows.
pub fn vault_state(vault: &VaultState) -> (r: Option<String>)
    ensures
        match r {
            Some(m) => vault.0@.reason() == Some(m@),
            None => vault.0@.reason() is None,
        },
{
    vault.0.reason()
}

/// The changes that were given up; none, where there is no queue.
pub fn failed_writes(q: Option<&WriteQueue>) -> (r: Vec<FailedWrite>)
    ensures
        failed_views(r@) == (match q {
            Some(queue) => failed_rows(queue@.rows),
            None => Seq::<FailedView>::empty(),
        }),
{
    match q {
        Some(queue) => list_failed(queue),
        None => {
            let none: Vec<FailedWrite> = Vec::new();
            assert(failed_views(none@) =~= Seq::empty());
            none
        },
    }
}

/// Has a change tried again that was given up.
pub fn retry_write(q: &mut WriteQueue, id: i64, now: i64) -> (r: Result<(), String>)
    requires
        old(q)@.well_formed(),
    ensures
        final(q)@.well_formed(),
        final(q)@ == (QueueView {
            rows: with_mark(old(q)@.rows, id as int, MarkView::Reset, now as int),
            last_id: old(q)@.last_id,
        }),
        match r {
            Ok(_) => has_failed(old(q)@.rows, id as int),
            Err(m) => !has_failed(old(q)@.rows, id as int) && m@
                == "该记录已不存在或不处于失败状态"@,
        },
{
    if !reset_failed(q, id, now) {
        return Err("该记录已不存在或不处于失败状态".to_string());
    }
    Ok(())
}

/// Gives up a change for good.
pub fn discard_write(q: &mut WriteQueue, id: i64) -> (r: Result<(), String>)
    requires
        old(q)@.well_formed(),
    ensures
        final(q)@.well_formed(),
        final(q)@ == (QueueView {
            rows: without(old(q)@.rows, id as int, true),
            last_id: old(q)@.last_id,
        }),
        match r {
            Ok(_) => has_failed(old(q)@.rows, id as int),
            Err(m) => !has_failed(old(q)@.rows, id as int) && m@
                == "该记录已不存在或不处于失败状态"@,
        },
{
    if !discard_failed(q, id) {
        return Err("该记录已不存在或不处于失败状态".to_string());
    }
    Ok(())
}

/// What a line says.
pub fn parse_todo_line(text: &str) -> (r: Option<TodoLine>)
    ensures
        match r {
            Some(t) => parsed(text@) == Some(t@),
            None => parsed(text@) is None,
        },
{
    parse(text)
}

/// The vault whose notes are to be gone through again.
pub fn rescan_index(vault: &VaultState) -> (r: Result<String, String>)
    ensures
        match r {
            Ok(path) => vault.0@ == StatusView::Ready(path@),
            Err(m) => !(vault.0@ is Ready) && m@ == "vault 不可用"@,
        },
{
    match vault.0.ready_path() {
        Some(path) => Ok(path.clone()),
        None => Err("vault 不可用".to_string()),
    }
}

/// Whether these identifiers were tried one after the other, and to-do items have them all.
pub open spec fn all_known(ids: Seq<Option<String>>, tried: Seq<Seq<char>>) -> bool {
    forall|i: int|
        0 <= i < tried.len() ==> is_candidate(#[trigger] tried[i], i) && is_known(ids, tried[i])
}

/// Whether an identifier may come of the attempts: none of the known to-do items has it, and
/// those of all attempts before were known.
pub open spec fn may_be_given(ids: Seq<Option<String>>, id: Seq<char>) -> bool {
    &&& !is_known(ids, id)
    &&& exists|tried: Seq<Seq<char>>|
        tried.len() < MAX_ATTEMPTS && #[trigger] all_known(ids, tried) && is_candidate(
            id,
            tried.len() as int,
        )
}

/// Whether every attempt at an identifier may have led to one that is known.
pub open spec fn may_be_exhausted(ids: Seq<Option<String>>) -> bool {
    exists|tried: Seq<Seq<char>>| tried.len() == MAX_ATTEMPTS && #[trigger] all_known(ids, tried)
}

/// Makes an identifier that none of the known to-do items has: one of four digits, and a
/// longer one only where those that were tried are known. It fails only where every
/// identifier that was tried is known.
pub fn allocate_todo_id(ids: &[Option<String>]) -> (r: Result<String, String>)
    ensures
        match r {
            Ok(id) => may_be_given(ids@, id@),
            Err(m) => may_be_exhausted(ids@) && m@ == "ID 分配失败：所有长度都已穷尽"@,
        },
{
    let taken = |id: &str| -> (r: bool)
        ensures
            r == is_known(ids@, id@),
        { id_exists(ids, id) };
    match generate_id(taken) {
        Some(id) => {
            proof {
                let tried = choose|tried: Seq<Seq<char>>|
                    {
                        &&& tried.len() < MAX_ATTEMPTS
                        &&& #[trigger] all_taken(taken, tried)
                        &&& is_candidate(id@, tried.len() as int)
                        &&& answered(taken, id@, false)
                    };
                let s = choose|s: &str|
                    s@ == id@ && #[trigger] call_ensures(taken, (s,), false);
                assert(!is_known(ids@, s@));
                assert forall|i: int| 0 <= i < tried.len() implies is_candidate(
                    #[trigger] tried[i],
                    i,
                ) && is_known(ids@, tried[i]) by {
                    let t = choose|t: &str|
                        t@ == tried[i] && #[trigger] call_ensures(taken, (t,), true);
                    assert(is_known(ids@, t@));
                }
                assert(all_known(ids@, tried));
            }
            Ok(id)
        },
        None => {
            proof {
                let tried = choose|tried: Seq<Seq<char>>|
                    tried.len() == MAX_ATTEMPTS && #[trigger] all_taken(taken, tried);
                assert forall|i: int| 0 <= i < tried.len() implies is_candidate(
                    #[trigger] tried[i],
                    i,
                ) && is_known(ids@, tried[i]) by {
                    let s = choose|s: &str|
                        s@ == tried[i] && #[trigger] call_ensures(taken, (s,), true);
                    assert(is_known(ids@, s@));
                }
                assert(all_known(ids@, tried));
                assert(may_be_exhausted(ids@));
            }
            Err("ID 分配失败：所有长度都已穷尽".to_string())
        },
    }
}

/// What comes of writing an identifier into a line: a change of that line, or why there is
/// none.
pub open spec fn id_change(
    file_path: Seq<char>,
    line_number: int,
    old_content: Seq<char>,
    todo_id: Seq<char>,
    status: StatusView,
) -> Result<ChangeSetView, Seq<char>> {
    match status.reason() {
        Some(m) => Err(m),
        None => match written(old_content, Value::Id(todo_id)) {
            Err(m) => Err(m),
            Ok(new_content) => Ok(
                ChangeSetView {
                    file_path,
                    op: OperationView::ReplaceLine { line_number, old_content, new_content },
                    base_hash: None,
                },
            ),
        },
    }
}

/// Writes an identifier into a line of a file.
pub fn write_todo_id(
    file_path: String,
    line_number: usize,
    old_content: String,
    todo_id: String,
    vault: &VaultState,
) -> (r: Result<ChangeSet, String>)
    ensures
        match (
            r,
            id_change(file_path@, line_number as int, old_content@, todo_id@, vault.0@),
        ) {
            (Ok(cs), Ok(view)) => cs@ == view,
            (Err(e), Err(m)) => e@ == m,
            _ => false,
        },
{
    if let Some(reason) = vault.0.reason() {
        return Err(reason);
    }
    let new_content: String = match write_marker_to_line(
        old_content.as_str(),
        &MarkerValue::Id(todo_id),
    ) {
        Ok(line) => line,
        Err(m) => {
            return Err(m);
        },
    };
    Ok(
        ChangeSet {
            file_path,
            op: Operation::ReplaceLine { line_number, old_content, new_content },
            base_hash: None,
        },
    )
}

/// Whether a directory can be chosen as the vault.
pub fn check_choice(path: &str, is_dir: bool) -> (r: Result<(), String>)
    ensures
        match r {
            Ok(_) => is_dir,
            Err(m) => !is_dir && m@ == "不是一个目录："@ + path@,
        },
{
    if !is_dir {
        return Err(concat("不是一个目录：", path));
    }
    Ok(())
}

/// A quick note is never dropped without a word: only white space is.
pub proof fn law_notes_are_not_dropped(text: Seq<char>, status: StatusView)
    requires
        captured(text, status) == Ok::<Option<ChangeSetView>, Seq<char>>(None),
    ensures
        forall|i: int| 0 <= i < text.len() ==> is_white(#[trigger] text[i]),
{
    lemma_trim_empty(text);
}

/// A quick note becomes an item without its white space, at the end of the inbox, and is never
/// bound to what the inbox holds. Where the vault cannot be used, the user is told why. Of a
/// note of white space nothing comes.
pub proof fn law_notes_become_items(
    a: Seq<char>,
    note: Seq<char>,
    b: Seq<char>,
    status: StatusView,
)
    requires
        forall|i: int| 0 <= i < a.len() ==> is_white(#[trigger] a[i]),
        forall|i: int| 0 <= i < b.len() ==> is_white(#[trigger] b[i]),
        note.len() > 0 ==> !is_white(note[0]) && !is_white(note.last()),
    ensures
        match captured(a + note + b, status) {
            Ok(Some(cs)) => {
                &&& note.len() > 0
                &&& status is Ready
                &&& cs.file_path == "inbox.md"@
                &&& cs.op == (OperationView::Append { content: "- [ ] "@ + note })
                &&& cs.base_hash is None
            },
            Ok(None) => note.len() == 0,
            Err(m) => note.len() > 0 && status.reason() == Some(m),
        },
{
    law_trim_cuts_white_space(a, note, b);
}

/// What a quick note becomes is read as an item that is not ticked.
pub proof fn law_notes_are_open_items(text: Seq<char>, status: StatusView)
    requires
        captured(text, status) matches Ok(Some(_)),
    ensures
        captured(text, status)->Ok_0.unwrap().op matches OperationView::Append { content }
            && parsed(content) matches Some(t) && !t.checked,
{
    law_fragment_reads_as_a_line(trim(text));
}

/// Writing an identifier into a line asks for this line to be replaced by itself with the
/// identifier, and is never bound to what the file holds. Why the vault cannot be used comes
/// before why the line cannot be changed.
pub proof fn law_identifiers_are_written_into_lines(
    file_path: Seq<char>,
    line_number: int,
    old: Seq<char>,
    id: Seq<char>,
    status: StatusView,
)
    ensures
        match id_change(file_path, line_number, old, id, status) {
            Ok(cs) => {
                &&& status is Ready
                &&& cs.file_path == file_path
                &&& cs.base_hash is None
                &&& cs.op matches OperationView::ReplaceLine {
                    line_number: number,
                    old_content,
                    new_content,
                } && number == line_number && old_content == old && written(old, Value::Id(id))
                    == Ok::<Seq<char>, Seq<char>>(new_content)
            },
            Err(m) => if status is Ready {
                written(old, Value::Id(id)) == Err::<Seq<char>, Seq<char>>(m)
            } else {
                status.reason() == Some(m)
            },
        },
{
}

/// An identifier that is given is new, and made of four to eight digits in base sixteen; of
/// more than four only where a hundred others were known for each length before. Where nothing
/// is known, one of four digits is given.
pub proof fn law_given_identifiers_are_new(ids: Seq<Option<String>>, id: Seq<char>)
    requires
        may_be_given(ids, id),
    ensures
        !is_known(ids, id),
        4 <= id.len() <= 8,
        forall|i: int| 0 <= i < id.len() ==> '0' <= #[trigger] id[i] <= '9' || 'a' <= id[i] <= 'f',
        ids.len() == 0 ==> id.len() == 4,
        exists|tried: Seq<Seq<char>>| #[trigger]
            all_known(ids, tried) && tried.len() >= 100 * (id.len() - 4),
{
    let tried = choose|tried: Seq<Seq<char>>|
        tried.len() < MAX_ATTEMPTS && #[trigger] all_known(ids, tried) && is_candidate(
            id,
            tried.len() as int,
        );
    law_candidates_are_digits(id, tried.len() as int);
    if ids.len() == 0 && tried.len() > 0 {
        assert(is_known(ids, tried[0]));
    }
}

/// Identifiers run out only where many are known: one of each length at least.
pub proof fn law_identifiers_run_out_last(ids: Seq<Option<String>>, length: int)
    requires
        may_be_exhausted(ids),
        4 <= length <= 8,
    ensures
        exists|id: Seq<char>| #[trigger] is_known(ids, id) && id.len() == length,
{
    let tried = choose|tried: Seq<Seq<char>>|
        tried.len() == MAX_ATTEMPTS && #[trigger] all_known(ids, tried);
    let k = 100 * (length - 4);
    law_candidates_are_digits(tried[k], k);
    assert(is_known(ids, tried[k]));
}

} // verus!

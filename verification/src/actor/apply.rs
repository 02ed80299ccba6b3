//! What a file holds after a change.

use vstd::prelude::*;

use crate::actor::change::{
    rejected, rejected_with, ChangeSet, ChangeSetView, Operation, OperationView, WriteError,
    WriteErrorView,
};
use crate::actor::edits::{apply_edits, edited};
use crate::actor::lines::{append, line_replaced, replace_line, with_appended};
use crate::actor::path::{
    leads_up, may_resolve, path_result, portable, resolve, resolved_portable, stay_below, VaultPath,
    VaultPathView,
};
use crate::text::{chars_of, push_text, same_text, string_from};

verus! {

/// The BLAKE3 hash of a text in UTF-8, in lower-case hexadecimal.
pub uninterp spec fn blake3_hex(content: Seq<char>) -> Seq<char>;

/// The hash of a content, by `blake3::hash` on its bytes and `Hash::to_hex`. The contract
/// claims that the result depends on the content alone; what it is has no shorter
/// statement than the hash function itself.
#[verifier::external_body]
pub fn hash(content: &str) -> (r: String)
    ensures
        r@ == blake3_hex(content@),
{
    blake3::hash(content.as_bytes()).to_hex().to_string()
}

/// A file of a vault and what it is to hold.
#[derive(Debug, Clone, PartialEq, Eq)]
pub struct FileWrite {
    pub path: VaultPath,
    pub content: String,
}

pub struct FileWriteView {
    pub path: VaultPathView,
    pub content: Seq<char>,
}

impl View for FileWrite {
    type V = FileWriteView;

    open spec fn view(&self) -> FileWriteView {
        FileWriteView { path: self.path@, content: self.content@ }
    }
}

/// What a result of [`apply`] holds.
pub open spec fn write_result(r: Result<FileWrite, WriteError>) -> Result<
    FileWriteView,
    WriteErrorView,
> {
    match r {
        Ok(w) => Ok(w@),
        Err(e) => Err(e@),
    }
}

/// What an optional text holds.
pub open spec fn str_of(t: Option<&str>) -> Option<Seq<char>> {
    match t {
        Some(s) => Some(s@),
        None => None,
    }
}

/// The content of a file; that of one that does not exist is empty.
pub open spec fn content_of(current: Option<Seq<char>>) -> Seq<char> {
    match current {
        Some(s) => s,
        None => Seq::empty(),
    }
}

impl OperationView {
    /// Whether the operation depends on what the file holds, and not only on whether it
    /// exists.
    pub open spec fn reads_content(self) -> bool {
        self is Append || self is ReplaceLine || self is ApplyEdits
    }
}

impl Operation {
    /// Whether the operation depends on what the file holds, and not only on whether it
    /// exists.
    pub fn reads_content(&self) -> (r: bool)
        ensures
            r == self@.reads_content(),
    {
        match self {
            Operation::Append { .. } => true,
            Operation::ReplaceLine { .. } => true,
            Operation::ApplyEdits { .. } => true,
            Operation::Create { .. } => false,
            Operation::ReplaceFile { .. } => false,
        }
    }
}

/// What a file holds after a change, or why the change is refused. `current` is what it
/// holds before, nothing where it does not exist, and `current_hash` the hash of that.
pub open spec fn changed(
    cs: ChangeSetView,
    current: Option<Seq<char>>,
    current_hash: Seq<char>,
) -> Result<Seq<char>, Seq<char>> {
    let text = content_of(current);
    match cs.op {
        OperationView::Append { content } => Ok(with_appended(text, content)),
        OperationView::Create { content } => if current is Some {
            Err("文件已存在: "@ + cs.file_path)
        } else {
            Ok(content)
        },
        OperationView::ReplaceFile { content } => Ok(content),
        OperationView::ReplaceLine { line_number, old_content, new_content } => line_replaced(
            text,
            cs.base_hash == Some(current_hash),
            line_number,
            old_content,
            new_content,
        ),
        OperationView::ApplyEdits { edits } => match cs.base_hash {
            None => Err("apply_edits 必须携带基线哈希"@),
            Some(base) => if base != current_hash {
                Err("编辑冲突：磁盘内容已变化（当前哈希："@ + current_hash + "）"@)
            } else {
                edited(text, edits)
            },
        },
    }
}

/// What the user is told of a file that has changed since.
fn conflict(current_hash: &str) -> (r: WriteError)
    ensures
        r@ == WriteErrorView::Rejected(
            "编辑冲突：磁盘内容已变化（当前哈希："@ + current_hash@ + "）"@,
        ),
{
    let mut m: Vec<char> = chars_of("编辑冲突：磁盘内容已变化（当前哈希：");
    push_text(&mut m, current_hash);
    push_text(&mut m, "）");
    WriteError::Rejected(string_from(m.as_slice()))
}

/// Whether a request was made for a content with this hash.
fn base_matches(cs: &ChangeSet, current_hash: &str) -> (r: bool)
    ensures
        r == (cs@.base_hash == Some(current_hash@)),
{
    match &cs.base_hash {
        Some(base) => same_text(chars_of(base.as_str()).as_slice(), current_hash),
        None => false,
    }
}

/// Computes what a file holds after a change.
pub fn change(cs: &ChangeSet, current: Option<&str>, current_hash: &str) -> (r: Result<
    String,
    WriteError,
>)
    ensures
        match (r, changed(cs@, str_of(current), current_hash@)) {
            (Ok(out), Ok(text)) => out@ == text,
            (Err(e), Err(m)) => e@ == WriteErrorView::Rejected(m),
            _ => false,
        },
{
    proof {
        reveal_strlit("");
    }
    let text: &str = match current {
        Some(s) => s,
        None => "",
    };
    assert(text@ =~= content_of(str_of(current)));
    match &cs.op {
        Operation::Append { content } => Ok(string_from(append(text, content.as_str()).as_slice())),
        Operation::Create { content } => {
            if current.is_some() {
                return Err(rejected_with("文件已存在: ", cs.file_path.as_str()));
            }
            Ok(content.clone())
        },
        Operation::ReplaceFile { content } => Ok(content.clone()),
        Operation::ReplaceLine { line_number, old_content, new_content } => {
            let same: bool = base_matches(cs, current_hash);
            match replace_line(
                text,
                same,
                *line_number,
                old_content.as_str(),
                new_content.as_str(),
            ) {
                Ok(out) => Ok(string_from(out.as_slice())),
                Err(e) => Err(e),
            }
        },
        Operation::ApplyEdits { edits } => {
            if cs.base_hash.is_none() {
                return Err(rejected("apply_edits 必须携带基线哈希"));
            }
            if !base_matches(cs, current_hash) {
                return Err(conflict(current_hash));
            }
            match apply_edits(text, edits.as_slice()) {
                Ok(out) => Ok(string_from(out.as_slice())),
                Err(e) => Err(e),
            }
        },
    }
}

/// What a vault's file holds after a change, or why the change is refused, where the path
/// leads to a file or is refused itself.
pub open spec fn applied(
    place: Result<VaultPathView, WriteErrorView>,
    cs: ChangeSetView,
    current: Option<Seq<char>>,
    current_hash: Seq<char>,
) -> Result<FileWriteView, WriteErrorView> {
    match place {
        Err(e) => Err(e),
        Ok(path) => match changed(cs, current, current_hash) {
            Ok(content) => Ok(FileWriteView { path, content }),
            Err(m) => Err(WriteErrorView::Rejected(m)),
        },
    }
}

/// Computes which file of a vault a change concerns and what it holds after it. `current`
/// is what the file holds now, nothing where it does not exist. It depends on the system
/// into which parts a path falls; a portable path means the same everywhere. No path leads
/// out of the vault.
pub fn apply(vault_root: &str, cs: &ChangeSet, current: Option<&str>) -> (r: Result<
    FileWrite,
    WriteError,
>)
    ensures
        exists|place: Result<VaultPathView, WriteErrorView>| #[trigger]
            may_resolve(vault_root@, cs@.file_path, place) && write_result(r) == applied(
                place,
                cs@,
                str_of(current),
                blake3_hex(content_of(str_of(current))),
            ),
        portable(cs@.file_path) ==> write_result(r) == applied(
            resolved_portable(vault_root@, cs@.file_path),
            cs@,
            str_of(current),
            blake3_hex(content_of(str_of(current))),
        ),
        cs@.file_path.len() > 0 && cs@.file_path[0] == '/' ==> r is Err,
        leads_up(cs@.file_path) ==> r is Err,
        match r {
            Ok(w) => {
                &&& w@.path.root == vault_root@
                &&& stay_below(w@.path.below)
                &&& changed(cs@, str_of(current), blake3_hex(content_of(str_of(current)))) == Ok::<
                    Seq<char>,
                    Seq<char>,
                >(w@.content)
            },
            Err(e) => e is Rejected,
        },
{
    let place: Result<VaultPath, WriteError> = resolve(vault_root, cs.file_path.as_str());
    assert(may_resolve(vault_root@, cs@.file_path, path_result(place)));
    let path: VaultPath = match place {
        Ok(path) => path,
        Err(e) => {
            return Err(e);
        },
    };
    proof {
        reveal_strlit("");
    }
    let text: &str = match current {
        Some(s) => s,
        None => "",
    };
    assert(text@ =~= content_of(str_of(current)));
    let current_hash: String = hash(text);
    match change(cs, current, current_hash.as_str()) {
        Ok(content) => Ok(FileWrite { path, content }),
        Err(e) => Err(e),
    }
}

/// An operation that does not read the content of its file does not depend on it.
pub proof fn law_unread_content_does_not_matter(
    cs: ChangeSetView,
    a: Option<Seq<char>>,
    b: Option<Seq<char>>,
    a_hash: Seq<char>,
    b_hash: Seq<char>,
)
    requires
        !cs.op.reads_content(),
        a is Some <==> b is Some,
    ensures
        changed(cs, a, a_hash) == changed(cs, b, b_hash),
{
}

/// Creating a file never overwrites one.
pub proof fn law_create_never_overwrites(
    cs: ChangeSetView,
    current: Seq<char>,
    current_hash: Seq<char>,
)
    requires
        cs.op is Create,
    ensures
        changed(cs, Some(current), current_hash) is Err,
{
}

/// Edits are refused unless they were made for the content that the file holds.
pub proof fn law_stale_edits_are_refused(
    cs: ChangeSetView,
    current: Option<Seq<char>>,
    current_hash: Seq<char>,
)
    requires
        cs.op is ApplyEdits,
        cs.base_hash != Some(current_hash),
    ensures
        changed(cs, current, current_hash) is Err,
{
}

/// Adding lines never fails, whatever the file holds.
pub proof fn law_append_never_conflicts(
    cs: ChangeSetView,
    current: Option<Seq<char>>,
    current_hash: Seq<char>,
)
    requires
        cs.op is Append,
    ensures
        changed(cs, current, current_hash) is Ok,
{
}

} // verus!

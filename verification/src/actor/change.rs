//! What a writer asks for, and why it may be refused.

use vstd::prelude::*;

use crate::text::concat;

verus! {

/// One request to change a file.
#[derive(Debug)]
pub struct ChangeSet {
    /// The path below the vault, such as `inbox.md`.
    pub file_path: String,
    pub op: Operation,
    /// The hash of the content that the request was made for; nothing, where the request
    /// does not depend on it.
    pub base_hash: Option<String>,
}

/// One edit. `from` and `to` count UTF-16 code units.
#[derive(Debug)]
pub struct Edit {
    pub from: usize,
    pub to: usize,
    pub insert: String,
}

/// What is to be done to a file.
#[derive(Debug)]
pub enum Operation {
    /// Adds lines at the end of the file.
    Append { content: String },
    /// Replaces one line; `old_content` finds it where the file has changed since.
    ReplaceLine { line_number: usize, old_content: String, new_content: String },
    /// Makes a file that does not exist yet.
    Create { content: String },
    /// Replaces ranges of the content that the request was made for.
    ApplyEdits { edits: Vec<Edit> },
    /// Replaces the whole content.
    ReplaceFile { content: String },
}

/// Why a change was not made.
#[derive(Debug, Clone, PartialEq, Eq)]
pub enum WriteError {
    /// For the time being: another attempt may succeed.
    Retryable(String),
    /// For good: every other attempt would end in the same way.
    Rejected(String),
}

pub struct EditView {
    pub from: int,
    pub to: int,
    pub insert: Seq<char>,
}

pub enum OperationView {
    Append { content: Seq<char> },
    ReplaceLine { line_number: int, old_content: Seq<char>, new_content: Seq<char> },
    Create { content: Seq<char> },
    ApplyEdits { edits: Seq<EditView> },
    ReplaceFile { content: Seq<char> },
}

pub struct ChangeSetView {
    pub file_path: Seq<char>,
    pub op: OperationView,
    pub base_hash: Option<Seq<char>>,
}

pub enum WriteErrorView {
    Retryable(Seq<char>),
    Rejected(Seq<char>),
}

impl View for Edit {
    type V = EditView;

    open spec fn view(&self) -> EditView {
        EditView { from: self.from as int, to: self.to as int, insert: self.insert@ }
    }
}

pub open spec fn edit_views(edits: Seq<Edit>) -> Seq<EditView> {
    edits.map_values(|e: Edit| e@)
}

impl View for Operation {
    type V = OperationView;

    open spec fn view(&self) -> OperationView {
        match self {
            Operation::Append { content } => OperationView::Append { content: content@ },
            Operation::ReplaceLine { line_number, old_content, new_content } => {
                OperationView::ReplaceLine {
                    line_number: *line_number as int,
                    old_content: old_content@,
                    new_content: new_content@,
                }
            },
            Operation::Create { content } => OperationView::Create { content: content@ },
            Operation::ApplyEdits { edits } => OperationView::ApplyEdits {
                edits: edit_views(edits@),
            },
            Operation::ReplaceFile { content } => OperationView::ReplaceFile { content: content@ },
        }
    }
}

/// What an optional text holds.
pub open spec fn text_of(t: Option<String>) -> Option<Seq<char>> {
    match t {
        Some(s) => Some(s@),
        None => None,
    }
}

impl View for ChangeSet {
    type V = ChangeSetView;

    open spec fn view(&self) -> ChangeSetView {
        ChangeSetView {
            file_path: self.file_path@,
            op: self.op@,
            base_hash: text_of(self.base_hash),
        }
    }
}

impl View for WriteError {
    type V = WriteErrorView;

    open spec fn view(&self) -> WriteErrorView {
        match self {
            WriteError::Retryable(m) => WriteErrorView::Retryable(m@),
            WriteError::Rejected(m) => WriteErrorView::Rejected(m@),
        }
    }
}

impl Clone for Edit {
    fn clone(&self) -> (r: Self)
        ensures
            r@ == self@,
    {
        Edit { from: self.from, to: self.to, insert: self.insert.clone() }
    }
}

fn clone_edits(edits: &[Edit]) -> (r: Vec<Edit>)
    ensures
        edit_views(r@) == edit_views(edits@),
{
    let mut r: Vec<Edit> = Vec::new();
    let mut i: usize = 0;
    while i < edits.len()
        invariant
            i <= edits.len(),
            edit_views(r@) =~= edit_views(edits@).take(i as int),
        decreases edits.len() - i,
    {
        let e: Edit = edits[i].clone();
        let ghost before = edit_views(r@);
        r.push(e);
        i = i + 1;
        assert(edit_views(r@) =~= before.push(edits[i - 1]@));
    }
    assert(edit_views(edits@).take(i as int) =~= edit_views(edits@));
    r
}

impl Clone for Operation {
    fn clone(&self) -> (r: Self)
        ensures
            r@ == self@,
    {
        match self {
            Operation::Append { content } => Operation::Append { content: content.clone() },
            Operation::ReplaceLine { line_number, old_content, new_content } => {
                Operation::ReplaceLine {
                    line_number: *line_number,
                    old_content: old_content.clone(),
                    new_content: new_content.clone(),
                }
            },
            Operation::Create { content } => Operation::Create { content: content.clone() },
            Operation::ApplyEdits { edits } => Operation::ApplyEdits {
                edits: clone_edits(edits.as_slice()),
            },
            Operation::ReplaceFile { content } => Operation::ReplaceFile {
                content: content.clone(),
            },
        }
    }
}

/// A copy of an optional text.
pub(crate) fn clone_text(t: &Option<String>) -> (r: Option<String>)
    ensures
        text_of(r) == text_of(*t),
{
    match t {
        Some(s) => Some(s.clone()),
        None => None,
    }
}

impl Clone for ChangeSet {
    fn clone(&self) -> (r: Self)
        ensures
            r@ == self@,
    {
        ChangeSet {
            file_path: self.file_path.clone(),
            op: self.op.clone(),
            base_hash: clone_text(&self.base_hash),
        }
    }
}

impl OperationView {
    /// The name of the operation.
    pub open spec fn name(self) -> Seq<char> {
        match self {
            OperationView::Append { .. } => "append"@,
            OperationView::ReplaceLine { .. } => "replace_line"@,
            OperationView::Create { .. } => "create"@,
            OperationView::ApplyEdits { .. } => "apply_edits"@,
            OperationView::ReplaceFile { .. } => "replace_file"@,
        }
    }
}

impl WriteErrorView {
    /// What the user is told.
    pub open spec fn message(self) -> Seq<char> {
        match self {
            WriteErrorView::Retryable(m) => m,
            WriteErrorView::Rejected(m) => m,
        }
    }
}

impl Operation {
    /// The name of the operation.
    pub fn name(&self) -> (r: &'static str)
        ensures
            r@ == self@.name(),
    {
        match self {
            Operation::Append { .. } => "append",
            Operation::ReplaceLine { .. } => "replace_line",
            Operation::Create { .. } => "create",
            Operation::ApplyEdits { .. } => "apply_edits",
            Operation::ReplaceFile { .. } => "replace_file",
        }
    }
}

impl WriteError {
    /// What the user is told.
    pub fn message(&self) -> (r: &String)
        ensures
            r@ == self@.message(),
    {
        match self {
            WriteError::Retryable(m) => m,
            WriteError::Rejected(m) => m,
        }
    }
}

/// A refusal with a message.
pub(crate) fn rejected(message: &str) -> (r: WriteError)
    ensures
        r@ == WriteErrorView::Rejected(message@),
{
    WriteError::Rejected(message.to_string())
}

/// A refusal with a message that names something.
pub(crate) fn rejected_with(message: &str, detail: &str) -> (r: WriteError)
    ensures
        r@ == WriteErrorView::Rejected(message@ + detail@),
{
    WriteError::Rejected(concat(message, detail))
}

} // verus!

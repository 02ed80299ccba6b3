//! The mathematical values that contracts speak of hold what the values hold that callers see.

use vstd::prelude::*;

use crate::actor::apply::{content_of, str_of, write_result, FileWrite};
use crate::actor::change::{
    text_of, ChangeSet, Edit, Operation, OperationView, WriteError, WriteErrorView,
};
use crate::actor::path::{path_result, PartView, PathPart, VaultPath};
use crate::actor::queue::{
    outcome_view, read_view, Begun, BegunView, FailedWrite, QueueRow, Resumed, ResumedView, Step,
    StepView, WriteQueue,
};
use crate::commands::capture_result;
use crate::config::{Config, Loaded, LoadedView, StatusView, VaultStatus};
use crate::db::{NextProbe, NextView, OpenError, OpenErrorView, Probed, ProbedView};
use crate::todo::syntax::TodoLine;
use crate::todo::value::{Intensity, MarkerValue, Recurrence, TimeExpr, Value};

verus! {

/// An error keeps its kind and its message, and so does what ended with it.
pub proof fn law_errors_keep_their_kind(m: String, content: Option<String>)
    ensures
        WriteError::Retryable(m)@ == WriteErrorView::Retryable(m@),
        WriteError::Rejected(m)@ == WriteErrorView::Rejected(m@),
        outcome_view(Ok(())) is Ok,
        outcome_view(Err(WriteError::Retryable(m))) == Err::<(), WriteErrorView>(
            WriteErrorView::Retryable(m@),
        ),
        outcome_view(Err(WriteError::Rejected(m))) == Err::<(), WriteErrorView>(
            WriteErrorView::Rejected(m@),
        ),
        read_view(Ok(content)) == Ok::<Option<Seq<char>>, WriteErrorView>(text_of(content)),
        read_view(Err(WriteError::Retryable(m))) is Err,
        read_view(Err(WriteError::Rejected(m))) is Err,
        text_of(Some(m)) == Some(m@),
        text_of(None) is None,
{
}

/// A request keeps its file, its operation and what it was made for.
pub proof fn law_requests_keep_what_they_ask_for(
    cs: ChangeSet,
    text: String,
    other: String,
    line_number: usize,
    edits: Vec<Edit>,
    k: int,
)
    ensures
        cs@.file_path == cs.file_path@,
        cs@.op == cs.op@,
        cs@.base_hash == text_of(cs.base_hash),
        (Operation::Append { content: text })@ == (OperationView::Append { content: text@ }),
        (Operation::Create { content: text })@ == (OperationView::Create { content: text@ }),
        (Operation::ReplaceFile { content: text })@ == (OperationView::ReplaceFile {
            content: text@,
        }),
        (Operation::ReplaceLine { line_number, old_content: text, new_content: other })@ == (
        OperationView::ReplaceLine {
            line_number: line_number as int,
            old_content: text@,
            new_content: other@,
        }),
        (Operation::ApplyEdits { edits })@ matches OperationView::ApplyEdits { edits: views }
            && views.len() == edits.len() && (0 <= k < edits.len() ==> views[k].from
            == edits[k].from && views[k].to == edits[k].to && views[k].insert == edits[k].insert@),
{
}

/// A change in the queue keeps all that is noted of it, and is taken up as it is.
pub proof fn law_changes_keep_their_notes(q: WriteQueue, k: int, row: QueueRow, f: FailedWrite)
    ensures
        q@.last_id == q.last_id,
        q@.rows.len() == q.rows.len(),
        0 <= k < q.rows.len() ==> ({
            let r = q.rows[k];
            let v = q@.rows[k];
            &&& v.id == r.id
            &&& v.file_path == r.file_path@
            &&& v.operation == r.operation@
            &&& v.op == (match r.op {
                Some(op) => Some(op@),
                None => None,
            })
            &&& v.base_hash == text_of(r.base_hash)
            &&& v.attempted_at is Some <==> r.attempted_at is Some
            &&& r.attempted_at matches Some(t) ==> v.attempted_at == Some(t as int)
            &&& v.retries == r.retries
            &&& v.last_error == text_of(r.last_error)
            &&& v.created_at == r.created_at
            &&& v.updated_at == r.updated_at
        }),
        row@.id == row.id,
        row@.cs == row.cs@,
        row@.retries == row.retries,
        row@.attempted == row.attempted,
        f@.id == f.id,
        f@.file == f.file@,
        f@.op == f.op@,
        f@.error == f.error@,
        f@.at == f.at,
{
}

/// What is to be done with a change, and how it ended, are what callers see.
pub proof fn law_steps_are_what_callers_see(row: QueueRow, cs: ChangeSet, m: String)
    ensures
        Begun::Empty@ is Empty,
        Begun::Check(row)@ == BegunView::Check(row@),
        Begun::Write(row)@ == BegunView::Write(row@),
        Resumed::Done(cs)@ == ResumedView::Done(cs@),
        Resumed::Write(row)@ == ResumedView::Write(row@),
        Step::Empty@ is Empty,
        Step::Done(cs)@ == StepView::Done(cs@),
        Step::Retrying@ is Retrying,
        Step::Failed(cs, m)@ == StepView::Failed(cs@, m@),
{
}

/// A file keeps the names that lead to it, and what it is to hold.
pub proof fn law_files_keep_their_names(
    p: VaultPath,
    w: FileWrite,
    e: WriteError,
    name: String,
    k: int,
)
    ensures
        p@.root == p.root@,
        p@.below.len() == p.below.len(),
        0 <= k < p.below.len() ==> p@.below[k] == p.below[k]@,
        w@.path == w.path@,
        w@.content == w.content@,
        path_result(Ok(p)) matches Ok(v) && v == p@,
        path_result(Err(e)) matches Err(v) && v == e@,
        write_result(Ok(w)) matches Ok(v) && v == w@,
        write_result(Err(e)) matches Err(v) && v == e@,
        PathPart::Normal(name)@ == PartView::Normal(name@),
        PathPart::Prefix@ is Prefix,
        PathPart::RootDir@ is RootDir,
        PathPart::CurDir@ is CurDir,
        PathPart::ParentDir@ is ParentDir,
{
}

/// A file that is not there counts as empty, and one that is there as what it holds.
pub proof fn law_missing_files_are_empty(s: &str)
    ensures
        str_of(Some(s)) == Some(s@),
        str_of(None) is None,
        content_of(Some(s@)) == s@,
        content_of(None).len() == 0,
{
}

/// What comes of a quick note is what callers see.
pub proof fn law_notes_are_what_callers_see(cs: ChangeSet, m: String)
    ensures
        capture_result(Ok(Some(cs))) matches Ok(Some(v)) && v == cs@,
        capture_result(Ok(None)) matches Ok(None),
        capture_result(Err(m)) matches Err(v) && v == m@,
{
}

/// What a line says keeps all values and all places.
pub proof fn law_lines_keep_what_they_say(t: TodoLine, i: int, j: int, k: int)
    ensures
        t@.checked == t.checked,
        t@.content.start == t.content.start,
        t@.content.end == t.content.end,
        t@.markers.len() == t.markers.len(),
        0 <= i < t.markers.len() ==> {
            &&& t@.markers[i].value == t.markers[i].value@
            &&& t@.markers[i].span.start == t.markers[i].span.start
            &&& t@.markers[i].span.end == t.markers[i].span.end
        },
        t@.degraded.len() == t.degraded.len(),
        0 <= j < t.degraded.len() ==> {
            &&& t@.degraded[j].suspected == t.degraded[j].suspected
            &&& t@.degraded[j].span.start == t.degraded[j].span.start
            &&& t@.degraded[j].span.end == t.degraded[j].span.end
        },
        t@.quoted.len() == t.quoted.len(),
        0 <= k < t.quoted.len() ==> {
            &&& t@.quoted[k].start == t.quoted[k].start
            &&& t@.quoted[k].end == t.quoted[k].end
        },
{
}

/// A value of a marker keeps its kind and what it says.
pub proof fn law_values_keep_what_they_say(e: TimeExpr, r: Recurrence, t: String, i: Intensity)
    ensures
        MarkerValue::Time(e)@ == Value::Time(e),
        MarkerValue::Repeat(r)@ == Value::Repeat(r),
        MarkerValue::Tag(t)@ == Value::Tag(t@),
        MarkerValue::Intensity(i)@ == Value::Intensity(i),
        MarkerValue::Id(t)@ == Value::Id(t@),
{
}

/// The settings and the status of a vault keep what they hold.
pub proof fn law_settings_keep_what_they_hold(c: Config, p: String)
    ensures
        c.vault_path matches Some(path) ==> c@.vault_path == Some(path@),
        c.vault_path is None ==> c@.vault_path is None,
        c@.version == c.version,
        c@.default_reminder_time == c.default_reminder_time@,
        VaultStatus::Ready(p)@ == StatusView::Ready(p@),
        VaultStatus::NotChosen@ is NotChosen,
        VaultStatus::Missing(p)@ == StatusView::Missing(p@),
        VaultStatus::NotWritable(p)@ == StatusView::NotWritable(p@),
        Loaded::NoPlace@ is NoPlace,
        Loaded::Missing@ is Missing,
        Loaded::Unreadable@ is Unreadable,
        Loaded::Corrupt@ is Corrupt,
        Loaded::Parsed(c)@ == LoadedView::Parsed(c@),
{
}

/// What a check found and what follows from it keep what they hold.
pub proof fn law_checks_keep_what_they_found(m: String, there: bool, version: i64, e: OpenError)
    ensures
        Probed::Exists(there)@ == ProbedView::Exists(there),
        Probed::Opened(Ok(()))@ == ProbedView::Opened(Ok(())),
        Probed::Opened(Err(m))@ == ProbedView::Opened(Err(m@)),
        Probed::Configured(Ok(()))@ == ProbedView::Configured(Ok(())),
        Probed::Configured(Err(m))@ == ProbedView::Configured(Err(m@)),
        Probed::Integrity(Ok(m))@ == ProbedView::Integrity(Ok(m@)),
        Probed::Integrity(Err(m))@ == ProbedView::Integrity(Err(m@)),
        Probed::WriteLock(Ok(()))@ == ProbedView::WriteLock(Ok(())),
        Probed::WriteLock(Err(m))@ == ProbedView::WriteLock(Err(m@)),
        Probed::Version(Ok(version))@ == ProbedView::Version(Ok(version as int)),
        Probed::Version(Err(m))@ == ProbedView::Version(Err(m@)),
        Probed::SchemaCreated(Ok(()))@ == ProbedView::SchemaCreated(Ok(())),
        Probed::SchemaCreated(Err(m))@ == ProbedView::SchemaCreated(Err(m@)),
        NextProbe::Open@ is Open,
        NextProbe::Configure@ is Configure,
        NextProbe::Integrity@ is Integrity,
        NextProbe::WriteLock@ is WriteLock,
        NextProbe::Version@ is Version,
        NextProbe::CreateSchema@ is CreateSchema,
        NextProbe::Ready@ is Ready,
        NextProbe::Fail(e)@ == NextView::Fail(e@),
        OpenError::Rebuild(m)@ == OpenErrorView::Rebuild(m@),
        OpenError::Locked(m)@ == OpenErrorView::Locked(m@),
{
}

} // verus!

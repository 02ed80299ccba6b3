//! The queue of changes that are not on disk yet.
//!
//! Changes are made in the order in which they came. One that fails for the time being is
//! tried again a few times; one that fails for good stays in the queue, out of the way of
//! the others, until the user has it tried again or gives it up.

use vstd::prelude::*;

use crate::actor::change::{
    clone_text, rejected, text_of, ChangeSet, ChangeSetView, Operation, OperationView, WriteError,
    WriteErrorView,
};
use crate::actor::lines::{already_appended, is_appended, law_appended_is_found, with_appended};

verus! {

/// How often a change is tried again before it is given up.
pub const MAX_RETRIES: i64 = 3;

/// How long to wait before a change is tried again.
pub const RETRY_DELAY_MS: u64 = 200;

/// A change in the queue.
#[derive(Debug)]
pub struct StoredRow {
    pub id: i64,
    pub file_path: String,
    /// The name of the operation.
    pub operation: String,
    /// The operation; nothing, where it cannot be read.
    pub op: Option<Operation>,
    pub base_hash: Option<String>,
    /// When the change was about to touch its file for the first time.
    pub attempted_at: Option<i64>,
    /// How often the change was tried again; less than zero, where it was given up.
    pub retries: i64,
    pub last_error: Option<String>,
    pub created_at: i64,
    pub updated_at: i64,
}

pub struct RowView {
    pub id: int,
    pub file_path: Seq<char>,
    pub operation: Seq<char>,
    pub op: Option<OperationView>,
    pub base_hash: Option<Seq<char>>,
    pub attempted_at: Option<int>,
    pub retries: int,
    pub last_error: Option<Seq<char>>,
    pub created_at: int,
    pub updated_at: int,
}

impl View for StoredRow {
    type V = RowView;

    open spec fn view(&self) -> RowView {
        RowView {
            id: self.id as int,
            file_path: self.file_path@,
            operation: self.operation@,
            op: match self.op {
                Some(op) => Some(op@),
                None => None,
            },
            base_hash: text_of(self.base_hash),
            attempted_at: match self.attempted_at {
                Some(t) => Some(t as int),
                None => None,
            },
            retries: self.retries as int,
            last_error: text_of(self.last_error),
            created_at: self.created_at as int,
            updated_at: self.updated_at as int,
        }
    }
}

pub open spec fn row_views(v: Seq<StoredRow>) -> Seq<RowView> {
    v.map_values(|r: StoredRow| r@)
}

/// The queue: its changes, and the last number that was given to one.
#[derive(Debug)]
pub struct WriteQueue {
    pub rows: Vec<StoredRow>,
    pub last_id: i64,
}

pub struct QueueView {
    pub rows: Seq<RowView>,
    pub last_id: int,
}

impl View for WriteQueue {
    type V = QueueView;

    open spec fn view(&self) -> QueueView {
        QueueView { rows: row_views(self.rows@), last_id: self.last_id as int }
    }
}

impl QueueView {
    /// The numbers of the changes grow, and none is above the last that was given.
    pub open spec fn well_formed(self) -> bool {
        &&& self.last_id >= 0
        &&& forall|k: int|
            0 <= k < self.rows.len() ==> 0 < (#[trigger] self.rows[k]).id <= self.last_id
        &&& forall|j: int, k: int|
            0 <= j < k < self.rows.len() ==> (#[trigger] self.rows[j]).id < (
            #[trigger] self.rows[k]).id
    }
}

/// A change that has been taken up.
#[derive(Debug)]
pub struct QueueRow {
    pub id: i64,
    pub cs: ChangeSet,
    pub retries: i64,
    /// Whether the change was about to touch its file before.
    pub attempted: bool,
}

pub struct JobView {
    pub id: int,
    pub cs: ChangeSetView,
    pub retries: int,
    pub attempted: bool,
}

impl View for QueueRow {
    type V = JobView;

    open spec fn view(&self) -> JobView {
        JobView {
            id: self.id as int,
            cs: self.cs@,
            retries: self.retries as int,
            attempted: self.attempted,
        }
    }
}

/// A change that was given up, as the user sees it.
#[derive(Debug, Clone, PartialEq, Eq)]
pub struct FailedWrite {
    pub id: i64,
    pub file: String,
    pub op: String,
    pub error: String,
    /// When it was given up.
    pub at: i64,
}

pub struct FailedView {
    pub id: int,
    pub file: Seq<char>,
    pub op: Seq<char>,
    pub error: Seq<char>,
    pub at: int,
}

impl View for FailedWrite {
    type V = FailedView;

    open spec fn view(&self) -> FailedView {
        FailedView {
            id: self.id as int,
            file: self.file@,
            op: self.op@,
            error: self.error@,
            at: self.at as int,
        }
    }
}

pub open spec fn failed_views(v: Seq<FailedWrite>) -> Seq<FailedView> {
    v.map_values(|f: FailedWrite| f@)
}

// ---------- Adding ----------

/// A change as it enters the queue.
pub open spec fn new_row(id: int, cs: ChangeSetView, now: int) -> RowView {
    RowView {
        id,
        file_path: cs.file_path,
        operation: cs.op.name(),
        op: Some(cs.op),
        base_hash: cs.base_hash,
        attempted_at: None,
        retries: 0,
        last_error: None,
        created_at: now,
        updated_at: now,
    }
}

/// The queue with one more change at its end.
pub open spec fn enqueued(q: QueueView, cs: ChangeSetView, now: int) -> QueueView {
    QueueView { rows: q.rows.push(new_row(q.last_id + 1, cs, now)), last_id: q.last_id + 1 }
}

impl WriteQueue {
    /// An empty queue.
    pub fn new() -> (r: WriteQueue)
        ensures
            r@.rows.len() == 0,
            r@.last_id == 0,
            r@.well_formed(),
    {
        WriteQueue { rows: Vec::new(), last_id: 0 }
    }

    /// A queue with given changes, if their numbers are in order.
    pub fn from_rows(rows: Vec<StoredRow>, last_id: i64) -> (r: Option<WriteQueue>)
        ensures
            ({
                let q = QueueView { rows: row_views(rows@), last_id: last_id as int };
                match r {
                    Some(queue) => q.well_formed() && queue@ == q,
                    None => !q.well_formed(),
                }
            }),
    {
        let ghost q = QueueView { rows: row_views(rows@), last_id: last_id as int };
        if last_id < 0 {
            return None;
        }
        let mut before: i64 = 0;
        let mut i: usize = 0;
        while i < rows.len()
            invariant
                i <= rows.len(),
                last_id >= 0,
                q == (QueueView { rows: row_views(rows@), last_id: last_id as int }),
                i == 0 ==> before == 0,
                i > 0 ==> before == rows[i - 1].id,
                forall|k: int| 0 <= k < i ==> 0 < (#[trigger] rows[k]).id <= last_id,
                forall|j: int, k: int|
                    0 <= j < k < i ==> (#[trigger] rows[j]).id < (#[trigger] rows[k]).id,
            decreases rows.len() - i,
        {
            assert(q.rows[i as int].id == rows[i as int].id);
            if rows[i].id <= before || rows[i].id > last_id {
                proof {
                    if i > 0 {
                        assert(q.rows[i - 1].id == rows[i - 1].id);
                    }
                }
                return None;
            }
            before = rows[i].id;
            i = i + 1;
        }
        Some(WriteQueue { rows, last_id })
    }
}

/// Puts a change at the end of the queue, and gives it a number.
pub fn enqueue_to_db(q: &mut WriteQueue, cs: &ChangeSet, now: i64) -> (id: i64)
    requires
        old(q)@.well_formed(),
        old(q)@.last_id < i64::MAX,
    ensures
        final(q)@ == enqueued(old(q)@, cs@, now as int),
        final(q)@.well_formed(),
        id == final(q)@.last_id,
{
    let ghost before = q@;
    let id: i64 = q.last_id + 1;
    let row: StoredRow = StoredRow {
        id,
        file_path: cs.file_path.clone(),
        operation: cs.op.name().to_string(),
        op: Some(cs.op.clone()),
        base_hash: clone_text(&cs.base_hash),
        attempted_at: None,
        retries: 0,
        last_error: None,
        created_at: now,
        updated_at: now,
    };
    q.rows.push(row);
    q.last_id = id;
    assert(q@.rows =~= enqueued(before, cs@, now as int).rows);
    id
}

// ---------- Taking out ----------

/// Which changes a removal concerns: the one with a number; or that one, where it was given
/// up.
pub open spec fn goes(r: RowView, id: int, failed_only: bool) -> bool {
    r.id == id && (failed_only ==> r.retries < 0)
}

/// The changes that a removal leaves.
pub open spec fn without(rows: Seq<RowView>, id: int, failed_only: bool) -> Seq<RowView>
    decreases rows.len(),
{
    if rows.len() == 0 {
        Seq::empty()
    } else {
        let before = without(rows.drop_last(), id, failed_only);
        if goes(rows.last(), id, failed_only) {
            before
        } else {
            before.push(rows.last())
        }
    }
}

/// Whether a change that was given up has a number.
pub open spec fn has_failed(rows: Seq<RowView>, id: int) -> bool {
    exists|k: int| 0 <= k < rows.len() && (#[trigger] rows[k]).id == id && rows[k].retries < 0
}

/// What a removal leaves are changes that were there, in their order.
pub proof fn lemma_without(q: QueueView, id: int, failed_only: bool)
    requires
        q.well_formed(),
    ensures
        ({
            let left = without(q.rows, id, failed_only);
            &&& (QueueView { rows: left, last_id: q.last_id }).well_formed()
            &&& left.len() <= q.rows.len()
            &&& forall|k: int|
                0 <= k < left.len() ==> q.rows.contains(#[trigger] left[k]) && !goes(
                    left[k],
                    id,
                    failed_only,
                )
            &&& forall|k: int|
                0 <= k < q.rows.len() && !goes(#[trigger] q.rows[k], id, failed_only)
                    ==> left.contains(q.rows[k])
        }),
    decreases q.rows.len(),
{
    let left = without(q.rows, id, failed_only);
    if q.rows.len() > 0 {
        let fewer = QueueView { rows: q.rows.drop_last(), last_id: q.last_id };
        let last = q.rows.last();
        let before = without(fewer.rows, id, failed_only);
        assert forall|k: int| 0 <= k < fewer.rows.len() implies 0 < (#[trigger] fewer.rows[k]).id
            <= fewer.last_id by {
            assert(fewer.rows[k] == q.rows[k]);
        }
        assert forall|j: int, k: int| 0 <= j < k < fewer.rows.len() implies (
        #[trigger] fewer.rows[j]).id < (#[trigger] fewer.rows[k]).id by {
            assert(fewer.rows[j] == q.rows[j] && fewer.rows[k] == q.rows[k]);
        }
        lemma_without(fewer, id, failed_only);
        assert(q.rows[q.rows.len() - 1] == last);
        assert forall|k: int| 0 <= k < before.len() implies q.rows.contains(#[trigger] before[k])
            && before[k].id < last.id by {
            let j = choose|j: int| 0 <= j < fewer.rows.len() && fewer.rows[j] == before[k];
            assert(q.rows[j] == before[k]);
        }
        assert forall|k: int| 0 <= k < left.len() implies q.rows.contains(#[trigger] left[k])
            && !goes(left[k], id, failed_only) && 0 < left[k].id <= q.last_id by {
            if k < before.len() {
                assert(left[k] == before[k]);
            }
        }
        assert forall|j: int, k: int| 0 <= j < k < left.len() implies (#[trigger] left[j]).id < (
        #[trigger] left[k]).id by {
            assert(left[j] == before[j]);
            if k < before.len() {
                assert(left[k] == before[k]);
            }
        }
        assert forall|k: int|
            0 <= k < q.rows.len() && !goes(#[trigger] q.rows[k], id, failed_only) implies left.contains(
            q.rows[k],
        ) by {
            if k < fewer.rows.len() {
                assert(fewer.rows[k] == q.rows[k]);
                let j = choose|j: int| 0 <= j < before.len() && before[j] == q.rows[k];
                assert(left[j] == q.rows[k]);
            } else {
                assert(left[left.len() - 1] == q.rows[k]);
            }
        }
    }
}

/// Takes a change out of the queue. Gives back whether there was one.
fn remove_rows(q: &mut WriteQueue, id: i64, failed_only: bool) -> (found: bool)
    requires
        old(q)@.well_formed(),
    ensures
        final(q)@ == (QueueView {
            rows: without(old(q)@.rows, id as int, failed_only),
            last_id: old(q)@.last_id,
        }),
        final(q)@.well_formed(),
        found == exists|k: int|
            0 <= k < old(q)@.rows.len() && #[trigger] goes(
                old(q)@.rows[k],
                id as int,
                failed_only,
            ),
{
    let ghost before = q@;
    let ghost mut seen: int = 0;
    let mut found: bool = false;
    let mut i: usize = 0;
    assert(q@.rows =~= without(before.rows.take(0), id as int, failed_only) + before.rows.skip(0));
    while i < q.rows.len()
        invariant
            q.last_id == before.last_id,
            0 <= seen <= before.rows.len(),
            i == without(before.rows.take(seen), id as int, failed_only).len(),
            q@.rows == without(before.rows.take(seen), id as int, failed_only)
                + before.rows.skip(seen),
            found == exists|k: int|
                0 <= k < seen && #[trigger] goes(before.rows[k], id as int, failed_only),
        decreases q.rows.len() - i,
    {
        let ghost rows = q@.rows;
        proof {
            assert(rows[i as int] == before.rows[seen]);
            assert(q.rows[i as int]@ == before.rows[seen]);
            assert(before.rows.take(seen + 1).drop_last() =~= before.rows.take(seen));
            assert(before.rows.take(seen + 1).last() == before.rows[seen]);
        }
        if q.rows[i].id == id && (!failed_only || q.rows[i].retries < 0) {
            let _ = q.rows.remove(i);
            proof {
                assert(goes(before.rows[seen], id as int, failed_only));
                assert(q@.rows =~= rows.remove(i as int));
                assert(q@.rows =~= without(before.rows.take(seen + 1), id as int, failed_only)
                    + before.rows.skip(seen + 1));
            }
            found = true;
        } else {
            proof {
                assert(!goes(before.rows[seen], id as int, failed_only));
                assert(q@.rows =~= without(before.rows.take(seen + 1), id as int, failed_only)
                    + before.rows.skip(seen + 1));
            }
            i = i + 1;
        }
        proof {
            seen = seen + 1;
        }
    }
    proof {
        lemma_without(before, id as int, failed_only);
        assert(before.rows.take(seen) =~= before.rows);
        assert(q@.rows =~= without(before.rows, id as int, failed_only));
    }
    found
}

/// Takes a change out of the queue.
fn delete_row(q: &mut WriteQueue, id: i64)
    requires
        old(q)@.well_formed(),
    ensures
        final(q)@ == (QueueView {
            rows: without(old(q)@.rows, id as int, false),
            last_id: old(q)@.last_id,
        }),
        final(q)@.well_formed(),
{
    let _ = remove_rows(q, id, false);
}

/// Takes a change out of the queue that was given up, and no other. Gives back whether
/// there was one.
pub fn discard_failed(q: &mut WriteQueue, id: i64) -> (found: bool)
    requires
        old(q)@.well_formed(),
    ensures
        final(q)@ == (QueueView {
            rows: without(old(q)@.rows, id as int, true),
            last_id: old(q)@.last_id,
        }),
        final(q)@.well_formed(),
        found == has_failed(old(q)@.rows, id as int),
{
    let ghost before = q@;
    let found: bool = remove_rows(q, id, true);
    proof {
        if found {
            let k = choose|k: int|
                0 <= k < before.rows.len() && #[trigger] goes(before.rows[k], id as int, true);
            assert(before.rows[k].id == id && before.rows[k].retries < 0);
        }
        if has_failed(before.rows, id as int) {
            let k = choose|k: int|
                0 <= k < before.rows.len() && (#[trigger] before.rows[k]).id == id
                    && before.rows[k].retries < 0;
            assert(goes(before.rows[k], id as int, true));
        }
    }
    found
}

// ---------- Marking ----------

/// What is noted of a change.
enum Mark<'a> {
    /// It is about to touch its file.
    Attempted,
    /// It failed for the time being.
    Retried(&'a str),
    /// It failed for good.
    Failed(&'a str),
    /// It is to be tried again, though it was given up.
    Reset,
}

pub enum MarkView {
    Attempted,
    Retried(Seq<char>),
    Failed(Seq<char>),
    Reset,
}

impl Mark<'_> {
    spec fn noted(&self) -> MarkView {
        match self {
            Mark::Attempted => MarkView::Attempted,
            Mark::Retried(m) => MarkView::Retried(m@),
            Mark::Failed(m) => MarkView::Failed(m@),
            Mark::Reset => MarkView::Reset,
        }
    }
}

/// Which changes a mark concerns: the one with a number; a reset only where it was given
/// up.
pub open spec fn concerns(r: RowView, id: int, mark: MarkView) -> bool {
    r.id == id && (mark is Reset ==> r.retries < 0)
}

/// A change with a mark.
pub open spec fn marked(r: RowView, mark: MarkView, now: int) -> RowView {
    match mark {
        MarkView::Attempted => RowView { attempted_at: Some(now), updated_at: now, ..r },
        MarkView::Retried(m) => RowView {
            retries: r.retries + 1,
            last_error: Some(m),
            updated_at: now,
            ..r
        },
        MarkView::Failed(m) => RowView {
            retries: -1,
            last_error: Some(m),
            updated_at: now,
            ..r
        },
        MarkView::Reset => RowView { retries: 0, last_error: None, updated_at: now, ..r },
    }
}

/// The changes of a queue after one was marked.
pub open spec fn with_mark(rows: Seq<RowView>, id: int, mark: MarkView, now: int) -> Seq<RowView> {
    rows.map_values(
        |r: RowView|
            if concerns(r, id, mark) {
                marked(r, mark, now)
            } else {
                r
            },
    )
}

/// Marks one change.
fn mark_row(row: &mut StoredRow, mark: &Mark<'_>, now: i64)
    requires
        mark is Retried ==> old(row).retries < i64::MAX,
    ensures
        final(row)@ == marked(old(row)@, mark.noted(), now as int),
{
    row.updated_at = now;
    match mark {
        Mark::Attempted => {
            row.attempted_at = Some(now);
        },
        Mark::Retried(m) => {
            row.retries = row.retries + 1;
            row.last_error = Some((*m).to_string());
        },
        Mark::Failed(m) => {
            row.retries = -1;
            row.last_error = Some((*m).to_string());
        },
        Mark::Reset => {
            row.retries = 0;
            row.last_error = None;
        },
    }
}

/// Marks a change of the queue. Gives back whether there was one.
fn mark_rows(q: &mut WriteQueue, id: i64, mark: &Mark<'_>, now: i64) -> (found: bool)
    requires
        old(q)@.well_formed(),
        forall|k: int|
            0 <= k < old(q).rows.len() && mark is Retried && (#[trigger] old(q).rows[k]).id == id
                ==> old(q).rows[k].retries < i64::MAX,
    ensures
        final(q)@ == (QueueView {
            rows: with_mark(old(q)@.rows, id as int, mark.noted(), now as int),
            last_id: old(q)@.last_id,
        }),
        final(q)@.well_formed(),
        found == exists|k: int|
            0 <= k < old(q)@.rows.len() && #[trigger] concerns(
                old(q)@.rows[k],
                id as int,
                mark.noted(),
            ),
{
    let ghost before = q@;
    let ghost stored = q.rows@;
    let ghost after = with_mark(before.rows, id as int, mark.noted(), now as int);
    let mut found: bool = false;
    let mut i: usize = 0;
    assert(q@.rows =~= after.take(0) + before.rows.skip(0));
    while i < q.rows.len()
        invariant
            i <= q.rows.len() == before.rows.len(),
            stored.len() == before.rows.len(),
            before.rows == row_views(stored),
            q.last_id == before.last_id,
            after == with_mark(before.rows, id as int, mark.noted(), now as int),
            q@.rows == after.take(i as int) + before.rows.skip(i as int),
            forall|k: int| i <= k < q.rows.len() ==> #[trigger] q.rows[k] == stored[k],
            forall|k: int|
                0 <= k < stored.len() && mark is Retried && (#[trigger] stored[k]).id == id
                    ==> stored[k].retries < i64::MAX,
            found == exists|k: int|
                0 <= k < i && #[trigger] concerns(before.rows[k], id as int, mark.noted()),
        decreases q.rows.len() - i,
    {
        let ghost rows = q@.rows;
        assert(q.rows[i as int] == stored[i as int]);
        assert(stored[i as int]@ == before.rows[i as int]);
        let only_failed: bool = matches!(mark, Mark::Reset);
        if q.rows[i].id == id && (!only_failed || q.rows[i].retries < 0) {
            assert(concerns(before.rows[i as int], id as int, mark.noted()));
            mark_row(&mut q.rows[i], mark, now);
            found = true;
            assert(q@.rows =~= rows.update(i as int, after[i as int]));
        } else {
            assert(!concerns(before.rows[i as int], id as int, mark.noted()));
        }
        assert(q@.rows =~= after.take(i + 1) + before.rows.skip(i + 1));
        i = i + 1;
    }
    proof {
        assert(q@.rows =~= after);
        assert forall|k: int| 0 <= k < after.len() implies (#[trigger] after[k]).id
            == before.rows[k].id by {}
    }
    found
}

/// Has a change tried again that was given up, and no other. Gives back whether there was
/// one.
pub fn reset_failed(q: &mut WriteQueue, id: i64, now: i64) -> (found: bool)
    requires
        old(q)@.well_formed(),
    ensures
        final(q)@ == (QueueView {
            rows: with_mark(old(q)@.rows, id as int, MarkView::Reset, now as int),
            last_id: old(q)@.last_id,
        }),
        final(q)@.well_formed(),
        found == has_failed(old(q)@.rows, id as int),
{
    let ghost before = q@;
    let found: bool = mark_rows(q, id, &Mark::Reset, now);
    proof {
        if found {
            let k = choose|k: int|
                0 <= k < before.rows.len() && #[trigger] concerns(
                    before.rows[k],
                    id as int,
                    MarkView::Reset,
                );
            assert(before.rows[k].id == id && before.rows[k].retries < 0);
        }
        if has_failed(before.rows, id as int) {
            let k = choose|k: int|
                0 <= k < before.rows.len() && (#[trigger] before.rows[k]).id == id
                    && before.rows[k].retries < 0;
            assert(concerns(before.rows[k], id as int, MarkView::Reset));
        }
    }
    found
}

// ---------- Listing ----------

/// What the user sees of a change that was given up.
pub open spec fn failed_view(r: RowView) -> FailedView {
    FailedView {
        id: r.id,
        file: r.file_path,
        op: r.operation,
        error: match r.last_error {
            Some(m) => m,
            None => "未知原因"@,
        },
        at: r.updated_at,
    }
}

/// The changes that were given up, in their order.
pub open spec fn failed_rows(rows: Seq<RowView>) -> Seq<FailedView>
    decreases rows.len(),
{
    if rows.len() == 0 {
        Seq::empty()
    } else {
        let before = failed_rows(rows.drop_last());
        if rows.last().retries < 0 {
            before.push(failed_view(rows.last()))
        } else {
            before
        }
    }
}

/// Lists the changes that were given up.
pub fn list_failed(q: &WriteQueue) -> (r: Vec<FailedWrite>)
    ensures
        failed_views(r@) == failed_rows(q@.rows),
{
    let mut r: Vec<FailedWrite> = Vec::new();
    let mut i: usize = 0;
    assert(failed_views(r@) =~= failed_rows(q@.rows.take(0)));
    while i < q.rows.len()
        invariant
            i <= q.rows.len(),
            failed_views(r@) == failed_rows(q@.rows.take(i as int)),
        decreases q.rows.len() - i,
    {
        let row: &StoredRow = &q.rows[i];
        proof {
            assert(q@.rows.take(i + 1).drop_last() =~= q@.rows.take(i as int));
            assert(q@.rows.take(i + 1).last() == row@);
        }
        if row.retries < 0 {
            let ghost before = failed_views(r@);
            let error: String = match &row.last_error {
                Some(m) => m.clone(),
                None => "未知原因".to_string(),
            };
            r.push(
                FailedWrite {
                    id: row.id,
                    file: row.file_path.clone(),
                    op: row.operation.clone(),
                    error,
                    at: row.updated_at,
                },
            );
            assert(failed_views(r@) =~= before.push(failed_view(row@)));
        }
        i = i + 1;
    }
    assert(q@.rows.take(i as int) =~= q@.rows);
    r
}

// ---------- Making the changes ----------

/// The first change of the queue that was not given up.
pub open spec fn first_pending(rows: Seq<RowView>) -> Option<int>
    decreases rows.len(),
{
    if rows.len() == 0 {
        None
    } else {
        match first_pending(rows.drop_last()) {
            Some(k) => Some(k),
            None => if rows.last().retries >= 0 {
                Some(rows.len() - 1)
            } else {
                None
            },
        }
    }
}

/// What [`first_pending`] finds.
pub proof fn lemma_first_pending(rows: Seq<RowView>)
    ensures
        match first_pending(rows) {
            Some(k) => 0 <= k < rows.len() && rows[k].retries >= 0 && forall|j: int|
                0 <= j < k ==> (#[trigger] rows[j]).retries < 0,
            None => forall|j: int| 0 <= j < rows.len() ==> (#[trigger] rows[j]).retries < 0,
        },
    decreases rows.len(),
{
    if rows.len() > 0 {
        let fewer = rows.drop_last();
        lemma_first_pending(fewer);
        assert forall|j: int| 0 <= j < fewer.len() implies #[trigger] fewer[j] == rows[j] by {}
        match first_pending(fewer) {
            Some(k) => {
                assert forall|j: int| 0 <= j < k implies (#[trigger] rows[j]).retries < 0 by {
                    assert(fewer[j].retries < 0);
                }
            },
            None => {
                assert forall|j: int| 0 <= j < rows.len() - 1 implies (#[trigger] rows[j]).retries
                    < 0 by {
                    assert(fewer[j].retries < 0);
                }
            },
        }
    }
}

/// A change of the queue as it is taken up.
pub open spec fn job_of(r: RowView, op: OperationView) -> JobView {
    JobView {
        id: r.id,
        cs: ChangeSetView { file_path: r.file_path, op, base_hash: r.base_hash },
        retries: r.retries,
        attempted: r.attempted_at is Some,
    }
}

/// What a removal leaves is no more than what was there, and less where it concerns a
/// change.
pub proof fn lemma_without_len(rows: Seq<RowView>, id: int, failed_only: bool)
    ensures
        without(rows, id, failed_only).len() <= rows.len(),
        (exists|k: int| 0 <= k < rows.len() && #[trigger] goes(rows[k], id, failed_only))
            ==> without(rows, id, failed_only).len() < rows.len(),
    decreases rows.len(),
{
    if rows.len() > 0 {
        let fewer = rows.drop_last();
        lemma_without_len(fewer, id, failed_only);
        if exists|k: int| 0 <= k < rows.len() && #[trigger] goes(rows[k], id, failed_only) {
            let k = choose|k: int|
                0 <= k < rows.len() && #[trigger] goes(rows[k], id, failed_only);
            if k < fewer.len() {
                assert(goes(fewer[k], id, failed_only));
            }
        }
    }
}

/// The queue without a change.
pub open spec fn dropped(q: QueueView, id: int) -> QueueView {
    QueueView { rows: without(q.rows, id, false), last_id: q.last_id }
}

/// The change that is next, and the queue after it was looked for: those before it that
/// cannot be read are dropped.
pub open spec fn pending(q: QueueView) -> (QueueView, Option<JobView>)
    decreases q.rows.len(),
{
    match first_pending(q.rows) {
        None => (q, None),
        Some(k) => match q.rows[k].op {
            Some(op) => (q, Some(job_of(q.rows[k], op))),
            None => {
                proof {
                    lemma_first_pending(q.rows);
                    assert(goes(q.rows[k], q.rows[k].id, false));
                    lemma_without_len(q.rows, q.rows[k].id, false);
                }
                pending(dropped(q, q.rows[k].id))
            },
        },
    }
}

/// Whether a change waits to be made.
pub open spec fn waits(r: RowView) -> bool {
    r.retries >= 0 && r.op is Some
}

/// What [`pending`] finds: nothing only where no change is left that was not given up;
/// otherwise the first such change, which can be read. Nothing is dropped but changes that
/// cannot be read.
pub proof fn lemma_pending(q: QueueView)
    requires
        q.well_formed(),
    ensures
        ({
            let (after, job) = pending(q);
            &&& after.well_formed()
            &&& after.last_id == q.last_id
            &&& pending(after) == (after, job)
            &&& match job {
                None => first_pending(after.rows) is None && forall|k: int|
                    0 <= k < after.rows.len() ==> (#[trigger] after.rows[k]).retries < 0,
                Some(job) => {
                    &&& first_pending(after.rows) matches Some(i) && 0 <= i < after.rows.len()
                        && waits(after.rows[i]) && job == job_of(
                        after.rows[i],
                        after.rows[i].op.unwrap(),
                    )
                    &&& still_holds(after, job)
                },
            }
            &&& forall|k: int|
                0 <= k < after.rows.len() ==> q.rows.contains(#[trigger] after.rows[k])
            &&& forall|k: int|
                0 <= k < q.rows.len() && (waits(#[trigger] q.rows[k]) || q.rows[k].retries < 0)
                    ==> after.rows.contains(q.rows[k])
        }),
    decreases q.rows.len(),
{
    lemma_first_pending(q.rows);
    if first_pending(q.rows) is Some {
        let i = first_pending(q.rows).unwrap();
        if q.rows[i].op is None {
            let id = q.rows[i].id;
            let fewer = dropped(q, id);
            assert(goes(q.rows[i], id, false));
            lemma_without_len(q.rows, id, false);
            lemma_without(q, id, false);
            lemma_pending(fewer);
            let after = pending(q).0;
            assert forall|k: int| 0 <= k < after.rows.len() implies q.rows.contains(
                #[trigger] after.rows[k],
            ) by {
                let j = choose|j: int| 0 <= j < fewer.rows.len() && fewer.rows[j] == after.rows[k];
                assert(q.rows.contains(fewer.rows[j]));
            }
            assert forall|k: int|
                0 <= k < q.rows.len() && (waits(#[trigger] q.rows[k]) || q.rows[k].retries < 0) implies after.rows.contains(
                q.rows[k],
            ) by {
                assert(q.rows[k].id != id) by {
                    if k < i {
                        assert(q.rows[k].id < q.rows[i].id);
                    } else if i < k {
                        assert(q.rows[i].id < q.rows[k].id);
                    }
                }
                assert(!goes(q.rows[k], id, false));
                assert(fewer.rows.contains(q.rows[k]));
                let j = choose|j: int| 0 <= j < fewer.rows.len() && fewer.rows[j] == q.rows[k];
                assert(waits(fewer.rows[j]) || fewer.rows[j].retries < 0);
            }
        } else {
            let job = pending(q).1.unwrap();
            assert forall|k: int| 0 <= k < q.rows.len() && (#[trigger] q.rows[k]).id == job.id implies q.rows[k].retries
                == job.retries by {
                if k < i {
                    assert(q.rows[k].id < q.rows[i].id);
                } else if i < k {
                    assert(q.rows[i].id < q.rows[k].id);
                }
            }
        }
    }
}

/// Finds the change that is next, and drops those before it that cannot be read.
fn next_pending(q: &mut WriteQueue) -> (r: Option<QueueRow>)
    requires
        old(q)@.well_formed(),
    ensures
        final(q)@ == pending(old(q)@).0,
        final(q)@.well_formed(),
        match r {
            Some(row) => pending(old(q)@).1 == Some(row@),
            None => pending(old(q)@).1 is None,
        },
{
    loop
        invariant
            q@.well_formed(),
            pending(q@) == pending(old(q)@),
        decreases q.rows.len(),
    {
        let i: usize = find_pending(q);
        if i >= q.rows.len() {
            return None;
        }
        let row: &StoredRow = &q.rows[i];
        assert(q@.rows[i as int] == row@);
        match &row.op {
            Some(op) => {
                return Some(
                    QueueRow {
                        id: row.id,
                        cs: ChangeSet {
                            file_path: row.file_path.clone(),
                            op: op.clone(),
                            base_hash: clone_text(&row.base_hash),
                        },
                        retries: row.retries,
                        attempted: row.attempted_at.is_some(),
                    },
                );
            },
            None => {
                let id: i64 = row.id;
                proof {
                    assert(goes(q@.rows[i as int], id as int, false));
                    lemma_without_len(q@.rows, id as int, false);
                }
                delete_row(q, id);
            },
        }
    }
}

/// The number of the first change that was not given up; that of the changes, where there
/// is none.
fn find_pending(q: &WriteQueue) -> (i: usize)
    ensures
        i <= q.rows.len(),
        first_pending(q@.rows) == (if i < q.rows.len() {
            Some(i as int)
        } else {
            None
        }),
{
    let mut i: usize = 0;
    while i < q.rows.len() && q.rows[i].retries < 0
        invariant
            i <= q.rows.len(),
            forall|k: int| 0 <= k < i ==> (#[trigger] q@.rows[k]).retries < 0,
        decreases q.rows.len() - i,
    {
        assert(q@.rows[i as int] == q.rows[i as int]@);
        i = i + 1;
    }
    proof {
        lemma_first_pending(q@.rows);
        if i < q.rows.len() {
            assert(q@.rows[i as int] == q.rows[i as int]@);
        }
    }
    i
}

/// What is to be done next.
#[derive(Debug)]
pub enum Begun {
    /// Nothing: no change is left.
    Empty,
    /// Look whether the lines of this change are in the file already.
    Check(QueueRow),
    /// Make this change.
    Write(QueueRow),
}

pub enum BegunView {
    Empty,
    Check(JobView),
    Write(JobView),
}

impl View for Begun {
    type V = BegunView;

    open spec fn view(&self) -> BegunView {
        match self {
            Begun::Empty => BegunView::Empty,
            Begun::Check(row) => BegunView::Check(row@),
            Begun::Write(row) => BegunView::Write(row@),
        }
    }
}

/// What is to be done next, and the queue before it is done. Added lines would stand there
/// twice if they were added again, so it is noted of them first that they are about to be
/// added; where that was noted before, the file decides whether they are there.
pub open spec fn begun(q: QueueView, now: int) -> (QueueView, BegunView) {
    let (after, job) = pending(q);
    match job {
        None => (after, BegunView::Empty),
        Some(job) => if !(job.cs.op is Append) {
            (after, BegunView::Write(job))
        } else if job.attempted {
            (after, BegunView::Check(job))
        } else {
            (
                QueueView {
                    rows: with_mark(after.rows, job.id, MarkView::Attempted, now),
                    last_id: after.last_id,
                },
                BegunView::Write(job),
            )
        },
    }
}

/// Whether a change is in the queue as it was taken up, or not at all.
pub open spec fn still_holds(q: QueueView, job: JobView) -> bool {
    forall|k: int|
        0 <= k < q.rows.len() && (#[trigger] q.rows[k]).id == job.id ==> q.rows[k].retries
            == job.retries
}

/// Takes up the next change.
pub fn begin(q: &mut WriteQueue, now: i64) -> (r: Begun)
    requires
        old(q)@.well_formed(),
    ensures
        final(q)@ == begun(old(q)@, now as int).0,
        r@ == begun(old(q)@, now as int).1,
        final(q)@.well_formed(),
        match r {
            Begun::Empty => forall|k: int|
                0 <= k < final(q)@.rows.len() ==> (#[trigger] final(q)@.rows[k]).retries < 0,
            Begun::Check(row) => still_holds(final(q)@, row@),
            Begun::Write(row) => still_holds(final(q)@, row@),
        },
{
    proof {
        lemma_pending(q@);
    }
    let row: QueueRow = match next_pending(q) {
        Some(row) => row,
        None => {
            return Begun::Empty;
        },
    };
    let ghost before = q@;
    let is_append: bool = matches!(row.cs.op, Operation::Append { .. });
    if !is_append {
        return Begun::Write(row);
    }
    if row.attempted {
        return Begun::Check(row);
    }
    let _ = mark_rows(q, row.id, &Mark::Attempted, now);
    assert(still_holds(q@, row@)) by {
        assert forall|k: int| 0 <= k < q@.rows.len() && (#[trigger] q@.rows[k]).id == row@.id implies q@.rows[k].retries
            == row@.retries by {
            assert(before.rows[k].id == row@.id);
        }
    }
    Begun::Write(row)
}

/// What is to be done with lines of which it was noted that they are about to be added.
#[derive(Debug)]
pub enum Resumed {
    /// Nothing: they are in the file.
    Done(ChangeSet),
    /// Add them.
    Write(QueueRow),
}

pub enum ResumedView {
    Done(ChangeSetView),
    Write(JobView),
}

impl View for Resumed {
    type V = ResumedView;

    open spec fn view(&self) -> ResumedView {
        match self {
            Resumed::Done(cs) => ResumedView::Done(cs@),
            Resumed::Write(row) => ResumedView::Write(row@),
        }
    }
}

/// What reading a file gave: its content, nothing where it does not exist, or an error.
pub open spec fn read_view(r: Result<Option<String>, WriteError>) -> Result<
    Option<Seq<char>>,
    WriteErrorView,
> {
    match r {
        Ok(content) => Ok(text_of(content)),
        Err(e) => Err(e@),
    }
}

/// Whether a file that was read ends with the lines that a change adds. A file that cannot
/// be read does not count: lines that stand there twice are better than lines that are
/// lost.
pub open spec fn found_in(
    op: OperationView,
    current: Result<Option<Seq<char>>, WriteErrorView>,
) -> bool {
    match (op, current) {
        (OperationView::Append { content }, Ok(text)) => is_appended(text, content),
        _ => false,
    }
}

/// What is to be done with a change after its file was looked at, and the queue then.
pub open spec fn resumed(
    q: QueueView,
    job: JobView,
    current: Result<Option<Seq<char>>, WriteErrorView>,
) -> (QueueView, ResumedView) {
    if found_in(job.cs.op, current) {
        (
            QueueView { rows: without(q.rows, job.id, false), last_id: q.last_id },
            ResumedView::Done(job.cs),
        )
    } else {
        (q, ResumedView::Write(job))
    }
}

/// Goes on with a change after its file was looked at.
pub fn resume(q: &mut WriteQueue, row: QueueRow, current: Result<Option<String>, WriteError>) -> (r:
    Resumed)
    requires
        old(q)@.well_formed(),
    ensures
        final(q)@ == resumed(old(q)@, row@, read_view(current)).0,
        r@ == resumed(old(q)@, row@, read_view(current)).1,
        final(q)@.well_formed(),
{
    let found: bool = match (&row.cs.op, &current) {
        (Operation::Append { content }, Ok(text)) => match text {
            Some(s) => already_appended(Some(s.as_str()), content.as_str()),
            None => false,
        },
        _ => false,
    };
    if found {
        delete_row(q, row.id);
        Resumed::Done(row.cs)
    } else {
        Resumed::Write(row)
    }
}

/// How a change ended.
#[derive(Debug)]
pub enum Step {
    /// There was none.
    Empty,
    /// It is on disk.
    Done(ChangeSet),
    /// It failed, and will be tried again.
    Retrying,
    /// It failed, and was given up; it stays in the queue.
    Failed(ChangeSet, String),
}

pub enum StepView {
    Empty,
    Done(ChangeSetView),
    Retrying,
    Failed(ChangeSetView, Seq<char>),
}

impl View for Step {
    type V = StepView;

    open spec fn view(&self) -> StepView {
        match self {
            Step::Empty => StepView::Empty,
            Step::Done(cs) => StepView::Done(cs@),
            Step::Retrying => StepView::Retrying,
            Step::Failed(cs, m) => StepView::Failed(cs@, m@),
        }
    }
}

impl Step {
    /// Whether the next change is taken up at once. After one that was given up it is not:
    /// the next may concern the same file, and its failure would hide the first.
    pub fn goes_on(&self) -> (r: bool)
        ensures
            r == (self@ is Done || self@ is Retrying),
    {
        match self {
            Step::Empty => false,
            Step::Done(_) => true,
            Step::Retrying => true,
            Step::Failed(..) => false,
        }
    }
}

/// How an attempt ended.
pub open spec fn outcome_view(r: Result<(), WriteError>) -> Result<(), WriteErrorView> {
    match r {
        Ok(_) => Ok(()),
        Err(e) => Err(e@),
    }
}

/// How a change ended, and the queue then.
pub open spec fn finished(
    q: QueueView,
    job: JobView,
    outcome: Result<(), WriteErrorView>,
    now: int,
) -> (QueueView, StepView) {
    match outcome {
        Ok(_) => (
            QueueView { rows: without(q.rows, job.id, false), last_id: q.last_id },
            StepView::Done(job.cs),
        ),
        Err(e) => if e is Retryable && job.retries < MAX_RETRIES {
            (
                QueueView {
                    rows: with_mark(q.rows, job.id, MarkView::Retried(e.message()), now),
                    last_id: q.last_id,
                },
                StepView::Retrying,
            )
        } else {
            (
                QueueView {
                    rows: with_mark(q.rows, job.id, MarkView::Failed(e.message()), now),
                    last_id: q.last_id,
                },
                StepView::Failed(job.cs, e.message()),
            )
        },
    }
}

/// Notes how an attempt at a change ended.
pub fn finish(q: &mut WriteQueue, row: QueueRow, outcome: Result<(), WriteError>, now: i64) -> (r:
    Step)
    requires
        old(q)@.well_formed(),
        still_holds(old(q)@, row@),
    ensures
        final(q)@ == finished(old(q)@, row@, outcome_view(outcome), now as int).0,
        r@ == finished(old(q)@, row@, outcome_view(outcome), now as int).1,
        final(q)@.well_formed(),
{
    let e: WriteError = match outcome {
        Ok(_) => {
            delete_row(q, row.id);
            return Step::Done(row.cs);
        },
        Err(e) => e,
    };
    let again: bool = matches!(e, WriteError::Retryable(_)) && row.retries < MAX_RETRIES;
    if again {
        proof {
            assert forall|k: int|
                0 <= k < q.rows.len() && (#[trigger] q.rows[k]).id == row.id implies q.rows[k].retries
                < i64::MAX by {
                assert(q@.rows[k] == q.rows[k]@);
            }
        }
        let _ = mark_rows(q, row.id, &Mark::Retried(e.message().as_str()), now);
        Step::Retrying
    } else {
        let _ = mark_rows(q, row.id, &Mark::Failed(e.message().as_str()), now);
        let m: String = e.message().clone();
        Step::Failed(row.cs, m)
    }
}

/// What the user is told of an attempt that broke off.
pub fn broken_off() -> (r: WriteError)
    ensures
        r@ == WriteErrorView::Rejected("处理该变更时发生内部错误（panic）"@),
{
    rejected("处理该变更时发生内部错误（panic）")
}

// ---------- Laws ----------

/// The change that is next was not given up, and came before all others that wait.
pub proof fn law_first_come_first_served(q: QueueView, k: int)
    requires
        q.well_formed(),
        0 <= k < q.rows.len(),
        waits(q.rows[k]),
    ensures
        pending(q).1 matches Some(job) && job.id <= q.rows[k].id && job.retries >= 0,
{
    lemma_pending(q);
    let after = pending(q).0;
    let j = choose|j: int| 0 <= j < after.rows.len() && after.rows[j] == q.rows[k];
    lemma_first_pending(after.rows);
    let i = first_pending(after.rows).unwrap();
    if j < i {
        assert(after.rows[j].retries < 0);
    } else if i < j {
        assert(after.rows[i].id < after.rows[j].id);
    }
}

/// The queue counts as empty exactly where no change waits in it; only changes that were
/// given up are left then.
pub proof fn law_empty_means_empty(q: QueueView, now: int)
    requires
        q.well_formed(),
    ensures
        begun(q, now).1 is Empty <==> (forall|k: int|
            0 <= k < q.rows.len() ==> !waits(#[trigger] q.rows[k])),
        begun(q, now).1 is Empty ==> (forall|k: int|
            0 <= k < begun(q, now).0.rows.len() ==> (#[trigger] begun(q, now).0.rows[k]).retries
                < 0),
{
    lemma_pending(q);
    let (after, job) = pending(q);
    if job is None {
        assert forall|k: int| 0 <= k < q.rows.len() implies !waits(#[trigger] q.rows[k]) by {
            if waits(q.rows[k]) {
                law_first_come_first_served(q, k);
            }
        }
    } else {
        let i = first_pending(after.rows).unwrap();
        let k = choose|k: int| 0 <= k < q.rows.len() && q.rows[k] == after.rows[i];
        assert(waits(q.rows[k]));
    }
}

/// A change that enters the queue goes behind the others: it is next only where no other
/// one waits.
pub proof fn law_new_changes_wait(q: QueueView, cs: ChangeSetView, now: int)
    requires
        q.well_formed(),
    ensures
        pending(q).1 is Some ==> pending(enqueued(q, cs, now)).1 == pending(q).1,
        pending(q).1 is None ==> pending(enqueued(q, cs, now)).1 == Some(
            job_of(new_row(q.last_id + 1, cs, now), cs.op),
        ),
    decreases q.rows.len(),
{
    let new = enqueued(q, cs, now);
    lemma_first_pending(q.rows);
    assert(new.rows.drop_last() =~= q.rows);
    if first_pending(q.rows) is Some {
        let k = first_pending(q.rows).unwrap();
        let id = q.rows[k].id;
        assert(new.rows[k] == q.rows[k]);
        if q.rows[k].op is None {
            assert(goes(q.rows[k], id, false));
            lemma_without_len(q.rows, id, false);
            lemma_without(q, id, false);
            law_new_changes_wait(dropped(q, id), cs, now);
            assert(dropped(new, id) == enqueued(dropped(q, id), cs, now));
        }
    }
}

/// Taking up a change leaves all others as they are, but for those that cannot be read.
pub proof fn law_begin_leaves_the_others(q: QueueView, now: int, k: int)
    requires
        q.well_formed(),
        0 <= k < q.rows.len(),
        waits(q.rows[k]) || q.rows[k].retries < 0,
        pending(q).1 matches Some(job) ==> job.id != q.rows[k].id,
    ensures
        begun(q, now).0.rows.contains(q.rows[k]),
{
    lemma_pending(q);
    let after = pending(q).0;
    let j = choose|j: int| 0 <= j < after.rows.len() && after.rows[j] == q.rows[k];
    assert(begun(q, now).0.rows[j] == q.rows[k]);
}

/// Ending a change leaves all others as they are.
pub proof fn law_finish_leaves_the_others(
    q: QueueView,
    job: JobView,
    outcome: Result<(), WriteErrorView>,
    now: int,
    k: int,
)
    requires
        q.well_formed(),
        0 <= k < q.rows.len(),
        q.rows[k].id != job.id,
    ensures
        finished(q, job, outcome, now).0.rows.contains(q.rows[k]),
{
    match outcome {
        Ok(_) => {
            lemma_without(q, job.id, false);
            assert(!goes(q.rows[k], job.id, false));
        },
        Err(_) => {
            assert(finished(q, job, outcome, now).0.rows[k] == q.rows[k]);
        },
    }
}

/// A change that is not on disk stays in the queue: tried again, or given up.
pub proof fn law_failures_are_kept(
    q: QueueView,
    job: JobView,
    error: WriteErrorView,
    now: int,
    k: int,
)
    requires
        0 <= k < q.rows.len(),
        q.rows[k].id == job.id,
    ensures
        ({
            let (after, step) = finished(q, job, Err(error), now);
            let row = after.rows[k];
            &&& after.rows.len() == q.rows.len()
            &&& row.id == job.id
            &&& row.op == q.rows[k].op
            &&& row.last_error == Some(error.message())
            &&& step is Retrying ==> row.retries == q.rows[k].retries + 1
            &&& step is Failed ==> row.retries == -1
            &&& step is Retrying || step is Failed
        }),
{
}

/// A change is tried again at most as often as it may be, and one that was refused not at
/// all.
pub proof fn law_retries_are_bounded(
    q: QueueView,
    job: JobView,
    outcome: Result<(), WriteErrorView>,
    now: int,
)
    requires
        finished(q, job, outcome, now).1 is Retrying,
    ensures
        job.retries < MAX_RETRIES,
        outcome is Err && outcome->Err_0 is Retryable,
{
}

/// A change that was given up is not taken up again: where all were, the queue counts as
/// empty and stays as it is.
pub proof fn law_given_up_changes_rest(q: QueueView, now: int)
    requires
        forall|k: int| 0 <= k < q.rows.len() ==> (#[trigger] q.rows[k]).retries < 0,
    ensures
        begun(q, now) == (q, BegunView::Empty),
{
    lemma_first_pending(q.rows);
}

/// The user's retry and the user's discard leave every change alone that was not given up,
/// and every one with another number.
pub proof fn law_only_given_up_changes_are_touched(q: QueueView, id: int, now: int, k: int)
    requires
        q.well_formed(),
        0 <= k < q.rows.len(),
        q.rows[k].retries >= 0 || q.rows[k].id != id,
    ensures
        with_mark(q.rows, id, MarkView::Reset, now)[k] == q.rows[k],
        without(q.rows, id, true).contains(q.rows[k]),
{
    lemma_without(q, id, true);
    assert(!goes(q.rows[k], id, true));
}

/// Before lines are added to a file, it is noted in the queue that they are about to be.
pub proof fn law_appends_are_noted_first(q: QueueView, now: int, k: int)
    requires
        q.well_formed(),
        begun(q, now).1 is Write,
        begun(q, now).1->Write_0.cs.op is Append,
        0 <= k < begun(q, now).0.rows.len(),
        begun(q, now).0.rows[k].id == begun(q, now).1->Write_0.id,
    ensures
        begun(q, now).0.rows[k].attempted_at is Some,
{
}

/// Lines are not added twice: where the program stops after they are in the file and before
/// the queue has forgotten them, they are found in the file and the file is left alone.
pub proof fn law_appends_are_not_replayed(
    q: QueueView,
    now: int,
    later: int,
    current: Seq<char>,
    content: Seq<char>,
)
    requires
        q.well_formed(),
        begun(q, now).1 is Write,
        begun(q, now).1->Write_0.cs.op == (OperationView::Append { content }),
    ensures
        ({
            let job = begun(q, now).1->Write_0;
            let left = begun(q, now).0;
            let (again, next) = begun(left, later);
            let (after, end) = resumed(
                again,
                next->Check_0,
                Ok(Some(with_appended(current, content))),
            );
            &&& next is Check
            &&& next->Check_0.id == job.id
            &&& end == ResumedView::Done(job.cs)
            &&& after.rows == without(left.rows, job.id, false)
        }),
{
    let left = begun(q, now).0;
    let after = pending(q).0;
    lemma_pending(q);
    lemma_first_pending(after.rows);
    lemma_first_pending(left.rows);
    let i = first_pending(after.rows).unwrap();
    assert(left.rows.len() == after.rows.len());
    assert forall|k: int| 0 <= k < after.rows.len() implies (#[trigger] left.rows[k]).retries
        == after.rows[k].retries by {}
    assert(left.rows[i].retries >= 0);
    assert(first_pending(left.rows) == Some(i)) by {
        match first_pending(left.rows) {
            Some(j) => {
                if j < i {
                    assert(after.rows[j].retries < 0);
                    assert(left.rows[j].retries >= 0);
                } else if i < j {
                    assert(left.rows[i].retries < 0);
                }
            },
            None => {
                assert(left.rows[i].retries < 0);
            },
        }
    }
    law_appended_is_found(current, content);
}

/// Lines that are not in the file are added, though it was noted that they were about to
/// be.
pub proof fn law_lost_appends_are_made_up(
    q: QueueView,
    job: JobView,
    current: Result<Option<Seq<char>>, WriteErrorView>,
)
    requires
        !found_in(job.cs.op, current),
    ensures
        resumed(q, job, current) == (q, ResumedView::Write(job)),
{
}

} // verus!

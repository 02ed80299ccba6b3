//! What holds of the queue: which change is taken up, and what becomes of it.

use vstd::prelude::*;

use crate::actor::change::{ChangeSetView, OperationView, WriteErrorView};
use crate::actor::queue::{
    begun, dropped, enqueued, failed_rows, finished, first_pending, goes, has_failed,
    lemma_first_pending, lemma_pending, lemma_without, lemma_without_len, pending, resumed,
    with_mark, without, BegunView, JobView, MarkView, QueueView, ResumedView, RowView,
    StepView,
};

verus! {

// ---------- Entering the queue ----------

/// A change enters the queue at its end, under the next number, as it was asked for, and
/// nothing is noted of it yet. The others stay as they are.
pub proof fn law_changes_enter_at_the_end(q: QueueView, cs: ChangeSetView, now: int)
    ensures
        ({
            let after = enqueued(q, cs, now);
            let new = after.rows.last();
            &&& after.last_id == q.last_id + 1
            &&& after.rows.len() == q.rows.len() + 1
            &&& forall|k: int| 0 <= k < q.rows.len() ==> #[trigger] after.rows[k] == q.rows[k]
            &&& new.id == q.last_id + 1
            &&& new.file_path == cs.file_path
            &&& new.op == Some(cs.op)
            &&& new.base_hash == cs.base_hash
            &&& new.attempted_at is None
            &&& new.retries == 0
            &&& new.last_error is None
            &&& new.created_at == now
            &&& new.updated_at == now
            &&& match cs.op {
                OperationView::Append { .. } => new.operation == "append"@,
                OperationView::ReplaceLine { .. } => new.operation == "replace_line"@,
                OperationView::Create { .. } => new.operation == "create"@,
                OperationView::ApplyEdits { .. } => new.operation == "apply_edits"@,
                OperationView::ReplaceFile { .. } => new.operation == "replace_file"@,
            }
        }),
{
}

// ---------- Taking up a change ----------

/// A removal by a number that no change has leaves all of them.
proof fn lemma_without_none(rows: Seq<RowView>, id: int)
    requires
        forall|k: int| 0 <= k < rows.len() ==> (#[trigger] rows[k]).id != id,
    ensures
        without(rows, id, false) == rows,
    decreases rows.len(),
{
    if rows.len() > 0 {
        let fewer = rows.drop_last();
        assert forall|k: int| 0 <= k < fewer.len() implies (#[trigger] fewer[k]).id != id by {
            assert(fewer[k] == rows[k]);
        }
        lemma_without_none(fewer, id);
        assert(rows[rows.len() - 1].id != id);
        assert(fewer.push(rows.last()) =~= rows);
    }
}

/// A removal by the number of a change takes out this one.
proof fn lemma_without_one(rows: Seq<RowView>, i: int)
    requires
        0 <= i < rows.len(),
        forall|k: int| 0 <= k < rows.len() && k != i ==> (#[trigger] rows[k]).id != rows[i].id,
    ensures
        without(rows, rows[i].id, false) == rows.remove(i),
    decreases rows.len(),
{
    let fewer = rows.drop_last();
    let id = rows[i].id;
    if i == rows.len() - 1 {
        assert forall|k: int| 0 <= k < fewer.len() implies (#[trigger] fewer[k]).id != id by {
            assert(fewer[k] == rows[k]);
        }
        lemma_without_none(fewer, id);
        assert(rows.remove(i) =~= fewer);
    } else {
        assert forall|k: int| 0 <= k < fewer.len() && k != i implies (#[trigger] fewer[k]).id
            != fewer[i].id by {
            assert(fewer[k] == rows[k]);
        }
        lemma_without_one(fewer, i);
        assert(rows[rows.len() - 1].id != id);
        assert(rows.remove(i) =~= fewer.remove(i).push(rows.last()));
    }
}

/// Numbers that grow are different.
proof fn lemma_numbers_differ(q: QueueView, i: int)
    requires
        q.well_formed(),
        0 <= i < q.rows.len(),
    ensures
        forall|k: int|
            0 <= k < q.rows.len() && k != i ==> (#[trigger] q.rows[k]).id != q.rows[i].id,
{
    assert forall|k: int| 0 <= k < q.rows.len() && k != i implies (#[trigger] q.rows[k]).id
        != q.rows[i].id by {
        if k < i {
            assert(q.rows[k].id < q.rows[i].id);
        } else {
            assert(q.rows[i].id < q.rows[k].id);
        }
    }
}

/// The first change that waits is the one that is found; those before it that cannot be read
/// are dropped.
proof fn lemma_pending_at(q: QueueView, k: int)
    requires
        q.well_formed(),
        0 <= k < q.rows.len(),
        q.rows[k].retries >= 0,
        q.rows[k].op is Some,
        forall|j: int| 0 <= j < k ==> (#[trigger] q.rows[j]).retries < 0 || q.rows[j].op is None,
    ensures
        ({
            let (after, job) = pending(q);
            let r = q.rows[k];
            &&& job == Some(
                JobView {
                    id: r.id,
                    cs: ChangeSetView {
                        file_path: r.file_path,
                        op: r.op.unwrap(),
                        base_hash: r.base_hash,
                    },
                    retries: r.retries,
                    attempted: r.attempted_at is Some,
                },
            )
            &&& after.rows.contains(r)
            &&& forall|j: int|
                0 <= j < q.rows.len() && j != k ==> (after.rows.contains(#[trigger] q.rows[j])
                    <==> !(j < k && q.rows[j].retries >= 0))
        }),
    decreases q.rows.len(),
{
    lemma_first_pending(q.rows);
    let i = first_pending(q.rows).unwrap();
    if i < k {
        let id = q.rows[i].id;
        let fewer = dropped(q, id);
        assert(goes(q.rows[i], id, false));
        lemma_without_len(q.rows, id, false);
        lemma_without(q, id, false);
        lemma_numbers_differ(q, i);
        lemma_without_one(q.rows, i);
        assert(fewer.rows == q.rows.remove(i));
        assert(fewer.rows[k - 1] == q.rows[k]);
        assert forall|j: int| 0 <= j < k - 1 implies (#[trigger] fewer.rows[j]).retries < 0
            || fewer.rows[j].op is None by {
            if j < i {
                assert(fewer.rows[j] == q.rows[j]);
            } else {
                assert(fewer.rows[j] == q.rows[j + 1]);
            }
        }
        lemma_pending_at(fewer, k - 1);
        lemma_pending(fewer);
        let after = pending(q).0;
        assert(after == pending(fewer).0);
        assert forall|j: int| 0 <= j < q.rows.len() && j != k implies (after.rows.contains(
            #[trigger] q.rows[j],
        ) <==> !(j < k && q.rows[j].retries >= 0)) by {
            if j < i {
                assert(fewer.rows[j] == q.rows[j]);
                assert(q.rows[j].retries < 0);
            } else if j > i {
                assert(fewer.rows[j - 1] == q.rows[j]);
            } else if after.rows.contains(q.rows[i]) {
                let n = choose|n: int| 0 <= n < after.rows.len() && after.rows[n] == q.rows[i];
                assert(fewer.rows.contains(after.rows[n]));
                let l = choose|l: int| 0 <= l < fewer.rows.len() && fewer.rows[l] == q.rows[i];
                assert(!goes(fewer.rows[l], id, false));
            }
        }
    } else {
        assert(i == k) by {
            if i > k {
                assert(q.rows[k].retries < 0);
            }
        }
        assert forall|j: int| 0 <= j < q.rows.len() implies q.rows.contains(
            #[trigger] q.rows[j],
        ) by {}
        assert forall|j: int| 0 <= j < k implies (#[trigger] q.rows[j]).retries < 0 by {}
    }
}

/// The first change of the queue that can be read and was not given up is taken up, as it
/// was asked for. Lines of which it was noted that they are about to be added are looked for
/// first; of other lines it is noted now. Changes before it that cannot be read are dropped,
/// and all others stay as they are.
pub proof fn law_first_waiting_change_is_taken_up(q: QueueView, now: int, k: int)
    requires
        q.well_formed(),
        0 <= k < q.rows.len(),
        q.rows[k].retries >= 0,
        q.rows[k].op is Some,
        forall|j: int| 0 <= j < k ==> (#[trigger] q.rows[j]).retries < 0 || q.rows[j].op is None,
    ensures
        ({
            let (after, next) = begun(q, now);
            let r = q.rows[k];
            let op = r.op.unwrap();
            let job = JobView {
                id: r.id,
                cs: ChangeSetView { file_path: r.file_path, op, base_hash: r.base_hash },
                retries: r.retries,
                attempted: r.attempted_at is Some,
            };
            let noted = if op is Append && r.attempted_at is None {
                RowView { attempted_at: Some(now), updated_at: now, ..r }
            } else {
                r
            };
            &&& next == (if op is Append && r.attempted_at is Some {
                BegunView::Check(job)
            } else {
                BegunView::Write(job)
            })
            &&& after.well_formed()
            &&& after.last_id == q.last_id
            &&& after.rows.contains(noted)
            &&& forall|j: int|
                0 <= j < q.rows.len() && j != k ==> (after.rows.contains(#[trigger] q.rows[j])
                    <==> !(j < k && q.rows[j].retries >= 0))
            &&& forall|n: int|
                0 <= n < after.rows.len() ==> #[trigger] after.rows[n] == noted || q.rows.contains(
                    after.rows[n],
                ) && after.rows[n].id != r.id
        }),
{
    let (before, found) = pending(q);
    let (after, next) = begun(q, now);
    let r = q.rows[k];
    lemma_pending_at(q, k);
    lemma_pending(q);
    lemma_numbers_differ(q, k);
    let job = found.unwrap();
    let m = choose|m: int| 0 <= m < before.rows.len() && before.rows[m] == r;
    lemma_numbers_differ(before, m);
    if job.cs.op is Append && !job.attempted {
        let noted = RowView { attempted_at: Some(now), updated_at: now, ..r };
        assert(after.rows[m] == noted);
        assert forall|n: int| 0 <= n < after.rows.len() && n != m implies #[trigger] after.rows[n]
            == before.rows[n] by {}
        assert forall|j: int, n: int|
            0 <= j < n < after.rows.len() implies (#[trigger] after.rows[j]).id < (
        #[trigger] after.rows[n]).id by {
            assert(before.rows[j].id < before.rows[n].id);
            assert(after.rows[j].id == before.rows[j].id);
            assert(after.rows[n].id == before.rows[n].id);
        }
        assert forall|n: int| 0 <= n < after.rows.len() implies 0 < (
        #[trigger] after.rows[n]).id <= after.last_id by {
            assert(after.rows[n].id == before.rows[n].id);
        }
        assert forall|j: int| 0 <= j < q.rows.len() && j != k implies (after.rows.contains(
            #[trigger] q.rows[j],
        ) <==> before.rows.contains(q.rows[j])) by {
            if before.rows.contains(q.rows[j]) {
                let n = choose|n: int| 0 <= n < before.rows.len() && before.rows[n] == q.rows[j];
                assert(after.rows[n] == q.rows[j]);
            }
            if after.rows.contains(q.rows[j]) {
                let n = choose|n: int| 0 <= n < after.rows.len() && after.rows[n] == q.rows[j];
                assert(n != m);
                assert(before.rows[n] == q.rows[j]);
            }
        }
    } else {
        assert(after.rows[m] == r);
    }
    assert forall|n: int| 0 <= n < after.rows.len() && n != m implies q.rows.contains(
        #[trigger] after.rows[n],
    ) && after.rows[n].id != r.id by {
        assert(after.rows[n] == before.rows[n]);
        assert(q.rows.contains(before.rows[n]));
    }
}

/// Where no change can be read that was not given up, nothing is taken up, and of the
/// changes exactly those are left that were given up.
pub proof fn law_nothing_is_taken_up_where_nothing_waits(q: QueueView, now: int)
    requires
        q.well_formed(),
        forall|k: int|
            0 <= k < q.rows.len() ==> (#[trigger] q.rows[k]).retries < 0 || q.rows[k].op is None,
    ensures
        ({
            let (after, next) = begun(q, now);
            &&& next is Empty
            &&& after.well_formed()
            &&& after.last_id == q.last_id
            &&& forall|k: int|
                0 <= k < q.rows.len() ==> (after.rows.contains(#[trigger] q.rows[k])
                    <==> q.rows[k].retries < 0)
            &&& forall|n: int| 0 <= n < after.rows.len() ==> q.rows.contains(#[trigger] after.rows[n])
        }),
{
    lemma_pending(q);
    let (after, found) = pending(q);
    if found is Some {
        let i = first_pending(after.rows).unwrap();
        assert(q.rows.contains(after.rows[i]));
        let k = choose|k: int| 0 <= k < q.rows.len() && q.rows[k] == after.rows[i];
        assert(q.rows[k].retries < 0 || q.rows[k].op is None);
        assert(false);
    }
    assert forall|k: int| 0 <= k < q.rows.len() implies (after.rows.contains(#[trigger] q.rows[k])
        <==> q.rows[k].retries < 0) by {
        if after.rows.contains(q.rows[k]) {
            let n = choose|n: int| 0 <= n < after.rows.len() && after.rows[n] == q.rows[k];
            assert(after.rows[n].retries < 0);
        }
    }
}

// ---------- Ending a change ----------

/// Whatever its operation is, a change that was made is gone from the queue: none has its
/// number any more. It is said to be done, and all others are left, in their order.
pub proof fn law_changes_that_were_made_are_gone(q: QueueView, job: JobView, now: int)
    requires
        q.well_formed(),
    ensures
        ({
            let (after, step) = finished(q, job, Ok(()), now);
            &&& step == StepView::Done(job.cs)
            &&& after.last_id == q.last_id
            &&& after.well_formed()
            &&& forall|n: int|
                0 <= n < after.rows.len() ==> (#[trigger] after.rows[n]).id != job.id
                    && q.rows.contains(after.rows[n])
            &&& forall|k: int|
                0 <= k < q.rows.len() && (#[trigger] q.rows[k]).id != job.id
                    ==> after.rows.contains(q.rows[k])
        }),
{
    lemma_without(q, job.id, false);
    let after = finished(q, job, Ok(()), now).0;
    assert forall|n: int| 0 <= n < after.rows.len() implies (#[trigger] after.rows[n]).id
        != job.id && q.rows.contains(after.rows[n]) by {
        assert(!goes(after.rows[n], job.id, false));
    }
    assert forall|k: int| 0 <= k < q.rows.len() && (#[trigger] q.rows[k]).id
        != job.id implies after.rows.contains(q.rows[k]) by {
        assert(!goes(q.rows[k], job.id, false));
    }
}

/// A change that was not made stays, with the reason. Where another attempt may succeed and
/// fewer than three have been made again, it is tried once more, and counted; otherwise it is
/// given up. Nothing else of it changes, and nothing of the others.
pub proof fn law_failed_attempts_are_noted(
    q: QueueView,
    job: JobView,
    error: WriteErrorView,
    now: int,
    k: int,
)
    requires
        0 <= k < q.rows.len(),
    ensures
        ({
            let (after, step) = finished(q, job, Err(error), now);
            let r = q.rows[k];
            let again = error is Retryable && job.retries < 3;
            let said = match error {
                WriteErrorView::Retryable(m) => m,
                WriteErrorView::Rejected(m) => m,
            };
            let retries = if again {
                r.retries + 1
            } else {
                -1
            };
            &&& after.last_id == q.last_id
            &&& after.rows.len() == q.rows.len()
            &&& step == (if again {
                StepView::Retrying
            } else {
                StepView::Failed(job.cs, said)
            })
            &&& after.rows[k] == (if r.id == job.id {
                RowView { retries, last_error: Some(said), updated_at: now, ..r }
            } else {
                r
            })
        }),
{
}

/// A step whose change was made works off one change: the one that was taken up is gone, and
/// all others that can be read or were given up are left as they are.
pub proof fn law_steps_work_off_the_queue(q: QueueView, now: int, later: int, k: int)
    requires
        q.well_formed(),
        0 <= k < q.rows.len(),
        q.rows[k].retries >= 0,
        q.rows[k].op is Some,
        forall|j: int| 0 <= j < k ==> (#[trigger] q.rows[j]).retries < 0 || q.rows[j].op is None,
    ensures
        ({
            let (held, next) = begun(q, now);
            let job = if next is Check {
                next->Check_0
            } else {
                next->Write_0
            };
            let after = finished(held, job, Ok(()), later).0;
            &&& next is Check || next is Write
            &&& after.well_formed()
            &&& forall|n: int|
                0 <= n < after.rows.len() ==> (#[trigger] after.rows[n]).id != q.rows[k].id
                    && q.rows.contains(after.rows[n])
            &&& forall|j: int|
                0 <= j < q.rows.len() && j != k && ((#[trigger] q.rows[j]).retries < 0
                    || q.rows[j].op is Some) ==> after.rows.contains(q.rows[j])
        }),
{
    let (held, next) = begun(q, now);
    let job = if next is Check {
        next->Check_0
    } else {
        next->Write_0
    };
    law_first_waiting_change_is_taken_up(q, now, k);
    law_changes_that_were_made_are_gone(held, job, later);
    lemma_numbers_differ(q, k);
    let after = finished(held, job, Ok(()), later).0;
    assert forall|n: int| 0 <= n < after.rows.len() implies (#[trigger] after.rows[n]).id
        != q.rows[k].id && q.rows.contains(after.rows[n]) by {
        assert(held.rows.contains(after.rows[n]));
        let m = choose|m: int| 0 <= m < held.rows.len() && held.rows[m] == after.rows[n];
        assert(held.rows[m].id != job.id);
    }
    assert forall|j: int|
        0 <= j < q.rows.len() && j != k && ((#[trigger] q.rows[j]).retries < 0
            || q.rows[j].op is Some) implies after.rows.contains(q.rows[j]) by {
        assert(held.rows.contains(q.rows[j]));
        let m = choose|m: int| 0 <= m < held.rows.len() && held.rows[m] == q.rows[j];
        assert(held.rows[m].id != job.id);
    }
}

// ---------- After a crash ----------

/// Lines that a change adds count as added exactly where the file could be read and ends with
/// them and a line feed. The change is gone from the queue then, and is to be made otherwise.
pub proof fn law_lines_in_the_file_are_not_added_again(
    q: QueueView,
    job: JobView,
    current: Result<Option<Seq<char>>, WriteErrorView>,
)
    requires
        q.well_formed(),
    ensures
        ({
            let (after, end) = resumed(q, job, current);
            let there = job.cs.op matches OperationView::Append { content } && current matches Ok(
                text,
            ) && text matches Some(t) && ({
                let lines = if content.len() > 0 && content.last() == '\n' {
                    content
                } else {
                    content.push('\n')
                };
                t.len() >= lines.len() && t.skip(t.len() - lines.len()) == lines
            });
            &&& there ==> end == ResumedView::Done(job.cs)
            &&& !there ==> end == ResumedView::Write(job) && after == q
            &&& after.last_id == q.last_id
            &&& after.well_formed()
            &&& there ==> forall|n: int|
                0 <= n < after.rows.len() ==> (#[trigger] after.rows[n]).id != job.id
                    && q.rows.contains(after.rows[n])
            &&& there ==> forall|k: int|
                0 <= k < q.rows.len() && (#[trigger] q.rows[k]).id != job.id
                    ==> after.rows.contains(q.rows[k])
        }),
{
    law_changes_that_were_made_are_gone(q, job, 0);
}

// ---------- What the user does ----------

/// The user's discard takes out the change with the number where it was given up, and no
/// other.
pub proof fn law_discarding_takes_out_a_given_up_change(q: QueueView, id: int)
    requires
        q.well_formed(),
    ensures
        ({
            let left = without(q.rows, id, true);
            &&& (QueueView { rows: left, last_id: q.last_id }).well_formed()
            &&& forall|n: int|
                0 <= n < left.len() ==> q.rows.contains(#[trigger] left[n]) && !(left[n].id == id
                    && left[n].retries < 0)
            &&& forall|k: int|
                0 <= k < q.rows.len() && !((#[trigger] q.rows[k]).id == id && q.rows[k].retries
                    < 0) ==> left.contains(q.rows[k])
            &&& has_failed(q.rows, id) <==> left.len() < q.rows.len()
        }),
{
    lemma_without(q, id, true);
    lemma_without_len(q.rows, id, true);
    let left = without(q.rows, id, true);
    assert forall|n: int| 0 <= n < left.len() implies q.rows.contains(#[trigger] left[n]) && !(
    left[n].id == id && left[n].retries < 0) by {
        assert(!goes(left[n], id, true));
    }
    assert forall|k: int| 0 <= k < q.rows.len() && !((#[trigger] q.rows[k]).id == id
        && q.rows[k].retries < 0) implies left.contains(q.rows[k]) by {
        assert(!goes(q.rows[k], id, true));
    }
    if has_failed(q.rows, id) {
        let k = choose|k: int|
            0 <= k < q.rows.len() && (#[trigger] q.rows[k]).id == id && q.rows[k].retries < 0;
        assert(goes(q.rows[k], id, true));
    } else {
        assert forall|k: int| 0 <= k < q.rows.len() implies !goes(
            #[trigger] q.rows[k],
            id,
            true,
        ) by {}
        lemma_without_keeps(q.rows, id, true);
    }
}

/// A removal that concerns no change leaves all of them.
proof fn lemma_without_keeps(rows: Seq<RowView>, id: int, failed_only: bool)
    requires
        forall|k: int| 0 <= k < rows.len() ==> !goes(#[trigger] rows[k], id, failed_only),
    ensures
        without(rows, id, failed_only) == rows,
    decreases rows.len(),
{
    if rows.len() > 0 {
        let fewer = rows.drop_last();
        assert forall|k: int| 0 <= k < fewer.len() implies !goes(
            #[trigger] fewer[k],
            id,
            failed_only,
        ) by {
            assert(fewer[k] == rows[k]);
        }
        lemma_without_keeps(fewer, id, failed_only);
        assert(!goes(rows[rows.len() - 1], id, failed_only));
        assert(fewer.push(rows.last()) =~= rows);
    }
}

/// The user's retry has the change with the number tried again where it was given up, as if
/// it had not failed yet; nothing else of it changes, and nothing of the others.
pub proof fn law_retrying_forgets_the_failure(rows: Seq<RowView>, id: int, now: int, k: int)
    requires
        0 <= k < rows.len(),
    ensures
        ({
            let after = with_mark(rows, id, MarkView::Reset, now);
            let r = rows[k];
            &&& after.len() == rows.len()
            &&& after[k] == (if r.id == id && r.retries < 0 {
                RowView { retries: 0, last_error: None, updated_at: now, ..r }
            } else {
                r
            })
        }),
{
}

/// Every change that was given up is listed, with its number, its file, its operation, the
/// reason and the time.
pub proof fn law_given_up_changes_are_listed(rows: Seq<RowView>, k: int)
    requires
        0 <= k < rows.len(),
        rows[k].retries < 0,
    ensures
        exists|n: int|
            {
                &&& 0 <= n < failed_rows(rows).len()
                &&& (#[trigger] failed_rows(rows)[n]).id == rows[k].id
                &&& failed_rows(rows)[n].file == rows[k].file_path
                &&& failed_rows(rows)[n].op == rows[k].operation
                &&& failed_rows(rows)[n].at == rows[k].updated_at
                &&& rows[k].last_error matches Some(m) ==> failed_rows(rows)[n].error == m
                &&& rows[k].last_error is None ==> failed_rows(rows)[n].error == "未知原因"@
            },
    decreases rows.len(),
{
    let fewer = rows.drop_last();
    let listed = failed_rows(rows);
    if k < fewer.len() {
        law_given_up_changes_are_listed(fewer, k);
        let before = failed_rows(fewer);
        let n = choose|n: int|
            {
                &&& 0 <= n < before.len()
                &&& (#[trigger] before[n]).id == rows[k].id
                &&& before[n].file == rows[k].file_path
                &&& before[n].op == rows[k].operation
                &&& before[n].at == rows[k].updated_at
                &&& rows[k].last_error matches Some(m) ==> before[n].error == m
                &&& rows[k].last_error is None ==> before[n].error == "未知原因"@
            };
        assert(listed[n] == before[n]);
    } else {
        assert(listed[listed.len() - 1].id == rows[k].id);
    }
}

/// Only changes that were given up are listed, each once, in the order of the queue.
pub proof fn law_only_given_up_changes_are_listed(q: QueueView)
    requires
        q.well_formed(),
    ensures
        forall|n: int|
            0 <= n < failed_rows(q.rows).len() ==> has_failed(
                q.rows,
                (#[trigger] failed_rows(q.rows)[n]).id,
            ),
        forall|m: int, n: int|
            0 <= m < n < failed_rows(q.rows).len() ==> (#[trigger] failed_rows(q.rows)[m]).id < (
            #[trigger] failed_rows(q.rows)[n]).id,
    decreases q.rows.len(),
{
    let listed = failed_rows(q.rows);
    if q.rows.len() > 0 {
        let fewer = QueueView { rows: q.rows.drop_last(), last_id: q.last_id };
        let last = q.rows.last();
        let before = failed_rows(fewer.rows);
        assert(q.rows[q.rows.len() - 1] == last);
        assert forall|k: int| 0 <= k < fewer.rows.len() implies 0 < (#[trigger] fewer.rows[k]).id
            <= fewer.last_id && fewer.rows[k].id < last.id by {
            assert(fewer.rows[k] == q.rows[k]);
        }
        assert forall|j: int, k: int| 0 <= j < k < fewer.rows.len() implies (
        #[trigger] fewer.rows[j]).id < (#[trigger] fewer.rows[k]).id by {
            assert(fewer.rows[j] == q.rows[j] && fewer.rows[k] == q.rows[k]);
        }
        law_only_given_up_changes_are_listed(fewer);
        assert forall|n: int| 0 <= n < before.len() implies has_failed(
            q.rows,
            (#[trigger] before[n]).id,
        ) && before[n].id < last.id by {
            let k = choose|k: int|
                0 <= k < fewer.rows.len() && (#[trigger] fewer.rows[k]).id == before[n].id
                    && fewer.rows[k].retries < 0;
            assert(q.rows[k] == fewer.rows[k]);
            assert(q.rows[k].id == before[n].id);
        }
        assert forall|n: int| 0 <= n < listed.len() implies has_failed(
            q.rows,
            (#[trigger] listed[n]).id,
        ) by {
            if n < before.len() {
                assert(listed[n] == before[n]);
            } else {
                assert(q.rows[q.rows.len() - 1].id == listed[n].id);
            }
        }
        assert forall|m: int, n: int| 0 <= m < n < listed.len() implies (
        #[trigger] listed[m]).id < (#[trigger] listed[n]).id by {
            assert(listed[m] == before[m]);
            if n < before.len() {
                assert(listed[n] == before[n]);
            }
        }
    }
}

/// A queue is in order exactly where each change has a higher number than the one before it,
/// the first one a number above zero, and none a higher one than the last that was given.
pub proof fn law_numbers_are_in_order(rows: Seq<RowView>, more: RowView, last_id: int)
    ensures
        (QueueView { rows: Seq::empty(), last_id }).well_formed() <==> last_id >= 0,
        (QueueView { rows: rows.push(more), last_id }).well_formed() <==> {
            &&& (QueueView { rows, last_id }).well_formed()
            &&& 0 < more.id <= last_id
            &&& rows.len() > 0 ==> rows.last().id < more.id
        },
{
    let all = rows.push(more);
    let before = QueueView { rows, last_id };
    let after = QueueView { rows: all, last_id };
    let n = rows.len() as int;
    assert(all[n] == more);
    assert forall|k: int| 0 <= k < n implies #[trigger] rows[k] == all[k] by {}
    if after.well_formed() {
        assert forall|k: int| 0 <= k < n implies 0 < (#[trigger] rows[k]).id <= last_id by {
            assert(0 < all[k].id <= last_id);
        }
        assert forall|j: int, k: int| 0 <= j < k < n implies (#[trigger] rows[j]).id < (
        #[trigger] rows[k]).id by {
            assert(all[j].id < all[k].id);
        }
        if n > 0 {
            assert(all[n - 1].id < all[n].id);
        }
    }
    if before.well_formed() && 0 < more.id <= last_id && (n > 0 ==> rows.last().id < more.id) {
        assert forall|k: int| 0 <= k < all.len() implies 0 < (#[trigger] all[k]).id <= last_id by {
            if k < n {
                assert(0 < rows[k].id <= last_id);
            }
        }
        assert forall|j: int, k: int| 0 <= j < k < all.len() implies (#[trigger] all[j]).id < (
        #[trigger] all[k]).id by {
            if k < n {
                assert(rows[j].id < rows[k].id);
            } else if j < n - 1 {
                assert(rows[j].id < rows[n - 1].id);
            } else {
                assert(rows[j] == rows.last());
            }
        }
    }
}

} // verus!

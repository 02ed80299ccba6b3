use std::collections::{BTreeMap, BTreeSet};

use note_idea::actor::path::resolve;
use note_idea::actor::queue::{
    begin, broken_off, discard_failed, enqueue_to_db, finish, list_failed, reset_failed, resume,
    Begun, Resumed, Step, StoredRow, WriteQueue, MAX_RETRIES,
};
use note_idea::actor::{apply, ChangeSet, Operation, WriteError};

/// The files of a vault, in memory; some of them may be directories.
struct Vault {
    files: BTreeMap<String, String>,
    directories: BTreeSet<String>,
}

impl Vault {
    fn new() -> Self {
        Vault { files: BTreeMap::new(), directories: BTreeSet::new() }
    }

    fn write(&mut self, rel: &str, content: &str) {
        self.files.insert(rel.to_string(), content.to_string());
    }

    fn read(&self, rel: &str) -> String {
        self.files[rel].clone()
    }

    fn load(&self, rel: &str) -> Result<Option<String>, WriteError> {
        let path = resolve("/vault", rel)?.below.join("/");
        if self.directories.contains(&path) {
            return Err(WriteError::Retryable("读文件失败: 是目录".into()));
        }
        Ok(self.files.get(&path).cloned())
    }

    fn make(&mut self, cs: &ChangeSet) -> Result<(), WriteError> {
        let current = self.load(&cs.file_path)?;
        let w = apply("/vault", cs, current.as_deref())?;
        self.files.insert(w.path.below.join("/"), w.content);
        Ok(())
    }
}

/// Takes up one change and ends it.
fn step(q: &mut WriteQueue, t: &mut Vault) -> Step {
    let row = match begin(q, 7) {
        Begun::Empty => return Step::Empty,
        Begun::Check(row) => {
            let current = t.load(&row.cs.file_path);
            match resume(q, row, current) {
                Resumed::Done(cs) => return Step::Done(cs),
                Resumed::Write(row) => row,
            }
        }
        Begun::Write(row) => row,
    };
    let outcome = t.make(&row.cs);
    finish(q, row, outcome, 8)
}

fn cs(file: &str, op: Operation, base: Option<String>) -> ChangeSet {
    ChangeSet { file_path: file.into(), op, base_hash: base }
}

fn append(content: &str) -> Operation {
    Operation::Append { content: content.into() }
}

fn create(content: &str) -> Operation {
    Operation::Create { content: content.into() }
}

fn row(id: i64) -> StoredRow {
    StoredRow {
        id,
        file_path: "n.md".into(),
        operation: "append".into(),
        op: None,
        base_hash: None,
        attempted_at: None,
        retries: 0,
        last_error: None,
        created_at: 1,
        updated_at: 1,
    }
}

#[test]
fn queue_drains_in_fifo_order() {
    let mut t = Vault::new();
    let mut db = WriteQueue::new();
    for i in 1..=5 {
        enqueue_to_db(&mut db, &cs("inbox.md", append(&format!("- [ ] {i}")), None), 1);
    }
    assert_eq!(db.rows.len(), 5);

    while !matches!(step(&mut db, &mut t), Step::Empty) {}

    assert_eq!(db.rows.len(), 0, "全部处理完队列应为空");
    assert_eq!(t.read("inbox.md"), "- [ ] 1
- [ ] 2
- [ ] 3
- [ ] 4
- [ ] 5
");
}

#[test]
fn rejected_row_stays_in_queue_as_failed() {
    let mut t = Vault::new();
    let mut db = WriteQueue::new();
    t.write("n.md", "已有
");
    enqueue_to_db(&mut db, &cs("n.md", create("新"), None), 1);

    let s = step(&mut db, &mut t);
    assert!(matches!(s, Step::Failed(..)), "应放弃而非重试");

    assert_eq!(db.rows[0].retries, -1);
    assert!(matches!(step(&mut db, &mut t), Step::Empty));
    assert_eq!(t.read("n.md"), "已有
", "拒绝时文件不得改动");
}

#[test]
fn failed_row_does_not_block_later_ones_after_reset() {
    let mut t = Vault::new();
    let mut db = WriteQueue::new();
    t.write("n.md", "已有
");
    enqueue_to_db(&mut db, &cs("n.md", create("x"), None), 1);
    enqueue_to_db(&mut db, &cs("inbox.md", append("- [ ] 后来的"), None), 1);

    assert!(matches!(step(&mut db, &mut t), Step::Failed(..)));
    assert!(matches!(step(&mut db, &mut t), Step::Done(_)));
    assert_eq!(t.read("inbox.md"), "- [ ] 后来的
");
}

#[test]
fn unparseable_payload_is_discarded_not_stuck() {
    let mut t = Vault::new();
    let mut db = WriteQueue::from_rows(vec![row(1)], 1).unwrap();

    assert!(matches!(step(&mut db, &mut t), Step::Empty));
    assert_eq!(db.rows.len(), 0, "坏记录应被丢弃");
}

#[test]
fn changes_behind_a_bad_row_are_made() {
    let mut t = Vault::new();
    let mut second = row(2);
    second.op = Some(append("b"));
    let mut fourth = row(4);
    fourth.op = Some(append("d"));
    let mut db = WriteQueue::from_rows(vec![row(1), second, row(3), fourth], 4).unwrap();

    assert!(matches!(step(&mut db, &mut t), Step::Done(_)));
    assert_eq!(t.read("n.md"), "b\n");
    assert_eq!(db.rows.iter().map(|r| r.id).collect::<Vec<i64>>(), [3, 4]);
    assert!(matches!(step(&mut db, &mut t), Step::Done(_)));
    assert_eq!(t.read("n.md"), "b\nd\n");
    assert_eq!(db.rows.len(), 0);
    assert!(matches!(step(&mut db, &mut t), Step::Empty));
}

#[test]
fn recovers_leftover_queue_on_restart() {
    let mut t = Vault::new();
    let mut db = WriteQueue::new();
    enqueue_to_db(&mut db, &cs("inbox.md", append("- [ ] 崩溃前"), None), 1);
    assert!(!t.files.contains_key("inbox.md"));

    while !matches!(step(&mut db, &mut t), Step::Empty) {}

    assert_eq!(t.read("inbox.md"), "- [ ] 崩溃前
", "重启后应补写");
    assert_eq!(db.rows.len(), 0);
}

fn make_failed(db: &mut WriteQueue, t: &mut Vault) -> i64 {
    t.write("n.md", "已有
");
    let id = enqueue_to_db(db, &cs("n.md", create("x"), None), 1);
    assert!(matches!(step(db, t), Step::Failed(..)));
    id
}

#[test]
fn failed_list_shows_reason_and_op() {
    let mut t = Vault::new();
    let mut db = WriteQueue::new();
    make_failed(&mut db, &mut t);

    let rows = list_failed(&db);
    assert_eq!(rows.len(), 1);
    assert_eq!(rows[0].file, "n.md");
    assert_eq!(rows[0].op, "create");
    assert!(rows[0].error.contains("已存在"), "要能看到失败原因: {}", rows[0].error);
    assert!(rows[0].at > 0);
}

#[test]
fn retry_puts_row_back_in_queue() {
    let mut t = Vault::new();
    let mut db = WriteQueue::new();
    let id = make_failed(&mut db, &mut t);

    assert!(matches!(step(&mut db, &mut t), Step::Empty));

    assert!(reset_failed(&mut db, id, 9));
    assert!(list_failed(&db).is_empty(), "重置后不该还在失败列表里");

    assert!(matches!(step(&mut db, &mut t), Step::Failed(..)));

    t.files.remove("n.md");
    assert!(reset_failed(&mut db, id, 9));
    assert!(matches!(step(&mut db, &mut t), Step::Done(_)));
    assert_eq!(t.read("n.md"), "x");
    assert!(list_failed(&db).is_empty());
}

#[test]
fn discard_removes_row() {
    let mut t = Vault::new();
    let mut db = WriteQueue::new();
    let id = make_failed(&mut db, &mut t);

    assert!(discard_failed(&mut db, id));
    assert!(list_failed(&db).is_empty());
    assert_eq!(db.rows.len(), 0);
    assert_eq!(t.read("n.md"), "已有
", "丢弃只影响队列，不该动文件");
}

#[test]
fn retry_and_discard_ignore_non_failed_rows() {
    let mut t = Vault::new();
    let mut db = WriteQueue::new();
    let id = enqueue_to_db(&mut db, &cs("inbox.md", append("a"), None), 1);

    assert!(!reset_failed(&mut db, id, 9));
    assert!(!discard_failed(&mut db, id));
    assert_eq!(db.rows.len(), 1, "记录必须还在");

    assert!(matches!(step(&mut db, &mut t), Step::Done(_)));
    assert_eq!(t.read("inbox.md"), "a
");
}

#[test]
fn operations_on_missing_id_report_false() {
    let mut db = WriteQueue::new();
    assert!(!reset_failed(&mut db, 999, 1));
    assert!(!discard_failed(&mut db, 999));
}

fn crashed_append(content: &str) -> WriteQueue {
    let mut r = row(1);
    r.file_path = "inbox.md".into();
    r.op = Some(append(content));
    r.attempted_at = Some(1);
    WriteQueue::from_rows(vec![r], 1).unwrap()
}

#[test]
fn append_is_not_replayed_after_crash() {
    let mut t = Vault::new();
    t.write("inbox.md", "- [ ] 只该出现一次\n");
    let mut db = crashed_append("- [ ] 只该出现一次");

    while !matches!(step(&mut db, &mut t), Step::Empty) {}

    assert_eq!(t.read("inbox.md"), "- [ ] 只该出现一次\n", "崩溃重放不得产生重复行");
    assert_eq!(db.rows.len(), 0);
}

#[test]
fn append_is_replayed_when_write_did_not_happen() {
    let mut t = Vault::new();
    let mut db = crashed_append("- [ ] 没写成");

    while !matches!(step(&mut db, &mut t), Step::Empty) {}

    assert_eq!(t.read("inbox.md"), "- [ ] 没写成\n", "确实没写成的必须补写，不能丢");
}

#[test]
fn marker_is_set_before_touching_file() {
    let mut t = Vault::new();
    let mut db = WriteQueue::new();
    enqueue_to_db(&mut db, &cs("inbox.md", append("x"), None), 1);
    assert!(db.rows[0].attempted_at.is_none(), "入队时不该有 marker");

    t.directories.insert("inbox.md".into());
    let _ = step(&mut db, &mut t);

    assert!(db.rows[0].attempted_at.is_some(), "step 应在动文件之前记下 marker");
}

#[test]
fn legitimate_duplicate_append_still_works() {
    let mut t = Vault::new();
    let mut db = WriteQueue::new();
    for _ in 0..2 {
        enqueue_to_db(&mut db, &cs("inbox.md", append("- [ ] 买菜"), None), 1);
    }

    while !matches!(step(&mut db, &mut t), Step::Empty) {}

    assert_eq!(
        t.read("inbox.md"),
        "- [ ] 买菜\n- [ ] 买菜\n",
        "重放保护只针对崩溃恢复，不该压掉用户真实的重复输入"
    );
}

#[test]
fn a_change_is_tried_four_times_in_all() {
    let mut t = Vault::new();
    let mut db = WriteQueue::new();
    t.directories.insert("inbox.md".into());
    enqueue_to_db(&mut db, &cs("inbox.md", append("x"), None), 1);
    for i in 1..=MAX_RETRIES {
        let s = step(&mut db, &mut t);
        assert!(matches!(s, Step::Retrying));
        assert!(s.goes_on());
        assert_eq!(db.rows[0].retries, i);
        assert_eq!(db.rows[0].last_error.as_deref(), Some("读文件失败: 是目录"));
        assert_eq!(db.rows[0].updated_at, 8);
    }
    let s = step(&mut db, &mut t);
    assert!(!s.goes_on());
    match s {
        Step::Failed(cs, m) => {
            assert_eq!(cs.file_path, "inbox.md");
            assert_eq!(m, "读文件失败: 是目录");
        }
        other => panic!("{other:?}"),
    }
    assert_eq!(db.rows[0].retries, -1);
    assert!(!step(&mut db, &mut t).goes_on());
}

#[test]
fn numbers_are_never_given_twice() {
    let mut db = WriteQueue::new();
    let mut t = Vault::new();
    assert_eq!(enqueue_to_db(&mut db, &cs("a.md", append("1"), None), 5), 1);
    assert!(step(&mut db, &mut t).goes_on());
    assert_eq!(enqueue_to_db(&mut db, &cs("a.md", append("2"), None), 6), 2);
    assert_eq!(db.rows.len(), 1);
    let r = &db.rows[0];
    assert_eq!((r.id, r.retries, r.created_at, r.updated_at), (2, 0, 6, 6));
    assert_eq!(r.operation, "append");
    assert_eq!(r.base_hash, None);
}

#[test]
fn rows_out_of_order_make_no_queue() {
    assert!(WriteQueue::from_rows(vec![row(2), row(1)], 2).is_none());
    assert!(WriteQueue::from_rows(vec![row(1), row(1)], 2).is_none());
    assert!(WriteQueue::from_rows(vec![row(3)], 2).is_none());
    assert!(WriteQueue::from_rows(vec![row(0)], 2).is_none());
    assert!(WriteQueue::from_rows(vec![], -1).is_none());
    assert_eq!(WriteQueue::from_rows(vec![row(1), row(5)], 9).unwrap().last_id, 9);
}

#[test]
fn a_failure_without_a_reason_is_listed() {
    let mut r = row(4);
    r.retries = -1;
    let mut s = row(5);
    s.retries = 2;
    let db = WriteQueue::from_rows(vec![r, s], 5).unwrap();
    let failed = list_failed(&db);
    assert_eq!(failed.len(), 1);
    assert_eq!(failed[0].id, 4);
    assert_eq!(failed[0].error, "未知原因");
    assert_eq!(failed[0].at, 1);
}

#[test]
fn a_change_that_breaks_off_is_refused() {
    let mut db = WriteQueue::new();
    enqueue_to_db(&mut db, &cs("a.md", create("1"), None), 5);
    let row = match begin(&mut db, 6) {
        Begun::Write(row) => row,
        other => panic!("{other:?}"),
    };
    assert!(!row.attempted);
    let s = finish(&mut db, row, Err(broken_off()), 7);
    assert!(matches!(s, Step::Failed(_, m) if m == "处理该变更时发生内部错误（panic）"));
    assert_eq!(db.rows[0].retries, -1);
}

#[test]
fn lines_that_cannot_be_looked_for_are_added() {
    let mut db = crashed_append("x");
    let row = match begin(&mut db, 6) {
        Begun::Check(row) => row,
        other => panic!("{other:?}"),
    };
    let r = resume(&mut db, row, Err(WriteError::Retryable("读文件失败".into())));
    assert!(matches!(r, Resumed::Write(_)));
    assert_eq!(db.rows.len(), 1);
}

use note_idea::actor::queue::{enqueue_to_db, StoredRow, WriteQueue};
use note_idea::actor::{ChangeSet, Operation};
use note_idea::commands::{
    capture, check_choice, discard_write, failed_writes, parse_todo_line, rescan_index, retry_write,
    vault_state, write_todo_id, VaultState,
};
use note_idea::config::{Config, Loaded, VaultStatus};
use note_idea::db::{migrate, try_open, NextProbe, OpenError, Probed, Recovery};
use note_idea::vault::{assets_dir, db_path, ensure_gitignore, inbox_path, state_dir};
use note_idea::window::{show_quick, HotkeyFailures, QuickAction, Timing};

fn ready() -> VaultState {
    VaultState(VaultStatus::Ready("/v".into()))
}

#[test]
fn settings_at_first() {
    let c = Config::default();
    assert_eq!(c.vault_path, None);
    assert_eq!(c.version, 1);
    assert_eq!(c.default_reminder_time, "09:00");
    let c = Config::for_vault("/v");
    assert_eq!(c.vault_path.as_deref(), Some("/v"));
    assert_eq!((c.version, c.default_reminder_time.as_str()), (1, "09:00"));
}

#[test]
fn settings_that_make_no_sense_are_set_aside() {
    for (found, aside) in [
        (Loaded::NoPlace, false),
        (Loaded::Missing, false),
        (Loaded::Unreadable, false),
        (Loaded::Corrupt, true),
    ] {
        assert_eq!(Config::load(found), (Config::default(), aside));
    }
    let c = Config { vault_path: Some("/v".into()), version: 3, default_reminder_time: "7:5".into() };
    assert_eq!(Config::load(Loaded::Parsed(c.clone())), (c, false));
}

#[test]
fn the_status_of_a_vault() {
    let none = Config::default();
    assert_eq!(none.vault_status(true, true), VaultStatus::NotChosen);
    let c = Config::for_vault("/v");
    assert_eq!(c.vault_status(false, true), VaultStatus::Missing("/v".into()));
    assert_eq!(c.vault_status(true, false), VaultStatus::NotWritable("/v".into()));
    assert_eq!(c.vault_status(true, true), VaultStatus::Ready("/v".into()));
}

#[test]
fn a_vault_that_cannot_be_used_says_why() {
    let reason = |s: VaultStatus| s.reason();
    assert_eq!(reason(VaultStatus::Ready("/v".into())), None);
    assert_eq!(reason(VaultStatus::NotChosen).unwrap(), "还没有选择笔记存放位置");
    assert_eq!(
        reason(VaultStatus::Missing("/v".into())).unwrap(),
        "上次使用的笔记目录已不存在：/v"
    );
    assert_eq!(
        reason(VaultStatus::NotWritable("/v".into())).unwrap(),
        "笔记目录没有写入权限：/v"
    );
    assert_eq!(VaultStatus::Ready("/v".into()).ready_path().unwrap(), "/v");
    assert!(VaultStatus::NotChosen.ready_path().is_none());
    assert_eq!(
        VaultStatus::Ready("/v".into()).without_database(),
        VaultStatus::NotWritable("/v".into())
    );
    assert_eq!(VaultStatus::NotChosen.without_database(), VaultStatus::NotChosen);
}

#[test]
fn the_time_to_remind_falls_back_to_nine() {
    let at = |s: &str| Config {
        default_reminder_time: s.into(),
        ..Config::default()
    }
    .parse_default_reminder_time();
    assert_eq!(at("07:30"), (7, 30));
    assert_eq!(at("7:5"), (7, 5));
    assert_eq!(at("23:59"), (23, 59));
    for bad in ["", "24:00", "12:60", "12", "1:2:3", "a:b", " 9:00", "-1:00"] {
        assert_eq!(at(bad), (9, 0), "{bad}");
    }
}

#[test]
fn the_places_of_a_vault() {
    assert_eq!(state_dir("/v").below, [".noteidea"]);
    assert_eq!(db_path("/v").below, [".noteidea", "local.db"]);
    assert_eq!(inbox_path("/v").below, ["inbox.md"]);
    assert_eq!(assets_dir("/v").below, ["assets"]);
    assert_eq!(db_path("/v").root, "/v");
}

#[test]
fn git_is_told_once() {
    for existing in ["", "a", "a\n", "#.noteidea\n", ".noteideas"] {
        let out = ensure_gitignore(existing).unwrap();
        assert!(out.starts_with(existing));
        assert!(out.ends_with(".noteidea/\n"));
        assert_eq!(ensure_gitignore(&out), None);
    }
    assert_eq!(ensure_gitignore("a").unwrap(), "a\n.noteidea/\n");
    assert_eq!(ensure_gitignore("").unwrap(), ".noteidea/\n");
    for known in [".noteidea/", " .noteidea ", "a\r\n/.noteidea/\r\nb", "x\n/.noteidea"] {
        assert_eq!(ensure_gitignore(known), None, "{known:?}");
    }
}

#[test]
fn a_sound_database_is_opened_step_by_step() {
    assert_eq!(try_open(Probed::Exists(true)), NextProbe::Open);
    assert_eq!(try_open(Probed::Opened(Ok(()))), NextProbe::Configure);
    assert_eq!(try_open(Probed::Configured(Ok(()))), NextProbe::Integrity);
    assert_eq!(try_open(Probed::Integrity(Ok("ok".into()))), NextProbe::WriteLock);
    assert_eq!(try_open(Probed::WriteLock(Ok(()))), NextProbe::Version);
    assert_eq!(try_open(Probed::Version(Ok(1))), NextProbe::Ready);
    assert_eq!(try_open(Probed::Version(Ok(0))), NextProbe::CreateSchema);
    assert_eq!(try_open(Probed::SchemaCreated(Ok(()))), NextProbe::Ready);
}

#[test]
fn a_broken_database_is_made_anew() {
    let rebuild = |p: Probed| match try_open(p) {
        NextProbe::Fail(OpenError::Rebuild(m)) => m,
        other => panic!("{other:?}"),
    };
    assert_eq!(rebuild(Probed::Exists(false)), "数据库不存在");
    assert_eq!(rebuild(Probed::Opened(Err("e".into()))), "打开失败: e");
    assert_eq!(rebuild(Probed::Configured(Err("e".into()))), "e");
    assert_eq!(rebuild(Probed::Integrity(Err("e".into()))), "完整性检查失败: e");
    assert_eq!(rebuild(Probed::Integrity(Ok("bad".into()))), "完整性检查未通过: bad");
    assert_eq!(rebuild(Probed::Version(Err("e".into()))), "读 schema 版本失败: e");
    assert_eq!(rebuild(Probed::Version(Ok(99))), "schema 版本 99 高于当前支持的 1");
    assert_eq!(rebuild(Probed::Version(Ok(-2))), "没有从 v-2 出发的迁移路径");
    assert_eq!(rebuild(Probed::SchemaCreated(Err("e".into()))), "e");
    assert_eq!(migrate(0).unwrap_err(), "没有从 v0 出发的迁移路径");
    assert_eq!(OpenError::Rebuild("x".into()).recovery(), Recovery::Rebuild);
}

#[test]
fn a_database_in_use_is_left_alone() {
    let e = match try_open(Probed::WriteLock(Err("busy".into()))) {
        NextProbe::Fail(e) => e,
        other => panic!("{other:?}"),
    };
    let said = "数据库被占用，可能有另一个实例正在运行: busy";
    assert_eq!(e, OpenError::Locked(said.into()));
    assert_eq!(e.recovery(), Recovery::Report(said.into()));
}

#[test]
fn the_time_is_taken_once_for_each_call() {
    let mut t = Timing::default();
    assert_eq!(t.mark_ready(5), None);
    assert!(!t.begin(1_000_000));
    assert_eq!(t.mark_ready(28_999_999), Some(27));
    assert_eq!(t.mark_ready(30_000_000), None);
    assert!(!t.begin(40_000_000));
    assert!(t.begin(50_000_000));
    assert_eq!(t.mark_ready(49_000_000), Some(0));
    assert_eq!(t.timings(), [27, 0]);
}

#[test]
fn the_window_for_quick_notes_comes_and_goes() {
    assert_eq!(show_quick(false, None), QuickAction::Nothing);
    assert_eq!(show_quick(true, Some(true)), QuickAction::Hide);
    assert_eq!(show_quick(true, Some(false)), QuickAction::Show);
    assert_eq!(show_quick(true, None), QuickAction::Show);
}

#[test]
fn keys_that_could_not_be_had_are_named() {
    assert!(HotkeyFailures::of(true, true, true).0.is_empty());
    assert_eq!(HotkeyFailures::of(false, true, true).0, ["插件初始化失败"]);
    assert_eq!(
        HotkeyFailures::of(true, false, false).0,
        ["Alt+Space（速记条）", "Alt+N（主窗口）"]
    );
    assert_eq!(HotkeyFailures::of(true, true, false).0, ["Alt+N（主窗口）"]);
}

#[test]
fn a_quick_note_becomes_an_item_of_the_inbox() {
    let cs = capture("  买菜 \n", &ready()).unwrap().unwrap();
    assert_eq!(cs.file_path, "inbox.md");
    assert!(cs.base_hash.is_none());
    assert!(matches!(cs.op, Operation::Append { content } if content == "- [ ] 买菜"));
    assert!(capture(" \u{3000}\t", &ready()).unwrap().is_none());
}

#[test]
fn a_quick_note_is_not_lost_without_a_vault() {
    let none = VaultState(VaultStatus::NotChosen);
    assert_eq!(capture("x", &none).unwrap_err(), "还没有选择笔记存放位置");
    assert!(capture("", &none).unwrap().is_none());
    assert_eq!(vault_state(&none).unwrap(), "还没有选择笔记存放位置");
    assert_eq!(vault_state(&ready()), None);
    assert_eq!(rescan_index(&none).unwrap_err(), "vault 不可用");
    assert_eq!(rescan_index(&ready()).unwrap(), "/v");
}

#[test]
fn an_identifier_is_written_into_its_line() {
    let cs = write_todo_id("n.md".into(), 3, "- [ ] 买菜".into(), "A3F9".into(), &ready()).unwrap();
    assert_eq!(cs.file_path, "n.md");
    assert!(cs.base_hash.is_none());
    match cs.op {
        Operation::ReplaceLine { line_number, old_content, new_content } => {
            assert_eq!(line_number, 3);
            assert_eq!(old_content, "- [ ] 买菜");
            assert_eq!(new_content, "- [ ] 买菜 ~a3f9");
        }
        other => panic!("{other:?}"),
    }
    let e = write_todo_id("n.md".into(), 3, "- [ ] x".into(), "zz".into(), &ready()).unwrap_err();
    assert_eq!(e, "Id 的取值无法用行内语法表达，拒绝写入");
    let gone = VaultState(VaultStatus::Missing("/v".into()));
    let e = write_todo_id("n.md".into(), 3, "x".into(), "a3f9".into(), &gone).unwrap_err();
    assert_eq!(e, "上次使用的笔记目录已不存在：/v");
}

#[test]
fn failed_changes_are_retried_or_discarded() {
    let mut q = WriteQueue::new();
    let cs = ChangeSet {
        file_path: "n.md".into(),
        op: Operation::Create { content: "x".into() },
        base_hash: None,
    };
    let id = enqueue_to_db(&mut q, &cs, 1);
    let said = "该记录已不存在或不处于失败状态";
    assert_eq!(retry_write(&mut q, id, 2).unwrap_err(), said);
    assert_eq!(discard_write(&mut q, id).unwrap_err(), said);
    let row: &mut StoredRow = &mut q.rows[0];
    row.retries = -1;
    assert_eq!(failed_writes(Some(&q)).len(), 1);
    assert!(failed_writes(None).is_empty());
    assert_eq!(retry_write(&mut q, id, 2), Ok(()));
    assert_eq!((q.rows[0].retries, q.rows[0].updated_at), (0, 2));
    q.rows[0].retries = -1;
    assert_eq!(discard_write(&mut q, id), Ok(()));
    assert!(q.rows.is_empty());
}

#[test]
fn only_a_directory_can_be_chosen() {
    assert_eq!(check_choice("/v", true), Ok(()));
    assert_eq!(check_choice("/v", false).unwrap_err(), "不是一个目录：/v");
}

#[test]
fn a_line_is_read_for_the_windows() {
    assert!(parse_todo_line("买菜").is_none());
    assert!(parse_todo_line("* [X] 买菜").unwrap().checked);
}

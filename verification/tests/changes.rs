use std::collections::BTreeMap;

use note_idea::actor::edits::apply_edits;
use note_idea::actor::lines::{already_appended, append, replace_line};
use note_idea::actor::path::{place_below, resolve, PathPart};
use note_idea::actor::{apply, hash, ChangeSet, Edit, FileWrite, Operation, WriteError};

/// The files of a vault, in memory.
struct Vault(BTreeMap<String, String>);

impl Vault {
    fn new() -> Self {
        Vault(BTreeMap::new())
    }

    fn write(&mut self, rel: &str, content: &str) {
        self.0.insert(rel.to_string(), content.to_string());
    }

    fn read(&self, rel: &str) -> String {
        self.0[rel].clone()
    }

    fn apply(&mut self, cs: &ChangeSet) -> Result<(), WriteError> {
        let path = resolve("/vault", &cs.file_path)?.below.join("/");
        let current = self.0.get(&path).cloned();
        let FileWrite { path, content } = apply("/vault", cs, current.as_deref())?;
        assert_eq!(path.root, "/vault");
        self.0.insert(path.below.join("/"), content);
        Ok(())
    }
}

fn cs(file: &str, op: Operation, base: Option<String>) -> ChangeSet {
    ChangeSet { file_path: file.into(), op, base_hash: base }
}

fn edit(from: usize, to: usize, insert: &str) -> Edit {
    Edit { from, to, insert: insert.into() }
}

fn text(chars: Vec<char>) -> String {
    chars.into_iter().collect()
}

#[test]
fn apply_edits_applies_multiple_non_adjacent_changes() {
    let mut t = Vault::new();
    let original = "第一行\n中间不变\n最后一行\n";
    t.write("note.md", original);
    let edits = vec![
        Edit { from: 0, to: 3, insert: "标题".into() },
        Edit { from: 9, to: 13, insert: "结尾".into() },
    ];
    let changes = cs("note.md", Operation::ApplyEdits { edits }, Some(hash(original)));
    t.apply(&changes).unwrap();
    assert_eq!(t.read("note.md"), "标题\n中间不变\n结尾\n");
}

#[test]
fn apply_edits_uses_utf16_offsets_not_bytes() {
    let mut t = Vault::new();
    let original = "中文\n";
    t.write("note.md", original);
    let changes = cs(
        "note.md",
        Operation::ApplyEdits { edits: vec![Edit { from: 0, to: 2, insert: "AB".into() }] },
        Some(hash(original)),
    );
    t.apply(&changes).unwrap();
    assert_eq!(t.read("note.md"), "AB\n");
}

#[test]
fn apply_edits_rejects_stale_base_without_touching_file() {
    let mut t = Vault::new();
    let original = "原始内容\n";
    t.write("note.md", original);
    let changes = cs(
        "note.md",
        Operation::ApplyEdits { edits: vec![Edit { from: 0, to: 2, insert: "改".into() }] },
        Some(hash("不是当前内容")),
    );
    let error = t.apply(&changes).unwrap_err().message().clone();
    assert!(error.contains("编辑冲突"));
    assert!(error.contains(&hash(original)));
    assert_eq!(t.read("note.md"), original);
}

#[test]
fn apply_edits_rejects_invalid_batch_before_writing() {
    let mut t = Vault::new();
    let original = "0123456789";
    t.write("note.md", original);
    let changes = cs(
        "note.md",
        Operation::ApplyEdits {
            edits: vec![
                Edit { from: 0, to: 1, insert: "a".into() },
                Edit { from: 9, to: 20, insert: "b".into() },
            ],
        },
        Some(hash(original)),
    );
    assert!(t.apply(&changes).is_err());
    assert_eq!(t.read("note.md"), original);
}

#[test]
fn apply_edits_rejects_overlapping_and_reversed_ranges() {
    let mut t = Vault::new();
    let original = "0123456789";
    t.write("note.md", original);
    for edits in [
        vec![
            Edit { from: 2, to: 6, insert: "a".into() },
            Edit { from: 4, to: 8, insert: "b".into() },
        ],
        vec![Edit { from: 8, to: 3, insert: "x".into() }],
    ] {
        let changes = cs("note.md", Operation::ApplyEdits { edits }, Some(hash(original)));
        assert!(t.apply(&changes).is_err());
        assert_eq!(t.read("note.md"), original);
    }
}

#[test]
fn apply_edits_rejects_missing_base_hash() {
    let mut t = Vault::new();
    t.write("note.md", "内容");
    let changes = cs("note.md", Operation::ApplyEdits { edits: Vec::new() }, None);
    assert!(t.apply(&changes).is_err());
}

#[test]
fn append_to_missing_file_creates_it() {
    let mut t = Vault::new();
    t.apply(&cs("inbox.md", Operation::Append { content: "- [ ] a".into() }, None)).unwrap();
    assert_eq!(t.read("inbox.md"), "- [ ] a\n");
}

#[test]
fn append_inserts_newline_when_previous_line_unterminated() {
    let mut t = Vault::new();
    t.write("inbox.md", "- [ ] first");
    t.apply(&cs("inbox.md", Operation::Append { content: "- [ ] second".into() }, None)).unwrap();
    assert_eq!(t.read("inbox.md"), "- [ ] first\n- [ ] second\n");
}

#[test]
fn replace_line_touches_only_that_line() {
    let mut t = Vault::new();
    let original = "# 标题\n\n- [ ] 交周报 ~a3f9\n- [ ] 别的事\n\n正文*斜体*保持原样\n";
    t.write("n.md", original);
    t.apply(&cs(
        "n.md",
        Operation::ReplaceLine {
            line_number: 3,
            old_content: "- [ ] 交周报 ~a3f9".into(),
            new_content: "- [x] 交周报 ~a3f9".into(),
        },
        Some(hash(original)),
    ))
    .unwrap();
    assert_eq!(
        t.read("n.md"),
        "# 标题\n\n- [x] 交周报 ~a3f9\n- [ ] 别的事\n\n正文*斜体*保持原样\n"
    );
}

#[test]
fn replace_line_relocates_when_line_drifted() {
    let mut t = Vault::new();
    let original = "- [ ] 目标\n";
    t.write("n.md", "新增一行\n又一行\n- [ ] 目标\n");
    t.apply(&cs(
        "n.md",
        Operation::ReplaceLine {
            line_number: 1,
            old_content: "- [ ] 目标".into(),
            new_content: "- [x] 目标".into(),
        },
        Some(hash(original)),
    ))
    .unwrap();
    assert_eq!(t.read("n.md"), "新增一行\n又一行\n- [x] 目标\n");
}

#[test]
fn replace_line_rejects_ambiguous_duplicate() {
    let mut t = Vault::new();
    t.write("n.md", "- [ ] 买菜\n- [ ] 买菜\n");
    let err = t
        .apply(&cs(
            "n.md",
            Operation::ReplaceLine {
                line_number: 1,
                old_content: "- [ ] 买菜".into(),
                new_content: "- [x] 买菜".into(),
            },
            Some("过期的哈希".into()),
        ))
        .unwrap_err();
    assert!(matches!(err, WriteError::Rejected(_)), "多行同内容必须拒绝，不能猜");
    assert_eq!(t.read("n.md"), "- [ ] 买菜\n- [ ] 买菜\n");
}

#[test]
fn replace_line_rejects_when_target_gone() {
    let mut t = Vault::new();
    t.write("n.md", "- [ ] 别的\n");
    let err = t
        .apply(&cs(
            "n.md",
            Operation::ReplaceLine {
                line_number: 1,
                old_content: "- [ ] 已被删掉的".into(),
                new_content: "- [x] 已被删掉的".into(),
            },
            Some("过期".into()),
        ))
        .unwrap_err();
    assert!(matches!(err, WriteError::Rejected(_)));
    assert_eq!(t.read("n.md"), "- [ ] 别的\n");
}

#[test]
fn create_rejects_existing() {
    let mut t = Vault::new();
    t.write("n.md", "已有内容\n");
    let err = t.apply(&cs("n.md", Operation::Create { content: "新".into() }, None)).unwrap_err();
    assert!(matches!(err, WriteError::Rejected(_)));
    assert_eq!(t.read("n.md"), "已有内容\n", "不得覆盖已有文件");
}

#[test]
fn rejects_path_escaping_vault() {
    let mut t = Vault::new();
    for bad in ["../outside.md", "sub/../../outside.md"] {
        let err = t.apply(&cs(bad, Operation::Append { content: "x".into() }, None)).unwrap_err();
        assert!(matches!(err, WriteError::Rejected(_)), "{bad} 应被拒绝");
    }
}

#[test]
fn replace_file_overwrites_whole_content() {
    let mut t = Vault::new();
    t.write("n.md", "旧的全部内容\n");
    t.apply(&cs("n.md", Operation::ReplaceFile { content: "恢复的内容\n".into() }, None)).unwrap();
    assert_eq!(t.read("n.md"), "恢复的内容\n");
}

#[test]
fn a_hash_is_that_of_blake3() {
    assert_eq!(hash(""), "af1349b9f5f9a1a6a0404dea36dcc9499bcb25c9adc112b7cc9a93cae41f3262");
    assert_eq!(
        hash("中文"),
        blake3::hash("中文".as_bytes()).to_hex().as_str()
    );
    assert_ne!(hash("a"), hash("b"));
}

#[test]
fn create_makes_a_file_as_given() {
    let mut t = Vault::new();
    t.apply(&cs("sub/./n.md", Operation::Create { content: "新".into() }, None)).unwrap();
    assert_eq!(t.read("sub/n.md"), "新");
}

#[test]
fn edits_at_one_place_stand_in_reverse() {
    let out = apply_edits("abc", &[edit(1, 1, "X"), edit(1, 1, "Y")]).unwrap();
    assert_eq!(text(out), "aYXbc");
}

#[test]
fn an_insertion_before_a_replaced_range_is_made() {
    let out = apply_edits("abcd", &[edit(1, 1, "+"), edit(1, 3, "-")]).unwrap();
    assert_eq!(text(out), "a+-d");
    let out = apply_edits("abcd", &[edit(3, 3, "+"), edit(1, 3, "-")]).unwrap();
    assert_eq!(text(out), "a-+d");
}

#[test]
fn edits_must_not_split_a_character() {
    let s = "a😀b";
    assert_eq!(text(apply_edits(s, &[edit(1, 3, "x")]).unwrap()), "axb");
    assert_eq!(text(apply_edits(s, &[edit(4, 4, "!")]).unwrap()), "a😀b!");
    let e = apply_edits(s, &[edit(1, 2, "x")]).unwrap_err();
    assert_eq!(e, WriteError::Rejected("编辑区间未对齐字符边界".into()));
    let e = apply_edits(s, &[edit(2, 3, "x")]).unwrap_err();
    assert_eq!(e, WriteError::Rejected("编辑区间未对齐字符边界".into()));
}

#[test]
fn refused_edits_say_why() {
    let e = apply_edits("0123", &[edit(2, 5, "")]).unwrap_err();
    assert_eq!(e, WriteError::Rejected("编辑区间超出文件边界".into()));
    let e = apply_edits("0123", &[edit(3, 2, "")]).unwrap_err();
    assert_eq!(e, WriteError::Rejected("编辑区间超出文件边界".into()));
    let e = apply_edits("0123", &[edit(0, 2, ""), edit(1, 3, "")]).unwrap_err();
    assert_eq!(e, WriteError::Rejected("编辑区间重叠".into()));
}

#[test]
fn no_edits_leave_a_text_as_it_is() {
    assert_eq!(text(apply_edits("a\nb", &[]).unwrap()), "a\nb");
    assert_eq!(text(apply_edits("", &[]).unwrap()), "");
}

#[test]
fn a_conflict_names_the_hash_of_the_file() {
    let e = apply(
        "/v",
        &cs("n.md", Operation::ApplyEdits { edits: vec![] }, Some("x".into())),
        Some("now"),
    )
    .unwrap_err();
    assert_eq!(
        e,
        WriteError::Rejected(format!("编辑冲突：磁盘内容已变化（当前哈希：{}）", hash("now")))
    );
    let e = apply("/v", &cs("n.md", Operation::ApplyEdits { edits: vec![] }, None), Some("now"))
        .unwrap_err();
    assert_eq!(e, WriteError::Rejected("apply_edits 必须携带基线哈希".into()));
}

#[test]
fn appended_lines_are_found_again() {
    for current in ["", "a", "a\n", "a\n\n"] {
        for content in ["", "x", "x\n", "x\ny"] {
            let out = text(append(current, content));
            assert!(out.starts_with(current));
            assert!(out.ends_with('\n'));
            assert!(already_appended(Some(&out), content), "{out:?} {content:?}");
        }
    }
    assert!(!already_appended(None, "x"));
    assert!(!already_appended(Some("x"), "x"));
    assert!(!already_appended(Some("x\ny\n"), "x"));
}

#[test]
fn a_line_is_found_by_its_number_in_the_known_content() {
    let same = "买菜\n买菜\n";
    let out = replace_line(same, true, 2, "买菜", "买酒").unwrap();
    assert_eq!(text(out), "买菜\n买酒\n");
    let out = replace_line("a\nb", true, 1, "b", "c").unwrap();
    assert_eq!(text(out), "a\nc");
}

#[test]
fn a_line_that_is_not_found_is_named() {
    let e = replace_line("a\nb\n", true, 0, "a", "x").unwrap_err();
    assert_eq!(e, WriteError::Rejected("行号从 1 开始，收到 0".into()));
    let e = replace_line("a\nb\n", true, 3, "a", "x").unwrap_err();
    assert_eq!(e, WriteError::Rejected("行号 3 超出文件范围（共 2 行）".into()));
    let e = replace_line("a\na\n", false, 1, "a", "x").unwrap_err();
    assert_eq!(e, WriteError::Rejected("有多行内容相同，无法确定改哪一行：a".into()));
    let e = replace_line("a\nb\n", false, 1, "c", "x").unwrap_err();
    assert_eq!(e, WriteError::Rejected("目标行已不存在，可能已被改动：c".into()));
}

#[test]
fn replacing_a_line_keeps_the_end_of_the_file() {
    assert_eq!(text(replace_line("a\nb", false, 1, "b", "c").unwrap()), "a\nc");
    assert_eq!(text(replace_line("a\r\nb\r\n", false, 1, "a\r", "c\r").unwrap()), "c\r\nb\r\n");
    assert_eq!(text(replace_line("a", false, 1, "a", "").unwrap()), "");
    assert_eq!(text(replace_line("a\n", false, 1, "a", "").unwrap()), "\n");
    assert_eq!(text(replace_line("a\nb", false, 2, "b", "").unwrap()), "a\n");
    assert_eq!(text(replace_line("", false, 1, "", "x").unwrap()), "x");
    assert_eq!(text(replace_line("\n", false, 1, "", "x").unwrap()), "x\n");
}

#[test]
fn a_file_that_exists_is_named() {
    let e = apply("/v", &cs("n.md", Operation::Create { content: "x".into() }, None), Some(""))
        .unwrap_err();
    assert_eq!(e, WriteError::Rejected("文件已存在: n.md".into()));
}

#[test]
fn paths_below_the_vault_are_resolved() {
    let p = resolve("/v", "a//b/./c.md").unwrap();
    assert_eq!(p.root, "/v");
    assert_eq!(p.below, ["a", "b", "c.md"]);
    assert_eq!(resolve("/v", "./n.md").unwrap().below, ["n.md"]);
    assert_eq!(resolve("/v", "a/").unwrap().below, ["a"]);
    assert!(resolve("/v", "").unwrap().below.is_empty());
    assert_eq!(resolve("/v", "...").unwrap().below, ["..."]);
    assert_eq!(resolve("/v", "notes/12:30.md").unwrap().below, ["notes", "12:30.md"]);
    let below = resolve("/v", "a\\b").unwrap().below;
    assert!(below == ["a\\b"] || below == ["a", "b"]);
}

#[test]
fn no_reading_of_a_path_leads_out_of_the_vault() {
    for path in [
        "/etc/x", "//x", "..", "../x", "x/..", "a/../../x", "a:/../../x", "\\a/../../x", "a\\b/../x",
        "C:/../x", "./../x",
    ] {
        let e = resolve("/v", path).unwrap_err();
        assert!(matches!(e, WriteError::Rejected(_)), "{path}");
        let e = apply("/v", &cs(path, Operation::Append { content: "x".into() }, None), None)
            .unwrap_err();
        assert!(matches!(e, WriteError::Rejected(_)), "{path}");
    }
    for path in ["a:/b", "\\a/b", "a\\..\\b", "./C:x", "a/C:x"] {
        if let Ok(p) = resolve("/v", path) {
            assert_eq!(p.root, "/v");
            for name in &p.below {
                assert!(!name.contains('/') && !["", ".", ".."].contains(&name.as_str()), "{path}");
            }
        }
    }
}

#[test]
fn the_order_in_which_edits_are_given_does_not_matter() {
    let e = |from: usize, to: usize, insert: &str| Edit { from, to, insert: insert.into() };
    let made = |edits: Vec<Edit>| {
        let base = Some(hash("0123456789"));
        apply("/v", &cs("n.md", Operation::ApplyEdits { edits }, base), Some("0123456789"))
            .map(|w| w.content)
    };
    let (a, b, c) = (e(0, 1, "x"), e(3, 3, "y"), e(5, 9, ""));
    assert_eq!(made(vec![a.clone(), b.clone(), c.clone()]).unwrap(), "x12y349");
    assert_eq!(made(vec![c.clone(), a.clone(), b.clone()]).unwrap(), "x12y349");
    let d = e(4, 6, "z");
    let one = made(vec![c.clone(), d.clone(), a.clone()]).unwrap_err();
    assert_eq!(made(vec![a, d, c]).unwrap_err(), one);
    assert_eq!(made(vec![e(2, 2, "p"), e(2, 2, "q")]).unwrap(), "01qp23456789");
    assert_eq!(made(vec![e(2, 2, "q"), e(2, 2, "p")]).unwrap(), "01pq23456789");
}

#[test]
fn paths_that_leave_the_vault_are_refused() {
    let e = resolve("/v", "a/../b").unwrap_err();
    assert_eq!(e, WriteError::Rejected("路径不得包含 ..: a/../b".into()));
    let e = resolve("/v", "/etc/passwd").unwrap_err();
    assert!(
        e == WriteError::Rejected("只接受相对路径: /etc/passwd".into())
            || e == WriteError::Rejected("非法路径: /etc/passwd".into())
    );
}

#[test]
fn parts_of_a_path_decide_where_it_leads() {
    let n = |s: &str| PathPart::Normal(s.into());
    let p = place_below("/v", "x", false, &[PathPart::CurDir, n("a"), n("b")]).unwrap();
    assert_eq!(p.below, ["a", "b"]);
    let e = place_below("/v", "x", true, &[n("a")]).unwrap_err();
    assert_eq!(e, WriteError::Rejected("只接受相对路径: x".into()));
    let e = place_below("/v", "x", false, &[n("a"), PathPart::ParentDir]).unwrap_err();
    assert_eq!(e, WriteError::Rejected("路径不得包含 ..: x".into()));
    let e = place_below("/v", "x", false, &[PathPart::RootDir, PathPart::ParentDir]).unwrap_err();
    assert_eq!(e, WriteError::Rejected("非法路径: x".into()));
    let e = place_below("/v", "x", false, &[PathPart::Prefix]).unwrap_err();
    assert_eq!(e, WriteError::Rejected("非法路径: x".into()));
}

#[test]
fn operations_have_names() {
    let ops = [
        (Operation::Append { content: String::new() }, "append", true),
        (
            Operation::ReplaceLine {
                line_number: 1,
                old_content: String::new(),
                new_content: String::new(),
            },
            "replace_line",
            true,
        ),
        (Operation::Create { content: String::new() }, "create", false),
        (Operation::ApplyEdits { edits: vec![] }, "apply_edits", true),
        (Operation::ReplaceFile { content: String::new() }, "replace_file", false),
    ];
    for (op, name, reads) in ops {
        assert_eq!(op.name(), name);
        assert_eq!(op.clone().name(), name);
        assert_eq!(op.reads_content(), reads);
    }
}

use note_idea::todo::serialize::{serialize_marker, write_marker_to_line};
use note_idea::todo::syntax::{
    days_in_month, is_leap, parse, parse_fragment, DatePart, Intensity, MarkerKind, MarkerValue,
    Recurrence, TimeExpr,
};

fn tag(s: &str) -> MarkerValue {
    MarkerValue::Tag(s.to_string())
}

fn id(s: &str) -> MarkerValue {
    MarkerValue::Id(s.to_string())
}

fn clock(h: u32, m: u32) -> MarkerValue {
    MarkerValue::Time(TimeExpr { date: None, time: Some((h, m)) })
}

#[test]
fn markers_are_listed_from_the_right() {
    let line = "- [ ] 交周报 @2026-08-14 18:00 !every_3d #工作 ^ring ~A3F9  ";
    let t = parse(line).unwrap();
    let found: Vec<(&str, MarkerKind)> = t
        .markers
        .iter()
        .map(|m| (&line[m.span.start..=m.span.end], m.value.kind()))
        .collect();
    assert_eq!(
        found,
        [
            ("~A3F9", MarkerKind::Id),
            ("^ring", MarkerKind::Intensity),
            ("#工作", MarkerKind::Tag),
            ("!every_3d", MarkerKind::Repeat),
            ("@2026-08-14 18:00", MarkerKind::Time),
        ]
    );
    assert_eq!(t.markers[0].value, id("a3f9"));
    assert_eq!(t.markers[3].value, MarkerValue::Repeat(Recurrence::EveryDays { n: 3 }));
    assert_eq!(&line[t.content.start..=t.content.end], "交周报");
    assert!(t.degraded.is_empty());
}

#[test]
fn a_line_of_markers_alone_has_no_text() {
    let line = "- [ ] #a #b";
    let t = parse(line).unwrap();
    assert_eq!(t.markers.len(), 2);
    assert_eq!((t.content.start, t.content.end), (6, 5));
}

#[test]
fn a_refused_marker_is_part_of_the_text() {
    let line = "- [ ] 任务 @today 18:00 @19:00";
    let t = parse(line).unwrap();
    assert_eq!(t.markers.len(), 1);
    assert_eq!(t.markers[0].value, clock(19, 0));
    let d = t.degraded[0];
    assert_eq!(d.suspected, MarkerKind::Time);
    assert_eq!(&line[d.span.start..=d.span.end], "@today 18:00");
    assert_eq!(&line[t.content.start..=t.content.end], "任务 @today 18:00");
}

#[test]
fn every_kind_of_marker_can_be_refused() {
    for (text, kind) in [
        ("@x", MarkerKind::Time),
        ("@2026-02-29", MarkerKind::Time),
        ("@24:00", MarkerKind::Time),
        ("@9:00", MarkerKind::Time),
        ("@09:5", MarkerKind::Time),
        ("@+9:00", MarkerKind::Time),
        ("@009:00", MarkerKind::Time),
        ("@2026-1-2", MarkerKind::Time),
        ("@2026-01-2", MarkerKind::Time),
        ("@026-01-02", MarkerKind::Time),
        ("@+2026-01-02", MarkerKind::Time),
        ("!sometimes", MarkerKind::Repeat),
        ("!every_0d", MarkerKind::Repeat),
        ("!every_3m", MarkerKind::Repeat),
        ("^loud", MarkerKind::Intensity),
        ("~xyz1", MarkerKind::Id),
        ("~abc", MarkerKind::Id),
        ("~012345678", MarkerKind::Id),
    ] {
        let line = format!("- [ ] x {text} #t");
        let t = parse(&line).unwrap();
        assert_eq!(t.markers.len(), 1, "{line}");
        assert_eq!(t.degraded.len(), 1, "{line}");
        assert_eq!(t.degraded[0].suspected, kind, "{line}");
    }
}

#[test]
fn checkboxes_of_all_forms() {
    for (line, checked) in [
        ("- [ ] a", false),
        ("* [x] a", true),
        ("[X] a", true),
        ("\t-   [ ] a", false),
    ] {
        assert_eq!(parse(line).unwrap().checked, checked, "{line}");
    }
    for line in ["- [] a", "- [ ]a", "+ [ ] a", "-[ ] a", "", "- [y] a"] {
        assert!(parse(line).is_none(), "{line}");
    }
}

#[test]
fn a_marker_is_found_by_its_bytes() {
    let line = "- [ ] 买 #中 ^full";
    let t = parse(line).unwrap();
    let at = line.find('#').unwrap();
    assert_eq!(t.marker_at(at).unwrap().value, tag("中"));
    assert_eq!(t.marker_at(at + 3).unwrap().value, tag("中"));
    assert!(t.marker_at(at + 4).is_none());
    assert!(t.marker_at(0).is_none());
    assert_eq!(t.marker_at(line.len() - 1).unwrap().value, MarkerValue::Intensity(Intensity::Full));
    assert!(t.marker_at(line.len()).is_none());
}

#[test]
fn a_written_value_is_read_back() {
    let lines = ["- [ ] 买菜", "买菜 \"#x\" #y", "- [x] a @today 09:00 !daily #t ^ring ~beef \t", "[ ]"];
    let values = [
        clock(7, 5),
        MarkerValue::Time(TimeExpr {
            date: Some(DatePart::Absolute { year: 12026, month: 2, day: 28 }),
            time: Some((0, 59)),
        }),
        MarkerValue::Repeat(Recurrence::EveryWeeks { n: u32::MAX }),
        tag("新"),
        MarkerValue::Intensity(Intensity::Full),
        id("0000cafe"),
    ];
    for line in lines {
        for v in &values {
            let out = write_marker_to_line(line, v).unwrap();
            let t = parse(&out).unwrap_or_else(|| parse_fragment(&out));
            assert!(t.markers.iter().any(|m| m.value == *v), "{out}");
            assert_eq!(write_marker_to_line(&out, v).unwrap(), out);
            let count = t.markers.iter().filter(|m| m.value.kind() == v.kind()).count();
            assert!(count == 1 || v.kind() == MarkerKind::Tag, "{out}");
        }
    }
}

#[test]
fn writing_keeps_the_other_markers() {
    let line = "- [ ] \"a b\" @today 09:00 #t ^ring ~beef";
    let before = parse(line).unwrap();
    let out = write_marker_to_line(line, &clock(23, 1)).unwrap();
    let after = parse(&out).unwrap();
    assert_eq!(out, "- [ ] \"a b\" @23:01 #t ^ring ~beef");
    assert_eq!(after.markers.len(), before.markers.len());
    for (a, b) in after.markers.iter().zip(&before.markers) {
        if a.value.kind() != MarkerKind::Time {
            assert_eq!(a.value, b.value);
        }
    }
    let gone = write_marker_to_line(line, &MarkerValue::Intensity(Intensity::Toast)).unwrap();
    assert_eq!(gone, "- [ ] \"a b\" @today 09:00 #t ~beef");
    assert_eq!(parse(&gone).unwrap().markers.len(), 3);
}

#[test]
fn white_space_of_any_kind_at_the_end_of_a_line_ends_a_marker() {
    let out = write_marker_to_line("买菜\u{3000}", &tag("t")).unwrap();
    assert_eq!(out, "买菜 #t\u{3000}");
    assert_eq!(parse_fragment(&out).markers[0].value, tag("t"));

    let out = write_marker_to_line("- [ ] 交周报\u{3000}", &tag("工作")).unwrap();
    assert_eq!(out, "- [ ] 交周报 #工作\u{3000}");
    let t = parse(&out).unwrap();
    assert_eq!(t.markers.len(), 1);
    assert_eq!(t.markers[0].value, tag("工作"));
    assert_eq!(&out[t.content.start..=t.content.end], "交周报");

    let t = parse("- [ ] a #b\u{3000}\u{a0}").unwrap();
    assert_eq!(t.markers[0].value, tag("b"));
}

#[test]
fn only_blanks_separate_words_within_a_line() {
    assert!(parse_fragment("买菜\u{3000}#家").markers.is_empty());
    let t = parse_fragment("买菜 #家\u{3000}里 ^ring");
    assert_eq!(t.markers.len(), 2);
    assert_eq!(t.markers[1].value, tag("家\u{3000}里"));
    assert_eq!(parse_fragment("a @today\u{3000}18:00 #t").markers.len(), 1);
    for c in ['\t', '\n', '\u{c}', '\r', ' '] {
        assert_eq!(parse_fragment(&format!("a{c}#t")).markers.len(), 1, "{c:?}");
    }
    assert!(parse_fragment("a\u{b}#t").markers.is_empty());
}

#[test]
fn a_fragment_reads_as_the_line_behind_a_checkbox() {
    for text in [
        "买牛奶 @2026-08-15 18:00",
        "读 \"书 #名\" @x #t ^ring",
        "#a\"b\"#c  ",
        "\u{3000}",
        "a",
        "",
        "~beef",
    ] {
        let f = parse_fragment(text);
        let t = parse(&format!("- [ ] {text}")).unwrap();
        assert!(!t.checked);
        assert_eq!(t.markers.len(), f.markers.len(), "{text}");
        for (a, b) in t.markers.iter().zip(&f.markers) {
            assert_eq!(a.value, b.value, "{text}");
            assert_eq!((a.span.start, a.span.end), (b.span.start + 6, b.span.end + 6), "{text}");
        }
        assert_eq!(t.degraded.len(), f.degraded.len(), "{text}");
        for (a, b) in t.degraded.iter().zip(&f.degraded) {
            assert_eq!(a.suspected, b.suspected, "{text}");
            assert_eq!((a.span.start, a.span.end), (b.span.start + 6, b.span.end + 6), "{text}");
        }
        assert_eq!(t.quoted.len(), f.quoted.len(), "{text}");
        assert_eq!(t.content.start, 6);
        assert!(t.content.end == f.content.end + 6 || (t.content.end, f.content.end) == (5, 0));
    }
}

#[test]
fn a_quotation_can_end_the_text() {
    for (line, content) in [
        ("- [ ] \"a\"", "\"a\""),
        ("- [ ] 读 \"书 #名\"", "读 \"书 #名\""),
        ("- [ ] 读 \"书\" #t", "读 \"书\""),
        ("- [ ] 读 \"书\"#t", "读 \"书\""),
        ("- [ ] \"a\" b", "\"a\" b"),
        ("- [ ] a ^ring \"q\"", "a"),
        ("- [ ] a \"q\" ^ring \"r\" #t", "a \"q\""),
        ("- [ ] a \"q", "a \"q"),
    ] {
        let t = parse(line).unwrap();
        assert_eq!(&line[t.content.start..=t.content.end], content, "{line}");
    }
    let text = "\"买\" #t";
    let t = parse_fragment(text);
    assert_eq!((t.content.start, t.content.end), (0, 4));
}

#[test]
fn parts_of_a_text_do_not_meet() {
    for text in [
        "a \"b\" @today 09:00 #x #y",
        "@x !daily \"q\" ~beef",
        "- [ ] a !daily !weekdays",
        "#a\"b\"#c",
        "",
    ] {
        let t = parse(text).unwrap_or_else(|| parse_fragment(text));
        assert_eq!(t.checked, false);
        assert!(t.degraded.len() <= 1, "{text}");
        let mut right = text.len();
        for m in &t.markers {
            assert!(t.content.start <= m.span.start && m.span.start <= m.span.end, "{text}");
            assert!(m.span.end < right, "{text}");
            right = m.span.start;
            for q in &t.quoted {
                assert!(q.end < m.span.start || m.span.end < q.start, "{text}");
            }
        }
        for d in &t.degraded {
            assert!(t.content.start <= d.span.start && d.span.end < right, "{text}");
            assert!(d.span.end <= t.content.end, "{text}");
        }
    }
}

#[test]
fn a_default_leaves_the_rest_of_the_line() {
    for (line, v, out) in [
        (
            "- [ ] 开会 !daily #t ^ring ~beef  ",
            MarkerValue::Repeat(Recurrence::Once),
            "- [ ] 开会 #t ^ring ~beef  ",
        ),
        ("- [x] a ^full\t", MarkerValue::Intensity(Intensity::Toast), "- [x] a\t"),
        ("- [ ] \"a\" ^ring #t", MarkerValue::Intensity(Intensity::Toast), "- [ ] \"a\" #t"),
        ("- [ ] ^ring #t", MarkerValue::Intensity(Intensity::Toast), "- [ ] #t"),
        ("- [ ] x ^loud ^ring", MarkerValue::Intensity(Intensity::Toast), "- [ ] x ^loud"),
        ("- [ ] a #t", MarkerValue::Intensity(Intensity::Toast), "- [ ] a #t"),
    ] {
        assert_eq!(write_marker_to_line(line, &v).unwrap(), out);
        let before = parse(line).unwrap();
        let after = parse(out).unwrap();
        assert_eq!(after.checked, before.checked);
        assert_eq!(after.content, before.content);
        let others: Vec<&MarkerValue> =
            before.markers.iter().map(|m| &m.value).filter(|w| w.kind() != v.kind()).collect();
        let left: Vec<&MarkerValue> = after.markers.iter().map(|m| &m.value).collect();
        assert_eq!(left, others);
    }
}

#[test]
fn refusals_say_why() {
    assert_eq!(write_marker_to_line(" \t", &tag("x")).unwrap_err(), "空行无法承载标记");
    for (v, name) in [
        (tag("a b"), "Tag"),
        (id("x"), "Id"),
        (clock(24, 0), "Time"),
        (MarkerValue::Repeat(Recurrence::EveryDays { n: 0 }), "Repeat"),
    ] {
        assert_eq!(
            write_marker_to_line("a", &v).unwrap_err(),
            format!("{name} 的取值无法用行内语法表达，拒绝写入")
        );
    }
}

#[test]
fn texts_of_values() {
    for (v, text) in [
        (clock(0, 0), "@00:00"),
        (MarkerValue::Repeat(Recurrence::Weekdays), "!weekdays"),
        (MarkerValue::Repeat(Recurrence::EveryWeeks { n: 12 }), "!every_12w"),
        (tag("中"), "#中"),
        (MarkerValue::Intensity(Intensity::Ring), "^ring"),
        (id("DEADBEEF"), "~deadbeef"),
    ] {
        assert_eq!(serialize_marker(&v).unwrap(), text);
    }
}

#[test]
fn months_and_leap_years() {
    assert!(is_leap(2000) && is_leap(2024) && !is_leap(1900) && !is_leap(2023));
    let days: Vec<u32> = (1..=12).map(|m| days_in_month(2024, m)).collect();
    assert_eq!(days, [31, 29, 31, 30, 31, 30, 31, 31, 30, 31, 30, 31]);
    assert_eq!(days_in_month(2023, 2), 28);
    assert_eq!(days_in_month(2023, 13), 0);
    assert_eq!(days_in_month(2023, 0), 0);
}

#[test]
fn quotations_hold_no_markers() {
    let line = "- [ ] a \"#x @today\" #y";
    let t = parse(line).unwrap();
    assert_eq!(t.markers.len(), 1);
    assert_eq!(t.markers[0].value, tag("y"));
    assert_eq!(t.quoted.len(), 1);
    assert_eq!(&line[t.quoted[0].start..=t.quoted[0].end], "\"#x @today\"");
}

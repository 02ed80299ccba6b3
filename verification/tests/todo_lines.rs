use note_idea::todo::serialize::{serialize_marker, write_marker_to_line};
use note_idea::todo::syntax::{
    parse, parse_fragment, DatePart, Intensity, MarkerKind, MarkerValue, Recurrence, TimeExpr,
};

#[test]
fn test_not_a_todo() {
    assert!(parse("普通段落").is_none());
    assert!(parse("# 标题").is_none());
}

#[test]
fn test_basic_todo() {
    let line = "- [ ] 买菜";
    let result = parse(line).unwrap();
    assert!(!result.checked);
    assert_eq!(&line[result.content.start..=result.content.end], "买菜");
    assert!(result.markers.is_empty());
}

#[test]
fn test_checked_todo() {
    let line = "- [x] 已完成";
    let result = parse(line).unwrap();
    assert!(result.checked);
}

#[test]
fn test_email_not_mistaken_as_time() {
    let line = "- [ ] 联系 zhang@corp.com 确认需求";
    let result = parse(line).unwrap();
    assert!(result.markers.is_empty());
    assert_eq!(
        &line[result.content.start..=result.content.end],
        "联系 zhang@corp.com 确认需求"
    );
}

#[test]
fn test_metadata_after_body_stops_at_first_non_marker() {
    let line = "- [ ] 交周报 @2026-08-14 记得带U盘";
    let result = parse(line).unwrap();
    assert!(result.markers.is_empty());
    assert!(result.degraded.is_empty());
}

#[test]
fn test_quoted_literal() {
    let line = r#"- [ ] 转发给 "@张三" #urgent"#;
    let result = parse(line).unwrap();
    assert_eq!(result.markers.len(), 1);
    match &result.markers[0].value {
        MarkerValue::Tag(t) => assert_eq!(t, "urgent"),
        _ => panic!("expected tag"),
    }
}

#[test]
fn test_unclosed_quote_ignored() {
    let line = r#"- [ ] 记录"未闭合 @18:00"#;
    let result = parse(line).unwrap();
    assert_eq!(result.markers.len(), 1);
    match &result.markers[0].value {
        MarkerValue::Time(_) => {}
        _ => panic!("expected time"),
    }
}

#[test]
fn test_invalid_time_degrades() {
    let line = "- [ ] 任务 @无效时间";
    let result = parse(line).unwrap();
    assert!(result.markers.is_empty());
    assert_eq!(result.degraded.len(), 1);
    assert_eq!(result.degraded[0].suspected, MarkerKind::Time);
}

#[test]
fn test_duplicate_non_tag_marker_degrades() {
    let line = "- [ ] 任务 @18:00 @19:00";
    let result = parse(line).unwrap();
    assert_eq!(result.markers.len(), 1);
    assert_eq!(result.degraded.len(), 1);
}

#[test]
fn test_multiple_tags_allowed() {
    let line = "- [ ] 任务 #work #urgent #p1";
    let result = parse(line).unwrap();
    assert_eq!(result.markers.len(), 3);
    for m in &result.markers {
        assert!(matches!(m.value, MarkerValue::Tag(_)));
    }
}

#[test]
fn test_fragment_without_prefix() {
    let text = "买牛奶 @2026-08-15 18:00";
    let result = parse_fragment(text);
    assert_eq!(result.markers.len(), 1, "无前缀也要认出时间标记");
    assert!(matches!(result.markers[0].value, MarkerValue::Time(_)));
    assert!(parse(text).is_none());
}

#[test]
fn test_fragment_time_span_locates_existing_marker() {
    let text = "买牛奶 @2026-08-15 18:00";
    let result = parse_fragment(text);
    let span = result.markers[0].span;
    assert_eq!(&text[span.start..=span.end], "@2026-08-15 18:00");
}

#[test]
fn test_fragment_halfdone_time_in_degraded() {
    let text = "买牛奶 @";
    let result = parse_fragment(text);
    assert!(result.markers.is_empty());
    assert_eq!(result.degraded.len(), 1);
    assert_eq!(result.degraded[0].suspected, MarkerKind::Time);
    let span = result.degraded[0].span;
    assert_eq!(&text[span.start..=span.end], "@");
}

#[test]
fn test_fragment_plain_text_has_no_marker() {
    let result = parse_fragment("买牛奶");
    assert!(result.markers.is_empty());
    assert!(result.degraded.is_empty(), "纯文本不该产生警告");
}

#[test]
fn test_two_token_time() {
    let line = "- [ ] 会议 @2026-08-14 18:00";
    let result = parse(line).unwrap();
    assert_eq!(result.markers.len(), 1);
    match &result.markers[0].value {
        MarkerValue::Time(t) => {
            assert!(matches!(t.date, Some(DatePart::Absolute { year: 2026, month: 8, day: 14 })));
            assert_eq!(t.time, Some((18, 0)));
        }
        _ => panic!("expected time"),
    }
}

#[test]
fn test_quoted_ranges_are_exposed_for_rendering() {
    let line = r#"- [ ] 联系 "@张三" 确认"#;
    let result = parse(line).unwrap();
    assert_eq!(result.quoted.len(), 1);
    let q = result.quoted[0];
    assert_eq!(&line[q.start..=q.end], r#""@张三""#);
    assert!(result.markers.is_empty(), "引号内的 @ 不该成为标记");
}

#[test]
fn test_unclosed_quote_exposes_no_range() {
    let result = parse(r#"- [ ] 他说 "没关系"#).unwrap();
    assert!(result.quoted.is_empty(), "未闭合引号不产生屏蔽区间");
}

fn time(date: Option<DatePart>, t: Option<(u32, u32)>) -> MarkerValue {
    MarkerValue::Time(TimeExpr { date, time: t })
}

fn abs(year: u32, month: u32, day: u32) -> Option<DatePart> {
    Some(DatePart::Absolute { year, month, day })
}

fn assert_round_trip(value: MarkerValue) {
    let text = serialize_marker(&value)
        .unwrap_or_else(|| panic!("{value:?} 应当可序列化"));
    let line = format!("- [ ] 正文 {text}");
    let parsed = parse(&line).unwrap_or_else(|| panic!("{line:?} 应当仍是待办行"));
    assert_eq!(
        parsed.markers.len(),
        1,
        "{line:?} 应当只解析出一个标记，实到 {:?}（降级 {:?}）",
        parsed.markers,
        parsed.degraded
    );
    assert_eq!(parsed.markers[0].value, value, "往返后结构变了：{line:?}");
    assert_eq!(
        &line[parsed.markers[0].span.start..=parsed.markers[0].span.end],
        text,
        "span 未覆盖完整标记文本"
    );
}

#[test]
fn test_round_trip_time() {
    assert_round_trip(time(abs(2026, 8, 14), Some((18, 0))));
    assert_round_trip(time(abs(2026, 8, 14), None));
    assert_round_trip(time(None, Some((18, 0))));
    assert_round_trip(time(None, Some((0, 0))));
    assert_round_trip(time(None, Some((23, 59))));
    assert_round_trip(time(Some(DatePart::Today), None));
    assert_round_trip(time(Some(DatePart::Today), Some((20, 0))));
    assert_round_trip(time(Some(DatePart::Tomorrow), None));
    assert_round_trip(time(Some(DatePart::Tomorrow), Some((9, 5))));
    assert_round_trip(time(abs(2028, 2, 29), None));
}

#[test]
fn test_round_trip_time_pads_zeroes() {
    let text = serialize_marker(&time(abs(2026, 1, 2), Some((9, 5)))).unwrap();
    assert_eq!(text, "@2026-01-02 09:05");
}

#[test]
fn test_round_trip_repeat() {
    for r in [
        Recurrence::Daily,
        Recurrence::Weekly,
        Recurrence::Monthly,
        Recurrence::Yearly,
        Recurrence::Weekdays,
        Recurrence::EveryDays { n: 3 },
        Recurrence::EveryDays { n: 1 },
        Recurrence::EveryWeeks { n: 2 },
    ] {
        assert_round_trip(MarkerValue::Repeat(r));
    }
}

#[test]
fn test_round_trip_tag_and_intensity_and_id() {
    assert_round_trip(MarkerValue::Tag("工作".to_string()));
    assert_round_trip(MarkerValue::Tag("work".to_string()));
    assert_round_trip(MarkerValue::Intensity(Intensity::Ring));
    assert_round_trip(MarkerValue::Intensity(Intensity::Full));
    assert_round_trip(MarkerValue::Id("a3f9".to_string()));
    assert_round_trip(MarkerValue::Id("deadbeef".to_string()));
}

#[test]
fn test_defaults_are_omitted() {
    assert_eq!(serialize_marker(&MarkerValue::Repeat(Recurrence::Once)), None);
    assert_eq!(
        serialize_marker(&MarkerValue::Intensity(Intensity::Toast)),
        None
    );
}

#[test]
fn test_unrepresentable_values_refuse_to_serialize() {
    let bad = [
        time(None, None),
        time(abs(2026, 13, 1), None),
        time(abs(2026, 2, 30), None),
        time(abs(2027, 2, 29), None),
        time(abs(2026, 8, 14), Some((25, 0))),
        time(abs(2026, 8, 14), Some((12, 60))),
        MarkerValue::Repeat(Recurrence::EveryDays { n: 0 }),
        MarkerValue::Repeat(Recurrence::EveryWeeks { n: 0 }),
        MarkerValue::Tag(String::new()),
        MarkerValue::Tag("我的 标签".to_string()),
        MarkerValue::Tag("带\"引号".to_string()),
        MarkerValue::Id("xy".to_string()),
        MarkerValue::Id("0123456789".to_string()),
        MarkerValue::Id("zzzz".to_string()),
    ];
    for value in bad {
        assert_eq!(
            serialize_marker(&value),
            None,
            "{value:?} 不该被序列化成文本"
        );
    }
}

#[test]
fn test_id_is_normalized_to_lowercase() {
    assert_eq!(
        serialize_marker(&MarkerValue::Id("A3F9".to_string())).as_deref(),
        Some("~a3f9")
    );
}

#[test]
fn test_write_appends_when_absent() {
    let out = write_marker_to_line(
        "- [ ] 交周报",
        &time(abs(2026, 8, 14), Some((18, 0))),
    )
    .unwrap();
    assert_eq!(out, "- [ ] 交周报 @2026-08-14 18:00");
}

#[test]
fn test_write_replaces_same_kind_in_place() {
    let line = "- [ ] 交周报 @2026-08-14 18:00 !daily ^ring ~a3f9";
    let out = write_marker_to_line(line, &time(None, Some((9, 30)))).unwrap();
    assert_eq!(out, "- [ ] 交周报 @09:30 !daily ^ring ~a3f9");
}

#[test]
fn test_write_preserves_indent_and_body_bytes() {
    let line = "  - [x] 联系 zhang@corp.com 见 #C-3 号楼 !weekly";
    let out = write_marker_to_line(line, &MarkerValue::Intensity(Intensity::Full)).unwrap();
    assert_eq!(out, format!("{line} ^full"));
}

#[test]
fn test_write_preserves_trailing_whitespace() {
    let out = write_marker_to_line("- [ ] 交周报   ", &MarkerValue::Tag("工作".to_string()))
        .unwrap();
    assert_eq!(out, "- [ ] 交周报 #工作   ");
}

#[test]
fn test_write_preserves_crlf_carriage_return() {
    let out =
        write_marker_to_line("- [ ] 交周报\r", &MarkerValue::Repeat(Recurrence::Daily)).unwrap();
    assert_eq!(out, "- [ ] 交周报 !daily\r");
}

#[test]
fn test_write_default_removes_existing_marker() {
    let out = write_marker_to_line(
        "- [ ] 交周报 @2026-08-14 ^ring",
        &MarkerValue::Intensity(Intensity::Toast),
    )
    .unwrap();
    assert_eq!(out, "- [ ] 交周报 @2026-08-14");

    let out = write_marker_to_line(
        "- [ ] 交周报 !daily ~a3f9",
        &MarkerValue::Repeat(Recurrence::Once),
    )
    .unwrap();
    assert_eq!(out, "- [ ] 交周报 ~a3f9");
}

#[test]
fn test_write_default_on_absent_marker_is_noop() {
    let line = "- [ ] 交周报 @2026-08-14";
    assert_eq!(
        write_marker_to_line(line, &MarkerValue::Intensity(Intensity::Toast)).unwrap(),
        line
    );
    assert_eq!(
        write_marker_to_line(line, &MarkerValue::Repeat(Recurrence::Once)).unwrap(),
        line
    );
}

#[test]
fn test_write_tag_appends_and_dedups() {
    let out =
        write_marker_to_line("- [ ] 交周报 #工作", &MarkerValue::Tag("紧急".to_string()))
            .unwrap();
    assert_eq!(out, "- [ ] 交周报 #工作 #紧急");
    assert_eq!(
        write_marker_to_line(&out, &MarkerValue::Tag("工作".to_string())).unwrap(),
        out
    );
}

#[test]
fn test_write_works_on_fragment_without_prefix() {
    let out = write_marker_to_line("买牛奶 @2026-08-15 18:00", &time(None, Some((7, 0))))
        .unwrap();
    assert_eq!(out, "买牛奶 @07:00");
}

#[test]
fn test_write_refuses_unrepresentable_value() {
    let line = "- [ ] 交周报 @2026-08-14";
    assert!(write_marker_to_line(line, &MarkerValue::Tag("我的 标签".to_string())).is_err());
    assert!(write_marker_to_line(line, &time(abs(2026, 2, 30), None)).is_err());
    assert!(write_marker_to_line(line, &MarkerValue::Id("zz".to_string())).is_err());
}

#[test]
fn test_write_refuses_empty_line() {
    assert!(write_marker_to_line("", &MarkerValue::Repeat(Recurrence::Daily)).is_err());
    assert!(write_marker_to_line("   ", &MarkerValue::Repeat(Recurrence::Daily)).is_err());
}

#[test]
fn test_write_then_parse_round_trip() {
    let line = "- [ ] 交周报";
    let value = time(Some(DatePart::Tomorrow), Some((9, 0)));
    let out = write_marker_to_line(line, &value).unwrap();
    let parsed = parse(&out).unwrap();
    assert_eq!(parsed.markers.len(), 1);
    assert_eq!(parsed.markers[0].value, value);
    assert_eq!(&out[parsed.content.start..=parsed.content.end], "交周报");
}

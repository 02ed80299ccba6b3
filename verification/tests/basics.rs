use note_idea::number::{parse_u32, write_decimal, write_padded, write_signed};
use note_idea::runs::find_runs;
use note_idea::text::{blank, byte_offsets, join_with, split, trimmed, white};

fn chars(s: &str) -> Vec<char> {
    s.chars().collect()
}

fn text(c: &[char]) -> String {
    c.iter().collect()
}

#[test]
fn white_space_is_that_of_unicode() {
    for c in '\u{0}'..=char::MAX {
        assert_eq!(white(c), c.is_whitespace(), "{c:?}");
        assert_eq!(blank(c), c.is_ascii_whitespace(), "{c:?}");
    }
}

#[test]
fn numbers_are_read_as_the_standard_library_reads_them() {
    for s in [
        "", "0", "7", "007", "+5", "+", "-1", "4294967295", "4294967296", "00000000000001", "1a",
        " 1", "１", "++1",
    ] {
        assert_eq!(parse_u32(&chars(s)), s.parse::<u32>().ok(), "{s:?}");
    }
}

#[test]
fn numbers_are_written_in_base_ten() {
    for n in [0, 9, 10, 99, 12345, u64::MAX] {
        assert_eq!(text(&write_decimal(n)), n.to_string());
    }
    assert_eq!(text(&write_padded(5, 2)), "05");
    assert_eq!(text(&write_padded(123, 2)), "123");
    assert_eq!(text(&write_padded(0, 4)), "0000");
    for n in [0, -1, 42, i64::MIN, i64::MAX] {
        assert_eq!(text(&write_signed(n)), n.to_string());
    }
}

#[test]
fn runs_are_found() {
    assert_eq!(find_runs(&[true, true, false, true]), [(0, 2), (3, 4)]);
    assert!(find_runs(&[]).is_empty());
    assert!(find_runs(&[false]).is_empty());
}

#[test]
fn texts_are_split_and_joined() {
    for s in ["", ",", "a", "a,b", ",a,,b,"] {
        let pieces = split(&chars(s), ',');
        let expected: Vec<&str> = s.split(',').collect();
        let found: Vec<String> = pieces.iter().map(|p| text(p)).collect();
        assert_eq!(found, expected);
        assert_eq!(text(&join_with(&pieces, ',')), s);
    }
}

#[test]
fn white_space_is_trimmed() {
    for s in ["", " ", " a b ", "\u{3000}a\u{85}", "a\u{200b}"] {
        assert_eq!(text(trimmed(&chars(s))), s.trim());
    }
}

#[test]
fn offsets_are_in_bytes() {
    let s = "a中😀é";
    let expected: Vec<usize> = s.char_indices().map(|p| p.0).chain([s.len()]).collect();
    assert_eq!(byte_offsets(s, &chars(s)), expected);
}

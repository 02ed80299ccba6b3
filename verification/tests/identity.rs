use note_idea::commands::allocate_todo_id;
use note_idea::todo::identity::{generate_id, id_exists, id_from_digits, id_length};

#[test]
fn generates_4_hex_when_no_collision() {
    let id = generate_id(|_: &str| false).unwrap();
    assert_eq!(id.len(), 4);
    assert!(id.chars().all(|c| c.is_ascii_hexdigit()));
}

#[test]
fn widens_to_5_when_4_always_collides() {
    let mut attempts = 0;
    let id = generate_id(|candidate: &str| {
        attempts += 1;
        candidate.len() == 4
    })
    .unwrap();

    assert_eq!(id.len(), 5);
    assert!(attempts > 100);
}

#[test]
fn gives_up_after_all_lengths_exhausted() {
    let result = generate_id(|_: &str| true);
    assert!(result.is_none());
}

#[test]
fn generated_ids_are_random() {
    let id1 = generate_id(|_: &str| false).unwrap();
    let id2 = generate_id(|_: &str| false).unwrap();
    assert_ne!(id1, id2);
}

#[test]
fn each_length_is_tried_a_hundred_times() {
    let mut lengths = Vec::new();
    assert!(generate_id(|id: &str| {
        lengths.push(id.len());
        true
    })
    .is_none());
    let expected: Vec<usize> = (0..500).map(|i| 4 + i / 100).collect();
    assert_eq!(lengths, expected);
    assert_eq!((id_length(0), id_length(99), id_length(100), id_length(499)), (4, 4, 5, 8));
}

#[test]
fn digits_are_written_in_lower_case() {
    assert_eq!(id_from_digits(&[0, 9, 10, 15]), "09af");
    let all: Vec<u32> = (0..16).collect();
    assert_eq!(id_from_digits(&all), "0123456789abcdef");
}

#[test]
fn digits_of_every_value_come_up() {
    let mut seen = [false; 16];
    let _ = generate_id(|id: &str| {
        for c in id.chars() {
            seen[c.to_digit(16).unwrap() as usize] = true;
        }
        true
    });
    assert!(seen.iter().all(|s| *s));
}

#[test]
fn identifiers_of_items_are_known() {
    let ids = vec![None, Some("a3f9".to_string())];
    assert!(id_exists(&ids, "a3f9"));
    assert!(!id_exists(&ids, "A3F9"));
    assert!(!id_exists(&ids, ""));
    assert!(!id_exists(&[], "a3f9"));
}

#[test]
fn an_allocated_identifier_is_new() {
    let ids: Vec<Option<String>> = (0..0x8000).map(|n| Some(format!("{n:04x}"))).collect();
    let id = allocate_todo_id(&ids).unwrap();
    assert_eq!(id.len(), 4);
    assert!(!ids.contains(&Some(id)));
}

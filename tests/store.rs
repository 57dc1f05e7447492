use ironlist::codec::parse_line;
use ironlist::date::Date;
use ironlist::entry::{is_complete, Entry};
use ironlist::store::{entries_to_text, normalize_line, parse_lines, sort_entries};
use ironlist::visibility::{complete_entry, edit_entry, resolve_index, visible_indices, IndexOutOfRange};

fn entry(d: u32, desc: &str, tags: &[&str]) -> Entry {
    Entry {
        date: Date::from_ymd(2025, 1, d).unwrap(),
        desc: desc.to_string(),
        tags: tags.iter().map(|t| t.to_string()).collect(),
        raw_line: String::new(),
    }
}

fn lines(text: &str) -> Vec<String> {
    text.lines().map(|l| l.to_string()).collect()
}

#[test]
fn append_then_list_sorted() {
    let mut file = String::new();
    file.push_str(&normalize_line("2025-01-10\tBuy milk\thome,errand").unwrap());
    file.push('\n');
    let loaded = parse_lines(&lines(&file));
    assert_eq!(loaded.entries.len(), 1);
    assert_eq!(loaded.entries[0].tags.join(","), "home,errand");

    file.push_str(&normalize_line("2025-01-05    Pay rent").unwrap());
    file.push('\n');
    let mut entries = parse_lines(&lines(&file)).entries;
    sort_entries(&mut entries);
    assert_eq!(entries.len(), 2);
    assert_eq!(entries[0].date, Date::from_ymd(2025, 1, 5).unwrap());
    assert_eq!(entries[0].desc, "Pay rent");
    assert_eq!(entries[1].desc, "Buy milk");
}

#[test]
fn malformed_lines_are_skipped_with_their_numbers() {
    let loaded = parse_lines(&lines("2025-01-10\ta\n\nnot an entry\n2025-01-11\tb\n2025-02-30\tc"));
    let descs: Vec<&str> = loaded.entries.iter().map(|e| e.desc.as_str()).collect();
    assert_eq!(descs, vec!["a", "b"]);
    assert_eq!(loaded.skipped, vec![2, 3, 5]);
}

#[test]
fn sort_is_stable() {
    let mut entries = vec![
        entry(9, "late", &[]),
        entry(3, "first of the 3rd", &[]),
        entry(1, "early", &[]),
        entry(3, "second of the 3rd", &[]),
        entry(9, "later still", &[]),
    ];
    sort_entries(&mut entries);
    let descs: Vec<&str> = entries.iter().map(|e| e.desc.as_str()).collect();
    assert_eq!(descs, vec!["early", "first of the 3rd", "second of the 3rd", "late", "later still"]);
}

#[test]
fn sort_of_nothing_and_of_one() {
    let mut none: Vec<Entry> = vec![];
    sort_entries(&mut none);
    assert!(none.is_empty());
    let mut one = vec![entry(2, "only", &[])];
    sort_entries(&mut one);
    assert_eq!(one[0].desc, "only");
}

#[test]
fn rewrite_text_is_canonical() {
    let entries = vec![entry(2, "a", &["x", "y"]), entry(3, "b", &[])];
    assert_eq!(entries_to_text(&entries), "2025-01-02\ta\tx,y\n2025-01-03\tb\n");
    assert_eq!(entries_to_text(&vec![]), "");
}

fn four() -> Vec<Entry> {
    vec![
        entry(1, "A", &["complete"]),
        entry(2, "B", &[]),
        entry(3, "C", &["x", "Complete"]),
        entry(4, "D", &["y"]),
    ]
}

#[test]
fn visible_numbers_skip_completed_entries() {
    let entries = four();
    assert_eq!(visible_indices(&entries, false), vec![1, 3]);
    assert_eq!(visible_indices(&entries, true), vec![0, 1, 2, 3]);
    assert_eq!(resolve_index(&entries, false, 1), Ok(1));
    assert_eq!(resolve_index(&entries, false, 2), Ok(3));
    assert_eq!(resolve_index(&entries, false, 3), Err(IndexOutOfRange { index: 3, visible: 2 }));
    assert_eq!(resolve_index(&entries, false, 0), Err(IndexOutOfRange { index: 0, visible: 2 }));
    assert_eq!(resolve_index(&entries, true, 3), Ok(2));
}

#[test]
fn edit_acts_on_the_visible_entry() {
    let mut entries = four();
    assert_eq!(edit_entry(&mut entries, false, 1, parse_line("2025-01-02\tB2").unwrap()), Ok(()));
    assert_eq!(entries[1].desc, "B2");
    assert_eq!(edit_entry(&mut entries, false, 2, parse_line("2025-01-04\tD2").unwrap()), Ok(()));
    assert_eq!(entries[3].desc, "D2");
    let r = edit_entry(&mut entries, false, 3, parse_line("2025-01-04\tE").unwrap());
    assert_eq!(r, Err(IndexOutOfRange { index: 3, visible: 2 }));
    let descs: Vec<&str> = entries.iter().map(|e| e.desc.as_str()).collect();
    assert_eq!(descs, vec!["A", "B2", "C", "D2"]);
}

#[test]
fn completing_marks_the_visible_entry() {
    let mut entries = four();
    assert_eq!(complete_entry(&mut entries, false, 2), Ok(()));
    assert_eq!(entries[3].tags, vec!["y".to_string(), "complete".to_string()]);
    assert!(is_complete(&entries[3]));
    assert_eq!(visible_indices(&entries, false), vec![1]);
    assert_eq!(complete_entry(&mut entries, false, 2), Err(IndexOutOfRange { index: 2, visible: 1 }));
}

#[test]
fn completing_twice_adds_the_tag_once() {
    let mut entries = four();
    assert_eq!(complete_entry(&mut entries, true, 3), Ok(()));
    assert_eq!(entries[2].tags, vec!["x".to_string(), "Complete".to_string()]);
    assert_eq!(complete_entry(&mut entries, true, 2), Ok(()));
    assert_eq!(complete_entry(&mut entries, true, 2), Ok(()));
    assert_eq!(entries[1].tags, vec!["complete".to_string()]);
}

use ironlist::date::Date;
use ironlist::entry::Entry;
use ironlist::present::render_titled_tables;
use ironlist::present::wrap_text;

#[test]
fn test_wrap_text() {
    let text = "This is a long line of text that needs to be wrapped.";
    let wrapped = wrap_text(text, 10);
    assert_eq!(wrapped, vec!["This is a", "long line", "of text", "that needs", "to be", "wrapped."]);

    let text = "Short line.";
    let wrapped = wrap_text(text, 20);
    assert_eq!(wrapped, vec!["Short line."]);
}

#[test]
fn wrap_breaks_long_words() {
    assert_eq!(wrap_text("abcdefghijkl", 5), vec!["abcde", "fghij", "kl"]);
    assert_eq!(wrap_text("ab abcdefg", 5), vec!["ab", "abcde", "fg"]);
    assert_eq!(wrap_text("ab c", 0), vec!["a", "b", "c"]);
}

#[test]
fn wrap_of_blank_text_is_empty() {
    assert!(wrap_text("", 10).is_empty());
    assert!(wrap_text(" \t\n ", 10).is_empty());
    assert_eq!(wrap_text("  a  \n b ", 10), vec!["a b"]);
}

fn entry(d: u32, desc: &str, tags: &[&str]) -> Entry {
    Entry {
        date: Date::from_ymd(2025, 1, d).unwrap(),
        desc: desc.to_string(),
        tags: tags.iter().map(|t| t.to_string()).collect(),
        raw_line: String::new(),
    }
}

#[test]
fn tables_list_open_entries_then_completed() {
    let entries = vec![
        entry(2, "Buy milk", &["home", "errand"]),
        entry(3, "Done thing", &["complete"]),
        entry(4, "No tags", &[]),
    ];
    let pad = |s: &str| format!("{:<40}", s);
    let hidden = render_titled_tables(&entries, false);
    assert_eq!(
        hidden,
        vec![
            format!("  1  2025-01-02  {}  home,errand", pad("Buy milk")),
            format!("  2  2025-01-04  {}  -", pad("No tags")),
        ]
    );
    let all = render_titled_tables(&entries, true);
    assert_eq!(all.len(), 5);
    assert_eq!(all[2], "");
    assert_eq!(all[3], "Completed:");
    assert_eq!(all[4], format!("  1  2025-01-03  {}  complete", pad("Done thing")));
}

#[test]
fn long_descriptions_continue_under_their_column() {
    let desc = "one two three four five six seven eight nine ten eleven twelve";
    let rows = render_titled_tables(&vec![entry(5, desc, &["t"])], false);
    assert_eq!(rows.len(), 2);
    assert_eq!(rows[0], format!("  1  2025-01-05  {:<40}  t", "one two three four five six seven eight"));
    assert_eq!(rows[1], format!("{}nine ten eleven twelve", " ".repeat(17)));
}

#[test]
fn no_completed_table_when_none_are_complete() {
    let rows = render_titled_tables(&vec![entry(5, "x", &[])], true);
    assert_eq!(rows.len(), 1);
    assert!(render_titled_tables(&vec![], true).is_empty());
}

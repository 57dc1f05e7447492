use ironlist::config::{prefers_given_file, saved_path};
use ironlist::date::Date;
use ironlist::entry::Entry;
use ironlist::notify::{next_delay_secs, notification, parse_time_of_day, TimeOfDay};

fn entry(d: u32, desc: &str, tags: &[&str]) -> Entry {
    Entry {
        date: Date::from_ymd(2025, 3, d).unwrap(),
        desc: desc.to_string(),
        tags: tags.iter().map(|t| t.to_string()).collect(),
        raw_line: String::new(),
    }
}

#[test]
fn times_of_day_are_read_strictly() {
    assert_eq!(parse_time_of_day("09:00"), Some(TimeOfDay { hour: 9, minute: 0 }));
    assert_eq!(parse_time_of_day("23:59"), Some(TimeOfDay { hour: 23, minute: 59 }));
    assert_eq!(parse_time_of_day("24:00"), None);
    assert_eq!(parse_time_of_day("12:60"), None);
    assert_eq!(parse_time_of_day("9:00"), None);
    assert_eq!(parse_time_of_day("nine"), None);
}

#[test]
fn delay_until_next_notification() {
    let nine = TimeOfDay { hour: 9, minute: 0 };
    assert_eq!(next_delay_secs(Some(5), 0, &nine), 300);
    assert_eq!(next_delay_secs(Some(u64::MAX), 0, &nine), u64::MAX);
    assert_eq!(next_delay_secs(None, 8 * 3600, &nine), 3600);
    assert_eq!(next_delay_secs(None, 9 * 3600, &nine), 86400);
    assert_eq!(next_delay_secs(None, 10 * 3600, &nine), 23 * 3600);
}

#[test]
fn notification_without_upcoming_entries() {
    let today = Date::from_ymd(2025, 3, 10).unwrap();
    let n = notification(&vec![entry(1, "past", &[]), entry(12, "done", &["complete"])], &today);
    assert_eq!(n.summary, "IronList: no upcoming items");
    assert_eq!(n.body, "");
}

#[test]
fn notification_lists_upcoming_entries() {
    let today = Date::from_ymd(2025, 3, 10).unwrap();
    let entries = vec![
        entry(9, "yesterday", &[]),
        entry(10, "  today  ", &["home"]),
        entry(11, "tomorrow", &["a", "b"]),
        entry(12, "finished", &["COMPLETE"]),
    ];
    let n = notification(&entries, &today);
    assert_eq!(n.summary, "IronList: 2 upcoming item(s)");
    assert_eq!(n.body, "- 2025-03-10: today [home]\n- 2025-03-11: tomorrow [a,b]\n");
}

#[test]
fn notification_lists_at_most_ten() {
    let today = Date::from_ymd(2025, 3, 1).unwrap();
    let entries: Vec<Entry> = (1..=12).map(|d| entry(d, "task", &[])).collect();
    let n = notification(&entries, &today);
    assert_eq!(n.summary, "IronList: 12 upcoming item(s)");
    assert_eq!(n.body.lines().count(), 11);
    assert!(n.body.starts_with("- 2025-03-01: task [-]\n"));
    assert!(n.body.ends_with("- 2025-03-10: task [-]\nand 2 more..."));
}

#[test]
fn saved_default_path_is_trimmed() {
    assert_eq!(saved_path("  /home/me/tasks.txt \n"), Some("/home/me/tasks.txt".to_string()));
    assert_eq!(saved_path(" \n\t"), None);
    assert_eq!(saved_path(""), None);
}

#[test]
fn given_file_is_preferred_only_when_named_and_present() {
    assert!(prefers_given_file("work.txt", true));
    assert!(!prefers_given_file("work.txt", false));
    assert!(!prefers_given_file("ironlist.txt", true));
}

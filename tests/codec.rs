use ironlist::codec::{entry_to_line, parse_line};
use ironlist::date::{parse_date, Date};
use ironlist::entry::Entry;
use ironlist::split::split_on_tab_or_spaces;
use ironlist::store::normalize_line;

#[test]
fn parses_tab_separated_line() {
    let e = parse_line("2025-01-10\tBuy milk\thome,errand").unwrap();
    assert_eq!(e.date, Date::from_ymd(2025, 1, 10).unwrap());
    assert_eq!(e.desc, "Buy milk");
    assert_eq!(e.tags, vec!["home".to_string(), "errand".to_string()]);
    assert_eq!(e.raw_line, "2025-01-10\tBuy milk\thome,errand");
}

#[test]
fn round_trip_of_written_line() {
    let e = Entry {
        date: Date::from_ymd(2024, 2, 29).unwrap(),
        desc: "Call   the bank".to_string(),
        tags: vec!["Work".to_string(), "phone call".to_string()],
        raw_line: String::new(),
    };
    let line = entry_to_line(&e);
    assert_eq!(line, "2024-02-29\tCall   the bank\tWork,phone call");
    let back = parse_line(&line).unwrap();
    assert_eq!(back.date, e.date);
    assert_eq!(back.desc, e.desc);
    assert_eq!(back.tags, e.tags);
}

#[test]
fn no_trailing_separator_without_tags() {
    let e = Entry {
        date: Date::from_ymd(2025, 1, 10).unwrap(),
        desc: "Buy milk".to_string(),
        tags: vec![],
        raw_line: String::new(),
    };
    assert_eq!(entry_to_line(&e), "2025-01-10\tBuy milk");
}

#[test]
fn three_spaces_do_not_split_four_do() {
    let f = split_on_tab_or_spaces("2025-01-10    Buy   milk    home");
    assert_eq!(f, vec!["2025-01-10", "Buy   milk", "home"]);
    let f = split_on_tab_or_spaces("a     b");
    assert_eq!(f, vec!["a", "b"]);
}

#[test]
fn empty_fields_are_dropped() {
    let f = split_on_tab_or_spaces("\t\ta\t \tb  \t");
    assert_eq!(f, vec!["a", "b"]);
    assert!(split_on_tab_or_spaces("").is_empty());
    assert!(split_on_tab_or_spaces("   \t    ").is_empty());
}

#[test]
fn spaced_line_is_normalized_to_tabs() {
    let n = normalize_line("2025-01-10    Buy milk    a, b ,,c").unwrap();
    assert_eq!(n, "2025-01-10\tBuy milk\ta,b,c");
}

#[test]
fn empty_tag_field_gives_no_tags() {
    let e = parse_line("2025-01-10\tBuy milk\t , ,").unwrap();
    assert!(e.tags.is_empty());
    assert_eq!(entry_to_line(&e), "2025-01-10\tBuy milk");
}

#[test]
fn malformed_lines_are_rejected() {
    assert!(parse_line("2025-01-10").is_none());
    assert!(parse_line("tomorrow\tBuy milk").is_none());
    assert!(parse_line("2025-02-30\tBuy milk").is_none());
    assert!(parse_line("2025-1-5\tBuy milk").is_none());
    assert!(parse_line("").is_none());
    assert!(normalize_line("Buy milk").is_none());
}

#[test]
fn extra_fields_are_ignored() {
    let e = parse_line("2025-01-10\tBuy milk\thome\tsomething else").unwrap();
    assert_eq!(e.tags, vec!["home".to_string()]);
}

#[test]
fn dates_follow_the_calendar() {
    assert_eq!(parse_date("2024-02-29"), Some(Date { year: 2024, month: 2, day: 29 }));
    assert_eq!(parse_date("2000-02-29"), Some(Date { year: 2000, month: 2, day: 29 }));
    assert_eq!(parse_date("2023-02-29"), None);
    assert_eq!(parse_date("1900-02-29"), None);
    assert_eq!(parse_date("2025-04-31"), None);
    assert_eq!(parse_date("2025-13-01"), None);
    assert_eq!(parse_date("2025-00-10"), None);
    assert_eq!(parse_date("2025-12-31"), Some(Date { year: 2025, month: 12, day: 31 }));
    assert_eq!(parse_date("0000-01-01"), Some(Date { year: 0, month: 1, day: 1 }));
    assert_eq!(parse_date(" 2025-12-31"), None);
    assert_eq!(Date::from_ymd(2025, 2, 29), None);
    assert_eq!(Date::from_ymd(10000, 1, 1), None);
}

#[test]
fn date_order_is_chronological() {
    let a = Date::from_ymd(2024, 12, 31).unwrap();
    let b = Date::from_ymd(2025, 1, 1).unwrap();
    assert!(a.is_on_or_before(&b));
    assert!(!b.is_on_or_before(&a));
    assert!(a.is_on_or_before(&a));
}

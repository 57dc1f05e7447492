use ironlist::date::Date;
use ironlist::entry::Entry;
use ironlist::filter::{filter_by_date_range, filter_by_tags, query_entries, NoCriteria};

fn entry(y: i32, m: u32, d: u32, desc: &str, tags: &[&str], raw: &str) -> Entry {
    Entry {
        date: Date::from_ymd(y, m, d).unwrap(),
        desc: desc.to_string(),
        tags: tags.iter().map(|t| t.to_string()).collect(),
        raw_line: raw.to_string(),
    }
}

fn two_entries() -> Vec<Entry> {
    vec![
        entry(2025, 11, 1, "Task 1", &["work"], "2025-11-01\tTask 1\twork"),
        entry(2025, 11, 2, "Task 2", &["home"], "2025-11-02\tTask 2\thome"),
    ]
}

#[test]
fn test_filter_by_date_range() {
    let entries = two_entries();

    let filtered = filter_by_date_range(entries.clone(), Some(Date::from_ymd(2025, 11, 1).unwrap()), None);
    assert_eq!(filtered.len(), 2);

    let filtered = filter_by_date_range(entries.clone(), Some(Date::from_ymd(2025, 11, 2).unwrap()), None);
    assert_eq!(filtered.len(), 1);
    assert_eq!(filtered[0].desc, "Task 2");
}

#[test]
fn test_filter_by_tags() {
    let entries = two_entries();

    let filtered = filter_by_tags(entries.clone(), &["work".to_string()], false);
    assert_eq!(filtered.len(), 1);
    assert_eq!(filtered[0].desc, "Task 1");

    let filtered = filter_by_tags(entries.clone(), &["home".to_string()], true);
    assert_eq!(filtered.len(), 1);
    assert_eq!(filtered[0].desc, "Task 2");
}

#[test]
fn tag_filter_ignores_ascii_case() {
    let entries = vec![entry(2025, 1, 1, "Report", &["Work"], "")];
    let filtered = filter_by_tags(entries, &["work".to_string()], false);
    assert_eq!(filtered.len(), 1);
    assert_eq!(filtered[0].desc, "Report");
}

#[test]
fn all_tags_versus_any_tag() {
    let entries = vec![
        entry(2025, 1, 1, "both", &["Work", "URGENT"], ""),
        entry(2025, 1, 2, "work only", &["work"], ""),
        entry(2025, 1, 3, "urgent only", &["urgent"], ""),
        entry(2025, 1, 4, "neither", &["home"], ""),
    ];
    let query = vec!["work".to_string(), "urgent".to_string()];
    let all = filter_by_tags(entries.clone(), &query, false);
    let names: Vec<&str> = all.iter().map(|e| e.desc.as_str()).collect();
    assert_eq!(names, vec!["both"]);
    let any = filter_by_tags(entries, &query, true);
    let names: Vec<&str> = any.iter().map(|e| e.desc.as_str()).collect();
    assert_eq!(names, vec!["both", "work only", "urgent only"]);
}

#[test]
fn empty_tag_query_keeps_everything() {
    let kept = filter_by_tags(two_entries(), &[], true);
    assert_eq!(kept.len(), 2);
    let kept = filter_by_tags(two_entries(), &[], false);
    assert_eq!(kept.len(), 2);
}

#[test]
fn date_range_includes_both_bounds() {
    let entries = vec![
        entry(2025, 3, 1, "before", &[], ""),
        entry(2025, 3, 5, "from", &[], ""),
        entry(2025, 3, 7, "inside", &[], ""),
        entry(2025, 3, 9, "to", &[], ""),
        entry(2025, 3, 10, "after", &[], ""),
    ];
    let kept = filter_by_date_range(
        entries,
        Some(Date::from_ymd(2025, 3, 5).unwrap()),
        Some(Date::from_ymd(2025, 3, 9).unwrap()),
    );
    let names: Vec<&str> = kept.iter().map(|e| e.desc.as_str()).collect();
    assert_eq!(names, vec!["from", "inside", "to"]);
}

#[test]
fn unbounded_range_keeps_everything() {
    assert_eq!(filter_by_date_range(two_entries(), None, None).len(), 2);
    let kept = filter_by_date_range(two_entries(), None, Some(Date::from_ymd(2025, 11, 1).unwrap()));
    assert_eq!(kept.len(), 1);
    assert_eq!(kept[0].desc, "Task 1");
}

#[test]
fn query_without_criteria_is_rejected() {
    let r = query_entries(two_entries(), &None, &None, &None, &[], false);
    assert!(matches!(r, Err(NoCriteria)));
}

#[test]
fn query_exact_date_overrides_range() {
    let r = query_entries(
        two_entries(),
        &Some("2025-01-01".to_string()),
        &None,
        &Some("2025-11-02".to_string()),
        &[],
        false,
    )
    .unwrap();
    assert_eq!(r.len(), 1);
    assert_eq!(r[0].desc, "Task 2");
}

#[test]
fn query_combines_dates_and_tags() {
    let r = query_entries(
        two_entries(),
        &Some("2025-11-01".to_string()),
        &Some("2025-11-02".to_string()),
        &None,
        &["WORK".to_string()],
        false,
    )
    .unwrap();
    assert_eq!(r.len(), 1);
    assert_eq!(r[0].desc, "Task 1");
}

#[test]
fn query_bound_that_is_no_date_bounds_nothing() {
    let r = query_entries(two_entries(), &Some("soon".to_string()), &None, &None, &[], false).unwrap();
    assert_eq!(r.len(), 2);
}

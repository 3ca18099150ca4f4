use djot_log::{
    build_logs, parse_log, Date, DateTime, DayHeader, KindHeader, Kinds, Log, LogError, LogNode,
    Logs, Time, TimeHeader,
};

fn day(s: &str) -> LogNode {
    LogNode::DayHeader(DayHeader { date: Date::parse(s).unwrap() })
}

fn time(s: &str) -> LogNode {
    LogNode::TimeHeader(TimeHeader { time: Time::parse(s).unwrap() })
}

fn kind(path: &[&str]) -> LogNode {
    LogNode::KindHeader(KindHeader { path: path.iter().map(|s| s.to_string()).collect() })
}

fn at(d: &str, t: &str) -> DateTime {
    DateTime::new(Date::parse(d).unwrap(), Time::parse(t).unwrap())
}

fn kinds(paths: &[&[&str]]) -> Kinds {
    Kinds::new(paths.iter().map(|p| p.iter().map(|s| s.to_string()).collect()).collect())
}

const EXAMPLE: &str = "# 2023-12-03\n\n## 09:00\n\n### Work / MyOrg / MyDept / MyProj\n\n### Coding\n\n## 13:00\n\n## 14:00\n\n### Work / MyOrg / MyDept\n\n### Meeting\n\n## 15:00\n\n### Work / MyOrg / MyDept / MyProj\n\n### Coding\n\n## 18:00\n\n# 2023-12-04\n\n## 09:00\n\n### Work / MyOrg / MyDept / MyProj\n\n### Coding\n\n## 13:00\n\n## 14:00\n\n### Work / MyOrg / MyDept / MyProj\n\n### Coding\n\n## 18:00\n";

#[test]
fn parse_log_of_example() {
    let (logs, errors) = parse_log(EXAMPLE);
    assert!(errors.is_empty());
    assert_eq!(
        logs.to_plain_text(),
        "2023-12-03 09:00:00-13:00:00 Coding // Work / MyOrg / MyDept / MyProj
2023-12-03 14:00:00-15:00:00 Meeting // Work / MyOrg / MyDept
2023-12-03 15:00:00-18:00:00 Coding // Work / MyOrg / MyDept / MyProj
2023-12-04 09:00:00-13:00:00 Coding // Work / MyOrg / MyDept / MyProj
2023-12-04 14:00:00-18:00:00 Coding // Work / MyOrg / MyDept / MyProj"
    );
}

#[test]
fn parse_log_reports_ignored_events() {
    let (logs, errors) = parse_log("## 09:00\n\n### X / Y\n");
    assert_eq!(logs.len(), 0);
    assert_eq!(
        errors,
        vec![
            "Unexpected time 09:00:00 without preceding day header".to_string(),
            "Unexpected category X / Y without start time set".to_string(),
        ]
    );
}

#[test]
fn single_interval_scenario() {
    let events = vec![day("2023-12-03"), time("09:00"), kind(&["Work", "MyOrg"]), time("13:00")];
    let (logs, errors) = build_logs(&events);
    assert!(errors.is_empty());
    assert_eq!(logs.len(), 1);
    let log = &logs.sorted_logs()[0];
    assert_eq!(log.start, at("2023-12-03", "09:00"));
    assert_eq!(log.end, at("2023-12-03", "13:00"));
    assert!(log.kinds.same(&kinds(&[&["Work", "MyOrg"]])));
    assert_eq!(log.to_text(), "2023-12-03 09:00:00-13:00:00 Work / MyOrg");
    assert_eq!(logs.total_by_day(), vec![(Date::parse("2023-12-03").unwrap(), 4 * 3600)]);
}

#[test]
fn no_day_scenario() {
    let events = vec![time("09:00"), kind(&["X"])];
    let (logs, errors) = build_logs(&events);
    assert_eq!(logs.len(), 0);
    assert_eq!(errors.len(), 2);
    assert!(matches!(&errors[0], LogError::OrphanTime(t) if *t == Time::parse("09:00").unwrap()));
    assert!(matches!(&errors[1], LogError::OrphanCategory(p) if *p == vec!["X".to_string()]));
}

#[test]
fn empty_events_give_nothing() {
    let (logs, errors) = build_logs(&vec![]);
    assert_eq!(logs.len(), 0);
    assert!(errors.is_empty());
    assert_eq!(logs.to_plain_text(), "");
    assert!(logs.total_by_day().is_empty());
}

#[test]
fn leading_category_is_one_error() {
    let (logs, errors) = build_logs(&vec![kind(&["Coding"])]);
    assert_eq!(logs.len(), 0);
    assert_eq!(errors.len(), 1);
    assert!(matches!(&errors[0], LogError::OrphanCategory(p) if *p == vec!["Coding".to_string()]));
}

#[test]
fn times_without_categories_emit_nothing() {
    let events = vec![
        day("2023-12-03"),
        time("09:00"),
        time("10:00"),
        day("2023-12-04"),
        time("11:00"),
        time("12:00"),
    ];
    let (logs, errors) = build_logs(&events);
    assert_eq!(logs.len(), 0);
    assert!(errors.is_empty());
}

#[test]
fn trailing_open_interval_is_dropped() {
    let events = vec![day("2023-12-03"), time("09:00"), kind(&["A"]), time("10:00"), kind(&["B"])];
    let (logs, _) = build_logs(&events);
    assert_eq!(logs.len(), 1);
    assert_eq!(logs.to_plain_text(), "2023-12-03 09:00:00-10:00:00 A");
}

#[test]
fn repeated_category_counts_once() {
    let events = vec![
        day("2023-12-03"),
        time("09:00"),
        kind(&["A", "B"]),
        kind(&["A", "B"]),
        kind(&["C"]),
        time("10:00"),
    ];
    let (logs, _) = build_logs(&events);
    assert_eq!(logs.to_plain_text(), "2023-12-03 09:00:00-10:00:00 A / B // C");
}

#[test]
fn end_takes_the_current_day() {
    let events = vec![day("2023-12-03"), time("22:00"), kind(&["Night"]), day("2023-12-04"), time("02:00")];
    let (logs, _) = build_logs(&events);
    let log = &logs.sorted_logs()[0];
    assert_eq!(log.end, at("2023-12-04", "02:00"));
    assert_eq!(logs.total_by_day(), vec![(Date::parse("2023-12-03").unwrap(), 4 * 3600)]);
}

#[test]
fn same_interval_twice_is_held_once() {
    let mut logs = Logs::new();
    logs.insert(Log::new(at("2023-12-03", "09:00"), at("2023-12-03", "10:00"), kinds(&[&["A"], &["B"]])));
    logs.insert(Log::new(at("2023-12-03", "09:00"), at("2023-12-03", "10:00"), kinds(&[&["B"], &["A"]])));
    assert_eq!(logs.len(), 1);
    logs.insert(Log::new(at("2023-12-03", "09:00"), at("2023-12-03", "10:00"), kinds(&[&["A"]])));
    assert_eq!(logs.len(), 2);
}

#[test]
fn sorted_logs_are_ordered_and_repeatable() {
    let mut logs = Logs::new();
    logs.insert(Log::new(at("2023-12-04", "09:00"), at("2023-12-04", "10:00"), kinds(&[&["C"]])));
    logs.insert(Log::new(at("2023-12-03", "14:00"), at("2023-12-03", "15:00"), kinds(&[&["B"]])));
    logs.insert(Log::new(at("2023-12-03", "09:00"), at("2023-12-03", "10:00"), kinds(&[&["A"]])));
    let first: Vec<String> = logs.sorted_logs().iter().map(|l| l.to_text()).collect();
    let second: Vec<String> = logs.sorted_logs().iter().map(|l| l.to_text()).collect();
    assert_eq!(first, second);
    assert_eq!(
        first,
        vec![
            "2023-12-03 09:00:00-10:00:00 A",
            "2023-12-03 14:00:00-15:00:00 B",
            "2023-12-04 09:00:00-10:00:00 C",
        ]
    );
}

#[test]
fn category_text_reads_back() {
    let k = kinds(&[&["Work", "MyOrg", "Bar/Baz"], &["Coding"]]);
    let text = k.to_text();
    assert_eq!(text, "Coding // Work / MyOrg / Bar/Baz");
    let mut back: Vec<Vec<String>> = djot_log::text::split_text(&text, " // ")
        .iter()
        .map(|l| djot_log::text::split_text(l, " / "))
        .collect();
    back.sort();
    assert_eq!(back, vec![vec!["Coding".to_string()], vec!["Work".to_string(), "MyOrg".to_string(), "Bar/Baz".to_string()]]);
}

fn eight_hour_days(hours: &[i64]) -> Logs {
    let mut logs = Logs::new();
    for (i, h) in hours.iter().enumerate() {
        let d = format!("2023-12-{:02}", i + 1);
        let start = at(&d, "08:00");
        let end = DateTime::new(start.date, Time { secs: (8 + *h as u32) * 3600 });
        logs.insert(Log::new(start, end, kinds(&[&["Work"]])));
    }
    logs
}

#[test]
fn on_target_days_keep_delta_zero() {
    let rows = eight_hour_days(&[8, 8]).accumulated_vs_target(8 * 3600);
    let deltas: Vec<i128> = rows.iter().map(|r| r.2).collect();
    assert_eq!(deltas, vec![0, 0]);
    assert_eq!(rows[0].1, 8 * 3600);
}

#[test]
fn excess_hour_persists() {
    let rows = eight_hour_days(&[9, 8, 8, 7]).accumulated_vs_target(8 * 3600);
    let deltas: Vec<i128> = rows.iter().map(|r| r.2).collect();
    assert_eq!(deltas, vec![3600, 3600, 3600, 0]);
    let totals: Vec<i128> = rows.iter().map(|r| r.1).collect();
    assert_eq!(totals, vec![9 * 3600, 8 * 3600, 8 * 3600, 7 * 3600]);
}

#[test]
fn totals_sum_each_day() {
    let events = vec![
        day("2023-12-03"),
        time("09:00"),
        kind(&["A"]),
        time("10:30"),
        kind(&["B"]),
        time("11:00"),
        day("2023-12-05"),
        time("09:00"),
        kind(&["A"]),
        time("09:15"),
    ];
    let (logs, _) = build_logs(&events);
    assert_eq!(
        logs.total_by_day(),
        vec![
            (Date::parse("2023-12-03").unwrap(), 2 * 3600),
            (Date::parse("2023-12-05").unwrap(), 15 * 60),
        ]
    );
    let rows = logs.accumulated_vs_target(3600);
    assert_eq!(rows[0].2, 3600);
    assert_eq!(rows[1].2, 3600 + 15 * 60 - 3600);
}

#[test]
fn notice_kinds_match_errors() {
    let e = LogError::OrphanTime(Time::parse("07:30").unwrap());
    assert_eq!(e.to_text(), "Unexpected time 07:30:00 without preceding day header");
}

#[test]
fn report_stops_after_first_older_zero_delta() {
    let d = Date::parse("2023-12-01").unwrap();
    let rows = vec![(d, 0, 0), (d, 0, 0), (d, 0, 5), (d, 0, 0)];
    assert_eq!(djot_log::logs::rows_to_show(&rows), 3);
    let rows = vec![(d, 0, 1), (d, 0, 0), (d, 0, 0)];
    assert_eq!(djot_log::logs::rows_to_show(&rows), 2);
    let rows = vec![(d, 0, 3), (d, 0, 0), (d, 0, 5), (d, 0, 7)];
    assert_eq!(djot_log::logs::rows_to_show(&rows), 3);
    let rows = vec![(d, 0, 3), (d, 0, 4)];
    assert_eq!(djot_log::logs::rows_to_show(&rows), 2);
    assert_eq!(djot_log::logs::rows_to_show(&vec![]), 0);
}

#[test]
fn equal_starts_list_the_same_whatever_the_insertion_order() {
    let a = Log::new(at("2023-12-03", "09:00"), at("2023-12-03", "10:00"), kinds(&[&["B"]]));
    let b = Log::new(at("2023-12-03", "09:00"), at("2023-12-03", "10:00"), kinds(&[&["A"], &["C"]]));
    let c = Log::new(at("2023-12-03", "09:00"), at("2023-12-03", "09:30"), kinds(&[&["Z"]]));
    let mut one = Logs::new();
    one.insert(a);
    one.insert(b);
    one.insert(c);
    let a = Log::new(at("2023-12-03", "09:00"), at("2023-12-03", "10:00"), kinds(&[&["B"]]));
    let b = Log::new(at("2023-12-03", "09:00"), at("2023-12-03", "10:00"), kinds(&[&["A"], &["C"]]));
    let c = Log::new(at("2023-12-03", "09:00"), at("2023-12-03", "09:30"), kinds(&[&["Z"]]));
    let mut two = Logs::new();
    two.insert(c);
    two.insert(b);
    two.insert(a);
    assert_eq!(one.to_plain_text(), two.to_plain_text());
    assert_eq!(
        one.to_plain_text(),
        "2023-12-03 09:00:00-09:30:00 Z
2023-12-03 09:00:00-10:00:00 A // C
2023-12-03 09:00:00-10:00:00 B"
    );
}

#[test]
fn category_sets_compare_by_ascending_paths() {
    let ab = kinds(&[&["B"], &["A"]]);
    let a = kinds(&[&["A"]]);
    let ac = kinds(&[&["A", "C"]]);
    assert_eq!(a.cmp_kinds(&ab), std::cmp::Ordering::Less);
    assert_eq!(ab.cmp_kinds(&ac), std::cmp::Ordering::Less);
    assert_eq!(ab.cmp_kinds(&kinds(&[&["A"], &["B"]])), std::cmp::Ordering::Equal);
    assert_eq!(
        ab.sorted_members(),
        vec![vec!["A".to_string()], vec!["B".to_string()]]
    );
}

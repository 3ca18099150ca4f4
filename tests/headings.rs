use djot_log::md::{parse_log_nodes, parse_markdown, DayHeader, KindHeader, LogNode, TimeHeader};
use djot_log::text::{split_text, text_less};
use djot_log::{Date, Node, Time};

const EXAMPLE: &str = "# 2023-12-03

## 09:00

### Work / MyOrg / MyDept / MyProj

### Coding

## 13:00

## 14:00

### Work / MyOrg / MyDept

### Meeting

## 15:00

### Work / MyOrg / MyDept / MyProj

### Coding

## 18:00

# 2023-12-04

## 09:00

### Work / MyOrg / MyDept / MyProj

### Coding

## 13:00

## 14:00

### Work / MyOrg / MyDept / MyProj

### Coding

## 18:00
";

fn first_block(s: &str) -> Node {
    parse_markdown(s).unwrap().children[0].clone()
}

fn describe(n: &LogNode) -> String {
    match n {
        LogNode::DayHeader(h) => format!("day {}", h.date.to_text()),
        LogNode::TimeHeader(h) => format!("time {}", h.time.to_text()),
        LogNode::KindHeader(h) => format!("kind {:?}", h.path),
    }
}

#[test]
fn day_header_from_heading() {
    assert_eq!(
        first_block("# 2024-12-03\n").to_day_header(),
        Some(DayHeader { date: Date::parse("2024-12-03").unwrap() })
    );
}

#[test]
fn time_header_from_heading() {
    assert_eq!(
        first_block("## 08:00\n").to_time_header(),
        Some(TimeHeader { time: Time::parse("08:00").unwrap() })
    );
}

#[test]
fn kind_header_from_heading() {
    assert_eq!(
        first_block("### Foo / Bar/Baz / Qux\n").to_kind_header(),
        Some(KindHeader { path: vec!["Foo".into(), "Bar/Baz".into(), "Qux".into()] })
    );
}

#[test]
fn empty_category_segment_is_no_category() {
    assert!(first_block("### A /  / B\n").to_kind_header().is_none());
    assert!(first_block("### A /  / B\n").to_log_node().is_none());
    let root = parse_markdown("# 2023-12-03\n\n## 09:00\n\n### A /  / B\n").unwrap();
    assert_eq!(parse_log_nodes(&root).len(), 2);
}

#[test]
fn heading_depth_decides_the_kind() {
    assert!(first_block("## 2024-12-03\n").to_day_header().is_none());
    assert!(first_block("# 08:00\n").to_time_header().is_none());
    assert!(first_block("Some text\n").to_log_node().is_none());
    assert!(first_block("# not a date\n").to_log_node().is_none());
    assert_eq!(
        first_block("## Fix\n").get_first_text_value_of_header_of_depth(2),
        Some("Fix".to_string())
    );
}

#[test]
fn log_nodes_of_example() {
    let root = parse_markdown(EXAMPLE).unwrap();
    let listed: Vec<String> = parse_log_nodes(&root).iter().map(describe).collect();
    let expected = vec![
        "day 2023-12-03",
        "time 09:00:00",
        "kind [\"Work\", \"MyOrg\", \"MyDept\", \"MyProj\"]",
        "kind [\"Coding\"]",
        "time 13:00:00",
        "time 14:00:00",
        "kind [\"Work\", \"MyOrg\", \"MyDept\"]",
        "kind [\"Meeting\"]",
        "time 15:00:00",
        "kind [\"Work\", \"MyOrg\", \"MyDept\", \"MyProj\"]",
        "kind [\"Coding\"]",
        "time 18:00:00",
        "day 2023-12-04",
        "time 09:00:00",
        "kind [\"Work\", \"MyOrg\", \"MyDept\", \"MyProj\"]",
        "kind [\"Coding\"]",
        "time 13:00:00",
        "time 14:00:00",
        "kind [\"Work\", \"MyOrg\", \"MyDept\", \"MyProj\"]",
        "kind [\"Coding\"]",
        "time 18:00:00",
    ];
    assert_eq!(listed, expected);
}

#[test]
fn dates_and_times_read_and_written() {
    let d = Date::parse("2023-12-03").unwrap();
    assert_eq!(d.days, 738857);
    assert_eq!(d.to_text(), "2023-12-03");
    assert!(Date::parse("2023-13-03").is_none());
    let t = Time::parse("09:05").unwrap();
    assert_eq!(t.secs, 9 * 3600 + 5 * 60);
    assert_eq!(t.to_text(), "09:05:00");
    assert!(Time::parse("25:00").is_none());
}

#[test]
fn split_on_spaced_separator_only() {
    assert_eq!(split_text("Foo / Bar/Baz / Qux", " / "), vec!["Foo", "Bar/Baz", "Qux"]);
    assert_eq!(split_text("", " / "), vec![""]);
    assert_eq!(split_text("a /  / b", " / "), vec!["a", "", "b"]);
}

#[test]
fn text_order_is_str_order() {
    assert!(text_less("Coding", "Work"));
    assert!(!text_less("Work", "Coding"));
    assert!(text_less("Work", "Work / MyOrg"));
    assert!(!text_less("Work", "Work"));
}

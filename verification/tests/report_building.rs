//! Sorting and partitioning behavior.

use ptt_analyzer::config::SortingConfig;
use ptt_analyzer::highlight::parse_condition;
use ptt_analyzer::report::{
    build_analysis_result, partition_reports, sort_reports, ReportMetadata, UserReportData,
};

fn row(user: &str, article: u32, boards: &[(&str, u32)], total: u32) -> UserReportData {
    UserReportData {
        user: user.to_string(),
        article_comments: article,
        board_comments: boards.iter().map(|(n, c)| (n.to_string(), *c)).collect(),
        total_comments: total,
    }
}

fn cfg(sort_by: &str, order: &str) -> SortingConfig {
    SortingConfig {
        sort_by: sort_by.to_string(),
        order: order.to_string(),
    }
}

fn users(rows: &[UserReportData]) -> Vec<String> {
    rows.iter().map(|r| r.user.clone()).collect()
}

#[test]
fn sorts_descending_by_article_comments() {
    let rows = vec![row("a", 1, &[], 0), row("b", 3, &[], 0), row("c", 2, &[], 0)];
    let sorted = sort_reports(rows, &cfg("本文留言數", "desc"));
    assert_eq!(users(&sorted), vec!["b", "c", "a"]);
}

#[test]
fn sorts_ascending_by_default_order_word() {
    let rows = vec![row("a", 5, &[], 0), row("b", 3, &[], 0)];
    let sorted = sort_reports(rows, &cfg("本文留言數", "asc"));
    assert_eq!(users(&sorted), vec!["b", "a"]);
}

#[test]
fn sorts_by_lifetime_total() {
    let rows = vec![row("a", 0, &[], 10), row("b", 0, &[], 30), row("c", 0, &[], 20)];
    let sorted = sort_reports(rows, &cfg("生涯總留言數", "desc"));
    assert_eq!(users(&sorted), vec!["b", "c", "a"]);
}

#[test]
fn any_other_key_sorts_by_that_board_count_with_zero_default() {
    let rows = vec![
        row("a", 0, &[("NBA", 2)], 0),
        row("b", 0, &[], 0),
        row("c", 0, &[("NBA", 9)], 0),
    ];
    let sorted = sort_reports(rows, &cfg("NBA", "desc"));
    assert_eq!(users(&sorted), vec!["c", "a", "b"]);
}

#[test]
fn ties_keep_input_order_in_both_directions() {
    let rows = vec![
        row("first", 2, &[], 0),
        row("second", 2, &[], 0),
        row("third", 1, &[], 0),
    ];
    let desc = sort_reports(rows.clone(), &cfg("本文留言數", "desc"));
    assert_eq!(users(&desc), vec!["first", "second", "third"]);
    let asc = sort_reports(rows, &cfg("本文留言數", "asc"));
    assert_eq!(users(&asc), vec!["third", "first", "second"]);
}

#[test]
fn sorting_twice_changes_nothing() {
    let rows = vec![row("a", 1, &[], 0), row("b", 3, &[], 0), row("c", 3, &[], 0)];
    let c = cfg("本文留言數", "desc");
    let once = sort_reports(rows, &c);
    let twice = sort_reports(once.clone(), &c);
    assert_eq!(users(&once), users(&twice));
}

#[test]
fn partition_splits_by_threshold_preserving_order() {
    let rows = vec![
        row("a", 0, &[("B", 10)], 0),
        row("b", 0, &[("B", 3)], 0),
        row("c", 0, &[("B", 7)], 0),
    ];
    let (hl, normal) = partition_reports(rows, &Some("B,>,5".to_string()));
    assert_eq!(users(&hl), vec!["a", "c"]);
    assert_eq!(users(&normal), vec!["b"]);
}

#[test]
fn partition_is_exhaustive_and_disjoint() {
    let rows = vec![
        row("a", 0, &[("B", 10)], 0),
        row("b", 0, &[("B", 3)], 0),
        row("c", 0, &[("B", 5)], 0),
    ];
    let (hl, normal) = partition_reports(rows, &Some("B,>=,5".to_string()));
    assert_eq!(hl.len() + normal.len(), 3);
    for r in &hl {
        assert!(!normal.iter().any(|n| n.user == r.user));
    }
}

#[test]
fn percentage_with_zero_total_compares_the_raw_count() {
    let rows = vec![row("a", 0, &[("B", 10)], 0)];
    let (hl, normal) = partition_reports(rows, &Some("B,>,5%".to_string()));
    assert_eq!(users(&hl), vec!["a"]);
    assert!(normal.is_empty());
}

#[test]
fn percentage_with_positive_total_compares_the_share() {
    // 5 of 100 is 5%; the strict comparison against 5% fails, at 4% it holds.
    let rows = vec![row("a", 0, &[("B", 5)], 100)];
    let (hl, _) = partition_reports(rows.clone(), &Some("B,>,5%".to_string()));
    assert!(hl.is_empty());
    let (hl2, _) = partition_reports(rows, &Some("B,>,4%".to_string()));
    assert_eq!(hl2.len(), 1);
}

#[test]
fn equality_comparison_is_exact_on_exact_shares() {
    // One comment of four is exactly 25%.
    let rows = vec![row("a", 0, &[("B", 1)], 4)];
    let (hl, _) = partition_reports(rows.clone(), &Some("B,==,25%".to_string()));
    assert_eq!(hl.len(), 1);
    let (hl2, _) = partition_reports(rows, &Some("B,==,25.00000001%".to_string()));
    assert!(hl2.is_empty());
}

#[test]
fn equality_comparison_has_a_tiny_tolerance() {
    // 200 of 3999999999 is 0.0000000050000000001...%, unequal to the
    // threshold 0.00000005% but within the one-billionth tolerance.
    let rows = vec![row("a", 0, &[("B", 2)], 3_999_999_999)];
    let (hl, _) = partition_reports(rows.clone(), &Some("B,==,0.00000005%".to_string()));
    assert_eq!(hl.len(), 1);
    // One comment of three is 33.333...%, well outside the tolerance of 33.33%.
    let rows2 = vec![row("b", 0, &[("B", 1)], 3)];
    let (hl2, _) = partition_reports(rows2, &Some("B,==,33.33%".to_string()));
    assert!(hl2.is_empty());
}

#[test]
fn malformed_condition_leaves_everything_normal() {
    let rows = vec![row("a", 0, &[("B", 10)], 0), row("b", 0, &[("B", 1)], 0)];
    let (hl, normal) = partition_reports(rows, &Some("B,>,".to_string()));
    assert!(hl.is_empty());
    assert_eq!(users(&normal), vec!["a", "b"]);
}

#[test]
fn absent_or_empty_condition_leaves_everything_normal() {
    let rows = vec![row("a", 0, &[("B", 10)], 0)];
    let (hl, normal) = partition_reports(rows.clone(), &None);
    assert!(hl.is_empty());
    assert_eq!(normal.len(), 1);
    let (hl2, normal2) = partition_reports(rows, &Some("".to_string()));
    assert!(hl2.is_empty());
    assert_eq!(normal2.len(), 1);
}

#[test]
fn condition_fields_are_trimmed_and_operators_recognized() {
    let c = parse_condition(" My Board , <= , 12.5 ").unwrap();
    assert_eq!(c.board, "My Board");
    assert_eq!(c.num, 125);
    assert_eq!(c.den, 10);
    assert!(!c.is_percentage);
}

#[test]
fn condition_rejects_bad_shapes() {
    assert!(parse_condition("no commas").is_none());
    assert!(parse_condition("a,b").is_none());
    assert!(parse_condition("a,>,1,extra").is_none());
    assert!(parse_condition("B,!!,5").is_none());
    assert!(parse_condition("B,>,-1").is_none());
    assert!(parse_condition("B,>,1e3").is_none());
    assert!(parse_condition("B,>,5.5.5").is_none());
}

#[test]
fn condition_accepts_decimal_shapes() {
    let c = parse_condition("B,>,.5").unwrap();
    assert_eq!((c.num, c.den), (5, 10));
    let c2 = parse_condition("B,>,5.").unwrap();
    assert_eq!((c2.num, c2.den), (5, 1));
    let c3 = parse_condition("B,>,+5%").unwrap();
    assert_eq!((c3.num, c3.den), (5, 1));
    assert!(c3.is_percentage);
}

#[test]
fn build_assembles_metadata_sorts_and_partitions() {
    let metadata = ReportMetadata {
        title: "t".to_string(),
        url: "u".to_string(),
        board: "B".to_string(),
        filter_types: vec![],
        keywords: None,
        highlight_condition: Some("B,>,5".to_string()),
    };
    let rows = vec![
        row("low", 1, &[("B", 1)], 0),
        row("high", 9, &[("B", 9)], 0),
        row("mid", 5, &[("B", 6)], 0),
    ];
    let result = build_analysis_result(metadata, rows, &cfg("本文留言數", "desc"));
    assert_eq!(result.metadata.title, "t");
    assert_eq!(users(&result.highlighted_data), vec!["high", "mid"]);
    assert_eq!(users(&result.normal_data), vec!["low"]);
}

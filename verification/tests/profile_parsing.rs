//! Profile document parsing behavior.

use ptt_analyzer::error::Error;
use ptt_analyzer::profile::{parse_profile, profile_url, BoardEntry, ProfileDocument};

fn board(name: Option<&str>, count: Option<&str>) -> BoardEntry {
    BoardEntry {
        name: name.map(|s| s.to_string()),
        count: count.map(|s| s.to_string()),
    }
}

fn base_doc() -> ProfileDocument {
    ProfileDocument {
        page_title: Some("alice 的文章".to_string()),
        headline: Some("alice, 共123則留言".to_string()),
        board_entries: vec![],
    }
}

fn targets(items: &[&str]) -> Vec<String> {
    items.iter().map(|s| s.to_string()).collect()
}

#[test]
fn total_comments_come_from_the_headline_pattern() {
    let d = base_doc();
    let r = parse_profile(&d, "alice", &targets(&[])).unwrap();
    assert_eq!(r.total_comments, 123);
    assert_eq!(r.board_comments, vec![]);
}

#[test]
fn headline_pattern_takes_the_first_match() {
    let mut d = base_doc();
    d.headline = Some("x, 共7則 and later, 共9則".to_string());
    let r = parse_profile(&d, "alice", &targets(&[])).unwrap();
    assert_eq!(r.total_comments, 7);
}

#[test]
fn missing_headline_is_a_parse_failure_with_exact_message() {
    let mut d = base_doc();
    d.headline = None;
    match parse_profile(&d, "alice", &targets(&[])) {
        Err(Error::PttWebParse(m)) => {
            assert_eq!(m, "無法從 headline 解析 alice 的總留言數");
        }
        other => panic!("expected parse failure, got {:?}", other),
    }
}

#[test]
fn headline_without_the_pattern_is_a_parse_failure() {
    let mut d = base_doc();
    d.headline = Some("no totals here".to_string());
    assert!(matches!(
        parse_profile(&d, "bob", &targets(&[])),
        Err(Error::PttWebParse(_))
    ));
}

#[test]
fn oversized_total_is_a_parse_failure() {
    let mut d = base_doc();
    d.headline = Some("x, 共99999999999則".to_string());
    assert!(matches!(
        parse_profile(&d, "bob", &targets(&[])),
        Err(Error::PttWebParse(_))
    ));
}

#[test]
fn not_found_marker_in_title_wins() {
    let mut d = base_doc();
    d.page_title = Some("  沒有此作者喔 ".to_string());
    match parse_profile(&d, "ghost", &targets(&[])) {
        Err(Error::PttWebUserNotFound(u)) => assert_eq!(u, "ghost"),
        other => panic!("expected user-not-found, got {:?}", other),
    }
}

#[test]
fn missing_title_node_is_not_a_not_found() {
    let mut d = base_doc();
    d.page_title = None;
    let r = parse_profile(&d, "alice", &targets(&[])).unwrap();
    assert_eq!(r.total_comments, 123);
}

#[test]
fn board_entries_are_trimmed_filtered_and_parsed() {
    let mut d = base_doc();
    d.board_entries = vec![
        board(Some(" Gossiping "), Some(" 42 ")),
        board(Some("NBA"), Some("7")),
        board(Some("Ignored"), Some("5")),
        board(None, Some("9")),
        board(Some("Gossiping"), None),
        board(Some("NBA"), Some("not a number")),
    ];
    let r = parse_profile(&d, "alice", &targets(&["Gossiping", "NBA"])).unwrap();
    assert_eq!(
        r.board_comments,
        vec![("Gossiping".to_string(), 42), ("NBA".to_string(), 7)]
    );
}

#[test]
fn later_entry_for_the_same_board_wins() {
    let mut d = base_doc();
    d.board_entries = vec![
        board(Some("NBA"), Some("7")),
        board(Some("NBA"), Some("11")),
    ];
    let r = parse_profile(&d, "alice", &targets(&["NBA"])).unwrap();
    assert_eq!(r.board_comments, vec![("NBA".to_string(), 11)]);
}

#[test]
fn count_with_leading_plus_parses() {
    let mut d = base_doc();
    d.board_entries = vec![board(Some("NBA"), Some("+7"))];
    let r = parse_profile(&d, "alice", &targets(&["NBA"])).unwrap();
    assert_eq!(r.board_comments, vec![("NBA".to_string(), 7)]);
}

#[test]
fn profile_url_embeds_the_user_id() {
    assert_eq!(
        profile_url("alice123"),
        "https://www.pttweb.cc/user/alice123?t=message"
    );
}

#[test]
fn error_messages_carry_their_payloads() {
    assert_eq!(
        Error::Request("boom".to_string()).message(),
        "網路請求失敗: boom"
    );
    assert_eq!(
        Error::PttWebUserNotFound("alice".to_string()).message(),
        "在 pttweb.cc 找不到使用者: alice"
    );
    assert_eq!(
        Error::PttWebParse("why".to_string()).message(),
        "解析 pttweb.cc HTML 失敗: why"
    );
}

//! Article extraction behavior.

use ptt_analyzer::article::{extract_article, ArticleDocument, CommentEntry};

fn entry(tag: &str, author: &str, content: &str) -> CommentEntry {
    CommentEntry {
        tag: tag.to_string(),
        author: author.to_string(),
        content: content.to_string(),
    }
}

fn doc(entries: Vec<CommentEntry>) -> ArticleDocument {
    ArticleDocument {
        meta_values: vec![
            "author".to_string(),
            "board".to_string(),
            "  A Fine Title  ".to_string(),
        ],
        right_meta_values: vec![" TestBoard ".to_string()],
        page_title: Some("fallback title".to_string()),
        entries,
    }
}

fn strings(items: &[&str]) -> Vec<String> {
    items.iter().map(|s| s.to_string()).collect()
}

#[test]
fn title_comes_from_third_meta_value_trimmed() {
    let d = doc(vec![]);
    let r = extract_article(&d, &vec![], &None);
    assert_eq!(r.title, "A Fine Title");
    assert_eq!(r.board, "TestBoard");
}

#[test]
fn title_falls_back_to_page_title() {
    let mut d = doc(vec![]);
    d.meta_values = vec!["author".to_string(), "board".to_string(), "   ".to_string()];
    let r = extract_article(&d, &vec![], &None);
    assert_eq!(r.title, "fallback title");
}

#[test]
fn title_placeholder_when_nothing_present() {
    let mut d = doc(vec![]);
    d.meta_values = vec![];
    d.page_title = None;
    d.right_meta_values = vec![];
    let r = extract_article(&d, &vec![], &None);
    assert_eq!(r.title, "未知標題");
    assert_eq!(r.board, "Unknown");
}

#[test]
fn counts_group_by_trimmed_author_in_first_occurrence_order() {
    let d = doc(vec![
        entry("推", " alice ", ": hello"),
        entry("噓", "bob", ": boo"),
        entry("推", "alice", ": again"),
    ]);
    let r = extract_article(&d, &vec![], &None);
    assert_eq!(
        r.user_comment_counts,
        vec![("alice".to_string(), 2), ("bob".to_string(), 1)]
    );
}

#[test]
fn entries_with_empty_author_or_content_are_never_counted() {
    let d = doc(vec![
        entry("推", "   ", ": ghost"),
        entry("推", "alice", ""),
        entry("推", "alice", ": ok"),
    ]);
    let r = extract_article(&d, &vec![], &None);
    assert_eq!(r.user_comment_counts, vec![("alice".to_string(), 1)]);
}

#[test]
fn type_filter_keeps_only_matching_types() {
    let d = doc(vec![
        entry("推 ", "alice", ": praised"),
        entry("噓 ", "bob", ": booed"),
        entry("→ ", "carol", ": arrowed"),
        entry("?? ", "dave", ": other"),
    ]);
    let r = extract_article(&d, &strings(&["push", "arrow"]), &None);
    assert_eq!(
        r.user_comment_counts,
        vec![("alice".to_string(), 1), ("carol".to_string(), 1)]
    );
}

#[test]
fn type_precedence_push_before_hate_before_arrow() {
    // A tag containing several markers classifies by the fixed precedence.
    let d = doc(vec![entry("推噓→", "alice", ": x")]);
    let r = extract_article(&d, &strings(&["push"]), &None);
    assert_eq!(r.user_comment_counts, vec![("alice".to_string(), 1)]);
    let r2 = extract_article(&d, &strings(&["hate"]), &None);
    assert_eq!(r2.user_comment_counts, vec![]);
}

#[test]
fn unknown_type_for_unmarked_tags() {
    let d = doc(vec![entry("", "alice", ": x")]);
    let r = extract_article(&d, &strings(&["unknown"]), &None);
    assert_eq!(r.user_comment_counts, vec![("alice".to_string(), 1)]);
}

#[test]
fn empty_type_filter_accepts_every_type() {
    let d = doc(vec![
        entry("推", "a", ": x"),
        entry("噓", "b", ": x"),
        entry("→", "c", ": x"),
        entry("?", "d", ": x"),
    ]);
    let r = extract_article(&d, &vec![], &None);
    assert_eq!(r.user_comment_counts.len(), 4);
}

#[test]
fn keyword_filter_is_or_of_substrings() {
    let d = doc(vec![
        entry("推", "alice", ": has AAA inside"),
        entry("推", "bob", ": has BBB inside"),
        entry("推", "carol", ": has nothing"),
    ]);
    let r = extract_article(&d, &vec![], &Some(strings(&["AAA", "BBB"])));
    assert_eq!(
        r.user_comment_counts,
        vec![("alice".to_string(), 1), ("bob".to_string(), 1)]
    );
}

#[test]
fn empty_keyword_list_accepts_every_entry() {
    let d = doc(vec![entry("推", "alice", ": anything")]);
    let r = extract_article(&d, &vec![], &Some(vec![]));
    assert_eq!(r.user_comment_counts, vec![("alice".to_string(), 1)]);
}

#[test]
fn keywords_match_against_cleaned_content() {
    // The leading colon-and-whitespace run is stripped before matching.
    let d = doc(vec![entry("推", "alice", ":: :needle")]);
    let r = extract_article(&d, &vec![], &Some(strings(&["needle"])));
    assert_eq!(r.user_comment_counts, vec![("alice".to_string(), 1)]);
    // A keyword made only of the stripped prefix no longer matches.
    let r2 = extract_article(&d, &vec![], &Some(strings(&[":: :"])));
    assert_eq!(r2.user_comment_counts, vec![]);
}

#[test]
fn keyword_matching_is_case_sensitive() {
    let d = doc(vec![entry("推", "alice", ": Needle")]);
    let r = extract_article(&d, &vec![], &Some(strings(&["needle"])));
    assert_eq!(r.user_comment_counts, vec![]);
}

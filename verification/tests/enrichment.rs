//! Orchestrator behavior: concurrency cap, progress, coverage, and the
//! end-to-end pipeline.

use ptt_analyzer::article::{extract_article, ArticleDocument, CommentEntry};
use ptt_analyzer::config::{AppConfig, SortingConfig};
use ptt_analyzer::enrich::{
    merge_report, resolve_profile_outcome, Orchestrator, DEFAULT_CONCURRENT_LIMIT,
    PROFILE_FETCH_DELAY_MS,
};
use ptt_analyzer::error::Error;
use ptt_analyzer::profile::PttWebData;
use ptt_analyzer::report::{build_analysis_result, extend_target_boards, ReportMetadata};

fn counts(pairs: &[(&str, u32)]) -> Vec<(String, u32)> {
    pairs.iter().map(|(u, c)| (u.to_string(), *c)).collect()
}

#[test]
fn defaults_match_the_design() {
    assert_eq!(DEFAULT_CONCURRENT_LIMIT, 10);
    assert_eq!(PROFILE_FETCH_DELAY_MS, 250);
    let c = AppConfig::default();
    assert!(c.boards.is_empty());
    assert_eq!(c.sorting.sort_by, "本文留言數");
    assert_eq!(c.sorting.order, "desc");
}

#[test]
fn dispatch_emits_numbered_progress_in_input_order() {
    let mut o = Orchestrator::new(counts(&[("a", 1), ("b", 2), ("c", 3)]), 10);
    let e1 = o.dispatch().unwrap();
    assert_eq!((e1.current, e1.total, e1.user_id.as_str()), (1, 3, "a"));
    let e2 = o.dispatch().unwrap();
    assert_eq!((e2.current, e2.total, e2.user_id.as_str()), (2, 3, "b"));
}

#[test]
fn in_flight_never_exceeds_the_cap() {
    let mut o = Orchestrator::new(counts(&[("a", 1), ("b", 1), ("c", 1), ("d", 1)]), 2);
    assert!(o.dispatch().is_some());
    assert!(o.dispatch().is_some());
    // At the cap the third dispatch is refused until one fetch completes.
    assert!(o.dispatch().is_none());
    assert!(o.complete(0, None));
    assert!(o.dispatch().is_some());
    assert!(o.dispatch().is_none());
}

#[test]
fn completion_may_arrive_out_of_order() {
    let mut o = Orchestrator::new(counts(&[("a", 1), ("b", 2)]), 10);
    o.dispatch().unwrap();
    o.dispatch().unwrap();
    assert!(o.complete(1, Some(PttWebData { board_comments: vec![], total_comments: 9 })));
    assert!(o.complete(0, None));
    assert!(o.finished());
    let rows = o.into_reports();
    assert_eq!(rows.len(), 2);
    assert_eq!(rows[0].user, "b");
    assert_eq!(rows[0].article_comments, 2);
    assert_eq!(rows[0].total_comments, 9);
    assert_eq!(rows[1].user, "a");
    assert_eq!(rows[1].article_comments, 1);
    assert_eq!(rows[1].total_comments, 0);
}

#[test]
fn unknown_or_repeated_completions_are_refused() {
    let mut o = Orchestrator::new(counts(&[("a", 1)]), 10);
    assert!(!o.complete(0, None));
    o.dispatch().unwrap();
    assert!(o.complete(0, None));
    assert!(!o.complete(0, None));
    assert!(!o.complete(7, None));
}

#[test]
fn failure_policy_retains_the_user_zero_valued() {
    let err: Result<PttWebData, Error> = Err(Error::PttWebUserNotFound("a".to_string()));
    assert!(resolve_profile_outcome(err).is_none());
    let err2: Result<PttWebData, Error> = Err(Error::Request("down".to_string()));
    assert!(resolve_profile_outcome(err2).is_none());
    let row = merge_report("a".to_string(), 4, None);
    assert_eq!(row.user, "a");
    assert_eq!(row.article_comments, 4);
    assert_eq!(row.total_comments, 0);
    assert!(row.board_comments.is_empty());
}

#[test]
fn target_boards_gain_the_article_board_once() {
    let boards = vec!["NBA".to_string()];
    let extended = extend_target_boards(&boards, &"Gossiping".to_string());
    assert_eq!(extended, vec!["NBA".to_string(), "Gossiping".to_string()]);
    let unchanged = extend_target_boards(&extended, &"NBA".to_string());
    assert_eq!(unchanged, extended);
}

#[test]
fn end_to_end_article_to_report() {
    // The article yields alice with three qualifying comments and bob with
    // one; alice's enrichment fails as user-not-found, bob's succeeds.
    let entry = |tag: &str, author: &str, content: &str| CommentEntry {
        tag: tag.to_string(),
        author: author.to_string(),
        content: content.to_string(),
    };
    let doc = ArticleDocument {
        meta_values: vec![
            "meta".to_string(),
            "meta".to_string(),
            "An Article".to_string(),
        ],
        right_meta_values: vec!["TestBoard".to_string()],
        page_title: None,
        entries: vec![
            entry("推", "alice", ": one"),
            entry("推", "bob", ": two"),
            entry("噓", "alice", ": three"),
            entry("→", "alice", ": four"),
        ],
    };
    let article = extract_article(&doc, &vec![], &None);
    assert_eq!(article.user_comment_counts, counts(&[("alice", 3), ("bob", 1)]));

    let mut o = Orchestrator::new(article.user_comment_counts, DEFAULT_CONCURRENT_LIMIT);
    let mut dispatched = Vec::new();
    while let Some(ev) = o.dispatch() {
        dispatched.push(ev.user_id.clone());
    }
    assert_eq!(dispatched, vec!["alice".to_string(), "bob".to_string()]);

    let alice_result: Result<PttWebData, Error> =
        Err(Error::PttWebUserNotFound("alice".to_string()));
    assert!(o.complete(0, resolve_profile_outcome(alice_result)));
    let bob_result: Result<PttWebData, Error> = Ok(PttWebData {
        board_comments: vec![("X".to_string(), 5)],
        total_comments: 50,
    });
    assert!(o.complete(1, resolve_profile_outcome(bob_result)));
    assert!(o.finished());

    let metadata = ReportMetadata {
        title: article.title,
        url: "http://example.invalid/article".to_string(),
        board: article.board,
        filter_types: vec![],
        keywords: None,
        highlight_condition: None,
    };
    let sorting = SortingConfig {
        sort_by: "本文留言數".to_string(),
        order: "desc".to_string(),
    };
    let result = build_analysis_result(metadata, o.into_reports(), &sorting);

    assert!(result.highlighted_data.is_empty());
    assert_eq!(result.normal_data.len(), 2);
    let alice = &result.normal_data[0];
    assert_eq!(alice.user, "alice");
    assert_eq!(alice.article_comments, 3);
    assert_eq!(alice.total_comments, 0);
    assert!(alice.board_comments.is_empty());
    let bob = &result.normal_data[1];
    assert_eq!(bob.user, "bob");
    assert_eq!(bob.article_comments, 1);
    assert_eq!(bob.total_comments, 50);
    assert_eq!(bob.board_comments, vec![("X".to_string(), 5)]);
}

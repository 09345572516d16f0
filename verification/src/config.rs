//! Analysis configuration: the boards of interest and the sorting rule.

use vstd::prelude::*;

verus! {

/// How the final report is ordered: by which key (one of the two reserved
/// keys, or a literal board name) and in which direction ("asc" or "desc").
#[derive(Debug, Clone)]
pub struct SortingConfig {
    pub sort_by: String,
    pub order: String,
}

/// Analysis-wide configuration: the boards whose per-user comment counts are
/// collected during enrichment, and how the final report is sorted.
#[derive(Debug, Clone)]
pub struct AppConfig {
    pub boards: Vec<String>,
    pub sorting: SortingConfig,
}

impl Default for AppConfig {
    /// The fallback configuration: no boards of interest, sorted descending
    /// by article-comment count.
    fn default() -> (c: AppConfig)
        ensures
            c.boards@.len() == 0,
            c.sorting.sort_by@ == "本文留言數"@,
            c.sorting.order@ == "desc"@,
    {
        AppConfig {
            boards: Vec::new(),
            sorting: SortingConfig {
                sort_by: String::from_str("本文留言數"),
                order: String::from_str("desc"),
            },
        }
    }
}

} // verus!

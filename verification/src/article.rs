//! Article extraction: from the selected node texts of one article document
//! to its title, board, and the per-commenter count of qualifying comments.

use vstd::prelude::*;

use crate::text::{
    clean_content, clean_content_spec, contains_char, contains_substr, has_char, is_substring,
    list_contains_str, seq_has_string, str_eq, trim, trim_spec,
};

verus! {

/// One comment entry as selected from the article document: the raw text of
/// its tag node, author node, and content node, each empty where the node is
/// absent.
#[derive(Debug, Clone)]
pub struct CommentEntry {
    pub tag: String,
    pub author: String,
    pub content: String,
}

/// The parts of an article document that extraction reads, handed in as plain
/// node texts by the selector capability: the texts of the nodes matching the
/// article-metadata-value selector, those matching the right-aligned metadata
/// selector, the document's generic title node, and the comment entries.
#[derive(Debug, Clone)]
pub struct ArticleDocument {
    pub meta_values: Vec<String>,
    pub right_meta_values: Vec<String>,
    pub page_title: Option<String>,
    pub entries: Vec<CommentEntry>,
}

/// The extracted article: per-commenter counts of qualifying comments (keys
/// unique, in order of first occurrence), the board, and the title.
#[derive(Debug, Clone)]
pub struct PttArticleData {
    pub user_comment_counts: Vec<(String, u32)>,
    pub board: String,
    pub title: String,
}

/// The name of a comment's type, decided by substring match on its tag text,
/// in fixed precedence.
pub open spec fn classify_spec(tag: Seq<char>) -> Seq<char> {
    if has_char(tag, '推') {
        "push"@
    } else if has_char(tag, '噓') {
        "hate"@
    } else if has_char(tag, '→') {
        "arrow"@
    } else {
        "unknown"@
    }
}

/// Classify one comment by its tag text.
pub fn classify(tag: &str) -> (r: String)
    ensures
        r@ == classify_spec(tag@),
{
    if contains_char(tag, '推') {
        String::from_str("push")
    } else if contains_char(tag, '噓') {
        String::from_str("hate")
    } else if contains_char(tag, '→') {
        String::from_str("arrow")
    } else {
        String::from_str("unknown")
    }
}

/// The keyword filter: absent or empty accepts everything; otherwise at least
/// one keyword must occur in the cleaned content (OR of exact substrings).
pub open spec fn keyword_match(content: Seq<char>, keywords: Option<Vec<String>>) -> bool {
    match keywords {
        None => true,
        Some(ks) => ks@.len() == 0 || exists|i: int|
            0 <= i < ks@.len() && is_substring(content, ks@[i]@),
    }
}

/// The keyword filter has OR-semantics: an absent list accepts everything;
/// a present list accepts a content exactly when it is empty or at least one
/// of its keywords occurs in the content as a substring.
pub proof fn lemma_keyword_or(content: Seq<char>, keywords: Option<Vec<String>>)
    ensures
        keywords is None ==> keyword_match(content, keywords),
        keywords matches Some(ks) ==> (keyword_match(content, keywords) <==> (ks@.len() == 0
            || exists|i: int|
            0 <= i < ks@.len() && #[trigger] is_substring(content, ks@[i]@))),
{
}

/// Whether one comment entry is counted: its trimmed author and raw content
/// are non-empty, its type passes the type filter (an empty filter accepts
/// all), and its cleaned content passes the keyword filter.
pub open spec fn entry_qualifies(
    e: CommentEntry,
    filter_types: Vec<String>,
    keywords: Option<Vec<String>>,
) -> bool {
    &&& trim_spec(e.author@).len() > 0
    &&& e.content@.len() > 0
    &&& (filter_types@.len() == 0 || seq_has_string(filter_types@, classify_spec(e.tag@)))
    &&& keyword_match(clean_content_spec(e.content@), keywords)
}

/// The commenter counts as a mathematical sequence of (user, count) pairs.
pub open spec fn counts_view(v: Seq<(String, u32)>) -> Seq<(Seq<char>, nat)> {
    Seq::new(v.len(), |i: int| (v[i].0@, v[i].1 as nat))
}

/// No two entries of the count list share a user.
pub open spec fn distinct_keys(counts: Seq<(Seq<char>, nat)>) -> bool {
    forall|i: int, j: int| 0 <= i < j < counts.len() ==> counts[i].0 != counts[j].0
}

/// Whether `user` has an entry in the count list.
pub open spec fn key_present(counts: Seq<(Seq<char>, nat)>, user: Seq<char>) -> bool {
    exists|j: int| 0 <= j < counts.len() && counts[j].0 == user
}

/// Add one comment by `user` to the count list: bump the existing entry, or
/// append a fresh entry with count one.
pub open spec fn bump(counts: Seq<(Seq<char>, nat)>, user: Seq<char>) -> Seq<(Seq<char>, nat)> {
    if key_present(counts, user) {
        let j = choose|j: int| 0 <= j < counts.len() && counts[j].0 == user;
        counts.update(j, (user, counts[j].1 + 1))
    } else {
        counts.push((user, 1))
    }
}

/// The commenter tally of a run of entries, processed in document order:
/// every qualifying entry adds one comment under its trimmed author id.
pub open spec fn tally(
    entries: Seq<CommentEntry>,
    filter_types: Vec<String>,
    keywords: Option<Vec<String>>,
) -> Seq<(Seq<char>, nat)>
    decreases entries.len(),
{
    if entries.len() == 0 {
        Seq::empty()
    } else {
        let prev = tally(entries.drop_last(), filter_types, keywords);
        let e = entries.last();
        if entry_qualifies(e, filter_types, keywords) {
            bump(prev, trim_spec(e.author@))
        } else {
            prev
        }
    }
}

/// Whether some qualifying entry was written by `user` (trimmed author id).
pub open spec fn some_qualifying(
    entries: Seq<CommentEntry>,
    filter_types: Vec<String>,
    keywords: Option<Vec<String>>,
    user: Seq<char>,
) -> bool {
    exists|i: int|
        0 <= i < entries.len() && entry_qualifies(#[trigger] entries[i], filter_types, keywords)
            && trim_spec(entries[i].author@) == user
}

/// How many qualifying entries were written by `user` (trimmed author id).
pub open spec fn user_count(
    entries: Seq<CommentEntry>,
    filter_types: Vec<String>,
    keywords: Option<Vec<String>>,
    user: Seq<char>,
) -> nat {
    entries.filter(
        |e: CommentEntry|
            entry_qualifies(e, filter_types, keywords) && trim_spec(e.author@) == user,
    ).len()
}

/// Appending one entry extends `some_qualifying` by exactly that entry.
proof fn lemma_some_qualifying_step(
    entries: Seq<CommentEntry>,
    filter_types: Vec<String>,
    keywords: Option<Vec<String>>,
)
    requires
        entries.len() > 0,
    ensures
        forall|u: Seq<char>|
            #[trigger] some_qualifying(entries, filter_types, keywords, u) <==> (some_qualifying(
                entries.drop_last(),
                filter_types,
                keywords,
                u,
            ) || (entry_qualifies(entries.last(), filter_types, keywords) && trim_spec(
                entries.last().author@,
            ) == u)),
{
    let prefix = entries.drop_last();
    let e = entries.last();
    assert forall|u: Seq<char>|
        #[trigger] some_qualifying(entries, filter_types, keywords, u) <==> (some_qualifying(
            prefix,
            filter_types,
            keywords,
            u,
        ) || (entry_qualifies(e, filter_types, keywords) && trim_spec(e.author@) == u)) by {
        if some_qualifying(entries, filter_types, keywords, u) {
            let i = choose|i: int|
                0 <= i < entries.len() && entry_qualifies(
                    #[trigger] entries[i],
                    filter_types,
                    keywords,
                ) && trim_spec(entries[i].author@) == u;
            if i < entries.len() - 1 {
                assert(prefix[i] == entries[i]);
                assert(some_qualifying(prefix, filter_types, keywords, u));
            }
        }
        if some_qualifying(prefix, filter_types, keywords, u) {
            let i = choose|i: int|
                0 <= i < prefix.len() && entry_qualifies(
                    #[trigger] prefix[i],
                    filter_types,
                    keywords,
                ) && trim_spec(prefix[i].author@) == u;
            assert(entries[i] == prefix[i]);
            assert(some_qualifying(entries, filter_types, keywords, u));
        }
        if entry_qualifies(e, filter_types, keywords) && trim_spec(e.author@) == u {
            assert(entries[entries.len() - 1] == e);
            assert(some_qualifying(entries, filter_types, keywords, u));
        }
    }
}

/// Appending one entry raises `user_count` by one for its author, when it
/// qualifies, and changes no other count.
proof fn lemma_user_count_step(
    entries: Seq<CommentEntry>,
    filter_types: Vec<String>,
    keywords: Option<Vec<String>>,
)
    requires
        entries.len() > 0,
    ensures
        forall|u: Seq<char>|
            #[trigger] user_count(entries, filter_types, keywords, u) == user_count(
                entries.drop_last(),
                filter_types,
                keywords,
                u,
            ) + (if entry_qualifies(entries.last(), filter_types, keywords) && trim_spec(
                entries.last().author@,
            ) == u {
                1nat
            } else {
                0nat
            }),
{
    let prefix = entries.drop_last();
    let e = entries.last();
    assert forall|u: Seq<char>|
        #[trigger] user_count(entries, filter_types, keywords, u) == user_count(
            prefix,
            filter_types,
            keywords,
            u,
        ) + (if entry_qualifies(e, filter_types, keywords) && trim_spec(e.author@) == u {
            1nat
        } else {
            0nat
        }) by {
        reveal(Seq::filter);
    }
}

/// The commenter tally is exactly right: its keys are the distinct non-empty
/// trimmed author ids of the qualifying entries (entries with an empty author
/// or content are never counted), and each key carries the exact number of
/// qualifying entries its author wrote.
pub proof fn lemma_tally_counts(
    entries: Seq<CommentEntry>,
    filter_types: Vec<String>,
    keywords: Option<Vec<String>>,
)
    ensures
        distinct_keys(tally(entries, filter_types, keywords)),
        forall|u: Seq<char>|
            #[trigger] key_present(tally(entries, filter_types, keywords), u) <==> some_qualifying(
                entries,
                filter_types,
                keywords,
                u,
            ),
        forall|u: Seq<char>|
            #[trigger] user_count(entries, filter_types, keywords, u) > 0 <==> some_qualifying(
                entries,
                filter_types,
                keywords,
                u,
            ),
        forall|j: int|
            0 <= j < tally(entries, filter_types, keywords).len() ==> ((#[trigger] tally(
                entries,
                filter_types,
                keywords,
            )[j]).0.len() > 0 && tally(entries, filter_types, keywords)[j].1 == user_count(
                entries,
                filter_types,
                keywords,
                tally(entries, filter_types, keywords)[j].0,
            )),
    decreases entries.len(),
{
    if entries.len() == 0 {
        assert forall|u: Seq<char>|
            !(#[trigger] user_count(entries, filter_types, keywords, u) > 0) by {
            reveal(Seq::filter);
        }
    } else {
        let prefix = entries.drop_last();
        let e = entries.last();
        let tp = tally(prefix, filter_types, keywords);
        let t = tally(entries, filter_types, keywords);
        lemma_tally_counts(prefix, filter_types, keywords);
        lemma_some_qualifying_step(entries, filter_types, keywords);
        lemma_user_count_step(entries, filter_types, keywords);
        if entry_qualifies(e, filter_types, keywords) {
            let user = trim_spec(e.author@);
            if key_present(tp, user) {
                let j = choose|j: int| 0 <= j < tp.len() && tp[j].0 == user;
                assert(t == tp.update(j, (user, tp[j].1 + 1)));
                assert forall|u: Seq<char>|
                    #[trigger] key_present(t, u) <==> key_present(tp, u) by {
                    if key_present(t, u) {
                        let k = choose|k: int| 0 <= k < t.len() && t[k].0 == u;
                        assert(tp[k].0 == u);
                    }
                    if key_present(tp, u) {
                        let k = choose|k: int| 0 <= k < tp.len() && tp[k].0 == u;
                        if k == j {
                            assert(t[j].0 == u);
                        } else {
                            assert(t[k].0 == u);
                        }
                    }
                }
            } else {
                assert(t == tp.push((user, 1)));
                assert(user_count(prefix, filter_types, keywords, user) == 0);
                assert forall|k: int| 0 <= k < tp.len() implies #[trigger] t[k] == tp[k] by {}
                assert(t[t.len() - 1] == (user, 1nat));
                assert forall|u: Seq<char>|
                    #[trigger] key_present(t, u) <==> (key_present(tp, u) || u == user) by {
                    if key_present(t, u) {
                        let k = choose|k: int| 0 <= k < t.len() && t[k].0 == u;
                        if k < tp.len() {
                            assert(tp[k].0 == u);
                        }
                    }
                    if key_present(tp, u) {
                        let k = choose|k: int| 0 <= k < tp.len() && tp[k].0 == u;
                        assert(t[k].0 == u);
                    }
                    if u == user {
                        assert(t[t.len() - 1].0 == u);
                    }
                }
            }
        }
    }
}

/// The article's title: the third metadata value when its trimmed text is
/// non-empty, else the trimmed generic title node, else a fixed placeholder.
pub open spec fn article_title_spec(doc: ArticleDocument) -> Seq<char> {
    let meta = if doc.meta_values@.len() > 2 {
        trim_spec(doc.meta_values@[2]@)
    } else {
        Seq::<char>::empty()
    };
    if meta.len() > 0 {
        meta
    } else {
        match doc.page_title {
            Some(t) => trim_spec(t@),
            None => "未知標題"@,
        }
    }
}

/// The article's board: the first right-aligned metadata value, trimmed, or a
/// fixed default.
pub open spec fn article_board_spec(doc: ArticleDocument) -> Seq<char> {
    if doc.right_meta_values@.len() > 0 {
        trim_spec(doc.right_meta_values@[0]@)
    } else {
        "Unknown"@
    }
}

/// Whether one entry passes the type and keyword filters, decided exactly as
/// `entry_qualifies` states.
#[verifier::loop_isolation(false)]
fn entry_qualifies_exec(
    e: &CommentEntry,
    filter_types: &Vec<String>,
    keywords: &Option<Vec<String>>,
) -> (r: bool)
    ensures
        r == entry_qualifies(*e, *filter_types, *keywords),
{
    let user = trim(e.author.as_str());
    if user.as_str().is_empty() {
        return false;
    }
    if e.content.as_str().is_empty() {
        return false;
    }
    let kind_name = classify(e.tag.as_str());
    let type_ok = filter_types.len() == 0 || list_contains_str(filter_types, kind_name.as_str());
    if !type_ok {
        return false;
    }
    let cleaned = clean_content(e.content.as_str());
    match keywords {
        None => true,
        Some(ks) => {
            if ks.len() == 0 {
                return true;
            }
            let mut i: usize = 0;
            while i < ks.len()
                invariant
                    0 <= i <= ks@.len(),
                    forall|k: int|
                        0 <= k < i ==> !is_substring(clean_content_spec(e.content@), ks@[k]@),
                decreases ks@.len() - i,
            {
                if contains_substr(cleaned.as_str(), ks[i].as_str()) {
                    return true;
                }
                i = i + 1;
            }
            false
        },
    }
}

/// Extract title, board, and the per-commenter tally from one article
/// document.
pub fn extract_article(
    doc: &ArticleDocument,
    filter_types: &Vec<String>,
    keywords: &Option<Vec<String>>,
) -> (r: PttArticleData)
    requires
        doc.entries@.len() <= u32::MAX,
    ensures
        r.title@ == article_title_spec(*doc),
        r.board@ == article_board_spec(*doc),
        counts_view(r.user_comment_counts@) == tally(doc.entries@, *filter_types, *keywords),
        distinct_keys(counts_view(r.user_comment_counts@)),
{
    let title: String = {
        let meta = if doc.meta_values.len() > 2 {
            trim(doc.meta_values[2].as_str())
        } else {
            String::new()
        };
        if !meta.as_str().is_empty() {
            meta
        } else {
            match &doc.page_title {
                Some(t) => trim(t.as_str()),
                None => String::from_str("未知標題"),
            }
        }
    };
    let board: String = if doc.right_meta_values.len() > 0 {
        trim(doc.right_meta_values[0].as_str())
    } else {
        String::from_str("Unknown")
    };

    let mut acc: Vec<(String, u32)> = Vec::new();
    let mut i: usize = 0;
    proof {
        assert(doc.entries@.subrange(0, 0) =~= Seq::<CommentEntry>::empty());
        assert(counts_view(acc@) =~= tally(
            doc.entries@.subrange(0, 0),
            *filter_types,
            *keywords,
        ));
    }
    while i < doc.entries.len()
        invariant
            0 <= i <= doc.entries@.len(),
            doc.entries@.len() <= u32::MAX,
            counts_view(acc@) == tally(doc.entries@.subrange(0, i as int), *filter_types, *keywords),
            distinct_keys(counts_view(acc@)),
            forall|k: int| 0 <= k < acc@.len() ==> #[trigger] acc@[k].1 <= i,
        decreases doc.entries@.len() - i,
    {
        let ghost pre = counts_view(acc@);
        let ghost prefix = doc.entries@.subrange(0, i as int);
        proof {
            assert(doc.entries@.subrange(0, i + 1).drop_last() =~= prefix);
            assert(doc.entries@.subrange(0, i + 1).last() == doc.entries@[i as int]);
        }
        let entry = &doc.entries[i];
        if entry_qualifies_exec(entry, filter_types, keywords) {
            let user = trim(entry.author.as_str());
            let mut j: usize = 0;
            let mut found = false;
            while j < acc.len() && !found
                invariant
                    0 <= j <= acc@.len(),
                    !found ==> forall|k: int| 0 <= k < j ==> acc@[k].0@ != user@,
                    found ==> j < acc@.len() && acc@[j as int].0@ == user@,
                decreases acc@.len() - j + (if found {
                    0int
                } else {
                    1int
                }),
            {
                if str_eq(acc[j].0.as_str(), user.as_str()) {
                    found = true;
                } else {
                    j = j + 1;
                }
            }
            if found {
                proof {
                    assert(pre[j as int].0 == user@);
                    assert(key_present(pre, user@));
                    let j2 = choose|j2: int| 0 <= j2 < pre.len() && pre[j2].0 == user@;
                    assert(j2 == j);
                }
                let count = acc[j].1;
                let key = acc.remove(j);
                acc.insert(j, (key.0, count + 1));
                proof {
                    assert(counts_view(acc@) =~= bump(pre, user@));
                }
            } else {
                proof {
                    assert(!key_present(pre, user@));
                }
                acc.push((user, 1));
                proof {
                    assert(counts_view(acc@) =~= bump(pre, user@));
                }
            }
        }
        i = i + 1;
    }
    proof {
        assert(doc.entries@.subrange(0, doc.entries@.len() as int) =~= doc.entries@);
    }
    PttArticleData { user_comment_counts: acc, board, title }
}

} // verus!

//! Profile parsing: from the selected node texts of one per-user statistics
//! document to the user's total comment count and per-board counts.

use vstd::prelude::*;

use crate::error::Error;
use crate::text::{
    contains_substr, is_substring, list_contains_str, parse_u32, parse_u32_spec, seq_has_string,
    str_eq, trim, trim_spec,
};

verus! {

/// One board entry as selected from a profile document: the raw text of its
/// anchor child (the board name) and of its count span, where present.
#[derive(Debug, Clone)]
pub struct BoardEntry {
    pub name: Option<String>,
    pub count: Option<String>,
}

/// The parts of a per-user statistics document that parsing reads, handed in
/// as plain node texts: the generic title node, the headline node, and the
/// board entries.
#[derive(Debug, Clone)]
pub struct ProfileDocument {
    pub page_title: Option<String>,
    pub headline: Option<String>,
    pub board_entries: Vec<BoardEntry>,
}

/// Per-user statistics: the comment counts on the boards of interest (keys
/// unique) and the lifetime total comment count.
#[derive(Debug, Clone)]
pub struct PttWebData {
    pub board_comments: Vec<(String, u32)>,
    pub total_comments: u32,
}

/// What the fixed headline pattern captures from a text: the digit run
/// standing between the total-comments marker phrases at the first match, if
/// any. The result depends on the text alone.
pub uninterp spec fn headline_total_capture(s: Seq<char>) -> Option<Seq<char>>;

/// Relies on regex::Regex::captures with the fixed pattern ", 共(\d+)則": the
/// first match's digit group is a non-empty run of digit characters.
#[verifier::external_body]
fn capture_headline_total(text: &str) -> (r: Option<String>)
    ensures
        r is Some <==> headline_total_capture(text@) is Some,
        r matches Some(d) ==> Some(d@) == headline_total_capture(text@) && d@.len() > 0,
{
    regex::Regex::new(r", 共(\d+)則")
        .unwrap()
        .captures(text)
        .and_then(|caps| caps.get(1))
        .map(|m| m.as_str().to_string())
}

/// Whether the document's title carries the no-such-author marker.
pub open spec fn profile_not_found_spec(doc: ProfileDocument) -> bool {
    match doc.page_title {
        Some(t) => is_substring(t@, "沒有此作者"@),
        None => false,
    }
}

/// The total comment count read from the headline: the captured digit run
/// parsed as a 32-bit count, when the headline exists, the pattern matches,
/// and the number fits.
pub open spec fn headline_total_spec(doc: ProfileDocument) -> Option<u32> {
    match doc.headline {
        Some(h) => match headline_total_capture(h@) {
            Some(d) => parse_u32_spec(d),
            None => None,
        },
        None => None,
    }
}

/// The per-board counts as a mathematical sequence of (board, count) pairs.
pub open spec fn board_counts_view(v: Seq<(String, u32)>) -> Seq<(Seq<char>, u32)> {
    Seq::new(v.len(), |i: int| (v[i].0@, v[i].1))
}

/// No two entries of the board count list share a board name.
pub open spec fn distinct_board_keys(counts: Seq<(Seq<char>, u32)>) -> bool {
    forall|i: int, j: int| 0 <= i < j < counts.len() ==> counts[i].0 != counts[j].0
}

/// What one board entry contributes: its trimmed name and parsed count, but
/// only when the name node exists, the name is a target board, the count node
/// exists, and its trimmed text parses as a 32-bit count.
pub open spec fn board_entry_accepted(e: BoardEntry, targets: Vec<String>) -> Option<
    (Seq<char>, u32),
> {
    match e.name {
        Some(n) => {
            let name = trim_spec(n@);
            if seq_has_string(targets@, name) {
                match e.count {
                    Some(c) => match parse_u32_spec(trim_spec(c@)) {
                        Some(v) => Some((name, v)),
                        None => None,
                    },
                    None => None,
                }
            } else {
                None
            }
        },
        None => None,
    }
}

/// Record a board's count: replace the existing entry's count, or append a
/// fresh entry (a later entry for the same board wins).
pub open spec fn board_upsert(
    acc: Seq<(Seq<char>, u32)>,
    name: Seq<char>,
    count: u32,
) -> Seq<(Seq<char>, u32)> {
    if exists|j: int| 0 <= j < acc.len() && acc[j].0 == name {
        let j = choose|j: int| 0 <= j < acc.len() && acc[j].0 == name;
        acc.update(j, (name, count))
    } else {
        acc.push((name, count))
    }
}

/// The per-board counts collected from a run of board entries, in document
/// order.
pub open spec fn board_tally(entries: Seq<BoardEntry>, targets: Vec<String>) -> Seq<
    (Seq<char>, u32),
>
    decreases entries.len(),
{
    if entries.len() == 0 {
        Seq::empty()
    } else {
        let prev = board_tally(entries.drop_last(), targets);
        match board_entry_accepted(entries.last(), targets) {
            Some(p) => board_upsert(prev, p.0, p.1),
            None => prev,
        }
    }
}

/// The per-user statistics URL, built from the fixed template.
pub fn profile_url(user_id: &str) -> (r: String)
    ensures
        r@ == "https://www.pttweb.cc/user/"@ + user_id@ + "?t=message"@,
{
    let mut s = String::from_str("https://www.pttweb.cc/user/");
    s.append(user_id);
    s.append("?t=message");
    s
}

/// What one board entry contributes, decided exactly as
/// `board_entry_accepted` states.
fn board_entry_accepted_exec(e: &BoardEntry, targets: &Vec<String>) -> (r: Option<(String, u32)>)
    ensures
        r is Some <==> board_entry_accepted(*e, *targets) is Some,
        r matches Some(p) ==> board_entry_accepted(*e, *targets) == Some((p.0@, p.1)),
{
    match &e.name {
        Some(n) => {
            let name = trim(n.as_str());
            if list_contains_str(targets, name.as_str()) {
                match &e.count {
                    Some(c) => {
                        let trimmed = trim(c.as_str());
                        match parse_u32(trimmed.as_str()) {
                            Some(v) => Some((name, v)),
                            None => None,
                        }
                    },
                    None => None,
                }
            } else {
                None
            }
        },
        None => None,
    }
}

/// Parse one per-user statistics document: detect the no-such-author marker,
/// read the total comment count from the headline, and collect the counts of
/// the target boards.
pub fn parse_profile(
    doc: &ProfileDocument,
    user_id: &str,
    target_boards: &Vec<String>,
) -> (r: Result<PttWebData, Error>)
    ensures
        r is Err <==> (profile_not_found_spec(*doc) || headline_total_spec(*doc) is None),
        profile_not_found_spec(*doc) ==> (r matches Err(e) && e matches Error::PttWebUserNotFound(
            u,
        ) && u@ == user_id@),
        !profile_not_found_spec(*doc) && headline_total_spec(*doc) is None ==> (r matches Err(e)
            && e matches Error::PttWebParse(m) && m@ == "無法從 headline 解析 "@ + user_id@
            + " 的總留言數"@),
        r matches Ok(d) ==> Some(d.total_comments) == headline_total_spec(*doc)
            && board_counts_view(d.board_comments@) == board_tally(
            doc.board_entries@,
            *target_boards,
        ) && distinct_board_keys(board_counts_view(d.board_comments@)),
{
    let not_found = match &doc.page_title {
        Some(t) => contains_substr(t.as_str(), "沒有此作者"),
        None => false,
    };
    if not_found {
        return Err(Error::PttWebUserNotFound(user_id.to_owned()));
    }

    let captured: Option<String> = match &doc.headline {
        Some(h) => capture_headline_total(h.as_str()),
        None => None,
    };
    let total: Option<u32> = match &captured {
        Some(d) => parse_u32(d.as_str()),
        None => None,
    };
    let total_comments: u32 = match total {
        Some(t) => t,
        None => {
            let mut m = String::from_str("無法從 headline 解析 ");
            m.append(user_id);
            m.append(" 的總留言數");
            return Err(Error::PttWebParse(m));
        },
    };

    let mut acc: Vec<(String, u32)> = Vec::new();
    let mut i: usize = 0;
    proof {
        assert(doc.board_entries@.subrange(0, 0) =~= Seq::<BoardEntry>::empty());
        assert(board_counts_view(acc@) =~= board_tally(
            doc.board_entries@.subrange(0, 0),
            *target_boards,
        ));
    }
    while i < doc.board_entries.len()
        invariant
            0 <= i <= doc.board_entries@.len(),
            board_counts_view(acc@) == board_tally(
                doc.board_entries@.subrange(0, i as int),
                *target_boards,
            ),
            distinct_board_keys(board_counts_view(acc@)),
        decreases doc.board_entries@.len() - i,
    {
        let ghost pre = board_counts_view(acc@);
        proof {
            assert(doc.board_entries@.subrange(0, i + 1).drop_last() =~= doc.board_entries@.subrange(
                0,
                i as int,
            ));
            assert(doc.board_entries@.subrange(0, i + 1).last() == doc.board_entries@[i as int]);
        }
        let entry = &doc.board_entries[i];
        match board_entry_accepted_exec(entry, target_boards) {
            Some(p) => {
                let (name, count) = p;
                let mut j: usize = 0;
                let mut found = false;
                while j < acc.len() && !found
                    invariant
                        0 <= j <= acc@.len(),
                        !found ==> forall|k: int| 0 <= k < j ==> acc@[k].0@ != name@,
                        found ==> j < acc@.len() && acc@[j as int].0@ == name@,
                    decreases acc@.len() - j + (if found {
                        0int
                    } else {
                        1int
                    }),
                {
                    if str_eq(acc[j].0.as_str(), name.as_str()) {
                        found = true;
                    } else {
                        j = j + 1;
                    }
                }
                if found {
                    proof {
                        assert(pre[j as int].0 == name@);
                        let j2 = choose|j2: int| 0 <= j2 < pre.len() && pre[j2].0 == name@;
                        assert(j2 == j);
                    }
                    acc.remove(j);
                    acc.insert(j, (name, count));
                    proof {
                        assert(board_counts_view(acc@) =~= board_upsert(pre, name@, count));
                    }
                } else {
                    acc.push((name, count));
                    proof {
                        assert(board_counts_view(acc@) =~= board_upsert(pre, name@, count));
                    }
                }
            },
            None => {},
        }
        i = i + 1;
    }
    proof {
        assert(doc.board_entries@.subrange(0, doc.board_entries@.len() as int)
            =~= doc.board_entries@);
    }
    Ok(PttWebData { board_comments: acc, total_comments })
}

} // verus!

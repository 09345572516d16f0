//! Report building: merge metadata, sort the per-user reports by a
//! configurable key, and partition them by a threshold condition.

use vstd::prelude::*;

use crate::config::SortingConfig;
use crate::highlight::{highlights_by, highlights_exec, parse_condition, parse_condition_spec, CompareOp, HighlightCondition};
use crate::text::{list_contains_str, seq_has_string, str_eq};

verus! {

broadcast use vstd::seq_lib::group_filter_ensures;

/// One row of the final report: a commenter, how many qualifying comments
/// they left under the article, their counts on the boards of interest, and
/// their lifetime total.
#[derive(Debug, Clone)]
pub struct UserReportData {
    pub user: String,
    pub article_comments: u32,
    pub board_comments: Vec<(String, u32)>,
    pub total_comments: u32,
}

/// What the final report records about the analysis run.
#[derive(Debug, Clone)]
pub struct ReportMetadata {
    pub title: String,
    pub url: String,
    pub board: String,
    pub filter_types: Vec<String>,
    pub keywords: Option<Vec<String>>,
    pub highlight_condition: Option<String>,
}

/// The finished report: metadata plus the highlighted and normal rows, both
/// in sorted order.
#[derive(Debug, Clone)]
pub struct AnalysisResult {
    pub metadata: ReportMetadata,
    pub highlighted_data: Vec<UserReportData>,
    pub normal_data: Vec<UserReportData>,
}

/// The count recorded for `name` in a board count list: the first entry's
/// count, or zero when absent.
pub open spec fn board_lookup(counts: Seq<(String, u32)>, name: Seq<char>) -> u32
    decreases counts.len(),
{
    if counts.len() == 0 {
        0
    } else if counts[0].0@ == name {
        counts[0].1
    } else {
        board_lookup(counts.drop_first(), name)
    }
}

/// Look a board's count up, zero when absent.
pub fn board_lookup_exec(counts: &Vec<(String, u32)>, name: &str) -> (r: u32)
    ensures
        r == board_lookup(counts@, name@),
{
    let mut i: usize = 0;
    proof {
        assert(counts@.subrange(0, counts@.len() as int) =~= counts@);
    }
    while i < counts.len()
        invariant
            0 <= i <= counts@.len(),
            board_lookup(counts@, name@) == board_lookup(
                counts@.subrange(i as int, counts@.len() as int),
                name@,
            ),
        decreases counts@.len() - i,
    {
        let ghost rest = counts@.subrange(i as int, counts@.len() as int);
        proof {
            assert(rest[0] == counts@[i as int]);
            assert(rest.drop_first() =~= counts@.subrange(i + 1, counts@.len() as int));
        }
        if str_eq(counts[i].0.as_str(), name) {
            return counts[i].1;
        }
        i = i + 1;
    }
    proof {
        assert(counts@.subrange(counts@.len() as int, counts@.len() as int).len() == 0);
    }
    0
}

/// The numeric key a report row is sorted by: one of the two reserved keys,
/// or the row's count on the named board (zero when absent).
pub open spec fn sort_key(r: UserReportData, sorting: SortingConfig) -> u32 {
    if sorting.sort_by@ == "本文留言數"@ {
        r.article_comments
    } else if sorting.sort_by@ == "生涯總留言數"@ {
        r.total_comments
    } else {
        board_lookup(r.board_comments@, sorting.sort_by@)
    }
}

/// Whether the configuration asks for descending order.
pub open spec fn sort_descending(sorting: SortingConfig) -> bool {
    sorting.order@ == "desc"@
}

/// Whether `a` must come strictly before `b` in the sorted report.
pub open spec fn precedes(a: UserReportData, b: UserReportData, sorting: SortingConfig) -> bool {
    if sort_descending(sorting) {
        sort_key(a, sorting) > sort_key(b, sorting)
    } else {
        sort_key(a, sorting) < sort_key(b, sorting)
    }
}

/// A sequence ordered by the configured key: no later row must come strictly
/// before an earlier one.
pub open spec fn sorted_by(s: Seq<UserReportData>, sorting: SortingConfig) -> bool {
    forall|i: int, j: int| 0 <= i < j < s.len() ==> !precedes(s[j], s[i], sorting)
}

/// The predicate selecting the rows whose sort key equals `k`.
pub open spec fn key_pred(sorting: SortingConfig, k: u32) -> spec_fn(UserReportData) -> bool {
    |r: UserReportData| sort_key(r, sorting) == k
}

/// Stable insertion of `x` into `s`: `x` goes in front of the first row that
/// must come strictly after it, hence behind every earlier row with an equal
/// key.
pub open spec fn insert_sorted(
    s: Seq<UserReportData>,
    x: UserReportData,
    sorting: SortingConfig,
) -> Seq<UserReportData>
    decreases s.len(),
{
    if s.len() == 0 {
        seq![x]
    } else if precedes(x, s[0], sorting) {
        seq![x] + s
    } else {
        seq![s[0]] + insert_sorted(s.drop_first(), x, sorting)
    }
}

/// Where `insert_sorted` places `x`: the first position whose row must come
/// strictly after `x`, or the end.
pub open spec fn insert_pos(s: Seq<UserReportData>, x: UserReportData, sorting: SortingConfig) -> int
    decreases s.len(),
{
    if s.len() == 0 {
        0
    } else if precedes(x, s[0], sorting) {
        0
    } else {
        1 + insert_pos(s.drop_first(), x, sorting)
    }
}

/// `insert_sorted` inserts exactly at `insert_pos`, which no earlier row
/// strictly follows.
proof fn lemma_insert_shape(s: Seq<UserReportData>, x: UserReportData, sorting: SortingConfig)
    ensures
        0 <= insert_pos(s, x, sorting) <= s.len(),
        insert_sorted(s, x, sorting) == s.insert(insert_pos(s, x, sorting), x),
        forall|q: int| 0 <= q < insert_pos(s, x, sorting) ==> !precedes(x, s[q], sorting),
        insert_pos(s, x, sorting) < s.len() ==> precedes(x, s[insert_pos(s, x, sorting)], sorting),
    decreases s.len(),
{
    if s.len() == 0 {
        assert(s.insert(0, x) =~= seq![x]);
    } else if precedes(x, s[0], sorting) {
        assert(s.insert(0, x) =~= seq![x] + s);
    } else {
        let rest = s.drop_first();
        lemma_insert_shape(rest, x, sorting);
        let p = insert_pos(rest, x, sorting);
        assert forall|q: int| 0 <= q < insert_pos(s, x, sorting) implies !precedes(
            x,
            s[q],
            sorting,
        ) by {
            if q > 0 {
                assert(rest[q - 1] == s[q]);
                assert(!precedes(x, rest[q - 1], sorting));
            }
        }
        if p < rest.len() {
            assert(s[p + 1] == rest[p]);
        }
        assert(s.insert(p + 1, x) =~= seq![s[0]] + rest.insert(p, x));
    }
}

/// Inserting into a sorted sequence keeps it sorted and adds one row.
proof fn lemma_insert_sorted_sorted(
    s: Seq<UserReportData>,
    x: UserReportData,
    sorting: SortingConfig,
)
    requires
        sorted_by(s, sorting),
    ensures
        sorted_by(insert_sorted(s, x, sorting), sorting),
        insert_sorted(s, x, sorting).len() == s.len() + 1,
{
    lemma_insert_shape(s, x, sorting);
    let p = insert_pos(s, x, sorting);
    let t = insert_sorted(s, x, sorting);
    assert forall|i: int, j: int| 0 <= i < j < t.len() implies !precedes(t[j], t[i], sorting) by {
        if i < p && j < p {
            assert(t[i] == s[i] && t[j] == s[j]);
        } else if i < p && j == p {
            assert(t[i] == s[i] && t[j] == x);
        } else if i < p && j > p {
            assert(t[i] == s[i] && t[j] == s[j - 1]);
        } else if i == p && j > p {
            assert(t[i] == x && t[j] == s[j - 1]);
            if p < s.len() {
                assert(!precedes(s[j - 1], s[p], sorting));
            }
        } else {
            assert(t[i] == s[i - 1] && t[j] == s[j - 1]);
        }
    }
}

/// Insertion adds exactly the one row to the sequence's contents.
proof fn lemma_insert_sorted_multiset(
    s: Seq<UserReportData>,
    x: UserReportData,
    sorting: SortingConfig,
)
    ensures
        insert_sorted(s, x, sorting).to_multiset() == s.to_multiset().insert(x),
{
    broadcast use vstd::seq_lib::group_to_multiset_ensures;
    broadcast use vstd::multiset::group_multiset_axioms;

    lemma_insert_shape(s, x, sorting);
    let p = insert_pos(s, x, sorting);
    let t = insert_sorted(s, x, sorting);
    assert(t.remove(p) =~= s);
    assert(t[p] == x);
    assert(t.contains(x));
    assert(t.to_multiset().count(x) > 0);
    assert(t.to_multiset() =~= s.to_multiset().insert(x));
}

/// A filter that rejects every row of `s` returns the empty sequence.
proof fn lemma_filter_none(s: Seq<UserReportData>, pred: spec_fn(UserReportData) -> bool)
    requires
        forall|i: int| 0 <= i < s.len() ==> !pred(s[i]),
    ensures
        s.filter(pred) == Seq::<UserReportData>::empty(),
    decreases s.len(),
{
    reveal(Seq::filter);
    if s.len() > 0 {
        lemma_filter_none(s.drop_last(), pred);
    }
    assert(s.filter(pred) =~= Seq::<UserReportData>::empty());
}

/// Stable insertion appends `x` at the end of its own key's subsequence and
/// leaves every other key's subsequence unchanged.
proof fn lemma_insert_sorted_filter(
    s: Seq<UserReportData>,
    x: UserReportData,
    sorting: SortingConfig,
    k: u32,
)
    requires
        sorted_by(s, sorting),
    ensures
        insert_sorted(s, x, sorting).filter(key_pred(sorting, k)) == (if sort_key(x, sorting)
            == k {
            s.filter(key_pred(sorting, k)).push(x)
        } else {
            s.filter(key_pred(sorting, k))
        }),
    decreases s.len(),
{
    reveal_with_fuel(Seq::filter, 3);
    let pred = key_pred(sorting, k);
    if s.len() == 0 {
        assert(seq![x].drop_last() == Seq::<UserReportData>::empty()) by {
            assert(seq![x].drop_last() =~= Seq::<UserReportData>::empty());
        }
        if sort_key(x, sorting) == k {
            assert(seq![x].filter(pred) =~= s.filter(pred).push(x));
        } else {
            assert(seq![x].filter(pred) =~= s.filter(pred));
        }
    } else if precedes(x, s[0], sorting) {
        Seq::<UserReportData>::filter_distributes_over_add(seq![x], s, pred);
        assert(seq![x].drop_last() == Seq::<UserReportData>::empty()) by {
            assert(seq![x].drop_last() =~= Seq::<UserReportData>::empty());
        }
        if sort_key(x, sorting) == k {
            assert forall|i: int| 0 <= i < s.len() implies !pred(s[i]) by {
                assert(!precedes(s[i], s[0], sorting) || i == 0);
            }
            lemma_filter_none(s, pred);
            assert(seq![x].filter(pred) =~= Seq::<UserReportData>::empty().push(x));
            assert((seq![x] + s).filter(pred) =~= s.filter(pred).push(x));
        } else {
            assert(seq![x].filter(pred) =~= Seq::<UserReportData>::empty());
            assert((seq![x] + s).filter(pred) =~= s.filter(pred));
        }
    } else {
        let rest = s.drop_first();
        assert(forall|i: int, j: int|
            0 <= i < j < rest.len() ==> !precedes(rest[j], rest[i], sorting));
        lemma_insert_sorted_filter(rest, x, sorting, k);
        Seq::<UserReportData>::filter_distributes_over_add(
            seq![s[0]],
            insert_sorted(rest, x, sorting),
            pred,
        );
        Seq::<UserReportData>::filter_distributes_over_add(seq![s[0]], rest, pred);
        assert(seq![s[0]] + rest =~= s);
        if sort_key(x, sorting) == k {
            assert(seq![s[0]].filter(pred) + rest.filter(pred).push(x) =~= (seq![s[0]].filter(pred)
                + rest.filter(pred)).push(x));
            assert(insert_sorted(s, x, sorting).filter(pred) =~= s.filter(pred).push(x));
        } else {
            assert(insert_sorted(s, x, sorting).filter(pred) =~= s.filter(pred));
        }
    }
}

/// The stable sort of `s` by the configured key: insertion of each row, in
/// input order, into the sorted result of the rows before it.
pub open spec fn sort_spec(s: Seq<UserReportData>, sorting: SortingConfig) -> Seq<UserReportData>
    decreases s.len(),
{
    if s.len() == 0 {
        Seq::empty()
    } else {
        insert_sorted(sort_spec(s.drop_last(), sorting), s.last(), sorting)
    }
}

/// The sorted result is sorted and has the input's length.
proof fn lemma_sort_spec_sorted(s: Seq<UserReportData>, sorting: SortingConfig)
    ensures
        sorted_by(sort_spec(s, sorting), sorting),
        sort_spec(s, sorting).len() == s.len(),
    decreases s.len(),
{
    if s.len() > 0 {
        lemma_sort_spec_sorted(s.drop_last(), sorting);
        lemma_insert_sorted_sorted(sort_spec(s.drop_last(), sorting), s.last(), sorting);
    }
}

/// Sorting keeps each key's rows exactly, in input order.
proof fn lemma_sort_spec_filter(s: Seq<UserReportData>, sorting: SortingConfig, k: u32)
    ensures
        sort_spec(s, sorting).filter(key_pred(sorting, k)) == s.filter(key_pred(sorting, k)),
    decreases s.len(),
{
    reveal(Seq::filter);
    let pred = key_pred(sorting, k);
    if s.len() == 0 {
    } else {
        let prefix = s.drop_last();
        lemma_sort_spec_filter(prefix, sorting, k);
        lemma_sort_spec_sorted(prefix, sorting);
        lemma_insert_sorted_filter(sort_spec(prefix, sorting), s.last(), sorting, k);
    }
}

/// Sorting an already sorted sequence changes nothing.
proof fn lemma_sort_of_sorted(s: Seq<UserReportData>, sorting: SortingConfig)
    requires
        sorted_by(s, sorting),
    ensures
        sort_spec(s, sorting) == s,
    decreases s.len(),
{
    if s.len() > 0 {
        let prefix = s.drop_last();
        assert(forall|i: int, j: int|
            0 <= i < j < prefix.len() ==> !precedes(prefix[j], prefix[i], sorting));
        lemma_sort_of_sorted(prefix, sorting);
        let x = s.last();
        lemma_insert_shape(prefix, x, sorting);
        let p = insert_pos(prefix, x, sorting);
        assert forall|q: int| 0 <= q < prefix.len() implies !precedes(x, prefix[q], sorting) by {
            assert(!precedes(s[prefix.len() as int], s[q], sorting));
        }
        assert(p == prefix.len());
        assert(prefix.insert(p, x) =~= s);
    }
}

/// Sorting keeps exactly the input's rows, as a multiset.
proof fn lemma_sort_spec_multiset(s: Seq<UserReportData>, sorting: SortingConfig)
    ensures
        sort_spec(s, sorting).to_multiset() == s.to_multiset(),
    decreases s.len(),
{
    broadcast use vstd::seq_lib::group_to_multiset_ensures;

    if s.len() > 0 {
        let prefix = s.drop_last();
        lemma_sort_spec_multiset(prefix, sorting);
        lemma_insert_sorted_multiset(sort_spec(prefix, sorting), s.last(), sorting);
        assert(prefix.push(s.last()) =~= s);
    }
}

/// Sorting is a stable total order on the report rows: the output is sorted
/// by the configured key and direction, it keeps exactly the input's rows,
/// each key's rows stay in input order, and sorting a second time with the
/// same configuration changes nothing.
pub proof fn lemma_sort_stable(s: Seq<UserReportData>, sorting: SortingConfig)
    ensures
        sorted_by(sort_spec(s, sorting), sorting),
        sort_spec(s, sorting).len() == s.len(),
        sort_spec(s, sorting).to_multiset() == s.to_multiset(),
        forall|k: u32|
            #[trigger] sort_spec(s, sorting).filter(key_pred(sorting, k)) == s.filter(
                key_pred(sorting, k),
            ),
        sort_spec(sort_spec(s, sorting), sorting) == sort_spec(s, sorting),
{
    lemma_sort_spec_sorted(s, sorting);
    lemma_sort_spec_multiset(s, sorting);
    assert forall|k: u32|
        #[trigger] sort_spec(s, sorting).filter(key_pred(sorting, k)) == s.filter(
            key_pred(sorting, k),
        ) by {
        lemma_sort_spec_filter(s, sorting, k);
    }
    lemma_sort_of_sorted(sort_spec(s, sorting), sorting);
}

/// Reversing the direction reverses the relative rank of rows with distinct
/// keys and never the order of ties: under both directions each key's rows
/// stay in input order, while the ascending output has keys non-decreasing
/// and the descending output has them non-increasing.
pub proof fn lemma_sort_reversal(s: Seq<UserReportData>, asc: SortingConfig, desc: SortingConfig)
    requires
        asc.sort_by@ == desc.sort_by@,
        !sort_descending(asc),
        sort_descending(desc),
    ensures
        forall|i: int, j: int|
            0 <= i < j < sort_spec(s, asc).len() ==> sort_key(
                #[trigger] sort_spec(s, asc)[i],
                asc,
            ) <= sort_key(#[trigger] sort_spec(s, asc)[j], asc),
        forall|i: int, j: int|
            0 <= i < j < sort_spec(s, desc).len() ==> sort_key(
                #[trigger] sort_spec(s, desc)[i],
                desc,
            ) >= sort_key(#[trigger] sort_spec(s, desc)[j], desc),
        forall|k: u32|
            #[trigger] sort_spec(s, asc).filter(key_pred(asc, k)) == s.filter(key_pred(asc, k)),
        forall|k: u32|
            #[trigger] sort_spec(s, desc).filter(key_pred(desc, k)) == s.filter(key_pred(desc, k)),
{
    lemma_sort_stable(s, asc);
    lemma_sort_stable(s, desc);
    assert forall|i: int, j: int| 0 <= i < j < sort_spec(s, asc).len() implies sort_key(
        #[trigger] sort_spec(s, asc)[i],
        asc,
    ) <= sort_key(#[trigger] sort_spec(s, asc)[j], asc) by {
        assert(!precedes(sort_spec(s, asc)[j], sort_spec(s, asc)[i], asc));
    }
    assert forall|i: int, j: int| 0 <= i < j < sort_spec(s, desc).len() implies sort_key(
        #[trigger] sort_spec(s, desc)[i],
        desc,
    ) >= sort_key(#[trigger] sort_spec(s, desc)[j], desc) by {
        assert(!precedes(sort_spec(s, desc)[j], sort_spec(s, desc)[i], desc));
    }
}

/// The sort key of one row, computed as `sort_key` states.
pub fn get_key(r: &UserReportData, sorting: &SortingConfig) -> (k: u32)
    ensures
        k == sort_key(*r, *sorting),
{
    if str_eq(sorting.sort_by.as_str(), "本文留言數") {
        r.article_comments
    } else if str_eq(sorting.sort_by.as_str(), "生涯總留言數") {
        r.total_comments
    } else {
        board_lookup_exec(&r.board_comments, sorting.sort_by.as_str())
    }
}

/// Sort the report rows by the configured key and direction, stably.
pub fn sort_reports(reports: Vec<UserReportData>, sorting: &SortingConfig) -> (r: Vec<
    UserReportData,
>)
    ensures
        r@ == sort_spec(reports@, *sorting),
        sorted_by(r@, *sorting),
{
    let ghost orig = reports@;
    let mut input = reports;
    let mut result: Vec<UserReportData> = Vec::new();
    let mut i: usize = 0;
    proof {
        vstd::std_specs::vec::axiom_spec_len(&input);
        assert(orig.subrange(0, 0) =~= Seq::<UserReportData>::empty());
        assert(input@ =~= orig.subrange(0, orig.len() as int));
    }
    while input.len() > 0
        invariant
            0 <= i <= orig.len(),
            orig.len() <= usize::MAX,
            input@ == orig.subrange(i as int, orig.len() as int),
            result@ == sort_spec(orig.subrange(0, i as int), *sorting),
            sorted_by(result@, *sorting),
        decreases input@.len(),
    {
        let ghost pre = result@;
        let x = input.remove(0);
        proof {
            assert(x == orig[i as int]);
            assert(orig.subrange(i as int, orig.len() as int).drop_first() =~= orig.subrange(
                i + 1,
                orig.len() as int,
            ));
            assert(orig.subrange(0, i + 1).drop_last() =~= orig.subrange(0, i as int));
            assert(orig.subrange(0, i + 1).last() == orig[i as int]);
        }
        let kx = get_key(&x, sorting);
        let descending = str_eq(sorting.order.as_str(), "desc");
        let mut p: usize = 0;
        let mut stop = false;
        while p < result.len() && !stop
            invariant
                0 <= p <= result@.len(),
                kx == sort_key(x, *sorting),
                descending == sort_descending(*sorting),
                !stop ==> forall|q: int| 0 <= q < p ==> !precedes(x, result@[q], *sorting),
                stop ==> p < result@.len() && precedes(x, result@[p as int], *sorting) && forall|
                    q: int,
                |
                    0 <= q < p ==> !precedes(x, result@[q], *sorting),
            decreases result@.len() - p + (if stop {
                0int
            } else {
                1int
            }),
        {
            let kp = get_key(&result[p], sorting);
            let goes_before = if descending {
                kx > kp
            } else {
                kx < kp
            };
            if goes_before {
                stop = true;
            } else {
                p = p + 1;
            }
        }
        proof {
            lemma_insert_shape(pre, x, *sorting);
            let ip = insert_pos(pre, x, *sorting);
            if p < ip {
                assert(precedes(x, pre[p as int], *sorting));
            }
            if ip < p {
                assert(!precedes(x, pre[ip], *sorting));
            }
            assert(p == ip);
            lemma_insert_sorted_sorted(pre, x, *sorting);
        }
        result.insert(p, x);
        i = i + 1;
    }
    proof {
        assert(orig.subrange(0, i as int) =~= orig);
    }
    result
}

/// The predicate selecting highlighted rows under a parsed condition.
pub open spec fn hl_pred(
    board: Seq<char>,
    op: CompareOp,
    num: int,
    den: int,
    isp: bool,
) -> spec_fn(UserReportData) -> bool {
    |r: UserReportData| highlights_by(r, board, op, num, den, isp)
}

/// The predicate selecting normal rows under a parsed condition.
pub open spec fn not_hl_pred(
    board: Seq<char>,
    op: CompareOp,
    num: int,
    den: int,
    isp: bool,
) -> spec_fn(UserReportData) -> bool {
    |r: UserReportData| !highlights_by(r, board, op, num, den, isp)
}

/// The partition of the sorted rows under an optional condition string: a
/// parseable condition splits the rows into (highlighted, normal), each in
/// input order; an absent or unusable condition leaves every row normal.
pub open spec fn partition_spec(s: Seq<UserReportData>, condition: Option<String>) -> (
    Seq<UserReportData>,
    Seq<UserReportData>,
) {
    match condition {
        None => (Seq::<UserReportData>::empty(), s),
        Some(cs) => match parse_condition_spec(cs@) {
            None => (Seq::<UserReportData>::empty(), s),
            Some(c) => (
                s.filter(hl_pred(c.0, c.1, c.2 as int, c.3 as int, c.4)),
                s.filter(not_hl_pred(c.0, c.1, c.2 as int, c.3 as int, c.4)),
            ),
        },
    }
}

/// A filter keeps only matching rows, all drawn from the input.
proof fn lemma_filter_membership(s: Seq<UserReportData>, pred: spec_fn(UserReportData) -> bool)
    ensures
        forall|r: UserReportData|
            #[trigger] s.filter(pred).contains(r) ==> s.contains(r) && pred(r),
    decreases s.len(),
{
    reveal_with_fuel(Seq::filter, 2);
    if s.len() > 0 {
        lemma_filter_membership(s.drop_last(), pred);
        assert forall|r: UserReportData| #[trigger] s.filter(pred).contains(r) implies s.contains(
            r,
        ) && pred(r) by {
            if s.drop_last().filter(pred).contains(r) {
                assert(s.drop_last().contains(r));
                let k = choose|k: int| 0 <= k < s.drop_last().len() && s.drop_last()[k] == r;
                assert(s[k] == r);
            } else {
                assert(r == s.last());
                assert(s[s.len() - 1] == r);
            }
        }
    }
}

/// Complementary predicates split a sequence's length exactly.
proof fn lemma_filter_complement(
    s: Seq<UserReportData>,
    p1: spec_fn(UserReportData) -> bool,
    p2: spec_fn(UserReportData) -> bool,
)
    requires
        forall|r: UserReportData| #[trigger] p2(r) == !p1(r),
    ensures
        s.filter(p1).len() + s.filter(p2).len() == s.len(),
    decreases s.len(),
{
    reveal_with_fuel(Seq::filter, 2);
    if s.len() > 0 {
        lemma_filter_complement(s.drop_last(), p1, p2);
        assert(p2(s.last()) == !p1(s.last()));
    }
}

/// Partitioning is exhaustive and disjoint: the two parts' lengths add up to
/// the input's, every row of either part is a row of the input, and no row
/// belongs to both parts.
pub proof fn lemma_partition_exhaustive_disjoint(
    s: Seq<UserReportData>,
    condition: Option<String>,
)
    ensures
        partition_spec(s, condition).0.len() + partition_spec(s, condition).1.len() == s.len(),
        forall|r: UserReportData|
            #[trigger] partition_spec(s, condition).0.contains(r) ==> s.contains(r),
        forall|r: UserReportData|
            #[trigger] partition_spec(s, condition).1.contains(r) ==> s.contains(r),
        forall|r: UserReportData|
            #[trigger] partition_spec(s, condition).0.contains(r) ==> !partition_spec(
                s,
                condition,
            ).1.contains(r),
{
    match condition {
        None => {},
        Some(cs) => match parse_condition_spec(cs@) {
            None => {},
            Some(c) => {
                let p1 = hl_pred(c.0, c.1, c.2 as int, c.3 as int, c.4);
                let p2 = not_hl_pred(c.0, c.1, c.2 as int, c.3 as int, c.4);
                assert(forall|r: UserReportData| #[trigger] p2(r) == !p1(r));
                lemma_filter_complement(s, p1, p2);
                lemma_filter_membership(s, p1);
                lemma_filter_membership(s, p2);
            },
        },
    }
}

/// Complementary predicates split a sequence's contents exactly.
proof fn lemma_filter_complement_multiset(
    s: Seq<UserReportData>,
    p1: spec_fn(UserReportData) -> bool,
    p2: spec_fn(UserReportData) -> bool,
)
    requires
        forall|r: UserReportData| #[trigger] p2(r) == !p1(r),
    ensures
        s.filter(p1).to_multiset().add(s.filter(p2).to_multiset()) == s.to_multiset(),
    decreases s.len(),
{
    broadcast use vstd::seq_lib::group_to_multiset_ensures;
    broadcast use vstd::multiset::group_multiset_axioms;

    reveal_with_fuel(Seq::filter, 2);
    if s.len() == 0 {
        assert(s.filter(p1).to_multiset().add(s.filter(p2).to_multiset())
            =~= s.to_multiset());
    } else {
        let prefix = s.drop_last();
        lemma_filter_complement_multiset(prefix, p1, p2);
        assert(prefix.push(s.last()) =~= s);
        assert(s.filter(p1).to_multiset().add(s.filter(p2).to_multiset())
            =~= s.to_multiset());
    }
}

/// The finished report holds exactly the input's rows: across the
/// highlighted and normal parts of the sorted, partitioned report, every
/// input row appears exactly as often as it was handed in — in particular,
/// with one row per commenter in, there is one row per commenter out.
pub proof fn lemma_report_rows_once(
    s: Seq<UserReportData>,
    sorting: SortingConfig,
    condition: Option<String>,
)
    ensures
        partition_spec(sort_spec(s, sorting), condition).0.to_multiset().add(
            partition_spec(sort_spec(s, sorting), condition).1.to_multiset(),
        ) == s.to_multiset(),
{
    broadcast use vstd::seq_lib::group_to_multiset_ensures;
    broadcast use vstd::multiset::group_multiset_axioms;

    lemma_sort_stable(s, sorting);
    let sorted = sort_spec(s, sorting);
    match condition {
        None => {
            assert(Seq::<UserReportData>::empty().to_multiset().add(sorted.to_multiset())
                =~= sorted.to_multiset());
        },
        Some(cs) => match parse_condition_spec(cs@) {
            None => {
                assert(Seq::<UserReportData>::empty().to_multiset().add(sorted.to_multiset())
                    =~= sorted.to_multiset());
            },
            Some(c) => {
                let p1 = hl_pred(c.0, c.1, c.2 as int, c.3 as int, c.4);
                let p2 = not_hl_pred(c.0, c.1, c.2 as int, c.3 as int, c.4);
                assert(forall|r: UserReportData| #[trigger] p2(r) == !p1(r));
                lemma_filter_complement_multiset(sorted, p1, p2);
            },
        },
    }
}

/// Split the sorted rows into (highlighted, normal) under an optional
/// condition string, keeping each part in input order.
pub fn partition_reports(reports: Vec<UserReportData>, condition: &Option<String>) -> (r: (
    Vec<UserReportData>,
    Vec<UserReportData>,
))
    ensures
        r.0@ == partition_spec(reports@, *condition).0,
        r.1@ == partition_spec(reports@, *condition).1,
{
    let cond: HighlightCondition = match condition {
        Some(cs) => match parse_condition(cs.as_str()) {
            Some(c) => c,
            None => {
                return (Vec::new(), reports);
            },
        },
        None => {
            return (Vec::new(), reports);
        },
    };
    let ghost c = (cond.board@, cond.op, cond.num as nat, cond.den as nat, cond.is_percentage);
    let ghost p1 = hl_pred(c.0, c.1, c.2 as int, c.3 as int, c.4);
    let ghost p2 = not_hl_pred(c.0, c.1, c.2 as int, c.3 as int, c.4);
    let ghost orig = reports@;
    let mut input = reports;
    let mut highlighted: Vec<UserReportData> = Vec::new();
    let mut normal: Vec<UserReportData> = Vec::new();
    let mut i: usize = 0;
    proof {
        vstd::std_specs::vec::axiom_spec_len(&input);
        reveal(Seq::filter);
        assert(orig.subrange(0, 0) =~= Seq::<UserReportData>::empty());
        assert(input@ =~= orig.subrange(0, orig.len() as int));
        assert(orig.subrange(0, 0).filter(p1) =~= Seq::<UserReportData>::empty());
        assert(orig.subrange(0, 0).filter(p2) =~= Seq::<UserReportData>::empty());
    }
    while input.len() > 0
        invariant
            0 <= i <= orig.len(),
            orig.len() <= usize::MAX,
            input@ == orig.subrange(i as int, orig.len() as int),
            cond.wf(),
            c == (cond.board@, cond.op, cond.num as nat, cond.den as nat, cond.is_percentage),
            p1 == hl_pred(c.0, c.1, c.2 as int, c.3 as int, c.4),
            p2 == not_hl_pred(c.0, c.1, c.2 as int, c.3 as int, c.4),
            highlighted@ == orig.subrange(0, i as int).filter(p1),
            normal@ == orig.subrange(0, i as int).filter(p2),
        decreases input@.len(),
    {
        let x = input.remove(0);
        proof {
            reveal(Seq::filter);
            assert(x == orig[i as int]);
            assert(orig.subrange(i as int, orig.len() as int).drop_first() =~= orig.subrange(
                i + 1,
                orig.len() as int,
            ));
            assert(orig.subrange(0, i + 1).drop_last() =~= orig.subrange(0, i as int));
            assert(orig.subrange(0, i + 1).last() == orig[i as int]);
        }
        if highlights_exec(&x, &cond) {
            highlighted.push(x);
        } else {
            normal.push(x);
        }
        i = i + 1;
    }
    proof {
        assert(orig.subrange(0, i as int) =~= orig);
    }
    (highlighted, normal)
}

/// The boards whose counts enrichment collects: the configured boards, with
/// the article's own board appended when absent.
pub fn extend_target_boards(boards: &Vec<String>, article_board: &String) -> (r: Vec<String>)
    ensures
        seq_has_string(boards@, article_board@) ==> r@ == boards@,
        !seq_has_string(boards@, article_board@) ==> r@ == boards@.push(*article_board),
{
    let mut r: Vec<String> = Vec::new();
    let mut i: usize = 0;
    while i < boards.len()
        invariant
            0 <= i <= boards@.len(),
            r@.len() == i,
            forall|k: int| 0 <= k < i ==> r@[k] == boards@[k],
        decreases boards@.len() - i,
    {
        r.push(boards[i].clone());
        i = i + 1;
    }
    proof {
        assert(r@ =~= boards@);
    }
    if !list_contains_str(boards, article_board.as_str()) {
        r.push(article_board.clone());
        proof {
            assert(r@ =~= boards@.push(*article_board));
        }
    }
    r
}

/// Assemble the final report: sort the rows by the configured key, partition
/// them under the metadata's highlight condition, and attach the metadata.
pub fn build_analysis_result(
    metadata: ReportMetadata,
    reports: Vec<UserReportData>,
    sorting: &SortingConfig,
) -> (r: AnalysisResult)
    ensures
        r.metadata == metadata,
        r.highlighted_data@ == partition_spec(
            sort_spec(reports@, *sorting),
            metadata.highlight_condition,
        ).0,
        r.normal_data@ == partition_spec(
            sort_spec(reports@, *sorting),
            metadata.highlight_condition,
        ).1,
{
    let sorted = sort_reports(reports, sorting);
    let (highlighted_data, normal_data) = partition_reports(sorted, &metadata.highlight_condition);
    AnalysisResult { metadata, highlighted_data, normal_data }
}

} // verus!

//! The highlight condition: a threshold expression `board,operator,value`
//! parsed from one string, and its exact evaluation against a report row.
//!
//! The threshold is an unsigned decimal numeral, held exactly as a numerator
//! over a power of ten, so that every comparison is exact integer arithmetic;
//! a trailing percent sign makes the comparison relative to the row's total.

use vstd::prelude::*;

use crate::report::{board_lookup, board_lookup_exec, UserReportData};
use crate::text::{
    all_digits, all_digits_exec, digits_to_u64, digits_val, drop_trailing_while, find_char,
    find_char_at, lemma_digits_val_bound, lemma_drop_trailing_while, lemma_pow10_monotone, pow10,
    pow10_u64, str_eq, trim, trim_spec,
};

verus! {

/// The five comparison operators a condition may use.
#[derive(Debug, Clone, Copy, PartialEq, Eq, Structural)]
pub enum CompareOp {
    Lt,
    Le,
    Gt,
    Ge,
    Eq,
}

/// A parsed highlight condition: the board whose count is examined, the
/// operator, the threshold as the exact rational `num / den` (`den` a power
/// of ten), and whether the comparison is against a percentage of the total.
#[derive(Debug, Clone)]
pub struct HighlightCondition {
    pub board: String,
    pub op: CompareOp,
    pub num: u64,
    pub den: u64,
    pub is_percentage: bool,
}

impl HighlightCondition {
    /// The bounds that parsing guarantees, under which evaluation cannot
    /// overflow.
    pub open spec fn wf(self) -> bool {
        1 <= self.den <= 100_000_000 && self.num < 1_000_000_000_000_000_000
    }
}

/// The condition string split at its two commas into three fields, when it
/// has exactly two commas.
pub open spec fn condition_parts(s: Seq<char>) -> Option<(Seq<char>, Seq<char>, Seq<char>)> {
    let p1 = find_char(s, ',', 0);
    if p1 == s.len() {
        None
    } else {
        let p2 = find_char(s, ',', p1 + 1);
        if p2 == s.len() {
            None
        } else if find_char(s, ',', p2 + 1) != s.len() {
            None
        } else {
            Some(
                (
                    s.subrange(0, p1),
                    s.subrange(p1 + 1, p2),
                    s.subrange(p2 + 1, s.len() as int),
                ),
            )
        }
    }
}

/// The operator a trimmed field names, if any.
pub open spec fn op_of(s: Seq<char>) -> Option<CompareOp> {
    if s == "<"@ {
        Some(CompareOp::Lt)
    } else if s == "<="@ {
        Some(CompareOp::Le)
    } else if s == ">"@ {
        Some(CompareOp::Gt)
    } else if s == ">="@ {
        Some(CompareOp::Ge)
    } else if s == "=="@ {
        Some(CompareOp::Eq)
    } else {
        None
    }
}

/// A trimmed value field with its trailing percent signs removed.
pub open spec fn strip_percent(s: Seq<char>) -> Seq<char> {
    drop_trailing_while(s, |c: char| c == '%')
}

/// The threshold grammar: an unsigned decimal numeral `digits[.digits]` with
/// an optional leading plus, at least one digit, at most ten integer digits
/// and eight fraction digits. The result is the exact rational
/// (numerator, power-of-ten denominator).
pub open spec fn parse_decimal_spec(s: Seq<char>) -> Option<(nat, nat)> {
    let t = if s.len() > 0 && s[0] == '+' {
        s.drop_first()
    } else {
        s
    };
    let dot = find_char(t, '.', 0);
    let ipart = t.subrange(0, dot);
    let fpart = if dot == t.len() {
        Seq::<char>::empty()
    } else {
        t.subrange(dot + 1, t.len() as int)
    };
    if ipart.len() + fpart.len() >= 1 && ipart.len() <= 10 && fpart.len() <= 8 && all_digits(ipart)
        && all_digits(fpart) {
        Some(
            (
                digits_val(ipart) * pow10(fpart.len() as nat) + digits_val(fpart),
                pow10(fpart.len() as nat),
            ),
        )
    } else {
        None
    }
}

/// The whole condition grammar: three comma-separated fields, each trimmed;
/// the second an operator, the third a threshold numeral, made percentage by
/// trailing percent signs. Anything else yields nothing, and partitioning
/// falls back to leaving every row normal.
pub open spec fn parse_condition_spec(s: Seq<char>) -> Option<
    (Seq<char>, CompareOp, nat, nat, bool),
> {
    match condition_parts(s) {
        Some(parts) => {
            let board = trim_spec(parts.0);
            match op_of(trim_spec(parts.1)) {
                Some(op) => {
                    let v = trim_spec(parts.2);
                    let core = strip_percent(v);
                    let isp = core.len() < v.len();
                    match parse_decimal_spec(core) {
                        Some(nd) => Some((board, op, nd.0, nd.1, isp)),
                        None => None,
                    }
                },
                None => None,
            }
        },
        None => None,
    }
}

/// Exact comparison of the rational `a / b` against `c / d` (`b`, `d`
/// positive): the equality test allows a one-billionth tolerance.
pub open spec fn cmp_rational(op: CompareOp, a: int, b: int, c: int, d: int) -> bool {
    match op {
        CompareOp::Lt => a * d < c * b,
        CompareOp::Le => a * d <= c * b,
        CompareOp::Gt => a * d > c * b,
        CompareOp::Ge => a * d >= c * b,
        CompareOp::Eq => (if a * d >= c * b {
            a * d - c * b
        } else {
            c * b - a * d
        }) * 1_000_000_000 < b * d,
    }
}

/// Whether a row is highlighted, over plain values: the examined value is
/// the row's count on the board, as a percentage of the row's total when the
/// condition is a percentage and the total is positive.
pub open spec fn highlights_by(
    r: UserReportData,
    board: Seq<char>,
    op: CompareOp,
    num: int,
    den: int,
    is_percentage: bool,
) -> bool {
    let candidate = board_lookup(r.board_comments@, board) as int;
    if is_percentage && r.total_comments > 0 {
        cmp_rational(op, candidate * 100, r.total_comments as int, num, den)
    } else {
        cmp_rational(op, candidate, 1, num, den)
    }
}

/// Whether a row is highlighted under a parsed condition.
pub open spec fn highlights(r: UserReportData, cond: HighlightCondition) -> bool {
    highlights_by(r, cond.board@, cond.op, cond.num as int, cond.den as int, cond.is_percentage)
}

/// Decide one row, exactly as `highlights` states.
pub fn highlights_exec(r: &UserReportData, cond: &HighlightCondition) -> (b: bool)
    requires
        cond.wf(),
    ensures
        b == highlights(*r, *cond),
{
    let candidate = board_lookup_exec(&r.board_comments, cond.board.as_str());
    let a: u128;
    let bden: u128;
    if cond.is_percentage && r.total_comments > 0 {
        a = candidate as u128 * 100;
        bden = r.total_comments as u128;
    } else {
        a = candidate as u128;
        bden = 1;
    }
    let c = cond.num as u128;
    let d = cond.den as u128;
    proof {
        assert(a <= 429_496_729_500);
        assert(bden <= 4_294_967_295);
        assert(c < 1_000_000_000_000_000_000);
        assert(d <= 100_000_000);
        assert(a * d <= 42_949_672_950_000_000_000) by (nonlinear_arith)
            requires
                0 <= a <= 429_496_729_500u128,
                0 <= d <= 100_000_000u128,
        ;
        assert(c * bden <= 4_294_967_295_000_000_000_000_000_000) by (nonlinear_arith)
            requires
                0 <= c <= 1_000_000_000_000_000_000u128,
                0 <= bden <= 4_294_967_295u128,
        ;
        assert(bden * d <= 429_496_729_500_000_000) by (nonlinear_arith)
            requires
                0 <= bden <= 4_294_967_295u128,
                0 <= d <= 100_000_000u128,
        ;
    }
    let ad = a * d;
    let cb = c * bden;
    match cond.op {
        CompareOp::Lt => ad < cb,
        CompareOp::Le => ad <= cb,
        CompareOp::Gt => ad > cb,
        CompareOp::Ge => ad >= cb,
        CompareOp::Eq => {
            let diff = if ad >= cb {
                ad - cb
            } else {
                cb - ad
            };
            diff * 1_000_000_000 < bden * d
        },
    }
}

/// Parse one threshold numeral.
fn parse_decimal(s: &str) -> (r: Option<(u64, u64)>)
    ensures
        r is Some <==> parse_decimal_spec(s@) is Some,
        r matches Some(p) ==> parse_decimal_spec(s@) == Some((p.0 as nat, p.1 as nat)) && p.0
            < 1_000_000_000_000_000_000 && 1 <= p.1 <= 100_000_000,
{
    let n = s.unicode_len();
    let has_plus = n > 0 && s.get_char(0) == '+';
    let t: &str = if has_plus {
        s.substring_char(1, n)
    } else {
        s
    };
    proof {
        if s@.len() > 0 && s@[0] == '+' {
            assert(t@ =~= s@.drop_first());
        }
    }
    let m = t.unicode_len();
    let dot = find_char_at(t, '.', 0);
    let ipart = t.substring_char(0, dot);
    let fpart: &str = if dot == m {
        t.substring_char(m, m)
    } else {
        t.substring_char(dot + 1, m)
    };
    proof {
        if find_char(t@, '.', 0) == t@.len() {
            assert(fpart@ =~= Seq::<char>::empty());
        }
    }
    let ilen = ipart.unicode_len();
    let flen = fpart.unicode_len();
    if ilen == 0 && flen == 0 {
        return None;
    }
    if ilen > 10 || flen > 8 {
        return None;
    }
    if !all_digits_exec(ipart) {
        return None;
    }
    if !all_digits_exec(fpart) {
        return None;
    }
    let iv = digits_to_u64(ipart);
    let fv = digits_to_u64(fpart);
    let den = pow10_u64(flen);
    proof {
        lemma_digits_val_bound(ipart@);
        lemma_pow10_monotone(ipart@.len() as nat, 10);
        lemma_digits_val_bound(fpart@);
        lemma_pow10_monotone(fpart@.len() as nat, 8);
        reveal_with_fuel(pow10, 12);
        assert(iv <= 9_999_999_999);
        assert(den <= 100_000_000);
        assert(iv * den <= 999_999_999_900_000_000) by (nonlinear_arith)
            requires
                0 <= iv <= 9_999_999_999u64,
                0 <= den <= 100_000_000u64,
        ;
        assert(fv < den);
    }
    let num = iv * den + fv;
    Some((num, den))
}

/// The operator a field names, if any.
fn parse_op(s: &str) -> (r: Option<CompareOp>)
    ensures
        r == op_of(s@),
{
    if str_eq(s, "<") {
        Some(CompareOp::Lt)
    } else if str_eq(s, "<=") {
        Some(CompareOp::Le)
    } else if str_eq(s, ">") {
        Some(CompareOp::Gt)
    } else if str_eq(s, ">=") {
        Some(CompareOp::Ge)
    } else if str_eq(s, "==") {
        Some(CompareOp::Eq)
    } else {
        None
    }
}

/// Parse one condition string, exactly as `parse_condition_spec` states.
pub fn parse_condition(s: &str) -> (r: Option<HighlightCondition>)
    ensures
        r is Some <==> parse_condition_spec(s@) is Some,
        r matches Some(c) ==> parse_condition_spec(s@) == Some(
            (c.board@, c.op, c.num as nat, c.den as nat, c.is_percentage),
        ) && c.wf(),
{
    let n = s.unicode_len();
    let p1 = find_char_at(s, ',', 0);
    if p1 == n {
        return None;
    }
    let p2 = find_char_at(s, ',', p1 + 1);
    if p2 == n {
        return None;
    }
    let p3 = find_char_at(s, ',', p2 + 1);
    if p3 != n {
        return None;
    }
    let board = trim(s.substring_char(0, p1));
    let op_field = trim(s.substring_char(p1 + 1, p2));
    let op = match parse_op(op_field.as_str()) {
        Some(op) => op,
        None => {
            return None;
        },
    };
    let value_field = trim(s.substring_char(p2 + 1, n));
    let vlen = value_field.as_str().unicode_len();
    let mut e: usize = vlen;
    while e > 0 && value_field.as_str().get_char(e - 1) == '%'
        invariant
            0 <= e <= vlen,
            vlen == value_field@.len(),
            forall|k: int| e <= k < vlen ==> value_field@[k] == '%',
        decreases e,
    {
        e = e - 1;
    }
    proof {
        lemma_drop_trailing_while(value_field@, |c: char| c == '%', e as int);
    }
    let core = value_field.as_str().substring_char(0, e);
    let is_percentage = e < vlen;
    match parse_decimal(core) {
        Some(nd) => Some(
            HighlightCondition { board, op, num: nd.0, den: nd.1, is_percentage },
        ),
        None => None,
    }
}

} // verus!

//! Verified text utilities: character classes, trimming, substring search,
//! character search, string equality, and unsigned decimal parsing.

use vstd::prelude::*;

verus! {

/// The Unicode `White_Space` characters, the class that trimming removes.
pub open spec fn is_space_char(c: char) -> bool {
    let n = c as u32;
    n == 0x09 || n == 0x0A || n == 0x0B || n == 0x0C || n == 0x0D || n == 0x20 || n == 0x85
        || n == 0xA0 || n == 0x1680 || (0x2000 <= n && n <= 0x200A) || n == 0x2028 || n == 0x2029
        || n == 0x202F || n == 0x205F || n == 0x3000
}

/// Whitespace test on one character.
pub fn is_space(c: char) -> (r: bool)
    ensures
        r == is_space_char(c),
{
    let n = c as u32;
    n == 0x09 || n == 0x0A || n == 0x0B || n == 0x0C || n == 0x0D || n == 0x20 || n == 0x85
        || n == 0xA0 || n == 0x1680 || (0x2000 <= n && n <= 0x200A) || n == 0x2028 || n == 0x2029
        || n == 0x202F || n == 0x205F || n == 0x3000
}

/// The longest suffix of `s` whose first character (if any) fails `pred`.
pub open spec fn drop_leading_while(s: Seq<char>, pred: spec_fn(char) -> bool) -> Seq<char>
    decreases s.len(),
{
    if s.len() > 0 && pred(s[0]) {
        drop_leading_while(s.drop_first(), pred)
    } else {
        s
    }
}

/// The longest prefix of `s` whose last character (if any) fails `pred`.
pub open spec fn drop_trailing_while(s: Seq<char>, pred: spec_fn(char) -> bool) -> Seq<char>
    decreases s.len(),
{
    if s.len() > 0 && pred(s.last()) {
        drop_trailing_while(s.drop_last(), pred)
    } else {
        s
    }
}

/// `s` with leading and trailing whitespace removed.
pub open spec fn trim_spec(s: Seq<char>) -> Seq<char> {
    drop_trailing_while(drop_leading_while(s, |c: char| is_space_char(c)), |c: char| is_space_char(c))
}

/// Dropping leading characters matching `pred` keeps exactly the suffix that
/// starts at the first index failing `pred`.
pub proof fn lemma_drop_leading_while(s: Seq<char>, pred: spec_fn(char) -> bool, i: int)
    requires
        0 <= i <= s.len(),
        forall|k: int| 0 <= k < i ==> pred(s[k]),
        i < s.len() ==> !pred(s[i]),
    ensures
        drop_leading_while(s, pred) == s.subrange(i, s.len() as int),
    decreases i,
{
    if i == 0 {
        if s.len() > 0 && pred(s[0]) {
            assert(!pred(s[0]));
        }
        assert(s.subrange(0, s.len() as int) =~= s);
    } else {
        assert(pred(s[0]));
        let t = s.drop_first();
        lemma_drop_leading_while(t, pred, i - 1);
        assert(t.subrange(i - 1, t.len() as int) =~= s.subrange(i, s.len() as int));
    }
}

/// Dropping trailing characters matching `pred` keeps exactly the prefix that
/// ends just after the last index failing `pred`.
pub proof fn lemma_drop_trailing_while(s: Seq<char>, pred: spec_fn(char) -> bool, j: int)
    requires
        0 <= j <= s.len(),
        forall|k: int| j <= k < s.len() ==> pred(s[k]),
        j > 0 ==> !pred(s[j - 1]),
    ensures
        drop_trailing_while(s, pred) == s.subrange(0, j),
    decreases s.len(),
{
    if j == s.len() {
        if s.len() > 0 && pred(s.last()) {
            assert(!pred(s[j - 1]));
        }
        assert(s.subrange(0, j) =~= s);
    } else {
        assert(pred(s.last()));
        let t = s.drop_last();
        lemma_drop_trailing_while(t, pred, j);
        assert(t.subrange(0, j) =~= s.subrange(0, j));
    }
}

/// Trim leading and trailing whitespace from a string.
pub fn trim(s: &str) -> (r: String)
    ensures
        r@ == trim_spec(s@),
{
    let ghost pred = |c: char| is_space_char(c);
    let n = s.unicode_len();
    let mut i: usize = 0;
    while i < n && is_space(s.get_char(i))
        invariant
            0 <= i <= n,
            n == s@.len(),
            forall|k: int| 0 <= k < i ==> is_space_char(s@[k]),
        decreases n - i,
    {
        i = i + 1;
    }
    if i == n {
        proof {
            lemma_drop_leading_while(s@, pred, n as int);
            lemma_drop_trailing_while(s@.subrange(n as int, n as int), pred, 0);
            assert(trim_spec(s@) =~= Seq::<char>::empty());
        }
        return String::new();
    }
    let mut j: usize = n;
    while j > i && is_space(s.get_char(j - 1))
        invariant
            i <= j <= n,
            n == s@.len(),
            i < n,
            forall|k: int| j <= k < n ==> is_space_char(s@[k]),
        decreases j,
    {
        j = j - 1;
    }
    proof {
        lemma_drop_leading_while(s@, pred, i as int);
        let t = s@.subrange(i as int, n as int);
        if j == i {
            assert(!is_space_char(s@[i as int]));
            assert(!pred(t[0]));
            lemma_drop_trailing_while(t, pred, 0);
        } else {
            assert(!is_space_char(s@[j - 1]));
            assert(t[j - i - 1] == s@[j - 1]);
            assert(forall|k: int| j - i <= k < t.len() ==> pred(t[k]));
            lemma_drop_trailing_while(t, pred, j - i);
        }
        assert(t.subrange(0, j - i) =~= s@.subrange(i as int, j as int));
    }
    let piece = s.substring_char(i, j);
    piece.to_owned()
}

/// Characters stripped from the front of a comment's content: colons and
/// whitespace.
pub open spec fn colon_or_space(c: char) -> bool {
    c == ':' || is_space_char(c)
}

/// A comment's content with its leading run of colons and whitespace removed.
pub open spec fn clean_content_spec(s: Seq<char>) -> Seq<char> {
    drop_leading_while(s, |c: char| colon_or_space(c))
}

/// Colon-or-whitespace test on one character.
pub fn is_colon_or_space(c: char) -> (r: bool)
    ensures
        r == colon_or_space(c),
{
    c == ':' || is_space(c)
}

/// Strip the leading run of colons and whitespace from a comment's content.
pub fn clean_content(s: &str) -> (r: String)
    ensures
        r@ == clean_content_spec(s@),
{
    let ghost pred = |c: char| colon_or_space(c);
    let n = s.unicode_len();
    let mut i: usize = 0;
    while i < n && is_colon_or_space(s.get_char(i))
        invariant
            0 <= i <= n,
            n == s@.len(),
            forall|k: int| 0 <= k < i ==> colon_or_space(s@[k]),
        decreases n - i,
    {
        i = i + 1;
    }
    proof {
        lemma_drop_leading_while(s@, pred, i as int);
    }
    let piece = s.substring_char(i, n);
    piece.to_owned()
}

/// Whether character `c` occurs in `s`.
pub open spec fn has_char(s: Seq<char>, c: char) -> bool {
    exists|i: int| 0 <= i < s.len() && s[i] == c
}

/// Search for one character.
pub fn contains_char(s: &str, c: char) -> (r: bool)
    ensures
        r == has_char(s@, c),
{
    let n = s.unicode_len();
    let mut i: usize = 0;
    while i < n
        invariant
            0 <= i <= n,
            n == s@.len(),
            forall|k: int| 0 <= k < i ==> s@[k] != c,
        decreases n - i,
    {
        if s.get_char(i) == c {
            return true;
        }
        i = i + 1;
    }
    false
}

/// Whether `needle` occurs in `hay` as a contiguous run of characters.
pub open spec fn is_substring(hay: Seq<char>, needle: Seq<char>) -> bool {
    exists|i: int|
        0 <= i && i + needle.len() <= hay.len() && #[trigger] hay.subrange(
            i,
            i + needle.len() as int,
        ) == needle
}

/// Exact, case-sensitive substring search.
pub fn contains_substr(hay: &str, needle: &str) -> (r: bool)
    ensures
        r == is_substring(hay@, needle@),
{
    let n = hay.unicode_len();
    let m = needle.unicode_len();
    if m > n {
        assert(!is_substring(hay@, needle@));
        return false;
    }
    if m == 0 {
        proof {
            assert(hay@.subrange(0, 0 + needle@.len() as int) =~= needle@);
            assert(is_substring(hay@, needle@));
        }
        return true;
    }
    let mut i: usize = 0;
    while i <= n - m
        invariant
            0 <= i <= n - m + 1,
            m <= n,
            n == hay@.len(),
            m == needle@.len(),
            1 <= m,
            forall|p: int|
                0 <= p < i ==> #[trigger] hay@.subrange(p, p + needle@.len() as int) != needle@,
        decreases n - i,
    {
        let piece = hay.substring_char(i, i + m);
        if str_eq(piece, needle) {
            return true;
        }
        i = i + 1;
    }
    assert forall|p: int| 0 <= p && p + needle@.len() <= hay@.len() implies #[trigger] hay@.subrange(
        p,
        p + needle@.len() as int,
    ) != needle@ by {
        assert(p < i);
    }
    false
}

/// Character-for-character string equality.
pub fn str_eq(a: &str, b: &str) -> (r: bool)
    ensures
        r == (a@ == b@),
{
    let n = a.unicode_len();
    let m = b.unicode_len();
    if n != m {
        return false;
    }
    let mut i: usize = 0;
    while i < n
        invariant
            0 <= i <= n,
            n == a@.len(),
            n == b@.len(),
            forall|k: int| 0 <= k < i ==> a@[k] == b@[k],
        decreases n - i,
    {
        if a.get_char(i) != b.get_char(i) {
            return false;
        }
        i = i + 1;
    }
    proof {
        assert(a@ =~= b@);
    }
    true
}

/// Whether a string-valued entry of `list` equals `s`.
pub open spec fn seq_has_string(list: Seq<String>, s: Seq<char>) -> bool {
    exists|i: int| 0 <= i < list.len() && list[i]@ == s
}

/// Membership of a string in a list of strings.
pub fn list_contains_str(list: &Vec<String>, s: &str) -> (r: bool)
    ensures
        r == seq_has_string(list@, s@),
{
    let mut i: usize = 0;
    while i < list.len()
        invariant
            0 <= i <= list@.len(),
            forall|k: int| 0 <= k < i ==> list@[k]@ != s@,
        decreases list@.len() - i,
    {
        if str_eq(list[i].as_str(), s) {
            return true;
        }
        i = i + 1;
    }
    false
}

/// ASCII decimal digits.
pub open spec fn is_ascii_digit_char(c: char) -> bool {
    0x30 <= c as u32 && c as u32 <= 0x39
}

/// The numeric value of one ASCII digit.
pub open spec fn digit_val(c: char) -> nat {
    (c as u32 - 0x30) as nat
}

/// Every character of `s` is an ASCII decimal digit.
pub open spec fn all_digits(s: Seq<char>) -> bool {
    forall|i: int| 0 <= i < s.len() ==> is_ascii_digit_char(s[i])
}

/// The value of a run of ASCII digits read as a base-ten numeral.
pub open spec fn digits_val(s: Seq<char>) -> nat
    decreases s.len(),
{
    if s.len() == 0 {
        0
    } else {
        digits_val(s.drop_last()) * 10 + digit_val(s.last())
    }
}

/// A numeral's value never shrinks as more digits are appended.
pub proof fn lemma_digits_val_prefix(s: Seq<char>, k: int)
    requires
        0 <= k <= s.len(),
    ensures
        digits_val(s) >= digits_val(s.subrange(0, k)),
    decreases s.len(),
{
    if k < s.len() {
        let t = s.drop_last();
        lemma_digits_val_prefix(t, k);
        assert(t.subrange(0, k) =~= s.subrange(0, k));
        assert(digits_val(s) >= digits_val(t));
    } else {
        assert(s.subrange(0, k) =~= s);
    }
}

/// A numeral of `n` digits is below ten to the `n`.
pub proof fn lemma_digits_val_bound(s: Seq<char>)
    requires
        all_digits(s),
    ensures
        digits_val(s) < pow10(s.len() as nat),
    decreases s.len(),
{
    if s.len() > 0 {
        lemma_digits_val_bound(s.drop_last());
        assert(is_ascii_digit_char(s.last()));
        assert(digit_val(s.last()) <= 9);
    }
}

/// Ten to the `n`.
pub open spec fn pow10(n: nat) -> nat
    decreases n,
{
    if n == 0 {
        1
    } else {
        10 * pow10((n - 1) as nat)
    }
}

/// Ten to the `n` for small `n`, as a machine integer.
pub fn pow10_u64(n: usize) -> (r: u64)
    requires
        n <= 9,
    ensures
        r == pow10(n as nat),
        r >= 1,
{
    let mut r: u64 = 1;
    let mut i: usize = 0;
    while i < n
        invariant
            0 <= i <= n,
            n <= 9,
            r == pow10(i as nat),
            r <= 1_000_000_000,
        decreases n - i,
    {
        proof {
            reveal_with_fuel(pow10, 10);
            lemma_pow10_monotone(i as nat, 8);
        }
        r = r * 10;
        i = i + 1;
    }
    proof {
        lemma_pow10_monotone(0, n as nat);
    }
    r
}

/// Powers of ten grow with the exponent.
pub proof fn lemma_pow10_monotone(a: nat, b: nat)
    requires
        a <= b,
    ensures
        pow10(a) <= pow10(b),
    decreases b,
{
    if a < b {
        lemma_pow10_monotone(a, (b - 1) as nat);
        assert(pow10(b) == 10 * pow10((b - 1) as nat));
    }
}

/// The numeral value of a string of the shape `[+]digit+`, when the value
/// fits in 32 bits: the grammar that per-board and total comment counts use.
pub open spec fn parse_u32_spec(s: Seq<char>) -> Option<u32> {
    let digits = if s.len() > 0 && s[0] == '+' {
        s.drop_first()
    } else {
        s
    };
    if digits.len() > 0 && all_digits(digits) && digits_val(digits) <= u32::MAX {
        Some(digits_val(digits) as u32)
    } else {
        None
    }
}

/// Parse a non-negative 32-bit integer, accepting an optional leading `+`.
pub fn parse_u32(s: &str) -> (r: Option<u32>)
    ensures
        r == parse_u32_spec(s@),
{
    let n = s.unicode_len();
    let start: usize = if n > 0 && s.get_char(0) == '+' {
        1
    } else {
        0
    };
    let ghost digits = if s@.len() > 0 && s@[0] == '+' {
        s@.drop_first()
    } else {
        s@
    };
    assert(digits.len() == n - start);
    assert(forall|k: int| 0 <= k < digits.len() ==> digits[k] == s@[k + start]);
    if start == n {
        return None;
    }
    let mut acc: u32 = 0;
    let mut i: usize = start;
    while i < n
        invariant
            start <= i <= n,
            n == s@.len(),
            start < n,
            digits == (if s@.len() > 0 && s@[0] == '+' {
                s@.drop_first()
            } else {
                s@
            }),
            digits.len() == n - start,
            forall|k: int| 0 <= k < digits.len() ==> digits[k] == s@[k + start],
            all_digits(digits.subrange(0, i - start)),
            acc == digits_val(digits.subrange(0, i - start)),
        decreases n - i,
    {
        let c = s.get_char(i);
        let code = c as u32;
        if code < 0x30 || code > 0x39 {
            proof {
                assert(digits[i - start] == s@[i as int]);
                assert(!is_ascii_digit_char(digits[i - start]));
                assert(!all_digits(digits));
            }
            return None;
        }
        let d = code - 0x30;
        let wide = acc as u64 * 10 + d as u64;
        proof {
            assert(digits.subrange(0, i - start + 1) =~= digits.subrange(0, i - start).push(
                digits[i - start],
            ));
            assert(digits.subrange(0, i - start + 1).drop_last() =~= digits.subrange(
                0,
                i - start,
            ));
        }
        if wide > u32::MAX as u64 {
            proof {
                let ext = digits.subrange(0, i - start + 1);
                assert(ext.last() == digits[i - start]);
                assert(digits[i - start] == s@[i as int]);
                assert(digits_val(ext) == digits_val(ext.drop_last()) * 10 + digit_val(ext.last()));
                assert(digits_val(ext) == wide);
                lemma_digits_val_prefix(digits, i - start + 1);
                assert(digits_val(digits) > u32::MAX);
            }
            return None;
        }
        acc = wide as u32;
        i = i + 1;
    }
    proof {
        assert(digits.subrange(0, digits.len() as int) =~= digits);
    }
    Some(acc)
}

/// Test every character for being an ASCII decimal digit.
pub fn all_digits_exec(s: &str) -> (r: bool)
    ensures
        r == all_digits(s@),
{
    let n = s.unicode_len();
    let mut i: usize = 0;
    while i < n
        invariant
            0 <= i <= n,
            n == s@.len(),
            forall|k: int| 0 <= k < i ==> is_ascii_digit_char(s@[k]),
        decreases n - i,
    {
        let code = s.get_char(i) as u32;
        if code < 0x30 || code > 0x39 {
            assert(!is_ascii_digit_char(s@[i as int]));
            return false;
        }
        i = i + 1;
    }
    true
}

/// Read a run of at most ten ASCII digits as a 64-bit numeral.
pub fn digits_to_u64(s: &str) -> (r: u64)
    requires
        all_digits(s@),
        s@.len() <= 10,
    ensures
        r == digits_val(s@),
{
    let n = s.unicode_len();
    let mut acc: u64 = 0;
    let mut i: usize = 0;
    while i < n
        invariant
            0 <= i <= n,
            n == s@.len(),
            n <= 10,
            all_digits(s@),
            acc == digits_val(s@.subrange(0, i as int)),
            acc < pow10(i as nat),
        decreases n - i,
    {
        let c = s.get_char(i);
        proof {
            assert(is_ascii_digit_char(s@[i as int]));
            lemma_pow10_monotone(i as nat, 9);
            reveal_with_fuel(pow10, 11);
            assert(s@.subrange(0, i + 1).drop_last() =~= s@.subrange(0, i as int));
            assert(s@.subrange(0, i + 1).last() == s@[i as int]);
        }
        let d = (c as u32 - 0x30) as u64;
        acc = acc * 10 + d;
        i = i + 1;
        proof {
            lemma_digits_val_bound(s@.subrange(0, i as int));
            assert(s@.subrange(0, i as int).len() == i as int);
        }
    }
    proof {
        assert(s@.subrange(0, n as int) =~= s@);
    }
    acc
}

/// The least index at or after `from` where `c` occurs, or the length of `s`
/// when it does not.
pub open spec fn find_char(s: Seq<char>, c: char, from: int) -> int
    decreases s.len() - from,
{
    if from < 0 || from >= s.len() {
        s.len() as int
    } else if s[from] == c {
        from
    } else {
        find_char(s, c, from + 1)
    }
}

/// Scan for the first occurrence of `c` at or after `from`.
pub fn find_char_at(s: &str, c: char, from: usize) -> (r: usize)
    requires
        from <= s@.len(),
    ensures
        r == find_char(s@, c, from as int),
        from <= r <= s@.len(),
        r < s@.len() ==> s@[r as int] == c,
        forall|k: int| from <= k < r ==> s@[k] != c,
{
    let n = s.unicode_len();
    let mut i: usize = from;
    while i < n
        invariant
            from <= i <= n,
            n == s@.len(),
            find_char(s@, c, from as int) == find_char(s@, c, i as int),
            forall|k: int| from <= k < i ==> s@[k] != c,
        decreases n - i,
    {
        if s.get_char(i) == c {
            return i;
        }
        i = i + 1;
    }
    n
}

} // verus!

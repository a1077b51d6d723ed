//! Character and string utilities: whitespace trimming, lowercasing behind a
//! trusted wrapper, substring search, integer parsing and lexicographic
//! ordering, all specified over `Seq<char>` views.

use vstd::prelude::*;
use vstd::string::*;

verus! {

/// The characters with the Unicode `White_Space` property, the set that
/// `char::is_whitespace` recognises.
pub open spec fn is_space_char(c: char) -> bool {
    c == ' ' || c == '\t' || c == '\n' || c == '\u{000B}' || c == '\u{000C}' || c == '\r'
        || c == '\u{0085}' || c == '\u{00A0}' || c == '\u{1680}'
        || ('\u{2000}' <= c && c <= '\u{200A}')
        || c == '\u{2028}' || c == '\u{2029}' || c == '\u{202F}' || c == '\u{205F}'
        || c == '\u{3000}'
}

/// Whether `c` counts as whitespace for trimming.
pub fn is_space(c: char) -> (r: bool)
    ensures
        r == is_space_char(c),
{
    c == ' ' || c == '\t' || c == '\n' || c == '\u{000B}' || c == '\u{000C}' || c == '\r'
        || c == '\u{0085}' || c == '\u{00A0}' || c == '\u{1680}'
        || ('\u{2000}' <= c && c <= '\u{200A}')
        || c == '\u{2028}' || c == '\u{2029}' || c == '\u{202F}' || c == '\u{205F}'
        || c == '\u{3000}'
}

/// Index of the first non-whitespace character, or the length if all
/// characters are whitespace.
pub open spec fn trim_lo(s: Seq<char>) -> int
    decreases s.len(),
{
    if s.len() == 0 {
        0
    } else if is_space_char(s[0]) {
        1 + trim_lo(s.drop_first())
    } else {
        0
    }
}

/// One past the last non-whitespace character, or 0 if all characters are
/// whitespace.
pub open spec fn trim_hi(s: Seq<char>) -> int
    decreases s.len(),
{
    if s.len() == 0 {
        0
    } else if is_space_char(s.last()) {
        trim_hi(s.drop_last())
    } else {
        s.len() as int
    }
}

/// `s` with leading and trailing whitespace removed, as `str::trim` does.
pub open spec fn trim_spec(s: Seq<char>) -> Seq<char> {
    if trim_lo(s) <= trim_hi(s) {
        s.subrange(trim_lo(s), trim_hi(s))
    } else {
        Seq::empty()
    }
}

proof fn lemma_trim_lo_bounds(s: Seq<char>)
    ensures
        0 <= trim_lo(s) <= s.len(),
        forall|k: int| 0 <= k < trim_lo(s) ==> is_space_char(s[k]),
        trim_lo(s) < s.len() ==> !is_space_char(s[trim_lo(s)]),
    decreases s.len(),
{
    if s.len() > 0 && is_space_char(s[0]) {
        lemma_trim_lo_bounds(s.drop_first());
        assert forall|k: int| 0 <= k < trim_lo(s) implies is_space_char(s[k]) by {
            if k > 0 {
                assert(s[k] == s.drop_first()[k - 1]);
            }
        }
    }
}

proof fn lemma_trim_hi_bounds(s: Seq<char>)
    ensures
        0 <= trim_hi(s) <= s.len(),
        forall|k: int| trim_hi(s) <= k < s.len() ==> is_space_char(s[k]),
        trim_hi(s) > 0 ==> !is_space_char(s[trim_hi(s) - 1]),
    decreases s.len(),
{
    if s.len() > 0 && is_space_char(s.last()) {
        lemma_trim_hi_bounds(s.drop_last());
        assert forall|k: int| trim_hi(s) <= k < s.len() implies is_space_char(s[k]) by {
            if k < s.len() - 1 {
                assert(s[k] == s.drop_last()[k]);
            }
        }
    }
}

/// `trim_lo` is determined by any index that has only whitespace before it
/// and a non-whitespace character (or the end) at it.
proof fn lemma_trim_lo_unique(s: Seq<char>, i: int)
    requires
        0 <= i <= s.len(),
        forall|k: int| 0 <= k < i ==> is_space_char(s[k]),
        i < s.len() ==> !is_space_char(s[i]),
    ensures
        trim_lo(s) == i,
{
    lemma_trim_lo_bounds(s);
}

proof fn lemma_trim_hi_unique(s: Seq<char>, j: int)
    requires
        0 <= j <= s.len(),
        forall|k: int| j <= k < s.len() ==> is_space_char(s[k]),
        j > 0 ==> !is_space_char(s[j - 1]),
    ensures
        trim_hi(s) == j,
{
    lemma_trim_hi_bounds(s);
}

/// `str::trim`: the input without leading and trailing whitespace.
pub fn trim(s: &str) -> (r: &str)
    ensures
        r@ == trim_spec(s@),
{
    let n = s.unicode_len();
    let mut lo: usize = 0;
    while lo < n && is_space(s.get_char(lo))
        invariant
            0 <= lo <= n,
            n == s@.len(),
            forall|k: int| 0 <= k < lo ==> is_space_char(s@[k]),
        decreases n - lo,
    {
        lo = lo + 1;
    }
    proof {
        lemma_trim_lo_unique(s@, lo as int);
    }
    let mut hi: usize = n;
    while hi > lo && is_space(s.get_char(hi - 1))
        invariant
            lo <= hi <= n,
            n == s@.len(),
            forall|k: int| hi <= k < n ==> is_space_char(s@[k]),
        decreases hi,
    {
        hi = hi - 1;
    }
    if hi == lo {
        proof {
            lemma_trim_lo_bounds(s@);
            lemma_trim_hi_bounds(s@);
            if trim_lo(s@) < trim_hi(s@) {
                assert(trim_lo(s@) < s@.len());
                assert(!is_space_char(s@[trim_lo(s@)]));
                if trim_lo(s@) < lo as int {
                    assert(is_space_char(s@[trim_lo(s@)]));
                } else {
                    assert(is_space_char(s@[trim_lo(s@)]));
                }
                assert(false);
            }
            assert(trim_spec(s@) =~= Seq::<char>::empty());
        }
        let r = s.substring_char(0, 0);
        proof {
            assert(r@ =~= trim_spec(s@));
        }
        r
    } else {
        proof {
            lemma_trim_lo_unique(s@, lo as int);
            lemma_trim_hi_unique(s@, hi as int);
        }
        s.substring_char(lo, hi)
    }
}

/// Whether `s` starts with `p`.
pub open spec fn has_prefix_spec(s: Seq<char>, p: Seq<char>) -> bool {
    p.len() <= s.len() && s.take(p.len() as int) == p
}

/// `str::starts_with` for a literal pattern.
pub fn has_prefix(s: &str, p: &str) -> (r: bool)
    ensures
        r == has_prefix_spec(s@, p@),
{
    let n = s.unicode_len();
    let m = p.unicode_len();
    if m > n {
        proof {
            assert(!has_prefix_spec(s@, p@));
        }
        return false;
    }
    let mut i: usize = 0;
    while i < m
        invariant
            0 <= i <= m <= n,
            n == s@.len(),
            m == p@.len(),
            forall|k: int| 0 <= k < i ==> s@[k] == p@[k],
        decreases m - i,
    {
        if s.get_char(i) != p.get_char(i) {
            proof {
                assert(s@.take(m as int)[i as int] != p@[i as int]);
            }
            return false;
        }
        i = i + 1;
    }
    proof {
        assert(s@.take(m as int) =~= p@);
    }
    true
}

/// `a` matches the lowercase ASCII letter `b`, ignoring ASCII case.
pub open spec fn char_ci_eq(a: char, b: char) -> bool {
    a == b || ('A' <= a && a <= 'Z' && a as int + 32 == b as int)
}

/// The Unicode lowercase of a string.  Names the result of
/// `str::to_lowercase`, which depends on the characters alone.
pub uninterp spec fn lower_of(s: Seq<char>) -> Seq<char>;

/// Relies on `str::to_lowercase`: the full Unicode lowercase mapping, a
/// function of the characters alone (no locale).
#[verifier::external_body]
pub(crate) fn lowercase(s: &str) -> (r: String)
    ensures
        r@ == lower_of(s@),
{
    s.to_lowercase()
}

/// Index of the first occurrence of `p` in `s`, if any.
pub open spec fn find_pat(s: Seq<char>, p: Seq<char>) -> Option<int>
    decreases s.len(),
{
    if s.len() < p.len() {
        None
    } else if s.take(p.len() as int) == p {
        Some(0)
    } else if s.len() == 0 {
        None
    } else {
        match find_pat(s.drop_first(), p) {
            Some(i) => Some(i + 1),
            None => None,
        }
    }
}

/// `find_pat` returns the first index where `p` occurs.
pub proof fn lemma_find_pat_ensures(s: Seq<char>, p: Seq<char>)
    ensures
        match find_pat(s, p) {
            Some(i) => 0 <= i && i + p.len() <= s.len() && s.subrange(i, i + p.len() as int) == p
                && forall|j: int|
                0 <= j < i ==> #[trigger] s.subrange(j, j + p.len() as int) != p,
            None => forall|j: int|
                0 <= j && j + p.len() <= s.len() ==> #[trigger] s.subrange(j, j + p.len() as int)
                    != p,
        },
    decreases s.len(),
{
    if s.len() < p.len() {
    } else if s.take(p.len() as int) == p {
        assert(s.subrange(0, p.len() as int) =~= s.take(p.len() as int));
    } else if s.len() == 0 {
        assert(s.take(p.len() as int) =~= p);
    } else {
        lemma_find_pat_ensures(s.drop_first(), p);
        assert(s.subrange(0, p.len() as int) =~= s.take(p.len() as int));
        assert forall|j: int| 1 <= j && j + p.len() <= s.len() implies #[trigger] s.subrange(
            j,
            j + p.len() as int,
        ) == s.drop_first().subrange(j - 1, j - 1 + p.len() as int) by {
            assert(s.subrange(j, j + p.len() as int) =~= s.drop_first().subrange(
                j - 1,
                j - 1 + p.len() as int,
            ));
        }
    }
}

/// `str::find` for a literal pattern, by character position rather than
/// byte offset.
pub fn find_pattern(s: &str, p: &str) -> (r: Option<usize>)
    ensures
        match r {
            Some(i) => find_pat(s@, p@) == Some(i as int),
            None => find_pat(s@, p@) is None,
        },
{
    proof {
        lemma_find_pat_ensures(s@, p@);
    }
    let n = s.unicode_len();
    let m = p.unicode_len();
    if m > n {
        return None;
    }
    if m == 0 {
        proof {
            assert(s@.take(0) =~= p@);
        }
        return Some(0);
    }
    let mut i: usize = 0;
    while i <= n - m
        invariant
            0 <= i,
            i <= n - m + 1,
            1 <= m <= n,
            n == s@.len(),
            m == p@.len(),
            forall|j: int| 0 <= j < i ==> #[trigger] s@.subrange(j, j + p@.len() as int) != p@,
        decreases n - i,
    {
        let mut k: usize = 0;
        let mut hit = true;
        while k < m
            invariant
                0 <= k <= m,
                i + m <= n,
                n == s@.len(),
                m == p@.len(),
                hit ==> forall|t: int| 0 <= t < k ==> s@[i + t] == p@[t],
                !hit ==> s@.subrange(i as int, i + p@.len() as int) != p@,
            decreases m - k,
        {
            if s.get_char(i + k) != p.get_char(k) {
                proof {
                    assert(s@.subrange(i as int, i + p@.len() as int)[k as int] != p@[k as int]);
                }
                hit = false;
                k = m;
            } else {
                k = k + 1;
            }
        }
        if hit {
            proof {
                assert(s@.subrange(i as int, i + p@.len() as int) =~= p@);
                lemma_find_pat_ensures(s@, p@);
            }
            return Some(i);
        }
        i = i + 1;
    }
    proof {
        lemma_find_pat_ensures(s@, p@);
    }
    None
}

/// ASCII decimal digit.
pub open spec fn is_digit(c: char) -> bool {
    '0' <= c && c <= '9'
}

pub open spec fn digit_val(c: char) -> int {
    c as int - '0' as int
}

/// At least one character and nothing but digits.
pub open spec fn all_digits(s: Seq<char>) -> bool {
    s.len() > 0 && forall|k: int| 0 <= k < s.len() ==> is_digit(s[k])
}

/// The value of a digit string, most significant first.
pub open spec fn digits_val(s: Seq<char>) -> int
    decreases s.len(),
{
    if s.len() == 0 {
        0
    } else {
        digits_val(s.drop_last()) * 10 + digit_val(s.last())
    }
}

/// What `str::parse::<i32>` accepts: an optional sign, then one or more
/// digits, with the value in `i32` range.
pub open spec fn parse_i32_spec(s: Seq<char>) -> Option<int> {
    let body = if s.len() > 0 && (s[0] == '+' || s[0] == '-') {
        s.drop_first()
    } else {
        s
    };
    if !all_digits(body) {
        None
    } else {
        let v = if s.len() > 0 && s[0] == '-' {
            -digits_val(body)
        } else {
            digits_val(body)
        };
        if -0x8000_0000 <= v <= 0x7fff_ffff {
            Some(v)
        } else {
            None
        }
    }
}

proof fn lemma_digits_val_nonneg(s: Seq<char>)
    requires
        forall|k: int| 0 <= k < s.len() ==> is_digit(s[k]),
    ensures
        digits_val(s) >= 0,
    decreases s.len(),
{
    if s.len() > 0 {
        lemma_digits_val_nonneg(s.drop_last());
    }
}

/// Appending digits never shrinks the value.
proof fn lemma_digits_val_take_mono(s: Seq<char>, j: int)
    requires
        forall|k: int| 0 <= k < s.len() ==> is_digit(s[k]),
        0 <= j <= s.len(),
    ensures
        digits_val(s) >= digits_val(s.take(j)),
    decreases s.len() - j,
{
    if j < s.len() {
        lemma_digits_val_nonneg(s.take(j));
        assert(s.take(j + 1).drop_last() =~= s.take(j));
        assert(digits_val(s.take(j + 1)) == digits_val(s.take(j)) * 10 + digit_val(s[j]));
        lemma_digits_val_take_mono(s, j + 1);
    } else {
        assert(s.take(j) =~= s);
    }
}

/// `str::parse::<i32>`.
pub fn parse_i32(s: &str) -> (r: Option<i32>)
    ensures
        match r {
            Some(v) => parse_i32_spec(s@) == Some(v as int),
            None => parse_i32_spec(s@) is None,
        },
{
    let n = s.unicode_len();
    if n == 0 {
        return None;
    }
    let c0 = s.get_char(0);
    let neg = c0 == '-';
    let start: usize = if c0 == '-' || c0 == '+' {
        1
    } else {
        0
    };
    let ghost body = if c0 == '-' || c0 == '+' {
        s@.drop_first()
    } else {
        s@
    };
    proof {
        assert(body =~= s@.subrange(start as int, n as int));
    }
    if start == n {
        return None;
    }
    let mut i: usize = start;
    let mut acc: i64 = 0;
    while i < n
        invariant
            start <= i <= n,
            start <= 1,
            n == s@.len(),
            n > start,
            body == s@.subrange(start as int, n as int),
            (start == 1) == (s@[0] == '-' || s@[0] == '+'),
            neg ==> s@[0] == '-',
            !neg ==> !(s@.len() > 0 && s@[0] == '-'),
            neg ==> acc <= 0,
            !neg ==> acc >= 0,
            forall|k: int| start <= k < i ==> is_digit(s@[k]),
            acc == if neg {
                -digits_val(body.take(i - start))
            } else {
                digits_val(body.take(i - start))
            },
            -0x8000_0000 <= acc <= 0x7fff_ffff,
        decreases n - i,
    {
        let c = s.get_char(i);
        if !('0' <= c && c <= '9') {
            proof {
                assert(!is_digit(body[i - start]));
                assert(!all_digits(body));
                if start == 1 {
                    assert(body =~= s@.drop_first());
                }
            }
            return None;
        }
        let d = (c as u32 - 48) as i64;
        proof {
            assert(body.take(i + 1 - start).drop_last() =~= body.take(i - start));
            assert(digits_val(body.take(i + 1 - start)) == digits_val(body.take(i - start)) * 10
                + digit_val(body[i - start]));
        }
        if neg {
            let next = acc * 10 - d;
            if next < -0x8000_0000i64 {
                proof {
                    lemma_out_of_range_neg(s@, body, start as int, i + 1 - start);
                }
                return None;
            }
            acc = next;
        } else {
            let next = acc * 10 + d;
            if next > 0x7fff_ffffi64 {
                proof {
                    lemma_out_of_range_pos(s@, body, start as int, i + 1 - start);
                }
                return None;
            }
            acc = next;
        }
        i = i + 1;
    }
    proof {
        assert(body.take(n - start) =~= body);
        assert(all_digits(body));
        if start == 1 {
            assert(body =~= s@.drop_first());
        }
    }
    Some(acc as i32)
}

/// If some prefix of the digit body already exceeds `i32::MAX`, the whole
/// parse is out of range (or rejected for a stray character).
proof fn lemma_out_of_range_pos(s: Seq<char>, body: Seq<char>, start: int, j: int)
    requires
        0 <= start <= 1,
        start < s.len(),
        body == s.subrange(start, s.len() as int),
        (start == 1) == (s[0] == '-' || s[0] == '+'),
        0 <= j <= body.len(),
        forall|k: int| 0 <= k < j ==> is_digit(body[k]),
        digits_val(body.take(j)) > 0x7fff_ffff,
        !(s.len() > 0 && s[0] == '-'),
    ensures
        parse_i32_spec(s) is None,
{
    if all_digits(body) {
        lemma_digits_val_take_mono(body, j);
        if start == 1 {
            assert(body =~= s.drop_first());
        } else {
            assert(body =~= s);
        }
    } else {
        if start == 1 {
            assert(body =~= s.drop_first());
        } else {
            assert(body =~= s);
        }
    }
}

proof fn lemma_out_of_range_neg(s: Seq<char>, body: Seq<char>, start: int, j: int)
    requires
        0 <= start <= 1,
        start < s.len(),
        body == s.subrange(start, s.len() as int),
        (start == 1) == (s[0] == '-' || s[0] == '+'),
        0 <= j <= body.len(),
        forall|k: int| 0 <= k < j ==> is_digit(body[k]),
        digits_val(body.take(j)) > 0x8000_0000,
        s.len() > 0 && s[0] == '-',
    ensures
        parse_i32_spec(s) is None,
{
    if all_digits(body) {
        lemma_digits_val_take_mono(body, j);
    }
    assert(body =~= s.drop_first());
}

/// Strict lexicographic order on character sequences by code point; this is
/// also the byte order of the UTF-8 encodings.
pub open spec fn lex_lt(a: Seq<char>, b: Seq<char>) -> bool
    decreases a.len(),
{
    if b.len() == 0 {
        false
    } else if a.len() == 0 {
        true
    } else if a[0] != b[0] {
        (a[0] as int) < (b[0] as int)
    } else {
        lex_lt(a.drop_first(), b.drop_first())
    }
}

pub open spec fn lex_le(a: Seq<char>, b: Seq<char>) -> bool {
    lex_lt(a, b) || a == b
}

/// `lex_lt` is a strict total order: irreflexive, asymmetric, and any two
/// sequences are comparable.
pub proof fn lemma_lex_lt_total(a: Seq<char>, b: Seq<char>)
    ensures
        lex_lt(a, b) || lex_lt(b, a) || a == b,
        !(lex_lt(a, b) && lex_lt(b, a)),
        lex_lt(a, b) ==> a != b,
    decreases a.len(),
{
    if a.len() > 0 && b.len() > 0 && a[0] == b[0] {
        lemma_lex_lt_total(a.drop_first(), b.drop_first());
        if a.drop_first() == b.drop_first() {
            assert forall|k: int| 0 <= k < a.len() implies a[k] == b[k] by {
                if k > 0 {
                    assert(a[k] == a.drop_first()[k - 1]);
                    assert(b[k] == b.drop_first()[k - 1]);
                }
            }
            assert(a =~= b);
        }
        if a == b {
            assert(a.drop_first() =~= b.drop_first());
        }
    }
}

pub proof fn lemma_lex_lt_trans(a: Seq<char>, b: Seq<char>, c: Seq<char>)
    requires
        lex_lt(a, b),
        lex_lt(b, c),
    ensures
        lex_lt(a, c),
    decreases a.len(),
{
    if a.len() > 0 && b.len() > 0 && c.len() > 0 {
        if a[0] == b[0] && b[0] == c[0] {
            lemma_lex_lt_trans(a.drop_first(), b.drop_first(), c.drop_first());
        }
    }
}

pub proof fn lemma_lex_le_trans(a: Seq<char>, b: Seq<char>, c: Seq<char>)
    requires
        lex_le(a, b),
        lex_le(b, c),
    ensures
        lex_le(a, c),
{
    if lex_lt(a, b) && lex_lt(b, c) {
        lemma_lex_lt_trans(a, b, c);
    }
}

proof fn lemma_lex_lt_common_prefix(a: Seq<char>, b: Seq<char>, i: int)
    requires
        0 <= i <= a.len(),
        i <= b.len(),
        forall|k: int| 0 <= k < i ==> a[k] == b[k],
    ensures
        lex_lt(a, b) == lex_lt(a.skip(i), b.skip(i)),
    decreases i,
{
    if i > 0 {
        assert(a.skip(0) =~= a);
        assert(b.skip(0) =~= b);
        if a.len() > 0 && b.len() > 0 {
            assert(a.drop_first().skip(i - 1) =~= a.skip(i));
            assert(b.drop_first().skip(i - 1) =~= b.skip(i));
            assert forall|k: int| 0 <= k < i - 1 implies a.drop_first()[k] == b.drop_first()[k] by {
                assert(a.drop_first()[k] == a[k + 1]);
            }
            lemma_lex_lt_common_prefix(a.drop_first(), b.drop_first(), i - 1);
        }
    } else {
        assert(a.skip(0) =~= a);
        assert(b.skip(0) =~= b);
    }
}

/// `a < b` in code-point order, the order the storage engine gives `TEXT`
/// columns holding UTF-8 strings.
pub fn str_lt(a: &str, b: &str) -> (r: bool)
    ensures
        r == lex_lt(a@, b@),
{
    let na = a.unicode_len();
    let nb = b.unicode_len();
    let mut i: usize = 0;
    loop
        invariant
            0 <= i <= na,
            i <= nb,
            na == a@.len(),
            nb == b@.len(),
            forall|k: int| 0 <= k < i ==> a@[k] == b@[k],
        decreases na - i,
    {
        proof {
            lemma_lex_lt_common_prefix(a@, b@, i as int);
        }
        if i >= nb {
            return false;
        }
        if i >= na {
            return true;
        }
        let ca = a.get_char(i);
        let cb = b.get_char(i);
        if ca != cb {
            proof {
                assert(a@.skip(i as int)[0] == a@[i as int]);
                assert(b@.skip(i as int)[0] == b@[i as int]);
            }
            return (ca as u32) < (cb as u32);
        }
        i = i + 1;
    }
}

/// Character-for-character string equality.
pub fn str_eq(a: &str, b: &str) -> (r: bool)
    ensures
        r == (a@ == b@),
{
    let na = a.unicode_len();
    let nb = b.unicode_len();
    if na != nb {
        return false;
    }
    let mut i: usize = 0;
    while i < na
        invariant
            0 <= i <= na,
            na == a@.len(),
            na == b@.len(),
            forall|k: int| 0 <= k < i ==> a@[k] == b@[k],
        decreases na - i,
    {
        if a.get_char(i) != b.get_char(i) {
            return false;
        }
        i = i + 1;
    }
    proof {
        assert(a@ =~= b@);
    }
    true
}

/// `a <= b` in code-point order.
pub fn str_le(a: &str, b: &str) -> (r: bool)
    ensures
        r == lex_le(a@, b@),
{
    let r = !str_lt(b, a);
    proof {
        lemma_lex_lt_total(a@, b@);
    }
    r
}

} // verus!

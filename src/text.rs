//! Character-level helpers: comparison, number syntax, trimming and
//! substitution, each stated over the string's sequence of characters.
use vstd::prelude::*;

verus! {

/// Rust's order on strings: lexicographic over the characters, a proper
/// prefix coming first.
pub open spec fn seq_lt(a: Seq<char>, b: Seq<char>) -> bool
    decreases a.len(),
{
    if a.len() == 0 {
        b.len() > 0
    } else if b.len() == 0 {
        false
    } else if a[0] != b[0] {
        (a[0] as int) < (b[0] as int)
    } else {
        seq_lt(a.drop_first(), b.drop_first())
    }
}

pub proof fn lemma_seq_lt_irreflexive(a: Seq<char>)
    ensures
        !seq_lt(a, a),
    decreases a.len(),
{
    if a.len() > 0 {
        lemma_seq_lt_irreflexive(a.drop_first());
    }
}

pub proof fn lemma_seq_lt_transitive(a: Seq<char>, b: Seq<char>, c: Seq<char>)
    requires
        seq_lt(a, b),
        seq_lt(b, c),
    ensures
        seq_lt(a, c),
    decreases a.len(),
{
    if a.len() > 0 && b.len() > 0 && c.len() > 0 {
        if a[0] == b[0] && b[0] == c[0] {
            lemma_seq_lt_transitive(a.drop_first(), b.drop_first(), c.drop_first());
        }
    }
}

pub proof fn lemma_seq_lt_total(a: Seq<char>, b: Seq<char>)
    requires
        a != b,
    ensures
        seq_lt(a, b) || seq_lt(b, a),
    decreases a.len(),
{
    if a.len() > 0 && b.len() > 0 && a[0] != b[0] {
        assert(a[0] as int != b[0] as int);
    }
    if a.len() > 0 && b.len() > 0 && a[0] == b[0] {
        if a.drop_first() == b.drop_first() {
            assert(a =~= seq![a[0]] + a.drop_first());
            assert(b =~= seq![b[0]] + b.drop_first());
        }
        lemma_seq_lt_total(a.drop_first(), b.drop_first());
    }
    if a.len() == 0 && b.len() == 0 {
        assert(a =~= b);
    }
}

proof fn lemma_seq_lt_skip(a: Seq<char>, b: Seq<char>, j: int)
    requires
        0 <= j <= a.len(),
        j <= b.len(),
        a.take(j) == b.take(j),
    ensures
        seq_lt(a, b) == seq_lt(a.skip(j), b.skip(j)),
    decreases j,
{
    if j > 0 {
        assert(a[0] == a.take(j)[0]);
        assert(b[0] == b.take(j)[0]);
        assert(a.drop_first().take(j - 1) =~= a.take(j).drop_first());
        assert(b.drop_first().take(j - 1) =~= b.take(j).drop_first());
        lemma_seq_lt_skip(a.drop_first(), b.drop_first(), j - 1);
        assert(a.drop_first().skip(j - 1) =~= a.skip(j));
        assert(b.drop_first().skip(j - 1) =~= b.skip(j));
    } else {
        assert(a.skip(0) =~= a);
        assert(b.skip(0) =~= b);
    }
}

/// Whether two strings hold the same characters.
pub fn str_eq(a: &str, b: &str) -> (r: bool)
    ensures
        r == (a@ == b@),
{
    let n = a.unicode_len();
    let m = b.unicode_len();
    if n != m {
        return false;
    }
    let mut i: usize = 0;
    while i < n
        invariant
            n == a@.len(),
            m == b@.len(),
            n == m,
            i <= n,
            a@.take(i as int) == b@.take(i as int),
        decreases n - i,
    {
        if a.get_char(i) != b.get_char(i) {
            return false;
        }
        assert(a@.take(i + 1) =~= a@.take(i as int).push(a@[i as int]));
        assert(b@.take(i + 1) =~= b@.take(i as int).push(b@[i as int]));
        i = i + 1;
    }
    assert(a@ =~= a@.take(n as int));
    assert(b@ =~= b@.take(n as int));
    true
}

/// Whether `a` comes strictly before `b` in string order.
pub fn str_lt(a: &str, b: &str) -> (r: bool)
    ensures
        r == seq_lt(a@, b@),
{
    let n = a.unicode_len();
    let m = b.unicode_len();
    let mut i: usize = 0;
    while i < n && i < m
        invariant
            n == a@.len(),
            m == b@.len(),
            i <= n,
            i <= m,
            a@.take(i as int) == b@.take(i as int),
        decreases n - i,
    {
        let ca = a.get_char(i);
        let cb = b.get_char(i);
        if ca != cb {
            proof {
                lemma_seq_lt_skip(a@, b@, i as int);
                assert(a@.skip(i as int)[0] == ca);
                assert(b@.skip(i as int)[0] == cb);
            }
            return (ca as u32) < (cb as u32);
        }
        assert(a@.take(i + 1) =~= a@.take(i as int).push(a@[i as int]));
        assert(b@.take(i + 1) =~= b@.take(i as int).push(b@[i as int]));
        i = i + 1;
    }
    proof {
        lemma_seq_lt_skip(a@, b@, i as int);
    }
    i == n && i < m
}

pub open spec fn is_digit(c: char) -> bool {
    '0' <= c && c <= '9'
}

pub open spec fn digit_value(c: char) -> int {
    (c as int) - ('0' as int)
}

pub open spec fn all_digits(s: Seq<char>) -> bool {
    forall|i: int| 0 <= i < s.len() ==> is_digit(#[trigger] s[i])
}

/// The value of a sequence of decimal digits.
pub open spec fn digits_value(s: Seq<char>) -> int
    decreases s.len(),
{
    if s.len() == 0 {
        0
    } else {
        10 * digits_value(s.drop_last()) + digit_value(s.last())
    }
}

/// The digits of an unsigned number, after an optional leading `+`.
pub open spec fn unsigned_body(s: Seq<char>) -> Seq<char> {
    if s.len() > 0 && s[0] == '+' {
        s.drop_first()
    } else {
        s
    }
}

/// The `u64` that a decimal text denotes: an optional `+`, then one or more
/// digits, of a value that fits in 64 bits.
pub open spec fn u64_of_text(s: Seq<char>) -> Option<u64> {
    let d = unsigned_body(s);
    if d.len() > 0 && all_digits(d) && digits_value(d) <= u64::MAX {
        Some(digits_value(d) as u64)
    } else {
        None
    }
}

proof fn lemma_digits_value_nonneg(s: Seq<char>)
    requires
        all_digits(s),
    ensures
        digits_value(s) >= 0,
    decreases s.len(),
{
    if s.len() > 0 {
        lemma_digits_value_nonneg(s.drop_last());
    }
}

proof fn lemma_digits_value_prefix(s: Seq<char>, k: int)
    requires
        all_digits(s),
        0 <= k <= s.len(),
    ensures
        digits_value(s.take(k)) <= digits_value(s),
    decreases s.len() - k,
{
    if k < s.len() {
        lemma_digits_value_prefix(s, k + 1);
        let t = s.take(k + 1);
        assert(t.drop_last() =~= s.take(k));
        assert(all_digits(s.take(k)));
        lemma_digits_value_nonneg(s.take(k));
        assert(is_digit(s[k]));
    } else {
        assert(s.take(k) =~= s);
    }
}

/// Reads a decimal `u64`, as `str::parse::<u64>` does.
pub fn parse_u64(s: &str) -> (r: Option<u64>)
    ensures
        r == u64_of_text(s@),
{
    let n = s.unicode_len();
    let start: usize = if n > 0 && s.get_char(0) == '+' {
        1
    } else {
        0
    };
    let ghost d = unsigned_body(s@);
    assert(d =~= s@.skip(start as int));
    if start >= n {
        return None;
    }
    let mut v: u64 = 0;
    let mut i: usize = start;
    while i < n
        invariant
            n == s@.len(),
            start <= i <= n,
            d =~= s@.skip(start as int),
            d == unsigned_body(s@),
            all_digits(d.take(i - start)),
            v as int == digits_value(d.take(i - start)),
        decreases n - i,
    {
        let c = s.get_char(i);
        if !('0' <= c && c <= '9') {
            assert(d[i - start] == c);
            assert(!is_digit(d[i - start]));
            return None;
        }
        let dv: u64 = (c as u32 - '0' as u32) as u64;
        let ghost next = d.take(i + 1 - start);
        assert(next.drop_last() =~= d.take(i - start));
        assert(next.last() == c);
        assert(all_digits(next));
        assert(digit_value(c) == dv);
        assert(digits_value(next) == 10 * digits_value(d.take(i - start)) + dv);
        if v > (u64::MAX - dv) / 10 {
            assert(10 * (v as int) + (dv as int) > u64::MAX) by (nonlinear_arith)
                requires
                    v > (u64::MAX - dv) / 10,
                    dv <= 9,
            ;
            assert(digits_value(next) > u64::MAX);
            proof {
                if all_digits(d) {
                    lemma_digits_value_prefix(d, i + 1 - start);
                }
            }
            return None;
        }
        v = v * 10 + dv;
        i = i + 1;
    }
    assert(d.take(n - start) =~= d);
    Some(v)
}

/// The text of a boolean attribute, as `str::parse::<bool>` reads it.
pub open spec fn bool_of_text(s: Seq<char>) -> Option<bool> {
    if s == "true"@ {
        Some(true)
    } else if s == "false"@ {
        Some(false)
    } else {
        None
    }
}

pub fn parse_bool(s: &str) -> (r: Option<bool>)
    ensures
        r == bool_of_text(s@),
{
    if str_eq(s, "true") {
        Some(true)
    } else if str_eq(s, "false") {
        Some(false)
    } else {
        None
    }
}

/// Digits with at most one decimal point among them, and at least one digit.
pub open spec fn is_decimal_body(s: Seq<char>) -> bool {
    &&& exists|i: int| 0 <= i < s.len() && is_digit(#[trigger] s[i])
    &&& forall|i: int| 0 <= i < s.len() ==> is_digit(#[trigger] s[i]) || s[i] == '.'
    &&& forall|i: int, j: int|
        #![trigger s[i], s[j]]
        0 <= i < j < s.len() && s[i] == '.' ==> s[j] != '.'
}

/// Where the exponent of a number starts: at its first `e` or `E`, or at
/// its end.
pub open spec fn exponent_start(s: Seq<char>) -> int
    decreases s.len(),
{
    if s.len() == 0 {
        0
    } else if s[0] == 'e' || s[0] == 'E' {
        0
    } else {
        1 + exponent_start(s.drop_first())
    }
}

/// An exponent: an optional sign, then one or more digits.
pub open spec fn is_exponent(s: Seq<char>) -> bool {
    let d = if s.len() > 0 && (s[0] == '+' || s[0] == '-') {
        s.drop_first()
    } else {
        s
    };
    d.len() > 0 && all_digits(d)
}

/// An unsigned number: digits with at most one decimal point, then an
/// optional exponent (`10.0`, `.25`, `7`, `1e-7`).
pub open spec fn is_unsigned_number(s: Seq<char>) -> bool {
    let p = exponent_start(s);
    is_decimal_body(s.take(p)) && (p == s.len() || is_exponent(s.skip(p + 1)))
}

/// A coordinate as a decimal floating-point text: an optional sign, then an
/// unsigned number (`10.0`, `-0.5`, `.25`, `7`, `1e-7`).
pub open spec fn is_decimal(s: Seq<char>) -> bool {
    if s.len() > 0 && (s[0] == '-' || s[0] == '+') {
        is_unsigned_number(s.drop_first())
    } else {
        is_unsigned_number(s)
    }
}

proof fn lemma_exponent_start(b: Seq<char>, j: int)
    requires
        0 <= j <= b.len(),
        forall|k: int| 0 <= k < j ==> #[trigger] b[k] != 'e' && b[k] != 'E',
        j == b.len() || b[j] == 'e' || b[j] == 'E',
    ensures
        exponent_start(b) == j,
    decreases j,
{
    if j > 0 {
        let t = b.drop_first();
        assert(b[0] != 'e' && b[0] != 'E');
        assert forall|k: int| 0 <= k < j - 1 implies #[trigger] t[k] != 'e' && t[k] != 'E' by {
            assert(t[k] == b[k + 1]);
        }
        if j < b.len() {
            assert(t[j - 1] == b[j]);
        }
        lemma_exponent_start(t, j - 1);
    }
}

/// Whether `s[from..to]` is digits with at most one decimal point, and at
/// least one digit.
fn check_body(s: &str, from: usize, to: usize) -> (r: bool)
    requires
        from <= to <= s@.len(),
    ensures
        r == is_decimal_body(s@.subrange(from as int, to as int)),
{
    let ghost b = s@.subrange(from as int, to as int);
    let mut seen_digit = false;
    let mut seen_point = false;
    let mut i: usize = from;
    while i < to
        invariant
            from <= i <= to <= s@.len(),
            b == s@.subrange(from as int, to as int),
            seen_digit == exists|k: int| 0 <= k < i - from && is_digit(#[trigger] b[k]),
            seen_point == exists|k: int| 0 <= k < i - from && #[trigger] b[k] == '.',
            forall|k: int| 0 <= k < i - from ==> is_digit(#[trigger] b[k]) || b[k] == '.',
            forall|k: int, j: int|
                #![trigger b[k], b[j]]
                0 <= k < j < i - from && b[k] == '.' ==> b[j] != '.',
        decreases to - i,
    {
        let c = s.get_char(i);
        assert(b[i - from] == c);
        if '0' <= c && c <= '9' {
            seen_digit = true;
        } else if c == '.' {
            if seen_point {
                proof {
                    let k = choose|k: int| 0 <= k < i - from && #[trigger] b[k] == '.';
                    assert(b[k] == '.' && b[i - from] == '.');
                    assert(!is_decimal_body(b));
                }
                return false;
            }
            seen_point = true;
        } else {
            assert(!(is_digit(b[i - from]) || b[i - from] == '.'));
            assert(!is_decimal_body(b));
            return false;
        }
        i = i + 1;
    }
    seen_digit
}

/// Whether `s[from..]` is an exponent.
fn check_exponent(s: &str, from: usize) -> (r: bool)
    requires
        from <= s@.len(),
    ensures
        r == is_exponent(s@.skip(from as int)),
{
    let n = s.unicode_len();
    let ghost e = s@.skip(from as int);
    let start: usize = if from < n && (s.get_char(from) == '+' || s.get_char(from) == '-') {
        from + 1
    } else {
        from
    };
    let ghost d = s@.skip(start as int);
    assert(d =~= if e.len() > 0 && (e[0] == '+' || e[0] == '-') {
        e.drop_first()
    } else {
        e
    });
    if start >= n {
        return false;
    }
    let mut i: usize = start;
    while i < n
        invariant
            n == s@.len(),
            start <= i <= n,
            d == s@.skip(start as int),
            d.len() > 0,
            is_exponent(s@.skip(from as int)) == all_digits(d),
            forall|k: int| 0 <= k < i - start ==> is_digit(#[trigger] d[k]),
        decreases n - i,
    {
        let c = s.get_char(i);
        assert(d[i - start] == c);
        if !('0' <= c && c <= '9') {
            assert(!is_digit(d[i - start]));
            return false;
        }
        i = i + 1;
    }
    true
}

pub fn check_decimal(s: &str) -> (r: bool)
    ensures
        r == is_decimal(s@),
{
    let n = s.unicode_len();
    let start: usize = if n > 0 && (s.get_char(0) == '-' || s.get_char(0) == '+') {
        1
    } else {
        0
    };
    let ghost b = s@.skip(start as int);
    assert(b =~= if s@.len() > 0 && (s@[0] == '-' || s@[0] == '+') {
        s@.drop_first()
    } else {
        s@
    });
    let mut p: usize = start;
    while p < n && !(s.get_char(p) == 'e' || s.get_char(p) == 'E')
        invariant
            n == s@.len(),
            start <= p <= n,
            b == s@.skip(start as int),
            forall|k: int| 0 <= k < p - start ==> #[trigger] b[k] != 'e' && b[k] != 'E',
        decreases n - p,
    {
        assert(b[p - start] == s@[p as int]);
        p = p + 1;
    }
    proof {
        if p < n {
            assert(b[p - start] == s@[p as int]);
        }
        lemma_exponent_start(b, p - start);
        assert(b.take(p - start) =~= s@.subrange(start as int, p as int));
        if p < n {
            assert(b.skip(p - start + 1) =~= s@.skip(p + 1));
        }
    }
    let mantissa = check_body(s, start, p);
    if p == n {
        return mantissa;
    }
    let exponent = check_exponent(s, p + 1);
    mantissa && exponent
}

/// Characters with the Unicode `White_Space` property, which `str::trim`
/// removes.
pub open spec fn is_space(c: char) -> bool {
    let u = c as u32;
    (0x09 <= u && u <= 0x0D) || u == 0x20 || u == 0x85 || u == 0xA0 || u == 0x1680 || (0x2000
        <= u && u <= 0x200A) || u == 0x2028 || u == 0x2029 || u == 0x202F || u == 0x205F || u
        == 0x3000
}

fn char_is_space(c: char) -> (r: bool)
    ensures
        r == is_space(c),
{
    let u = c as u32;
    (0x09 <= u && u <= 0x0D) || u == 0x20 || u == 0x85 || u == 0xA0 || u == 0x1680 || (0x2000
        <= u && u <= 0x200A) || u == 0x2028 || u == 0x2029 || u == 0x202F || u == 0x205F || u
        == 0x3000
}

/// `s` without its leading and trailing white space: the range between the
/// first and the last character that is not a space.
#[verifier::opaque]
pub open spec fn trimmed(s: Seq<char>) -> Seq<char> {
    if forall|i: int| 0 <= i < s.len() ==> is_space(#[trigger] s[i]) {
        Seq::empty()
    } else {
        let lo = choose|lo: int|
            0 <= lo < s.len() && !is_space(s[lo]) && forall|k: int|
                0 <= k < lo ==> is_space(#[trigger] s[k]);
        let hi = choose|hi: int|
            0 <= hi < s.len() && !is_space(s[hi]) && forall|k: int|
                hi < k < s.len() ==> is_space(#[trigger] s[k]);
        s.subrange(lo, hi + 1)
    }
}

/// Removes leading and trailing white space, as `str::trim` does.
pub fn trim(s: &str) -> (r: String)
    ensures
        r@ == trimmed(s@),
{
    let n = s.unicode_len();
    let mut lo: usize = 0;
    while lo < n && char_is_space(s.get_char(lo))
        invariant
            n == s@.len(),
            lo <= n,
            forall|k: int| 0 <= k < lo ==> is_space(#[trigger] s@[k]),
        decreases n - lo,
    {
        lo = lo + 1;
    }
    if lo == n {
        proof {
            reveal(trimmed);
        }
        return String::new();
    }
    let mut hi: usize = n - 1;
    while char_is_space(s.get_char(hi))
        invariant
            n == s@.len(),
            lo <= hi < n,
            !is_space(s@[lo as int]),
            forall|k: int| hi < k < n ==> is_space(#[trigger] s@[k]),
        decreases hi,
    {
        hi = hi - 1;
    }
    proof {
        reveal(trimmed);
        let plo = choose|p: int|
            0 <= p < s@.len() && !is_space(s@[p]) && forall|k: int|
                0 <= k < p ==> is_space(#[trigger] s@[k]);
        let phi = choose|p: int|
            0 <= p < s@.len() && !is_space(s@[p]) && forall|k: int|
                p < k < s@.len() ==> is_space(#[trigger] s@[k]);
        assert(0 <= lo < s@.len() && !is_space(s@[lo as int]) && forall|k: int|
            0 <= k < lo ==> is_space(#[trigger] s@[k]));
        assert(0 <= hi < s@.len() && !is_space(s@[hi as int]) && forall|k: int|
            hi < k < s@.len() ==> is_space(#[trigger] s@[k]));
        if plo < lo {
            assert(is_space(s@[plo]));
        }
        if lo < plo {
            assert(is_space(s@[lo as int]));
        }
        if phi < hi {
            assert(is_space(s@[hi as int]));
        }
        if hi < phi {
            assert(is_space(s@[phi]));
        }
    }
    String::from_str(s.substring_char(lo, hi + 1))
}

/// `s` with every occurrence of `pat` replaced by `rep`, scanning from the
/// left and resuming after each replaced occurrence.
pub open spec fn replaced(s: Seq<char>, pat: Seq<char>, rep: Seq<char>) -> Seq<char>
    recommends
        pat.len() > 0,
    decreases s.len(),
{
    if s.len() == 0 || pat.len() == 0 {
        s
    } else if pat.len() <= s.len() && s.take(pat.len() as int) == pat {
        rep + replaced(s.skip(pat.len() as int), pat, rep)
    } else {
        seq![s[0]] + replaced(s.drop_first(), pat, rep)
    }
}

/// Whether `pat` occurs in `s` at position `at`.
fn occurs_at(s: &str, n: usize, pat: &str, m: usize, at: usize) -> (r: bool)
    requires
        n == s@.len(),
        m == pat@.len(),
        at <= n,
    ensures
        r == (m <= n - at && s@.skip(at as int).take(m as int) == pat@),
{
    if m > n - at {
        return false;
    }
    let mut k: usize = 0;
    while k < m
        invariant
            n == s@.len(),
            m == pat@.len(),
            m <= n - at,
            k <= m,
            s@.skip(at as int).take(k as int) == pat@.take(k as int),
        decreases m - k,
    {
        if s.get_char(at + k) != pat.get_char(k) {
            assert(s@.skip(at as int).take(m as int)[k as int] == s@[at + k]);
            return false;
        }
        assert(s@.skip(at as int).take(k + 1) =~= s@.skip(at as int).take(k as int).push(
            s@[at + k],
        ));
        assert(pat@.take(k + 1) =~= pat@.take(k as int).push(pat@[k as int]));
        k = k + 1;
    }
    assert(pat@.take(m as int) =~= pat@);
    true
}

/// Replaces every occurrence of a non-empty `pat` in `s` by `rep`, as
/// `str::replace` does.
pub fn replace_all(s: &str, pat: &str, rep: &str) -> (r: String)
    requires
        pat@.len() > 0,
    ensures
        r@ == replaced(s@, pat@, rep@),
{
    let n = s.unicode_len();
    let m = pat.unicode_len();
    let mut out = String::new();
    let mut i: usize = 0;
    assert(s@.skip(0) =~= s@);
    assert(out@ + replaced(s@, pat@, rep@) =~= replaced(s@, pat@, rep@));
    while i < n
        invariant
            n == s@.len(),
            m == pat@.len(),
            m > 0,
            i <= n,
            out@ + replaced(s@.skip(i as int), pat@, rep@) == replaced(s@, pat@, rep@),
        decreases n - i,
    {
        let ghost rest = s@.skip(i as int);
        if occurs_at(s, n, pat, m, i) {
            assert(rest.skip(m as int) =~= s@.skip(i + m));
            assert(replaced(rest, pat@, rep@) == rep@ + replaced(s@.skip(i + m), pat@, rep@));
            let ghost before = out@;
            out.append(rep);
            assert(before + (rep@ + replaced(s@.skip(i + m), pat@, rep@)) =~= out@ + replaced(
                s@.skip(i + m),
                pat@,
                rep@,
            ));
            i = i + m;
        } else {
            assert(rest.drop_first() =~= s@.skip(i + 1));
            assert(rest[0] == s@[i as int]);
            assert(replaced(rest, pat@, rep@) == seq![rest[0]] + replaced(
                s@.skip(i + 1),
                pat@,
                rep@,
            ));
            let ghost before = out@;
            out.append(s.substring_char(i, i + 1));
            assert(s@.subrange(i as int, i + 1) =~= seq![rest[0]]);
            assert(before + (seq![rest[0]] + replaced(s@.skip(i + 1), pat@, rep@)) =~= out@
                + replaced(s@.skip(i + 1), pat@, rep@));
            i = i + 1;
        }
    }
    assert(s@.skip(n as int) =~= Seq::<char>::empty());
    assert(out@ + Seq::<char>::empty() =~= out@);
    out
}

/// `s` with `suf` taken off its end as many times as it ends with it, as
/// `str::trim_end_matches` does.
pub open spec fn strip_suffixes(s: Seq<char>, suf: Seq<char>) -> Seq<char>
    decreases s.len(),
{
    if suf.len() > 0 && suf.len() <= s.len() && s.skip(s.len() - suf.len()) == suf {
        strip_suffixes(s.take(s.len() - suf.len()), suf)
    } else {
        s
    }
}

/// `s` with `pre` taken off its start as many times as it starts with it, as
/// `str::trim_start_matches` does.
pub open spec fn strip_prefixes(s: Seq<char>, pre: Seq<char>) -> Seq<char>
    decreases s.len(),
{
    if pre.len() > 0 && pre.len() <= s.len() && s.take(pre.len() as int) == pre {
        strip_prefixes(s.skip(pre.len() as int), pre)
    } else {
        s
    }
}

pub fn trim_end_matches(s: &str, suf: &str) -> (r: String)
    ensures
        r@ == strip_suffixes(s@, suf@),
{
    let n = s.unicode_len();
    let m = suf.unicode_len();
    let mut end: usize = n;
    assert(s@.take(n as int) =~= s@);
    while m > 0 && end >= m && occurs_at(s, n, suf, m, end - m)
        invariant
            n == s@.len(),
            m == suf@.len(),
            end <= n,
            strip_suffixes(s@.take(end as int), suf@) == strip_suffixes(s@, suf@),
        decreases end,
    {
        let ghost t = s@.take(end as int);
        assert(t.skip(t.len() - m) =~= s@.skip(end - m).take(m as int));
        assert(t.take(t.len() - m) =~= s@.take(end - m));
        end = end - m;
    }
    proof {
        let t = s@.take(end as int);
        if m > 0 && end >= m {
            assert(t.skip(t.len() - m) =~= s@.skip(end - m).take(m as int));
        }
    }
    String::from_str(s.substring_char(0, end))
}

pub fn trim_start_matches(s: &str, pre: &str) -> (r: String)
    ensures
        r@ == strip_prefixes(s@, pre@),
{
    let n = s.unicode_len();
    let m = pre.unicode_len();
    let mut start: usize = 0;
    assert(s@.skip(0) =~= s@);
    while m > 0 && n - start >= m && occurs_at(s, n, pre, m, start)
        invariant
            n == s@.len(),
            m == pre@.len(),
            start <= n,
            strip_prefixes(s@.skip(start as int), pre@) == strip_prefixes(s@, pre@),
        decreases n - start,
    {
        let ghost t = s@.skip(start as int);
        assert(t.skip(m as int) =~= s@.skip(start + m));
        start = start + m;
    }
    String::from_str(s.substring_char(start, n))
}

} // verus!

//! Number syntax: integer parsing, floating-point token syntax and decimal output.
use vstd::prelude::*;
use crate::text::{len_before, lemma_len_before_bound, push_char};

verus! {

pub open spec fn is_digit(c: char) -> bool {
    '0' <= c && c <= '9'
}

pub open spec fn digit_value(c: char) -> int {
    c as int - 48
}

pub open spec fn all_digits(s: Seq<char>) -> bool {
    forall|i: int| 0 <= i < s.len() ==> is_digit(#[trigger] s[i])
}

/// The value of the decimal numeral `s`.
pub open spec fn digits_value(s: Seq<char>) -> int
    decreases s.len(),
{
    if s.len() == 0 {
        0
    } else {
        digits_value(s.drop_last()) * 10 + digit_value(s.last())
    }
}

/// `s` without one leading `'+'` or `'-'`.
pub open spec fn unsigned_part(s: Seq<char>) -> Seq<char> {
    if s.len() > 0 && (s[0] == '-' || s[0] == '+') {
        s.drop_first()
    } else {
        s
    }
}

/// What `isize::from_str` gives on `s`: an optional sign followed by at least one digit,
/// whose value fits in an `isize`.
pub open spec fn parsed_isize(s: Seq<char>) -> Option<isize> {
    let d = unsigned_part(s);
    let v = if s.len() > 0 && s[0] == '-' {
        -digits_value(d)
    } else {
        digits_value(d)
    };
    if d.len() > 0 && all_digits(d) && isize::MIN <= v <= isize::MAX {
        Some(v as isize)
    } else {
        None
    }
}

proof fn lemma_digits_value_nonneg(s: Seq<char>)
    requires
        all_digits(s),
    ensures
        0 <= digits_value(s),
    decreases s.len(),
{
    if s.len() > 0 {
        assert(is_digit(s[s.len() - 1]));
        lemma_digits_value_nonneg(s.drop_last());
    }
}

proof fn lemma_digits_value_monotone(s: Seq<char>, i: int)
    requires
        0 <= i <= s.len(),
        all_digits(s),
    ensures
        0 <= digits_value(s.take(i)) <= digits_value(s),
    decreases s.len() - i,
{
    if i < s.len() {
        lemma_digits_value_monotone(s, i + 1);
        let t = s.take(i + 1);
        assert(t.drop_last() =~= s.take(i));
        assert(t.last() == s[i]);
        assert(is_digit(s[i]));
        assert(all_digits(s.take(i)));
        lemma_digits_value_nonneg(s.take(i));
    } else {
        assert(s.take(i) =~= s);
        lemma_digits_value_nonneg(s);
    }
}

/// `isize::from_str` on the characters `s`.
pub fn parse_isize(s: &Vec<char>) -> (r: Option<isize>)
    ensures
        r == parsed_isize(s@),
{
    let n = s.len();
    if n == 0 {
        return None;
    }
    let neg = s[0] == '-';
    let start: usize = if s[0] == '-' || s[0] == '+' { 1 } else { 0 };
    let ghost d = unsigned_part(s@);
    assert(d =~= s@.skip(start as int));
    if start == n {
        return None;
    }
    let mut acc: isize = 0;
    let mut i = start;
    assert(d.take(0) =~= Seq::<char>::empty());
    while i < n
        invariant
            n == s@.len(),
            start <= i <= n,
            start <= 1,
            d == s@.skip(start as int),
            d == unsigned_part(s@),
            neg == (s@[0] == '-'),
            all_digits(d.take(i - start)),
            acc == (if neg { -digits_value(d.take(i - start)) } else { digits_value(d.take(i - start)) }),
        decreases n - i,
    {
        let c = s[i];
        assert(d[i - start] == c);
        if !('0' <= c && c <= '9') {
            assert(!is_digit(d[i - start]));
            assert(!all_digits(d));
            assert(parsed_isize(s@) is None);
            return None;
        }
        let ghost pre = d.take(i - start);
        let ghost next = d.take(i - start + 1);
        assert(next.drop_last() =~= pre);
        assert(next.last() == c);
        proof {
            assert forall|j: int| 0 <= j < next.len() implies is_digit(#[trigger] next[j]) by {
                if j < pre.len() {
                    assert(next[j] == pre[j]);
                }
            }
        }
        let dgt = (c as u32 - 48) as isize;
        assert(dgt == digit_value(c));
        assert(digits_value(next) == digits_value(pre) * 10 + dgt);
        let m = acc.checked_mul(10);
        let stepped = match m {
            Some(m) => if neg { m.checked_sub(dgt) } else { m.checked_add(dgt) },
            None => None,
        };
        match stepped {
            Some(a) => {
                acc = a;
            },
            None => {
                proof {
                    if all_digits(d) {
                        lemma_digits_value_monotone(d, i - start + 1);
                        lemma_digits_value_monotone(d, i - start);
                        assert(d.take(i - start + 1) == next);
                        if neg {
                            assert(-digits_value(next) < isize::MIN);
                        } else {
                            assert(digits_value(next) > isize::MAX);
                        }
                    }
                }
                return None;
            },
        }
        i = i + 1;
    }
    assert(d.take(n - start) =~= d);
    Some(acc)
}

// ---------------------------------------------------------------------------
// Floating-point token syntax
/// `s` spells the word whose lower-case letters are `lower` and upper-case letters are
/// `upper`, each letter in either case.
pub open spec fn eq_ignore_case(s: Seq<char>, lower: Seq<char>, upper: Seq<char>) -> bool {
    &&& s.len() == lower.len()
    &&& s.len() == upper.len()
    &&& forall|i: int| 0 <= i < s.len() ==> #[trigger] s[i] == lower[i] || s[i] == upper[i]
}

/// `inf`, `infinity` or `nan`, in any case.
pub open spec fn is_special_float(b: Seq<char>) -> bool {
    ||| eq_ignore_case(b, seq!['i', 'n', 'f'], seq!['I', 'N', 'F'])
    ||| eq_ignore_case(
        b,
        seq!['i', 'n', 'f', 'i', 'n', 'i', 't', 'y'],
        seq!['I', 'N', 'F', 'I', 'N', 'I', 'T', 'Y'],
    )
    ||| eq_ignore_case(b, seq!['n', 'a', 'n'], seq!['N', 'A', 'N'])
}

/// Digits with at most one `'.'`, and at least one digit.
pub open spec fn is_mantissa(m: Seq<char>) -> bool {
    let d = len_before(m, '.');
    if d >= m.len() {
        m.len() > 0 && all_digits(m)
    } else {
        all_digits(m.take(d as int)) && all_digits(m.skip(d + 1 as int)) && m.len() > 1
    }
}

/// What follows the exponent marker: an optional sign, then at least one digit.
pub open spec fn is_exponent_digits(x: Seq<char>) -> bool {
    let d = unsigned_part(x);
    d.len() > 0 && all_digits(d)
}

/// Position of the first `'e'` or `'E'`.
pub open spec fn exponent_pos(b: Seq<char>) -> nat {
    let k1 = len_before(b, 'e');
    let k2 = len_before(b, 'E');
    if k1 <= k2 {
        k1
    } else {
        k2
    }
}

pub open spec fn is_decimal_float(b: Seq<char>) -> bool {
    let k = exponent_pos(b);
    if k >= b.len() {
        is_mantissa(b)
    } else {
        is_mantissa(b.take(k as int)) && is_exponent_digits(b.skip(k + 1 as int))
    }
}

/// The tokens that `f32::from_str` accepts, by its documented grammar:
/// `Sign? ( 'inf' | 'infinity' | 'nan' | Number )` with the letters in any case,
/// `Number ::= ( Digit+ | Digit+ '.' Digit* | Digit* '.' Digit+ ) Exp?` and
/// `Exp ::= ('e' | 'E') Sign? Digit+`.
pub open spec fn is_float_literal(s: Seq<char>) -> bool {
    let b = unsigned_part(s);
    is_special_float(b) || is_decimal_float(b)
}

/// Whether `v[a..b]` is all digits.
fn digits_between(v: &Vec<char>, a: usize, b: usize) -> (r: bool)
    requires
        a <= b <= v@.len(),
    ensures
        r == all_digits(v@.subrange(a as int, b as int)),
{
    let mut i = a;
    while i < b
        invariant
            a <= i <= b <= v@.len(),
            forall|j: int| a <= j < i ==> is_digit(#[trigger] v@[j]),
        decreases b - i,
    {
        if !('0' <= v[i] && v[i] <= '9') {
            assert(v@.subrange(a as int, b as int)[i - a] == v@[i as int]);
            return false;
        }
        i = i + 1;
    }
    assert forall|j: int| 0 <= j < b - a implies is_digit(#[trigger] v@.subrange(a as int, b as int)[j]) by {
        assert(v@.subrange(a as int, b as int)[j] == v@[a + j]);
    }
    true
}

/// The first position `>= a` holding `c` in `v[a..b]`, or `b`.
fn find_char(v: &Vec<char>, a: usize, b: usize, c: char) -> (k: usize)
    requires
        a <= b <= v@.len(),
    ensures
        k == a + len_before(v@.subrange(a as int, b as int), c),
{
    let mut i = a;
    while i < b && v[i] != c
        invariant
            a <= i <= b <= v@.len(),
            forall|j: int| a <= j < i ==> #[trigger] v@[j] != c,
        decreases b - i,
    {
        i = i + 1;
    }
    proof {
        let t = v@.subrange(a as int, b as int);
        lemma_len_before_bound(t, c);
        let k = len_before(t, c);
        if k < i - a {
            assert(t[k as int] == v@[a + k]);
        } else if k > i - a {
            assert(t[i - a] == v@[i as int]);
        }
    }
    i
}

/// Whether `v[a..b]` spells `lower`/`upper` with each letter in either case.
fn matches_ignore_case(v: &Vec<char>, a: usize, b: usize, lower: &str, upper: &str) -> (r: bool)
    requires
        a <= b <= v@.len(),
    ensures
        r == eq_ignore_case(v@.subrange(a as int, b as int), lower@, upper@),
{
    let lo = crate::text::chars_of(lower);
    let up = crate::text::chars_of(upper);
    if b - a != lo.len() || b - a != up.len() {
        return false;
    }
    let mut i: usize = 0;
    while i < lo.len()
        invariant
            a <= b <= v@.len(),
            b - a == lo@.len(),
            b - a == up@.len(),
            lo@ == lower@,
            up@ == upper@,
            i <= lo@.len(),
            forall|j: int|
                0 <= j < i ==> #[trigger] v@.subrange(a as int, b as int)[j] == lo@[j]
                    || v@.subrange(a as int, b as int)[j] == up@[j],
        decreases lo@.len() - i,
    {
        let c = v[a + i];
        assert(v@.subrange(a as int, b as int)[i as int] == c);
        if !(c == lo[i] || c == up[i]) {
            return false;
        }
        i = i + 1;
    }
    true
}

/// Whether `v[a..b]` is a mantissa.
fn mantissa_between(v: &Vec<char>, a: usize, b: usize) -> (r: bool)
    requires
        a <= b <= v@.len(),
    ensures
        r == is_mantissa(v@.subrange(a as int, b as int)),
{
    let dot = find_char(v, a, b, '.');
    let ghost m = v@.subrange(a as int, b as int);
    proof {
        lemma_len_before_bound(m, '.');
    }
    if dot < b {
        assert(m.take(dot - a) =~= v@.subrange(a as int, dot as int));
        assert(m.skip(dot - a + 1) =~= v@.subrange(dot + 1, b as int));
        digits_between(v, a, dot) && digits_between(v, dot + 1, b) && b - a > 1
    } else {
        b > a && digits_between(v, a, b)
    }
}

/// Whether `v[a..b]` is a decimal floating-point numeral (no sign).
fn decimal_float_between(v: &Vec<char>, a: usize, b: usize) -> (r: bool)
    requires
        a <= b <= v@.len(),
    ensures
        r == is_decimal_float(v@.subrange(a as int, b as int)),
{
    let ghost t = v@.subrange(a as int, b as int);
    proof {
        lemma_len_before_bound(t, 'e');
        lemma_len_before_bound(t, 'E');
    }
    let e1 = find_char(v, a, b, 'e');
    let e2 = find_char(v, a, b, 'E');
    let k = if e1 <= e2 { e1 } else { e2 };
    assert(k == a + exponent_pos(t));
    if k >= b {
        return mantissa_between(v, a, b);
    }
    assert(t.take(k - a) =~= v@.subrange(a as int, k as int));
    let ghost x = t.skip(k - a + 1);
    assert(x =~= v@.subrange(k + 1, b as int));
    let es: usize = if k + 1 < b && (v[k + 1] == '-' || v[k + 1] == '+') { k + 2 } else { k + 1 };
    assert(unsigned_part(x) =~= v@.subrange(es as int, b as int));
    mantissa_between(v, a, k) && es < b && digits_between(v, es, b)
}

/// Whether the characters `s` form a token that `f32::from_str` accepts.
pub fn is_float_token(s: &Vec<char>) -> (r: bool)
    ensures
        r == is_float_literal(s@),
{
    let n = s.len();
    let start: usize = if n > 0 && (s[0] == '-' || s[0] == '+') { 1 } else { 0 };
    assert(unsigned_part(s@) =~= s@.subrange(start as int, n as int));
    proof {
        reveal_strlit("inf");
        reveal_strlit("INF");
        reveal_strlit("infinity");
        reveal_strlit("INFINITY");
        reveal_strlit("nan");
        reveal_strlit("NAN");
        assert("inf"@ =~= seq!['i', 'n', 'f']);
        assert("INF"@ =~= seq!['I', 'N', 'F']);
        assert("infinity"@ =~= seq!['i', 'n', 'f', 'i', 'n', 'i', 't', 'y']);
        assert("INFINITY"@ =~= seq!['I', 'N', 'F', 'I', 'N', 'I', 'T', 'Y']);
        assert("nan"@ =~= seq!['n', 'a', 'n']);
        assert("NAN"@ =~= seq!['N', 'A', 'N']);
    }
    let special = matches_ignore_case(s, start, n, "inf", "INF")
        || matches_ignore_case(s, start, n, "infinity", "INFINITY")
        || matches_ignore_case(s, start, n, "nan", "NAN");
    special || decimal_float_between(s, start, n)
}

// ---------------------------------------------------------------------------
// Decimal output
pub open spec fn digit_char(d: nat) -> char {
    (d + 48) as char
}

/// The decimal numeral of `n`, without leading zeros.
pub open spec fn decimal(n: nat) -> Seq<char>
    decreases n,
{
    if n < 10 {
        seq![digit_char(n)]
    } else {
        decimal(n / 10).push(digit_char(n % 10))
    }
}

/// A decimal numeral is a nonempty run of digits with the value it was made from.
pub proof fn lemma_decimal(n: nat)
    ensures
        decimal(n).len() > 0,
        all_digits(decimal(n)),
        digits_value(decimal(n)) == n,
    decreases n,
{
    if n < 10 {
        let d = decimal(n);
        assert(d.drop_last() =~= Seq::<char>::empty());
        assert(digit_value(digit_char(n)) == n);
        assert(digits_value(Seq::<char>::empty()) == 0);
        assert(digits_value(d) == digits_value(d.drop_last()) * 10 + digit_value(d.last()));
    } else {
        lemma_decimal(n / 10);
        let d = decimal(n);
        assert(d.drop_last() =~= decimal(n / 10));
        assert(d.last() == digit_char(n % 10));
        assert(digit_value(digit_char(n % 10)) == n % 10);
        assert((n / 10) * 10 + n % 10 == n) by (nonlinear_arith);
        assert(digits_value(d) == digits_value(d.drop_last()) * 10 + digit_value(d.last()));
        assert(all_digits(d)) by {
            assert forall|i: int| 0 <= i < d.len() implies is_digit(#[trigger] d[i]) by {
                if i < d.len() - 1 {
                    assert(d[i] == decimal(n / 10)[i]);
                }
            }
        }
    }
}

/// Reading the decimal numeral of a positive `isize` value gives that value.
pub proof fn lemma_decimal_parses(n: nat)
    requires
        n <= isize::MAX,
    ensures
        parsed_isize(decimal(n)) == Some(n as isize),
{
    lemma_decimal(n);
    let d = decimal(n);
    assert(is_digit(d[0]));
    assert(unsigned_part(d) == d);
}

/// Appends the decimal numeral of `n` to `out`.
pub fn push_decimal(out: &mut String, n: usize)
    ensures
        final(out)@ == old(out)@ + decimal(n as nat),
    decreases n,
{
    if n >= 10 {
        push_decimal(out, n / 10);
    }
    let d = (n % 10) as u8;
    let c = (d + 48) as char;
    assert(c == digit_char((n % 10) as nat));
    push_char(out, c);
    assert(out@ =~= old(out)@ + decimal(n as nat));
}

/// What `{:?}` prints for a string: the string quoted, with characters escaped.
pub uninterp spec fn debug_str(s: Seq<char>) -> Seq<char>;

/// The `Debug` rendering of `s` (`format!("{:?}", s)`).
#[verifier::external_body]
pub(crate) fn debug_string(s: &str) -> (r: String)
    ensures
        r@ == debug_str(s@),
{
    format!("{:?}", s)
}

} // verus!

//! Character-level helpers shared by the `.obj` reader and writer.
use vstd::prelude::*;

verus! {

/// The Unicode `White_Space` property, as used by `char::is_whitespace`.
pub open spec fn is_ws(c: char) -> bool {
    ||| ('\u{9}' <= c && c <= '\u{d}')
    ||| c == ' '
    ||| c == '\u{85}'
    ||| c == '\u{a0}'
    ||| c == '\u{1680}'
    ||| ('\u{2000}' <= c && c <= '\u{200a}')
    ||| c == '\u{2028}'
    ||| c == '\u{2029}'
    ||| c == '\u{202f}'
    ||| c == '\u{205f}'
    ||| c == '\u{3000}'
}

pub fn is_whitespace(c: char) -> (b: bool)
    ensures
        b == is_ws(c),
{
    ('\u{9}' <= c && c <= '\u{d}') || c == ' ' || c == '\u{85}' || c == '\u{a0}' || c == '\u{1680}'
        || ('\u{2000}' <= c && c <= '\u{200a}') || c == '\u{2028}' || c == '\u{2029}' || c
        == '\u{202f}' || c == '\u{205f}' || c == '\u{3000}'
}

/// The views of a sequence of character vectors.
pub open spec fn views(v: Seq<Vec<char>>) -> Seq<Seq<char>> {
    v.map_values(|w: Vec<char>| w@)
}

/// The characters of `s`, in order.
pub fn chars_of(s: &str) -> (v: Vec<char>)
    ensures
        v@ == s@,
{
    let mut v: Vec<char> = Vec::new();
    for c in it: s.chars()
        invariant
            v@ == it.seq().take(it.index()),
            it.seq() == s@,
    {
        v.push(c);
    }
    v
}

/// Appends one character to a string (`String::push`).
#[verifier::external_body]
pub(crate) fn push_char(s: &mut String, c: char)
    ensures
        final(s)@ == old(s)@.push(c),
{
    s.push(c);
}

/// Appends the characters `v[from..to]` to `out`.
pub fn push_chars(out: &mut String, v: &Vec<char>, from: usize, to: usize)
    requires
        from <= to <= v@.len(),
    ensures
        final(out)@ == old(out)@ + v@.subrange(from as int, to as int),
{
    let mut i = from;
    while i < to
        invariant
            from <= i <= to <= v@.len(),
            out@ == old(out)@ + v@.subrange(from as int, i as int),
        decreases to - i,
    {
        push_char(out, v[i]);
        i = i + 1;
        assert(out@ =~= old(out)@ + v@.subrange(from as int, i as int));
    }
}

/// A new string holding the characters of `v`.
pub fn string_of(v: &Vec<char>) -> (s: String)
    ensures
        s@ == v@,
{
    let mut s = String::new();
    push_chars(&mut s, v, 0, v.len());
    assert(v@.subrange(0, v@.len() as int) =~= v@);
    s
}

/// Whether two strings hold the same characters.
pub fn same_text(a: &str, b: &str) -> (r: bool)
    ensures
        r == (a@ == b@),
{
    let x = chars_of(a);
    let y = chars_of(b);
    if x.len() != y.len() {
        return false;
    }
    let mut i: usize = 0;
    while i < x.len()
        invariant
            x@ == a@,
            y@ == b@,
            x@.len() == y@.len(),
            i <= x@.len(),
            forall|j: int| 0 <= j < i ==> x@[j] == y@[j],
        decreases x@.len() - i,
    {
        if x[i] != y[i] {
            return false;
        }
        i = i + 1;
    }
    assert(x@ =~= y@);
    true
}

// ---------------------------------------------------------------------------
// Words (`str::split_whitespace`)
/// Length of the leading run of non-whitespace characters.
pub open spec fn word_len(s: Seq<char>) -> nat
    decreases s.len(),
{
    if s.len() == 0 || is_ws(s[0]) {
        0
    } else {
        1 + word_len(s.drop_first())
    }
}

pub proof fn lemma_word_len_bound(s: Seq<char>)
    ensures
        word_len(s) <= s.len(),
        s.len() > 0 && !is_ws(s[0]) ==> word_len(s) >= 1,
        forall|j: int| 0 <= j < word_len(s) ==> !is_ws(#[trigger] s[j]),
        word_len(s) < s.len() ==> is_ws(s[word_len(s) as int]),
    decreases s.len(),
{
    if s.len() > 0 && !is_ws(s[0]) {
        lemma_word_len_bound(s.drop_first());
        assert forall|j: int| 0 <= j < word_len(s) implies !is_ws(#[trigger] s[j]) by {
            if j > 0 {
                assert(s[j] == s.drop_first()[j - 1]);
            }
        }
    }
}

/// The whitespace-separated words of `s`, as `str::split_whitespace` yields them.
pub open spec fn words(s: Seq<char>) -> Seq<Seq<char>>
    decreases s.len(),
{
    if s.len() == 0 {
        seq![]
    } else if is_ws(s[0]) {
        words(s.drop_first())
    } else {
        proof {
            lemma_word_len_bound(s);
        }
        seq![s.take(word_len(s) as int)] + words(s.skip(word_len(s) as int))
    }
}

pub proof fn lemma_word_len_exact(s: Seq<char>, k: int)
    requires
        0 <= k <= s.len(),
        forall|j: int| 0 <= j < k ==> !is_ws(#[trigger] s[j]),
        k == s.len() || is_ws(s[k]),
    ensures
        word_len(s) == k,
    decreases k,
{
    if k > 0 {
        assert forall|j: int| 0 <= j < k - 1 implies !is_ws(#[trigger] s.drop_first()[j]) by {
            assert(s.drop_first()[j] == s[j + 1]);
        }
        lemma_word_len_exact(s.drop_first(), k - 1);
    }
}

/// The words of `line`, in order.
pub fn split_words(line: &Vec<char>) -> (ws: Vec<Vec<char>>)
    ensures
        views(ws@) == words(line@),
{
    let n = line.len();
    let mut ws: Vec<Vec<char>> = Vec::new();
    let mut i: usize = 0;
    assert(line@.skip(0) =~= line@);
    assert(views(ws@) + words(line@) =~= words(line@));
    while i < n
        invariant
            n == line@.len(),
            i <= n,
            words(line@) == views(ws@) + words(line@.skip(i as int)),
        decreases n - i,
    {
        let ghost rest = line@.skip(i as int);
        if is_whitespace(line[i]) {
            assert(rest.drop_first() =~= line@.skip(i + 1));
            i = i + 1;
        } else {
            let start = i;
            let mut w: Vec<char> = Vec::new();
            while i < n && !is_whitespace(line[i])
                invariant
                    n == line@.len(),
                    start <= i <= n,
                    w@ == line@.subrange(start as int, i as int),
                    forall|j: int| start <= j < i ==> !is_ws(#[trigger] line@[j]),
                decreases n - i,
            {
                w.push(line[i]);
                i = i + 1;
                assert(w@ =~= line@.subrange(start as int, i as int));
            }
            proof {
                assert forall|j: int| 0 <= j < i - start implies !is_ws(#[trigger] rest[j]) by {
                    assert(rest[j] == line@[start + j]);
                }
                lemma_word_len_exact(rest, i - start);
                assert(rest.take(i - start) =~= w@);
                assert(rest.skip(i - start) =~= line@.skip(i as int));
            }
            let ghost old_views = views(ws@);
            ws.push(w);
            assert(views(ws@) =~= old_views.push(w@));
        }
    }
    assert(line@.skip(n as int) =~= Seq::<char>::empty());
    assert(views(ws@) + words(Seq::<char>::empty()) =~= views(ws@));
    ws
}


// ---------------------------------------------------------------------------
// Trimming (`str::trim`)
/// `s` without its leading whitespace.
pub open spec fn trim_start(s: Seq<char>) -> Seq<char>
    decreases s.len(),
{
    if s.len() > 0 && is_ws(s[0]) {
        trim_start(s.drop_first())
    } else {
        s
    }
}

/// `s` without its trailing whitespace.
pub open spec fn trim_end(s: Seq<char>) -> Seq<char>
    decreases s.len(),
{
    if s.len() > 0 && is_ws(s.last()) {
        trim_end(s.drop_last())
    } else {
        s
    }
}

/// `s` without leading and trailing whitespace, as `str::trim` gives it.
pub open spec fn trim(s: Seq<char>) -> Seq<char> {
    trim_end(trim_start(s))
}

proof fn lemma_trim_start(s: Seq<char>, k: int)
    requires
        0 <= k <= s.len(),
        forall|j: int| 0 <= j < k ==> is_ws(#[trigger] s[j]),
        k == s.len() || !is_ws(s[k]),
    ensures
        trim_start(s) == s.skip(k),
    decreases k,
{
    if k == 0 {
        assert(s.skip(0) =~= s);
    } else {
        assert forall|j: int| 0 <= j < k - 1 implies is_ws(#[trigger] s.drop_first()[j]) by {
            assert(s.drop_first()[j] == s[j + 1]);
        }
        lemma_trim_start(s.drop_first(), k - 1);
        assert(s.drop_first().skip(k - 1) =~= s.skip(k));
    }
}

proof fn lemma_trim_end(s: Seq<char>, m: int)
    requires
        0 <= m <= s.len(),
        forall|j: int| m <= j < s.len() ==> is_ws(#[trigger] s[j]),
        m == 0 || !is_ws(s[m - 1]),
    ensures
        trim_end(s) == s.take(m),
    decreases s.len() - m,
{
    if m == s.len() {
        assert(s.take(m) =~= s);
    } else {
        assert forall|j: int| m <= j < s.drop_last().len() implies is_ws(#[trigger] s.drop_last()[j]) by {
            assert(s.drop_last()[j] == s[j]);
        }
        lemma_trim_end(s.drop_last(), m);
        assert(s.drop_last().take(m) =~= s.take(m));
    }
}

/// The characters of `trim(v[from..])`, as a new string.
pub fn trimmed_string_from(v: &Vec<char>, from: usize) -> (s: String)
    requires
        from <= v@.len(),
    ensures
        s@ == trim(v@.skip(from as int)),
{
    let n = v.len();
    let mut a = from;
    while a < n && is_whitespace(v[a])
        invariant
            from <= a <= n == v@.len(),
            forall|j: int| from <= j < a ==> is_ws(#[trigger] v@[j]),
        decreases n - a,
    {
        a = a + 1;
    }
    let mut b = n;
    while b > a && is_whitespace(v[b - 1])
        invariant
            a <= b <= n == v@.len(),
            forall|j: int| b <= j < n ==> is_ws(#[trigger] v@[j]),
        decreases b - a,
    {
        b = b - 1;
    }
    proof {
        let t = v@.skip(from as int);
        assert forall|j: int| 0 <= j < a - from implies is_ws(#[trigger] t[j]) by {
            assert(t[j] == v@[from + j]);
        }
        lemma_trim_start(t, a - from);
        let u = t.skip(a - from);
        assert(u =~= v@.skip(a as int));
        assert forall|j: int| b - a <= j < u.len() implies is_ws(#[trigger] u[j]) by {
            assert(u[j] == v@[a + j]);
        }
        if b > a {
            assert(u[b - a - 1] == v@[b - 1]);
        }
        lemma_trim_end(u, b - a);
        assert(u.take(b - a) =~= v@.subrange(a as int, b as int));
    }
    let mut s = String::new();
    push_chars(&mut s, v, a, b);
    s
}

// ---------------------------------------------------------------------------
// Splitting at a separator character
/// Number of characters before the first `c` in `s` (all of `s` when there is none).
pub open spec fn len_before(s: Seq<char>, c: char) -> nat
    decreases s.len(),
{
    if s.len() == 0 || s[0] == c {
        0
    } else {
        1 + len_before(s.drop_first(), c)
    }
}

pub proof fn lemma_len_before_bound(s: Seq<char>, c: char)
    ensures
        len_before(s, c) <= s.len(),
        forall|j: int| 0 <= j < len_before(s, c) ==> #[trigger] s[j] != c,
        len_before(s, c) < s.len() ==> s[len_before(s, c) as int] == c,
    decreases s.len(),
{
    if s.len() > 0 && s[0] != c {
        lemma_len_before_bound(s.drop_first(), c);
        assert forall|j: int| 0 <= j < len_before(s, c) implies #[trigger] s[j] != c by {
            if j > 0 {
                assert(s[j] == s.drop_first()[j - 1]);
            }
        }
    }
}

pub proof fn lemma_len_before_exact(s: Seq<char>, c: char, k: int)
    requires
        0 <= k <= s.len(),
        forall|j: int| 0 <= j < k ==> #[trigger] s[j] != c,
        k == s.len() || s[k] == c,
    ensures
        len_before(s, c) == k,
    decreases k,
{
    if k > 0 {
        assert forall|j: int| 0 <= j < k - 1 implies #[trigger] s.drop_first()[j] != c by {
            assert(s.drop_first()[j] == s[j + 1]);
        }
        lemma_len_before_exact(s.drop_first(), c, k - 1);
    }
}

/// The pieces of `s` between occurrences of `c`, as `str::split(c)` yields them.
pub open spec fn split_at_char(s: Seq<char>, c: char) -> Seq<Seq<char>>
    decreases s.len(),
{
    let k = len_before(s, c);
    if k >= s.len() {
        seq![s]
    } else {
        seq![s.take(k as int)] + split_at_char(s.skip(k + 1 as int), c)
    }
}

/// The pieces of `s` between occurrences of `c`.
pub fn split_char(s: &Vec<char>, c: char) -> (pieces: Vec<Vec<char>>)
    ensures
        views(pieces@) == split_at_char(s@, c),
{
    let n = s.len();
    let mut pieces: Vec<Vec<char>> = Vec::new();
    let mut i: usize = 0;
    assert(s@.skip(0) =~= s@);
    assert(views(pieces@) + split_at_char(s@, c) =~= split_at_char(s@, c));
    loop
        invariant
            n == s@.len(),
            i <= n,
            split_at_char(s@, c) == views(pieces@) + split_at_char(s@.skip(i as int), c),
        decreases n - i,
    {
        let ghost rest = s@.skip(i as int);
        let start = i;
        let mut w: Vec<char> = Vec::new();
        while i < n && s[i] != c
            invariant
                n == s@.len(),
                start <= i <= n,
                w@ == s@.subrange(start as int, i as int),
                forall|j: int| start <= j < i ==> #[trigger] s@[j] != c,
            decreases n - i,
        {
            w.push(s[i]);
            i = i + 1;
            assert(w@ =~= s@.subrange(start as int, i as int));
        }
        proof {
            assert forall|j: int| 0 <= j < i - start implies #[trigger] rest[j] != c by {
                assert(rest[j] == s@[start + j]);
            }
            lemma_len_before_exact(rest, c, i - start);
        }
        let ghost old_views = views(pieces@);
        if i == n {
            assert(rest =~= w@);
            pieces.push(w);
            assert(views(pieces@) =~= old_views.push(w@));
            assert(seq![rest] =~= seq![w@]);
            return pieces;
        }
        assert(rest.take(i - start) =~= w@);
        assert(rest.skip(i - start + 1) =~= s@.skip(i + 1));
        pieces.push(w);
        assert(views(pieces@) =~= old_views.push(w@));
        i = i + 1;
    }
}

/// The lines of `s`, as `BufRead::lines` yields them: split at `'\n'`, with one `'\r'`
/// removed from the end of each line that a `'\n'` ended, and no final empty line.
pub open spec fn split_lines(s: Seq<char>) -> Seq<Seq<char>>
    decreases s.len(),
{
    if s.len() == 0 {
        seq![]
    } else {
        let k = len_before(s, '\n');
        if k >= s.len() {
            seq![s]
        } else {
            let l = s.take(k as int);
            let l = if l.len() > 0 && l.last() == '\r' {
                l.drop_last()
            } else {
                l
            };
            seq![l] + split_lines(s.skip(k + 1 as int))
        }
    }
}

/// The lines of `s`, as `BufRead::lines` yields them.
pub fn lines_of(s: &Vec<char>) -> (lines: Vec<Vec<char>>)
    ensures
        views(lines@) == split_lines(s@),
{
    let n = s.len();
    let mut lines: Vec<Vec<char>> = Vec::new();
    let mut i: usize = 0;
    assert(s@.skip(0) =~= s@);
    assert(views(lines@) + split_lines(s@) =~= split_lines(s@));
    while i < n
        invariant
            n == s@.len(),
            i <= n,
            split_lines(s@) == views(lines@) + split_lines(s@.skip(i as int)),
        decreases n - i,
    {
        let ghost rest = s@.skip(i as int);
        let start = i;
        let mut w: Vec<char> = Vec::new();
        while i < n && s[i] != '\n'
            invariant
                n == s@.len(),
                start <= i <= n,
                w@ == s@.subrange(start as int, i as int),
                forall|j: int| start <= j < i ==> #[trigger] s@[j] != '\n',
            decreases n - i,
        {
            w.push(s[i]);
            i = i + 1;
            assert(w@ =~= s@.subrange(start as int, i as int));
        }
        proof {
            assert forall|j: int| 0 <= j < i - start implies #[trigger] rest[j] != '\n' by {
                assert(rest[j] == s@[start + j]);
            }
            lemma_len_before_exact(rest, '\n', i - start);
        }
        let ghost old_views = views(lines@);
        if i == n {
            assert(rest =~= w@);
            lines.push(w);
            assert(views(lines@) =~= old_views.push(w@));
            assert(s@.skip(n as int) =~= Seq::<char>::empty());
            assert(views(lines@) + split_lines(s@.skip(n as int)) =~= views(lines@));
            return lines;
        }
        assert(rest.take(i - start) =~= w@);
        assert(rest.skip(i - start + 1) =~= s@.skip(i + 1));
        let wl = w.len();
        if wl > 0 && w[wl - 1] == '\r' {
            let ghost before = w@;
            w.pop();
            assert(w@ =~= before.drop_last());
        }
        lines.push(w);
        assert(views(lines@) =~= old_views.push(w@));
        i = i + 1;
    }
    assert(s@.skip(n as int) =~= Seq::<char>::empty());
    assert(views(lines@) + split_lines(s@.skip(n as int)) =~= views(lines@));
    lines
}

// ---------------------------------------------------------------------------
// Byte lengths of UTF-8 text
/// Number of bytes in the UTF-8 encoding of `c`.
pub open spec fn utf8_width(c: char) -> nat {
    if (c as u32) < 0x80 {
        1
    } else if (c as u32) < 0x800 {
        2
    } else if (c as u32) < 0x10000 {
        3
    } else {
        4
    }
}

pub fn char_utf8_width(c: char) -> (w: usize)
    ensures
        w == utf8_width(c),
{
    let u = c as u32;
    if u < 0x80 {
        1
    } else if u < 0x800 {
        2
    } else if u < 0x10000 {
        3
    } else {
        4
    }
}

/// Number of bytes in the UTF-8 encoding of `s` (what `str::len` returns).
pub open spec fn byte_len(s: Seq<char>) -> nat
    decreases s.len(),
{
    if s.len() == 0 {
        0
    } else {
        byte_len(s.drop_last()) + utf8_width(s.last())
    }
}

proof fn lemma_byte_len_prefix(s: Seq<char>, i: int)
    requires
        0 <= i <= s.len(),
    ensures
        byte_len(s.take(i)) <= byte_len(s),
    decreases s.len() - i,
{
    if i < s.len() {
        lemma_byte_len_prefix(s, i + 1);
        assert(s.take(i + 1).drop_last() =~= s.take(i));
    } else {
        assert(s.take(i) =~= s);
    }
}

/// Whether the UTF-8 encoding of `v` is longer than `k` bytes.
pub fn byte_len_exceeds(v: &Vec<char>, k: usize) -> (b: bool)
    requires
        k < usize::MAX - 4,
    ensures
        b == (byte_len(v@) > k),
{
    let n = v.len();
    let mut acc: usize = 0;
    let mut i: usize = 0;
    assert(v@.take(0) =~= Seq::<char>::empty());
    while i < n
        invariant
            n == v@.len(),
            i <= n,
            acc == byte_len(v@.take(i as int)),
            acc <= k,
            k < usize::MAX - 4,
        decreases n - i,
    {
        assert(v@.take(i + 1).drop_last() =~= v@.take(i as int));
        acc = acc + char_utf8_width(v[i]);
        i = i + 1;
        if acc > k {
            proof {
                lemma_byte_len_prefix(v@, i as int);
            }
            return true;
        }
    }
    assert(v@.take(n as int) =~= v@);
    false
}

/// Number of leading characters of `s` whose encoding is exactly the first `k` bytes of
/// the encoding of `s`; `None` when byte `k` is not on a character boundary.
pub open spec fn chars_in_bytes(s: Seq<char>, k: nat) -> Option<nat>
    decreases s.len(),
{
    if k == 0 {
        Some(0)
    } else if s.len() == 0 || utf8_width(s[0]) > k {
        None
    } else {
        match chars_in_bytes(s.drop_first(), (k - utf8_width(s[0])) as nat) {
            Some(n) => Some(n + 1),
            None => None,
        }
    }
}

pub proof fn lemma_chars_in_bytes_bound(s: Seq<char>, k: nat)
    ensures
        chars_in_bytes(s, k) matches Some(n) ==> n <= s.len(),
    decreases s.len(),
{
    if k > 0 && s.len() > 0 && utf8_width(s[0]) <= k {
        lemma_chars_in_bytes_bound(s.drop_first(), (k - utf8_width(s[0])) as nat);
    }
}

/// The characters of `s` after its first `k` bytes (`&s[k..]`), when that is a boundary.
pub open spec fn after_bytes(s: Seq<char>, k: nat) -> Seq<char> {
    s.skip(chars_in_bytes(s, k).unwrap() as int)
}

/// Number of characters in the first `k` bytes of `v`, when byte `k` is a boundary.
pub fn chars_within_bytes(v: &Vec<char>, k: usize) -> (r: Option<usize>)
    ensures
        r matches Some(n) ==> chars_in_bytes(v@, k as nat) == Some(n as nat),
        r is None ==> chars_in_bytes(v@, k as nat) is None,
{
    let n = v.len();
    let mut i: usize = 0;
    let mut left: usize = k;
    assert(v@.skip(0) =~= v@);
    while left > 0
        invariant
            n == v@.len(),
            i <= n,
            left <= k,
            chars_in_bytes(v@, k as nat) == (match chars_in_bytes(v@.skip(i as int), left as nat) {
                Some(m) => Some((m + i) as nat),
                None => None,
            }),
        decreases left,
    {
        if i == n {
            return None;
        }
        let w = char_utf8_width(v[i]);
        assert(v@.skip(i as int)[0] == v@[i as int]);
        if w > left {
            return None;
        }
        assert(v@.skip(i as int).drop_first() =~= v@.skip(i + 1));
        left = left - w;
        i = i + 1;
    }
    Some(i)
}

// ---------------------------------------------------------------------------
// Joining words
/// The words of `ws` joined with single spaces.
pub open spec fn join_with_spaces(ws: Seq<Seq<char>>) -> Seq<char>
    decreases ws.len(),
{
    if ws.len() == 0 {
        seq![]
    } else if ws.len() == 1 {
        ws[0]
    } else {
        join_with_spaces(ws.drop_last()) + seq![' '] + ws.last()
    }
}

/// The words `ws[from..]` joined with single spaces.
pub fn join_words_from(ws: &Vec<Vec<char>>, from: usize) -> (s: String)
    requires
        from < ws@.len(),
    ensures
        s@ == join_with_spaces(views(ws@).skip(from as int)),
{
    let n = ws.len();
    let mut s = String::new();
    push_chars(&mut s, &ws[from], 0, ws[from].len());
    let mut i = from + 1;
    proof {
        assert(ws[from as int]@.subrange(0, ws[from as int]@.len() as int) =~= ws[from as int]@);
        assert(views(ws@).subrange(from as int, i as int) =~= seq![ws[from as int]@]);
    }
    while i < n
        invariant
            n == ws@.len(),
            from < i <= n,
            s@ == join_with_spaces(views(ws@).subrange(from as int, i as int)),
        decreases n - i,
    {
        push_char(&mut s, ' ');
        push_chars(&mut s, &ws[i], 0, ws[i].len());
        proof {
            assert(ws[i as int]@.subrange(0, ws[i as int]@.len() as int) =~= ws[i as int]@);
            let sub = views(ws@).subrange(from as int, i + 1);
            assert(sub.drop_last() =~= views(ws@).subrange(from as int, i as int));
            assert(sub.last() == ws[i as int]@);
        }
        i = i + 1;
    }
    assert(views(ws@).subrange(from as int, n as int) =~= views(ws@).skip(from as int));
    s
}


// ---------------------------------------------------------------------------
// Facts about words, trimming and joining
/// A text without whitespace, that is not empty.
pub open spec fn is_word(w: Seq<char>) -> bool {
    w.len() > 0 && forall|i: int| 0 <= i < w.len() ==> !is_ws(#[trigger] w[i])
}

/// The words of two texts that whitespace (or an end) separates are the words of each.
pub proof fn lemma_words_concat(a: Seq<char>, b: Seq<char>)
    requires
        a.len() == 0 || b.len() == 0 || is_ws(a.last()) || is_ws(b[0]),
    ensures
        words(a + b) == words(a) + words(b),
    decreases a.len(),
{
    if a.len() == 0 {
        assert(a + b =~= b);
        assert(words(a) + words(b) =~= words(b));
    } else if is_ws(a[0]) {
        assert((a + b).drop_first() =~= a.drop_first() + b);
        lemma_words_concat(a.drop_first(), b);
    } else {
        let k = word_len(a);
        lemma_word_len_bound(a);
        if k < a.len() {
            assert forall|j: int| 0 <= j < k implies !is_ws(#[trigger] (a + b)[j]) by {
                assert((a + b)[j] == a[j]);
            }
            assert((a + b)[k as int] == a[k as int]);
            lemma_word_len_exact(a + b, k as int);
            assert((a + b).take(k as int) =~= a.take(k as int));
            assert((a + b).skip(k as int) =~= a.skip(k as int) + b);
            assert(a.skip(k as int).last() == a.last());
            lemma_words_concat(a.skip(k as int), b);
            assert(words(a + b) =~= seq![a.take(k as int)] + words(a.skip(k as int) + b));
            assert(words(a) =~= seq![a.take(k as int)] + words(a.skip(k as int)));
        } else {
            assert(!is_ws(a.last()));
            assert forall|j: int| 0 <= j < a.len() implies !is_ws(#[trigger] (a + b)[j]) by {
                assert((a + b)[j] == a[j]);
            }
            if b.len() > 0 {
                assert((a + b)[a.len() as int] == b[0]);
            }
            lemma_word_len_exact(a + b, a.len() as int);
            assert((a + b).take(a.len() as int) =~= a);
            assert((a + b).skip(a.len() as int) =~= b);
            assert(a.take(k as int) =~= a);
            assert(a.skip(k as int) =~= Seq::<char>::empty());
            assert(words(a) =~= seq![a]);
        }
    }
}

/// A word is its only word.
pub proof fn lemma_words_single(w: Seq<char>)
    requires
        is_word(w),
    ensures
        words(w) == seq![w],
{
    assert(!is_ws(w[0]));
    lemma_word_len_exact(w, w.len() as int);
    assert(w.take(w.len() as int) =~= w);
    assert(w.skip(w.len() as int) =~= Seq::<char>::empty());
    assert(words(Seq::<char>::empty()) =~= Seq::<Seq<char>>::empty());
    assert(words(w) =~= seq![w]);
}

/// Joining words with single spaces and splitting the result gives the words back.
pub proof fn lemma_words_join(ws: Seq<Seq<char>>)
    requires
        forall|i: int| 0 <= i < ws.len() ==> is_word(#[trigger] ws[i]),
    ensures
        words(join_with_spaces(ws)) == ws,
    decreases ws.len(),
{
    if ws.len() == 0 {
        assert(words(Seq::<char>::empty()) =~= Seq::<Seq<char>>::empty());
        assert(ws =~= Seq::<Seq<char>>::empty());
    } else if ws.len() == 1 {
        lemma_words_single(ws[0]);
        assert(ws =~= seq![ws[0]]);
    } else {
        let init = ws.drop_last();
        assert forall|i: int| 0 <= i < init.len() implies is_word(#[trigger] init[i]) by {
            assert(init[i] == ws[i]);
        }
        lemma_words_join(init);
        let j = join_with_spaces(init);
        assert(is_word(ws.last()));
        lemma_words_concat(j, seq![' ']);
        lemma_words_concat(j + seq![' '], ws.last());
        lemma_words_single(ws.last());
        assert(words(seq![' ']) =~= Seq::<Seq<char>>::empty()) by {
            assert(is_ws(seq![' '][0]));
            assert(seq![' '].drop_first() =~= Seq::<char>::empty());
            assert(words(Seq::<char>::empty()) =~= Seq::<Seq<char>>::empty());
        }
        assert(words(j + seq![' ']) =~= init);
        assert(ws =~= init.push(ws.last()));
    }
}

/// A text that neither starts nor ends with whitespace is its own trimming, also after
/// one leading space.
pub proof fn lemma_trim_plain(s: Seq<char>)
    requires
        s.len() > 0,
        !is_ws(s[0]),
        !is_ws(s.last()),
    ensures
        trim(s) == s,
        trim(seq![' '] + s) == s,
{
    lemma_trim_start(s, 0);
    assert(s.skip(0) =~= s);
    lemma_trim_end(s, s.len() as int);
    assert(s.take(s.len() as int) =~= s);
    let t = seq![' '] + s;
    assert(t[1] == s[0]);
    lemma_trim_start(t, 1);
    assert(t.skip(1) =~= s);
}

/// Joined words neither start nor end with whitespace.
pub proof fn lemma_join_ends(ws: Seq<Seq<char>>)
    requires
        ws.len() > 0,
        forall|i: int| 0 <= i < ws.len() ==> is_word(#[trigger] ws[i]),
    ensures
        join_with_spaces(ws).len() > 0,
        !is_ws(join_with_spaces(ws)[0]),
        !is_ws(join_with_spaces(ws).last()),
        forall|i: int| 0 <= i < join_with_spaces(ws).len() ==> #[trigger] join_with_spaces(ws)[i] != '\n',
    decreases ws.len(),
{
    let j = join_with_spaces(ws);
    if ws.len() == 1 {
        assert(is_word(ws[0]));
    } else {
        let init = ws.drop_last();
        assert forall|i: int| 0 <= i < init.len() implies is_word(#[trigger] init[i]) by {
            assert(init[i] == ws[i]);
        }
        lemma_join_ends(init);
        let ji = join_with_spaces(init);
        assert(is_word(ws.last()));
        assert(j == ji + seq![' '] + ws.last());
        assert(j[0] == ji[0]);
        assert(j.last() == ws.last().last());
        assert forall|i: int| 0 <= i < j.len() implies #[trigger] j[i] != '\n' by {
            if i < ji.len() {
                assert(j[i] == ji[i]);
            } else if i > ji.len() {
                assert(j[i] == ws.last()[i - ji.len() - 1]);
            }
        }
    }
}

/// Every word that `words` yields is a word.
pub proof fn lemma_words_are_words(s: Seq<char>)
    ensures
        forall|i: int| 0 <= i < words(s).len() ==> is_word(#[trigger] words(s)[i]),
    decreases s.len(),
{
    if s.len() == 0 {
        assert(words(s).len() == 0);
    } else if is_ws(s[0]) {
        lemma_words_are_words(s.drop_first());
        assert(words(s) == words(s.drop_first()));
    } else {
        lemma_word_len_bound(s);
        let k = word_len(s);
        lemma_words_are_words(s.skip(k as int));
        let w = s.take(k as int);
        assert forall|j: int| 0 <= j < w.len() implies !is_ws(#[trigger] w[j]) by {
            assert(w[j] == s[j]);
        }
        assert(is_word(w));
        assert(words(s) == seq![w] + words(s.skip(k as int)));
        assert forall|i: int| 0 <= i < words(s).len() implies is_word(#[trigger] words(s)[i]) by {
            if i > 0 {
                assert(words(s)[i] == words(s.skip(k as int))[i - 1]);
            }
        }
    }
}

/// A text takes at least one byte per character.
pub proof fn lemma_byte_len_ge(s: Seq<char>)
    ensures
        byte_len(s) >= s.len(),
    decreases s.len(),
{
    if s.len() > 0 {
        lemma_byte_len_ge(s.drop_last());
    }
}

/// A text without a newline, that neither starts nor ends with whitespace unless empty.
pub open spec fn plain_name(n: Seq<char>) -> bool {
    &&& forall|i: int| 0 <= i < n.len() ==> #[trigger] n[i] != '\n'
    &&& n.len() > 0 ==> !is_ws(n[0]) && !is_ws(n.last())
}

/// No line that `split_lines` yields holds a newline.
pub proof fn lemma_lines_no_newline(s: Seq<char>)
    ensures
        forall|i: int, j: int|
            0 <= i < split_lines(s).len() && 0 <= j < split_lines(s)[i].len() ==> #[trigger] split_lines(s)[i][j]
                != '\n',
    decreases s.len(),
{
    if s.len() > 0 {
        let k = len_before(s, '\n');
        lemma_len_before_bound(s, '\n');
        if k < s.len() {
            lemma_lines_no_newline(s.skip(k + 1 as int));
            let l0 = s.take(k as int);
            let l = if l0.len() > 0 && l0.last() == '\r' {
                l0.drop_last()
            } else {
                l0
            };
            let rest = split_lines(s.skip(k + 1 as int));
            assert(split_lines(s) == seq![l] + rest);
            assert forall|i: int, j: int|
                0 <= i < split_lines(s).len() && 0 <= j < split_lines(s)[i].len() implies #[trigger] split_lines(
                s,
            )[i][j] != '\n' by {
                if i == 0 {
                    assert(split_lines(s)[0] == l);
                    assert(l[j] == s[j]);
                } else {
                    assert(split_lines(s)[i] == rest[i - 1]);
                }
            }
        } else {
            assert(split_lines(s) == seq![s]);
            assert forall|i: int, j: int|
                0 <= i < split_lines(s).len() && 0 <= j < split_lines(s)[i].len() implies #[trigger] split_lines(
                s,
            )[i][j] != '\n' by {
                assert(split_lines(s)[i] == s);
            }
        }
    }
}

proof fn lemma_trim_start_shape(s: Seq<char>)
    requires
        forall|i: int| 0 <= i < s.len() ==> #[trigger] s[i] != '\n',
    ensures
        forall|i: int| 0 <= i < trim_start(s).len() ==> #[trigger] trim_start(s)[i] != '\n',
        trim_start(s).len() > 0 ==> !is_ws(trim_start(s)[0]),
        trim_start(s).len() > 0 ==> trim_start(s).last() == s.last(),
    decreases s.len(),
{
    if s.len() > 0 && is_ws(s[0]) {
        assert forall|i: int| 0 <= i < s.drop_first().len() implies #[trigger] s.drop_first()[i] != '\n' by {
            assert(s.drop_first()[i] == s[i + 1]);
        }
        lemma_trim_start_shape(s.drop_first());
    }
}

proof fn lemma_trim_end_shape(s: Seq<char>)
    requires
        forall|i: int| 0 <= i < s.len() ==> #[trigger] s[i] != '\n',
    ensures
        forall|i: int| 0 <= i < trim_end(s).len() ==> #[trigger] trim_end(s)[i] != '\n',
        trim_end(s).len() > 0 ==> !is_ws(trim_end(s).last()),
        trim_end(s).len() > 0 ==> trim_end(s)[0] == s[0],
    decreases s.len(),
{
    if s.len() > 0 && is_ws(s.last()) {
        assert forall|i: int| 0 <= i < s.drop_last().len() implies #[trigger] s.drop_last()[i] != '\n' by {
            assert(s.drop_last()[i] == s[i]);
        }
        lemma_trim_end_shape(s.drop_last());
    }
}

/// Trimming a text without a newline gives a plain name.
pub proof fn lemma_trim_plain_name(s: Seq<char>)
    requires
        forall|i: int| 0 <= i < s.len() ==> #[trigger] s[i] != '\n',
    ensures
        plain_name(trim(s)),
{
    lemma_trim_start_shape(s);
    lemma_trim_end_shape(trim_start(s));
}

} // verus!

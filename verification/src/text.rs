//! Character-level helpers over `str` and `String`, with their specifications.

use vstd::prelude::*;

verus! {

/// `String::push` appends one character to the end of the string.
pub assume_specification[ String::push ](string: &mut String, ch: char)
    ensures
        final(string)@ == old(string)@.push(ch),
;

/// `pat` occurs in `s` at index `p`.
pub open spec fn matches_at(s: Seq<char>, pat: Seq<char>, p: int) -> bool {
    0 <= p && p + pat.len() <= s.len() && s.subrange(p, p + pat.len()) == pat
}

/// The first index at or after `from` where `pat` occurs in `s`.
pub open spec fn find_from(s: Seq<char>, pat: Seq<char>, from: int) -> Option<int>
    decreases s.len() + 1 - from,
{
    if from < 0 || from + pat.len() > s.len() {
        None
    } else if matches_at(s, pat, from) {
        Some(from)
    } else {
        find_from(s, pat, from + 1)
    }
}

/// The characters that carry the Unicode `White_Space` property, which is
/// what `char::is_whitespace` tests.
pub open spec fn is_white_space(c: char) -> bool {
    ||| c == '\t'
    ||| c == '\n'
    ||| c == '\u{0B}'
    ||| c == '\u{0C}'
    ||| c == '\r'
    ||| c == ' '
    ||| c == '\u{85}'
    ||| c == '\u{A0}'
    ||| c == '\u{1680}'
    ||| ('\u{2000}' <= c && c <= '\u{200A}')
    ||| c == '\u{2028}'
    ||| c == '\u{2029}'
    ||| c == '\u{202F}'
    ||| c == '\u{205F}'
    ||| c == '\u{3000}'
}

/// Length of `s` once trailing white space is removed.
pub open spec fn trim_end_len(s: Seq<char>) -> nat
    decreases s.len(),
{
    if s.len() > 0 && is_white_space(s.last()) {
        trim_end_len(s.drop_last())
    } else {
        s.len()
    }
}

/// `s` without trailing white space (`str::trim_end`).
pub open spec fn trim_end(s: Seq<char>) -> Seq<char> {
    s.take(trim_end_len(s) as int)
}

/// Number of leading white-space characters of `s`.
pub open spec fn trim_start_count(s: Seq<char>) -> nat
    decreases s.len(),
{
    if s.len() > 0 && is_white_space(s[0]) {
        1 + trim_start_count(s.drop_first())
    } else {
        0
    }
}

/// `s` without leading or trailing white space (`str::trim`).
pub open spec fn trim(s: Seq<char>) -> Seq<char> {
    trim_end(s).skip(trim_start_count(trim_end(s)) as int)
}

/// Every character of `s` is white space, so `s.trim()` is empty.
pub open spec fn is_blank(s: Seq<char>) -> bool {
    forall|i: int| 0 <= i < s.len() ==> is_white_space(#[trigger] s[i])
}

/// ASCII lower-casing of one character (`char::to_ascii_lowercase`).
pub open spec fn ascii_lower(c: char) -> char {
    if 'A' <= c && c <= 'Z' {
        ((c as u32) + 32) as char
    } else {
        c
    }
}

/// `a` and `b` are equal up to ASCII case (`str::eq_ignore_ascii_case`).
pub open spec fn eq_ignore_ascii_case(a: Seq<char>, b: Seq<char>) -> bool {
    &&& a.len() == b.len()
    &&& forall|i: int| 0 <= i < a.len() ==> ascii_lower(#[trigger] a[i]) == ascii_lower(b[i])
}

/// The characters of `s`, in order.
pub fn chars_of(s: &str) -> (r: Vec<char>)
    ensures
        r@ == s@,
{
    let mut out: Vec<char> = Vec::new();
    for c in it: s.chars()
        invariant
            out@ == it.seq().take(it.index() as int),
    {
        out.push(c);
    }
    out
}

/// Whether `a` and `b` hold the same characters.
pub fn chars_equal(a: &[char], b: &[char]) -> (r: bool)
    ensures
        r == (a@ == b@),
{
    if a.len() != b.len() {
        return false;
    }
    let mut k: usize = 0;
    while k < a.len()
        invariant
            a@.len() == b@.len(),
            k <= a@.len(),
            forall|m: int| 0 <= m < k ==> a@[m] == b@[m],
        decreases a.len() - k,
    {
        if a[k] != b[k] {
            return false;
        }
        k += 1;
    }
    assert(a@ =~= b@);
    true
}

/// Whether the strings `a` and `b` are equal.
pub fn str_equal(a: &str, b: &str) -> (r: bool)
    ensures
        r == (a@ == b@),
{
    let ac = chars_of(a);
    let bc = chars_of(b);
    chars_equal(ac.as_slice(), bc.as_slice())
}

/// Append `s[from..to]` to `out`.
pub fn push_range(out: &mut String, s: &[char], from: usize, to: usize)
    requires
        from <= to <= s@.len(),
    ensures
        final(out)@ == old(out)@ + s@.subrange(from as int, to as int),
{
    let mut k = from;
    while k < to
        invariant
            from <= k <= to,
            to <= s@.len(),
            out@ == old(out)@ + s@.subrange(from as int, k as int),
        decreases to - k,
    {
        out.push(s[k]);
        k += 1;
        assert(out@ =~= old(out)@ + s@.subrange(from as int, k as int));
    }
}

/// Append all of `s` to `out`.
pub fn push_all(out: &mut String, s: &[char])
    ensures
        final(out)@ == old(out)@ + s@,
{
    push_range(out, s, 0, s.len());
    assert(s@.subrange(0, s@.len() as int) =~= s@);
}

/// A `String` holding the characters `s`.
pub fn string_of(s: &[char]) -> (r: String)
    ensures
        r@ == s@,
{
    let mut out = String::new();
    push_all(&mut out, s);
    assert(out@ =~= s@);
    out
}

/// Whether `pat` occurs in `s` at index `p`.
pub fn chars_match_at(s: &[char], pat: &[char], p: usize) -> (r: bool)
    ensures
        r == matches_at(s@, pat@, p as int),
{
    if p > s.len() || pat.len() > s.len() - p {
        return false;
    }
    let mut k: usize = 0;
    while k < pat.len()
        invariant
            p + pat@.len() <= s@.len(),
            s@.len() == s.len(),
            k <= pat@.len(),
            forall|m: int| 0 <= m < k ==> s@[p + m] == pat@[m],
        decreases pat.len() - k,
    {
        if s[p + k] != pat[k] {
            assert(s@.subrange(p as int, p + pat@.len())[k as int] != pat@[k as int]);
            return false;
        }
        k += 1;
    }
    assert(s@.subrange(p as int, p + pat@.len()) =~= pat@);
    true
}

/// The first index at or after `from` where `pat` occurs in `s`.
pub fn find_chars(s: &[char], pat: &[char], from: usize) -> (r: Option<usize>)
    ensures
        r matches Some(p) ==> find_from(s@, pat@, from as int) == Some(p as int),
        r matches Some(p) ==> from <= p && p + pat@.len() <= s@.len(),
        r is None ==> find_from(s@, pat@, from as int) is None,
{
    if from > s.len() || pat.len() > s.len() - from {
        return None;
    }
    if pat.len() == 0 {
        assert(s@.subrange(from as int, from as int) =~= pat@);
        proof {
            lemma_find_from(s@, pat@, from as int);
        }
        return Some(from);
    }
    let last = s.len() - pat.len();
    let mut p = from;
    while p <= last
        invariant
            from <= p,
            last == s@.len() - pat@.len(),
            pat@.len() >= 1,
            s@.len() == s.len(),
            p <= last + 1,
            find_from(s@, pat@, from as int) == find_from(s@, pat@, p as int),
        decreases last + 1 - p,
    {
        if chars_match_at(s, pat, p) {
            proof {
                lemma_find_from(s@, pat@, from as int);
            }
            return Some(p);
        }
        p += 1;
    }
    None
}

/// `char::is_whitespace`: the Unicode `White_Space` property.
pub fn is_whitespace_char(c: char) -> (r: bool)
    ensures
        r == is_white_space(c),
{
    c == '\t' || c == '\n' || c == '\u{0B}' || c == '\u{0C}' || c == '\r' || c == ' '
        || c == '\u{85}' || c == '\u{A0}' || c == '\u{1680}' || ('\u{2000}' <= c && c
        <= '\u{200A}') || c == '\u{2028}' || c == '\u{2029}' || c == '\u{202F}' || c
        == '\u{205F}' || c == '\u{3000}'
}

pub proof fn lemma_trim_end_len_le(s: Seq<char>)
    ensures
        trim_end_len(s) <= s.len(),
{
    lemma_trim_end_len_bound(s);
}

proof fn lemma_trim_end_len_bound(s: Seq<char>)
    ensures
        trim_end_len(s) <= s.len(),
        trim_end_len(s) < s.len() ==> is_white_space(s.last()),
        forall|k: int| trim_end_len(s) <= k < s.len() ==> is_white_space(#[trigger] s[k]),
    decreases s.len(),
{
    if s.len() > 0 && is_white_space(s.last()) {
        lemma_trim_end_len_bound(s.drop_last());
        assert forall|k: int| trim_end_len(s) <= k < s.len() implies is_white_space(#[trigger] s[k]) by {
            if k < s.len() - 1 {
                assert(s[k] == s.drop_last()[k]);
            }
        }
    }
}

/// Length of `s` once trailing white space is removed.
pub fn trim_end_length(s: &[char]) -> (r: usize)
    ensures
        r == trim_end_len(s@),
{
    let mut n = s.len();
    assert(s@.take(n as int) =~= s@);
    while n > 0 && is_whitespace_char(s[n - 1])
        invariant
            n <= s@.len(),
            trim_end_len(s@.take(n as int)) == trim_end_len(s@),
        decreases n,
    {
        assert(s@.take(n as int).drop_last() =~= s@.take(n - 1));
        n -= 1;
    }
    assert(s@.take(n as int) =~= s@.take(n as int));
    n
}

/// Number of leading white-space characters of `s[..end]`.
pub fn trim_start_length(s: &[char], end: usize) -> (r: usize)
    requires
        end <= s@.len(),
    ensures
        r == trim_start_count(s@.take(end as int)),
        r <= end,
{
    let ghost t = s@.take(end as int);
    let mut k: usize = 0;
    assert(t.skip(0) =~= t);
    while k < end && is_whitespace_char(s[k])
        invariant
            k <= end,
            end <= s@.len(),
            t == s@.take(end as int),
            k + trim_start_count(t.skip(k as int)) == trim_start_count(t),
        decreases end - k,
    {
        assert(t.skip(k as int).drop_first() =~= t.skip(k + 1));
        k += 1;
    }
    k
}

/// `char::to_ascii_lowercase`.
pub fn ascii_lower_char(c: char) -> (r: char)
    ensures
        r == ascii_lower(c),
{
    if 'A' <= c && c <= 'Z' {
        ((c as u8) + 32) as char
    } else {
        c
    }
}

/// Whether `a` and `b[from..to]` are equal up to ASCII case.
pub fn chars_eq_ignore_ascii_case(a: &[char], b: &[char], from: usize, to: usize) -> (r: bool)
    requires
        from <= to <= b@.len(),
    ensures
        r == eq_ignore_ascii_case(a@, b@.subrange(from as int, to as int)),
{
    if a.len() != to - from {
        return false;
    }
    let mut k: usize = 0;
    while k < a.len()
        invariant
            a@.len() == to - from,
            from <= to <= b@.len(),
            k <= a@.len(),
            forall|m: int| 0 <= m < k ==> ascii_lower(#[trigger] a@[m]) == ascii_lower(b@[from + m]),
        decreases a.len() - k,
    {
        if ascii_lower_char(a[k]) != ascii_lower_char(b[from + k]) {
            assert(b@.subrange(from as int, to as int)[k as int] == b@[from + k]);
            return false;
        }
        k += 1;
    }
    true
}

/// Whether every character of `s` is white space.
pub fn is_blank_chars(s: &[char]) -> (r: bool)
    ensures
        r == is_blank(s@),
{
    let mut k: usize = 0;
    while k < s.len()
        invariant
            k <= s@.len(),
            forall|m: int| 0 <= m < k ==> is_white_space(#[trigger] s@[m]),
        decreases s.len() - k,
    {
        if !is_whitespace_char(s[k]) {
            return false;
        }
        k += 1;
    }
    true
}

/// What `find_from` promises: the index found is the first match at or
/// after `from`, and `None` means there is no match there at all.
pub proof fn lemma_find_from(s: Seq<char>, pat: Seq<char>, from: int)
    requires
        0 <= from,
    ensures
        find_from(s, pat, from) matches Some(p) ==> {
            &&& from <= p
            &&& matches_at(s, pat, p)
            &&& forall|q: int| from <= q < p ==> !matches_at(s, pat, q)
        },
        find_from(s, pat, from) is None ==> forall|q: int| from <= q ==> !matches_at(s, pat, q),
    decreases s.len() + 1 - from,
{
    if from + pat.len() > s.len() {
    } else if matches_at(s, pat, from) {
    } else {
        lemma_find_from(s, pat, from + 1);
    }
}

/// Append `s[from..to]` to `out`.
pub fn extend_range(out: &mut Vec<char>, s: &[char], from: usize, to: usize)
    requires
        from <= to <= s@.len(),
    ensures
        final(out)@ == old(out)@ + s@.subrange(from as int, to as int),
{
    let mut k = from;
    while k < to
        invariant
            from <= k <= to,
            to <= s@.len(),
            out@ == old(out)@ + s@.subrange(from as int, k as int),
        decreases to - k,
    {
        out.push(s[k]);
        k += 1;
        assert(out@ =~= old(out)@ + s@.subrange(from as int, k as int));
    }
}

/// Append all of `s` to `out`.
pub fn extend_all(out: &mut Vec<char>, s: &[char])
    ensures
        final(out)@ == old(out)@ + s@,
{
    extend_range(out, s, 0, s.len());
    assert(s@.subrange(0, s@.len() as int) =~= s@);
}

/// Lexicographic order on character sequences, by code point: the order of
/// `str`'s `Ord` (UTF-8 byte order agrees with code point order).
pub open spec fn lex_lt(a: Seq<char>, b: Seq<char>) -> bool
    decreases a.len(),
{
    if a.len() == 0 {
        b.len() > 0
    } else if b.len() == 0 {
        false
    } else if a[0] != b[0] {
        a[0] < b[0]
    } else {
        lex_lt(a.drop_first(), b.drop_first())
    }
}

pub proof fn lemma_lex_irreflexive(a: Seq<char>)
    ensures
        !lex_lt(a, a),
    decreases a.len(),
{
    if a.len() > 0 {
        lemma_lex_irreflexive(a.drop_first());
    }
}

pub proof fn lemma_lex_asymmetric(a: Seq<char>, b: Seq<char>)
    ensures
        lex_lt(a, b) ==> !lex_lt(b, a),
    decreases a.len(),
{
    if a.len() > 0 && b.len() > 0 && a[0] == b[0] {
        lemma_lex_asymmetric(a.drop_first(), b.drop_first());
    }
}

pub proof fn lemma_lex_transitive(a: Seq<char>, b: Seq<char>, c: Seq<char>)
    requires
        lex_lt(a, b),
        lex_lt(b, c),
    ensures
        lex_lt(a, c),
    decreases a.len(),
{
    if a.len() > 0 && b.len() > 0 && c.len() > 0 && a[0] == b[0] && b[0] == c[0] {
        lemma_lex_transitive(a.drop_first(), b.drop_first(), c.drop_first());
    }
}

pub proof fn lemma_lex_total(a: Seq<char>, b: Seq<char>)
    ensures
        a == b || lex_lt(a, b) || lex_lt(b, a),
    decreases a.len(),
{
    if a.len() > 0 && b.len() > 0 && a[0] == b[0] {
        lemma_lex_total(a.drop_first(), b.drop_first());
        if a.drop_first() == b.drop_first() {
            assert(a =~= seq![a[0]] + a.drop_first());
            assert(b =~= seq![b[0]] + b.drop_first());
        }
    } else if a.len() == 0 && b.len() == 0 {
        assert(a =~= b);
    }
}

/// Name order is `str`'s order: a proper prefix sorts strictly before every
/// longer name that extends it (so the empty name sorts before every other
/// name), and two names that agree up to position `k` and differ there are
/// ordered by their characters at `k`.
pub proof fn law_lex_order(a: Seq<char>, b: Seq<char>, k: int)
    ensures
        b.len() > a.len() && b.take(a.len() as int) == a ==> lex_lt(a, b) && !lex_lt(b, a),
        lex_lt(Seq::empty(), b) == (b.len() > 0),
        0 <= k < a.len() && k < b.len() && a.take(k) == b.take(k) && a[k] != b[k] ==> (lex_lt(a, b)
            == (a[k] < b[k]) && lex_lt(b, a) == (b[k] < a[k])),
    decreases a.len(),
{
    if a.len() > 0 && b.len() > 0 && a[0] == b[0] {
        law_lex_order(a.drop_first(), b.drop_first(), k - 1);
        if b.len() > a.len() && b.take(a.len() as int) == a {
            assert(b.drop_first().take(a.drop_first().len() as int) =~= a.drop_first());
        }
        if 0 < k < a.len() && k < b.len() && a.take(k) == b.take(k) && a[k] != b[k] {
            assert(a.drop_first().take(k - 1) =~= a.take(k).drop_first());
            assert(b.drop_first().take(k - 1) =~= b.take(k).drop_first());
        }
    }
    if b.len() > a.len() && b.take(a.len() as int) == a && a.len() > 0 {
        assert(b[0] == b.take(a.len() as int)[0]);
    }
    if 0 <= k < a.len() && k < b.len() && a.take(k) == b.take(k) && a[k] != b[k] && k > 0 {
        assert(a[0] == a.take(k)[0] && b[0] == b.take(k)[0]);
    }
}

/// The outcome of comparing two character sequences.
#[derive(Debug, Clone, Copy, PartialEq, Eq, Structural)]
pub enum CharOrder {
    Less,
    Equal,
    Greater,
}

/// Compare `a` and `b` lexicographically.
pub fn compare_chars(a: &[char], b: &[char]) -> (r: CharOrder)
    ensures
        (r == CharOrder::Less) == lex_lt(a@, b@),
        (r == CharOrder::Equal) == (a@ == b@),
        (r == CharOrder::Greater) == lex_lt(b@, a@),
{
    proof {
        lemma_lex_total(a@, b@);
        lemma_lex_asymmetric(a@, b@);
        lemma_lex_irreflexive(a@);
    }
    let mut k: usize = 0;
    assert(a@.skip(0) =~= a@);
    assert(b@.skip(0) =~= b@);
    while k < a.len() && k < b.len() && a[k] == b[k]
        invariant
            k <= a@.len(),
            k <= b@.len(),
            lex_lt(a@, b@) == lex_lt(a@.skip(k as int), b@.skip(k as int)),
            lex_lt(b@, a@) == lex_lt(b@.skip(k as int), a@.skip(k as int)),
            a@.take(k as int) == b@.take(k as int),
        decreases a.len() - k,
    {
        assert(a@.skip(k as int).drop_first() =~= a@.skip(k + 1));
        assert(b@.skip(k as int).drop_first() =~= b@.skip(k + 1));
        assert(a@.take(k + 1) =~= a@.take(k as int).push(a@[k as int]));
        assert(b@.take(k + 1) =~= b@.take(k as int).push(b@[k as int]));
        k += 1;
    }
    if k == a.len() && k == b.len() {
        assert(a@ =~= a@.take(k as int));
        assert(b@ =~= b@.take(k as int));
        CharOrder::Equal
    } else if k == a.len() {
        assert(a@.skip(k as int).len() == 0);
        proof {
            if a@ == b@ {
                assert(a@.len() == b@.len());
            }
        }
        CharOrder::Less
    } else if k == b.len() {
        assert(b@.skip(k as int).len() == 0);
        proof {
            if a@ == b@ {
                assert(a@.len() == b@.len());
            }
        }
        CharOrder::Greater
    } else {
        assert(a@.skip(k as int)[0] == a@[k as int]);
        assert(b@.skip(k as int)[0] == b@[k as int]);
        proof {
            if a@ == b@ {
                assert(a@[k as int] == b@[k as int]);
            }
        }
        if a[k] < b[k] {
            CharOrder::Less
        } else {
            CharOrder::Greater
        }
    }
}

} // verus!

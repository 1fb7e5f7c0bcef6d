//! Expansion of `$ARGUMENTS` and `$1..$n` placeholders in prompt text.

use vstd::prelude::*;

use crate::text::chars_of;

verus! {

/// The characters of the placeholder `$ARGUMENTS`.
pub open spec fn arguments_token() -> Seq<char> {
    seq!['$', 'A', 'R', 'G', 'U', 'M', 'E', 'N', 'T', 'S']
}

pub open spec fn is_ascii_digit_char(c: char) -> bool {
    '0' <= c && c <= '9'
}

/// Index just past the run of ASCII digits that starts at `j`.
pub open spec fn digit_run_end(s: Seq<char>, j: int) -> int
    decreases s.len() - j,
{
    if 0 <= j < s.len() && is_ascii_digit_char(s[j]) {
        digit_run_end(s, j + 1)
    } else {
        j
    }
}

/// `v` clamped to the largest `usize`.
pub open spec fn saturate(v: int) -> int {
    if v > usize::MAX {
        usize::MAX as int
    } else {
        v
    }
}

/// The value of one ASCII digit.
pub open spec fn digit_value(c: char) -> int {
    (c as u32) - 48
}

/// Decimal value of the digits `s[from..to]`, computed with saturating
/// multiplication and addition in `usize`.
pub open spec fn saturating_decimal(s: Seq<char>, from: int, to: int) -> int
    decreases to - from,
{
    if to <= from {
        0
    } else {
        saturate(saturate(saturating_decimal(s, from, to - 1) * 10) + digit_value(s[to - 1]))
    }
}

/// The text that `$n` stands for: the `n`-th (1-based) argument, or nothing.
pub open spec fn positional_text(args: Seq<String>, n: int) -> Seq<char> {
    if 1 <= n <= args.len() {
        args[n - 1]@
    } else {
        Seq::empty()
    }
}

pub proof fn lemma_digit_run_end_bounds(s: Seq<char>, j: int)
    requires
        0 <= j <= s.len(),
    ensures
        j <= digit_run_end(s, j) <= s.len(),
        forall|k: int| j <= k < digit_run_end(s, j) ==> is_ascii_digit_char(#[trigger] s[k]),
        digit_run_end(s, j) < s.len() ==> !is_ascii_digit_char(s[digit_run_end(s, j)]),
    decreases s.len() - j,
{
    if j < s.len() && is_ascii_digit_char(s[j]) {
        lemma_digit_run_end_bounds(s, j + 1);
    }
}

/// The expansion of the characters `s[i..]`.
///
/// Every character other than `$` is copied unchanged. `$ARGUMENTS` becomes
/// `rest`; `$` followed by digits becomes the argument that the digits
/// number; any other `$` is kept as it is.
pub open spec fn expand_from(s: Seq<char>, args: Seq<String>, rest: Seq<char>, i: int) -> Seq<char>
    decreases s.len() - i,
{
    if i < 0 || i >= s.len() {
        Seq::empty()
    } else if s[i] != '$' {
        seq![s[i]] + expand_from(s, args, rest, i + 1)
    } else if i + 10 <= s.len() && s.subrange(i, i + 10) == arguments_token() {
        rest + expand_from(s, args, rest, i + 10)
    } else {
        let end = digit_run_end(s, i + 1);
        proof {
            lemma_digit_run_end_bounds(s, i + 1);
        }
        if end > i + 1 {
            positional_text(args, saturating_decimal(s, i + 1, end)) + expand_from(s, args, rest, end)
        } else {
            seq!['$'] + expand_from(s, args, rest, i + 1)
        }
    }
}

/// The expansion of a whole text.
pub open spec fn expand_arguments_spec(s: Seq<char>, args: Seq<String>, rest: Seq<char>) -> Seq<char> {
    expand_from(s, args, rest, 0)
}

/// Expand `$ARGUMENTS` and `$1..$n` placeholders in `content`.
///
/// - `$ARGUMENTS` is replaced by `rest` verbatim.
/// - `$n` is replaced by the nth (1-based) positional argument from `args`,
///   or an empty string if missing.
/// - All other text is kept unchanged.
pub fn expand_arguments(content: &str, args: &[String], rest: &str) -> (out: String)
    ensures
        out@ == expand_arguments_spec(content@, args@, rest@),
{
    let chars = chars_of(content);
    let ghost s = chars@;
    let n = chars.len();
    let mut out = String::new();
    let mut i: usize = 0;
    while i < n
        invariant
            s == chars@,
            s == content@,
            n == s.len(),
            i <= n,
            out@ + expand_from(s, args@, rest@, i as int) == expand_from(s, args@, rest@, 0),
        decreases n - i,
    {
        let ghost before = out@;
        let c = chars[i];
        if c != '$' {
            out.push(c);
            i += 1;
            assert(out@ + expand_from(s, args@, rest@, i as int) == before + expand_from(s, args@, rest@, (i - 1) as int));
            continue;
        }
        if n - i >= 10 && is_arguments_token_at(chars.as_slice(), i) {
            out.append(rest);
            i += 10;
            assert(out@ + expand_from(s, args@, rest@, i as int) == before + expand_from(s, args@, rest@, (i - 10) as int));
            continue;
        }
        let ghost start = i;
        let mut j: usize = i + 1;
        let mut val: usize = 0;
        proof {
            lemma_digit_run_end_bounds(s, i + 1);
        }
        while j < n && chars[j] >= '0' && chars[j] <= '9'
            invariant
                s == chars@,
                n == s.len(),
                start + 1 <= j <= digit_run_end(s, start + 1),
                digit_run_end(s, start + 1) <= n,
                forall|k: int| start + 1 <= k < digit_run_end(s, start + 1) ==> is_ascii_digit_char(#[trigger] s[k]),
                digit_run_end(s, start + 1) < n ==> !is_ascii_digit_char(s[digit_run_end(s, start + 1)]),
                val == saturating_decimal(s, start + 1, j as int),
            decreases n - j,
        {
            let d = ((chars[j] as u32) - 48) as usize;
            let times_ten: usize = if val > usize::MAX / 10 { usize::MAX } else { val * 10 };
            val = times_ten.saturating_add(d);
            j += 1;
        }
        assert(j == digit_run_end(s, start + 1));
        if j > i + 1 {
            if val > 0 {
                let idx = val - 1;
                if idx < args.len() {
                    out.append(args[idx].as_str());
                }
            }
            i = j;
            assert(out@ + expand_from(s, args@, rest@, i as int) == before + expand_from(s, args@, rest@, start as int));
            continue;
        }
        out.push('$');
        i += 1;
        assert(out@ + expand_from(s, args@, rest@, i as int) == before + expand_from(s, args@, rest@, start as int));
    }
    out
}

/// Whether `s[i..i + 10]` spells `$ARGUMENTS`.
fn is_arguments_token_at(s: &[char], i: usize) -> (r: bool)
    requires
        i + 10 <= s@.len(),
    ensures
        r == (s@.subrange(i as int, i + 10) == arguments_token()),
{
    let token: [char; 10] = ['$', 'A', 'R', 'G', 'U', 'M', 'E', 'N', 'T', 'S'];
    let mut k: usize = 0;
    while k < 10
        invariant
            k <= 10,
            i + 10 <= s@.len(),
            s@.len() == s.len(),
            token@ == arguments_token(),
            forall|m: int| 0 <= m < k ==> s@[i + m] == arguments_token()[m],
        decreases 10 - k,
    {
        if s[i + k] != token[k] {
            assert(s@.subrange(i as int, i + 10)[k as int] != arguments_token()[k as int]);
            return false;
        }
        k += 1;
    }
    assert(s@.subrange(i as int, i + 10) =~= arguments_token());
    true
}

proof fn lemma_digit_run_end_shift(pre: Seq<char>, t: Seq<char>, k: int)
    requires
        0 <= k <= t.len(),
    ensures
        digit_run_end(pre + t, pre.len() + k) == pre.len() + digit_run_end(t, k),
    decreases t.len() - k,
{
    let b = pre + t;
    if k < t.len() {
        assert(b[pre.len() + k] == t[k]);
        if is_ascii_digit_char(t[k]) {
            lemma_digit_run_end_shift(pre, t, k + 1);
        }
    }
}

proof fn lemma_saturating_decimal_shift(pre: Seq<char>, t: Seq<char>, from: int, to: int)
    requires
        0 <= from <= to <= t.len(),
    ensures
        saturating_decimal(pre + t, pre.len() + from, pre.len() + to) == saturating_decimal(t, from, to),
    decreases to - from,
{
    if from < to {
        lemma_saturating_decimal_shift(pre, t, from, to - 1);
        assert((pre + t)[pre.len() + to - 1] == t[to - 1]);
    }
}

/// Expansion does not look behind the current position: the expansion of
/// `pre + t` from inside `t` is the expansion of `t` alone.
proof fn lemma_expand_shift(pre: Seq<char>, t: Seq<char>, args: Seq<String>, rest: Seq<char>, k: int)
    requires
        0 <= k <= t.len(),
    ensures
        expand_from(pre + t, args, rest, pre.len() + k) == expand_from(t, args, rest, k),
    decreases t.len() - k,
{
    let b = pre + t;
    let i = pre.len() + k;
    if k < t.len() {
        assert(b[i] == t[k]);
        if t[k] != '$' {
            lemma_expand_shift(pre, t, args, rest, k + 1);
        } else {
            if k + 10 <= t.len() {
                assert(b.subrange(i, i + 10) =~= t.subrange(k, k + 10));
            }
            if k + 10 <= t.len() && t.subrange(k, k + 10) == arguments_token() {
                lemma_expand_shift(pre, t, args, rest, k + 10);
            } else {
                lemma_digit_run_end_shift(pre, t, k + 1);
                lemma_digit_run_end_bounds(t, k + 1);
                let end = digit_run_end(t, k + 1);
                if end > k + 1 {
                    lemma_saturating_decimal_shift(pre, t, k + 1, end);
                    lemma_expand_shift(pre, t, args, rest, end);
                } else {
                    lemma_expand_shift(pre, t, args, rest, k + 1);
                }
            }
        }
    }
}

/// `$ARGUMENTS` expands to `rest` verbatim, whatever follows it.
pub proof fn law_arguments_token_expands_to_rest(t: Seq<char>, args: Seq<String>, rest: Seq<char>)
    ensures
        expand_arguments_spec(arguments_token() + t, args, rest) == rest + expand_arguments_spec(t, args, rest),
{
    let b = arguments_token() + t;
    assert(b.subrange(0, 10) =~= arguments_token());
    lemma_expand_shift(arguments_token(), t, args, rest, 0);
}

proof fn lemma_digits_then_stop(ds: Seq<char>, t: Seq<char>, k: int)
    requires
        0 <= k <= ds.len(),
        forall|m: int| 0 <= m < ds.len() ==> is_ascii_digit_char(#[trigger] ds[m]),
        t.len() > 0 ==> !is_ascii_digit_char(t[0]),
    ensures
        digit_run_end(ds + t, k) == ds.len(),
    decreases ds.len() - k,
{
    let b = ds + t;
    if k < ds.len() {
        assert(b[k] == ds[k]);
        lemma_digits_then_stop(ds, t, k + 1);
    } else if t.len() > 0 {
        assert(b[k] == t[0]);
    }
}

proof fn lemma_decimal_prefix(ds: Seq<char>, t: Seq<char>, from: int, to: int)
    requires
        0 <= from <= to <= ds.len(),
    ensures
        saturating_decimal(ds + t, from, to) == saturating_decimal(ds, from, to),
    decreases to - from,
{
    if from < to {
        lemma_decimal_prefix(ds, t, from, to - 1);
        assert((ds + t)[to - 1] == ds[to - 1]);
    }
}

/// `$` followed by digits expands to the argument those digits number (1
/// for the first; none past the last argument), whatever follows that is
/// not a digit.
pub proof fn law_positional_placeholder(ds: Seq<char>, t: Seq<char>, args: Seq<String>, rest: Seq<char>)
    requires
        ds.len() > 0,
        forall|k: int| 0 <= k < ds.len() ==> is_ascii_digit_char(#[trigger] ds[k]),
        t.len() > 0 ==> !is_ascii_digit_char(t[0]),
    ensures
        expand_arguments_spec(seq!['$'] + ds + t, args, rest) == positional_text(
            args,
            saturating_decimal(ds, 0, ds.len() as int),
        ) + expand_arguments_spec(t, args, rest),
{
    let pre = seq!['$'] + ds;
    let b = pre + t;
    assert(b[0] == '$');
    assert(b[1] == ds[0]);
    if 10 <= b.len() {
        assert(b.subrange(0, 10)[1] == ds[0]);
        assert(arguments_token()[1] == 'A');
    }
    lemma_digit_run_end_shift(seq!['$'], ds + t, 0);
    lemma_digits_then_stop(ds, t, 0);
    assert(seq!['$'] + (ds + t) =~= b);
    lemma_saturating_decimal_shift(seq!['$'], ds + t, 0, ds.len() as int);
    lemma_decimal_prefix(ds, t, 0, ds.len() as int);
    lemma_expand_shift(pre, t, args, rest, 0);
}

/// A `$` that starts neither `$ARGUMENTS` nor a run of digits is kept as
/// it is.
pub proof fn law_literal_dollar(t: Seq<char>, args: Seq<String>, rest: Seq<char>)
    requires
        t.len() > 0 ==> !is_ascii_digit_char(t[0]),
        !(t.len() >= 9 && t.subrange(0, 9) == arguments_token().skip(1)),
    ensures
        expand_arguments_spec(seq!['$'] + t, args, rest) == seq!['$'] + expand_arguments_spec(t, args, rest),
{
    let b = seq!['$'] + t;
    assert(b[0] == '$');
    if b.len() >= 10 && b.subrange(0, 10) == arguments_token() {
        assert(t.subrange(0, 9) =~= b.subrange(0, 10).skip(1));
    }
    if t.len() > 0 {
        assert(b[1] == t[0]);
    }
    lemma_expand_shift(seq!['$'], t, args, rest, 0);
}

/// Text with no `$` in it is unchanged.
pub proof fn law_text_without_placeholders(s: Seq<char>, args: Seq<String>, rest: Seq<char>)
    requires
        forall|k: int| 0 <= k < s.len() ==> #[trigger] s[k] != '$',
    ensures
        expand_arguments_spec(s, args, rest) == s,
{
    lemma_expand_plain(s, args, rest, 0);
    assert(s.skip(0) =~= s);
}

proof fn lemma_expand_plain(s: Seq<char>, args: Seq<String>, rest: Seq<char>, i: int)
    requires
        0 <= i <= s.len(),
        forall|k: int| 0 <= k < s.len() ==> #[trigger] s[k] != '$',
    ensures
        expand_from(s, args, rest, i) == s.skip(i),
    decreases s.len() - i,
{
    if i < s.len() {
        lemma_expand_plain(s, args, rest, i + 1);
        assert(s.skip(i) =~= seq![s[i]] + s.skip(i + 1));
    } else {
        assert(s.skip(i) =~= Seq::<char>::empty());
    }
}

/// Expansion works piece by piece: text without `$`, followed by anything,
/// expands to that text followed by the expansion of the rest.
pub proof fn law_plain_prefix_kept(pre: Seq<char>, t: Seq<char>, args: Seq<String>, rest: Seq<char>)
    requires
        forall|k: int| 0 <= k < pre.len() ==> #[trigger] pre[k] != '$',
    ensures
        expand_arguments_spec(pre + t, args, rest) == pre + expand_arguments_spec(t, args, rest),
{
    lemma_plain_prefix(pre, t, args, rest, 0);
    assert(pre.skip(0) =~= pre);
}

proof fn lemma_plain_prefix(pre: Seq<char>, t: Seq<char>, args: Seq<String>, rest: Seq<char>, i: int)
    requires
        0 <= i <= pre.len(),
        forall|k: int| 0 <= k < pre.len() ==> #[trigger] pre[k] != '$',
    ensures
        expand_from(pre + t, args, rest, i) == pre.skip(i) + expand_from(t, args, rest, 0),
    decreases pre.len() - i,
{
    let b = pre + t;
    if i < pre.len() {
        assert(b[i] == pre[i]);
        lemma_plain_prefix(pre, t, args, rest, i + 1);
        assert(pre.skip(i) =~= seq![pre[i]] + pre.skip(i + 1));
    } else {
        lemma_expand_shift(pre, t, args, rest, 0);
        assert(pre.skip(i) =~= Seq::<char>::empty());
    }
}

} // verus!

//! Character-level helpers on strings: equality, prefix tests, substring
//! search, decimal-digit parsing, and line splitting. Everything here is
//! verified against specs over `Seq<char>` views.

use vstd::prelude::*;
use vstd::string::*;

verus! {

/// Exact string equality on views.
pub fn str_eq(a: &str, b: &str) -> (r: bool)
    ensures
        r == (a@ == b@),
{
    let na = a.unicode_len();
    let nb = b.unicode_len();
    if na != nb {
        return false;
    }
    let mut i: usize = 0;
    while i < na
        invariant
            na == a@.len(),
            na == b@.len(),
            i <= na,
            forall|j: int| 0 <= j < i ==> a@[j] == b@[j],
        decreases na - i,
    {
        if a.get_char(i) != b.get_char(i) {
            return false;
        }
        i += 1;
    }
    proof {
        assert(a@ =~= b@);
    }
    true
}

/// `p` is a prefix of `l`.
pub open spec fn spec_starts_with(l: Seq<char>, p: Seq<char>) -> bool {
    p.len() <= l.len() && l.subrange(0, p.len() as int) == p
}

pub fn str_starts_with(l: &str, p: &str) -> (r: bool)
    ensures
        r == spec_starts_with(l@, p@),
{
    let nl = l.unicode_len();
    let np = p.unicode_len();
    if np > nl {
        return false;
    }
    let mut i: usize = 0;
    while i < np
        invariant
            nl == l@.len(),
            np == p@.len(),
            np <= nl,
            i <= np,
            forall|j: int| 0 <= j < i ==> l@[j] == p@[j],
        decreases np - i,
    {
        if l.get_char(i) != p.get_char(i) {
            proof {
                assert(l@.subrange(0, p@.len() as int)[i as int] != p@[i as int]);
            }
            return false;
        }
        i += 1;
    }
    proof {
        assert(l@.subrange(0, p@.len() as int) =~= p@);
    }
    true
}

/// `p` occurs in `t` starting at position `i`.
pub open spec fn spec_matches_at(t: Seq<char>, p: Seq<char>, i: int) -> bool {
    0 <= i && i + p.len() <= t.len() && t.subrange(i, i + p.len()) == p
}

/// `p` occurs somewhere in `t`.
pub open spec fn spec_contains(t: Seq<char>, p: Seq<char>) -> bool {
    exists|i: int| spec_matches_at(t, p, i)
}

fn matches_at(t: &str, p: &str, i: usize) -> (r: bool)
    requires
        i + p@.len() <= t@.len(),
    ensures
        r == spec_matches_at(t@, p@, i as int),
{
    let nt = t.unicode_len();
    let np = p.unicode_len();
    let mut j: usize = 0;
    while j < np
        invariant
            nt == t@.len(),
            np == p@.len(),
            i + np <= nt,
            j <= np,
            forall|k: int| 0 <= k < j ==> t@[i + k] == p@[k],
        decreases np - j,
    {
        if t.get_char(i + j) != p.get_char(j) {
            proof {
                assert(t@.subrange(i as int, i + p@.len())[j as int] != p@[j as int]);
            }
            return false;
        }
        j += 1;
    }
    proof {
        assert(t@.subrange(i as int, i + p@.len()) =~= p@);
    }
    true
}

/// Substring search: whether `pattern` occurs anywhere in `text`.
pub fn contains_substring(text: &str, pattern: &str) -> (r: bool)
    ensures
        r == spec_contains(text@, pattern@),
{
    let nt = text.unicode_len();
    let np = pattern.unicode_len();
    if np > nt {
        proof {
            assert(forall|i: int| !spec_matches_at(text@, pattern@, i));
        }
        return false;
    }
    if np == 0 {
        proof {
            assert(text@.subrange(0, 0) =~= pattern@);
            assert(spec_matches_at(text@, pattern@, 0));
        }
        return true;
    }
    let mut i: usize = 0;
    while i <= nt - np
        invariant
            nt == text@.len(),
            np == pattern@.len(),
            1 <= np <= nt,
            i <= nt - np + 1,
            forall|k: int| 0 <= k < i ==> !spec_matches_at(text@, pattern@, k),
        decreases nt - i,
    {
        if matches_at(text, pattern, i) {
            proof {
                assert(spec_matches_at(text@, pattern@, i as int));
            }
            return true;
        }
        i += 1;
    }
    proof {
        assert(forall|k: int| #[trigger] spec_matches_at(text@, pattern@, k) ==> 0 <= k < i) by {
            assert(forall|k: int| k >= i ==> !(#[trigger] spec_matches_at(text@, pattern@, k)));
        }
    }
    false
}

/// Space or tab, the whitespace accepted between grammar tokens.
pub open spec fn is_ws_char(c: char) -> bool {
    c == ' ' || c == '\t'
}

/// An ASCII decimal digit.
pub open spec fn is_digit_char(c: char) -> bool {
    48 <= c as u32 <= 57
}

/// A word character as the header grammar accepts in keys: ASCII letters,
/// digits, or underscore.
pub open spec fn is_word_char(c: char) -> bool {
    (97 <= c as u32 <= 122) || (65 <= c as u32 <= 90) || is_digit_char(c) || c == '_'
}

pub fn ws_char(c: char) -> (r: bool)
    ensures
        r == is_ws_char(c),
{
    c == ' ' || c == '\t'
}

pub fn digit_char(c: char) -> (r: bool)
    ensures
        r == is_digit_char(c),
{
    let u = c as u32;
    48 <= u && u <= 57
}

pub fn word_char(c: char) -> (r: bool)
    ensures
        r == is_word_char(c),
{
    let u = c as u32;
    (97 <= u && u <= 122) || (65 <= u && u <= 90) || (48 <= u && u <= 57) || c == '_'
}

/// End of the run of whitespace characters beginning at `i`.
pub open spec fn ws_run_end(s: Seq<char>, i: int) -> int
    decreases s.len() - i,
{
    if 0 <= i < s.len() && is_ws_char(s[i]) {
        ws_run_end(s, i + 1)
    } else {
        i
    }
}

pub proof fn lemma_ws_run_end(s: Seq<char>, i: int)
    requires
        0 <= i <= s.len(),
    ensures
        i <= ws_run_end(s, i) <= s.len(),
        forall|k: int| i <= k < ws_run_end(s, i) ==> is_ws_char(s[k]),
        ws_run_end(s, i) < s.len() ==> !is_ws_char(s[ws_run_end(s, i)]),
    decreases s.len() - i,
{
    if 0 <= i < s.len() && is_ws_char(s[i]) {
        lemma_ws_run_end(s, i + 1);
    }
}

/// End of the run of non-whitespace characters beginning at `i`.
pub open spec fn nonws_run_end(s: Seq<char>, i: int) -> int
    decreases s.len() - i,
{
    if 0 <= i < s.len() && !is_ws_char(s[i]) {
        nonws_run_end(s, i + 1)
    } else {
        i
    }
}

pub proof fn lemma_nonws_run_end(s: Seq<char>, i: int)
    requires
        0 <= i <= s.len(),
    ensures
        i <= nonws_run_end(s, i) <= s.len(),
        forall|k: int| i <= k < nonws_run_end(s, i) ==> !is_ws_char(s[k]),
        nonws_run_end(s, i) < s.len() ==> is_ws_char(s[nonws_run_end(s, i)]),
    decreases s.len() - i,
{
    if 0 <= i < s.len() && !is_ws_char(s[i]) {
        lemma_nonws_run_end(s, i + 1);
    }
}

/// End of the run of decimal digits beginning at `i`.
pub open spec fn digit_run_end(s: Seq<char>, i: int) -> int
    decreases s.len() - i,
{
    if 0 <= i < s.len() && is_digit_char(s[i]) {
        digit_run_end(s, i + 1)
    } else {
        i
    }
}

pub proof fn lemma_digit_run_end(s: Seq<char>, i: int)
    requires
        0 <= i <= s.len(),
    ensures
        i <= digit_run_end(s, i) <= s.len(),
        forall|k: int| i <= k < digit_run_end(s, i) ==> is_digit_char(s[k]),
        digit_run_end(s, i) < s.len() ==> !is_digit_char(s[digit_run_end(s, i)]),
    decreases s.len() - i,
{
    if 0 <= i < s.len() && is_digit_char(s[i]) {
        lemma_digit_run_end(s, i + 1);
    }
}

pub fn exec_ws_run_end(l: &str, i: usize) -> (r: usize)
    requires
        i <= l@.len(),
    ensures
        r == ws_run_end(l@, i as int),
{
    let n = l.unicode_len();
    let mut j = i;
    while j < n && ws_char(l.get_char(j))
        invariant
            n == l@.len(),
            i <= j <= n,
            ws_run_end(l@, i as int) == ws_run_end(l@, j as int),
        decreases n - j,
    {
        j += 1;
    }
    j
}

pub fn exec_nonws_run_end(l: &str, i: usize) -> (r: usize)
    requires
        i <= l@.len(),
    ensures
        r == nonws_run_end(l@, i as int),
{
    let n = l.unicode_len();
    let mut j = i;
    while j < n && !ws_char(l.get_char(j))
        invariant
            n == l@.len(),
            i <= j <= n,
            nonws_run_end(l@, i as int) == nonws_run_end(l@, j as int),
        decreases n - j,
    {
        j += 1;
    }
    j
}

pub fn exec_digit_run_end(l: &str, i: usize) -> (r: usize)
    requires
        i <= l@.len(),
    ensures
        r == digit_run_end(l@, i as int),
{
    let n = l.unicode_len();
    let mut j = i;
    while j < n && digit_char(l.get_char(j))
        invariant
            n == l@.len(),
            i <= j <= n,
            digit_run_end(l@, i as int) == digit_run_end(l@, j as int),
        decreases n - j,
    {
        j += 1;
    }
    j
}

/// The value of a sequence of decimal digits.
pub open spec fn dec_val(s: Seq<char>) -> int
    decreases s.len(),
{
    if s.len() == 0 {
        0
    } else {
        dec_val(s.drop_last()) * 10 + (s.last() as u32 - 48)
    }
}

pub open spec fn all_digits(s: Seq<char>) -> bool {
    forall|i: int| 0 <= i < s.len() ==> is_digit_char(s[i])
}

proof fn lemma_dec_val_nonneg(s: Seq<char>)
    requires
        all_digits(s),
    ensures
        dec_val(s) >= 0,
    decreases s.len(),
{
    if s.len() > 0 {
        assert(all_digits(s.drop_last()));
        lemma_dec_val_nonneg(s.drop_last());
    }
}

pub proof fn lemma_dec_val_prefix_le(s: Seq<char>, i: int)
    requires
        all_digits(s),
        0 <= i <= s.len(),
    ensures
        dec_val(s.subrange(0, i)) <= dec_val(s),
    decreases s.len() - i,
{
    if i == s.len() {
        assert(s.subrange(0, i) =~= s);
    } else {
        lemma_dec_val_prefix_le(s, i + 1);
        let p = s.subrange(0, i);
        let q = s.subrange(0, i + 1);
        assert(q.drop_last() =~= p);
        assert(all_digits(p));
        lemma_dec_val_nonneg(p);
        assert(dec_val(q) == dec_val(p) * 10 + (q.last() as u32 - 48));
        assert(is_digit_char(s[i]));
        assert(dec_val(p) <= dec_val(q)) by {
            assert(dec_val(p) * 10 >= dec_val(p));
        }
    }
}

/// Parse the digits of `l` in `[start, end)` as a number, refusing values
/// that do not fit a `u16`.
pub fn parse_u16_in(l: &str, start: usize, end: usize) -> (r: Option<u16>)
    requires
        start <= end <= l@.len(),
        all_digits(l@.subrange(start as int, end as int)),
    ensures
        ({
            let v = dec_val(l@.subrange(start as int, end as int));
            if v <= u16::MAX {
                r == Some(v as u16)
            } else {
                r is None
            }
        }),
{
    let ghost s = l@.subrange(start as int, end as int);
    let mut acc: u32 = 0;
    let mut i = start;
    while i < end
        invariant
            start <= i <= end <= l@.len(),
            s == l@.subrange(start as int, end as int),
            all_digits(s),
            acc <= u16::MAX,
            acc == dec_val(s.subrange(0, i - start)),
        decreases end - i,
    {
        let c = l.get_char(i);
        proof {
            assert(s[i - start] == c);
            assert(is_digit_char(c));
            let p = s.subrange(0, i - start);
            let q = s.subrange(0, i + 1 - start);
            assert(q.drop_last() =~= p);
            assert(q.last() == c);
        }
        let d = c as u32 - 48;
        acc = acc * 10 + d;
        if acc > 65535 {
            proof {
                lemma_dec_val_prefix_le(s, i + 1 - start);
            }
            return None;
        }
        i += 1;
    }
    proof {
        assert(s.subrange(0, end - start) =~= s);
    }
    Some(acc as u16)
}

/// First index of a newline in `s`, or `-1` if there is none.
pub open spec fn first_nl(s: Seq<char>) -> int
    decreases s.len(),
{
    if s.len() == 0 {
        -1
    } else if s[0] == '\n' {
        0
    } else {
        let r = first_nl(s.drop_first());
        if r < 0 {
            -1
        } else {
            r + 1
        }
    }
}

pub proof fn lemma_first_nl(s: Seq<char>)
    ensures
        first_nl(s) == -1 ==> forall|i: int| 0 <= i < s.len() ==> s[i] != '\n',
        first_nl(s) >= 0 ==> 0 <= first_nl(s) < s.len() && s[first_nl(s)] == '\n' && forall|i: int|
            0 <= i < first_nl(s) ==> s[i] != '\n',
    decreases s.len(),
{
    if s.len() > 0 && s[0] != '\n' {
        lemma_first_nl(s.drop_first());
        assert(forall|i: int| 1 <= i < s.len() ==> s[i] == s.drop_first()[i - 1]);
    }
}

/// A line with a trailing carriage return dropped, as the line splitter
/// yields it for newline-terminated lines.
pub open spec fn strip_cr(l: Seq<char>) -> Seq<char> {
    if l.len() > 0 && l[l.len() - 1] == '\r' {
        l.drop_last()
    } else {
        l
    }
}

/// The lines of a text: split at `'\n'`, dropping a `'\r'` that immediately
/// precedes the split point; the final line needs no terminator, and a text
/// ending in `'\n'` has no trailing empty line.
pub open spec fn spec_lines(s: Seq<char>) -> Seq<Seq<char>>
    decreases s.len(),
{
    if s.len() == 0 {
        Seq::empty()
    } else {
        let i = first_nl(s);
        if i < 0 || i >= s.len() {
            seq![s]
        } else {
            seq![strip_cr(s.subrange(0, i))] + spec_lines(s.subrange(i + 1, s.len() as int))
        }
    }
}

proof fn lemma_spec_lines_step(t: Seq<char>, k: int)
    requires
        0 <= k < t.len(),
        t[k] == '\n',
        forall|i: int| 0 <= i < k ==> t[i] != '\n',
    ensures
        spec_lines(t) == seq![strip_cr(t.subrange(0, k))] + spec_lines(
            t.subrange(k + 1, t.len() as int),
        ),
{
    lemma_first_nl(t);
    assert(first_nl(t) == k) by {
        if first_nl(t) == -1 {
            assert(t[k] != '\n');
        } else if first_nl(t) < k {
            assert(t[first_nl(t)] != '\n');
        } else if first_nl(t) > k {
            assert(t[k] != '\n');
        }
    }
}

proof fn lemma_spec_lines_nonl(t: Seq<char>)
    requires
        t.len() > 0,
        forall|i: int| 0 <= i < t.len() ==> t[i] != '\n',
    ensures
        spec_lines(t) == seq![t],
{
    lemma_first_nl(t);
    assert(first_nl(t) == -1) by {
        if first_nl(t) >= 0 {
            assert(t[first_nl(t)] == '\n');
        }
    }
}

/// Split a text into its lines.
pub fn split_lines(s: &str) -> (r: Vec<String>)
    ensures
        r.deep_view() == spec_lines(s@),
{
    let n = s.unicode_len();
    let mut out: Vec<String> = Vec::new();
    let mut start: usize = 0;
    let mut i: usize = 0;
    proof {
        assert(s@.subrange(0, n as int) =~= s@);
        assert(out.deep_view() =~= Seq::<Seq<char>>::empty());
    }
    while i < n
        invariant
            n == s@.len(),
            start <= i <= n,
            forall|j: int| start <= j < i ==> s@[j] != '\n',
            spec_lines(s@) == out.deep_view() + spec_lines(s@.subrange(start as int, n as int)),
        decreases n - i,
    {
        let c = s.get_char(i);
        if c == '\n' {
            let mut endx = i;
            if i > start && s.get_char(i - 1) == '\r' {
                endx = i - 1;
            }
            let piece = s.substring_char(start, endx);
            let owned = piece.to_owned();
            let ghost old_out = out.deep_view();
            out.push(owned);
            proof {
                let t = s@.subrange(start as int, n as int);
                let k = i - start;
                assert(t[k] == '\n');
                assert(forall|j: int| 0 <= j < k ==> t[j] != '\n');
                lemma_spec_lines_step(t, k);
                assert(t.subrange(0, k) =~= s@.subrange(start as int, i as int));
                assert(t.subrange(k + 1, t.len() as int) =~= s@.subrange(
                    i + 1 as int,
                    n as int,
                ));
                assert(strip_cr(s@.subrange(start as int, i as int)) =~= s@.subrange(
                    start as int,
                    endx as int,
                ));
                assert(owned@ == s@.subrange(start as int, endx as int));
                assert(out.deep_view() =~= old_out.push(owned@));
                assert(spec_lines(s@) =~= out.deep_view() + spec_lines(
                    s@.subrange(i + 1 as int, n as int),
                ));
            }
            start = i + 1;
        }
        i += 1;
    }
    if start < n {
        let piece = s.substring_char(start, n);
        let owned = piece.to_owned();
        let ghost old_out = out.deep_view();
        out.push(owned);
        proof {
            let t = s@.subrange(start as int, n as int);
            lemma_spec_lines_nonl(t);
            assert(out.deep_view() =~= old_out.push(owned@));
            assert(spec_lines(s@) =~= out.deep_view());
        }
    } else {
        proof {
            assert(s@.subrange(start as int, n as int).len() == 0);
            assert(spec_lines(s@) =~= out.deep_view());
        }
    }
    out
}

} // verus!

//! Verified pieces of the backend client's wire protocol: the
//! `Content-Length` framing of outbound messages, the header grammar of
//! inbound frames, the skip rules for unsolicited server messages, and the
//! request-id counter.

use vstd::prelude::*;
use vstd::string::*;

use crate::parsers::text::{contains_substring, spec_contains};

verus! {

/// One parsed header line of a frame.
#[derive(Debug, Copy, Clone, PartialEq, Eq, Structural)]
pub enum LspHeader {
    ContentType,
    ContentLength(usize),
}

/// A per-connection monotonically increasing request-id counter.
#[derive(Debug)]
pub struct BackendSession {
    pub request_id: u64,
}

impl BackendSession {
    pub fn new() -> (r: BackendSession)
        ensures
            r.request_id == 1,
    {
        BackendSession { request_id: 1 }
    }

    /// Draw the next request id; ids strictly increase over the session.
    pub fn get_request_id(&mut self) -> (r: u64)
        requires
            old(self).request_id < u64::MAX,
        ensures
            final(self).request_id == old(self).request_id + 1,
            r == final(self).request_id,
    {
        self.request_id = self.request_id + 1;
        self.request_id
    }
}

/// A body that is an unsolicited server-to-client message the synchronous
/// read path must consume and discard rather than return as the response.
pub open spec fn spec_should_skip_body(body: Seq<char>) -> bool {
    spec_contains(body, "showMessage"@) || spec_contains(body, "logMessage"@) || spec_contains(
        body,
        "publishDiagnostics"@,
    )
}

pub fn should_skip_body(body: &str) -> (r: bool)
    ensures
        r == spec_should_skip_body(body@),
{
    contains_substring(body, "showMessage") || contains_substring(body, "logMessage")
        || contains_substring(body, "publishDiagnostics")
}

/// The character standing for one decimal digit.
pub open spec fn digit_char_of(d: int) -> char {
    if d == 1 {
        '1'
    } else if d == 2 {
        '2'
    } else if d == 3 {
        '3'
    } else if d == 4 {
        '4'
    } else if d == 5 {
        '5'
    } else if d == 6 {
        '6'
    } else if d == 7 {
        '7'
    } else if d == 8 {
        '8'
    } else if d == 9 {
        '9'
    } else {
        '0'
    }
}

/// The decimal rendering of a number, most significant digit first.
pub open spec fn dec_digits(n: int) -> Seq<char>
    decreases n,
{
    if n < 10 {
        seq![digit_char_of(n)]
    } else {
        dec_digits(n / 10).push(digit_char_of(n % 10))
    }
}

fn digit_str(d: usize) -> (r: &'static str)
    requires
        d < 10,
    ensures
        r@ =~= seq![digit_char_of(d as int)],
{
    let digits = "0123456789";
    proof {
        reveal_strlit("0123456789");
    }
    digits.substring_char(d, d + 1)
}

fn push_dec_digits(out: &mut String, n: usize)
    ensures
        final(out)@ == old(out)@ + dec_digits(n as int),
    decreases n,
{
    if n < 10 {
        out.append(digit_str(n));
    } else {
        push_dec_digits(out, n / 10);
        out.append(digit_str(n % 10));
        proof {
            assert(out@ =~= old(out)@ + dec_digits(n as int));
        }
    }
}

/// The framed form of an outbound message body: a `Content-Length` header
/// counting the body's UTF-8 bytes, a blank line, then the body.
pub open spec fn spec_frame_message(len: int, body: Seq<char>) -> Seq<char> {
    "Content-Length: "@ + dec_digits(len) + "\r\n\r\n"@ + body
}

/// Wrap a message body in the length-prefixed wire framing.
pub fn frame_message(body: &str) -> (r: String)
    ensures
        r@ == spec_frame_message(body.spec_bytes().len() as usize as int, body@),
{
    let mut out = String::new();
    out.append("Content-Length: ");
    push_dec_digits(&mut out, body.len());
    out.append("\r\n\r\n");
    out.append(body);
    out
}

/// Whitespace that header lines may carry around their parts.
pub open spec fn is_hws(c: char) -> bool {
    c == ' ' || c == '\t' || c == '\r' || c == '\n'
}

fn hws(c: char) -> (r: bool)
    ensures
        r == is_hws(c),
{
    c == ' ' || c == '\t' || c == '\r' || c == '\n'
}

/// End of the leading whitespace run from position `i`.
pub open spec fn hws_prefix_end(s: Seq<char>, i: int) -> int
    decreases s.len() - i,
{
    if 0 <= i < s.len() && is_hws(s[i]) {
        hws_prefix_end(s, i + 1)
    } else {
        i
    }
}

/// Start of the trailing whitespace run ending at position `e`.
pub open spec fn hws_suffix_start(s: Seq<char>, e: int) -> int
    decreases e,
{
    if 0 < e <= s.len() && is_hws(s[e - 1]) {
        hws_suffix_start(s, e - 1)
    } else {
        e
    }
}

/// A header part with surrounding whitespace removed.
pub open spec fn trim_h(s: Seq<char>) -> Seq<char> {
    let a = hws_prefix_end(s, 0);
    let b = hws_suffix_start(s, s.len() as int);
    if 0 <= a <= b <= s.len() {
        s.subrange(a, b)
    } else {
        Seq::empty()
    }
}

proof fn lemma_hws_prefix_end(s: Seq<char>, i: int)
    requires
        0 <= i <= s.len(),
    ensures
        i <= hws_prefix_end(s, i) <= s.len(),
    decreases s.len() - i,
{
    if 0 <= i < s.len() && is_hws(s[i]) {
        lemma_hws_prefix_end(s, i + 1);
    }
}

proof fn lemma_hws_suffix_start(s: Seq<char>, e: int)
    requires
        0 <= e <= s.len(),
    ensures
        0 <= hws_suffix_start(s, e) <= e,
    decreases e,
{
    if 0 < e <= s.len() && is_hws(s[e - 1]) {
        lemma_hws_suffix_start(s, e - 1);
    }
}

/// ASCII case-insensitive equality, as header names are matched.
pub open spec fn lower_u(c: char) -> int {
    if 65 <= c as u32 <= 90 {
        c as u32 + 32
    } else {
        c as u32 as int
    }
}

pub open spec fn spec_ieq(a: Seq<char>, b: Seq<char>) -> bool {
    a.len() == b.len() && forall|i: int| 0 <= i < a.len() ==> lower_u(a[i]) == lower_u(b[i])
}

fn char_lower_u(c: char) -> (r: u32)
    ensures
        r == lower_u(c),
{
    let u = c as u32;
    if 65 <= u && u <= 90 {
        u + 32
    } else {
        u
    }
}

fn str_ieq(a: &str, b: &str) -> (r: bool)
    ensures
        r == spec_ieq(a@, b@),
{
    let na = a.unicode_len();
    let nb = b.unicode_len();
    if na != nb {
        return false;
    }
    let mut i: usize = 0;
    while i < na
        invariant
            na == a@.len(),
            na == b@.len(),
            i <= na,
            forall|j: int| 0 <= j < i ==> lower_u(a@[j]) == lower_u(b@[j]),
        decreases na - i,
    {
        if char_lower_u(a.get_char(i)) != char_lower_u(b.get_char(i)) {
            return false;
        }
        i += 1;
    }
    true
}

/// First position of the `": "` separator in a header line, or `-1`.
pub open spec fn sep_from(l: Seq<char>, i: int) -> int
    decreases l.len() - i,
{
    if !(0 <= i < l.len()) {
        -1
    } else if l[i] == ':' && i + 1 < l.len() && l[i + 1] == ' ' {
        i
    } else {
        sep_from(l, i + 1)
    }
}

fn find_sep(line: &str) -> (r: Option<usize>)
    ensures
        match r {
            Some(c) => sep_from(line@, 0) == c as int && c + 1 < line@.len(),
            None => sep_from(line@, 0) == -1,
        },
{
    let n = line.unicode_len();
    let mut i: usize = 0;
    while i < n
        invariant
            n == line@.len(),
            i <= n,
            sep_from(line@, 0) == sep_from(line@, i as int),
        decreases n - i,
    {
        if line.get_char(i) == ':' && i + 1 < n && line.get_char(i + 1) == ' ' {
            return Some(i);
        }
        i += 1;
    }
    None
}

fn trim_part<'a>(line: &'a str, from: usize, to: usize) -> (r: &'a str)
    requires
        from <= to <= line@.len(),
    ensures
        r@ == trim_h(line@.subrange(from as int, to as int)),
{
    let ghost part = line@.subrange(from as int, to as int);
    let mut a = from;
    while a < to && hws(line.get_char(a))
        invariant
            from <= a <= to <= line@.len(),
            part == line@.subrange(from as int, to as int),
            hws_prefix_end(part, 0) == hws_prefix_end(part, a - from),
        decreases to - a,
    {
        proof {
            assert(part[a - from] == line@[a as int]);
        }
        a += 1;
    }
    let mut b = to;
    while b > a && hws(line.get_char(b - 1))
        invariant
            from <= a <= b <= to <= line@.len(),
            part == line@.subrange(from as int, to as int),
            hws_suffix_start(part, to - from) == hws_suffix_start(part, b - from),
        decreases b,
    {
        proof {
            assert(part[b - 1 - from] == line@[b - 1]);
        }
        b -= 1;
    }
    proof {
        lemma_hws_prefix_end(part, 0);
        lemma_hws_suffix_start(part, part.len() as int);
        lemma_hws_suffix_start(part, b - from);
        if a < to {
            assert(part[a - from] == line@[a as int]);
        }
        assert(hws_prefix_end(part, a - from) == a - from);
        if b > a {
            assert(part[b - 1 - from] == line@[b - 1]);
            assert(hws_suffix_start(part, b - from) == b - from);
            assert(line@.subrange(a as int, b as int) =~= part.subrange(a - from, b - from));
        } else {
            assert(hws_suffix_start(part, part.len() as int) <= a - from);
            assert(line@.subrange(a as int, b as int) =~= Seq::<char>::empty());
            let a0 = hws_prefix_end(part, 0);
            let b0 = hws_suffix_start(part, part.len() as int);
            if 0 <= a0 <= b0 <= part.len() {
                assert(part.subrange(a0, b0) =~= Seq::<char>::empty());
            }
        }
    }
    line.substring_char(a, b)
}

/// What a frame's header line declares: the content type, a content
/// length, or nothing recognizable. The name before the `": "` separator
/// is matched case-insensitively; the value must be the byte count in
/// decimal.
pub open spec fn spec_parse_lsp_header(l: Seq<char>) -> Option<LspHeader> {
    let sep = sep_from(l, 0);
    if sep < 0 {
        None
    } else {
        let key = trim_h(l.subrange(0, sep));
        let value = trim_h(l.subrange(sep + 2, l.len() as int));
        if spec_ieq(key, "content-type"@) {
            Some(LspHeader::ContentType)
        } else if spec_ieq(key, "content-length"@) {
            if value.len() > 0 && crate::parsers::text::all_digits(value)
                && crate::parsers::text::dec_val(value) <= usize::MAX {
                Some(LspHeader::ContentLength(crate::parsers::text::dec_val(value) as usize))
            } else {
                None
            }
        } else {
            None
        }
    }
}

/// Parse one header line of an inbound frame.
pub fn parse_lsp_header(line: &str) -> (r: Option<LspHeader>)
    ensures
        match r {
            Some(h) => spec_parse_lsp_header(line@) == Some(h),
            None => spec_parse_lsp_header(line@) is None,
        },
{
    let n = line.unicode_len();
    let sep = match find_sep(line) {
        Some(c) => c,
        None => {
            return None;
        },
    };
    let key = trim_part(line, 0, sep);
    let value = trim_part(line, sep + 2, n);
    if str_ieq(key, "content-type") {
        Some(LspHeader::ContentType)
    } else if str_ieq(key, "content-length") {
        match parse_content_length(value) {
            Some(v) => Some(LspHeader::ContentLength(v)),
            None => None,
        }
    } else {
        None
    }
}

fn parse_content_length(value: &str) -> (r: Option<usize>)
    ensures
        match r {
            Some(v) => value@.len() > 0 && crate::parsers::text::all_digits(value@)
                && crate::parsers::text::dec_val(value@) == v as int,
            None => !(value@.len() > 0 && crate::parsers::text::all_digits(value@)
                && crate::parsers::text::dec_val(value@) <= usize::MAX),
        },
{
    let n = value.unicode_len();
    if n == 0 {
        return None;
    }
    let ghost s = value@;
    let mut acc: usize = 0;
    let mut i: usize = 0;
    while i < n
        invariant
            n == value@.len(),
            s == value@,
            n > 0,
            i <= n,
            crate::parsers::text::all_digits(s.subrange(0, i as int)),
            acc == crate::parsers::text::dec_val(s.subrange(0, i as int)),
        decreases n - i,
    {
        let c = value.get_char(i);
        let u = c as u32;
        if !(48 <= u && u <= 57) {
            return None;
        }
        let d = (u - 48) as usize;
        proof {
            let p = s.subrange(0, i as int);
            let q = s.subrange(0, i + 1 as int);
            assert(q.drop_last() =~= p);
            assert(q.last() == c);
        }
        if acc > (usize::MAX - d) / 10 {
            proof {
                assert(acc * 10 + d > usize::MAX) by (nonlinear_arith)
                    requires
                        acc > (usize::MAX - d) / 10,
                        d < 10,
                        acc >= 0,
                ;
                if crate::parsers::text::all_digits(s) {
                    crate::parsers::text::lemma_dec_val_prefix_le(s, i + 1);
                }
            }
            return None;
        }
        proof {
            assert(acc * 10 + d <= usize::MAX) by (nonlinear_arith)
                requires
                    acc <= (usize::MAX - d) / 10,
                    d < 10,
                    acc >= 0,
            ;
        }
        acc = acc * 10 + d;
        i += 1;
    }
    proof {
        assert(s.subrange(0, n as int) =~= s);
    }
    Some(acc)
}

} // verus!

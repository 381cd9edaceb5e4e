//! The shared line scanner of both diff dialects.
//!
//! The grammar is processed line by line with explicit state: a header
//! phase, file-marker lines, hunk headers, content lines, review-comment
//! blocks (review dialect only), and an end-of-hunks sentinel. The scanner
//! is specified as a fold (`spec_scan`) of `scan_line` over the lines of
//! the text; the executable scanner is proved to compute exactly that fold.

use vstd::prelude::*;
use vstd::string::*;

use crate::parsers::text::{spec_starts_with, str_starts_with};
use crate::parsers::utils::{
    header_kv, is_marker_line, marker_path, spec_header_kv, spec_diff_header,
    spec_line_type, spec_parse_hunk_header, DiffHeader, DiffLine, DiffLineV, HeaderMap, LineEntry,
    LineEntryV, LineMap, LineType, SourceLineNumber,
};

verus! {

/// The two diff text formats the parser accepts. They share one grammar;
/// the policy difference is that only the review dialect carries embedded
/// comment blocks.
#[derive(Debug, Copy, Clone, PartialEq, Eq, Structural)]
pub enum Dialect {
    MagitStatus,
    CodeReview,
}

pub open spec fn dialect_has_comments(d: Dialect) -> bool {
    d is CodeReview
}

fn exec_dialect_has_comments(d: Dialect) -> (r: bool)
    ensures
        r == dialect_has_comments(d),
{
    match d {
        Dialect::CodeReview => true,
        Dialect::MagitStatus => false,
    }
}

/// A line that opens a review-comment block.
pub open spec fn is_opener(l: Seq<char>) -> bool {
    spec_starts_with(l, "Reviewed by"@) || spec_starts_with(l, "Comment by"@)
}

/// A line of dashes that closes a review-comment block.
pub open spec fn is_closer(l: Seq<char>) -> bool {
    spec_starts_with(l, "-------"@)
}

/// The trailer line that ends hunk scanning.
pub open spec fn is_sentinel(l: Seq<char>) -> bool {
    spec_starts_with(l, "Recent commits"@)
}

/// The scanner's state between lines.
pub ghost struct ScanState {
    /// Still in the leading `key: value` header block.
    pub in_headers: bool,
    /// The end-of-hunks sentinel was seen; scanning is over.
    pub done: bool,
    /// The text was malformed (a bad hunk header, a marker without a path,
    /// or a value outside the line-number range); no diff is produced.
    pub failed: bool,
    /// Inside a review-comment block.
    pub in_review: bool,
    /// A hunk header has been seen, so content lines are being recorded.
    pub building_hunk: bool,
    /// The relative path of the file the current lines belong to.
    pub current_file: Seq<char>,
    /// The new-file start line the current hunk header declared.
    pub new_start: int,
    /// Added/unmodified lines recorded since the current hunk header.
    pub offset: int,
    pub headers: Map<DiffHeader, Seq<char>>,
    pub filenames: Seq<Seq<char>>,
    pub lines: Map<u16, LineEntryV>,
}

pub open spec fn init_state() -> ScanState {
    ScanState {
        in_headers: true,
        done: false,
        failed: false,
        in_review: false,
        building_hunk: false,
        current_file: Seq::empty(),
        new_start: 0,
        offset: 0,
        headers: Map::empty(),
        filenames: Seq::empty(),
        lines: Map::empty(),
    }
}

/// One transition of the scanner: process the line at (0-based) index `idx`.
pub open spec fn scan_line(d: Dialect, st: ScanState, l: Seq<char>, idx: int) -> ScanState {
    if st.in_headers {
        match spec_header_kv(l) {
            Some((k, v)) => match spec_diff_header(k) {
                Some(h) => ScanState { headers: st.headers.insert(h, v), ..st },
                None => st,
            },
            None => ScanState { in_headers: false, ..st },
        }
    } else if st.in_review {
        if is_closer(l) {
            ScanState { in_review: false, ..st }
        } else {
            st
        }
    } else if is_marker_line(l) {
        match marker_path(l) {
            None => ScanState { failed: true, ..st },
            Some(p) => ScanState {
                current_file: p,
                filenames: if st.filenames.contains(p) {
                    st.filenames
                } else {
                    st.filenames.push(p)
                },
                ..st
            },
        }
    } else if spec_starts_with(l, "@@"@) {
        match spec_parse_hunk_header(l) {
            None => ScanState { failed: true, ..st },
            Some((a, b, c, e)) => ScanState {
                building_hunk: true,
                new_start: c as int,
                offset: 0,
                ..st
            },
        }
    } else if is_sentinel(l) {
        ScanState { done: true, ..st }
    } else if st.building_hunk && dialect_has_comments(d) && is_opener(l) {
        ScanState { in_review: true, ..st }
    } else if st.building_hunk {
        let src = st.new_start + st.offset;
        if idx + 1 > u16::MAX || src > u16::MAX {
            ScanState { failed: true, ..st }
        } else {
            let lt = spec_line_type(l);
            ScanState {
                lines: st.lines.insert(
                    (idx + 1) as u16,
                    LineEntryV {
                        filename: st.current_file,
                        diff_line: DiffLineV {
                            line_type: lt,
                            line: l,
                            source_line_number: src as u16,
                        },
                    },
                ),
                offset: if lt is Removed {
                    st.offset
                } else {
                    st.offset + 1
                },
                ..st
            }
        }
    } else {
        st
    }
}

/// The scanner's state after the first `n` lines; `done` and `failed` stop
/// the fold.
pub open spec fn spec_scan(d: Dialect, lines: Seq<Seq<char>>, n: int) -> ScanState
    decreases n,
{
    if n <= 0 {
        init_state()
    } else {
        let st = spec_scan(d, lines, n - 1);
        if st.done || st.failed {
            st
        } else {
            scan_line(d, st, lines[n - 1], n - 1)
        }
    }
}

/// Once the fold has stopped, later lines change nothing.
pub proof fn lemma_scan_sticky(d: Dialect, lines: Seq<Seq<char>>, m: int, n: int)
    requires
        0 <= m <= n,
        spec_scan(d, lines, m).done || spec_scan(d, lines, m).failed,
    ensures
        spec_scan(d, lines, n) == spec_scan(d, lines, m),
    decreases n - m,
{
    if n > m {
        lemma_scan_sticky(d, lines, m, n - 1);
    }
}

/// What the executable scanner returns: the three populated tables.
pub struct ScanResult {
    pub headers: HeaderMap,
    pub filenames: Vec<String>,
    pub lines_map: LineMap,
}

fn vec_contains_string(v: &Vec<String>, s: &String) -> (r: bool)
    ensures
        r == v.deep_view().contains(s@),
{
    let n = v.len();
    let mut i: usize = 0;
    while i < n
        invariant
            n == v@.len(),
            i <= n,
            forall|j: int| 0 <= j < i ==> v.deep_view()[j] != s@,
        decreases n - i,
    {
        if crate::parsers::text::str_eq(v[i].as_str(), s.as_str()) {
            proof {
                assert(v.deep_view()[i as int] == v@[i as int]@);
                assert(v.deep_view()[i as int] == s@);
            }
            return true;
        }
        proof {
            assert(v.deep_view()[i as int] == v@[i as int]@);
        }
        i += 1;
    }
    proof {
        if v.deep_view().contains(s@) {
            let j = choose|j: int| 0 <= j < v.deep_view().len() && v.deep_view()[j] == s@;
            assert(v.deep_view()[j] != s@);
        }
    }
    false
}

/// Run the scanner over the lines of a diff text. Returns `None` exactly
/// when the fold reaches a `failed` state: a malformed hunk header, a file
/// marker without a path, or a line number outside the `u16` range.
pub fn scan_lines(d: Dialect, lines: &Vec<String>) -> (r: Option<ScanResult>)
    ensures
        ({
            let st = spec_scan(d, lines.deep_view(), lines.deep_view().len() as int);
            match r {
                Some(sr) => {
                    &&& !st.failed
                    &&& sr.headers@ == st.headers
                    &&& sr.headers.wf()
                    &&& sr.filenames.deep_view() == st.filenames
                    &&& sr.lines_map@ == st.lines
                    &&& sr.lines_map.wf()
                },
                None => st.failed,
            }
        }),
{
    let ghost ldv = lines.deep_view();
    let n = lines.len();
    proof {
        assert(ldv.len() == n);
    }
    let mut headers = HeaderMap::new();
    let mut filenames: Vec<String> = Vec::new();
    let mut lines_map = LineMap::new();
    let mut in_headers = true;
    let mut in_review = false;
    let mut building = false;
    let mut current_file = String::new();
    let mut new_start: u16 = 0;
    let mut offset: u32 = 0;
    let mut i: usize = 0;
    proof {
        assert(filenames.deep_view() =~= Seq::<Seq<char>>::empty());
    }
    while i < n
        invariant
            n == lines@.len(),
            ldv == lines.deep_view(),
            i <= n,
            ({
                let st = spec_scan(d, ldv, i as int);
                &&& !st.failed
                &&& !st.done
                &&& st.in_headers == in_headers
                &&& st.in_review == in_review
                &&& st.building_hunk == building
                &&& st.current_file == current_file@
                &&& st.new_start == new_start as int
                &&& st.offset == offset as int
                &&& offset <= 65536
                &&& headers@ == st.headers
                &&& headers.wf()
                &&& filenames.deep_view() == st.filenames
                &&& lines_map@ == st.lines
                &&& lines_map.wf()
                &&& lines_map.key_bound(i + 1)
            }),
        decreases n - i,
    {
        let ghost st = spec_scan(d, ldv, i as int);
        let ghost lv = ldv[i as int];
        proof {
            assert(lv == lines@[i as int]@);
        }
        let line = lines[i].as_str();
        let ghost st2 = scan_line(d, st, lv, i as int);
        proof {
            assert(spec_scan(d, ldv, i + 1 as int) == st2);
        }
        if in_headers {
            match header_kv(line) {
                Some((hopt, v)) => {
                    match hopt {
                        Some(h) => {
                            headers.insert(h, v);
                        },
                        None => {},
                    }
                },
                None => {
                    in_headers = false;
                },
            }
        } else if in_review {
            if str_starts_with(line, "-------") {
                in_review = false;
            }
        } else if crate::parsers::utils::exec_is_marker_line(line) {
            match crate::parsers::utils::exec_marker_path(line) {
                None => {
                    proof {
                        assert(st2.failed);
                        lemma_scan_sticky(d, ldv, i + 1, ldv.len() as int);
                    }
                    return None;
                },
                Some(p) => {
                    if !vec_contains_string(&filenames, &p) {
                        let ghost old_fn = filenames.deep_view();
                        filenames.push(p.clone());
                        proof {
                            assert(filenames.deep_view() =~= old_fn.push(p@));
                        }
                    }
                    current_file = p;
                },
            }
        } else if str_starts_with(line, "@@") {
            match crate::parsers::utils::parse_header(line) {
                None => {
                    proof {
                        assert(st2.failed);
                        lemma_scan_sticky(d, ldv, i + 1, ldv.len() as int);
                    }
                    return None;
                },
                Some((a, b, c, e)) => {
                    building = true;
                    new_start = c;
                    offset = 0;
                },
            }
        } else if str_starts_with(line, "Recent commits") {
            proof {
                assert(st2.done);
                lemma_scan_sticky(d, ldv, i + 1, ldv.len() as int);
            }
            return Some(ScanResult { headers, filenames, lines_map });
        } else if building && exec_dialect_has_comments(d) && (str_starts_with(line, "Reviewed by")
            || str_starts_with(line, "Comment by")) {
            in_review = true;
        } else if building {
            if i >= 65535 {
                proof {
                    assert(st2.failed);
                    lemma_scan_sticky(d, ldv, i + 1, ldv.len() as int);
                }
                return None;
            }
            let src: u32 = new_start as u32 + offset;
            if src > 65535 {
                proof {
                    assert(st2.failed);
                    lemma_scan_sticky(d, ldv, i + 1, ldv.len() as int);
                }
                return None;
            }
            let lt = LineType::from_line(line);
            let entry = LineEntry {
                input_line: (i + 1) as u16,
                filename: current_file.clone(),
                diff_line: DiffLine {
                    line_type: lt,
                    line: lines[i].clone(),
                    source_line_number: SourceLineNumber(src as u16),
                },
            };
            proof {
                assert(entry.val() == LineEntryV {
                    filename: st.current_file,
                    diff_line: DiffLineV {
                        line_type: spec_line_type(lv),
                        line: lv,
                        source_line_number: (st.new_start + st.offset) as u16,
                    },
                });
            }
            lines_map.push_entry(entry);
            match lt {
                LineType::Removed => {},
                _ => {
                    offset = offset + 1;
                },
            }
        } else {
        }
        i += 1;
    }
    proof {
        let st = spec_scan(d, ldv, n as int);
        assert(!st.failed);
    }
    Some(ScanResult { headers, filenames, lines_map })
}

/// What parsing a whole text under one dialect yields: the model of the
/// tables, or `None` when the scan reached a `failed` state.
pub open spec fn spec_parse_dialect(d: Dialect, text: Seq<char>) -> Option<
    crate::parsers::utils::ParsedDiffV,
> {
    let ls = crate::parsers::text::spec_lines(text);
    let st = spec_scan(d, ls, ls.len() as int);
    if st.failed {
        None
    } else {
        Some(
            crate::parsers::utils::ParsedDiffV {
                headers: st.headers,
                filenames: st.filenames,
                lines: st.lines,
            },
        )
    }
}

/// Dialect dispatch: the text is parsed as a review diff when it carries
/// the `Type: code-review` marker, as a status diff when it carries
/// `Type: magit-status`, and not at all otherwise.
pub open spec fn spec_parse(text: Seq<char>) -> Option<crate::parsers::utils::ParsedDiffV> {
    if crate::parsers::text::spec_contains(text, "Type: code-review"@) {
        spec_parse_dialect(Dialect::CodeReview, text)
    } else if crate::parsers::text::spec_contains(text, "Type: magit-status"@) {
        spec_parse_dialect(Dialect::MagitStatus, text)
    } else {
        None
    }
}

/// A line that a hunk in progress records as content: not a file marker,
/// not a hunk header, not the trailer, and (in the review dialect) not a
/// comment opener.
pub open spec fn plain_content_line(d: Dialect, l: Seq<char>) -> bool {
    &&& !is_marker_line(l)
    &&& !spec_starts_with(l, "@@"@)
    &&& !is_sentinel(l)
    &&& !(dialect_has_comments(d) && is_opener(l))
}

/// How many of the lines with index in `[b, j)` are added or unmodified,
/// the lines that consume an offset slot.
pub open spec fn count_au(lines: Seq<Seq<char>>, b: int, j: int) -> int
    decreases j - b,
{
    if j <= b {
        0
    } else {
        count_au(lines, b, j - 1) + (if spec_line_type(lines[j - 1]) is Removed {
            0int
        } else {
            1int
        })
    }
}

pub proof fn lemma_count_au_bounds(lines: Seq<Seq<char>>, b: int, k: int, j: int)
    requires
        b <= k <= j,
    ensures
        0 <= count_au(lines, b, k) <= count_au(lines, b, j) <= j - b,
    decreases j - b,
{
    if j > b {
        if k == j {
            lemma_count_au_bounds(lines, b, j - 1, j - 1);
        } else {
            lemma_count_au_bounds(lines, b, k, j - 1);
        }
    }
}

/// Every key the scan has recorded is an input line number at most `n`.
pub proof fn lemma_scan_keys_bounded(d: Dialect, lines: Seq<Seq<char>>, n: int)
    requires
        0 <= n,
    ensures
        forall|q: u16| #[trigger] spec_scan(d, lines, n).lines.contains_key(q) ==> 1 <= q <= n,
    decreases n,
{
    if n > 0 {
        lemma_scan_keys_bounded(d, lines, n - 1);
        let st = spec_scan(d, lines, n - 1);
        let stn = spec_scan(d, lines, n);
        assert forall|q: u16| #[trigger] stn.lines.contains_key(q) implies 1 <= q <= n by {
            if !st.lines.contains_key(q) {
                assert(q == (((n - 1) + 1) as u16));
                assert((n - 1) + 1 <= u16::MAX);
            }
        }
    }
}

/// A key can only enter the mapping at the step that processes its own
/// line, so one absent then is absent for good.
pub proof fn lemma_scan_key_origin(d: Dialect, lines: Seq<Seq<char>>, q: u16, n: int)
    requires
        q <= n,
        !spec_scan(d, lines, q as int).lines.contains_key(q),
    ensures
        !spec_scan(d, lines, n).lines.contains_key(q),
    decreases n - q,
{
    if n > q {
        lemma_scan_key_origin(d, lines, q, n - 1);
    }
}

/// The opening line of a comment block fits no other rule of the grammar.
proof fn lemma_opener_shape(l: Seq<char>)
    requires
        is_opener(l),
    ensures
        !is_marker_line(l),
        !spec_starts_with(l, "@@"@),
        !is_sentinel(l),
{
    reveal_strlit("Reviewed by");
    reveal_strlit("Comment by");
    reveal_strlit("modified");
    reveal_strlit("new file");
    reveal_strlit("deleted");
    reveal_strlit("@@");
    reveal_strlit("Recent commits");
    if spec_starts_with(l, "Reviewed by"@) {
        assert(l.subrange(0, 11)[0] == l[0]);
        assert(l[0] == 'R');
        assert(l.subrange(0, 11)[2] == l[2]);
        assert(l[2] == 'v');
        if spec_starts_with(l, "modified"@) {
            assert(l.subrange(0, 8)[0] == l[0]);
        }
        if spec_starts_with(l, "new file"@) {
            assert(l.subrange(0, 8)[0] == l[0]);
        }
        if spec_starts_with(l, "deleted"@) {
            assert(l.subrange(0, 7)[0] == l[0]);
        }
        if spec_starts_with(l, "@@"@) {
            assert(l.subrange(0, 2)[0] == l[0]);
        }
        if spec_starts_with(l, "Recent commits"@) {
            assert(l.subrange(0, 14)[2] == l[2]);
        }
    } else {
        assert(spec_starts_with(l, "Comment by"@));
        assert(l.subrange(0, 10)[0] == l[0]);
        assert(l[0] == 'C');
        if spec_starts_with(l, "modified"@) {
            assert(l.subrange(0, 8)[0] == l[0]);
        }
        if spec_starts_with(l, "new file"@) {
            assert(l.subrange(0, 8)[0] == l[0]);
        }
        if spec_starts_with(l, "deleted"@) {
            assert(l.subrange(0, 7)[0] == l[0]);
        }
        if spec_starts_with(l, "@@"@) {
            assert(l.subrange(0, 2)[0] == l[0]);
        }
        if spec_starts_with(l, "Recent commits"@) {
            assert(l.subrange(0, 14)[0] == l[0]);
        }
    }
}

/// The entry the offset law says a content line is recorded under.
pub open spec fn content_entry(
    st0: ScanState,
    lines: Seq<Seq<char>>,
    b: int,
    k: int,
) -> LineEntryV {
    LineEntryV {
        filename: st0.current_file,
        diff_line: DiffLineV {
            line_type: spec_line_type(lines[k]),
            line: lines[k],
            source_line_number: (st0.new_start + count_au(lines, b, k)) as u16,
        },
    }
}

/// An entry stands in the mapping under the input line number of the line
/// at (0-based) index `k`.
pub open spec fn recorded_at(m: Map<u16, LineEntryV>, k: int, e: LineEntryV) -> bool {
    m.contains_key((k + 1) as u16) && m[(k + 1) as u16] == e
}

/// *Round-trip offset law.* Let the scan stand just after a hunk header
/// declaring new-file start `c` (`building_hunk`, offset `0`), and let the
/// lines at indices `[b, j)` all be plain content. Then the line at index
/// `k` is recorded under input line `k + 1` with source line `c + a(k)`,
/// where `a(k)` counts the added/unmodified lines before it in the run: the
/// k-th added/unmodified line maps to source line `c + k`, and removed
/// lines consume no offset slot. Everything recorded earlier is unchanged.
pub proof fn lemma_hunk_offset_law(d: Dialect, lines: Seq<Seq<char>>, b: int, j: int)
    requires
        0 <= b <= j <= lines.len(),
        j <= 65535,
        ({
            let st0 = spec_scan(d, lines, b);
            &&& !st0.failed
            &&& !st0.done
            &&& !st0.in_headers
            &&& !st0.in_review
            &&& st0.building_hunk
            &&& st0.offset == 0
            &&& 0 <= st0.new_start
            &&& st0.new_start + count_au(lines, b, j) <= 65535
        }),
        forall|k: int| b <= k < j ==> plain_content_line(d, lines[k]),
    ensures
        ({
            let st0 = spec_scan(d, lines, b);
            let stj = spec_scan(d, lines, j);
            &&& !stj.failed
            &&& !stj.done
            &&& !stj.in_headers
            &&& !stj.in_review
            &&& stj.building_hunk
            &&& stj.new_start == st0.new_start
            &&& stj.offset == count_au(lines, b, j)
            &&& stj.current_file == st0.current_file
            &&& stj.headers == st0.headers
            &&& stj.filenames == st0.filenames
            &&& forall|k: int|
                b <= k < j ==> #[trigger] recorded_at(
                    stj.lines,
                    k,
                    content_entry(st0, lines, b, k),
                )
            &&& forall|q: u16| #[trigger] st0.lines.contains_key(q) ==> stj.lines.contains_key(q)
                && stj.lines[q] == st0.lines[q]
        }),
    decreases j - b,
{
    let st0 = spec_scan(d, lines, b);
    if j > b {
        lemma_count_au_bounds(lines, b, j - 1, j);
        lemma_hunk_offset_law(d, lines, b, j - 1);
        lemma_scan_keys_bounded(d, lines, b);
        let stp = spec_scan(d, lines, j - 1);
        let l = lines[j - 1];
        assert(plain_content_line(d, l));
        let stj = spec_scan(d, lines, j);
        assert(stj == scan_line(d, stp, l, j - 1));
        let key = ((j - 1) + 1) as u16;
        assert(stj.lines == stp.lines.insert(key, content_entry(st0, lines, b, j - 1)));
        assert(recorded_at(stj.lines, j - 1, content_entry(st0, lines, b, j - 1)));
        assert forall|k: int| b <= k < j - 1 implies #[trigger] recorded_at(
            stj.lines,
            k,
            content_entry(st0, lines, b, k),
        ) by {
            assert(recorded_at(stp.lines, k, content_entry(st0, lines, b, k)));
            assert(((k + 1) as u16) != key);
        }
        assert forall|q: u16| #[trigger] st0.lines.contains_key(q) implies stj.lines.contains_key(
            q,
        ) && stj.lines[q] == st0.lines[q] by {
            assert(q <= b);
            assert(q != key);
        }
    }
}

/// While a comment block is open, lines that are not its closer are
/// consumed and skipped: the review flag stays set and the mapping does
/// not change.
proof fn lemma_review_persists(lines: Seq<Seq<char>>, o: int, j: int)
    requires
        0 <= o < j <= lines.len(),
        ({
            let st0 = spec_scan(Dialect::CodeReview, lines, o);
            &&& !st0.failed
            &&& !st0.done
            &&& !st0.in_headers
            &&& !st0.in_review
            &&& st0.building_hunk
        }),
        is_opener(lines[o]),
        forall|k: int| o < k < j ==> !is_closer(lines[k]),
    ensures
        ({
            let st0 = spec_scan(Dialect::CodeReview, lines, o);
            let stj = spec_scan(Dialect::CodeReview, lines, j);
            &&& !stj.failed
            &&& !stj.done
            &&& stj.in_review
            &&& stj.lines == st0.lines
        }),
    decreases j - o,
{
    if j == o + 1 {
        lemma_opener_shape(lines[o]);
    } else {
        lemma_review_persists(lines, o, j - 1);
    }
}

/// *Comment-block exclusion.* In the review dialect, when the line at
/// index `o` opens a comment block inside a hunk and the line at index `c`
/// is the first subsequent dash line closing it, every input line number
/// strictly between them is absent from the final mapping: a comment line
/// maps to nothing.
pub proof fn lemma_comment_block_exclusion(lines: Seq<Seq<char>>, o: int, c: int, n: int)
    requires
        0 <= o < c < lines.len(),
        c <= n <= lines.len(),
        c <= 65535,
        ({
            let st0 = spec_scan(Dialect::CodeReview, lines, o);
            &&& !st0.failed
            &&& !st0.done
            &&& !st0.in_headers
            &&& !st0.in_review
            &&& st0.building_hunk
        }),
        is_opener(lines[o]),
        is_closer(lines[c]),
        forall|k: int| o < k < c ==> !is_closer(lines[k]),
    ensures
        forall|k: int|
            o < k < c ==> !spec_scan(Dialect::CodeReview, lines, n).lines.contains_key(
                #[trigger] ((k + 1) as u16),
            ),
{
    lemma_scan_keys_bounded(Dialect::CodeReview, lines, o);
    assert forall|k: int|
        o < k < c implies !spec_scan(Dialect::CodeReview, lines, n).lines.contains_key(
        #[trigger] ((k + 1) as u16),
    ) by {
        lemma_review_persists(lines, o, k + 1);
        let q = (k + 1) as u16;
        assert(!spec_scan(Dialect::CodeReview, lines, k + 1).lines.contains_key(q)) by {
            assert(spec_scan(Dialect::CodeReview, lines, k + 1).lines == spec_scan(
                Dialect::CodeReview,
                lines,
                o,
            ).lines);
        }
        lemma_scan_key_origin(Dialect::CodeReview, lines, q, n);
    }
}

/// A sequence of names with no duplicates.
pub open spec fn seq_no_dups(s: Seq<Seq<char>>) -> bool {
    forall|i: int, j: int| 0 <= i < j < s.len() ==> s[i] != s[j]
}

/// The scan never records the same filename twice.
pub proof fn lemma_scan_filenames_unique(d: Dialect, lines: Seq<Seq<char>>, n: int)
    requires
        0 <= n,
    ensures
        seq_no_dups(spec_scan(d, lines, n).filenames),
    decreases n,
{
    if n > 0 {
        lemma_scan_filenames_unique(d, lines, n - 1);
        let st = spec_scan(d, lines, n - 1);
        let stn = spec_scan(d, lines, n);
        if stn.filenames != st.filenames {
            let p = choose|p: Seq<char>| stn.filenames == st.filenames.push(p) && !st.filenames.contains(p);
            assert forall|i: int, j: int| 0 <= i < j < stn.filenames.len() implies stn.filenames[i]
                != stn.filenames[j] by {
                if j == stn.filenames.len() - 1 {
                    assert(st.filenames.contains(st.filenames[i]));
                }
            }
        }
    }
}

/// *Uniqueness.* A parsed diff's filename list holds no duplicates, even
/// when one file is touched by several hunks or markers.
pub proof fn lemma_parsed_filenames_unique(text: Seq<char>, m: crate::parsers::utils::ParsedDiffV)
    requires
        spec_parse(text) == Some(m),
    ensures
        seq_no_dups(m.filenames),
{
    let ls = crate::parsers::text::spec_lines(text);
    lemma_scan_filenames_unique(Dialect::CodeReview, ls, ls.len() as int);
    lemma_scan_filenames_unique(Dialect::MagitStatus, ls, ls.len() as int);
}

/// *Idempotence.* The parsed model is a function of the text alone: two
/// parses of the same text agree on headers, filenames and the line
/// mapping (the diagnostic timestamp stands outside the model).
pub proof fn lemma_parse_idempotent(
    text: Seq<char>,
    m1: crate::parsers::utils::ParsedDiffV,
    m2: crate::parsers::utils::ParsedDiffV,
)
    requires
        spec_parse(text) == Some(m1),
        spec_parse(text) == Some(m2),
    ensures
        m1 == m2,
{
}

} // verus!

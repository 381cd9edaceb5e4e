//! The shared data model of both diff dialects: line classification, the
//! header-key set, the hunk-header grammar, file-marker lines, and the
//! `ParsedDiff` mapping that the line mapper queries.

use vstd::prelude::*;
use vstd::string::*;

use crate::parsers::text::{
    all_digits, dec_val, digit_run_end, is_ws_char, lemma_digit_run_end, lemma_nonws_run_end,
    lemma_ws_run_end, nonws_run_end, parse_u16_in, spec_starts_with, str_eq, str_starts_with,
    ws_run_end,
};

verus! {

/// Classification of one content line of a hunk, from its first character.
#[derive(Debug, Copy, Clone, PartialEq, Eq, Structural)]
pub enum LineType {
    Added,
    Removed,
    Unmodified,
}

/// The classification the first character of a line selects.
pub open spec fn spec_line_type(l: Seq<char>) -> LineType {
    if l.len() > 0 && l[0] == '+' {
        LineType::Added
    } else if l.len() > 0 && l[0] == '-' {
        LineType::Removed
    } else {
        LineType::Unmodified
    }
}

impl LineType {
    pub fn from_line(line: &str) -> (r: Self)
        ensures
            r == spec_line_type(line@),
    {
        if line.unicode_len() == 0 {
            return LineType::Unmodified;
        }
        let c = line.get_char(0);
        if c == '+' {
            LineType::Added
        } else if c == '-' {
            LineType::Removed
        } else {
            LineType::Unmodified
        }
    }
}

/// A 1-indexed line number within the raw diff text as the editor sees it.
#[derive(Debug, Copy, Clone, PartialEq, Eq, Structural, PartialOrd, Ord, Hash)]
pub struct InputLineNumber(pub u16);

impl InputLineNumber {
    pub fn new(value: u16) -> (r: Self)
        ensures
            r.0 == value,
    {
        InputLineNumber(value)
    }
}

/// A 1-indexed line number within the real on-disk source file.
#[derive(Debug, Copy, Clone, PartialEq, Eq, Structural, PartialOrd, Ord)]
pub struct SourceLineNumber(pub u16);

impl SourceLineNumber {
    pub fn new(value: u16) -> (r: Self)
        ensures
            r.0 == value,
    {
        SourceLineNumber(value)
    }
}

/// A single content line of a hunk.
#[derive(Debug, PartialEq)]
pub struct DiffLine {
    pub line_type: LineType,
    pub line: String,
    pub source_line_number: SourceLineNumber,
}

/// Mathematical model of a `DiffLine`.
pub ghost struct DiffLineV {
    pub line_type: LineType,
    pub line: Seq<char>,
    pub source_line_number: u16,
}

impl View for DiffLine {
    type V = DiffLineV;

    open spec fn view(&self) -> DiffLineV {
        DiffLineV {
            line_type: self.line_type,
            line: self.line@,
            source_line_number: self.source_line_number.0,
        }
    }
}

impl Clone for DiffLine {
    fn clone(&self) -> (r: Self)
        ensures
            r@ == self@,
    {
        DiffLine {
            line_type: self.line_type,
            line: self.line.clone(),
            source_line_number: self.source_line_number,
        }
    }
}

/// The closed set of metadata keys a diff's header block may carry.
#[derive(Hash, PartialEq, Eq, Structural, Debug, Clone, Copy)]
pub enum DiffHeader {
    Project,
    Root,
    Buffer,
    Type,
    Head,
    Merge,
    Push,
    Draft,
    State,
}

/// The header key a name selects, if it is in the closed set.
pub open spec fn spec_diff_header(k: Seq<char>) -> Option<DiffHeader> {
    if k == "Project"@ {
        Some(DiffHeader::Project)
    } else if k == "Root"@ {
        Some(DiffHeader::Root)
    } else if k == "Buffer"@ {
        Some(DiffHeader::Buffer)
    } else if k == "Type"@ {
        Some(DiffHeader::Type)
    } else if k == "Head"@ {
        Some(DiffHeader::Head)
    } else if k == "Merge"@ {
        Some(DiffHeader::Merge)
    } else if k == "Push"@ {
        Some(DiffHeader::Push)
    } else if k == "Draft"@ {
        Some(DiffHeader::Draft)
    } else if k == "State"@ {
        Some(DiffHeader::State)
    } else {
        None
    }
}

impl DiffHeader {
    pub fn from_name(name: &str) -> (r: Option<DiffHeader>)
        ensures
            r == spec_diff_header(name@),
    {
        if str_eq(name, "Project") {
            Some(DiffHeader::Project)
        } else if str_eq(name, "Root") {
            Some(DiffHeader::Root)
        } else if str_eq(name, "Buffer") {
            Some(DiffHeader::Buffer)
        } else if str_eq(name, "Type") {
            Some(DiffHeader::Type)
        } else if str_eq(name, "Head") {
            Some(DiffHeader::Head)
        } else if str_eq(name, "Merge") {
            Some(DiffHeader::Merge)
        } else if str_eq(name, "Push") {
            Some(DiffHeader::Push)
        } else if str_eq(name, "Draft") {
            Some(DiffHeader::Draft)
        } else if str_eq(name, "State") {
            Some(DiffHeader::State)
        } else {
            None
        }
    }
}

/// An association list from header keys to values, with each key held once.
#[derive(Debug)]
pub struct HeaderMap {
    entries: Vec<(DiffHeader, String)>,
}

pub open spec fn header_entries_map(s: Seq<(DiffHeader, String)>) -> Map<DiffHeader, Seq<char>>
    decreases s.len(),
{
    if s.len() == 0 {
        Map::empty()
    } else {
        header_entries_map(s.drop_last()).insert(s.last().0, s.last().1@)
    }
}

pub open spec fn header_keys_unique(s: Seq<(DiffHeader, String)>) -> bool {
    forall|i: int, j: int| 0 <= i < j < s.len() ==> s[i].0 != s[j].0
}

proof fn lemma_header_entries_map(s: Seq<(DiffHeader, String)>)
    ensures
        forall|k: DiffHeader| #[trigger] header_entries_map(s).contains_key(k) <==> exists|i: int|
            0 <= i < s.len() && (#[trigger] s[i]).0 == k,
        header_keys_unique(s) ==> forall|i: int|
            0 <= i < s.len() ==> header_entries_map(s).contains_key((#[trigger] s[i]).0)
                && header_entries_map(s)[s[i].0] == s[i].1@,
    decreases s.len(),
{
    if s.len() > 0 {
        let dl = s.drop_last();
        lemma_header_entries_map(dl);
        assert(forall|i: int| 0 <= i < s.len() - 1 ==> dl[i] == s[i]);
        assert forall|k: DiffHeader| #[trigger] header_entries_map(s).contains_key(k) implies (
        exists|i: int| 0 <= i < s.len() && (#[trigger] s[i]).0 == k) by {
            if s.last().0 == k {
                assert((s[s.len() - 1]).0 == k);
            } else {
                assert(header_entries_map(dl).contains_key(k));
                let i = choose|i: int| 0 <= i < dl.len() && (#[trigger] dl[i]).0 == k;
                assert((s[i]).0 == k);
            }
        }
        assert forall|k: DiffHeader| (exists|i: int|
            0 <= i < s.len() && (#[trigger] s[i]).0 == k) implies header_entries_map(
            s,
        ).contains_key(k) by {
            let i = choose|i: int| 0 <= i < s.len() && (#[trigger] s[i]).0 == k;
            if i < s.len() - 1 {
                assert((dl[i]).0 == k);
                assert(header_entries_map(dl).contains_key(k));
            }
        }
        if header_keys_unique(s) {
            assert(header_keys_unique(dl));
            assert forall|i: int| 0 <= i < s.len() implies header_entries_map(s).contains_key(
                (#[trigger] s[i]).0,
            ) && header_entries_map(s)[s[i].0] == s[i].1@ by {
                if i < s.len() - 1 {
                    assert(dl[i] == s[i]);
                    assert(header_entries_map(dl).contains_key((dl[i]).0));
                    assert(s[i].0 != s.last().0);
                }
            }
        }
    }
}

proof fn lemma_header_set_is_insert(s: Seq<(DiffHeader, String)>, j: int, v: String)
    requires
        header_keys_unique(s),
        0 <= j < s.len(),
    ensures
        header_entries_map(s.update(j, (s[j].0, v))) =~= header_entries_map(s).insert(s[j].0, v@),
        header_keys_unique(s.update(j, (s[j].0, v))),
    decreases s.len(),
{
    let t = s.update(j, (s[j].0, v));
    if j == s.len() - 1 {
        assert(t.drop_last() =~= s.drop_last());
    } else {
        assert(t.drop_last() =~= s.drop_last().update(j, (s[j].0, v)));
        assert(header_keys_unique(s.drop_last()));
        assert(s.drop_last()[j] == s[j]);
        lemma_header_set_is_insert(s.drop_last(), j, v);
        assert(s[j].0 != s.last().0);
    }
}

impl HeaderMap {
    /// Keys are unique, so lookups agree with the map model.
    pub closed spec fn wf(&self) -> bool {
        header_keys_unique(self.entries@)
    }

    pub fn new() -> (r: HeaderMap)
        ensures
            r@ =~= Map::<DiffHeader, Seq<char>>::empty(),
            r.wf(),
    {
        let r = HeaderMap { entries: Vec::new() };
        proof {
            assert(r.entries@ =~= Seq::<(DiffHeader, String)>::empty());
        }
        r
    }

    /// Insert or replace the value held for `k`.
    pub fn insert(&mut self, k: DiffHeader, v: String)
        requires
            old(self).wf(),
        ensures
            final(self).wf(),
            final(self)@ =~= old(self)@.insert(k, v@),
    {
        proof {
            lemma_header_entries_map(self.entries@);
        }
        let n = self.entries.len();
        let mut i: usize = 0;
        while i < n
            invariant
                n == self.entries@.len(),
                i <= n,
                self.wf(),
                self.entries@ == old(self).entries@,
                forall|j: int| 0 <= j < i ==> self.entries@[j].0 != k,
            decreases n - i,
        {
            if self.entries[i].0 == k {
                proof {
                    lemma_header_set_is_insert(self.entries@, i as int, v);
                }
                self.entries.set(i, (k, v));
                return ;
            }
            i += 1;
        }
        proof {
            let s = self.entries@;
            assert(s.push((k, v)).drop_last() =~= s);
            assert(header_keys_unique(s.push((k, v)))) by {
                assert(forall|j: int| 0 <= j < s.len() ==> s[j].0 != k);
                assert(forall|j: int| 0 <= j < s.len() ==> s.push((k, v))[j] == s[j]);
            }
        }
        self.entries.push((k, v));
    }

    /// Look up the value held for `k`.
    pub fn get(&self, k: &DiffHeader) -> (r: Option<&String>)
        requires
            self.wf(),
        ensures
            match r {
                Some(v) => self@.contains_key(*k) && v@ == self@[*k],
                None => !self@.contains_key(*k),
            },
    {
        proof {
            lemma_header_entries_map(self.entries@);
        }
        let n = self.entries.len();
        let mut i: usize = 0;
        while i < n
            invariant
                self.wf(),
                n == self.entries@.len(),
                i <= n,
                forall|j: int| 0 <= j < i ==> (#[trigger] self.entries@[j]).0 != *k,
            decreases n - i,
        {
            if self.entries[i].0 == *k {
                proof {
                    lemma_header_entries_map(self.entries@);
                    assert(header_entries_map(self.entries@).contains_key(
                        (self.entries@[i as int]).0,
                    ));
                }
                return Some(&self.entries[i].1);
            }
            i += 1;
        }
        None
    }
}

impl View for HeaderMap {
    type V = Map<DiffHeader, Seq<char>>;

    closed spec fn view(&self) -> Map<DiffHeader, Seq<char>> {
        header_entries_map(self.entries@)
    }
}

impl Clone for HeaderMap {
    fn clone(&self) -> (r: Self)
        ensures
            r@ == self@,
            r.wf() == self.wf(),
    {
        let mut entries: Vec<(DiffHeader, String)> = Vec::new();
        let n = self.entries.len();
        let mut i: usize = 0;
        while i < n
            invariant
                n == self.entries@.len(),
                i <= n,
                entries@.len() == i,
                forall|j: int|
                    0 <= j < i ==> entries@[j].0 == self.entries@[j].0 && entries@[j].1@
                        == self.entries@[j].1@,
            decreases n - i,
        {
            let e = &self.entries[i];
            entries.push((e.0, e.1.clone()));
            i += 1;
        }
        let r = HeaderMap { entries };
        proof {
            lemma_header_map_congruence(r.entries@, self.entries@);
        }
        r
    }
}

proof fn lemma_header_map_congruence(a: Seq<(DiffHeader, String)>, b: Seq<(DiffHeader, String)>)
    requires
        a.len() == b.len(),
        forall|j: int| 0 <= j < a.len() ==> a[j].0 == b[j].0 && a[j].1@ == b[j].1@,
    ensures
        header_entries_map(a) == header_entries_map(b),
        header_keys_unique(a) == header_keys_unique(b),
    decreases a.len(),
{
    if a.len() > 0 {
        assert(forall|j: int| 0 <= j < a.len() - 1 ==> a.drop_last()[j] == a[j]);
        assert(forall|j: int| 0 <= j < b.len() - 1 ==> b.drop_last()[j] == b[j]);
        lemma_header_map_congruence(a.drop_last(), b.drop_last());
    }
}

/// One resolved entry of the line mapping: an input line of the diff buffer
/// together with the file and content line it stands for.
#[derive(Debug)]
pub struct LineEntry {
    pub input_line: u16,
    pub filename: String,
    pub diff_line: DiffLine,
}

/// Mathematical model of a `LineEntry` value.
pub ghost struct LineEntryV {
    pub filename: Seq<char>,
    pub diff_line: DiffLineV,
}

impl LineEntry {
    pub open spec fn val(&self) -> LineEntryV {
        LineEntryV { filename: self.filename@, diff_line: self.diff_line@ }
    }
}

impl Clone for LineEntry {
    fn clone(&self) -> (r: Self)
        ensures
            r.input_line == self.input_line,
            r.val() == self.val(),
    {
        LineEntry {
            input_line: self.input_line,
            filename: self.filename.clone(),
            diff_line: self.diff_line.clone(),
        }
    }
}

/// The mapping from input line numbers to content lines, held as a list of
/// entries whose keys strictly increase with the input text.
#[derive(Debug)]
pub struct LineMap {
    entries: Vec<LineEntry>,
}

pub open spec fn line_entries_map(s: Seq<LineEntry>) -> Map<u16, LineEntryV>
    decreases s.len(),
{
    if s.len() == 0 {
        Map::empty()
    } else {
        line_entries_map(s.drop_last()).insert(s.last().input_line, s.last().val())
    }
}

pub open spec fn line_keys_increasing(s: Seq<LineEntry>) -> bool {
    forall|i: int, j: int| 0 <= i < j < s.len() ==> s[i].input_line < s[j].input_line
}

proof fn lemma_line_entries_map(s: Seq<LineEntry>)
    ensures
        forall|k: u16| #[trigger] line_entries_map(s).contains_key(k) <==> exists|i: int|
            0 <= i < s.len() && (#[trigger] s[i]).input_line == k,
        line_keys_increasing(s) ==> forall|i: int|
            0 <= i < s.len() ==> line_entries_map(s).contains_key((#[trigger] s[i]).input_line)
                && line_entries_map(s)[s[i].input_line] == s[i].val(),
    decreases s.len(),
{
    if s.len() > 0 {
        let dl = s.drop_last();
        lemma_line_entries_map(dl);
        assert(forall|i: int| 0 <= i < s.len() - 1 ==> dl[i] == s[i]);
        assert forall|k: u16| #[trigger] line_entries_map(s).contains_key(k) implies (exists|
            i: int,
        | 0 <= i < s.len() && (#[trigger] s[i]).input_line == k) by {
            if s.last().input_line == k {
                assert((s[s.len() - 1]).input_line == k);
            } else {
                assert(line_entries_map(dl).contains_key(k));
                let i = choose|i: int| 0 <= i < dl.len() && (#[trigger] dl[i]).input_line == k;
                assert((s[i]).input_line == k);
            }
        }
        assert forall|k: u16| (exists|i: int|
            0 <= i < s.len() && (#[trigger] s[i]).input_line == k) implies line_entries_map(
            s,
        ).contains_key(k) by {
            let i = choose|i: int| 0 <= i < s.len() && (#[trigger] s[i]).input_line == k;
            if i < s.len() - 1 {
                assert((dl[i]).input_line == k);
                assert(line_entries_map(dl).contains_key(k));
            }
        }
        if line_keys_increasing(s) {
            assert(line_keys_increasing(dl));
            assert forall|i: int| 0 <= i < s.len() implies line_entries_map(s).contains_key(
                (#[trigger] s[i]).input_line,
            ) && line_entries_map(s)[s[i].input_line] == s[i].val() by {
                if i < s.len() - 1 {
                    assert(dl[i] == s[i]);
                    assert(line_entries_map(dl).contains_key((dl[i]).input_line));
                    assert(s[i].input_line != s.last().input_line);
                }
            }
        }
    }
}

impl LineMap {
    /// Keys strictly increase, so lookups agree with the map model.
    pub closed spec fn wf(&self) -> bool {
        line_keys_increasing(self.entries@)
    }

    /// Every key held so far lies below `b`, so `b` is free for insertion.
    pub open spec fn key_bound(&self, b: int) -> bool {
        forall|q: u16| #[trigger] self@.contains_key(q) ==> (q as int) < b
    }

    pub closed spec fn entry_count(&self) -> nat {
        self.entries@.len()
    }

    pub fn new() -> (r: LineMap)
        ensures
            r@ =~= Map::<u16, LineEntryV>::empty(),
            r.wf(),
            r.entry_count() == 0,
    {
        let r = LineMap { entries: Vec::new() };
        proof {
            assert(r.entries@ =~= Seq::<LineEntry>::empty());
        }
        r
    }

    pub fn len(&self) -> (r: usize)
        ensures
            r == self.entry_count(),
    {
        self.entries.len()
    }

    /// Append an entry whose key is larger than every key already held.
    pub fn push_entry(&mut self, e: LineEntry)
        requires
            old(self).wf(),
            old(self).key_bound(e.input_line as int),
        ensures
            final(self).wf(),
            final(self)@ =~= old(self)@.insert(e.input_line, e.val()),
            final(self).entry_count() == old(self).entry_count() + 1,
    {
        proof {
            let s = self.entries@;
            lemma_line_entries_map(s);
            assert(s.push(e).drop_last() =~= s);
            assert forall|j: int| 0 <= j < s.len() implies (#[trigger] s[j]).input_line
                < e.input_line by {
                assert(line_entries_map(s).contains_key((s[j]).input_line));
                assert(old(self)@.contains_key((s[j]).input_line));
            }
            assert(line_keys_increasing(s.push(e))) by {
                assert(forall|j: int| 0 <= j < s.len() ==> s.push(e)[j] == s[j]);
            }
        }
        self.entries.push(e);
    }

    /// Look up the entry recorded for input line `k`.
    pub fn get(&self, k: u16) -> (r: Option<&LineEntry>)
        requires
            self.wf(),
        ensures
            match r {
                Some(e) => self@.contains_key(k) && self@[k] == e.val() && e.input_line == k,
                None => !self@.contains_key(k),
            },
    {
        proof {
            lemma_line_entries_map(self.entries@);
        }
        let n = self.entries.len();
        let mut i: usize = 0;
        while i < n
            invariant
                self.wf(),
                n == self.entries@.len(),
                i <= n,
                forall|j: int| 0 <= j < i ==> (#[trigger] self.entries@[j]).input_line != k,
            decreases n - i,
        {
            if self.entries[i].input_line == k {
                proof {
                    lemma_line_entries_map(self.entries@);
                    assert(line_entries_map(self.entries@).contains_key(
                        (self.entries@[i as int]).input_line,
                    ));
                }
                return Some(&self.entries[i]);
            }
            i += 1;
        }
        None
    }
}

impl View for LineMap {
    type V = Map<u16, LineEntryV>;

    closed spec fn view(&self) -> Map<u16, LineEntryV> {
        line_entries_map(self.entries@)
    }
}

impl Clone for LineMap {
    fn clone(&self) -> (r: Self)
        ensures
            r@ == self@,
            r.wf() == self.wf(),
    {
        let mut entries: Vec<LineEntry> = Vec::new();
        let n = self.entries.len();
        let mut i: usize = 0;
        while i < n
            invariant
                n == self.entries@.len(),
                i <= n,
                entries@.len() == i,
                forall|j: int|
                    0 <= j < i ==> entries@[j].input_line == self.entries@[j].input_line
                        && entries@[j].val() == self.entries@[j].val(),
            decreases n - i,
        {
            entries.push(self.entries[i].clone());
            proof {
                assert(entries@[i as int].val() == self.entries@[i as int].val());
            }
            i += 1;
        }
        let r = LineMap { entries };
        proof {
            lemma_line_map_congruence(r.entries@, self.entries@);
        }
        r
    }
}

proof fn lemma_line_map_congruence(a: Seq<LineEntry>, b: Seq<LineEntry>)
    requires
        a.len() == b.len(),
        forall|j: int|
            0 <= j < a.len() ==> a[j].input_line == b[j].input_line && a[j].val() == b[j].val(),
    ensures
        line_entries_map(a) == line_entries_map(b),
        line_keys_increasing(a) == line_keys_increasing(b),
    decreases a.len(),
{
    if a.len() > 0 {
        assert(forall|j: int| 0 <= j < a.len() - 1 ==> a.drop_last()[j] == a[j]);
        assert(forall|j: int| 0 <= j < b.len() - 1 ==> b.drop_last()[j] == b[j]);
        lemma_line_map_congruence(a.drop_last(), b.drop_last());
    }
}

/// The hunk-header grammar `@@ -a[,b] +c[,d] @@`, lengths defaulting to 1.
///
/// `hunk_num` reads one decimal number beginning at `i`; `hunk_opt_len`
/// reads an optional `,len` suffix.
pub open spec fn hunk_num(l: Seq<char>, i: int) -> Option<(int, u16)> {
    let e = digit_run_end(l, i);
    if e == i {
        None
    } else {
        let v = dec_val(l.subrange(i, e));
        if v > u16::MAX {
            None
        } else {
            Some((e, v as u16))
        }
    }
}

pub open spec fn hunk_opt_len(l: Seq<char>, i: int) -> Option<(int, u16)> {
    if 0 <= i < l.len() && l[i] == ',' {
        hunk_num(l, i + 1)
    } else {
        Some((i, 1u16))
    }
}

/// What a hunk-header line declares: old start, old length, new start, new
/// length; `None` when the line does not fit the grammar or a number does
/// not fit a `u16`.
pub open spec fn spec_parse_hunk_header(l: Seq<char>) -> Option<(u16, u16, u16, u16)> {
    if !(l.len() >= 4 && l[0] == '@' && l[1] == '@' && l[2] == ' ' && l[3] == '-') {
        None
    } else {
        match hunk_num(l, 4) {
            None => None,
            Some((e1, a)) => match hunk_opt_len(l, e1) {
                None => None,
                Some((e2, b)) => {
                    if !(e2 + 2 <= l.len() && l[e2] == ' ' && l[e2 + 1] == '+') {
                        None
                    } else {
                        match hunk_num(l, e2 + 2) {
                            None => None,
                            Some((e3, c)) => match hunk_opt_len(l, e3) {
                                None => None,
                                Some((e4, d)) => {
                                    if e4 + 3 <= l.len() && l[e4] == ' ' && l[e4 + 1] == '@' && l[e4
                                        + 2] == '@' {
                                        Some((a, b, c, d))
                                    } else {
                                        None
                                    }
                                },
                            },
                        }
                    }
                },
            },
        }
    }
}

fn exec_hunk_num(l: &str, i: usize) -> (r: Option<(usize, u16)>)
    requires
        i <= l@.len(),
    ensures
        match r {
            Some((e, v)) => hunk_num(l@, i as int) == Some((e as int, v)) && i < e <= l@.len(),
            None => hunk_num(l@, i as int) is None,
        },
{
    let e = crate::parsers::text::exec_digit_run_end(l, i);
    proof {
        lemma_digit_run_end(l@, i as int);
        assert(all_digits(l@.subrange(i as int, e as int)));
    }
    if e == i {
        return None;
    }
    match parse_u16_in(l, i, e) {
        Some(v) => Some((e, v)),
        None => None,
    }
}

fn exec_hunk_opt_len(l: &str, i: usize) -> (r: Option<(usize, u16)>)
    requires
        i <= l@.len(),
    ensures
        match r {
            Some((e, v)) => hunk_opt_len(l@, i as int) == Some((e as int, v)) && i <= e
                <= l@.len(),
            None => hunk_opt_len(l@, i as int) is None,
        },
{
    let n = l.unicode_len();
    if i < n && l.get_char(i) == ',' {
        match exec_hunk_num(l, i + 1) {
            Some((e, v)) => Some((e, v)),
            None => None,
        }
    } else {
        Some((i, 1))
    }
}

/// Parse a hunk-header line `@@ -oldStart[,oldLen] +newStart[,newLen] @@`,
/// each length defaulting to 1 when omitted.
pub fn parse_header(header: &str) -> (r: Option<(u16, u16, u16, u16)>)
    ensures
        r == spec_parse_hunk_header(header@),
{
    let n = header.unicode_len();
    if !(n >= 4 && header.get_char(0) == '@' && header.get_char(1) == '@' && header.get_char(2)
        == ' ' && header.get_char(3) == '-') {
        return None;
    }
    let (e1, a) = match exec_hunk_num(header, 4) {
        Some(x) => x,
        None => {
            return None;
        },
    };
    let (e2, b) = match exec_hunk_opt_len(header, e1) {
        Some(x) => x,
        None => {
            return None;
        },
    };
    if !(e2 <= n - 2 && header.get_char(e2) == ' ' && header.get_char(e2 + 1) == '+') {
        return None;
    }
    let (e3, c) = match exec_hunk_num(header, e2 + 2) {
        Some(x) => x,
        None => {
            return None;
        },
    };
    let (e4, d) = match exec_hunk_opt_len(header, e3) {
        Some(x) => x,
        None => {
            return None;
        },
    };
    if e4 <= n - 3 && header.get_char(e4) == ' ' && header.get_char(e4 + 1) == '@'
        && header.get_char(e4 + 2) == '@' {
        Some((a, b, c, d))
    } else {
        None
    }
}

/// A file-marker line in the strict form the dialects print: a change
/// keyword, at least two spaces, then the relative path. The scanner
/// itself accepts the more general `is_marker_line` form, a keyword
/// followed by any whitespace.
pub open spec fn spec_is_file_header(l: Seq<char>) -> bool {
    spec_starts_with(l, "modified  "@) || spec_starts_with(l, "new file  "@) || spec_starts_with(
        l,
        "deleted  "@,
    )
}

pub fn is_file_header(line: &str) -> (r: bool)
    ensures
        r == spec_is_file_header(line@),
{
    str_starts_with(line, "modified  ") || str_starts_with(line, "new file  ") || str_starts_with(
        line,
        "deleted  ",
    )
}

/// Length of the change keyword opening a file-marker line, or `-1`.
pub open spec fn marker_kw_len(l: Seq<char>) -> int {
    if spec_starts_with(l, "modified"@) {
        8
    } else if spec_starts_with(l, "new file"@) {
        8
    } else if spec_starts_with(l, "deleted"@) {
        7
    } else {
        -1
    }
}

/// A line is a file marker when a change keyword is followed by whitespace.
pub open spec fn is_marker_line(l: Seq<char>) -> bool {
    let k = marker_kw_len(l);
    k >= 0 && k < l.len() && is_ws_char(l[k])
}

/// The relative path a file-marker line carries: the first whitespace-
/// delimited token after the keyword, or `None` when only whitespace
/// follows.
pub open spec fn marker_path(l: Seq<char>) -> Option<Seq<char>> {
    let k = marker_kw_len(l);
    let p0 = ws_run_end(l, k);
    let p1 = nonws_run_end(l, p0);
    if p1 == p0 {
        None
    } else {
        Some(l.subrange(p0, p1))
    }
}

fn exec_marker_kw_len(line: &str) -> (r: i32)
    ensures
        r as int == marker_kw_len(line@),
{
    if str_starts_with(line, "modified") {
        8
    } else if str_starts_with(line, "new file") {
        8
    } else if str_starts_with(line, "deleted") {
        7
    } else {
        -1
    }
}

pub fn exec_is_marker_line(line: &str) -> (r: bool)
    ensures
        r == is_marker_line(line@),
{
    let k = exec_marker_kw_len(line);
    if k < 0 {
        return false;
    }
    let ku = k as usize;
    let n = line.unicode_len();
    if ku >= n {
        return false;
    }
    let c = line.get_char(ku);
    c == ' ' || c == '\t'
}

/// Extract the path token of a file-marker line.
pub fn exec_marker_path(line: &str) -> (r: Option<String>)
    requires
        is_marker_line(line@),
    ensures
        match r {
            Some(p) => marker_path(line@) == Some(p@),
            None => marker_path(line@) is None,
        },
{
    let k = exec_marker_kw_len(line);
    let ku = k as usize;
    proof {
        assert(0 <= marker_kw_len(line@) <= line@.len());
        lemma_ws_run_end(line@, ku as int);
    }
    let p0 = crate::parsers::text::exec_ws_run_end(line, ku);
    proof {
        lemma_nonws_run_end(line@, p0 as int);
    }
    let p1 = crate::parsers::text::exec_nonws_run_end(line, p0);
    if p1 == p0 {
        None
    } else {
        let tok = line.substring_char(p0, p1);
        Some(tok.to_owned())
    }
}

/// The `key: value` grammar of the header block: a colon preceded by a word
/// character and followed by whitespace and a value. `kv_qualifies` tests a
/// colon position; `kv_colon_from` finds the first qualifying colon.
pub open spec fn kv_qualifies(l: Seq<char>, c: int) -> bool {
    &&& 1 <= c < l.len()
    &&& l[c] == ':'
    &&& crate::parsers::text::is_word_char(l[c - 1])
    &&& ws_run_end(l, c + 1) > c + 1
    &&& ws_run_end(l, c + 1) < l.len()
}

pub open spec fn kv_colon_from(l: Seq<char>, i: int) -> int
    decreases l.len() - i,
{
    if !(0 <= i < l.len()) {
        -1
    } else if kv_qualifies(l, i) {
        i
    } else {
        kv_colon_from(l, i + 1)
    }
}

/// Start of the word-character run ending just before position `e`.
pub open spec fn word_run_start(l: Seq<char>, e: int) -> int
    decreases e,
{
    if 0 < e <= l.len() && crate::parsers::text::is_word_char(l[e - 1]) {
        word_run_start(l, e - 1)
    } else {
        e
    }
}

/// What a header-block line declares: a key name and its value, or `None`
/// when the line does not fit the `key: value` shape.
pub open spec fn spec_header_kv(l: Seq<char>) -> Option<(Seq<char>, Seq<char>)> {
    let c = kv_colon_from(l, 0);
    if c < 0 {
        None
    } else {
        Some(
            (l.subrange(word_run_start(l, c), c), l.subrange(ws_run_end(l, c + 1), l.len() as int)),
        )
    }
}

proof fn lemma_kv_colon_from(l: Seq<char>, i: int)
    requires
        0 <= i <= l.len(),
    ensures
        kv_colon_from(l, i) == -1 || (i <= kv_colon_from(l, i) < l.len() && kv_qualifies(
            l,
            kv_colon_from(l, i),
        )),
    decreases l.len() - i,
{
    if 0 <= i < l.len() && !kv_qualifies(l, i) {
        lemma_kv_colon_from(l, i + 1);
    }
}

proof fn lemma_word_run_start(l: Seq<char>, e: int)
    requires
        0 <= e <= l.len(),
    ensures
        0 <= word_run_start(l, e) <= e,
    decreases e,
{
    if 0 < e <= l.len() && crate::parsers::text::is_word_char(l[e - 1]) {
        lemma_word_run_start(l, e - 1);
    }
}

fn kv_qualifies_exec(l: &str, c: usize) -> (r: bool)
    requires
        c < l@.len(),
    ensures
        r == kv_qualifies(l@, c as int),
{
    let n = l.unicode_len();
    if c < 1 {
        return false;
    }
    if l.get_char(c) != ':' {
        return false;
    }
    if !crate::parsers::text::word_char(l.get_char(c - 1)) {
        return false;
    }
    proof {
        lemma_ws_run_end(l@, c + 1);
    }
    let w = crate::parsers::text::exec_ws_run_end(l, c + 1);
    w > c + 1 && w < n
}

fn find_kv_colon(line: &str) -> (r: Option<usize>)
    ensures
        match r {
            Some(c) => kv_colon_from(line@, 0) == c as int && c < line@.len(),
            None => kv_colon_from(line@, 0) == -1,
        },
{
    let n = line.unicode_len();
    let mut i: usize = 0;
    while i < n
        invariant
            n == line@.len(),
            i <= n,
            kv_colon_from(line@, 0) == kv_colon_from(line@, i as int),
        decreases n - i,
    {
        if kv_qualifies_exec(line, i) {
            return Some(i);
        }
        i += 1;
    }
    None
}

/// Parse a header-block line into its recognized key and value.
pub fn header_kv(line: &str) -> (r: Option<(Option<DiffHeader>, String)>)
    ensures
        match r {
            Some((h, v)) => {
                &&& spec_header_kv(line@) matches Some((sk, sv))
                &&& h == spec_diff_header(sk)
                &&& v@ == sv
            },
            None => spec_header_kv(line@) is None,
        },
{
    let n = line.unicode_len();
    let c = match find_kv_colon(line) {
        Some(c) => c,
        None => {
            return None;
        },
    };
    proof {
        lemma_kv_colon_from(line@, 0);
        lemma_word_run_start(line@, c as int);
        lemma_ws_run_end(line@, c + 1);
    }
    let mut ks = c;
    while ks > 0 && crate::parsers::text::word_char(line.get_char(ks - 1))
        invariant
            c < n,
            n == line@.len(),
            ks <= c,
            word_run_start(line@, c as int) == word_run_start(line@, ks as int),
        decreases ks,
    {
        ks -= 1;
    }
    let key = line.substring_char(ks, c);
    let v0 = crate::parsers::text::exec_ws_run_end(line, c + 1);
    let value = line.substring_char(v0, n);
    let h = DiffHeader::from_name(key);
    Some((h, value.to_owned()))
}

/// The resolved location of one diff-buffer line: which file, which real
/// source line, which backend, how the line changed, and its raw text.
#[derive(Debug)]
pub struct SourceMap {
    pub file_name: String,
    pub source_line: SourceLineNumber,
    pub file_type: crate::SupportedFileType,
    pub source_line_type: LineType,
    pub source_line_text: String,
}

/// Mathematical model of a `SourceMap`.
pub ghost struct SourceMapV {
    pub file_name: Seq<char>,
    pub source_line: u16,
    pub file_type: crate::SupportedFileType,
    pub source_line_type: LineType,
    pub source_line_text: Seq<char>,
}

impl View for SourceMap {
    type V = SourceMapV;

    open spec fn view(&self) -> SourceMapV {
        SourceMapV {
            file_name: self.file_name@,
            source_line: self.source_line.0,
            file_type: self.file_type,
            source_line_type: self.source_line_type,
            source_line_text: self.source_line_text@,
        }
    }
}

/// Mathematical model of a `ParsedDiff`, the timestamp excluded: parsing
/// the same text always yields the same model.
pub ghost struct ParsedDiffV {
    pub headers: Map<DiffHeader, Seq<char>>,
    pub filenames: Seq<Seq<char>>,
    pub lines: Map<u16, LineEntryV>,
}

/// The normalized result of parsing a diff text: the header map, the
/// touched filenames in first-seen order without duplicates, and the
/// mapping from input line numbers to content lines.
#[derive(Debug)]
pub struct ParsedDiff {
    pub headers: HeaderMap,
    pub filenames: Vec<String>,
    pub lines_map: LineMap,
    /// When the text was parsed, in seconds of Unix time; diagnostics only.
    pub parsed_at: u64,
}

impl View for ParsedDiff {
    type V = ParsedDiffV;

    open spec fn view(&self) -> ParsedDiffV {
        ParsedDiffV {
            headers: self.headers@,
            filenames: self.filenames.deep_view(),
            lines: self.lines_map@,
        }
    }
}

impl ParsedDiff {
    pub open spec fn wf(&self) -> bool {
        self.headers.wf() && self.lines_map.wf()
    }
}

impl Clone for ParsedDiff {
    fn clone(&self) -> (r: Self)
        ensures
            r@ == self@,
            r.wf() == self.wf(),
            r.parsed_at == self.parsed_at,
    {
        let mut filenames: Vec<String> = Vec::new();
        let n = self.filenames.len();
        let mut i: usize = 0;
        while i < n
            invariant
                n == self.filenames@.len(),
                i <= n,
                filenames@.len() == i,
                forall|j: int| 0 <= j < i ==> (#[trigger] filenames@[j])@ == self.filenames@[j]@,
            decreases n - i,
        {
            filenames.push(self.filenames[i].clone());
            i += 1;
        }
        let r = ParsedDiff {
            headers: self.headers.clone(),
            filenames,
            lines_map: self.lines_map.clone(),
            parsed_at: self.parsed_at,
        };
        proof {
            assert forall|j: int| 0 <= j < n implies r.filenames.deep_view()[j]
                == self.filenames.deep_view()[j] by {
                assert(r.filenames.deep_view()[j] == (r.filenames@[j])@);
                assert(self.filenames.deep_view()[j] == (self.filenames@[j])@);
            }
            assert(r.filenames.deep_view() =~= self.filenames.deep_view());
        }
        r
    }
}

/// What the line mapper answers for input line `k` of a parsed diff:
/// nothing for a line outside the mapping or a file without a recognized
/// extension, else the file, real line, backend and change type.
pub open spec fn spec_map_line(m: ParsedDiffV, k: u16) -> Option<SourceMapV> {
    if m.lines.contains_key(k) {
        let e = m.lines[k];
        match crate::spec_from_filename(e.filename) {
            Some(ft) => Some(
                SourceMapV {
                    file_name: e.filename,
                    source_line: e.diff_line.source_line_number,
                    file_type: ft,
                    source_line_type: e.diff_line.line_type,
                    source_line_text: e.diff_line.line,
                },
            ),
            None => None,
        }
    } else {
        None
    }
}

impl ParsedDiff {
    /// Map a diff-buffer line number to its real source location, the
    /// single source of truth for every coordinate rewrite the proxy does.
    pub fn map_diff_line_to_src(&self, line_num: u16) -> (r: Option<SourceMap>)
        requires
            self.wf(),
        ensures
            match r {
                Some(sm) => spec_map_line(self@, line_num) == Some(sm@),
                None => spec_map_line(self@, line_num) is None,
            },
    {
        match self.lines_map.get(line_num) {
            Some(e) => {
                match crate::SupportedFileType::from_filename(e.filename.clone()) {
                    Some(ft) => Some(
                        SourceMap {
                            file_name: e.filename.clone(),
                            source_line: e.diff_line.source_line_number,
                            file_type: ft,
                            source_line_type: e.diff_line.line_type,
                            source_line_text: e.diff_line.line.clone(),
                        },
                    ),
                    None => None,
                }
            },
            None => None,
        }
    }
}

/// A diff text format the proxy can read. Each implementation states, as
/// `spec_parse_text`, the model its `parse` produces.
pub trait Parsable: Sized {
    /// The model this format assigns to a text, or `None` when the text is
    /// not a well-formed diff of this format.
    spec fn spec_parse_text(text: Seq<char>) -> Option<ParsedDiffV>;

    /// Parse a diff text into the normalized form.
    fn parse(source: &str) -> (r: Option<ParsedDiff>)
        ensures
            match r {
                Some(p) => Self::spec_parse_text(source@) == Some(p@) && p.wf(),
                None => Self::spec_parse_text(source@) is None,
            },
    ;
}

impl Parsable for ParsedDiff {
    /// Dialect dispatch sniffs the `Type:` marker in the header block; a
    /// text carrying neither marker parses to nothing.
    open spec fn spec_parse_text(text: Seq<char>) -> Option<ParsedDiffV> {
        crate::parsers::scan::spec_parse(text)
    }

    fn parse(source: &str) -> (r: Option<ParsedDiff>) {
        if crate::parsers::text::contains_substring(source, "Type: code-review") {
            crate::parsers::code_review::CodeReviewDiff::parse(source)
        } else if crate::parsers::text::contains_substring(source, "Type: magit-status") {
            crate::parsers::magit::MagitDiff::parse(source)
        } else {
            None
        }
    }
}

/// Where a file-marker line's path text begins: past the keyword and the
/// whitespace run that follows it.
pub fn exec_marker_kw_rest_start(line: &str) -> (r: usize)
    requires
        is_marker_line(line@),
    ensures
        r as int == ws_run_end(line@, marker_kw_len(line@)),
        r <= line@.len(),
{
    let k = exec_marker_kw_len(line);
    let ku = k as usize;
    proof {
        lemma_ws_run_end(line@, ku as int);
    }
    crate::parsers::text::exec_ws_run_end(line, ku)
}

} // verus!

//! The proxy's verified core: the per-URI diff cache, the session state,
//! and the request-rewriting rules that translate diff-buffer coordinates
//! into real source coordinates before a request is forwarded to a backend.

use vstd::prelude::*;
use vstd::string::*;

use crate::parsers::utils::{
    spec_map_line, LineType, Parsable, ParsedDiff, ParsedDiffV, SourceMap, SourceMapV,
};
use crate::{file_url_of, SupportedFileType};

verus! {

/// Why a position-bearing request cannot be forwarded: no diff is cached
/// for the document, the position is not backed by source, or no backend
/// serves the mapped file's language.
#[derive(Debug, Copy, Clone, PartialEq, Eq, Structural)]
pub enum DispatchError {
    NoDiff,
    NoMapping,
    NoBackend,
}

/// Which custom command an `executeCommand` request names.
#[derive(Debug, Copy, Clone, PartialEq, Eq, Structural)]
pub enum CommandAction {
    CustomNotification,
    Refresh,
    Fetch,
    Invalid,
}

/// The action a command string selects.
pub open spec fn spec_decide_command(cmd: Seq<char>) -> CommandAction {
    if cmd == "custom.notification"@ {
        CommandAction::CustomNotification
    } else if cmd == "refresh"@ {
        CommandAction::Refresh
    } else if cmd == "fetch"@ {
        CommandAction::Fetch
    } else {
        CommandAction::Invalid
    }
}

pub fn decide_command(cmd: &str) -> (r: CommandAction)
    ensures
        r == spec_decide_command(cmd@),
{
    if crate::parsers::text::str_eq(cmd, "custom.notification") {
        CommandAction::CustomNotification
    } else if crate::parsers::text::str_eq(cmd, "refresh") {
        CommandAction::Refresh
    } else if crate::parsers::text::str_eq(cmd, "fetch") {
        CommandAction::Fetch
    } else {
        CommandAction::Invalid
    }
}

/// A request ready to forward: the real file's URL, the translated
/// position, and the backend language it selects.
#[derive(Debug)]
pub struct MappedRequest {
    pub uri: String,
    pub line: u32,
    pub character: u32,
    pub file_type: SupportedFileType,
}

/// The diff cache: one parsed diff per open document URI, replaced
/// wholesale on every refresh, never mutated in place.
pub struct DiffCache {
    entries: Vec<(String, ParsedDiff)>,
}

pub open spec fn cache_entries_map(s: Seq<(String, ParsedDiff)>) -> Map<Seq<char>, ParsedDiffV>
    decreases s.len(),
{
    if s.len() == 0 {
        Map::empty()
    } else {
        cache_entries_map(s.drop_last()).insert(s.last().0@, s.last().1@)
    }
}

pub open spec fn cache_keys_unique(s: Seq<(String, ParsedDiff)>) -> bool {
    forall|i: int, j: int| 0 <= i < j < s.len() ==> s[i].0@ != s[j].0@
}

proof fn lemma_cache_entries_map(s: Seq<(String, ParsedDiff)>)
    ensures
        forall|k: Seq<char>| #[trigger] cache_entries_map(s).contains_key(k) <==> exists|i: int|
            0 <= i < s.len() && (#[trigger] s[i]).0@ == k,
        cache_keys_unique(s) ==> forall|i: int|
            0 <= i < s.len() ==> cache_entries_map(s).contains_key((#[trigger] s[i]).0@)
                && cache_entries_map(s)[s[i].0@] == s[i].1@,
    decreases s.len(),
{
    if s.len() > 0 {
        let dl = s.drop_last();
        lemma_cache_entries_map(dl);
        assert(forall|i: int| 0 <= i < s.len() - 1 ==> dl[i] == s[i]);
        assert forall|k: Seq<char>| #[trigger] cache_entries_map(s).contains_key(k) implies (
        exists|i: int| 0 <= i < s.len() && (#[trigger] s[i]).0@ == k) by {
            if s.last().0@ == k {
                assert((s[s.len() - 1]).0@ == k);
            } else {
                assert(cache_entries_map(dl).contains_key(k));
                let i = choose|i: int| 0 <= i < dl.len() && (#[trigger] dl[i]).0@ == k;
                assert((s[i]).0@ == k);
            }
        }
        assert forall|k: Seq<char>| (exists|i: int|
            0 <= i < s.len() && (#[trigger] s[i]).0@ == k) implies cache_entries_map(
            s,
        ).contains_key(k) by {
            let i = choose|i: int| 0 <= i < s.len() && (#[trigger] s[i]).0@ == k;
            if i < s.len() - 1 {
                assert((dl[i]).0@ == k);
                assert(cache_entries_map(dl).contains_key(k));
            }
        }
        if cache_keys_unique(s) {
            assert(cache_keys_unique(dl));
            assert forall|i: int| 0 <= i < s.len() implies cache_entries_map(s).contains_key(
                (#[trigger] s[i]).0@,
            ) && cache_entries_map(s)[s[i].0@] == s[i].1@ by {
                if i < s.len() - 1 {
                    assert(dl[i] == s[i]);
                    assert(cache_entries_map(dl).contains_key((dl[i]).0@));
                    assert(s[i].0@ != s.last().0@);
                }
            }
        }
    }
}

proof fn lemma_cache_set_is_insert(s: Seq<(String, ParsedDiff)>, j: int, e: (String, ParsedDiff))
    requires
        cache_keys_unique(s),
        0 <= j < s.len(),
        e.0@ == s[j].0@,
    ensures
        cache_entries_map(s.update(j, e)) =~= cache_entries_map(s).insert(e.0@, e.1@),
        cache_keys_unique(s.update(j, e)),
    decreases s.len(),
{
    let t = s.update(j, e);
    if j == s.len() - 1 {
        assert(t.drop_last() =~= s.drop_last());
    } else {
        assert(t.drop_last() =~= s.drop_last().update(j, e));
        assert(cache_keys_unique(s.drop_last()));
        assert(s.drop_last()[j] == s[j]);
        lemma_cache_set_is_insert(s.drop_last(), j, e);
        assert(s[j].0@ != s.last().0@);
    }
}

impl DiffCache {
    /// Keys are unique, so lookups agree with the map model, and every
    /// cached diff is well formed.
    pub closed spec fn wf(&self) -> bool {
        cache_keys_unique(self.entries@) && forall|i: int|
            0 <= i < self.entries@.len() ==> (#[trigger] self.entries@[i]).1.wf()
    }

    pub fn new() -> (r: DiffCache)
        ensures
            r@ =~= Map::<Seq<char>, ParsedDiffV>::empty(),
            r.wf(),
    {
        let r = DiffCache { entries: Vec::new() };
        proof {
            assert(r.entries@ =~= Seq::<(String, ParsedDiff)>::empty());
        }
        r
    }

    /// Replace the entry cached for `uri`, or add one.
    pub fn insert(&mut self, uri: String, diff: ParsedDiff)
        requires
            old(self).wf(),
            diff.wf(),
        ensures
            final(self).wf(),
            final(self)@ =~= old(self)@.insert(uri@, diff@),
    {
        proof {
            lemma_cache_entries_map(self.entries@);
        }
        let n = self.entries.len();
        let mut i: usize = 0;
        while i < n
            invariant
                n == self.entries@.len(),
                i <= n,
                self.wf(),
                diff.wf(),
                self.entries@ == old(self).entries@,
                forall|j: int| 0 <= j < i ==> (#[trigger] self.entries@[j]).0@ != uri@,
            decreases n - i,
        {
            if crate::parsers::text::str_eq(self.entries[i].0.as_str(), uri.as_str()) {
                proof {
                    lemma_cache_set_is_insert(self.entries@, i as int, (uri, diff));
                }
                self.entries.set(i, (uri, diff));
                return ;
            }
            i += 1;
        }
        proof {
            let s = self.entries@;
            assert(s.push((uri, diff)).drop_last() =~= s);
            assert(cache_keys_unique(s.push((uri, diff)))) by {
                assert(forall|j: int| 0 <= j < s.len() ==> s.push((uri, diff))[j] == s[j]);
            }
        }
        self.entries.push((uri, diff));
    }

    /// Look up the diff cached for `uri`.
    pub fn get(&self, uri: &String) -> (r: Option<&ParsedDiff>)
        requires
            self.wf(),
        ensures
            match r {
                Some(d) => self@.contains_key(uri@) && self@[uri@] == d@ && d.wf(),
                None => !self@.contains_key(uri@),
            },
    {
        let n = self.entries.len();
        let mut i: usize = 0;
        while i < n
            invariant
                self.wf(),
                n == self.entries@.len(),
                i <= n,
                forall|j: int| 0 <= j < i ==> (#[trigger] self.entries@[j]).0@ != uri@,
            decreases n - i,
        {
            if crate::parsers::text::str_eq(self.entries[i].0.as_str(), uri.as_str()) {
                proof {
                    lemma_cache_entries_map(self.entries@);
                    assert(cache_entries_map(self.entries@).contains_key(
                        (self.entries@[i as int]).0@,
                    ));
                }
                return Some(&self.entries[i].1);
            }
            i += 1;
        }
        proof {
            lemma_cache_entries_map(self.entries@);
        }
        None
    }

    /// The URIs with a cached diff, for the refresh command: exactly the
    /// cache's keys.
    pub fn keys(&self) -> (r: Vec<String>)
        requires
            self.wf(),
        ensures
            forall|j: int| 0 <= j < r@.len() ==> self@.contains_key((#[trigger] r@[j])@),
            forall|k: Seq<char>| #[trigger] self@.contains_key(k) ==> exists|j: int|
                0 <= j < r@.len() && (#[trigger] r@[j])@ == k,
    {
        let n = self.entries.len();
        let mut out: Vec<String> = Vec::new();
        let mut i: usize = 0;
        while i < n
            invariant
                self.wf(),
                n == self.entries@.len(),
                i <= n,
                out@.len() == i,
                forall|j: int| 0 <= j < i ==> (#[trigger] out@[j])@ == self.entries@[j].0@,
            decreases n - i,
        {
            out.push(self.entries[i].0.clone());
            i += 1;
        }
        proof {
            lemma_cache_entries_map(self.entries@);
            assert forall|j: int| 0 <= j < out@.len() implies self@.contains_key(
                (#[trigger] out@[j])@,
            ) by {
                assert(cache_entries_map(self.entries@).contains_key((self.entries@[j]).0@));
            }
            assert forall|k: Seq<char>| #[trigger] self@.contains_key(k) implies exists|j: int|
                0 <= j < out@.len() && (#[trigger] out@[j])@ == k by {
                let i0 = choose|i0: int|
                    0 <= i0 < self.entries@.len() && (#[trigger] self.entries@[i0]).0@ == k;
                assert((out@[i0])@ == k);
            }
        }
        out
    }
}

impl View for DiffCache {
    type V = Map<Seq<char>, ParsedDiffV>;

    closed spec fn view(&self) -> Map<Seq<char>, ParsedDiffV> {
        cache_entries_map(self.entries@)
    }
}

/// The proxy session's verified state: the project root the diff's
/// relative paths resolve against, the languages with a running backend,
/// and the diff cache.
pub struct ProxyState {
    /// Absolute project root, without a trailing slash.
    pub root: String,
    /// The languages a backend client was registered for.
    pub backends: Vec<SupportedFileType>,
    pub diff_map: DiffCache,
}

/// What the line mapper answers through the cache: nothing unless a diff
/// is cached for the URI and the line maps to source.
pub open spec fn spec_line_to_source_map(
    cache: Map<Seq<char>, ParsedDiffV>,
    uri: Seq<char>,
    k: u16,
) -> Option<SourceMapV> {
    if cache.contains_key(uri) {
        spec_map_line(cache[uri], k)
    } else {
        None
    }
}

impl ProxyState {
    pub open spec fn wf(&self) -> bool {
        self.root@.len() > 0 && self.root@[0] == '/' && self.diff_map.wf()
    }

    pub fn new(root: String, backends: Vec<SupportedFileType>) -> (r: ProxyState)
        requires
            root@.len() > 0,
            root@[0] == '/',
        ensures
            r.wf(),
            r.root@ == root@,
            r.backends@ == backends@,
            r.diff_map@ =~= Map::<Seq<char>, ParsedDiffV>::empty(),
    {
        ProxyState { root, backends, diff_map: DiffCache::new() }
    }

    /// Whether a backend serves the language.
    pub fn has_backend(&self, ft: SupportedFileType) -> (r: bool)
        ensures
            r == self.backends@.contains(ft),
    {
        let n = self.backends.len();
        let mut i: usize = 0;
        while i < n
            invariant
                n == self.backends@.len(),
                i <= n,
                forall|j: int| 0 <= j < i ==> self.backends@[j] != ft,
            decreases n - i,
        {
            if self.backends[i] == ft {
                return true;
            }
            i += 1;
        }
        proof {
            if self.backends@.contains(ft) {
                let j = choose|j: int| 0 <= j < self.backends@.len() && self.backends@[j] == ft;
                assert(self.backends@[j] != ft);
            }
        }
        false
    }

    /// The diff cached for a document URI, if any.
    pub fn get_diff(&self, uri: &String) -> (r: Option<&ParsedDiff>)
        requires
            self.wf(),
        ensures
            match r {
                Some(d) => self.diff_map@.contains_key(uri@) && self.diff_map@[uri@] == d@
                    && d.wf(),
                None => !self.diff_map@.contains_key(uri@),
            },
    {
        self.diff_map.get(uri)
    }

    /// Re-parse a diff text and replace the cache entry for its URI
    /// wholesale. The cache is untouched when the text does not parse.
    pub fn refresh_file(&mut self, uri: &String, contents: &str) -> (r: Option<ParsedDiff>)
        requires
            old(self).wf(),
        ensures
            final(self).wf(),
            final(self).root == old(self).root,
            final(self).backends == old(self).backends,
            match r {
                Some(p) => crate::parsers::scan::spec_parse(contents@) == Some(p@) && p.wf()
                    && final(self).diff_map@ =~= old(self).diff_map@.insert(uri@, p@),
                None => crate::parsers::scan::spec_parse(contents@) is None && final(self).diff_map@
                    == old(self).diff_map@,
            },
    {
        match ParsedDiff::parse(contents) {
            Some(diff) => {
                let kept = diff.clone();
                self.diff_map.insert(uri.clone(), diff);
                Some(kept)
            },
            None => None,
        }
    }

    /// Map a diff-buffer line of an open document to its source location.
    pub fn line_to_source_map(&self, uri: &String, line_num: u16) -> (r: Option<SourceMap>)
        requires
            self.wf(),
        ensures
            match r {
                Some(sm) => spec_line_to_source_map(self.diff_map@, uri@, line_num) == Some(sm@),
                None => spec_line_to_source_map(self.diff_map@, uri@, line_num) is None,
            },
    {
        match self.get_diff(uri) {
            Some(diff) => diff.map_diff_line_to_src(line_num),
            None => None,
        }
    }

    /// Map an editor-reported position; lines beyond the input-line range
    /// cannot be in any mapping.
    pub fn get_source_map(&self, uri: &String, line: u32) -> (r: Option<SourceMap>)
        requires
            self.wf(),
        ensures
            match r {
                Some(sm) => line <= u16::MAX && spec_line_to_source_map(
                    self.diff_map@,
                    uri@,
                    line as u16,
                ) == Some(sm@),
                None => line > u16::MAX || spec_line_to_source_map(
                    self.diff_map@,
                    uri@,
                    line as u16,
                ) is None,
            },
    {
        if line > 65535 {
            return None;
        }
        self.line_to_source_map(uri, line as u16)
    }

    /// The common rewrite of every position-bearing request (hover,
    /// definition, type definition, references): resolve the cached diff,
    /// map the position, select the backend, rewrite the URI to the real
    /// file and the line to the source line, and decrement the column by
    /// one on added/removed lines, whose leading `+`/`-` sigil does not
    /// exist in the real source.
    pub fn prepare_position_request(&self, uri: &String, line: u32, character: u32) -> (r: Result<
        MappedRequest,
        DispatchError,
    >)
        requires
            self.wf(),
        ensures
            match r {
                Err(e) => match e {
                    DispatchError::NoDiff => !self.diff_map@.contains_key(uri@),
                    DispatchError::NoMapping => self.diff_map@.contains_key(uri@) && (line
                        > u16::MAX || spec_line_to_source_map(
                        self.diff_map@,
                        uri@,
                        line as u16,
                    ) is None),
                    DispatchError::NoBackend => self.diff_map@.contains_key(uri@) && line
                        <= u16::MAX && (spec_line_to_source_map(self.diff_map@, uri@, line as u16)
                        matches Some(sm) && !self.backends@.contains(sm.file_type)),
                },
                Ok(m) => {
                    &&& self.diff_map@.contains_key(uri@)
                    &&& line <= u16::MAX
                    &&& spec_line_to_source_map(self.diff_map@, uri@, line as u16) matches Some(sm)
                    &&& self.backends@.contains(sm.file_type)
                    &&& m.file_type == sm.file_type
                    &&& m.uri@ == file_url_of(self.root@ + "/"@ + sm.file_name)
                    &&& m.line == sm.source_line as u32
                    &&& m.character == (if sm.source_line_type is Unmodified {
                        character as int
                    } else if character > 0 {
                        character - 1
                    } else {
                        0int
                    })
                },
            },
    {
        if self.get_diff(uri).is_none() {
            return Err(DispatchError::NoDiff);
        }
        if line > 65535 {
            return Err(DispatchError::NoMapping);
        }
        let sm = match self.line_to_source_map(uri, line as u16) {
            Some(sm) => sm,
            None => {
                return Err(DispatchError::NoMapping);
            },
        };
        if !self.has_backend(sm.file_type) {
            return Err(DispatchError::NoBackend);
        }
        let mapped_uri = crate::uri_from_relative_filename(
            self.root.clone(),
            sm.file_name.as_str(),
        );
        let character = match sm.source_line_type {
            LineType::Unmodified => character,
            _ => if character > 0 {
                character - 1
            } else {
                0
            },
        };
        Ok(
            MappedRequest {
                uri: mapped_uri,
                line: sm.source_line.0 as u32,
                character,
                file_type: sm.file_type,
            },
        )
    }
}

/// The `didOpen` fan-out a parsed diff asks for: each touched file with a
/// recognized extension whose language has a backend, under its real
/// absolute URL.
pub open spec fn spec_files_to_open(
    root: Seq<char>,
    backends: Seq<SupportedFileType>,
    names: Seq<Seq<char>>,
) -> Seq<(SupportedFileType, Seq<char>)>
    decreases names.len(),
{
    if names.len() == 0 {
        Seq::empty()
    } else {
        let rest = spec_files_to_open(root, backends, names.drop_last());
        match crate::spec_from_filename(names.last()) {
            Some(ft) => if backends.contains(ft) {
                rest.push((ft, file_url_of(root + "/"@ + names.last())))
            } else {
                rest
            },
            None => rest,
        }
    }
}

impl ProxyState {
    /// The files a freshly opened diff requires the proxy to open on its
    /// backends, with their real URLs.
    pub fn files_to_open(&self, diff: &ParsedDiff) -> (r: Vec<(SupportedFileType, String)>)
        requires
            self.wf(),
        ensures
            ({
                let m = spec_files_to_open(self.root@, self.backends@, diff@.filenames);
                &&& r@.len() == m.len()
                &&& forall|j: int|
                    0 <= j < m.len() ==> (#[trigger] r@[j]).0 == m[j].0 && r@[j].1@ == m[j].1
            }),
    {
        let n = diff.filenames.len();
        let mut out: Vec<(SupportedFileType, String)> = Vec::new();
        let mut i: usize = 0;
        proof {
            assert(diff@.filenames.subrange(0, 0) =~= Seq::<Seq<char>>::empty());
        }
        while i < n
            invariant
                self.wf(),
                n == diff.filenames@.len(),
                i <= n,
                ({
                    let m = spec_files_to_open(
                        self.root@,
                        self.backends@,
                        diff@.filenames.subrange(0, i as int),
                    );
                    &&& out@.len() == m.len()
                    &&& forall|j: int|
                        0 <= j < m.len() ==> (#[trigger] out@[j]).0 == m[j].0 && out@[j].1@
                            == m[j].1
                }),
            decreases n - i,
        {
            let name = &diff.filenames[i];
            proof {
                assert(diff@.filenames[i as int] == name@);
                let p = diff@.filenames.subrange(0, i + 1 as int);
                assert(p.drop_last() =~= diff@.filenames.subrange(0, i as int));
                assert(p.last() == name@);
            }
            match SupportedFileType::from_filename(name.clone()) {
                Some(ft) => {
                    if self.has_backend(ft) {
                        let url = crate::uri_from_relative_filename(
                            self.root.clone(),
                            name.as_str(),
                        );
                        out.push((ft, url));
                    }
                },
                None => {},
            }
            i += 1;
        }
        proof {
            assert(diff@.filenames.subrange(0, n as int) =~= diff@.filenames);
        }
        out
    }
}

/// A `Root:` line of the editor's coordination file: the key, one
/// whitespace character, then the project root.
pub open spec fn is_root_line(l: Seq<char>) -> bool {
    crate::parsers::text::spec_starts_with(l, "Root:"@) && l.len() > 5
        && crate::parsers::text::is_ws_char(l[5])
}

pub open spec fn root_value(l: Seq<char>) -> Seq<char> {
    l.subrange(6, l.len() as int)
}

/// Everything after a file marker's keyword and the whitespace run that
/// follows it: the file's relative path.
pub open spec fn marker_rest(l: Seq<char>) -> Seq<char> {
    let k = crate::parsers::utils::marker_kw_len(l);
    l.subrange(crate::parsers::text::ws_run_end(l, k), l.len() as int)
}

/// The fold that reads the initialization parameters out of a diff text:
/// the last `Root:` value wins, and every file marker with a recognized
/// extension contributes its language.
pub open spec fn spec_init_scan(lines: Seq<Seq<char>>, n: int) -> (Seq<char>, Seq<
    SupportedFileType,
>)
    decreases n,
{
    if n <= 0 {
        (Seq::empty(), Seq::empty())
    } else {
        let prev = spec_init_scan(lines, n - 1);
        let l = lines[n - 1];
        let cwd = if is_root_line(l) {
            root_value(l)
        } else {
            prev.0
        };
        let fts = if crate::parsers::utils::is_marker_line(l) {
            match crate::spec_from_filename(marker_rest(l)) {
                Some(ft) => prev.1.push(ft),
                None => prev.1,
            }
        } else {
            prev.1
        };
        (cwd, fts)
    }
}

fn exec_is_root_line(line: &str) -> (r: bool)
    ensures
        r == is_root_line(line@),
{
    if !crate::parsers::text::str_starts_with(line, "Root:") {
        return false;
    }
    let n = line.unicode_len();
    if n <= 5 {
        return false;
    }
    crate::parsers::text::ws_char(line.get_char(5))
}

/// Read the project root and the languages present out of the editor's
/// coordination file text: the working directory named by its last
/// `Root:` line (empty when there is none), and the language of each file
/// marker, first occurrences only, in order.
pub fn parse_initialization_params(input: &str) -> (r: (String, Vec<SupportedFileType>))
    ensures
        ({
            let ls = crate::parsers::text::spec_lines(input@);
            let m = spec_init_scan(ls, ls.len() as int);
            &&& r.0@ == m.0
            &&& r.1@ == crate::utils::spec_unique_elements(m.1)
        }),
{
    let lines = crate::parsers::text::split_lines(input);
    let ghost ldv = lines.deep_view();
    let n = lines.len();
    let mut cwd = String::new();
    let mut fts: Vec<SupportedFileType> = Vec::new();
    let mut i: usize = 0;
    while i < n
        invariant
            n == lines@.len(),
            ldv == lines.deep_view(),
            i <= n,
            cwd@ == spec_init_scan(ldv, i as int).0,
            fts@ == spec_init_scan(ldv, i as int).1,
        decreases n - i,
    {
        let line = lines[i].as_str();
        proof {
            assert(ldv[i as int] == lines@[i as int]@);
        }
        if exec_is_root_line(line) {
            let ln = line.unicode_len();
            cwd = line.substring_char(6, ln).to_owned();
        }
        if crate::parsers::utils::exec_is_marker_line(line) {
            let k = crate::parsers::utils::exec_marker_kw_rest_start(line);
            let ln = line.unicode_len();
            let rest = line.substring_char(k, ln);
            match SupportedFileType::from_filename(rest.to_owned()) {
                Some(ft) => {
                    fts.push(ft);
                },
                None => {},
            }
        }
        i += 1;
    }
    let unique = crate::utils::get_unique_elements(&fts);
    (cwd, unique)
}

} // verus!

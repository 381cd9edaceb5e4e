//! A protocol-translating middleware that sits between an editor showing a
//! diff buffer and the real language servers for the files the diff touches.
//!
//! The library holds the verified core: the diff-dialect parsers that build
//! a line-mapping model, the line mapper that resolves diff-buffer
//! coordinates to real source coordinates, the proxy's request-rewriting
//! rules, and the wire-framing helpers for the length-prefixed JSON-RPC
//! transport.

use vstd::prelude::*;
use vstd::string::*;

pub mod client;
pub mod parsers;
pub mod server;
pub mod utils;

verus! {

/// The closed set of languages the proxy can forward requests for, derived
/// from a file's extension.
#[derive(Debug, Hash, PartialEq, Eq, Copy, Clone, Structural)]
pub enum SupportedFileType {
    Rust,
    Go,
    Python,
    TypeScript,
}

/// Which file type a file extension selects, if any.
pub open spec fn spec_from_extension(ext: Seq<char>) -> Option<SupportedFileType> {
    if ext == "rs"@ {
        Some(SupportedFileType::Rust)
    } else if ext == "go"@ {
        Some(SupportedFileType::Go)
    } else if ext == "py"@ {
        Some(SupportedFileType::Python)
    } else if ext == "ts"@ || ext == "tsx"@ {
        Some(SupportedFileType::TypeScript)
    } else {
        None
    }
}

/// Index of the last `'.'` in a name, or `-1` if there is none.
pub open spec fn last_dot(s: Seq<char>) -> int
    decreases s.len(),
{
    if s.len() == 0 {
        -1
    } else if s.last() == '.' {
        s.len() - 1
    } else {
        last_dot(s.drop_last())
    }
}

proof fn lemma_last_dot(s: Seq<char>)
    ensures
        -1 <= last_dot(s) < s.len(),
        last_dot(s) == -1 ==> forall|i: int| 0 <= i < s.len() ==> s[i] != '.',
        last_dot(s) >= 0 ==> 0 <= last_dot(s) < s.len() && s[last_dot(s)] == '.' && forall|i: int|
            last_dot(s) < i < s.len() ==> s[i] != '.',
    decreases s.len(),
{
    if s.len() > 0 && s.last() != '.' {
        lemma_last_dot(s.drop_last());
        assert(forall|i: int| 0 <= i < s.len() - 1 ==> s.drop_last()[i] == s[i]);
    }
}

/// Which file type a filename selects: the extension after the last dot,
/// if there is a dot and the extension is recognized.
pub open spec fn spec_from_filename(name: Seq<char>) -> Option<SupportedFileType> {
    let d = last_dot(name);
    if d < 0 {
        None
    } else {
        spec_from_extension(name.subrange(d + 1, name.len() as int))
    }
}

impl SupportedFileType {
    pub fn from_extension(extension: String) -> (r: Option<SupportedFileType>)
        ensures
            r == spec_from_extension(extension@),
    {
        let e = extension.as_str();
        if crate::parsers::text::str_eq(e, "rs") {
            Some(SupportedFileType::Rust)
        } else if crate::parsers::text::str_eq(e, "go") {
            Some(SupportedFileType::Go)
        } else if crate::parsers::text::str_eq(e, "py") {
            Some(SupportedFileType::Python)
        } else if crate::parsers::text::str_eq(e, "ts") {
            Some(SupportedFileType::TypeScript)
        } else if crate::parsers::text::str_eq(e, "tsx") {
            Some(SupportedFileType::TypeScript)
        } else {
            None
        }
    }

    pub fn from_filename(filename: String) -> (r: Option<SupportedFileType>)
        ensures
            r == spec_from_filename(filename@),
    {
        let name = filename.as_str();
        let n = name.unicode_len();
        let mut i: usize = n;
        while i > 0
            invariant
                name@ == filename@,
                n == name@.len(),
                i <= n,
                forall|j: int| i <= j < n ==> name@[j] != '.',
            decreases i,
        {
            if name.get_char(i - 1) == '.' {
                proof {
                    lemma_last_dot(name@);
                    assert(last_dot(name@) == i - 1) by {
                        if last_dot(name@) == -1 {
                            assert(name@[i - 1] != '.');
                        } else if last_dot(name@) < i - 1 {
                            assert(name@[i - 1] != '.');
                        } else if last_dot(name@) > i - 1 {
                            assert(name@[last_dot(name@)] != '.');
                        }
                    }
                }
                let ext = name.substring_char(i, n);
                return SupportedFileType::from_extension(ext.to_owned());
            }
            i -= 1;
        }
        proof {
            lemma_last_dot(name@);
            assert(last_dot(name@) == -1) by {
                if last_dot(name@) >= 0 {
                    assert(name@[last_dot(name@)] != '.');
                }
            }
        }
        None
    }
}

/// The launch command a backend language server uses for a file type.
pub open spec fn spec_lsp_command(ft: SupportedFileType) -> Seq<char> {
    match ft {
        SupportedFileType::Rust => "rust-analyzer"@,
        SupportedFileType::Go => "gopls"@,
        SupportedFileType::Python => "pylsp"@,
        SupportedFileType::TypeScript => "typescript-language-server"@,
    }
}

/// The optional arguments that launch command takes.
pub open spec fn spec_lsp_args(ft: SupportedFileType) -> Option<Seq<char>> {
    match ft {
        SupportedFileType::TypeScript => Some("--stdio"@),
        _ => None,
    }
}

/// The backend launch command and optional arguments for a file type.
pub fn get_lsp_for_file_type(file_type: SupportedFileType) -> (r: (String, Option<String>))
    ensures
        r.0@ == spec_lsp_command(file_type),
        match r.1 {
            Some(a) => spec_lsp_args(file_type) == Some(a@),
            None => spec_lsp_args(file_type) is None,
        },
{
    match file_type {
        SupportedFileType::Rust => ("rust-analyzer".to_owned(), None),
        SupportedFileType::Go => ("gopls".to_owned(), None),
        SupportedFileType::Python => ("pylsp".to_owned(), None),
        SupportedFileType::TypeScript => (
            "typescript-language-server".to_owned(),
            Some("--stdio".to_owned()),
        ),
    }
}

/// The `file://` URL that the `url` crate renders for an absolute path.
/// The result is a function of the path alone.
pub uninterp spec fn file_url_of(path: Seq<char>) -> Seq<char>;

/// Relies on `url::Url::from_file_path` followed by `Url::to_string`: on
/// this platform the conversion succeeds exactly when the path is absolute
/// (begins with `/`), and the rendered URL depends on the path alone.
#[verifier::external_body]
fn file_url_string(path: &str) -> (r: String)
    requires
        path@.len() > 0,
        path@[0] == '/',
    ensures
        r@ == file_url_of(path@),
{
    url::Url::from_file_path(path).unwrap().to_string()
}

/// The absolute `file://` URL of a file named by a path relative to the
/// project root. The root must be absolute, as the proxy's root always is.
pub fn uri_from_relative_filename(project_root: String, rel_filename: &str) -> (r: String)
    requires
        project_root@.len() > 0,
        project_root@[0] == '/',
    ensures
        r@ == file_url_of(project_root@ + "/"@ + rel_filename@),
{
    let path = project_root.concat("/").concat(rel_filename);
    file_url_string(path.as_str())
}

impl SupportedFileType {
    /// The closed set of supported languages, in declaration order.
    pub fn all() -> (r: Vec<SupportedFileType>)
        ensures
            r@ =~= seq![
                SupportedFileType::Rust,
                SupportedFileType::Go,
                SupportedFileType::Python,
                SupportedFileType::TypeScript,
            ],
    {
        let mut v: Vec<SupportedFileType> = Vec::new();
        v.push(SupportedFileType::Rust);
        v.push(SupportedFileType::Go);
        v.push(SupportedFileType::Python);
        v.push(SupportedFileType::TypeScript);
        v
    }
}

} // verus!

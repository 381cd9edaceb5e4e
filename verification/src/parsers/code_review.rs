//! The review-style diff dialect, with embedded comment threads.

use vstd::prelude::*;

use crate::parsers::scan::{spec_parse_dialect, Dialect};
use crate::parsers::utils::{HeaderMap, LineMap, Parsable, ParsedDiff, ParsedDiffV};

verus! {

/// A diff as a code-review buffer prints it: like the status dialect, but
/// hunks may carry review-comment blocks, which map to no source line.
#[derive(Debug)]
pub struct CodeReviewDiff {
    pub headers: HeaderMap,
    pub filenames: Vec<String>,
    pub lines_map: LineMap,
}

impl CodeReviewDiff {
    pub open spec fn model(&self) -> ParsedDiffV {
        ParsedDiffV {
            headers: self.headers@,
            filenames: self.filenames.deep_view(),
            lines: self.lines_map@,
        }
    }

    pub open spec fn wf(&self) -> bool {
        self.headers.wf() && self.lines_map.wf()
    }

    fn self_parse(source: &str) -> (r: Option<CodeReviewDiff>)
        ensures
            match r {
                Some(m) => spec_parse_dialect(Dialect::CodeReview, source@) == Some(m.model())
                    && m.wf(),
                None => spec_parse_dialect(Dialect::CodeReview, source@) is None,
            },
    {
        let lines = crate::parsers::text::split_lines(source);
        match crate::parsers::scan::scan_lines(Dialect::CodeReview, &lines) {
            Some(sr) => Some(
                CodeReviewDiff {
                    headers: sr.headers,
                    filenames: sr.filenames,
                    lines_map: sr.lines_map,
                },
            ),
            None => None,
        }
    }

}

impl Parsable for CodeReviewDiff {
    open spec fn spec_parse_text(text: Seq<char>) -> Option<ParsedDiffV> {
        spec_parse_dialect(Dialect::CodeReview, text)
    }

    /// Parse a review-style diff text into the normalized form, stamped
    /// with the parse time.
    fn parse(source: &str) -> (r: Option<ParsedDiff>) {
        match CodeReviewDiff::self_parse(source) {
            Some(m) => Some(
                ParsedDiff {
                    headers: m.headers,
                    filenames: m.filenames,
                    lines_map: m.lines_map,
                    parsed_at: crate::utils::current_timestamp(),
                },
            ),
            None => None,
        }
    }
}

} // verus!

use diff_lsp::parsers::code_review::CodeReviewDiff;
use diff_lsp::parsers::magit::MagitDiff;
use diff_lsp::parsers::utils::{
    is_file_header, parse_header, DiffHeader, InputLineNumber, LineType, Parsable, ParsedDiff,
    SourceLineNumber,
};

const REVIEW_WITH_COMMENTS: &str = r#"Project: *Code Review*
Root: /home/chris/gtdbot/
Type: code-review
State: MERGED

modified  config.go
@@ -10,3 +10,4 @@
 x := 1
Reviewed by alice
comment line one
comment line two
-------
+y := 2
Comment by bob
reply text
-------
 z := 3
"#;

const MIXED_HUNK: &str = "Type: magit-status

modified   src/client.rs
@@ -60,9 +60,10 @@
-a
+b
 c
-d
-e
+f
+g
 h
 i
-j
+k
 l
 m
";

#[test]
fn test_parse_header_full_form() {
    assert_eq!(
        parse_header("@@ -11,9 +11,10 @@ import ("),
        Some((11, 9, 11, 10))
    );
    assert_eq!(parse_header("@@ -72,17 +73,17 @@ impl X {"), Some((72, 17, 73, 17)));
}

#[test]
fn test_parse_header_default_lengths() {
    // added-at-start-of-file case: lengths omitted default to 1
    assert_eq!(parse_header("@@ -5 +7 @@"), Some((5, 1, 7, 1)));
    assert_eq!(parse_header("@@ -5,2 +7 @@"), Some((5, 2, 7, 1)));
    assert_eq!(parse_header("@@ -5 +7,3 @@"), Some((5, 1, 7, 3)));
}

#[test]
fn test_parse_header_rejects_malformed() {
    assert_eq!(parse_header("@@ +7 @@"), None);
    assert_eq!(parse_header("@@ -a,1 +7 @@"), None);
    assert_eq!(parse_header("@@ -5 +7"), None);
    assert_eq!(parse_header("not a header"), None);
    // a start line that cannot fit a u16 is refused
    assert_eq!(parse_header("@@ -70000 +1 @@"), None);
    assert_eq!(parse_header("@@ -1 +65536 @@"), None);
    assert_eq!(parse_header("@@ -1 +65535 @@"), Some((1, 1, 65535, 1)));
}

#[test]
fn test_malformed_hunk_fails_parse() {
    let text = "Type: magit-status\n\nmodified   a.go\n@@ junk\n";
    assert!(MagitDiff::parse(text).is_none());
}

#[test]
fn test_marker_without_path_fails_parse() {
    let text = "Type: magit-status\n\nmodified   \n";
    assert!(MagitDiff::parse(text).is_none());
}

#[test]
fn test_unrecognized_dialect_yields_none() {
    // neither `Type: code-review` nor `Type: magit-status`
    let text = "Project: something\nType: unknown-kind\n\nmodified   a.go\n@@ -1 +1 @@\n x\n";
    assert!(ParsedDiff::parse(text).is_none());
}

#[test]
fn test_offset_law_mixed_hunk() {
    // thirteen content lines; the first removed line sits at the hunk's
    // declared new-file start, and only added/unmodified lines advance it
    let diff = MagitDiff::parse(MIXED_HUNK).unwrap();
    let expect = [
        (5, LineType::Removed, 60),
        (6, LineType::Added, 60),
        (7, LineType::Unmodified, 61),
        (8, LineType::Removed, 62),
        (9, LineType::Removed, 62),
        (10, LineType::Added, 62),
        (11, LineType::Added, 63),
        (12, LineType::Unmodified, 64),
        (13, LineType::Unmodified, 65),
        (14, LineType::Removed, 66),
        (15, LineType::Added, 66),
        (16, LineType::Unmodified, 67),
        (17, LineType::Unmodified, 68),
    ];
    for (line, ty, src) in expect {
        let map = diff.map_diff_line_to_src(line).unwrap();
        assert_eq!(map.source_line_type, ty, "line {}", line);
        assert_eq!(map.source_line, SourceLineNumber(src), "line {}", line);
        assert_eq!(map.file_name, "src/client.rs".to_string());
    }
}

#[test]
fn test_comment_block_exclusion() {
    let diff = CodeReviewDiff::parse(REVIEW_WITH_COMMENTS).unwrap();

    // content before the block
    let map = diff.map_diff_line_to_src(8).unwrap();
    assert_eq!(map.source_line_type, LineType::Unmodified);
    assert_eq!(map.source_line, SourceLineNumber(10));

    // opener, body and closer of the block map to nothing
    for line in 9..=12 {
        assert!(
            diff.map_diff_line_to_src(line).is_none(),
            "line {} is in a comment box and should not map to source",
            line
        );
    }

    // the content line after the block continues the offset count
    let map = diff.map_diff_line_to_src(13).unwrap();
    assert_eq!(map.source_line_type, LineType::Added);
    assert_eq!(map.source_line, SourceLineNumber(11));
    assert_eq!(map.file_name, "config.go".to_string());
}

#[test]
fn test_two_comment_blocks_in_sequence() {
    let diff = CodeReviewDiff::parse(REVIEW_WITH_COMMENTS).unwrap();

    // the second block is skipped independently of the first
    for line in 14..=16 {
        assert!(diff.map_diff_line_to_src(line).is_none(), "line {}", line);
    }
    let map = diff.map_diff_line_to_src(17).unwrap();
    assert_eq!(map.source_line_type, LineType::Unmodified);
    assert_eq!(map.source_line, SourceLineNumber(12));
}

#[test]
fn test_filenames_unique_across_hunks() {
    let text = "Type: magit-status\n\nmodified   a.go\n@@ -1 +1 @@\n x\nmodified   b.go\n@@ -1 +1 @@\n y\nmodified   a.go\n@@ -9 +9 @@\n z\n";
    let diff = MagitDiff::parse(text).unwrap();
    assert_eq!(diff.filenames, vec!["a.go".to_string(), "b.go".to_string()]);
}

#[test]
fn test_parse_idempotent() {
    let d1 = CodeReviewDiff::parse(REVIEW_WITH_COMMENTS).unwrap();
    let d2 = CodeReviewDiff::parse(REVIEW_WITH_COMMENTS).unwrap();
    for key in [
        DiffHeader::Project,
        DiffHeader::Root,
        DiffHeader::Buffer,
        DiffHeader::Type,
        DiffHeader::Head,
        DiffHeader::Merge,
        DiffHeader::Push,
        DiffHeader::Draft,
        DiffHeader::State,
    ] {
        assert_eq!(d1.headers.get(&key), d2.headers.get(&key));
    }
    assert_eq!(d1.filenames, d2.filenames);
    assert_eq!(d1.lines_map.len(), d2.lines_map.len());
    for line in 0..=30u16 {
        let m1 = d1.map_diff_line_to_src(line);
        let m2 = d2.map_diff_line_to_src(line);
        match (m1, m2) {
            (None, None) => {}
            (Some(a), Some(b)) => {
                assert_eq!(a.file_name, b.file_name);
                assert_eq!(a.source_line, b.source_line);
                assert_eq!(a.source_line_type, b.source_line_type);
                assert_eq!(a.source_line_text, b.source_line_text);
            }
            _ => panic!("parses disagree at line {}", line),
        }
    }
}

#[test]
fn test_sentinel_ends_scanning() {
    let text = "Type: magit-status\n\nmodified   a.go\n@@ -1 +1 @@\n x\nRecent commits\n y\n";
    let diff = MagitDiff::parse(text).unwrap();
    assert!(diff.map_diff_line_to_src(5).is_some());
    assert!(diff.map_diff_line_to_src(6).is_none());
    assert!(diff.map_diff_line_to_src(7).is_none());
}

#[test]
fn test_line_type_from_line() {
    assert_eq!(LineType::from_line("+added"), LineType::Added);
    assert_eq!(LineType::from_line("-removed"), LineType::Removed);
    assert_eq!(LineType::from_line(" neither"), LineType::Unmodified);
    assert_eq!(LineType::from_line(""), LineType::Unmodified);
}

#[test]
fn test_is_file_header() {
    assert!(is_file_header("modified  config.go"));
    assert!(is_file_header("new file  fresh.rs"));
    assert!(is_file_header("deleted  gone.py"));
    assert!(!is_file_header("modified"));
    assert!(!is_file_header(" modified  config.go"));
}

#[test]
fn test_diff_header_from_name() {
    assert_eq!(DiffHeader::from_name("Project"), Some(DiffHeader::Project));
    assert_eq!(DiffHeader::from_name("State"), Some(DiffHeader::State));
    assert_eq!(DiffHeader::from_name("project"), None);
    assert_eq!(DiffHeader::from_name("Unknown"), None);
}

#[test]
fn test_line_number_wrappers() {
    assert_eq!(InputLineNumber::new(12), InputLineNumber(12));
    assert_eq!(SourceLineNumber::new(7), SourceLineNumber(7));
    assert!(InputLineNumber::new(3) < InputLineNumber::new(4));
}

#[test]
fn test_unmapped_lines_yield_none() {
    let diff = CodeReviewDiff::parse(REVIEW_WITH_COMMENTS).unwrap();
    // header block, blank separator, file marker, hunk header
    for line in [1, 2, 3, 4, 5, 6, 7] {
        assert!(diff.map_diff_line_to_src(line).is_none(), "line {}", line);
    }
    // far past the end of the text
    assert!(diff.map_diff_line_to_src(500).is_none());
    assert!(diff.map_diff_line_to_src(0).is_none());
}

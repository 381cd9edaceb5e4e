use diff_lsp::parsers::code_review::CodeReviewDiff;
use diff_lsp::parsers::magit::MagitDiff;
use diff_lsp::parsers::utils::{DiffHeader, LineType, Parsable, ParsedDiff, SourceLineNumber};
use diff_lsp::{uri_from_relative_filename, SupportedFileType};

const RAW_MAGIT_DIFF_RUST: &str = r#"Project: magit: diff-lsp
Root: /Users/chrishipple/diff-lsp/
Buffer: diff-lsp
Type: magit-status
Head:     main readme typo
Merge:    origin/main readme typo
Push:     origin/main readme typo

Unstaged changes (1)
modified   src/client.rs
@@ -60,9 +60,10 @@ impl LspClient {
                 text_document: {
                     Some(TextDocumentClientCapabilities {
                         hover: Some(HoverClientCapabilities::default()),
-                        ..Default::default()
-                    })
-                },
+                        references: Some(ReferenceClientCapabilities{
+                            include_declaration: true
+                        }),
+                        ..Default::default()},
                 window: None,
                 general: None,
                 experimental: None,
@@ -72,17 +73,17 @@ impl LspClient {
             client_info: None,
             locale: None,
         };
-        let message = "initialize".to_string();
+        let message_type = "initialize".to_string();  // TODO: Is there an enum for this?

-        let raw_resp = self.send_request(message, params).unwrap();
+        let raw_resp = self.send_request(message_type, params).unwrap();
         let resp: InitializeResult = serde_json::from_value(raw_resp).unwrap();
         println!("We got the response: {resp:?}");

         return Ok(resp);
     }

-    pub fn send_request<P: Serialize>(&mut self, message: String, params: P) -> Result<Value> {
-        if message == "initialize".to_string() {
+    pub fn send_request<P: Serialize>(&mut self, message_type: String, params: P) -> Result<Value> {
+        if message_type == "initialize".to_string() {
             let _ser_params = serde_json::to_value(params).unwrap();
             let raw_resp = self.send_value_request(_ser_params).unwrap();
             let as_value: Value = serde_json::from_str(&raw_resp).unwrap();

Recent commits
97f1e20 origin/main readme typo
f3b9f94 send message and serialize response (init message atleast)
"#;

const RAW_MAGIT_DIFF_GO: &str = r#"Project: magit: lsp-example
Root: /Users/chrishipple/lsp-example/
Buffer: lsp-example
Type: magit-status
Head:     main little cleanup
Merge:    origin/main little cleanup
Push:     origin/main little cleanup

Unstaged changes (2)
modified   main.go
@@ -11,9 +11,10 @@ import (
	"github.com/TobiasYin/go-lsp/logs"
 )

+var logger *log.Logger
+var logPath *string
+
 func init() {
-	var logger *log.Logger
-	var logPath *string
	defer func() {
		logs.Init(logger)
	}()

Recent commits
1332ff8 origin/main little cleanup
"#;

const SIMPLE_CODE_REVIEW: &str = r#"Project: *Code Review*
Root: /home/chris/gtdbot/
Type: code-review
State: MERGED

modified  config.go
@@ -10,3 +10,4 @@
 x := 1
Reviewed by alice
this line is commentary
-------
+y := 2
"#;

#[test]
fn test_supported_file_type_from_filename() {
    assert_eq!(
        SupportedFileType::from_filename("Makefile".to_string()),
        None
    );
    assert_eq!(
        SupportedFileType::from_filename("hi.py".to_string()),
        Some(SupportedFileType::Python)
    );
    assert_eq!(
        SupportedFileType::from_filename("test.hi.py".to_string()),
        Some(SupportedFileType::Python)
    );
    assert_eq!(
        SupportedFileType::from_filename("test.hi.rs".to_string()),
        Some(SupportedFileType::Rust)
    );
    assert_eq!(
        SupportedFileType::from_filename("main.rs".to_string()),
        Some(SupportedFileType::Rust)
    );
    assert_eq!(
        SupportedFileType::from_filename("main.go".to_string()),
        Some(SupportedFileType::Go)
    );
    assert_eq!(SupportedFileType::from_filename("go".to_string()), None);
}

#[test]
fn test_diff_type_selection() {
    let parsed_diff_magit = ParsedDiff::parse(RAW_MAGIT_DIFF_GO).unwrap();
    let magit_diff = MagitDiff::parse(RAW_MAGIT_DIFF_GO).unwrap();
    for key in [DiffHeader::Project, DiffHeader::Root, DiffHeader::Buffer, DiffHeader::Type] {
        assert_eq!(parsed_diff_magit.headers.get(&key), magit_diff.headers.get(&key));
    }

    let parsed_diff_code_review = ParsedDiff::parse(SIMPLE_CODE_REVIEW).unwrap();
    let code_review_diff = CodeReviewDiff::parse(SIMPLE_CODE_REVIEW).unwrap();
    for key in [DiffHeader::Project, DiffHeader::Root, DiffHeader::Type, DiffHeader::State] {
        assert_eq!(
            parsed_diff_code_review.headers.get(&key),
            code_review_diff.headers.get(&key)
        );
    }
}

#[test]
fn test_parse_magit_diff() {
    let parsed_diff = MagitDiff::parse(RAW_MAGIT_DIFF_RUST).unwrap();
    assert_eq!(
        parsed_diff.headers.get(&DiffHeader::Buffer),
        Some(&"diff-lsp".to_string())
    );
    assert_eq!(
        parsed_diff.headers.get(&DiffHeader::Type),
        Some(&"magit-status".to_string())
    );
    assert_eq!(
        parsed_diff.headers.get(&DiffHeader::Project),
        Some(&"magit: diff-lsp".to_string())
    );

    assert_eq!(parsed_diff.filenames, vec!["src/client.rs".to_string()])
}

#[test]
fn test_uri_for_rel() {
    let output =
        uri_from_relative_filename("/Users/chrishipple/diff-lsp/".to_string(), "src/main.rs");
    println!("output {:?}", output.as_str());
    assert_eq!(
        "file:///Users/chrishipple/diff-lsp/src/main.rs",
        output.as_str()
    );
}

#[test]
fn test_source_map() {
    let diff = MagitDiff::parse(RAW_MAGIT_DIFF_GO).unwrap();

    let map = diff.map_diff_line_to_src(10);
    assert!(map.is_none(), "Before hunk starts");

    // the first line of the diff
    let map = diff.map_diff_line_to_src(12).unwrap();
    assert_eq!(map.source_line_type, LineType::Unmodified);
    assert_eq!(map.source_line, SourceLineNumber(11)); // only chance that it's input - 1
    assert!(map.source_line_text.contains("github"));

    let map = diff.map_diff_line_to_src(13).unwrap();
    assert_eq!(map.source_line_type, LineType::Unmodified);
    assert_eq!(map.source_line, SourceLineNumber(12));

    let map = diff.map_diff_line_to_src(14).unwrap();
    assert_eq!(map.source_line, SourceLineNumber(13));
    assert_eq!(map.source_line_type, LineType::Unmodified);
    assert_eq!(map.file_name, String::from("main.go"));

    let map = diff.map_diff_line_to_src(15).unwrap();
    assert_eq!(map.source_line_type, LineType::Added);
    assert_eq!(map.source_line, SourceLineNumber(14));
    assert_eq!(map.source_line_text, "+var logger *log.Logger");
}

#[test]
fn test_source_map_multiple_hunks() {
    let diff = MagitDiff::parse(RAW_MAGIT_DIFF_RUST).unwrap();

    let map = diff.map_diff_line_to_src(26).unwrap();
    assert_eq!(map.source_line_type, LineType::Unmodified);
    assert_eq!(map.source_line, SourceLineNumber(73));
}

#[test]
fn test_parse_simple_code_review_buffer() {
    let diff = ParsedDiff::parse(SIMPLE_CODE_REVIEW).unwrap();
    assert_eq!(
        diff.headers.get(&DiffHeader::Project),
        Some(&"*Code Review*".to_string())
    );
}

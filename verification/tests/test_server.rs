use diff_lsp::server::{
    decide_command, parse_initialization_params, CommandAction, DispatchError, ProxyState,
};
use diff_lsp::utils::get_unique_elements;
use diff_lsp::SupportedFileType;

const RAW_MAGIT_DIFF_GO: &str = r#"Project: magit: lsp-example
Root: /Users/chrishipple/lsp-example/
Buffer: lsp-example
Type: magit-status
Head:     main little cleanup
Merge:    origin/main little cleanup
Push:     origin/main little cleanup

Unstaged changes (2)
modified   main.go
@@ -11,9 +11,10 @@ import (
	"github.com/TobiasYin/go-lsp/logs"
 )

+var logger *log.Logger
+var logPath *string
+
 func init() {
-	var logger *log.Logger
-	var logPath *string
	defer func() {
		logs.Init(logger)
	}()

Recent commits
1332ff8 origin/main little cleanup
"#;

fn go_proxy() -> (ProxyState, String) {
    let uri = "file:///tmp/test.diff".to_string();
    let mut state = ProxyState::new(
        "/home/user/lsp-example".to_string(),
        vec![SupportedFileType::Go],
    );
    let diff = state.refresh_file(&uri, RAW_MAGIT_DIFF_GO);
    assert!(diff.is_some());
    (state, uri)
}

#[test]
fn test_hover_column_shift() {
    let (state, uri) = go_proxy();

    // an added line: the forwarded column drops by one for the `+` sigil
    let mapped = state.prepare_position_request(&uri, 15, 7).unwrap();
    assert_eq!(mapped.file_type, SupportedFileType::Go);
    assert_eq!(mapped.line, 14);
    assert_eq!(mapped.character, 6);
    assert_eq!(mapped.uri, "file:///home/user/lsp-example/main.go".to_string());

    // a removed line shifts too
    let mapped = state.prepare_position_request(&uri, 19, 3).unwrap();
    assert_eq!(mapped.line, 18);
    assert_eq!(mapped.character, 2);

    // an unmodified line keeps its column
    let mapped = state.prepare_position_request(&uri, 12, 7).unwrap();
    assert_eq!(mapped.line, 11);
    assert_eq!(mapped.character, 7);
}

#[test]
fn test_dispatch_errors() {
    let (state, uri) = go_proxy();

    // unknown document
    let other = "file:///tmp/other.diff".to_string();
    assert_eq!(
        state.prepare_position_request(&other, 12, 1).unwrap_err(),
        DispatchError::NoDiff
    );

    // a file-marker line maps to nothing
    assert_eq!(
        state.prepare_position_request(&uri, 10, 1).unwrap_err(),
        DispatchError::NoMapping
    );

    // a blank line in the header block maps to nothing
    assert_eq!(
        state.prepare_position_request(&uri, 8, 0).unwrap_err(),
        DispatchError::NoMapping
    );

    // past the end of the text
    assert_eq!(
        state.prepare_position_request(&uri, 4000, 0).unwrap_err(),
        DispatchError::NoMapping
    );
    assert_eq!(
        state.prepare_position_request(&uri, 70000, 0).unwrap_err(),
        DispatchError::NoMapping
    );
}

#[test]
fn test_no_backend_for_language() {
    let uri = "file:///tmp/test.diff".to_string();
    let mut state = ProxyState::new(
        "/home/user/lsp-example".to_string(),
        vec![SupportedFileType::Rust],
    );
    state.refresh_file(&uri, RAW_MAGIT_DIFF_GO).unwrap();
    // the line maps to main.go, but only a Rust backend is registered
    assert_eq!(
        state.prepare_position_request(&uri, 12, 1).unwrap_err(),
        DispatchError::NoBackend
    );
}

#[test]
fn test_refresh_replaces_cache_entry() {
    let (mut state, uri) = go_proxy();
    assert!(state.get_diff(&uri).is_some());

    let other_text = "Type: magit-status\n\nmodified   lib.rs\n@@ -1 +1 @@\n x\n";
    state.refresh_file(&uri, other_text).unwrap();
    let diff = state.get_diff(&uri).unwrap();
    assert_eq!(diff.filenames, vec!["lib.rs".to_string()]);

    // a text that does not parse leaves the cache as it was
    assert!(state.refresh_file(&uri, "no markers here").is_none());
    let diff = state.get_diff(&uri).unwrap();
    assert_eq!(diff.filenames, vec!["lib.rs".to_string()]);
}

#[test]
fn test_files_to_open() {
    let (state, uri) = go_proxy();
    let diff = state.get_diff(&uri).unwrap();
    let opens = state.files_to_open(diff);
    assert_eq!(opens.len(), 1);
    assert_eq!(opens[0].0, SupportedFileType::Go);
    assert_eq!(opens[0].1, "file:///home/user/lsp-example/main.go".to_string());
}

#[test]
fn test_files_to_open_skips_unregistered() {
    let uri = "file:///tmp/test.diff".to_string();
    let text = "Type: magit-status\n\nmodified   a.go\n@@ -1 +1 @@\n x\nmodified   b.rs\n@@ -1 +1 @@\n y\nmodified   README.md\n@@ -1 +1 @@\n z\n";
    let mut state = ProxyState::new("/repo".to_string(), vec![SupportedFileType::Rust]);
    state.refresh_file(&uri, text).unwrap();
    let diff = state.get_diff(&uri).unwrap();
    let opens = state.files_to_open(diff);
    // a.go has no backend; README.md has no recognized extension
    assert_eq!(opens.len(), 1);
    assert_eq!(opens[0].0, SupportedFileType::Rust);
    assert_eq!(opens[0].1, "file:///repo/b.rs".to_string());
}

#[test]
fn test_cache_keys() {
    let (mut state, uri) = go_proxy();
    let other = "file:///tmp/second.diff".to_string();
    state.refresh_file(&other, RAW_MAGIT_DIFF_GO).unwrap();
    let keys = state.diff_map.keys();
    assert_eq!(keys.len(), 2);
    assert!(keys.contains(&uri));
    assert!(keys.contains(&other));
}

#[test]
fn test_get_source_map() {
    let (state, uri) = go_proxy();
    let sm = state.get_source_map(&uri, 15).unwrap();
    assert_eq!(sm.file_name, "main.go".to_string());
    assert_eq!(sm.source_line.0, 14);
    assert!(state.get_source_map(&uri, 9).is_none());
    assert!(state.get_source_map(&uri, 100000).is_none());
}

#[test]
fn test_decide_command() {
    assert_eq!(
        decide_command("custom.notification"),
        CommandAction::CustomNotification
    );
    assert_eq!(decide_command("refresh"), CommandAction::Refresh);
    assert_eq!(decide_command("fetch"), CommandAction::Fetch);
    assert_eq!(decide_command("reload"), CommandAction::Invalid);
    assert_eq!(decide_command(""), CommandAction::Invalid);
}

#[test]
fn test_get_unique_elements() {
    let input = vec![
        SupportedFileType::Go,
        SupportedFileType::Rust,
        SupportedFileType::Go,
        SupportedFileType::Python,
        SupportedFileType::Rust,
    ];
    let unique = get_unique_elements(&input);
    assert_eq!(
        unique,
        vec![
            SupportedFileType::Go,
            SupportedFileType::Rust,
            SupportedFileType::Python,
        ]
    );
}

#[test]
fn test_parse_initialization_params() {
    let (cwd, types) = parse_initialization_params(RAW_MAGIT_DIFF_GO);
    assert_eq!(cwd, "/Users/chrishipple/lsp-example/".to_string());
    assert_eq!(types, vec![SupportedFileType::Go]);
}

#[test]
fn test_parse_initialization_params_multiple_languages() {
    let text = "Root: /home/chris/gtdbot/\nmodified  a.go\nmodified  b.rs\nmodified  c.go\nmodified  notes.txt\n";
    let (cwd, types) = parse_initialization_params(text);
    assert_eq!(cwd, "/home/chris/gtdbot/".to_string());
    assert_eq!(types, vec![SupportedFileType::Go, SupportedFileType::Rust]);
}

#[test]
fn test_supported_file_type_all() {
    let all = SupportedFileType::all();
    assert_eq!(
        all,
        vec![
            SupportedFileType::Rust,
            SupportedFileType::Go,
            SupportedFileType::Python,
            SupportedFileType::TypeScript,
        ]
    );
}

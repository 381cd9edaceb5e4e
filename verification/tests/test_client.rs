use diff_lsp::client::{frame_message, parse_lsp_header, should_skip_body, BackendSession, LspHeader};

#[test]
fn test_frame_message() {
    assert_eq!(frame_message("hello"), "Content-Length: 5\r\n\r\nhello".to_string());
    assert_eq!(frame_message(""), "Content-Length: 0\r\n\r\n".to_string());
    let body = "{\"jsonrpc\":\"2.0\",\"id\":2,\"method\":\"initialize\"}";
    assert_eq!(
        frame_message(body),
        format!("Content-Length: {}\r\n\r\n{}", body.len(), body)
    );
}

#[test]
fn test_frame_message_counts_bytes() {
    // the length header counts UTF-8 bytes, not characters
    let body = "h\u{e9}llo";
    assert_eq!(body.len(), 6);
    assert_eq!(
        frame_message(body),
        format!("Content-Length: 6\r\n\r\n{}", body)
    );
}

#[test]
fn test_parse_lsp_header() {
    assert_eq!(
        parse_lsp_header("Content-Length: 123\r\n"),
        Some(LspHeader::ContentLength(123))
    );
    assert_eq!(
        parse_lsp_header("content-length: 7"),
        Some(LspHeader::ContentLength(7))
    );
    assert_eq!(
        parse_lsp_header("CONTENT-LENGTH: 0"),
        Some(LspHeader::ContentLength(0))
    );
    assert_eq!(
        parse_lsp_header("Content-Type: application/vscode-jsonrpc; charset=utf-8"),
        Some(LspHeader::ContentType)
    );
}

#[test]
fn test_parse_lsp_header_rejects_malformed() {
    assert_eq!(parse_lsp_header("no separator here"), None);
    assert_eq!(parse_lsp_header("X-Other: 12"), None);
    assert_eq!(parse_lsp_header("Content-Length: abc"), None);
    assert_eq!(parse_lsp_header("Content-Length: "), None);
    assert_eq!(parse_lsp_header("Content-Length: 12 34"), None);
}

#[test]
fn test_should_skip_body() {
    assert!(should_skip_body("{\"method\":\"window/showMessage\"}"));
    assert!(should_skip_body("{\"method\":\"window/logMessage\"}"));
    assert!(should_skip_body("{\"method\":\"textDocument/publishDiagnostics\"}"));
    assert!(!should_skip_body("{\"id\":2,\"result\":{}}"));
}

#[test]
fn test_request_ids_increase() {
    let mut session = BackendSession::new();
    let a = session.get_request_id();
    let b = session.get_request_id();
    let c = session.get_request_id();
    assert_eq!(a, 2);
    assert_eq!(b, 3);
    assert_eq!(c, 4);
}

use lom::diagnostics::{Diagnostic, Severity, Stage};
use lom::lsp::{content_length_of, is_header_end};
use lom::lsp::{
    diagnostic_to_lsp_json, make_error_response, make_lsp_message, make_notification, make_publish_diagnostics,
    make_response, parse_rpc_message, CompletionKind,
};

#[test]
fn parse_rpc_request() {
    let msg = r#"{"jsonrpc":"2.0","id":1,"method":"initialize","params":{"capabilities":{}}}"#;
    let (id, method, _params) = parse_rpc_message(msg).expect("解析失败");
    assert_eq!(id, Some(1));
    assert_eq!(method, "initialize");
}

#[test]
fn parse_rpc_notification() {
    let msg = r#"{"jsonrpc":"2.0","method":"initialized","params":{}}"#;
    let (id, method, _params) = parse_rpc_message(msg).expect("解析失败");
    assert_eq!(id, None); // 通知无 id
    assert_eq!(method, "initialized");
}

#[test]
fn make_response_json() {
    let resp = make_response(1, "{\"capabilities\":{}}");
    assert!(resp.contains("\"id\":1"));
    assert!(resp.contains("\"result\""));
    assert!(resp.contains("\"jsonrpc\":\"2.0\""));
}

#[test]
fn make_lsp_message_with_header() {
    let msg = make_lsp_message("{\"hello\":true}");
    assert!(msg.starts_with("Content-Length: "));
    assert!(msg.contains("\r\n\r\n"));
    assert!(msg.ends_with("{\"hello\":true}"));
}

#[test]
fn diagnostic_to_lsp_json_format() {
    let d = Diagnostic {
        severity: Severity::Error,
        stage: Stage::Parse,
        code: "PARSE001".to_string(),
        message: "期望 ')'".to_string(),
        file: "test.lom".to_string(),
        line: 3,
        col: 10,
        source_line: None,
        is_hole: false,
        hint: None,
    };
    let json = diagnostic_to_lsp_json(&d, "file:///test.lom");
    // LSP line 是 0-based，所以 line=3 → 2
    assert!(json.contains("\"line\":2"));
    assert!(json.contains("\"character\":9"));
    assert!(json.contains("\"severity\":1"));
    assert!(json.contains("\"code\":\"PARSE001\""));
    assert!(json.contains("\"source\":\"lom\""));
}

#[test]
fn make_publish_diagnostics_notification() {
    let diags = vec![Diagnostic {
        severity: Severity::Error,
        stage: Stage::Lex,
        code: "LEX001".to_string(),
        message: "未闭合字符串".to_string(),
        file: "test.lom".to_string(),
        line: 1,
        col: 1,
        source_line: None,
        is_hole: false,
        hint: None,
    }];
    let msg = make_publish_diagnostics("file:///test.lom", &diags);
    assert!(msg.contains("textDocument/publishDiagnostics"));
    assert!(msg.contains("file:///test.lom"));
    assert!(msg.contains("LEX001"));
}

#[test]
fn make_publish_diagnostics_empty() {
    let msg = make_publish_diagnostics("file:///test.lom", &[]);
    assert!(msg.contains("\"diagnostics\":[]"));
}

#[test]
fn parse_rpc_params_and_ids() {
    let msg = r#"{"jsonrpc":"2.0","id": 42,"method":"textDocument/hover","params":{"position":{"line":1}}}"#;
    let (id, method, params) = parse_rpc_message(msg).unwrap();
    assert_eq!(id, Some(42));
    assert_eq!(method, "textDocument/hover");
    assert_eq!(params, "{\"position\":{\"line\":1}}");
    let arr = parse_rpc_message(r#"{"method":"m","params": [1,[2],3]}"#).unwrap();
    assert_eq!(arr.2, "[1,[2],3]");
    let none = parse_rpc_message(r#"{"id":1,"params":{}}"#);
    assert!(none.is_none());
    let no_params = parse_rpc_message(r#"{"method":"exit"}"#).unwrap();
    assert_eq!(no_params.2, "");
}

#[test]
fn lsp_message_length_is_in_bytes() {
    let msg = make_lsp_message("{\"m\":\"é中\"}");
    assert_eq!(msg, "Content-Length: 13\r\n\r\n{\"m\":\"é中\"}");
}

#[test]
fn error_response_and_notification_exact() {
    assert_eq!(
        make_error_response(7, -32601, "no \"such\" method"),
        "{\"jsonrpc\":\"2.0\",\"id\":7,\"error\":{\"code\":-32601,\"message\":\"no \\\"such\\\" method\"}}"
    );
    assert_eq!(make_notification("exit", "null"), "{\"jsonrpc\":\"2.0\",\"method\":\"exit\",\"params\":null}");
    assert_eq!(make_response(3, "null"), "{\"jsonrpc\":\"2.0\",\"id\":3,\"result\":null}");
}

#[test]
fn lsp_diagnostic_exact_and_kinds() {
    let d = Diagnostic {
        severity: Severity::Warning,
        stage: Stage::Parse,
        code: "P\"1".to_string(),
        message: "a\"b\nc".to_string(),
        file: "f.lom".to_string(),
        line: 0,
        col: 0,
        source_line: None,
        is_hole: false,
        hint: None,
    };
    assert_eq!(
        diagnostic_to_lsp_json(&d, "u"),
        "{\"range\":{\"start\":{\"line\":0,\"character\":0},\"end\":{\"line\":0,\"character\":1}},\"severity\":2,\"code\":\"P\\\"1\",\"source\":\"lom\",\"message\":\"a\\\"b\\nc\"}"
    );
    assert_eq!(CompletionKind::Function.as_lsp_number(), 3);
    assert_eq!(CompletionKind::Enum.as_lsp_number(), 13);
    assert_eq!(CompletionKind::Variant.as_lsp_number(), 22);
    assert_eq!(CompletionKind::Keyword.as_lsp_number(), 14);
    assert_eq!(CompletionKind::Module.as_lsp_number(), 9);
}

#[test]
fn header_content_length_is_read() {
    assert_eq!(content_length_of("Content-Length: 42\r\n"), Some(42));
    assert_eq!(content_length_of("Content-Length:  +7  "), Some(7));
    assert_eq!(content_length_of("Content-Type: text"), None);
    assert_eq!(content_length_of("Content-Length: abc"), None);
    assert_eq!(content_length_of("Content-Length: 99999999999999999999999"), None);
    assert!(is_header_end("\r\n"));
    assert!(is_header_end(""));
    assert!(!is_header_end("Content-Length: 1"));
}

#[test]
fn content_length_digit_limits() {
    assert_eq!(content_length_of("Content-Length: 18446744073709551615"), Some(18446744073709551615));
    assert_eq!(content_length_of("Content-Length: 18446744073709551616"), None);
    assert_eq!(content_length_of("Content-Length: 1x"), None);
    assert_eq!(content_length_of("Content-Length: "), None);
}

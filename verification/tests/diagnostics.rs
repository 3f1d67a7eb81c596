use lom::diagnostics::{json_escape, Diagnostic, Diagnostics, Severity, Stage};
use lom::lexer::LexError;
use lom::parser::ParseError;

fn src_lines(src: &str) -> Vec<&str> {
    src.lines().collect()
}

#[test]
fn lex_error_classifies_to_lex001_for_unclosed_string() {
    let err = LexError {
        message: "未闭合的字符串".to_string(),
        line: 1,
        col: 5,
    };
    let lines = src_lines("let s = \"hello");
    let d = Diagnostic::from_lex(&err, "test.lom", &lines);
    assert_eq!(d.code, "LEX001");
    assert_eq!(d.stage, Stage::Lex);
    assert_eq!(d.severity, Severity::Error);
    assert!(!d.is_hole);
    assert!(d.hint.is_some());
    assert_eq!(d.source_line.as_deref(), Some("let s = \"hello"));
}

#[test]
fn lex_error_classifies_to_lex005_for_unexpected_char() {
    let err = LexError {
        message: "意外字符 '#'".to_string(),
        line: 2,
        col: 1,
    };
    let lines = src_lines("let x = 1\n# bad");
    let d = Diagnostic::from_lex(&err, "test.lom", &lines);
    assert_eq!(d.code, "LEX005");
    assert_eq!(d.source_line.as_deref(), Some("# bad"));
}

#[test]
fn parse_error_classifies_to_parse001_for_expected_token() {
    let err = ParseError {
        message: "期望 ')'，得到 '}'".to_string(),
        line: 3,
        col: 2,
    };
    let lines = src_lines("fn f()\n  1\n} end");
    let d = Diagnostic::from_parse(&err, "test.lom", &lines);
    assert_eq!(d.code, "PARSE001");
    assert_eq!(d.stage, Stage::Parse);
    assert!(!d.is_hole);
}

#[test]
fn parse_error_classifies_to_parse099_for_hole() {
    let err = ParseError {
        message: "代码洞（hole）@ 3:5 — 该处解析失败".to_string(),
        line: 3,
        col: 5,
    };
    let lines = src_lines("fn f()\n  let x =\n  1\nend");
    let d = Diagnostic::from_parse(&err, "test.lom", &lines);
    assert_eq!(d.code, "PARSE099");
    assert!(d.is_hole);
}

#[test]
fn parse_result_lex_error_is_classified_as_lex_stage() {
    // Phase 2.2 把词法错误合并到 ParseResult.errors 中（以 ParseError 形态），
    // from_parse 必须能识别"未闭合的字符串"是词法错误而非语法错误。
    let err = ParseError {
        message: "未闭合的字符串".to_string(),
        line: 1,
        col: 9,
    };
    let lines = src_lines("let s = \"hello");
    let d = Diagnostic::from_parse(&err, "test.lom", &lines);
    assert_eq!(d.stage, Stage::Lex);
    assert_eq!(d.code, "LEX001");
    assert!(d.hint.is_some());
}

#[test]
fn parse_result_unexpected_char_is_classified_as_lex_stage() {
    let err = ParseError {
        message: "意外字符 '#'".to_string(),
        line: 2,
        col: 1,
    };
    let lines = src_lines("let x = 1\n# bad");
    let d = Diagnostic::from_parse(&err, "test.lom", &lines);
    assert_eq!(d.stage, Stage::Lex);
    assert_eq!(d.code, "LEX005");
}

#[test]
fn json_escape_handles_special_chars() {
    assert_eq!(json_escape("hello"), "hello");
    assert_eq!(json_escape("a\"b"), "a\\\"b");
    assert_eq!(json_escape("a\\b"), "a\\\\b");
    assert_eq!(json_escape("a\nb"), "a\\nb");
    assert_eq!(json_escape("a\tb"), "a\\tb");
}

#[test]
fn diagnostics_json_contains_required_fields() {
    let mut diags = Diagnostics::new("test.lom");
    let err = LexError {
        message: "未闭合的字符串".to_string(),
        line: 1,
        col: 9,
    };
    let lines = src_lines("let s = \"hello");
    diags.diagnostics.push(Diagnostic::from_lex(&err, "test.lom", &lines));
    diags.ok = false;

    let json = diags.to_json();
    assert!(json.contains("\"schema\": \"lom-diag/v1\""));
    assert!(json.contains("\"file\": \"test.lom\""));
    assert!(json.contains("\"ok\": false"));
    assert!(json.contains("\"total\": 1"));
    assert!(json.contains("\"code\": \"LEX001\""));
    assert!(json.contains("\"severity\": \"error\""));
    assert!(json.contains("\"stage\": \"lex\""));
    assert!(json.contains("\"source_line\": \"let s = \\\"hello\""));
    assert!(json.contains("\"is_hole\": false"));
    assert!(json.contains("\"hint\":"));
}

#[test]
fn diagnostics_json_empty_when_ok() {
    let diags = Diagnostics::new("ok.lom");
    let json = diags.to_json();
    assert!(json.contains("\"ok\": true"));
    assert!(json.contains("\"total\": 0"));
    assert!(json.contains("\"diagnostics\": []"));
}

#[test]
fn human_readable_format_contains_pointer() {
    let mut diags = Diagnostics::new("test.lom");
    let err = LexError {
        message: "意外字符 '#'".to_string(),
        line: 1,
        col: 1,
    };
    let lines = src_lines("# bad");
    diags.diagnostics.push(Diagnostic::from_lex(&err, "test.lom", &lines));
    diags.ok = false;

    let human = diags.to_human();
    assert!(human.contains("[lex]"));
    assert!(human.contains("LEX005"));
    assert!(human.contains("| # bad"));
    assert!(human.contains("| ^"));
    assert!(human.contains("hint:"));
    assert!(human.contains("共 1 个诊断"));
}

#[test]
fn runtime_error_classifies_correctly() {
    let err = "未定义变量 'x'".to_string();
    let lines = src_lines("fn f()\n  x\nend");
    let d = Diagnostic::from_runtime(&err, "test.lom", &lines, 2, 3);
    assert_eq!(d.code, "RUNTIME002");
    assert_eq!(d.stage, Stage::Runtime);
}

#[test]
fn runtime_hole_classifies_correctly() {
    let err = "代码洞（hole）@ 3:5 — 该处解析失败，无法执行".to_string();
    let lines = src_lines("fn f()\n  let x =\n  1\nend");
    let d = Diagnostic::from_runtime(&err, "test.lom", &lines, 3, 5);
    assert_eq!(d.code, "RUNTIME003");
    assert!(d.is_hole);
}

#[test]
fn runtime_diagnostic_codes_hints_and_lines() {
    let lines = src_lines("a\nb");
    let d = Diagnostic::from_runtime("期望 Int，得到 String", "t.lom", &lines, 2, 1);
    assert_eq!(d.code, "RUNTIME001");
    assert_eq!(d.hint.as_deref(), Some("检查值类型与操作期望是否一致"));
    assert_eq!(d.source_line.as_deref(), Some("b"));
    let d = Diagnostic::from_runtime("提前返回 x", "t.lom", &lines, 0, 0);
    assert_eq!(d.code, "RUNTIME004");
    assert_eq!(d.hint, None);
    assert_eq!(d.source_line, None);
    let d = Diagnostic::from_runtime("未知模块 net", "t.lom", &lines, 9, 1);
    assert_eq!(d.code, "RUNTIME005");
    assert_eq!(d.source_line, None);
    let d = Diagnostic::from_runtime("除零", "t.lom", &lines, 1, 1);
    assert_eq!(d.code, "RUNTIME000");
}

#[test]
fn add_runtime_marks_the_run_failed() {
    let mut diags = Diagnostics::new("m.lom");
    diags.add_runtime("未找到函数 'g'", "fn main()\n  g()\nend\n", 2, 3);
    assert!(!diags.ok);
    assert_eq!(diags.diagnostics.len(), 1);
    assert_eq!(diags.diagnostics[0].file, "m.lom");
    assert_eq!(diags.diagnostics[0].code, "RUNTIME002");
    assert_eq!(diags.diagnostics[0].source_line.as_deref(), Some("  g()"));
}

use lom::diagnostics::{Diagnostic, Diagnostics};
use lom::iterate::apply_iterative;
use lom::lexer::LexError;

/// Reports an unclosed string on line 1 while the source has an odd number of
/// quotes, and nothing otherwise.
fn unclosed_string_check(s: String) -> Diagnostics {
    let mut d = Diagnostics::new("t.lom");
    if s.matches('"').count() % 2 == 1 {
        let lines: Vec<&str> = s.lines().collect();
        let err = LexError { message: "未闭合的字符串".to_string(), line: 1, col: 9 };
        d.diagnostics.push(Diagnostic::from_lex(&err, "t.lom", &lines));
        d.ok = false;
    }
    d
}

#[test]
fn iterative_fix_converges_after_clean_round() {
    let (out, rounds) = apply_iterative("let s = \"hello", 5, unclosed_string_check);
    assert_eq!(out, "let s = \"hello\"");
    assert_eq!(rounds.len(), 2);
    assert_eq!(rounds[0].applied, 1);
    assert_eq!(rounds[1].applied, 0);
}

#[test]
fn iterative_fix_respects_round_limit() {
    let (out, rounds) = apply_iterative("let s = \"hello", 1, unclosed_string_check);
    assert_eq!(out, "let s = \"hello\"");
    assert_eq!(rounds.len(), 1);
    let (same, none) = apply_iterative("let s = \"hello", 0, unclosed_string_check);
    assert_eq!(same, "let s = \"hello");
    assert!(none.is_empty());
}

#[test]
fn iterative_fix_clean_source_single_round() {
    let (out, rounds) = apply_iterative("fn main() -> Unit\nend\n", 5, unclosed_string_check);
    assert_eq!(out, "fn main() -> Unit\nend\n");
    assert_eq!(rounds.len(), 1);
    assert_eq!(rounds[0].applied, 0);
}

use lom::repl::{ReplSession, help_text, is_input_complete};

#[test]
fn test_is_complete_simple_expr() {
    assert!(is_input_complete("1 + 2"));
    assert!(is_input_complete("println(\"hello\")"));
    assert!(is_input_complete("let x = 5"));
}

#[test]
fn test_is_complete_unbalanced_paren() {
    assert!(!is_input_complete("add(1,"));
    assert!(!is_input_complete("f(1, (2"));
    assert!(!is_input_complete("println(\"hi\""));
}

#[test]
fn test_is_complete_unclosed_string() {
    assert!(!is_input_complete("println(\"hello"));
    assert!(!is_input_complete("let s = \"unclosed"));
}

#[test]
fn test_is_complete_block_needs_end() {
    assert!(!is_input_complete("fn add(a: Int, b: Int) -> Int\n    a + b"));
    assert!(is_input_complete("fn add(a: Int, b: Int) -> Int\n    a + b\nend"));
    assert!(!is_input_complete("if true\n    println(1)"));
    assert!(is_input_complete("if true\n    println(1)\nend"));
}

#[test]
fn test_is_complete_nested_blocks() {
    assert!(is_input_complete(
        "fn f() -> Unit\n    if true\n        println(1)\n    end\nend"
    ));
    assert!(!is_input_complete(
        "fn f() -> Unit\n    if true\n        println(1)\n    end"
    ));
}

#[test]
fn test_is_complete_empty() {
    assert!(!is_input_complete(""));
    assert!(!is_input_complete("   "));
    assert!(!is_input_complete("\n\n"));
}

#[test]
fn test_is_complete_comment_only() {
    assert!(!is_input_complete("# just a comment"));
}

#[test]
fn test_is_complete_match_block() {
    assert!(!is_input_complete(
        "match x\n    Ok(n) => n"
    ));
    assert!(is_input_complete(
        "match x\n    Ok(n) => n\nend"
    ));
}

#[test]
fn test_is_complete_enum_decl() {
    // enum 是单行声明，不需要 end，应判为完整
    assert!(is_input_complete("enum Color = Red | Green"));
    assert!(is_input_complete("enum Shape = Circle(Float) | Square(Float)"));
}

#[test]
fn test_is_complete_string_with_escape() {
    // 字符串含转义引号，不应误判为未闭合
    assert!(is_input_complete("println(\"say \\\"hi\\\"\")"));
    assert!(!is_input_complete("println(\"unclosed \\\""));
}

#[test]
fn test_is_complete_nested_parens() {
    assert!(is_input_complete("f(g(h(1)))"));
    assert!(!is_input_complete("f(g(h(1))"));
    assert!(!is_input_complete("f(g(h(1)))))"));
}

#[test]
fn test_is_complete_brace_in_string() {
    // 字符串内的括号不应影响深度
    assert!(is_input_complete("let s = \"(unbalanced\""));
    assert!(is_input_complete("let s = \"{unbalanced\""));
}

#[test]
fn is_complete_keyword_only_at_line_start() {
    // `if` in the middle of a line is not a block opener.
    assert!(is_input_complete("let x = if"));
    assert!(!is_input_complete("  while x"));
    assert!(is_input_complete("# note\nx + 1"));
    assert!(!is_input_complete("# a\n   # b\n"));
    assert!(is_input_complete("end"));
}

#[test]
fn help_text_lists_commands() {
    let h = help_text();
    assert!(h.starts_with("Lom REPL 命令：\n"));
    assert!(h.contains(":reset"));
    assert!(h.ends_with("执行副作用\n"));
}

#[test]
fn session_commands_and_accumulated_source() {
    let mut s = ReplSession::new();
    s.record_input("let x = 1");
    s.record_input("x + 1");
    let show = s.handle_command(":show");
    assert!(show.should_continue);
    assert_eq!(show.output, "let x = 1\nx + 1");
    let unknown = s.handle_command(":frob now");
    assert!(unknown.should_continue);
    assert_eq!(unknown.output, "未知命令: :frob（输入 :help 查看可用命令）");
    assert!(s.handle_command(":help").output.contains(":reset"));
    let reset = s.handle_command(":reset");
    assert_eq!(reset.output, "会话已重置");
    assert_eq!(s.handle_command(":show").output, "");
    let quit = s.handle_command(":quit");
    assert!(!quit.should_continue);
    assert_eq!(quit.output, "再见");
}

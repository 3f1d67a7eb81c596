
use lom::fmt::format_source;

#[test]
fn fmt_basic_indent() {
    // 无缩进输入 → 规范 4 空格缩进
    let src = "fn add(a: Int, b: Int) -> Int\na + b\nend\n";
    let expected = "fn add(a: Int, b: Int) -> Int\n    a + b\nend\n";
    assert_eq!(format_source(src).unwrap(), expected);
}

#[test]
fn fmt_idempotent() {
    let src = "fn f() -> Unit\n    if true\n        println(1)\n    else\n        println(2)\n    end\nend\n";
    let once = format_source(src).unwrap();
    assert_eq!(once, src);
    assert_eq!(format_source(&once).unwrap(), once);
}

#[test]
fn fmt_else_elif_dedent() {
    let src = "fn f(x: Int) -> Unit\nif x > 0\nprintln(1)\nelif x > 1\nprintln(2)\nelse\nprintln(3)\nend\nend\n";
    let expected = "fn f(x: Int) -> Unit\n    if x > 0\n        println(1)\n    elif x > 1\n        println(2)\n    else\n        println(3)\n    end\nend\n";
    assert_eq!(format_source(src).unwrap(), expected);
}

#[test]
fn fmt_string_with_end_not_keyword() {
    // 字符串里的 end 是 Str token，不影响块深度
    let src = "fn f() -> Unit\nprintln(\"end\")\nprintln(2)\nend\n";
    let expected = "fn f() -> Unit\n    println(\"end\")\n    println(2)\nend\n";
    assert_eq!(format_source(src).unwrap(), expected);
}

#[test]
fn fmt_comments_preserved() {
    let src = "# 顶部注释\nfn f() -> Unit\n# 函数内注释\nprintln(1)\nend\n";
    let expected = "# 顶部注释\nfn f() -> Unit\n    # 函数内注释\n    println(1)\nend\n";
    assert_eq!(format_source(src).unwrap(), expected);
}

#[test]
fn fmt_match_form_b() {
    let src = "fn f(x: Int) -> Unit\nmatch x\nSome(v) =>\nprintln(v)\nend\nNone => println(0)\nend\nend\n";
    let expected = "fn f(x: Int) -> Unit\n    match x\n        Some(v) =>\n            println(v)\n        end\n        None => println(0)\n    end\nend\n";
    assert_eq!(format_source(src).unwrap(), expected);
}

#[test]
fn fmt_enum_variants() {
    let src = "enum Color\n| Red\n| Green\nend\n";
    let expected = "enum Color\n    | Red\n    | Green\nend\n";
    assert_eq!(format_source(src).unwrap(), expected);
}

#[test]
fn fmt_closure_in_parens_balanced() {
    // 闭包作为实参跨行：fn 计入开，end 计入闭，深度不泄漏；
    // 括号续行保留原始缩进（已知限制：不重排括号内部）
    let src = "from list import { list_map }\nfn main() -> Unit\nlist_map(fn(x: Int) -> Int\nx * 2\nend, 1..4)\nprintln(1)\nend\n";
    let expected = "from list import { list_map }\nfn main() -> Unit\n    list_map(fn(x: Int) -> Int\nx * 2\nend, 1..4)\n    println(1)\nend\n";
    assert_eq!(format_source(src).unwrap(), expected);
}

#[test]
fn fmt_lex_error_refused() {
    // 未闭合字符串 → 拒绝格式化
    assert!(format_source("fn f() -> Unit\nprintln(\"x\nend\n").is_err());
}

#[test]
fn fmt_trailing_whitespace_removed() {
    let src = "fn f() -> Unit\n    println(1)   \nend\n";
    let expected = "fn f() -> Unit\n    println(1)\nend\n";
    assert_eq!(format_source(src).unwrap(), expected);
}

#[test]
fn fmt_single_line_enum_no_leak() {
    // 单行枚举 enum X = A | B 无 end，不能开块（否则后续所有行深度泄漏）
    let src = "enum Color = Red | Green | Blue\n\nfn f(c: Int) -> Int\nmatch c\n_ => 0\nend\nend\n";
    let expected = "enum Color = Red | Green | Blue\n\nfn f(c: Int) -> Int\n    match c\n        _ => 0\n    end\nend\n";
    assert_eq!(format_source(src).unwrap(), expected);
}

#[test]
fn fmt_single_line_if_balanced() {
    // let x = if ... end 单行：If 开 + End 闭 = 平衡
    let src = "fn f() -> Unit\nlet x = if true\n1\nelse\n2\nend\nprintln(x)\nend\n";
    let expected = "fn f() -> Unit\n    let x = if true\n        1\n    else\n        2\n    end\n    println(x)\nend\n";
    assert_eq!(format_source(src).unwrap(), expected);
}


#[test]
fn fmt_lex_error_message() {
    let err = format_source("let x = 1\nlet y = @\n").unwrap_err();
    assert_eq!(err, "词法错误 (2:9): 意外字符 '@'");
}

#[test]
fn fmt_blank_lines_and_crlf() {
    let src = "fn f() -> Unit\r\n   \r\nprintln(1)\r\nend";
    assert_eq!(format_source(src).unwrap(), "fn f() -> Unit\n\n    println(1)\nend\n");
}

#[test]
fn fmt_keeps_multiline_string_content() {
    let src = "fn f() -> Unit\nlet s = \"a\n   b\"\nend\n";
    let expected = "fn f() -> Unit\n    let s = \"a\n   b\"\nend\n";
    assert_eq!(format_source(src).unwrap(), expected);
}

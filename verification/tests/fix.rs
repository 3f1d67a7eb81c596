use lom::diagnostics::{Diagnostic, Diagnostics, Severity, Stage};
use lom::fix::{
    extract_quoted_char, extract_second_bracketed, find_token_occurrences, fix_for_diagnostic, generate_plan, to_human,
    to_json, ActionKind, Confidence,
};
use lom::lexer::LexError;
use lom::parser::ParseError;

fn make_lex_diag<'a>(message: &'a str, line: usize, col: usize, src: &'a str) -> (Diagnostic, Vec<&'a str>) {
    let err = LexError {
        message: message.to_string(),
        line,
        col,
    };
    let lines: Vec<&'a str> = src.lines().collect();
    let d = Diagnostic::from_lex(&err, "test.lom", &lines);
    (d, lines)
}

#[test]
fn lex001_generates_insert_quote_fix() {
    let (d, lines) = make_lex_diag("未闭合的字符串", 1, 9, "let s = \"hello");
    let fixes = fix_for_diagnostic(&d, &lines);
    assert_eq!(fixes.len(), 1);
    assert_eq!(fixes[0].action, ActionKind::Insert);
    assert_eq!(fixes[0].confidence, Confidence::High);
    assert_eq!(fixes[0].text.as_deref(), Some("\""));
    assert_eq!(fixes[0].line, 1);
    // "let s = \"hello" 有 14 字符，col 应为 15（行末 +1）
    assert_eq!(fixes[0].col, 15);
}

#[test]
fn lex002_generates_insert_quote_fix() {
    let (d, lines) = make_lex_diag("未闭合的字符串转义", 2, 5, "let x = 1\nlet s = \"a\\");
    let fixes = fix_for_diagnostic(&d, &lines);
    assert_eq!(fixes[0].action, ActionKind::Insert);
    assert_eq!(fixes[0].confidence, Confidence::High);
}

#[test]
fn lex005_generates_delete_char_fix() {
    let (d, lines) = make_lex_diag("意外字符 '#'", 1, 1, "# bad");
    let fixes = fix_for_diagnostic(&d, &lines);
    assert_eq!(fixes.len(), 1);
    assert_eq!(fixes[0].action, ActionKind::Delete);
    assert_eq!(fixes[0].confidence, Confidence::High);
    assert_eq!(fixes[0].line, 1);
    assert_eq!(fixes[0].col, 1);
    assert_eq!(fixes[0].end_line, Some(1));
    assert_eq!(fixes[0].end_col, Some(2));
    assert!(fixes[0].text.is_none());
}

#[test]
fn lex003_generates_hint_only() {
    let (d, lines) = make_lex_diag("无效浮点数 '3.'", 1, 5, "let x = 3.");
    let fixes = fix_for_diagnostic(&d, &lines);
    assert_eq!(fixes[0].action, ActionKind::Hint);
    assert_eq!(fixes[0].confidence, Confidence::Low);
}

#[test]
fn parse001_mid_line_rparen_generates_medium_insert() {
    // M3：违规 token 在行中 → 在出错位置插 ')'（Medium——也可能是缺 ','）
    let err = ParseError {
        message: "期望 ')'，得到 '}'".to_string(),
        line: 3,
        col: 2,
    };
    let lines: Vec<&str> = vec!["fn f()", "  1", "} end"];
    let d = Diagnostic::from_parse(&err, "test.lom", &lines);
    let fixes = fix_for_diagnostic(&d, &lines);
    assert_eq!(fixes[0].action, ActionKind::Insert);
    assert_eq!(fixes[0].confidence, Confidence::Medium);
    assert_eq!(fixes[0].text.as_deref(), Some(")"));
    assert_eq!(fixes[0].line, 3);
    assert_eq!(fixes[0].col, 2);
}

/// M3：违规 token 在行首（新语句）→ 在上一非空行末插 ')'（High，可 --apply）
#[test]
fn parse001_rparen_before_end_generates_high_insert_prev_line() {
    // eval 086 同款场景：println(add(3, 4) 缺 ')'，错误报在下一行的 end
    let src = "fn main() -> Unit\n    println(add(3, 4)\nend\n";
    let lines: Vec<&str> = src.lines().collect();
    let err = ParseError {
        message: "期望 ')'，得到 End".to_string(),
        line: 3,
        col: 1,
    };
    let d = Diagnostic::from_parse(&err, "test.lom", &lines);
    let fixes = fix_for_diagnostic(&d, &lines);
    assert_eq!(fixes[0].action, ActionKind::Insert);
    assert_eq!(fixes[0].confidence, Confidence::High);
    assert_eq!(fixes[0].line, 2, "应插在 println 所在行");
    assert_eq!(fixes[0].col, 22, "行末 +1（4 空格 + 17 字符 = 21，插入列 22）");
    assert_eq!(fixes[0].text.as_deref(), Some(")"));
}

/// M3：文件结束时的缺 ')' → 在最后一行行末插入（High）
#[test]
fn parse001_rparen_at_eof_inserts_at_last_line_end() {
    let src = "fn main() -> Unit\n    println(add(3, 4)\n";
    let lines: Vec<&str> = src.lines().collect();
    let err = ParseError {
        message: "期望 ')'，得到 文件结束".to_string(),
        line: 3,
        col: 1,
    };
    let d = Diagnostic::from_parse(&err, "test.lom", &lines);
    let fixes = fix_for_diagnostic(&d, &lines);
    assert_eq!(fixes[0].action, ActionKind::Insert);
    assert_eq!(fixes[0].confidence, Confidence::High);
    assert_eq!(fixes[0].line, 2);
    assert_eq!(fixes[0].col, 22);
}

/// M3：缺 ')' 且中间隔着空行 → 跳过空行找最近非空行
#[test]
fn parse001_rparen_skips_blank_lines() {
    let src = "fn main() -> Unit\n    println(add(3, 4)\n\nend\n";
    let lines: Vec<&str> = src.lines().collect();
    let err = ParseError {
        message: "期望 ')'，得到 End".to_string(),
        line: 4,
        col: 1,
    };
    let d = Diagnostic::from_parse(&err, "test.lom", &lines);
    let fixes = fix_for_diagnostic(&d, &lines);
    assert_eq!(fixes[0].line, 2, "应跳过第 3 行的空行");
    assert_eq!(fixes[0].confidence, Confidence::High);
}

/// M3：match 未闭合（期望 'end'）→ Medium 插入，不自动应用
#[test]
fn parse001_missing_end_match_generates_medium_insert() {
    let src = "fn main() -> Unit\n    match x\n        _ => 1\n";
    let lines: Vec<&str> = src.lines().collect();
    let err = ParseError {
        message: "期望 'end' 闭合 match".to_string(),
        line: 4,
        col: 1,
    };
    let d = Diagnostic::from_parse(&err, "test.lom", &lines);
    let fixes = fix_for_diagnostic(&d, &lines);
    assert_eq!(fixes[0].action, ActionKind::Insert);
    assert_eq!(fixes[0].confidence, Confidence::Medium);
    assert_eq!(fixes[0].text.as_deref(), Some("\nend\n"));
    assert_eq!(fixes[0].line, 3, "EOF 场景插在最后一行");
}

/// M3：其他期望 token（非 ')'/'end'）保持 hint
#[test]
fn parse001_other_expected_token_keeps_hint() {
    let err = ParseError {
        message: "期望 ','，得到 标识符 'x'".to_string(),
        line: 1,
        col: 5,
    };
    let lines: Vec<&str> = vec!["f(a x)"];
    let d = Diagnostic::from_parse(&err, "test.lom", &lines);
    let fixes = fix_for_diagnostic(&d, &lines);
    assert_eq!(fixes[0].action, ActionKind::Hint);
    assert_eq!(fixes[0].confidence, Confidence::Low);
}

#[test]
fn parse002_generates_medium_hint() {
    let err = ParseError {
        message: "Result 类型参数数量错误".to_string(),
        line: 1,
        col: 5,
    };
    let lines: Vec<&str> = vec!["Result<Int>"];
    let d = Diagnostic::from_parse(&err, "test.lom", &lines);
    let fixes = fix_for_diagnostic(&d, &lines);
    assert_eq!(fixes[0].confidence, Confidence::Medium);
    assert!(fixes[0].description.contains("Result<T, E>"));
}

#[test]
fn mat001_user_variant_generates_hint_with_text() {
    let d = Diagnostic {
        severity: Severity::Warning,
        stage: Stage::Type,
        code: "MAT001".to_string(),
        message: "match 非穷尽：未覆盖变体 'Green'（枚举 Color）".to_string(),
        file: "test.lom".to_string(),
        line: 0,
        col: 0,
        source_line: None,
        is_hole: false,
        hint: None,
    };
    let fixes = fix_for_diagnostic(&d, &[]);
    assert_eq!(fixes.len(), 1);
    assert_eq!(fixes[0].action, ActionKind::Hint);
    assert_eq!(fixes[0].confidence, Confidence::Medium);
    assert!(fixes[0].text.as_ref().unwrap().contains("Green"));
}

#[test]
fn mat001_result_ok_generates_hint_with_text() {
    let d = Diagnostic {
        severity: Severity::Warning,
        stage: Stage::Type,
        code: "MAT001".to_string(),
        message: "match 非穷尽：未覆盖 Ok".to_string(),
        file: "test.lom".to_string(),
        line: 0,
        col: 0,
        source_line: None,
        is_hole: false,
        hint: None,
    };
    let fixes = fix_for_diagnostic(&d, &[]);
    assert!(fixes[0].text.as_ref().unwrap().contains("Ok(_)"));
}

#[test]
fn eff001_extracts_effect_name() {
    let d = Diagnostic {
        severity: Severity::Warning,
        stage: Stage::Type,
        code: "EFF001".to_string(),
        message: "纯函数或未声明效应 [] 的函数调用了带效应 [IO] 的函数 'println'"
            .to_string(),
        file: "test.lom".to_string(),
        line: 0,
        col: 0,
        source_line: None,
        is_hole: false,
        hint: None,
    };
    let fixes = fix_for_diagnostic(&d, &[]);
    assert_eq!(fixes.len(), 1);
    assert_eq!(fixes[0].confidence, Confidence::High);
    assert_eq!(fixes[0].text.as_deref(), Some("! [IO]"));
    assert!(fixes[0].description.contains("! [IO]"));
}

#[test]
fn eff001_multiple_effects_extracts_correctly() {
    let d = Diagnostic {
        severity: Severity::Warning,
        stage: Stage::Type,
        code: "EFF001".to_string(),
        message: "纯函数或未声明效应 [IO] 的函数调用了带效应 [Clock] 的函数 'now'"
            .to_string(),
        file: "test.lom".to_string(),
        line: 0,
        col: 0,
        source_line: None,
        is_hole: false,
        hint: None,
    };
    let fixes = fix_for_diagnostic(&d, &[]);
    assert_eq!(fixes[0].text.as_deref(), Some("! [Clock]"));
}

/// Phase 3.1: EFF001 纯函数 → 行末 Insert ` ! [IO]`
#[test]
fn eff001_pure_fn_inserts_at_line_end() {
    let d = Diagnostic {
        severity: Severity::Warning,
        stage: Stage::Type,
        code: "EFF001".to_string(),
        message: "纯函数或未声明效应 [] 的函数调用了带效应 [IO] 的函数 'println'"
            .to_string(),
        file: "test.lom".to_string(),
        line: 1,
        col: 0,
        source_line: None,
        is_hole: false,
        hint: None,
    };
    let lines = vec!["fn helper(x: Int) -> Int"];
    let fixes = fix_for_diagnostic(&d, &lines);
    assert_eq!(fixes.len(), 1);
    assert_eq!(fixes[0].action, ActionKind::Insert);
    assert_eq!(fixes[0].confidence, Confidence::High);
    assert_eq!(fixes[0].line, 1);
    // 行长度 = 24，col = 25（行末后一位）
    assert_eq!(fixes[0].col, 25);
    assert_eq!(fixes[0].text.as_deref(), Some(" ! [IO]"));
}

/// Phase 3.1: EFF001 部分效应 → `]` 前 Insert `, Clock`
#[test]
fn eff001_partial_effects_inserts_before_close_bracket() {
    let d = Diagnostic {
        severity: Severity::Warning,
        stage: Stage::Type,
        code: "EFF001".to_string(),
        message: "纯函数或未声明效应 [IO] 的函数调用了带效应 [Clock] 的函数 'now'"
            .to_string(),
        file: "test.lom".to_string(),
        line: 1,
        col: 0,
        source_line: None,
        is_hole: false,
        hint: None,
    };
    let lines = vec!["fn bad(x: Int) -> Int ! [IO]"];
    let fixes = fix_for_diagnostic(&d, &lines);
    assert_eq!(fixes.len(), 1);
    assert_eq!(fixes[0].action, ActionKind::Insert);
    assert_eq!(fixes[0].confidence, Confidence::High);
    assert_eq!(fixes[0].line, 1);
    // `]` 在 0-based col 27，1-based col 28
    assert_eq!(fixes[0].col, 28);
    assert_eq!(fixes[0].text.as_deref(), Some(", Clock"));
}

#[test]
fn retry_true_when_has_non_hint_fix() {
    let (d, lines) = make_lex_diag("未闭合的字符串", 1, 9, "let s = \"hello");
    let plan = generate_plan(
        &Diagnostics {
            schema: "lom-diag/v1",
            file: "test.lom".to_string(),
            ok: false,
            diagnostics: vec![d],
        },
        "let s = \"hello",
    );
    let _ = lines;
    assert_eq!(plan.plans.len(), 1);
    assert!(plan.plans[0].retry);
}

#[test]
fn retry_false_when_only_hints() {
    let (d, _lines) = make_lex_diag("无效浮点数 '3.'", 1, 5, "let x = 3.");
    let plan = generate_plan(
        &Diagnostics {
            schema: "lom-diag/v1",
            file: "test.lom".to_string(),
            ok: false,
            diagnostics: vec![d],
        },
        "let x = 3.",
    );
    assert_eq!(plan.plans.len(), 1);
    assert!(!plan.plans[0].retry);
}

#[test]
fn empty_diagnostics_produces_empty_plan() {
    let plan = generate_plan(
        &Diagnostics::new("ok.lom"),
        "fn main() -> Unit\n    println(\"hi\")\nend\n",
    );
    assert!(plan.ok);
    assert!(plan.plans.is_empty());
}

#[test]
fn json_contains_required_fields() {
    let (d, _lines) = make_lex_diag("未闭合的字符串", 1, 9, "let s = \"hello");
    let plan = generate_plan(
        &Diagnostics {
            schema: "lom-diag/v1",
            file: "test.lom".to_string(),
            ok: false,
            diagnostics: vec![d],
        },
        "let s = \"hello",
    );
    let json = to_json(&plan);
    assert!(json.contains("\"schema\": \"lom-fix/v1\""));
    assert!(json.contains("\"file\": \"test.lom\""));
    assert!(json.contains("\"total\": 1"));
    assert!(json.contains("\"applicable\": 1"));
    assert!(json.contains("\"skipped\": 0"));
    assert!(json.contains("\"code\": \"LEX001\""));
    assert!(json.contains("\"action\": \"insert\""));
    assert!(json.contains("\"confidence\": \"high\""));
    assert!(json.contains("\"retry\": true"));
}

#[test]
fn json_empty_plan_has_empty_plans_array() {
    let plan = generate_plan(
        &Diagnostics::new("ok.lom"),
        "fn main() -> Unit\nend\n",
    );
    let json = to_json(&plan);
    assert!(json.contains("\"ok\": true"));
    assert!(json.contains("\"plans\": []"));
    assert!(json.contains("\"total\": 0"));
}

#[test]
fn human_readable_contains_fix_descriptions() {
    let (d, _lines) = make_lex_diag("未闭合的字符串", 1, 9, "let s = \"hello");
    let plan = generate_plan(
        &Diagnostics {
            schema: "lom-diag/v1",
            file: "test.lom".to_string(),
            ok: false,
            diagnostics: vec![d],
        },
        "let s = \"hello",
    );
    let human = to_human(&plan);
    assert!(human.contains("LEX001"));
    assert!(human.contains("闭合"));
    assert!(human.contains("[high]"));
    assert!(human.contains("retry: true"));
}

#[test]
fn extract_quoted_char_works() {
    assert_eq!(extract_quoted_char("意外字符 '#'"), Some('#'));
    assert_eq!(extract_quoted_char("意外字符 'X'"), Some('X'));
    assert_eq!(extract_quoted_char("无引号"), None);
}

#[test]
fn extract_second_bracketed_works() {
    assert_eq!(
        extract_second_bracketed("未声明 [] 调用 [IO]"),
        Some("IO".to_string())
    );
    assert_eq!(
        extract_second_bracketed("未声明 [IO] 调用 [Clock]"),
        Some("Clock".to_string())
    );
    assert_eq!(extract_second_bracketed("无方括号"), None);
    assert_eq!(extract_second_bracketed("只有一个 [IO]"), None);
}

#[test]
fn unknown_error_code_falls_back_to_hint() {
    let d = Diagnostic {
        severity: Severity::Error,
        stage: Stage::Runtime,
        code: "UNKNOWN999".to_string(),
        message: "未知错误".to_string(),
        file: "test.lom".to_string(),
        line: 1,
        col: 1,
        source_line: None,
        is_hole: false,
        hint: None,
    };
    let fixes = fix_for_diagnostic(&d, &[]);
    assert_eq!(fixes.len(), 1);
    assert_eq!(fixes[0].action, ActionKind::Hint);
    assert_eq!(fixes[0].confidence, Confidence::Low);
}

#[test]
fn runtime002_generates_hint() {
    let d = Diagnostic {
        severity: Severity::Error,
        stage: Stage::Runtime,
        code: "RUNTIME002".to_string(),
        message: "未定义变量 'fooo'".to_string(),
        file: "test.lom".to_string(),
        line: 2,
        col: 13,
        source_line: Some("    println(fooo)".to_string()),
        is_hole: false,
        hint: None,
    };
    let fixes = fix_for_diagnostic(&d, &[]);
    assert_eq!(fixes[0].action, ActionKind::Hint);
    assert!(fixes[0].description.contains("fooo"));
}

// ===== 修复引擎深化 M1：NAM003/NAM004 拼写 Replace =====

fn make_nam_diag(code: &str, message: &str, hint: Option<&str>) -> Diagnostic {
    Diagnostic {
        severity: Severity::Error,
        stage: Stage::Type,
        code: code.to_string(),
        message: message.to_string(),
        file: "test.lom".to_string(),
        line: 0,
        col: 0,
        source_line: None,
        is_hole: false,
        hint: hint.map(|h| h.to_string()),
    }
}

#[test]
fn nam003_suggestion_produces_replace() {
    let src = "fn main() -> Unit\n    println(lenght + 1)\nend\n";
    let lines: Vec<&str> = src.lines().collect();
    let d = make_nam_diag(
        "NAM003",
        "未定义变量 'lenght'",
        Some("是否想用 'length'？"),
    );
    let fixes = fix_for_diagnostic(&d, &lines);
    assert_eq!(fixes.len(), 1);
    assert_eq!(fixes[0].action, ActionKind::Replace);
    assert_eq!(fixes[0].confidence, Confidence::Medium); // 猜测性修复不自动应用
    assert_eq!(fixes[0].line, 2);
    assert_eq!(fixes[0].col, 13);
    assert_eq!(fixes[0].end_line, Some(2));
    assert_eq!(fixes[0].end_col, Some(19)); // "lenght" 6 字符，13+6
    assert_eq!(fixes[0].text.as_deref(), Some("length"));
}

#[test]
fn nam003_replace_skips_strings_and_comments() {
    let src = "println(lenght)\nprintln(\"lenght\")\n# lenght 注释\nlet x = lenght\n";
    let lines: Vec<&str> = src.lines().collect();
    let d = make_nam_diag(
        "NAM003",
        "未定义变量 'lenght'",
        Some("是否想用 'length'？"),
    );
    let fixes = fix_for_diagnostic(&d, &lines);
    // 只有第 1、4 行的真实出现；字符串与注释里的不算
    assert_eq!(fixes.len(), 2);
    assert_eq!(fixes[0].line, 1);
    assert_eq!(fixes[1].line, 4);
}

#[test]
fn nam003_substring_does_not_match() {
    // "len" 不应匹配 "length" 的子串（标识符边界检查）
    let src = "let length = 1\nprintln(len)\n";
    let lines: Vec<&str> = src.lines().collect();
    let d = make_nam_diag("NAM003", "未定义变量 'len'", Some("是否想用 'lenx'？"));
    let fixes = fix_for_diagnostic(&d, &lines);
    assert_eq!(fixes.len(), 1);
    assert_eq!(fixes[0].line, 2);
    assert_eq!(fixes[0].col, 9);
}

// ===== Phase 3.2b：诊断精确位置（表达式 span）驱动的单点 Replace =====

#[test]
fn nam003_precise_span_produces_single_replace() {
    // 诊断带精确位置（line/col > 0）→ 单点 Replace，不再整词扫描
    let src = "fn main() -> Unit\n    let total = 1\n    let x = toatl + 1\nend\n";
    let lines: Vec<&str> = src.lines().collect();
    let mut d = make_nam_diag("NAM003", "未定义变量 'toatl'", Some("是否想用 'total'？"));
    d.line = 3;
    d.col = 13; // lexer 字节列（纯 ASCII 行与字符列一致）
    let fixes = fix_for_diagnostic(&d, &lines);
    assert_eq!(fixes.len(), 1, "精确位置应只产出单点 Replace");
    assert_eq!(fixes[0].action, ActionKind::Replace);
    assert_eq!(fixes[0].line, 3);
    assert_eq!(fixes[0].col, 13);
    assert_eq!(fixes[0].end_col, Some(18));
    assert_eq!(fixes[0].text.as_deref(), Some("total"));
}

#[test]
fn nam003_precise_span_byte_col_converts_to_char_col() {
    // lexer col 是 1-based 字节列，fix 约定字符列——含非 ASCII 的行两者分叉。
    // 行 `    let x = "中文" + toatl`：toatl 字节列 24，字符列 20
    let src = "    let x = \"中文\" + toatl";
    let lines: Vec<&str> = vec![src];
    let mut d = make_nam_diag("NAM003", "未定义变量 'toatl'", Some("是否想用 'total'？"));
    d.line = 1;
    d.col = 24;
    let fixes = fix_for_diagnostic(&d, &lines);
    assert_eq!(fixes.len(), 1);
    assert_eq!(fixes[0].col, 20, "字节列 24 应换算为字符列 20");
    assert_eq!(fixes[0].end_col, Some(25));
}

#[test]
fn nam003_stale_position_falls_back_to_scan() {
    // 防呆：诊断位置的字节内容与名字不符（过期诊断/旧管线产物）→ 回退整词扫描
    let src = "fn main() -> Unit\n    println(lenght + 1)\nend\n";
    let lines: Vec<&str> = src.lines().collect();
    let mut d = make_nam_diag("NAM003", "未定义变量 'lenght'", Some("是否想用 'length'？"));
    d.line = 2;
    d.col = 5; // 该位置是 println，不是 lenght —— 校验失败，回退扫描
    let fixes = fix_for_diagnostic(&d, &lines);
    assert_eq!(fixes.len(), 1);
    assert_eq!(fixes[0].action, ActionKind::Replace);
    assert_eq!((fixes[0].line, fixes[0].col), (2, 13), "应回退扫描找到真实位置");
}

#[test]
fn nam004_field_precise_span_at_field_name() {
    // NAM004 字段：诊断位置 = 字段名 token（Field span 的 end），单点 Replace
    let src = "fn main() -> Unit\n    let p = {x: 3}\n    println(p.nam)\nend\n";
    let lines: Vec<&str> = src.lines().collect();
    let mut d = make_nam_diag("NAM004", "记录无字段 'nam'", Some("是否想用 'name'？"));
    d.line = 3;
    d.col = 15; // println(p.nam)：p 在 13，. 在 14，nam 在 15
    let fixes = fix_for_diagnostic(&d, &lines);
    assert_eq!(fixes.len(), 1);
    assert_eq!(fixes[0].action, ActionKind::Replace);
    assert_eq!((fixes[0].line, fixes[0].col), (3, 15));
    assert_eq!(fixes[0].end_col, Some(18));
}

#[test]
fn nam003_no_suggestion_keeps_hint() {
    let src = "println(zzz)\n";
    let lines: Vec<&str> = src.lines().collect();
    let d = make_nam_diag("NAM003", "未定义变量 'zzz'", None);
    let fixes = fix_for_diagnostic(&d, &lines);
    assert_eq!(fixes.len(), 1);
    assert_eq!(fixes[0].action, ActionKind::Hint);
    assert_eq!(fixes[0].confidence, Confidence::Low);
}

#[test]
fn nam004_record_field_requires_dot_prefix() {
    // `.nam` 才替换；普通变量 nam 不动
    let src = "println(p.nam)\nlet nam = 1\nprintln(nam)\n";
    let lines: Vec<&str> = src.lines().collect();
    let d = make_nam_diag("NAM004", "记录无字段 'nam'", Some("是否想用 'name'？"));
    let fixes = fix_for_diagnostic(&d, &lines);
    assert_eq!(fixes.len(), 1);
    assert_eq!(fixes[0].action, ActionKind::Replace);
    assert_eq!(fixes[0].line, 1);
    assert_eq!(fixes[0].col, 11); // "println(p." 之后
    assert_eq!(fixes[0].end_col, Some(14));
    assert_eq!(fixes[0].text.as_deref(), Some("name"));
}

#[test]
fn nam004_variant_uses_last_quoted_name() {
    // message 有两个引号对（枚举名 + 变体名），要取最后一个
    let src = "match s\n    Circl(r) => println(r)\nend\n";
    let lines: Vec<&str> = src.lines().collect();
    let d = make_nam_diag(
        "NAM004",
        "枚举 Shape 无变体 'Circl'",
        Some("是否想用 'Circle'？"),
    );
    let fixes = fix_for_diagnostic(&d, &lines);
    assert_eq!(fixes.len(), 1);
    assert_eq!(fixes[0].action, ActionKind::Replace);
    assert_eq!(fixes[0].line, 2);
    assert_eq!(fixes[0].col, 5);
    assert_eq!(fixes[0].end_col, Some(10)); // "Circl" 5 字符
    assert_eq!(fixes[0].text.as_deref(), Some("Circle"));
}

#[test]
fn find_token_occurrences_escaped_quote_in_string() {
    // 字符串里的转义引号不应终止字符串状态
    let src = "println(\"a\\\" lenght b\")\nprintln(lenght)\n";
    let lines: Vec<&str> = src.lines().collect();
    let occ = find_token_occurrences(&lines, "lenght", false);
    assert_eq!(occ.len(), 1);
    assert_eq!(occ[0].0, 2);
}

fn single_plan(fix: lom::fix::FixAction, retry: bool) -> lom::fix::FixPlan {
    lom::fix::FixPlan {
        file: "t.lom".to_string(),
        ok: true,
        plans: vec![lom::fix::Plan {
            diagnostic: lom::fix::DiagRef {
                code: "MAT001".to_string(),
                severity: Severity::Error,
                stage: Stage::Type,
                line: 3,
                col: 5,
                message: "match 未覆盖变体 'Green'".to_string(),
            },
            fixes: vec![fix],
            retry,
        }],
    }
}

#[test]
fn plan_ok_when_every_diagnostic_has_a_fix() {
    let (d, _lines) = make_lex_diag("未闭合的字符串", 1, 9, "let s = \"hello");
    let plan = generate_plan(
        &Diagnostics {
            schema: "lom-diag/v1",
            file: "test.lom".to_string(),
            ok: false,
            diagnostics: vec![d],
        },
        "let s = \"hello",
    );
    assert_eq!(plan.plans.len(), 1);
    assert!(!plan.plans[0].fixes.is_empty());
    assert!(plan.ok);
}

#[test]
fn json_hint_with_text_is_not_applicable() {
    let fix = lom::fix::FixAction {
        description: "在 match 中添加缺失分支: Green => ...".to_string(),
        action: ActionKind::Hint,
        line: 0,
        col: 0,
        end_line: None,
        end_col: None,
        text: Some("    Green => ()\n".to_string()),
        confidence: Confidence::Medium,
    };
    let json = to_json(&single_plan(fix, true));
    assert!(json.contains("\"total\": 1"));
    assert!(json.contains("\"applicable\": 0"));
    assert!(json.contains("\"skipped\": 1"));
}

#[test]
fn json_hint_positions_are_null() {
    let fix = lom::fix::FixAction {
        description: "h".to_string(),
        action: ActionKind::Hint,
        line: 0,
        col: 0,
        end_line: None,
        end_col: None,
        text: None,
        confidence: Confidence::Low,
    };
    let json = to_json(&single_plan(fix, false));
    assert!(json.contains("\"line\": null"));
    assert!(json.contains("\"col\": null"));
    assert!(json.contains("\"end_line\": null"));
    assert!(json.contains("\"end_col\": null"));
    assert!(!json.contains("\"line\": 0"));
}

#[test]
fn unknown_code_gives_one_low_hint() {
    let d = Diagnostic {
        severity: Severity::Error,
        stage: Stage::Type,
        code: "UNKNOWN999".to_string(),
        message: "something".to_string(),
        file: "t.lom".to_string(),
        line: 1,
        col: 1,
        source_line: None,
        is_hole: false,
        hint: None,
    };
    let fixes = fix_for_diagnostic(&d, &["x"]);
    assert_eq!(fixes.len(), 1);
    assert_eq!(fixes[0].action, ActionKind::Hint);
    assert_eq!(fixes[0].confidence, Confidence::Low);
    assert!(fixes[0].text.is_none());
}

#[test]
fn occurrences_come_in_reading_order() {
    let lines = vec!["let x = x + 1", "# x", "print(x) \"x\" x"];
    let occ = find_token_occurrences(&lines, "x", false);
    assert_eq!(occ, vec![(1, 5, 6), (1, 9, 10), (3, 7, 8), (3, 14, 15)]);
}

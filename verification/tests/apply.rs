use lom::apply::{apply_plan, line_col_to_offset, to_json, AppliedChange, ApplyResult};
use lom::diagnostics::{Severity, Stage};
use lom::fix::{ActionKind, Confidence, DiagRef, FixAction, FixPlan, Plan};

fn make_insert(line: usize, col: usize, text: &str) -> FixAction {
    FixAction {
        description: "test insert".to_string(),
        action: ActionKind::Insert,
        line,
        col,
        end_line: None,
        end_col: None,
        text: Some(text.to_string()),
        confidence: Confidence::High,
    }
}

fn make_delete(line: usize, col: usize, end_line: usize, end_col: usize) -> FixAction {
    FixAction {
        description: "test delete".to_string(),
        action: ActionKind::Delete,
        line,
        col,
        end_line: Some(end_line),
        end_col: Some(end_col),
        text: None,
        confidence: Confidence::High,
    }
}

fn make_plan(fixes: Vec<FixAction>) -> FixPlan {
    FixPlan {
        file: "test.lom".to_string(),
        ok: true,
        plans: vec![lom::fix::Plan {
            diagnostic: lom::fix::DiagRef {
                code: "TEST".to_string(),
                severity: lom::diagnostics::Severity::Error,
                stage: lom::diagnostics::Stage::Lex,
                line: 1,
                col: 1,
                message: "test".to_string(),
            },
            fixes,
            retry: true,
        }],
    }
}

#[test]
fn test_insert_at_line_end() {
    // LEX001 场景：在行末插入 "（未闭合字符串）
    // 源码: println("hello)  →  修复后: println("hello")
    let source = "fn main() -> Unit\n    println(\"hello)\nend\n";
    let plan = make_plan(vec![make_insert(2, 19, "\"")]);
    let result = apply_plan(&plan, source);
    assert_eq!(result.applied, 1, "应应用 1 个修复，实际 {}. patched: {:?}", result.applied, result.patched_source);
    assert!(result.patched_source.contains("\"hello\")"), "patched: {:?}", result.patched_source);
}

#[test]
fn test_delete_char() {
    // LEX005 场景：删除意外字符
    let source = "fn main() -> Unit\n    println@(\"hi\")\nend\n";
    let plan = make_plan(vec![make_delete(2, 12, 2, 13)]);
    let result = apply_plan(&plan, source);
    assert_eq!(result.applied, 1);
    assert!(result.patched_source.contains("println(\"hi\")"));
    assert!(!result.patched_source.contains("println@"));
}

#[test]
fn test_multiple_fixes_applied_reverse_order() {
    // 两个修复：一个在第 2 行，一个在第 3 行
    // 从后往前应用，避免位置漂移
    let source = "line1\nline2\nline3\n";
    let plan = make_plan(vec![
        make_insert(2, 6, "X"),
        make_insert(3, 6, "Y"),
    ]);
    let result = apply_plan(&plan, source);
    assert_eq!(result.applied, 2);
    assert!(result.patched_source.contains("line2X"));
    assert!(result.patched_source.contains("line3Y"));
}

#[test]
fn test_skip_hint_and_low_confidence() {

    let hint_fix = FixAction {
        description: "just a hint".to_string(),
        action: ActionKind::Hint,
        line: 0,
        col: 0,
        end_line: None,
        end_col: None,
        text: None,
        confidence: Confidence::Low,
    };
    let low_conf_fix = FixAction {
        description: "low conf".to_string(),
        action: ActionKind::Insert,
        line: 1,
        col: 1,
        end_line: None,
        end_col: None,
        text: Some("X".to_string()),
        confidence: Confidence::Low, // 低置信度，应跳过
    };

    let plan = FixPlan {
        file: "test.lom".to_string(),
        ok: true,
        plans: vec![Plan {
            diagnostic: DiagRef {
                code: "TEST".to_string(),
                severity: Severity::Warning,
                stage: Stage::Type,
                line: 1,
                col: 1,
                message: "test".to_string(),
            },
            fixes: vec![hint_fix, low_conf_fix],
            retry: false,
        }],
    };

    let result = apply_plan(&plan, "line1\n");
    assert_eq!(result.applied, 0);
    assert_eq!(result.skipped, 2);
}

#[test]
fn test_invalid_position_skipped() {
    // 行号超出范围
    let source = "only one line\n";
    let plan = make_plan(vec![make_insert(99, 1, "X")]);
    let result = apply_plan(&plan, source);
    assert_eq!(result.applied, 0);
    assert!(result.skipped >= 1);
}

#[test]
fn test_line_col_to_offset_basic() {
    let source = "abc\ndef\nghi\n";
    assert_eq!(line_col_to_offset(source, 1, 1).unwrap(), 0);
    assert_eq!(line_col_to_offset(source, 1, 2).unwrap(), 1);
    assert_eq!(line_col_to_offset(source, 2, 1).unwrap(), 4); // "abc\n" = 4 bytes
    assert_eq!(line_col_to_offset(source, 3, 2).unwrap(), 9); // "abc\ndef\n" = 8, +1 = 9
}

#[test]
fn test_line_col_to_offset_unicode() {
    // 中文字符占 3 字节
    let source = "你好\nworld\n";
    assert_eq!(line_col_to_offset(source, 1, 1).unwrap(), 0);
    assert_eq!(line_col_to_offset(source, 1, 2).unwrap(), 3); // 你 = 3 bytes
    assert_eq!(line_col_to_offset(source, 2, 1).unwrap(), 7); // "你好\n" = 7 bytes
}

#[test]
fn test_apply_result_json() {
    let result = ApplyResult {
        applied: 2,
        skipped: 1,
        changes: vec![
            AppliedChange {
                line: 2,
                col: 12,
                action: ActionKind::Delete,
                description: "删除意外字符".to_string(),
            },
            AppliedChange {
                line: 3,
                col: 18,
                action: ActionKind::Insert,
                description: "添加闭引号".to_string(),
            },
        ],
        patched_source: "fixed\n".to_string(),
    };
    let json = to_json(&result, "test.lom");
    assert!(json.contains("\"schema\": \"lom-apply/v1\""));
    assert!(json.contains("\"applied\": 2"));
    assert!(json.contains("\"action\": \"delete\""));
    assert!(json.contains("\"action\": \"insert\""));
    assert!(json.contains("删除意外字符"));
}

#[test]
fn test_empty_plan() {
    let plan = FixPlan {
        file: "empty.lom".to_string(),
        ok: true,
        plans: vec![],
    };
    let result = apply_plan(&plan, "source\n");
    assert_eq!(result.applied, 0);
    assert_eq!(result.skipped, 0);
    assert_eq!(result.patched_source, "source\n");
}

#[test]
fn one_position_is_patched_once() {
    let plan = make_plan(vec![make_insert(1, 1, "X"), make_insert(1, 1, "Y")]);
    let r = apply_plan(&plan, "a\n");
    assert_eq!(r.applied, 1);
    assert_eq!(r.changes.len(), 1);
    assert_eq!(r.skipped, 1);
}

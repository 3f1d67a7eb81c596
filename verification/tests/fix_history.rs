use lom::fix_history::{
    current_timestamp, entry_to_json, parse_history, epoch_to_utc, is_leap_year, parse_entry, to_human, to_json, FixHistoryEntry,
    HistoryChange,
};

fn make_change(code: &str, action: &str, line: usize) -> HistoryChange {
    HistoryChange {
        line,
        col: 1,
        action: action.to_string(),
        description: format!("{} 修复", code),
        diagnostic_code: code.to_string(),
    }
}

fn make_entry(file: &str, changes: Vec<HistoryChange>) -> FixHistoryEntry {
    FixHistoryEntry {
        timestamp: "2024-08-08T10:30:00Z".to_string(),
        file: file.to_string(),
        applied: changes.len(),
        skipped: 0,
        changes,
        round: 1,
    }
}

#[test]
fn test_epoch_to_utc_known() {
    // 2024-01-01T00:00:00Z = 1704067200
    assert_eq!(epoch_to_utc(1704067200), "2024-01-01T00:00:00Z");
    // 2024-12-31T23:59:59Z = 1735689599
    assert_eq!(epoch_to_utc(1735689599), "2024-12-31T23:59:59Z");
}

#[test]
fn test_epoch_to_utc_leap_year() {
    // 2024-02-29 (闰日) = 1709164800
    assert_eq!(epoch_to_utc(1709164800), "2024-02-29T00:00:00Z");
}

#[test]
fn test_is_leap_year() {
    assert!(is_leap_year(2000)); // 400 的倍数
    assert!(is_leap_year(2024)); // 4 的倍数非 100
    assert!(!is_leap_year(1900)); // 100 的倍数非 400
    assert!(!is_leap_year(2023));
}

#[test]
fn test_entry_to_json_basic() {
    let entry = make_entry(
        "main.lom",
        vec![make_change("LEX001", "insert", 3)],
    );
    let json = entry_to_json(&entry);
    assert!(json.contains("\"timestamp\":\"2024-08-08T10:30:00Z\""));
    assert!(json.contains("\"file\":\"main.lom\""));
    assert!(json.contains("\"applied\":1"));
    assert!(json.contains("\"code\":\"LEX001\""));
    assert!(json.contains("\"action\":\"insert\""));
}

#[test]
fn test_entry_to_json_special_chars() {
    let entry = FixHistoryEntry {
        timestamp: "2024-01-01T00:00:00Z".to_string(),
        file: "path/with\"quote.lom".to_string(),
        applied: 1,
        skipped: 0,
        changes: vec![HistoryChange {
            line: 1,
            col: 1,
            action: "insert".to_string(),
            description: "添加 \" 引号".to_string(),
            diagnostic_code: "LEX001".to_string(),
        }],
        round: 1,
    };
    let json = entry_to_json(&entry);
    // 转义的引号
    assert!(json.contains("path/with\\\"quote.lom"));
    assert!(json.contains("添加 \\\" 引号"));
}

#[test]
fn test_parse_entry_roundtrip() {
    let entry = make_entry(
        "main.lom",
        vec![
            make_change("LEX001", "insert", 3),
            make_change("EFF001", "insert", 5),
        ],
    );
    let json = entry_to_json(&entry);
    let parsed = parse_entry(&json).expect("解析失败");
    assert_eq!(parsed, entry);
}

#[test]
fn test_parse_entry_with_special_chars() {
    let entry = FixHistoryEntry {
        timestamp: "2024-01-01T00:00:00Z".to_string(),
        file: "weird/name.lom".to_string(),
        applied: 1,
        skipped: 1,
        changes: vec![HistoryChange {
            line: 10,
            col: 5,
            action: "delete".to_string(),
            description: "删除 '意外字符'".to_string(),
            diagnostic_code: "LEX005".to_string(),
        }],
        round: 1,
    };
    let json = entry_to_json(&entry);
    let parsed = parse_entry(&json).expect("解析失败");
    assert_eq!(parsed, entry);
}

#[test]
fn test_to_json_output() {
    let entries = vec![make_entry("main.lom", vec![make_change("LEX001", "insert", 3)])];
    let json = to_json(&entries);
    assert!(json.contains("\"schema\": \"lom-fix-history/v1\""));
    assert!(json.contains("\"count\": 1"));
    assert!(json.contains("\"file\":\"main.lom\""));
}

#[test]
fn test_parse_entry_without_round_defaults_to_1() {
    let legacy = "{\"timestamp\":\"2024-08-08T10:30:00Z\",\"file\":\"main.lom\",\"applied\":1,\"skipped\":0,\"changes\":[{\"line\":3,\"col\":1,\"action\":\"insert\",\"description\":\"LEX001 修复\",\"code\":\"LEX001\"}]}";
    let parsed = parse_entry(legacy).expect("旧格式解析失败");
    assert_eq!(parsed.round, 1);
    assert_eq!(parsed.applied, 1);
}

#[test]
fn test_to_json_empty() {
    let json = to_json(&[]);
    assert!(json.contains("\"count\": 0"));
    assert!(json.contains("\"entries\": []"));
}

#[test]
fn test_to_human_output() {
    let entries = vec![make_entry("main.lom", vec![make_change("LEX001", "insert", 3)])];
    let human = to_human(&entries);
    assert!(human.contains("修复历史"));
    assert!(human.contains("main.lom"));
    assert!(human.contains("LEX001"));
}

#[test]
fn test_to_human_empty() {
    let human = to_human(&[]);
    assert!(human.contains("无修复历史记录"));
}

#[test]
fn epoch_start_and_shape_of_now() {
    assert_eq!(epoch_to_utc(0), "1970-01-01T00:00:00Z");
    assert_eq!(epoch_to_utc(951782400), "2000-02-29T00:00:00Z");
    assert_eq!(epoch_to_utc(4102444799), "2099-12-31T23:59:59Z");
    let now = current_timestamp();
    assert_eq!(now.len(), 20);
    assert!(now.ends_with('Z'));
}

#[test]
fn parse_entry_missing_fields_and_bad_numbers() {
    assert!(parse_entry("{\"file\":\"a.lom\",\"applied\":1,\"skipped\":0}").is_none());
    assert!(parse_entry("{\"timestamp\":\"t\",\"file\":\"a\",\"applied\":x,\"skipped\":0}").is_none());
    assert!(parse_entry("{\"timestamp\":\"t\",\"file\":\"a\",\"applied\":99999999999999999999999,\"skipped\":0}").is_none());
    let e = parse_entry("{\"timestamp\":\"t\",\"file\":\"a\",\"applied\":3,\"skipped\":4}").unwrap();
    assert_eq!((e.applied, e.skipped, e.round), (3, 4, 1));
    assert!(e.changes.is_empty());
}

#[test]
fn parse_entry_drops_incomplete_change_objects() {
    let line = "{\"timestamp\":\"t\",\"file\":\"a\",\"applied\":1,\"skipped\":0,\"round\":2,\"changes\":[{\"line\":1,\"col\":2},{\"line\":3,\"col\":4,\"action\":\"insert\",\"description\":\"d\",\"code\":\"LEX001\"}]}";
    let e = parse_entry(line).unwrap();
    assert_eq!(e.round, 2);
    assert_eq!(e.changes.len(), 1);
    assert_eq!(e.changes[0], HistoryChange { line: 3, col: 4, action: "insert".to_string(), description: "d".to_string(), diagnostic_code: "LEX001".to_string() });
}

#[test]
fn test_parse_history_skips_blank_and_broken_lines() {
    let a = make_entry("a.lom", vec![make_change("E001", "insert", 3)]);
    let b = make_entry("b.lom", vec![]);
    let text = format!("{}\n\n   \nnot json\n{}\r\n", entry_to_json(&a), entry_to_json(&b));
    let entries = parse_history(&text);
    assert_eq!(entries.len(), 2);
    assert_eq!(entries[0].file, "a.lom");
    assert_eq!(entries[0].changes.len(), 1);
    assert_eq!(entries[0].changes[0].line, 3);
    assert_eq!(entries[1].file, "b.lom");
    assert!(parse_history("").is_empty());
}

use lom::cli::{
    extract_completion_uri, extract_did_change_params, extract_did_open_params, extract_hover_params,
    extract_json_number_field, extract_json_string_field, extract_last_text_field, parse_args, text_scan_ok,
};

fn args(xs: &[&str]) -> Vec<String> {
    xs.iter().map(|s| s.to_string()).collect()
}

#[test]
fn parse_args_subcommand_flags_and_file() {
    let a = parse_args(&args(&["lom", "fix", "main.lom", "--apply", "--dry-run", "--json"])).unwrap();
    assert_eq!(a.subcommand.as_deref(), Some("fix"));
    assert_eq!(a.file.as_deref(), Some("main.lom"));
    assert!(a.apply && a.dry_run && a.json);
    assert!(!a.check && !a.plan && !a.history);
}

#[test]
fn parse_args_values_and_program_args() {
    let a = parse_args(&args(&["lom", "build", "x.lom", "--target", "wasm", "-o", "out.wasm"])).unwrap();
    assert_eq!(a.target.as_deref(), Some("wasm"));
    assert_eq!(a.output.as_deref(), Some("out.wasm"));
    let a = parse_args(&args(&["lom", "prog.lom", "--", "--json", "x"])).unwrap();
    assert!(a.subcommand.is_none());
    assert!(!a.json);
    assert_eq!(a.program_args, args(&["--json", "x"]));
    let a = parse_args(&args(&["lom", "-h", "-V", "--dump-ast", "--dump-tokens"])).unwrap();
    assert!(a.help && a.version && a.dump_ast && a.dump_tokens);
    let a = parse_args(&args(&[])).unwrap();
    assert!(a.file.is_none() && a.subcommand.is_none());
}

#[test]
fn parse_args_usage_errors() {
    assert_eq!(
        parse_args(&args(&["lom", "--bogus"])).unwrap_err(),
        "未知选项: --bogus\n使用 --help 查看用法"
    );
    assert_eq!(
        parse_args(&args(&["lom", "a.lom", "b.lom"])).unwrap_err(),
        "只能指定一个文件，但收到多个: a.lom b.lom\n使用 --help 查看用法"
    );
    assert_eq!(parse_args(&args(&["lom", "x", "--target"])).unwrap_err(), "--target 需要一个值（如 --target wasm）");
    assert_eq!(parse_args(&args(&["lom", "--output"])).unwrap_err(), "-o/--output 需要一个路径值");
}

#[test]
fn lsp_params_extraction() {
    let open = r#"{"textDocument":{"uri":"file:///a.lom","languageId":"lom","version":1,"text":"fn main()\nend"}}"#;
    let (uri, text) = extract_did_open_params(open).unwrap();
    assert_eq!(uri, "file:///a.lom");
    assert_eq!(text, "fn main()\\nend");
    let change = r#"{"textDocument":{"uri":"u"},"contentChanges":[{"text":"old"},{"text":"new \"q\""}]}"#;
    let (uri, text) = extract_did_change_params(change).unwrap();
    assert_eq!(uri, "u");
    assert_eq!(text, "new \\\"q\\\"");
    let hover = r#"{"textDocument":{"uri":"u"},"position":{"line": 3,"character":14}}"#;
    assert_eq!(extract_hover_params(hover), Some(("u".to_string(), 3, 14)));
    assert_eq!(extract_completion_uri(hover).as_deref(), Some("u"));
    assert!(extract_hover_params(r#"{"textDocument":{"uri":"u"}}"#).is_none());
    assert_eq!(extract_json_string_field(r#"{"a":"unterminated"#, "a").as_deref(), Some(""));
    assert_eq!(extract_json_number_field(r#"{"n":  007}"#, "n"), Some(7));
    assert_eq!(extract_json_number_field(r#"{"n":-1}"#, "n"), None);
    assert_eq!(extract_last_text_field(r#"{"x":1}"#), None);
}

#[test]
fn text_scan_ok_tells_closed_from_overrunning_values() {
    assert!(text_scan_ok(r#"{"textDocument":{"uri":"file:///a.lom"},"contentChanges":[{"text":"x = 1"}]}"#));
    assert!(text_scan_ok("no text field here"));
    assert!(text_scan_ok(r#"{"text":"abc\"#));
    assert!(!text_scan_ok(r#"{"a":1,"text":""#));
}

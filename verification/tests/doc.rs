use lom::doc::{extract_doc_comment, to_json, to_markdown, DocItem, DocModule};

fn s(x: &str) -> String {
    x.to_string()
}

#[test]
fn doc_comment_lines_above_signature() {
    let src = "# 计算两个数的和\n# 第二行说明\nfn add(a: Int, b: Int) -> Int\n    a + b\nend\n";
    assert_eq!(extract_doc_comment(src, 3).as_deref(), Some("计算两个数的和\n第二行说明"));
}

#[test]
fn doc_comment_absent_or_detached() {
    assert!(extract_doc_comment("fn f() -> Unit\nend\n", 1).is_none());
    assert!(extract_doc_comment("# 离得远的注释\n\nfn f() -> Unit\nend\n", 3).is_none());
    assert!(extract_doc_comment("fn f()\n", 0).is_none());
    assert!(extract_doc_comment("fn f()\n", 5).is_none());
    assert_eq!(extract_doc_comment("x\n   #no space\n  #  two\nfn g()\n", 4).as_deref(), Some("no space\n two"));
}

fn greet_module() -> DocModule {
    DocModule {
        file: s("test.lom"),
        ok: true,
        items: vec![
            DocItem {
                kind: "fn",
                name: s("greet"),
                line: 2,
                signature: s("fn greet() -> String"),
                doc: Some(s("说\"你好\"")),
                variants: vec![],
            },
            DocItem {
                kind: "enum",
                name: s("Result"),
                line: 6,
                signature: s("enum Result<T, E>"),
                doc: None,
                variants: vec![(s("Ok"), vec![s("T")]), (s("None"), vec![])],
            },
        ],
    }
}

#[test]
fn doc_json_shape() {
    let json = to_json(&greet_module());
    assert!(json.starts_with("{\"schema\":\"lom-doc/v1\""));
    assert!(json.contains("\"name\":\"greet\""));
    assert!(json.contains("说\\\"你好\\\""));
    assert_eq!(
        json,
        "{\"schema\":\"lom-doc/v1\",\"file\":\"test.lom\",\"ok\":true,\"items\":[{\"kind\":\"fn\",\"name\":\"greet\",\"line\":2,\"signature\":\"fn greet() -> String\",\"doc\":\"说\\\"你好\\\"\"},{\"kind\":\"enum\",\"name\":\"Result\",\"line\":6,\"signature\":\"enum Result<T, E>\",\"doc\":null,\"variants\":[{\"name\":\"Ok\",\"fields\":[\"T\"]},{\"name\":\"None\",\"fields\":[]}]}]}\n"
    );
}

#[test]
fn doc_markdown_shape() {
    let md = to_markdown(&greet_module());
    assert!(md.contains("# test.lom"));
    assert!(md.contains("## `greet`"));
    assert_eq!(
        md,
        "# test.lom\n\n> 由 `lom doc` 自动生成\n\n## `greet`\n\n```lom\nfn greet() -> String\n```\n\n说\"你好\"\n\n<sub>第 2 行</sub>\n\n## `Result`\n\n```lom\nenum Result<T, E>\n```\n\n变体：\n\n- `Ok(T)`\n- `None`\n\n<sub>第 6 行</sub>\n\n"
    );
}

#[test]
fn doc_json_empty_module() {
    let m = DocModule { file: s("e.lom"), ok: false, items: vec![] };
    assert_eq!(to_json(&m), "{\"schema\":\"lom-doc/v1\",\"file\":\"e.lom\",\"ok\":false,\"items\":[]}\n");
}

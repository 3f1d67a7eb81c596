use lom::ast::Type;
use lom::info::{
    to_human, to_json, type_to_string, EnumInfo, FnInfo, ImportInfo, ImportItemInfo, ParamInfo, ProgramInfo,
    VariantInfo,
};

fn s(x: &str) -> String {
    x.to_string()
}

fn add_and_main(effects: Vec<String>) -> ProgramInfo {
    ProgramInfo {
        file: s("test.lom"),
        ok: true,
        functions: vec![
            FnInfo {
                name: s("add"),
                params: vec![ParamInfo { name: s("x"), ty: s("Int") }, ParamInfo { name: s("y"), ty: s("Int") }],
                ret_type: Some(s("Int")),
                effects,
                is_main: false,
            },
            FnInfo { name: s("main"), params: vec![], ret_type: Some(s("Unit")), effects: vec![], is_main: true },
        ],
        enums: vec![],
        imports: vec![],
    }
}

#[test]
fn info_json_valid_structure() {
    let json = to_json(&add_and_main(vec![s("IO")]));
    assert!(json.contains("\"schema\": \"lom-info/v1\""));
    assert!(json.contains("\"file\": \"test.lom\""));
    assert!(json.contains("\"ok\": true"));
    assert!(json.contains("\"name\": \"add\""));
    assert!(json.contains("\"type\": \"Int\""));
    assert!(json.contains("\"ret_type\": \"Int\""));
    assert!(json.contains("\"effects\": [\"IO\"]"));
    assert!(json.contains("\"is_main\": false"));
    assert!(json.contains("\"is_main\": true"));
}

#[test]
fn info_json_handles_empty_program() {
    let info = ProgramInfo { file: s("test.lom"), ok: true, functions: vec![], enums: vec![], imports: vec![] };
    let json = to_json(&info);
    assert_eq!(
        json,
        "{\n  \"schema\": \"lom-info/v1\",\n  \"file\": \"test.lom\",\n  \"ok\": true,\n  \"functions\": [],\n  \"enums\": [],\n  \"imports\": []\n}\n"
    );
}

#[test]
fn info_json_handles_null_ret_type() {
    let info = ProgramInfo {
        file: s("test.lom"),
        ok: true,
        functions: vec![FnInfo {
            name: s("greet"),
            params: vec![ParamInfo { name: s("name"), ty: s("String") }],
            ret_type: None,
            effects: vec![],
            is_main: false,
        }],
        enums: vec![],
        imports: vec![],
    };
    let json = to_json(&info);
    assert!(json.contains("\"ret_type\": null"));
    assert!(json.contains("\"effects\": []"));
}

#[test]
fn info_json_enums_and_imports_exact() {
    let info = ProgramInfo {
        file: s("a\"b.lom"),
        ok: false,
        functions: vec![],
        enums: vec![EnumInfo {
            name: s("Result"),
            type_params: vec![s("T"), s("E")],
            variants: vec![VariantInfo { name: s("Ok"), fields: vec![s("T")] }, VariantInfo { name: s("Err"), fields: vec![s("E")] }],
        }],
        imports: vec![ImportInfo {
            module: s("io"),
            items: vec![ImportItemInfo { name: s("println"), alias: s("log") }],
        }],
    };
    let json = to_json(&info);
    let expected = "{\n  \"schema\": \"lom-info/v1\",\n  \"file\": \"a\\\"b.lom\",\n  \"ok\": false,\n  \"functions\": [],\n  \"enums\": [\n    {\n      \"name\": \"Result\",\n      \"type_params\": [\"T\", \"E\"],\n      \"variants\": [\n        {\n          \"name\": \"Ok\",\n          \"fields\": [\"T\"]\n        },\n        {\n          \"name\": \"Err\",\n          \"fields\": [\"E\"]\n        }\n      ]\n    }\n  ],\n  \"imports\": [\n    {\n      \"module\": \"io\",\n      \"items\": [\n        {\n          \"name\": \"println\",\n          \"alias\": \"log\"\n        }\n      ]\n    }\n  ]\n}\n";
    assert_eq!(json, expected);
    let human = to_human(&info);
    assert_eq!(
        human,
        "=== a\"b.lom ===\n\n[functions] (0):\n\n[enums] (1):\n  enum Result<T, E>\n    Ok(T)\n    Err(E)\n\n[imports] (1):\n  from io import {println as log}\n"
    );
}

#[test]
fn info_human_functions() {
    let human = to_human(&add_and_main(vec![s("IO"), s("Clock")]));
    assert_eq!(
        human,
        "=== test.lom ===\n\n[functions] (2):\n  fn add(x: Int, y: Int) -> Int ! [IO, Clock]\n  fn main() -> Unit (main)\n"
    );
}

#[test]
fn type_to_string_forms() {
    assert_eq!(type_to_string(&Type::Int), "Int");
    assert_eq!(type_to_string(&Type::Option(Box::new(Type::Named(s("T"))))), "Option<T>");
    assert_eq!(type_to_string(&Type::Result(Box::new(Type::Int), Box::new(Type::String))), "Result<Int, String>");
    assert_eq!(type_to_string(&Type::Generic(s("Map"), vec![])), "Map");
    assert_eq!(type_to_string(&Type::Generic(s("Pair"), vec![Type::Int, Type::Bool])), "Pair<Int, Bool>");
    assert_eq!(
        type_to_string(&Type::Record(vec![(s("x"), Type::Int), (s("y"), Type::Float)])),
        "{ x: Int, y: Float }"
    );
    assert_eq!(type_to_string(&Type::Tuple(vec![Type::Int, Type::Unit])), "(Int, Unit)");
}

use lom::ast::{
    BinOp, Block, EnumDecl, EnumVariantDecl, Expr, FnDecl, ImportDecl, ImportItem, Item, Param, Program, Span, Stmt,
    Type,
};
use lom::diagnostics::{Diagnostics, Stage};
use lom::doc::collect_doc;
use lom::info::collect_info;
use lom::lsp::{handle_completion, handle_hover, CompletionKind};
use lom::package::collect_public_symbols;
use lom::parser::{ParseError, ParseResult};

fn s(x: &str) -> String {
    x.to_string()
}

fn ident(x: &str) -> Expr {
    Expr::Ident(s(x))
}

fn at(line: usize) -> Span {
    Span { line, col: 1, end_line: line, end_col: 1 }
}

// The tree of:
//   fn add(x: Int, y: Int) -> Int
//       x + y
//   end
//
//   enum Color = Red | Green | Blue
//
//   fn main() -> Unit
//       let c = Red
//       println(add(1, 2))
//   end
fn sample() -> Program {
    let add = FnDecl {
        name: s("add"),
        params: vec![Param { name: s("x"), ty: Type::Int }, Param { name: s("y"), ty: Type::Int }],
        ret_type: Some(Type::Int),
        effects: vec![],
        body: Block {
            stmts: vec![],
            tail: Some(Box::new(Expr::Binary { op: BinOp::Add, left: Box::new(ident("x")), right: Box::new(ident("y")) })),
        },
        span: at(1),
    };
    let color = EnumDecl {
        name: s("Color"),
        type_params: vec![],
        variants: vec![
            EnumVariantDecl { name: s("Red"), fields: vec![] },
            EnumVariantDecl { name: s("Green"), fields: vec![] },
            EnumVariantDecl { name: s("Blue"), fields: vec![] },
        ],
        span: at(5),
    };
    let main = FnDecl {
        name: s("main"),
        params: vec![],
        ret_type: Some(Type::Unit),
        effects: vec![],
        body: Block {
            stmts: vec![Stmt::Let { mutable: false, name: s("c"), ty: None, value: ident("Red") }],
            tail: Some(Box::new(Expr::Call {
                callee: Box::new(ident("println")),
                args: vec![Expr::Call { callee: Box::new(ident("add")), args: vec![Expr::Int(1), Expr::Int(2)] }],
            })),
        },
        span: at(7),
    };
    Program { items: vec![Item::Fn(add), Item::Enum(color), Item::Fn(main)] }
}

fn labels(p: &Program, kind: CompletionKind) -> Vec<String> {
    handle_completion(p).into_iter().filter(|i| i.kind == kind).map(|i| i.label).collect()
}

#[test]
fn hover_on_function_name() {
    let result = handle_hover(&sample(), 0, 3).expect("hover on add");
    assert!(result.content.contains("fn add(x: Int, y: Int) -> Int"));
    assert_eq!(result.content, "```lom\nfn add(x: Int, y: Int) -> Int\n```");
}

#[test]
fn hover_on_enum_name() {
    let result = handle_hover(&sample(), 4, 5).expect("hover on Color");
    assert!(result.content.contains("enum Color"));
    assert!(result.content.contains("Red"));
    assert!(result.content.contains("Green"));
    assert!(result.content.contains("Blue"));
    assert_eq!(result.content, "```lom\nenum Color\n  Red\n  Green\n  Blue\n```");
}

#[test]
fn hover_on_empty_area_returns_none() {
    assert!(handle_hover(&sample(), 1, 0).is_none());
}

#[test]
fn hover_on_wrong_col_returns_none() {
    assert!(handle_hover(&sample(), 0, 0).is_none());
}

#[test]
fn completion_returns_functions() {
    let fns = labels(&sample(), CompletionKind::Function);
    assert!(fns.contains(&s("add")));
    assert!(fns.contains(&s("main")));
}

#[test]
fn completion_returns_enums_and_variants() {
    let enums = labels(&sample(), CompletionKind::Enum);
    assert!(enums.contains(&s("Color")));
    let variants = labels(&sample(), CompletionKind::Variant);
    assert!(variants.contains(&s("Red")));
    assert!(variants.contains(&s("Green")));
    assert!(variants.contains(&s("Blue")));
}

#[test]
fn completion_returns_builtin_variants() {
    let variants = labels(&sample(), CompletionKind::Variant);
    for v in ["Ok", "Err", "Some", "None"] {
        assert!(variants.contains(&s(v)));
    }
}

#[test]
fn completion_returns_keywords() {
    let kws = labels(&sample(), CompletionKind::Keyword);
    for k in ["fn", "if", "match", "let"] {
        assert!(kws.contains(&s(k)));
    }
}

// The tree of `from string import { len, upper }` and a `main`.
#[test]
fn completion_returns_imports() {
    let imp = ImportDecl {
        module: s("string"),
        items: vec![ImportItem { name: s("len"), alias: s("len") }, ImportItem { name: s("upper"), alias: s("upper") }],
    };
    let main = FnDecl {
        name: s("main"),
        params: vec![],
        ret_type: Some(Type::Unit),
        effects: vec![],
        body: Block { stmts: vec![], tail: None },
        span: at(2),
    };
    let p = Program { items: vec![Item::Import(imp), Item::Fn(main)] };
    let fns = labels(&p, CompletionKind::Function);
    assert!(fns.contains(&s("len")));
    assert!(fns.contains(&s("upper")));
    let all = handle_completion(&p);
    assert_eq!(all[0].label, "main");
    assert_eq!(all[0].detail.as_deref(), Some("fn main() -> Unit"));
    assert_eq!(all[1].label, "string");
    assert_eq!(all[1].detail.as_deref(), Some("module string"));
    assert_eq!(all[2].detail.as_deref(), Some("from string import len"));
    assert_eq!(all.len(), 4 + 4 + 11);
}

#[test]
fn completion_order_and_details() {
    let all = handle_completion(&sample());
    let got: Vec<(String, Option<String>)> = all.iter().take(6).map(|c| (c.label.clone(), c.detail.clone())).collect();
    assert_eq!(
        got,
        vec![
            (s("add"), Some(s("fn add(x: Int, y: Int) -> Int"))),
            (s("main"), Some(s("fn main() -> Unit"))),
            (s("Color"), Some(s("enum Color"))),
            (s("Red"), Some(s("Red"))),
            (s("Green"), Some(s("Green"))),
            (s("Blue"), Some(s("Blue"))),
        ]
    );
    assert_eq!(all.last().unwrap().label, "import");
}

#[test]
fn info_lists_declarations_in_order() {
    let info = collect_info(&sample(), "sample.lom");
    assert_eq!(info.file, "sample.lom");
    assert!(info.ok);
    assert_eq!(info.functions.len(), 2);
    assert_eq!(info.functions[0].name, "add");
    assert_eq!(info.functions[0].params[1].name, "y");
    assert_eq!(info.functions[0].params[1].ty, "Int");
    assert_eq!(info.functions[0].ret_type.as_deref(), Some("Int"));
    assert!(!info.functions[0].is_main);
    assert!(info.functions[1].is_main);
    assert_eq!(info.enums.len(), 1);
    assert_eq!(info.enums[0].variants.len(), 3);
    assert_eq!(info.enums[0].variants[2].name, "Blue");
    assert!(info.imports.is_empty());
}

#[test]
fn public_symbols_are_functions_enums_and_variants_once() {
    let mut p = sample();
    p.items.push(Item::Enum(EnumDecl {
        name: s("Shade"),
        type_params: vec![s("T")],
        variants: vec![EnumVariantDecl { name: s("Red"), fields: vec![Type::Named(s("T"))] }],
        span: at(12),
    }));
    p.items.push(Item::Import(ImportDecl { module: s("io"), items: vec![ImportItem { name: s("read"), alias: s("read") }] }));
    let names = collect_public_symbols(&p);
    assert_eq!(names, vec![s("add"), s("Color"), s("Red"), s("Green"), s("Blue"), s("main"), s("Shade")]);
}

#[test]
fn doc_collects_functions_and_enums_with_comments() {
    let src = "# Adds two numbers.\n# Exactly.\nfn add(x: Int, y: Int) -> Int\n    x + y\nend\n";
    let mut p = sample();
    if let Item::Fn(f) = &mut p.items[0] {
        f.span = Span { line: 3, col: 1, end_line: 3, end_col: 1 };
    }
    p.items.push(Item::Import(ImportDecl { module: s("io"), items: vec![] }));
    let m = collect_doc(&p, src, "sample.lom");
    assert_eq!(m.file, "sample.lom");
    assert!(m.ok);
    assert_eq!(m.items.len(), 3);
    assert_eq!(m.items[0].kind, "fn");
    assert_eq!(m.items[0].signature, "fn add(x: Int, y: Int) -> Int");
    assert_eq!(m.items[0].doc.as_deref(), Some("Adds two numbers.\nExactly."));
    assert_eq!(m.items[1].kind, "enum");
    assert_eq!(m.items[1].signature, "enum Color");
    assert_eq!(m.items[1].variants.len(), 3);
    assert!(m.items[1].doc.is_none());
    assert_eq!(m.items[2].signature, "fn main() -> Unit");
}

#[test]
fn parse_result_diagnostics_one_per_error() {
    let errors = vec![
        ParseError { message: s("期望 ')'，实际是 'end'"), line: 1, col: 8 },
        ParseError { message: s("未闭合的字符串"), line: 2, col: 3 },
    ];
    let r = ParseResult { program: Program { items: vec![] }, errors };
    assert!(!r.is_ok());
    let lines = vec!["fn f(x", "  \"abc"];
    let d = Diagnostics::from_parse_result(&r, "bad.lom", &lines);
    assert!(!d.ok);
    assert_eq!(d.file, "bad.lom");
    assert_eq!(d.diagnostics.len(), 2);
    assert_eq!(d.diagnostics[0].stage, Stage::Parse);
    assert_eq!(d.diagnostics[0].line, 1);
    assert_eq!(d.diagnostics[1].stage, Stage::Lex);
    assert_eq!(d.diagnostics[1].code, "LEX001");
    let clean = ParseResult { program: sample(), errors: vec![] };
    assert!(clean.is_ok());
    assert!(Diagnostics::from_parse_result(&clean, "ok.lom", &[]).ok);
}

// The parse of `fn main() -> Unit\n    println("hello")\nend\n`: a tree, no error.
#[test]
fn diagnostics_from_clean_source_is_ok() {
    let main = FnDecl {
        name: s("main"),
        params: vec![],
        ret_type: Some(Type::Unit),
        effects: vec![],
        body: Block {
            stmts: vec![],
            tail: Some(Box::new(Expr::Call { callee: Box::new(ident("println")), args: vec![Expr::Str(s("hello"))] })),
        },
        span: at(1),
    };
    let r = ParseResult { program: Program { items: vec![Item::Fn(main)] }, errors: vec![] };
    let src = "fn main() -> Unit\n    println(\"hello\")\nend\n";
    let lines: Vec<&str> = src.lines().collect();
    let diags = Diagnostics::from_parse_result(&r, "ok.lom", &lines);
    assert!(diags.ok);
    assert!(diags.diagnostics.is_empty());
}

// The tree a tolerant parse leaves for `fn broken(x) -> Int\n  let = 1\nend\n`:
// the function with a hole where the bad statement was.
#[test]
fn info_of_failed_parse_is_not_ok_and_empty() {
    let broken = FnDecl {
        name: s("broken"),
        params: vec![],
        ret_type: Some(Type::Int),
        effects: vec![],
        body: Block { stmts: vec![Stmt::Hole { line: 2, col: 7 }], tail: None },
        span: at(1),
    };
    let p = Program { items: vec![Item::Fn(broken)] };
    assert!(p.has_hole());
    let info = collect_info(&p, "test.lom");
    assert!(!info.ok);
    assert!(info.functions.is_empty() && info.enums.is_empty() && info.imports.is_empty());
    assert!(!sample().has_hole());
}

use lom::ast::{
    BinOp, Block, EnumDecl, EnumVariantDecl, Expr, FnDecl, IfStmt, ImportDecl, ImportItem, Item, LogicalOp, MatchArm,
    MatchArmBody, MatchExpr, Param, Pattern, Program, Span, Stmt, Type, UnaryOp,
};
use lom::dump::{dump_expr, dump_program, type_str};

#[test]
fn type_str_writes_dump_forms() {
    assert_eq!(type_str(&Type::Int), "Int");
    assert_eq!(type_str(&Type::Option(Box::new(Type::String))), "Option<String>");
    assert_eq!(type_str(&Type::Result(Box::new(Type::Int), Box::new(Type::Named("E".to_string())))), "Result<Int, E>");
    assert_eq!(type_str(&Type::Generic("List".to_string(), vec![])), "List<>");
    assert_eq!(type_str(&Type::Generic("Map".to_string(), vec![Type::String, Type::Float])), "Map<String, Float>");
    assert_eq!(
        type_str(&Type::Record(vec![("x".to_string(), Type::Int), ("y".to_string(), Type::Bool)])),
        "{x: Int, y: Bool}"
    );
    assert_eq!(type_str(&Type::Tuple(vec![Type::Unit, Type::Int])), "(Unit, Int)");
}

fn s(x: &str) -> String {
    x.to_string()
}

fn ident(x: &str) -> Expr {
    Expr::Ident(s(x))
}

fn func(name: &str, params: Vec<Param>, ret: Type, effects: Vec<String>, body: Block) -> Item {
    Item::Fn(FnDecl { name: s(name), params, ret_type: Some(ret), effects, body, span: Span::default() })
}

fn param(name: &str, ty: Type) -> Param {
    Param { name: s(name), ty }
}

fn tail_block(e: Expr) -> Block {
    Block { stmts: vec![], tail: Some(Box::new(e)) }
}

// The tree of `fn add(x: Int, y: Int) -> Int\n    x + y\nend\n`.
#[test]
fn dump_simple_fn_golden() {
    let body = tail_block(Expr::Binary { op: BinOp::Add, left: Box::new(ident("x")), right: Box::new(ident("y")) });
    let p = Program { items: vec![func("add", vec![param("x", Type::Int), param("y", Type::Int)], Type::Int, vec![], body)] };
    let expected = "\
Program
  Fn add(x: Int, y: Int) -> Int
    Block
      Tail
        Binary Add
          Ident x
          Ident y
";
    assert_eq!(dump_program(&p), expected);
}

// The tree of `let mut total = 0`, `total += 1`, `println(total)` in `main`.
#[test]
fn dump_let_assign_call() {
    let body = Block {
        stmts: vec![
            Stmt::Let { mutable: true, name: s("total"), ty: None, value: Expr::Int(0) },
            Stmt::Assign {
                target: s("total"),
                value: Expr::Binary { op: BinOp::Add, left: Box::new(ident("total")), right: Box::new(Expr::Int(1)) },
            },
        ],
        tail: Some(Box::new(Expr::Call { callee: Box::new(ident("println")), args: vec![ident("total")] })),
    };
    let p = Program { items: vec![func("main", vec![], Type::Unit, vec![], body)] };
    let expected = "\
Program
  Fn main() -> Unit
    Block
      Let mut total
        Int 0
      Assign total
        Binary Add
          Ident total
          Int 1
      Tail
        Call
          Ident println
          Ident total
";
    assert_eq!(dump_program(&p), expected);
}

// The tree of `enum Shape = Circle(Float) | Square(Float)` and a `match`.
#[test]
fn dump_match_and_enum() {
    let shape = Item::Enum(EnumDecl {
        name: s("Shape"),
        type_params: vec![],
        variants: vec![
            EnumVariantDecl { name: s("Circle"), fields: vec![Type::Float] },
            EnumVariantDecl { name: s("Square"), fields: vec![Type::Float] },
        ],
        span: Span::default(),
    });
    let m = MatchExpr {
        scrutinee: Box::new(ident("s")),
        arms: vec![
            MatchArm {
                pattern: Pattern::Variant { name: s("Circle"), sub: vec![Pattern::Binder(s("r"))] },
                body: MatchArmBody::Expr(ident("r")),
            },
            MatchArm { pattern: Pattern::Wildcard, body: MatchArmBody::Expr(Expr::Float(s("0.0"))) },
        ],
        end_line: 6,
    };
    let f = func("f", vec![param("s", Type::Named(s("Shape")))], Type::Float, vec![], tail_block(Expr::Match(Box::new(m))));
    let p = Program { items: vec![shape, f] };
    let expected = "\
Program
  Enum Shape = Circle(Float) | Square(Float)
  Fn f(s: Shape) -> Float
    Block
      Tail
        Match
          Ident s
          Arm
            Variant Circle
              Binder r
            Ident r
          Arm
            Wildcard
            Float 0
";
    assert_eq!(dump_program(&p), expected);
}

// The tree of `from string import { len as slen }` and an `! [IO]` function.
#[test]
fn dump_effects_and_import() {
    let imp = Item::Import(ImportDecl { module: s("string"), items: vec![ImportItem { name: s("len"), alias: s("slen") }] });
    let body = tail_block(Expr::Call { callee: Box::new(ident("slen")), args: vec![ident("s")] });
    let f = func("f", vec![param("s", Type::String)], Type::Int, vec![s("IO")], body);
    let p = Program { items: vec![imp, f] };
    let expected = "\
Program
  Import string {len as slen}
  Fn f(s: String) -> Int ! [IO]
    Block
      Tail
        Call
          Ident slen
          Ident s
";
    assert_eq!(dump_program(&p), expected);
}

#[test]
fn dump_float_formatting_stable() {
    let p = Program { items: vec![func("f", vec![], Type::Float, vec![], tail_block(Expr::Float(s("3.5"))))] };
    assert!(dump_program(&p).contains("Float 3.5"));
}

#[test]
fn dump_float_literal_forms() {
    assert_eq!(dump_expr(&Expr::Float(s("1.0")), 0), "Float 1\n");
    assert_eq!(dump_expr(&Expr::Float(s("3.50")), 0), "Float 3.5\n");
    assert_eq!(dump_expr(&Expr::Float(s("007.250")), 1), "  Float 7.25\n");
    assert_eq!(dump_expr(&Expr::Float(s("0.05")), 0), "Float 0.05\n");
}

#[test]
fn dump_statements_and_expressions() {
    let iff = IfStmt {
        branches: vec![
            (Expr::Bool(true), Block { stmts: vec![Stmt::Return(Some(Expr::Int(-1)))], tail: None }),
            (Expr::Unary { op: UnaryOp::Not, expr: Box::new(ident("b")) }, Block { stmts: vec![], tail: None }),
        ],
        else_branch: Some(Block { stmts: vec![Stmt::Hole { line: 3, col: 7 }], tail: None }),
    };
    let body = Block {
        stmts: vec![
            Stmt::LetDestruct { names: vec![s("a"), s("b")], value: Expr::Tuple { elems: vec![Expr::Int(1), Expr::Unit] } },
            Stmt::If(iff),
            Stmt::Expr(Expr::Str(s("a\"b"))),
            Stmt::For { var: s("x"), iter: ident("xs"), body: Block { stmts: vec![Stmt::Return(None)], tail: None } },
        ],
        tail: Some(Box::new(Expr::Logical {
            op: LogicalOp::Or,
            left: Box::new(Expr::Field { expr: Box::new(ident("p")), name: s("x") }),
            right: Box::new(Expr::Try(Box::new(Expr::Record { fields: vec![(s("k"), Expr::Int(2))] }))),
        })),
    };
    let p = Program { items: vec![func("g", vec![], Type::Unit, vec![], body)] };
    let expected = "\
Program
  Fn g() -> Unit
    Block
      LetDestruct (a, b)
        Tuple
          Int 1
          Unit
      If
        Branch
          Bool true
          Block
            Return
              Int -1
        ElifBranch
          Unary Not
            Ident b
          Block
        ElseBranch
          Block
            Hole @3:7
      ExprStmt
        Str \"a\\\"b\"
      For x in
        Ident xs
        Block
          Return
      Tail
        Logical Or
          Field .x
            Ident p
          Try
            Record
              Field k
                Int 2
";
    assert_eq!(dump_program(&p), expected);
}

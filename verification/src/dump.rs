//! AST dumps: the deterministic, indented text of a syntax tree, one node per
//! line, and the text of types inside it.
use vstd::prelude::*;
use crate::ast::{
    BinOp, Block, EnumVariantDecl, Expr, IfStmt, ImportItem, Item, LogicalOp, MatchArm, MatchArmBody, Param, Pattern, Program,
    Stmt, Type, UnaryOp,
};
use crate::text::{
    bool_text, chars_of, debug_quoted, find_char, find_char_from, slice_chars, debug_string, dec, dec_int, dec_i64, dec_usize, join_strs, join_with,
    lemma_join_with_step, push_chars, push_lit, str_view, string_of,
};

verus! {

/// A type as a dump writes it: `Int`, `Option<T>`, `Result<T, E>`,
/// `Name<A, B>` (the brackets even with no argument), `{x: Int, y: Int}`,
/// `(Int, String)`.
pub open spec fn dump_type_text(t: Type) -> Seq<char>
    decreases t,
{
    match t {
        Type::Int => "Int"@,
        Type::Float => "Float"@,
        Type::Bool => "Bool"@,
        Type::String => "String"@,
        Type::Unit => "Unit"@,
        Type::Named(n) => n@,
        Type::Option(inner) => "Option<"@ + dump_type_text(*inner) + ">"@,
        Type::Result(ok, err) => "Result<"@ + dump_type_text(*ok) + ", "@ + dump_type_text(*err) + ">"@,
        Type::Generic(name, args) => name@ + "<"@ + dump_types_text(args@) + ">"@,
        Type::Record(fields) => "{"@ + dump_fields_text(fields@) + "}"@,
        Type::Tuple(tys) => "("@ + dump_types_text(tys@) + ")"@,
    }
}

/// Types as a dump writes them, joined with `, `.
pub open spec fn dump_types_text(ts: Seq<Type>) -> Seq<char>
    decreases ts,
{
    if ts.len() == 0 {
        Seq::empty()
    } else if ts.len() == 1 {
        dump_type_text(ts[0])
    } else {
        dump_types_text(ts.drop_last()) + ", "@ + dump_type_text(ts.last())
    }
}

/// Record fields `name: type` as a dump writes them, joined with `, `.
pub open spec fn dump_fields_text(fs: Seq<(String, Type)>) -> Seq<char>
    decreases fs,
{
    if fs.len() == 0 {
        Seq::empty()
    } else if fs.len() == 1 {
        fs[0].0@ + ": "@ + dump_type_text(fs[0].1)
    } else {
        dump_fields_text(fs.drop_last()) + ", "@ + fs.last().0@ + ": "@ + dump_type_text(fs.last().1)
    }
}

/// The text of a type in an AST dump.
pub fn type_str(ty: &Type) -> (r: String)
    ensures
        r@ == dump_type_text(*ty),
{
    let v = type_dump_chars(ty);
    string_of(&v)
}

fn type_dump_chars(t: &Type) -> (r: Vec<char>)
    ensures
        r@ == dump_type_text(*t),
    decreases t,
{
    match t {
        Type::Int => chars_of("Int"),
        Type::Float => chars_of("Float"),
        Type::Bool => chars_of("Bool"),
        Type::String => chars_of("String"),
        Type::Unit => chars_of("Unit"),
        Type::Named(n) => chars_of(n.as_str()),
        Type::Option(inner) => {
            let mut out = chars_of("Option<");
            let i = type_dump_chars(inner);
            push_chars(&mut out, &i);
            push_lit(&mut out, ">");
            out
        },
        Type::Result(ok, err) => {
            let mut out = chars_of("Result<");
            let a = type_dump_chars(ok);
            push_chars(&mut out, &a);
            push_lit(&mut out, ", ");
            let b = type_dump_chars(err);
            push_chars(&mut out, &b);
            push_lit(&mut out, ">");
            out
        },
        Type::Generic(name, args) => {
            let mut out = chars_of(name.as_str());
            push_lit(&mut out, "<");
            let list = types_dump_chars(args);
            push_chars(&mut out, &list);
            push_lit(&mut out, ">");
            out
        },
        Type::Record(fields) => {
            let mut out = chars_of("{");
            let list = fields_dump_chars(fields);
            push_chars(&mut out, &list);
            push_lit(&mut out, "}");
            out
        },
        Type::Tuple(tys) => {
            let mut out = chars_of("(");
            let list = types_dump_chars(tys);
            push_chars(&mut out, &list);
            push_lit(&mut out, ")");
            out
        },
    }
}

fn types_dump_chars(ts: &Vec<Type>) -> (r: Vec<char>)
    ensures
        r@ == dump_types_text(ts@),
    decreases ts@,
{
    let mut list: Vec<char> = Vec::new();
    let mut i: usize = 0;
    while i < ts.len()
        invariant
            i <= ts@.len(),
            list@ == dump_types_text(ts@.take(i as int)),
        decreases ts@.len() - i,
    {
        assert(ts@.take(i + 1).drop_last() == ts@.take(i as int));
        proof {
            assert(decreases_to!(ts@ => ts@[i as int]));
        }
        let item = type_dump_chars(&ts[i]);
        if i > 0 {
            push_lit(&mut list, ", ");
        }
        push_chars(&mut list, &item);
        i += 1;
    }
    assert(ts@.take(ts@.len() as int) == ts@);
    list
}

fn fields_dump_chars(fs: &Vec<(String, Type)>) -> (r: Vec<char>)
    ensures
        r@ == dump_fields_text(fs@),
    decreases fs@,
{
    let mut list: Vec<char> = Vec::new();
    let mut i: usize = 0;
    while i < fs.len()
        invariant
            i <= fs@.len(),
            list@ == dump_fields_text(fs@.take(i as int)),
        decreases fs@.len() - i,
    {
        assert(fs@.take(i + 1).drop_last() == fs@.take(i as int));
        proof {
            assert(decreases_to!(fs@ => fs@[i as int]));
        }
        let name = chars_of(fs[i].0.as_str());
        let ty = type_dump_chars(&fs[i].1);
        if i > 0 {
            push_lit(&mut list, ", ");
        }
        push_chars(&mut list, &name);
        push_lit(&mut list, ": ");
        push_chars(&mut list, &ty);
        i += 1;
    }
    assert(fs@.take(fs@.len() as int) == fs@);
    list
}

// ===== float literals =====

pub open spec fn drop_leading_zeros(s: Seq<char>) -> Seq<char>
    decreases s.len(),
{
    if s.len() > 0 && s[0] == '0' {
        drop_leading_zeros(s.skip(1))
    } else {
        s
    }
}

pub open spec fn drop_trailing_zeros(s: Seq<char>) -> Seq<char>
    decreases s.len(),
{
    if s.len() > 0 && s.last() == '0' {
        drop_trailing_zeros(s.drop_last())
    } else {
        s
    }
}

/// An integer part without leading zeros, `0` when nothing is left.
pub open spec fn int_part_text(s: Seq<char>) -> Seq<char> {
    if drop_leading_zeros(s).len() == 0 {
        "0"@
    } else {
        drop_leading_zeros(s)
    }
}

/// A float literal `digits.digits` as a dump writes it: the integer part
/// without leading zeros, the fraction without trailing zeros, and no point
/// when the fraction is all zeros (`0.0` is `0`, `3.50` is `3.5`, `007.25` is
/// `7.25`). For literals of at most 15 significant digits this is the
/// shortest text that reads back as the same float, the form `{}` prints.
pub open spec fn float_dump_text(lit: Seq<char>) -> Seq<char> {
    match find_char_from(lit, '.', 0) {
        Some(k) => {
            let fp = drop_trailing_zeros(lit.skip(k + 1));
            if fp.len() == 0 {
                int_part_text(lit.take(k))
            } else {
                int_part_text(lit.take(k)) + "."@ + fp
            }
        },
        None => int_part_text(lit),
    }
}

pub proof fn lemma_find_char_bounds(s: Seq<char>, c: char, i: int)
    ensures
        find_char_from(s, c, i) matches Some(k) ==> i <= k < s.len(),
    decreases s.len() - i,
{
    if 0 <= i < s.len() && s[i] != c {
        lemma_find_char_bounds(s, c, i + 1);
    }
}

fn int_part_chars(s: &[char]) -> (r: Vec<char>)
    ensures
        r@ == int_part_text(s@),
{
    let mut j: usize = 0;
    assert(s@.skip(0) == s@);
    while j < s.len() && s[j] == '0'
        invariant
            j <= s@.len(),
            drop_leading_zeros(s@.skip(j as int)) == drop_leading_zeros(s@),
        decreases s@.len() - j,
    {
        assert(s@.skip(j as int).skip(1) == s@.skip(j + 1));
        j += 1;
    }
    let rest = slice_chars(s, j, s.len());
    assert(rest@ == s@.skip(j as int));
    if rest.len() == 0 {
        chars_of("0")
    } else {
        rest
    }
}

fn float_dump_chars(lit: &[char]) -> (r: Vec<char>)
    ensures
        r@ == float_dump_text(lit@),
{
    match find_char(lit, '.', 0) {
        Some(k) => {
            proof {
                lemma_find_char_bounds(lit@, '.', 0);
                assert(lit@.subrange(k + 1, lit@.len() as int) == lit@.skip(k + 1));
            }
            let mut e: usize = lit.len();
            while e > k + 1 && lit[e - 1] == '0'
                invariant
                    k + 1 <= e <= lit@.len(),
                    drop_trailing_zeros(lit@.subrange(k + 1, e as int)) == drop_trailing_zeros(lit@.skip(k + 1)),
                decreases e,
            {
                assert(lit@.subrange(k + 1, e as int).drop_last() == lit@.subrange(k + 1, e - 1));
                e -= 1;
            }
            let fp = slice_chars(lit, k + 1, e);
            let ip = int_part_chars(&slice_chars(lit, 0, k));
            assert(lit@.subrange(0, k as int) == lit@.take(k as int));
            if fp.len() == 0 {
                ip
            } else {
                let mut out = ip;
                push_lit(&mut out, ".");
                push_chars(&mut out, &fp);
                out
            }
        },
        None => int_part_chars(lit),
    }
}

// ===== the syntax tree =====

/// One dump line: the indentation, the text, a newline.
pub open spec fn line_text(ind: Seq<char>, t: Seq<char>) -> Seq<char> {
    ind + t + "\n"@
}

/// The indentation one level deeper.
pub open spec fn deeper(ind: Seq<char>) -> Seq<char> {
    ind + "  "@
}

/// `depth` levels of indentation, two spaces each.
pub open spec fn indent_text(depth: nat) -> Seq<char>
    decreases depth,
{
    if depth == 0 {
        Seq::empty()
    } else {
        deeper(indent_text((depth - 1) as nat))
    }
}

/// The name `derive(Debug)` writes for an operator.
pub open spec fn bin_op_name(op: BinOp) -> Seq<char> {
    match op {
        BinOp::Add => "Add"@,
        BinOp::Sub => "Sub"@,
        BinOp::Mul => "Mul"@,
        BinOp::Div => "Div"@,
        BinOp::Mod => "Mod"@,
        BinOp::Eq => "Eq"@,
        BinOp::NotEq => "NotEq"@,
        BinOp::Lt => "Lt"@,
        BinOp::Gt => "Gt"@,
        BinOp::LtEq => "LtEq"@,
        BinOp::GtEq => "GtEq"@,
    }
}

pub open spec fn unary_op_name(op: UnaryOp) -> Seq<char> {
    match op {
        UnaryOp::Neg => "Neg"@,
        UnaryOp::Not => "Not"@,
    }
}

pub open spec fn logical_op_name(op: LogicalOp) -> Seq<char> {
    match op {
        LogicalOp::And => "And"@,
        LogicalOp::Or => "Or"@,
    }
}

/// A parameter as `name: type`.
pub open spec fn param_text(p: Param) -> Seq<char> {
    p.name@ + ": "@ + dump_type_text(p.ty)
}

/// An optional type, `_` when absent.
pub open spec fn opt_type_text(t: Option<Type>) -> Seq<char> {
    match t {
        Some(t) => dump_type_text(t),
        None => "_"@,
    }
}

/// The dump of an expression at indentation `ind`: a line naming the node,
/// then its children one level deeper.
pub open spec fn dump_expr_text(e: Expr, ind: Seq<char>) -> Seq<char>
    decreases e,
{
    match e {
        Expr::Int(n) => line_text(ind, "Int "@ + dec_int(n as int)),
        Expr::Float(f) => line_text(ind, "Float "@ + float_dump_text(f@)),
        Expr::Bool(b) => line_text(ind, "Bool "@ + bool_text(b)),
        Expr::Str(s) => line_text(ind, "Str "@ + debug_quoted(s@)),
        Expr::Unit => line_text(ind, "Unit"@),
        Expr::Ident(name) => line_text(ind, "Ident "@ + name@),
        Expr::Binary { op, left, right } => line_text(ind, "Binary "@ + bin_op_name(op)) + dump_expr_text(*left, deeper(ind))
            + dump_expr_text(*right, deeper(ind)),
        Expr::Unary { op, expr } => line_text(ind, "Unary "@ + unary_op_name(op)) + dump_expr_text(*expr, deeper(ind)),
        Expr::Logical { op, left, right } => line_text(ind, "Logical "@ + logical_op_name(op)) + dump_expr_text(
            *left,
            deeper(ind),
        ) + dump_expr_text(*right, deeper(ind)),
        Expr::Call { callee, args } => line_text(ind, "Call"@) + dump_expr_text(*callee, deeper(ind)) + dump_exprs_text(
            args@,
            deeper(ind),
        ),
        Expr::Index { expr, index } => line_text(ind, "Index"@) + dump_expr_text(*expr, deeper(ind)) + dump_expr_text(
            *index,
            deeper(ind),
        ),
        Expr::Field { expr, name } => line_text(ind, "Field ."@ + name@) + dump_expr_text(*expr, deeper(ind)),
        Expr::Group(inner) => line_text(ind, "Group"@) + dump_expr_text(*inner, deeper(ind)),
        Expr::If(i) => dump_if_text(*i, ind),
        Expr::Closure { params, ret_type, body } => line_text(
            ind,
            "Closure ("@ + join_with(params@, |p: Param| param_text(p), ", "@) + ") -> "@ + opt_type_text(ret_type),
        ) + dump_block_text(*body, deeper(ind)),
        Expr::Match(m) => line_text(ind, "Match"@) + dump_expr_text(*m.scrutinee, deeper(ind)) + dump_arms_text(
            m.arms@,
            deeper(ind),
        ),
        Expr::Try(inner) => line_text(ind, "Try"@) + dump_expr_text(*inner, deeper(ind)),
        Expr::Pipe { left, right } => line_text(ind, "Pipe"@) + dump_expr_text(*left, deeper(ind)) + dump_expr_text(
            *right,
            deeper(ind),
        ),
        Expr::Record { fields } => line_text(ind, "Record"@) + dump_record_text(fields@, deeper(ind)),
        Expr::Tuple { elems } => line_text(ind, "Tuple"@) + dump_exprs_text(elems@, deeper(ind)),
    }
}

/// Expressions dumped one after another at the same indentation.
pub open spec fn dump_exprs_text(es: Seq<Expr>, ind: Seq<char>) -> Seq<char>
    decreases es,
{
    if es.len() == 0 {
        Seq::empty()
    } else {
        dump_exprs_text(es.drop_last(), ind) + dump_expr_text(es.last(), ind)
    }
}

/// Record fields: a `Field name` line, its value one level deeper.
pub open spec fn dump_record_text(fs: Seq<(String, Expr)>, ind: Seq<char>) -> Seq<char>
    decreases fs,
{
    if fs.len() == 0 {
        Seq::empty()
    } else {
        dump_record_text(fs.drop_last(), ind) + line_text(ind, "Field "@ + fs.last().0@) + dump_expr_text(
            fs.last().1,
            deeper(ind),
        )
    }
}

/// Match arms: an `Arm` line, then the pattern and the body one level deeper.
pub open spec fn dump_arms_text(arms: Seq<MatchArm>, ind: Seq<char>) -> Seq<char>
    decreases arms,
{
    if arms.len() == 0 {
        Seq::empty()
    } else {
        dump_arms_text(arms.drop_last(), ind) + line_text(ind, "Arm"@) + dump_pattern_text(arms.last().pattern, deeper(ind))
            + match arms.last().body {
            MatchArmBody::Expr(e) => dump_expr_text(e, deeper(ind)),
            MatchArmBody::Block(b) => dump_block_text(b, deeper(ind)),
        }
    }
}

/// The dump of a pattern.
pub open spec fn dump_pattern_text(p: Pattern, ind: Seq<char>) -> Seq<char>
    decreases p,
{
    match p {
        Pattern::Lit(e) => line_text(ind, "Lit"@) + dump_expr_text(e, deeper(ind)),
        Pattern::Binder(name) => line_text(ind, "Binder "@ + name@),
        Pattern::Wildcard => line_text(ind, "Wildcard"@),
        Pattern::Variant { name, sub } => line_text(ind, "Variant "@ + name@) + dump_patterns_text(sub@, deeper(ind)),
    }
}

pub open spec fn dump_patterns_text(ps: Seq<Pattern>, ind: Seq<char>) -> Seq<char>
    decreases ps,
{
    if ps.len() == 0 {
        Seq::empty()
    } else {
        dump_patterns_text(ps.drop_last(), ind) + dump_pattern_text(ps.last(), ind)
    }
}

/// The dump of a block: a `Block` line, its statements, then `Tail` and the
/// tail expression.
pub open spec fn dump_block_text(b: Block, ind: Seq<char>) -> Seq<char>
    decreases b,
{
    line_text(ind, "Block"@) + dump_stmts_text(b.stmts@, deeper(ind)) + match b.tail {
        Some(t) => line_text(deeper(ind), "Tail"@) + dump_expr_text(*t, deeper(deeper(ind))),
        None => Seq::empty(),
    }
}

pub open spec fn dump_stmts_text(ss: Seq<Stmt>, ind: Seq<char>) -> Seq<char>
    decreases ss,
{
    if ss.len() == 0 {
        Seq::empty()
    } else {
        dump_stmts_text(ss.drop_last(), ind) + dump_stmt_text(ss.last(), ind)
    }
}

/// The dump of an `if`: the branches (`Branch`, then `ElifBranch`), each
/// condition and block one level deeper, then `ElseBranch`.
pub open spec fn dump_if_text(i: IfStmt, ind: Seq<char>) -> Seq<char>
    decreases i,
{
    line_text(ind, "If"@) + dump_branches_text(i.branches@, deeper(ind)) + match i.else_branch {
        Some(b) => line_text(deeper(ind), "ElseBranch"@) + dump_block_text(b, deeper(deeper(ind))),
        None => Seq::empty(),
    }
}

pub open spec fn dump_branches_text(bs: Seq<(Expr, Block)>, ind: Seq<char>) -> Seq<char>
    decreases bs,
{
    if bs.len() == 0 {
        Seq::empty()
    } else {
        dump_branches_text(bs.drop_last(), ind) + line_text(ind, if bs.len() == 1 { "Branch"@ } else { "ElifBranch"@ })
            + dump_expr_text(bs.last().0, deeper(ind)) + dump_block_text(bs.last().1, deeper(ind))
    }
}

/// The dump of a statement.
pub open spec fn dump_stmt_text(s: Stmt, ind: Seq<char>) -> Seq<char>
    decreases s,
{
    match s {
        Stmt::Let { mutable, name, ty, value } => line_text(
            ind,
            "Let "@ + (if mutable { "mut "@ } else { Seq::empty() }) + name@ + match ty {
                Some(t) => ": "@ + dump_type_text(t),
                None => Seq::empty(),
            },
        ) + dump_expr_text(value, deeper(ind)),
        Stmt::LetDestruct { names, value } => line_text(
            ind,
            "LetDestruct ("@ + join_with(names@, |n: String| str_view(n), ", "@) + ")"@,
        ) + dump_expr_text(value, deeper(ind)),
        Stmt::Assign { target, value } => line_text(ind, "Assign "@ + target@) + dump_expr_text(value, deeper(ind)),
        Stmt::If(i) => dump_if_text(i, ind),
        Stmt::While { cond, body } => line_text(ind, "While"@) + dump_expr_text(cond, deeper(ind)) + dump_block_text(
            body,
            deeper(ind),
        ),
        Stmt::For { var, iter, body } => line_text(ind, "For "@ + var@ + " in"@) + dump_expr_text(iter, deeper(ind))
            + dump_block_text(body, deeper(ind)),
        Stmt::Return(Some(e)) => line_text(ind, "Return"@) + dump_expr_text(e, deeper(ind)),
        Stmt::Return(None) => line_text(ind, "Return"@),
        Stmt::Expr(e) => line_text(ind, "ExprStmt"@) + dump_expr_text(e, deeper(ind)),
        Stmt::Hole { line, col } => line_text(ind, "Hole @"@ + dec(line as nat) + ":"@ + dec(col as nat)),
    }
}

fn line_vec(ind: &[char], t: &[char]) -> (r: Vec<char>)
    ensures
        r@ == line_text(ind@, t@),
{
    let mut out: Vec<char> = Vec::new();
    push_chars(&mut out, ind);
    push_chars(&mut out, t);
    push_lit(&mut out, "\n");
    assert(Seq::<char>::empty() + ind@ == ind@);
    out
}

fn line_lit(ind: &[char], t: &str) -> (r: Vec<char>)
    ensures
        r@ == line_text(ind@, t@),
{
    let cs = chars_of(t);
    line_vec(ind, &cs)
}

fn deeper_vec(ind: &[char]) -> (r: Vec<char>)
    ensures
        r@ == deeper(ind@),
{
    let mut out: Vec<char> = Vec::new();
    push_chars(&mut out, ind);
    push_lit(&mut out, "  ");
    assert(Seq::<char>::empty() + ind@ == ind@);
    out
}

fn text_then(lit: &str, tail: &[char]) -> (r: Vec<char>)
    ensures
        r@ == lit@ + tail@,
{
    let mut out = chars_of(lit);
    push_chars(&mut out, tail);
    out
}

fn bin_op_chars(op: &BinOp) -> (r: Vec<char>)
    ensures
        r@ == bin_op_name(*op),
{
    match op {
        BinOp::Add => chars_of("Add"),
        BinOp::Sub => chars_of("Sub"),
        BinOp::Mul => chars_of("Mul"),
        BinOp::Div => chars_of("Div"),
        BinOp::Mod => chars_of("Mod"),
        BinOp::Eq => chars_of("Eq"),
        BinOp::NotEq => chars_of("NotEq"),
        BinOp::Lt => chars_of("Lt"),
        BinOp::Gt => chars_of("Gt"),
        BinOp::LtEq => chars_of("LtEq"),
        BinOp::GtEq => chars_of("GtEq"),
    }
}

fn unary_op_chars(op: &UnaryOp) -> (r: Vec<char>)
    ensures
        r@ == unary_op_name(*op),
{
    match op {
        UnaryOp::Neg => chars_of("Neg"),
        UnaryOp::Not => chars_of("Not"),
    }
}

fn logical_op_chars(op: &LogicalOp) -> (r: Vec<char>)
    ensures
        r@ == logical_op_name(*op),
{
    match op {
        LogicalOp::And => chars_of("And"),
        LogicalOp::Or => chars_of("Or"),
    }
}

fn params_chars(ps: &Vec<Param>) -> (r: Vec<char>)
    ensures
        r@ == join_with(ps@, |p: Param| param_text(p), ", "@),
{
    let ghost f = |p: Param| param_text(p);
    let mut r: Vec<char> = Vec::new();
    let mut i: usize = 0;
    while i < ps.len()
        invariant
            i <= ps@.len(),
            f == (|p: Param| param_text(p)),
            r@ == join_with(ps@.take(i as int), f, ", "@),
        decreases ps@.len() - i,
    {
        proof {
            lemma_join_with_step(ps@, i as int, f, ", "@);
        }
        if i > 0 {
            push_lit(&mut r, ", ");
        } else {
            assert(r@ + Seq::<char>::empty() == r@);
        }
        let name = chars_of(ps[i].name.as_str());
        let ty = type_dump_chars(&ps[i].ty);
        let mut one = name;
        push_lit(&mut one, ": ");
        push_chars(&mut one, &ty);
        push_chars(&mut r, &one);
        i += 1;
    }
    assert(ps@.take(ps@.len() as int) == ps@);
    r
}

fn opt_type_chars(t: &Option<Type>) -> (r: Vec<char>)
    ensures
        r@ == opt_type_text(*t),
{
    match t {
        Some(t) => type_dump_chars(t),
        None => chars_of("_"),
    }
}

fn expr_dump(e: &Expr, ind: &[char]) -> (r: Vec<char>)
    ensures
        r@ == dump_expr_text(*e, ind@),
    decreases e,
{
    let d = deeper_vec(ind);
    match e {
        Expr::Int(n) => {
            let t = text_then("Int ", &dec_i64(*n));
            line_vec(ind, &t)
        },
        Expr::Float(f) => {
            let t = text_then("Float ", &float_dump_chars(&chars_of(f.as_str())));
            line_vec(ind, &t)
        },
        Expr::Bool(b) => {
            let t = if *b { chars_of("Bool true") } else { chars_of("Bool false") };
            proof {
                reveal_strlit("Bool true");
                reveal_strlit("Bool false");
                reveal_strlit("Bool ");
                assert(t@ == "Bool "@ + bool_text(*b));
            }
            line_vec(ind, &t)
        },
        Expr::Str(s) => {
            let q = debug_string(s.as_str());
            let t = text_then("Str ", &chars_of(q.as_str()));
            line_vec(ind, &t)
        },
        Expr::Unit => line_lit(ind, "Unit"),
        Expr::Ident(name) => {
            let t = text_then("Ident ", &chars_of(name.as_str()));
            line_vec(ind, &t)
        },
        Expr::Binary { op, left, right } => {
            let t = text_then("Binary ", &bin_op_chars(op));
            let mut out = line_vec(ind, &t);
            push_chars(&mut out, &expr_dump(left, &d));
            push_chars(&mut out, &expr_dump(right, &d));
            out
        },
        Expr::Unary { op, expr } => {
            let t = text_then("Unary ", &unary_op_chars(op));
            let mut out = line_vec(ind, &t);
            push_chars(&mut out, &expr_dump(expr, &d));
            out
        },
        Expr::Logical { op, left, right } => {
            let t = text_then("Logical ", &logical_op_chars(op));
            let mut out = line_vec(ind, &t);
            push_chars(&mut out, &expr_dump(left, &d));
            push_chars(&mut out, &expr_dump(right, &d));
            out
        },
        Expr::Call { callee, args } => {
            let mut out = line_lit(ind, "Call");
            push_chars(&mut out, &expr_dump(callee, &d));
            push_chars(&mut out, &exprs_dump(args, &d));
            out
        },
        Expr::Index { expr, index } => {
            let mut out = line_lit(ind, "Index");
            push_chars(&mut out, &expr_dump(expr, &d));
            push_chars(&mut out, &expr_dump(index, &d));
            out
        },
        Expr::Field { expr, name } => {
            let t = text_then("Field .", &chars_of(name.as_str()));
            let mut out = line_vec(ind, &t);
            push_chars(&mut out, &expr_dump(expr, &d));
            out
        },
        Expr::Group(inner) => {
            let mut out = line_lit(ind, "Group");
            push_chars(&mut out, &expr_dump(inner, &d));
            out
        },
        Expr::If(i) => if_dump(i, ind),
        Expr::Closure { params, ret_type, body } => {
            let mut t = text_then("Closure (", &params_chars(params));
            push_lit(&mut t, ") -> ");
            push_chars(&mut t, &opt_type_chars(ret_type));
            let mut out = line_vec(ind, &t);
            push_chars(&mut out, &block_dump(body, &d));
            out
        },
        Expr::Match(m) => {
            let mut out = line_lit(ind, "Match");
            push_chars(&mut out, &expr_dump(&m.scrutinee, &d));
            push_chars(&mut out, &arms_dump(&m.arms, &d));
            out
        },
        Expr::Try(inner) => {
            let mut out = line_lit(ind, "Try");
            push_chars(&mut out, &expr_dump(inner, &d));
            out
        },
        Expr::Pipe { left, right } => {
            let mut out = line_lit(ind, "Pipe");
            push_chars(&mut out, &expr_dump(left, &d));
            push_chars(&mut out, &expr_dump(right, &d));
            out
        },
        Expr::Record { fields } => {
            let mut out = line_lit(ind, "Record");
            push_chars(&mut out, &record_dump(fields, &d));
            out
        },
        Expr::Tuple { elems } => {
            let mut out = line_lit(ind, "Tuple");
            push_chars(&mut out, &exprs_dump(elems, &d));
            out
        },
    }
}

fn exprs_dump(es: &Vec<Expr>, ind: &[char]) -> (r: Vec<char>)
    ensures
        r@ == dump_exprs_text(es@, ind@),
    decreases es@,
{
    let mut out: Vec<char> = Vec::new();
    let mut i: usize = 0;
    while i < es.len()
        invariant
            i <= es@.len(),
            out@ == dump_exprs_text(es@.take(i as int), ind@),
        decreases es@.len() - i,
    {
        assert(es@.take(i + 1).drop_last() == es@.take(i as int));
        proof {
            assert(decreases_to!(es@ => es@[i as int]));
        }
        push_chars(&mut out, &expr_dump(&es[i], ind));
        i += 1;
    }
    assert(es@.take(es@.len() as int) == es@);
    out
}

fn record_dump(fs: &Vec<(String, Expr)>, ind: &[char]) -> (r: Vec<char>)
    ensures
        r@ == dump_record_text(fs@, ind@),
    decreases fs@,
{
    let d = deeper_vec(ind);
    let mut out: Vec<char> = Vec::new();
    let mut i: usize = 0;
    while i < fs.len()
        invariant
            i <= fs@.len(),
            d@ == deeper(ind@),
            out@ == dump_record_text(fs@.take(i as int), ind@),
        decreases fs@.len() - i,
    {
        assert(fs@.take(i + 1).drop_last() == fs@.take(i as int));
        proof {
            assert(decreases_to!(fs@ => fs@[i as int]));
            assert(decreases_to!(fs@[i as int] => fs@[i as int].1));
        }
        let t = text_then("Field ", &chars_of(fs[i].0.as_str()));
        push_chars(&mut out, &line_vec(ind, &t));
        push_chars(&mut out, &expr_dump(&fs[i].1, &d));
        i += 1;
    }
    assert(fs@.take(fs@.len() as int) == fs@);
    out
}

fn arms_dump(arms: &Vec<MatchArm>, ind: &[char]) -> (r: Vec<char>)
    ensures
        r@ == dump_arms_text(arms@, ind@),
    decreases arms@,
{
    let d = deeper_vec(ind);
    let mut out: Vec<char> = Vec::new();
    let mut i: usize = 0;
    while i < arms.len()
        invariant
            i <= arms@.len(),
            d@ == deeper(ind@),
            out@ == dump_arms_text(arms@.take(i as int), ind@),
        decreases arms@.len() - i,
    {
        assert(arms@.take(i + 1).drop_last() == arms@.take(i as int));
        proof {
            assert(decreases_to!(arms@ => arms@[i as int]));
        }
        push_chars(&mut out, &line_lit(ind, "Arm"));
        push_chars(&mut out, &pattern_dump(&arms[i].pattern, &d));
        match &arms[i].body {
            MatchArmBody::Expr(e) => push_chars(&mut out, &expr_dump(e, &d)),
            MatchArmBody::Block(b) => push_chars(&mut out, &block_dump(b, &d)),
        }
        i += 1;
    }
    assert(arms@.take(arms@.len() as int) == arms@);
    out
}

fn pattern_dump(p: &Pattern, ind: &[char]) -> (r: Vec<char>)
    ensures
        r@ == dump_pattern_text(*p, ind@),
    decreases p,
{
    let d = deeper_vec(ind);
    match p {
        Pattern::Lit(e) => {
            let mut out = line_lit(ind, "Lit");
            push_chars(&mut out, &expr_dump(e, &d));
            out
        },
        Pattern::Binder(name) => {
            let t = text_then("Binder ", &chars_of(name.as_str()));
            line_vec(ind, &t)
        },
        Pattern::Wildcard => line_lit(ind, "Wildcard"),
        Pattern::Variant { name, sub } => {
            let t = text_then("Variant ", &chars_of(name.as_str()));
            let mut out = line_vec(ind, &t);
            push_chars(&mut out, &patterns_dump(sub, &d));
            out
        },
    }
}

fn patterns_dump(ps: &Vec<Pattern>, ind: &[char]) -> (r: Vec<char>)
    ensures
        r@ == dump_patterns_text(ps@, ind@),
    decreases ps@,
{
    let mut out: Vec<char> = Vec::new();
    let mut i: usize = 0;
    while i < ps.len()
        invariant
            i <= ps@.len(),
            out@ == dump_patterns_text(ps@.take(i as int), ind@),
        decreases ps@.len() - i,
    {
        assert(ps@.take(i + 1).drop_last() == ps@.take(i as int));
        proof {
            assert(decreases_to!(ps@ => ps@[i as int]));
        }
        push_chars(&mut out, &pattern_dump(&ps[i], ind));
        i += 1;
    }
    assert(ps@.take(ps@.len() as int) == ps@);
    out
}

fn block_dump(b: &Block, ind: &[char]) -> (r: Vec<char>)
    ensures
        r@ == dump_block_text(*b, ind@),
    decreases b,
{
    let d = deeper_vec(ind);
    let mut out = line_lit(ind, "Block");
    push_chars(&mut out, &stmts_dump(&b.stmts, &d));
    match &b.tail {
        Some(t) => {
            let dd = deeper_vec(&d);
            let mut tail = line_lit(&d, "Tail");
            push_chars(&mut tail, &expr_dump(t, &dd));
            push_chars(&mut out, &tail);
        },
        None => {
            assert(out@ + Seq::<char>::empty() == out@);
        },
    }
    out
}

fn stmts_dump(ss: &Vec<Stmt>, ind: &[char]) -> (r: Vec<char>)
    ensures
        r@ == dump_stmts_text(ss@, ind@),
    decreases ss@,
{
    let mut out: Vec<char> = Vec::new();
    let mut i: usize = 0;
    while i < ss.len()
        invariant
            i <= ss@.len(),
            out@ == dump_stmts_text(ss@.take(i as int), ind@),
        decreases ss@.len() - i,
    {
        assert(ss@.take(i + 1).drop_last() == ss@.take(i as int));
        proof {
            assert(decreases_to!(ss@ => ss@[i as int]));
        }
        push_chars(&mut out, &stmt_dump(&ss[i], ind));
        i += 1;
    }
    assert(ss@.take(ss@.len() as int) == ss@);
    out
}

fn if_dump(i: &IfStmt, ind: &[char]) -> (r: Vec<char>)
    ensures
        r@ == dump_if_text(*i, ind@),
    decreases i,
{
    let d = deeper_vec(ind);
    let mut out = line_lit(ind, "If");
    push_chars(&mut out, &branches_dump(&i.branches, &d));
    match &i.else_branch {
        Some(b) => {
            let dd = deeper_vec(&d);
            let mut tail = line_lit(&d, "ElseBranch");
            push_chars(&mut tail, &block_dump(b, &dd));
            push_chars(&mut out, &tail);
        },
        None => {
            assert(out@ + Seq::<char>::empty() == out@);
        },
    }
    out
}

fn branches_dump(bs: &Vec<(Expr, Block)>, ind: &[char]) -> (r: Vec<char>)
    ensures
        r@ == dump_branches_text(bs@, ind@),
    decreases bs@,
{
    let d = deeper_vec(ind);
    let mut out: Vec<char> = Vec::new();
    let mut i: usize = 0;
    while i < bs.len()
        invariant
            i <= bs@.len(),
            d@ == deeper(ind@),
            out@ == dump_branches_text(bs@.take(i as int), ind@),
        decreases bs@.len() - i,
    {
        assert(bs@.take(i + 1).drop_last() == bs@.take(i as int));
        proof {
            assert(decreases_to!(bs@ => bs@[i as int]));
            assert(decreases_to!(bs@[i as int] => bs@[i as int].0));
            assert(decreases_to!(bs@[i as int] => bs@[i as int].1));
        }
        if i == 0 {
            push_chars(&mut out, &line_lit(ind, "Branch"));
        } else {
            push_chars(&mut out, &line_lit(ind, "ElifBranch"));
        }
        push_chars(&mut out, &expr_dump(&bs[i].0, &d));
        push_chars(&mut out, &block_dump(&bs[i].1, &d));
        i += 1;
    }
    assert(bs@.take(bs@.len() as int) == bs@);
    out
}

fn stmt_dump(s: &Stmt, ind: &[char]) -> (r: Vec<char>)
    ensures
        r@ == dump_stmt_text(*s, ind@),
    decreases s,
{
    let d = deeper_vec(ind);
    match s {
        Stmt::Let { mutable, name, ty, value } => {
            let mut t = chars_of("Let ");
            if *mutable {
                push_lit(&mut t, "mut ");
            } else {
                assert(t@ + Seq::<char>::empty() == t@);
            }
            push_chars(&mut t, &chars_of(name.as_str()));
            match ty {
                Some(ty) => {
                    let a = text_then(": ", &type_dump_chars(ty));
                    push_chars(&mut t, &a);
                },
                None => {
                    assert(t@ + Seq::<char>::empty() == t@);
                },
            }
            let mut out = line_vec(ind, &t);
            push_chars(&mut out, &expr_dump(value, &d));
            out
        },
        Stmt::LetDestruct { names, value } => {
            let mut t = text_then("LetDestruct (", &join_strs(names.as_slice(), ", "));
            push_lit(&mut t, ")");
            let mut out = line_vec(ind, &t);
            push_chars(&mut out, &expr_dump(value, &d));
            out
        },
        Stmt::Assign { target, value } => {
            let t = text_then("Assign ", &chars_of(target.as_str()));
            let mut out = line_vec(ind, &t);
            push_chars(&mut out, &expr_dump(value, &d));
            out
        },
        Stmt::If(i) => if_dump(i, ind),
        Stmt::While { cond, body } => {
            let mut out = line_lit(ind, "While");
            push_chars(&mut out, &expr_dump(cond, &d));
            push_chars(&mut out, &block_dump(body, &d));
            out
        },
        Stmt::For { var, iter, body } => {
            let mut t = text_then("For ", &chars_of(var.as_str()));
            push_lit(&mut t, " in");
            let mut out = line_vec(ind, &t);
            push_chars(&mut out, &expr_dump(iter, &d));
            push_chars(&mut out, &block_dump(body, &d));
            out
        },
        Stmt::Return(Some(e)) => {
            let mut out = line_lit(ind, "Return");
            push_chars(&mut out, &expr_dump(e, &d));
            out
        },
        Stmt::Return(None) => line_lit(ind, "Return"),
        Stmt::Expr(e) => {
            let mut out = line_lit(ind, "ExprStmt");
            push_chars(&mut out, &expr_dump(e, &d));
            out
        },
        Stmt::Hole { line, col } => {
            let mut t = text_then("Hole @", &dec_usize(*line));
            push_lit(&mut t, ":");
            push_chars(&mut t, &dec_usize(*col));
            line_vec(ind, &t)
        },
    }
}

/// The dump of an expression at `depth` levels of indentation.
pub fn dump_expr(e: &Expr, depth: usize) -> (r: String)
    ensures
        r@ == dump_expr_text(*e, indent_text(depth as nat)),
{
    let mut ind: Vec<char> = Vec::new();
    let mut k: usize = 0;
    while k < depth
        invariant
            k <= depth,
            ind@ == indent_text(k as nat),
        decreases depth - k,
    {
        ind = deeper_vec(&ind);
        k += 1;
    }
    string_of(&expr_dump(e, &ind))
}

/// ` ! [E1, E2]` after a signature, nothing for a pure function.
pub open spec fn effects_text(es: Seq<String>) -> Seq<char> {
    if es.len() == 0 {
        Seq::empty()
    } else {
        " ! ["@ + join_with(es, |n: String| str_view(n), ", "@) + "]"@
    }
}

/// `<T, E>` after an enum's name, nothing without type parameters.
pub open spec fn type_params_text(ts: Seq<String>) -> Seq<char> {
    if ts.len() == 0 {
        Seq::empty()
    } else {
        "<"@ + join_with(ts, |n: String| str_view(n), ", "@) + ">"@
    }
}

/// A variant as `Name` or `Name(T1, T2)`.
pub open spec fn variant_text(v: EnumVariantDecl) -> Seq<char> {
    if v.fields@.len() == 0 {
        v.name@
    } else {
        v.name@ + "("@ + dump_types_text(v.fields@) + ")"@
    }
}

/// An imported name, with `as alias` when it is renamed.
pub open spec fn import_item_text(i: ImportItem) -> Seq<char> {
    if i.name@ == i.alias@ {
        i.name@
    } else {
        i.name@ + " as "@ + i.alias@
    }
}

/// The dump of a top-level declaration.
pub open spec fn dump_item_text(it: Item, ind: Seq<char>) -> Seq<char> {
    match it {
        Item::Fn(f) => line_text(
            ind,
            "Fn "@ + f.name@ + "("@ + join_with(f.params@, |p: Param| param_text(p), ", "@) + ") -> "@ + opt_type_text(
                f.ret_type,
            ) + effects_text(f.effects@),
        ) + dump_block_text(f.body, deeper(ind)),
        Item::Enum(e) => line_text(
            ind,
            "Enum "@ + e.name@ + type_params_text(e.type_params@) + " = "@ + join_with(
                e.variants@,
                |v: EnumVariantDecl| variant_text(v),
                " | "@,
            ),
        ),
        Item::Import(i) => line_text(
            ind,
            "Import "@ + i.module@ + " {"@ + join_with(i.items@, |x: ImportItem| import_item_text(x), ", "@) + "}"@,
        ),
    }
}

pub open spec fn dump_items_text(its: Seq<Item>, ind: Seq<char>) -> Seq<char>
    decreases its.len(),
{
    if its.len() == 0 {
        Seq::empty()
    } else {
        dump_items_text(its.drop_last(), ind) + dump_item_text(its.last(), ind)
    }
}

/// The dump of a program: a `Program` line, then each declaration one level
/// deeper.
pub open spec fn dump_program_text(p: Program) -> Seq<char> {
    "Program\n"@ + dump_items_text(p.items@, "  "@)
}

fn variants_chars(vs: &Vec<EnumVariantDecl>) -> (r: Vec<char>)
    ensures
        r@ == join_with(vs@, |v: EnumVariantDecl| variant_text(v), " | "@),
{
    let ghost f = |v: EnumVariantDecl| variant_text(v);
    let mut r: Vec<char> = Vec::new();
    let mut i: usize = 0;
    while i < vs.len()
        invariant
            i <= vs@.len(),
            f == (|v: EnumVariantDecl| variant_text(v)),
            r@ == join_with(vs@.take(i as int), f, " | "@),
        decreases vs@.len() - i,
    {
        proof {
            lemma_join_with_step(vs@, i as int, f, " | "@);
        }
        if i > 0 {
            push_lit(&mut r, " | ");
        } else {
            assert(r@ + Seq::<char>::empty() == r@);
        }
        let mut one = chars_of(vs[i].name.as_str());
        if vs[i].fields.len() > 0 {
            push_lit(&mut one, "(");
            push_chars(&mut one, &types_dump_chars(&vs[i].fields));
            push_lit(&mut one, ")");
        }
        push_chars(&mut r, &one);
        i += 1;
    }
    assert(vs@.take(vs@.len() as int) == vs@);
    r
}

fn import_items_chars(xs: &Vec<ImportItem>) -> (r: Vec<char>)
    ensures
        r@ == join_with(xs@, |x: ImportItem| import_item_text(x), ", "@),
{
    let ghost f = |x: ImportItem| import_item_text(x);
    let mut r: Vec<char> = Vec::new();
    let mut i: usize = 0;
    while i < xs.len()
        invariant
            i <= xs@.len(),
            f == (|x: ImportItem| import_item_text(x)),
            r@ == join_with(xs@.take(i as int), f, ", "@),
        decreases xs@.len() - i,
    {
        proof {
            lemma_join_with_step(xs@, i as int, f, ", "@);
        }
        if i > 0 {
            push_lit(&mut r, ", ");
        } else {
            assert(r@ + Seq::<char>::empty() == r@);
        }
        let mut one = chars_of(xs[i].name.as_str());
        if xs[i].name != xs[i].alias {
            push_lit(&mut one, " as ");
            push_chars(&mut one, &chars_of(xs[i].alias.as_str()));
        }
        push_chars(&mut r, &one);
        i += 1;
    }
    assert(xs@.take(xs@.len() as int) == xs@);
    r
}

fn item_dump(it: &Item, ind: &[char]) -> (r: Vec<char>)
    ensures
        r@ == dump_item_text(*it, ind@),
{
    match it {
        Item::Fn(f) => {
            let mut t = text_then("Fn ", &chars_of(f.name.as_str()));
            push_lit(&mut t, "(");
            push_chars(&mut t, &params_chars(&f.params));
            push_lit(&mut t, ") -> ");
            push_chars(&mut t, &opt_type_chars(&f.ret_type));
            if f.effects.len() > 0 {
                let mut e = text_then(" ! [", &join_strs(f.effects.as_slice(), ", "));
                push_lit(&mut e, "]");
                push_chars(&mut t, &e);
            } else {
                assert(t@ + Seq::<char>::empty() == t@);
            }
            let mut out = line_vec(ind, &t);
            let d = deeper_vec(ind);
            push_chars(&mut out, &block_dump(&f.body, &d));
            out
        },
        Item::Enum(e) => {
            let mut t = text_then("Enum ", &chars_of(e.name.as_str()));
            if e.type_params.len() > 0 {
                let mut tp = text_then("<", &join_strs(e.type_params.as_slice(), ", "));
                push_lit(&mut tp, ">");
                push_chars(&mut t, &tp);
            } else {
                assert(t@ + Seq::<char>::empty() == t@);
            }
            push_lit(&mut t, " = ");
            push_chars(&mut t, &variants_chars(&e.variants));
            line_vec(ind, &t)
        },
        Item::Import(i) => {
            let mut t = text_then("Import ", &chars_of(i.module.as_str()));
            push_lit(&mut t, " {");
            push_chars(&mut t, &import_items_chars(&i.items));
            push_lit(&mut t, "}");
            line_vec(ind, &t)
        },
    }
}

/// The AST dump of a program: one node per line, two spaces of indentation
/// per level, fields in a fixed order, ending with a newline.
pub fn dump_program(program: &Program) -> (r: String)
    ensures
        r@ == dump_program_text(*program),
{
    let mut out = chars_of("Program\n");
    let ind = chars_of("  ");
    let ghost head = out@;
    let mut i: usize = 0;
    while i < program.items.len()
        invariant
            i <= program.items@.len(),
            ind@ == "  "@,
            out@ == head + dump_items_text(program.items@.take(i as int), "  "@),
        decreases program.items@.len() - i,
    {
        assert(program.items@.take(i + 1).drop_last() == program.items@.take(i as int));
        push_chars(&mut out, &item_dump(&program.items[i], &ind));
        i += 1;
    }
    assert(program.items@.take(program.items@.len() as int) == program.items@);
    string_of(&out)
}

} // verus!

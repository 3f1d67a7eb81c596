//! Declaration summaries (`lom-info/v1`): functions, enums and imports of a
//! file, rendered as JSON or as a short human-readable listing.
use vstd::prelude::*;
use crate::ast::{items_have_hole, EnumDecl, FnDecl, ImportDecl, Item, Program, Type};
use crate::text::{
    bool_text, chars_eq_lit, chars_of, dec, owned, escape_json, join_quoted, join_strs, join_with, json_quoted, lemma_sep_list_step,
    lemma_join_with_step, push_bool, push_chars, push_json_escaped, push_lit, push_usize, sep_list, str_view,
    string_of,
};

verus! {

/// Declarations of one file.
pub struct ProgramInfo {
    pub file: String,
    pub ok: bool,
    pub functions: Vec<FnInfo>,
    pub enums: Vec<EnumInfo>,
    pub imports: Vec<ImportInfo>,
}

/// A function signature.
pub struct FnInfo {
    pub name: String,
    pub params: Vec<ParamInfo>,
    pub ret_type: Option<String>,
    pub effects: Vec<String>,
    pub is_main: bool,
}

/// A parameter name and its type, as text.
pub struct ParamInfo {
    pub name: String,
    pub ty: String,
}

/// An enum: name, type parameters, variants.
pub struct EnumInfo {
    pub name: String,
    pub type_params: Vec<String>,
    pub variants: Vec<VariantInfo>,
}

/// An enum variant and its field types, as text.
pub struct VariantInfo {
    pub name: String,
    pub fields: Vec<String>,
}

/// An import: module path and items.
pub struct ImportInfo {
    pub module: String,
    pub items: Vec<ImportItemInfo>,
}

/// An imported name and its local alias.
pub struct ImportItemInfo {
    pub name: String,
    pub alias: String,
}

// ===== declarations of a program =====

pub open spec fn strs(v: Seq<String>) -> Seq<Seq<char>> {
    v.map_values(|s: String| s@)
}

/// The function declarations among the items, in order.
pub open spec fn fn_decls(items: Seq<Item>) -> Seq<FnDecl>
    decreases items.len(),
{
    if items.len() == 0 {
        Seq::empty()
    } else {
        match items.last() {
            Item::Fn(f) => fn_decls(items.drop_last()).push(f),
            _ => fn_decls(items.drop_last()),
        }
    }
}

/// The enum declarations among the items, in order.
pub open spec fn enum_decls(items: Seq<Item>) -> Seq<EnumDecl>
    decreases items.len(),
{
    if items.len() == 0 {
        Seq::empty()
    } else {
        match items.last() {
            Item::Enum(e) => enum_decls(items.drop_last()).push(e),
            _ => enum_decls(items.drop_last()),
        }
    }
}

/// The imports among the items, in order.
pub open spec fn import_decls(items: Seq<Item>) -> Seq<ImportDecl>
    decreases items.len(),
{
    if items.len() == 0 {
        Seq::empty()
    } else {
        match items.last() {
            Item::Import(i) => import_decls(items.drop_last()).push(i),
            _ => import_decls(items.drop_last()),
        }
    }
}

/// `i` describes the function `f`: its name, each parameter with its type as
/// text, the return type as text, its effects, and whether it is `main`.
pub open spec fn describes_fn(i: FnInfo, f: FnDecl) -> bool {
    &&& i.name@ == f.name@
    &&& i.params@.len() == f.params@.len()
    &&& forall|k: int|
        0 <= k < i.params@.len() ==> (#[trigger] i.params@[k]).name@ == f.params@[k].name@ && i.params@[k].ty@ == type_text(
            f.params@[k].ty,
        )
    &&& match f.ret_type {
        Some(t) => i.ret_type matches Some(r) && r@ == type_text(t),
        None => i.ret_type is None,
    }
    &&& strs(i.effects@) == strs(f.effects@)
    &&& i.is_main == (f.name@ == "main"@)
}

/// `i` describes the enum `e`: name, type parameters, each variant with its
/// field types as text.
pub open spec fn describes_enum(i: EnumInfo, e: EnumDecl) -> bool {
    &&& i.name@ == e.name@
    &&& strs(i.type_params@) == strs(e.type_params@)
    &&& i.variants@.len() == e.variants@.len()
    &&& forall|k: int|
        0 <= k < i.variants@.len() ==> (#[trigger] i.variants@[k]).name@ == e.variants@[k].name@ && strs(
            i.variants@[k].fields@,
        ) == e.variants@[k].fields@.map_values(|t: Type| type_text(t))
}

/// `i` describes the import `d`: module path and each name with its alias.
pub open spec fn describes_import(i: ImportInfo, d: ImportDecl) -> bool {
    &&& i.module@ == d.module@
    &&& i.items@.len() == d.items@.len()
    &&& forall|k: int|
        0 <= k < i.items@.len() ==> (#[trigger] i.items@[k]).name@ == d.items@[k].name@ && i.items@[k].alias@
            == d.items@[k].alias@
}

fn clone_strings(v: &Vec<String>) -> (r: Vec<String>)
    ensures
        strs(r@) == strs(v@),
{
    let mut r: Vec<String> = Vec::new();
    let mut i: usize = 0;
    while i < v.len()
        invariant
            i <= v@.len(),
            strs(r@) == strs(v@.take(i as int)),
        decreases v@.len() - i,
    {
        let ghost before = r@;
        let c = v[i].clone();
        r.push(c);
        assert(strs(r@) =~= strs(before).push(c@));
        assert(strs(v@.take(i + 1)) =~= strs(v@.take(i as int)).push(v@[i as int]@));
        i += 1;
    }
    assert(v@.take(v@.len() as int) == v@);
    r
}

fn fn_info(f: &FnDecl) -> (r: FnInfo)
    ensures
        describes_fn(r, *f),
{
    let mut params: Vec<ParamInfo> = Vec::new();
    let mut i: usize = 0;
    while i < f.params.len()
        invariant
            i <= f.params@.len(),
            params@.len() == i,
            forall|k: int|
                0 <= k < i ==> (#[trigger] params@[k]).name@ == f.params@[k].name@ && params@[k].ty@ == type_text(
                    f.params@[k].ty,
                ),
        decreases f.params@.len() - i,
    {
        params.push(ParamInfo { name: f.params[i].name.clone(), ty: type_to_string(&f.params[i].ty) });
        i += 1;
    }
    let ret_type = match &f.ret_type {
        Some(t) => Some(type_to_string(t)),
        None => None,
    };
    let is_main = chars_eq_lit(&chars_of(f.name.as_str()), "main");
    FnInfo { name: f.name.clone(), params, ret_type, effects: clone_strings(&f.effects), is_main }
}

fn enum_info(e: &EnumDecl) -> (r: EnumInfo)
    ensures
        describes_enum(r, *e),
{
    let mut variants: Vec<VariantInfo> = Vec::new();
    let mut i: usize = 0;
    while i < e.variants.len()
        invariant
            i <= e.variants@.len(),
            variants@.len() == i,
            forall|k: int|
                0 <= k < i ==> (#[trigger] variants@[k]).name@ == e.variants@[k].name@ && strs(variants@[k].fields@)
                    == e.variants@[k].fields@.map_values(|t: Type| type_text(t)),
        decreases e.variants@.len() - i,
    {
        let tys = &e.variants[i].fields;
        let mut fields: Vec<String> = Vec::new();
        let mut j: usize = 0;
        while j < tys.len()
            invariant
                j <= tys@.len(),
                strs(fields@) == tys@.take(j as int).map_values(|t: Type| type_text(t)),
            decreases tys@.len() - j,
        {
            let ghost before = fields@;
            let t = type_to_string(&tys[j]);
            fields.push(t);
            assert(strs(fields@) =~= strs(before).push(t@));
            assert(tys@.take(j + 1).map_values(|t: Type| type_text(t)) =~= tys@.take(j as int).map_values(
                |t: Type| type_text(t),
            ).push(type_text(tys@[j as int])));
            j += 1;
        }
        assert(tys@.take(tys@.len() as int) == tys@);
        variants.push(VariantInfo { name: e.variants[i].name.clone(), fields });
        i += 1;
    }
    EnumInfo { name: e.name.clone(), type_params: clone_strings(&e.type_params), variants }
}

fn import_info(d: &ImportDecl) -> (r: ImportInfo)
    ensures
        describes_import(r, *d),
{
    let mut items: Vec<ImportItemInfo> = Vec::new();
    let mut i: usize = 0;
    while i < d.items.len()
        invariant
            i <= d.items@.len(),
            items@.len() == i,
            forall|k: int|
                0 <= k < i ==> (#[trigger] items@[k]).name@ == d.items@[k].name@ && items@[k].alias@ == d.items@[k].alias@,
        decreases d.items@.len() - i,
    {
        items.push(ImportItemInfo { name: d.items[i].name.clone(), alias: d.items[i].alias.clone() });
        i += 1;
    }
    ImportInfo { module: d.module.clone(), items }
}

/// The declarations of a parsed program, in source order, with types as text;
/// nothing is type-checked. When the parse failed (the tree holds a hole)
/// `ok` is false and the lists are empty.
pub fn collect_info(program: &Program, file: &str) -> (r: ProgramInfo)
    ensures
        r.file@ == file@,
        r.ok == !items_have_hole(program.items@),
        !r.ok ==> r.functions@.len() == 0 && r.enums@.len() == 0 && r.imports@.len() == 0,
        r.ok ==> r.functions@.len() == fn_decls(program.items@).len(),
        r.ok ==> forall|k: int|
            0 <= k < r.functions@.len() ==> describes_fn(#[trigger] r.functions@[k], fn_decls(program.items@)[k]),
        r.ok ==> r.enums@.len() == enum_decls(program.items@).len(),
        r.ok ==> forall|k: int|
            0 <= k < r.enums@.len() ==> describes_enum(#[trigger] r.enums@[k], enum_decls(program.items@)[k]),
        r.ok ==> r.imports@.len() == import_decls(program.items@).len(),
        r.ok ==> forall|k: int|
            0 <= k < r.imports@.len() ==> describes_import(#[trigger] r.imports@[k], import_decls(program.items@)[k]),
{
    if program.has_hole() {
        return ProgramInfo { file: owned(file), ok: false, functions: Vec::new(), enums: Vec::new(), imports: Vec::new() };
    }
    let mut functions: Vec<FnInfo> = Vec::new();
    let mut enums: Vec<EnumInfo> = Vec::new();
    let mut imports: Vec<ImportInfo> = Vec::new();
    let mut i: usize = 0;
    while i < program.items.len()
        invariant
            i <= program.items@.len(),
            functions@.len() == fn_decls(program.items@.take(i as int)).len(),
            forall|k: int|
                0 <= k < functions@.len() ==> describes_fn(#[trigger] functions@[k], fn_decls(program.items@.take(i as int))[k]),
            enums@.len() == enum_decls(program.items@.take(i as int)).len(),
            forall|k: int|
                0 <= k < enums@.len() ==> describes_enum(#[trigger] enums@[k], enum_decls(program.items@.take(i as int))[k]),
            imports@.len() == import_decls(program.items@.take(i as int)).len(),
            forall|k: int|
                0 <= k < imports@.len() ==> describes_import(
                    #[trigger] imports@[k],
                    import_decls(program.items@.take(i as int))[k],
                ),
        decreases program.items@.len() - i,
    {
        let ghost items = program.items@;
        assert(items.take(i + 1).drop_last() == items.take(i as int));
        assert(items.take(i + 1).last() == items[i as int]);
        match &program.items[i] {
            Item::Fn(f) => functions.push(fn_info(f)),
            Item::Enum(e) => enums.push(enum_info(e)),
            Item::Import(d) => imports.push(import_info(d)),
        }
        i += 1;
    }
    assert(program.items@.take(program.items@.len() as int) == program.items@);
    ProgramInfo { file: owned(file), ok: true, functions, enums, imports }
}

// ===== types as text =====

/// A type as source text: `Int`, `Option<T>`, `Result<T, E>`, `Name<A, B>`,
/// `{ x: Int, y: Int }`, `(Int, String)`.
pub open spec fn type_text(t: Type) -> Seq<char>
    decreases t,
{
    match t {
        Type::Int => "Int"@,
        Type::Float => "Float"@,
        Type::Bool => "Bool"@,
        Type::String => "String"@,
        Type::Unit => "Unit"@,
        Type::Named(n) => n@,
        Type::Option(inner) => "Option<"@ + type_text(*inner) + ">"@,
        Type::Result(ok, err) => "Result<"@ + type_text(*ok) + ", "@ + type_text(*err) + ">"@,
        Type::Generic(name, args) => if args@.len() == 0 {
            name@
        } else {
            name@ + "<"@ + types_text(args@) + ">"@
        },
        Type::Record(fields) => "{ "@ + fields_text(fields@) + " }"@,
        Type::Tuple(tys) => "("@ + types_text(tys@) + ")"@,
    }
}

/// Types as text, joined with `, `.
pub open spec fn types_text(ts: Seq<Type>) -> Seq<char>
    decreases ts,
{
    if ts.len() == 0 {
        Seq::empty()
    } else if ts.len() == 1 {
        type_text(ts[0])
    } else {
        types_text(ts.drop_last()) + ", "@ + type_text(ts.last())
    }
}

/// Record fields `name: type`, joined with `, `.
pub open spec fn fields_text(fs: Seq<(String, Type)>) -> Seq<char>
    decreases fs,
{
    if fs.len() == 0 {
        Seq::empty()
    } else if fs.len() == 1 {
        fs[0].0@ + ": "@ + type_text(fs[0].1)
    } else {
        fields_text(fs.drop_last()) + ", "@ + fs.last().0@ + ": "@ + type_text(fs.last().1)
    }
}


/// A type as source text.
pub fn type_to_string(t: &Type) -> (r: String)
    ensures
        r@ == type_text(*t),
    decreases t,
{
    let v = type_chars(t);
    string_of(&v)
}

fn type_chars(t: &Type) -> (r: Vec<char>)
    ensures
        r@ == type_text(*t),
    decreases t,
{
    match t {
        Type::Int => chars_of("Int"),
        Type::Float => chars_of("Float"),
        Type::Bool => chars_of("Bool"),
        Type::String => chars_of("String"),
        Type::Unit => chars_of("Unit"),
        Type::Named(n) => chars_of(n.as_str()),
        Type::Option(inner) => {
            let mut out = chars_of("Option<");
            let i = type_chars(inner);
            push_chars(&mut out, &i);
            push_lit(&mut out, ">");
            out
        },
        Type::Result(ok, err) => {
            let mut out = chars_of("Result<");
            let a = type_chars(ok);
            push_chars(&mut out, &a);
            push_lit(&mut out, ", ");
            let b = type_chars(err);
            push_chars(&mut out, &b);
            push_lit(&mut out, ">");
            out
        },
        Type::Generic(name, args) => {
            if args.len() == 0 {
                chars_of(name.as_str())
            } else {
                let mut out = chars_of(name.as_str());
                push_lit(&mut out, "<");
                let list = types_chars(args);
                push_chars(&mut out, &list);
                push_lit(&mut out, ">");
                out
            }
        },
        Type::Record(fields) => {
            let mut out = chars_of("{ ");
            let list = fields_chars(fields);
            push_chars(&mut out, &list);
            push_lit(&mut out, " }");
            out
        },
        Type::Tuple(tys) => {
            let mut out = chars_of("(");
            let list = types_chars(tys);
            push_chars(&mut out, &list);
            push_lit(&mut out, ")");
            out
        },
    }
}

fn types_chars(ts: &Vec<Type>) -> (r: Vec<char>)
    ensures
        r@ == types_text(ts@),
    decreases ts@,
{
    let mut list: Vec<char> = Vec::new();
    let mut i: usize = 0;
    while i < ts.len()
        invariant
            i <= ts@.len(),
            list@ == types_text(ts@.take(i as int)),
        decreases ts@.len() - i,
    {
        assert(ts@.take(i + 1).drop_last() == ts@.take(i as int));
        proof {
            assert(decreases_to!(ts@ => ts@[i as int]));
        }
        let item = type_chars(&ts[i]);
        if i > 0 {
            push_lit(&mut list, ", ");
        }
        push_chars(&mut list, &item);
        i += 1;
    }
    assert(ts@.take(ts@.len() as int) == ts@);
    list
}

fn fields_chars(fs: &Vec<(String, Type)>) -> (r: Vec<char>)
    ensures
        r@ == fields_text(fs@),
    decreases fs@,
{
    let mut list: Vec<char> = Vec::new();
    let mut i: usize = 0;
    while i < fs.len()
        invariant
            i <= fs@.len(),
            list@ == fields_text(fs@.take(i as int)),
        decreases fs@.len() - i,
    {
        assert(fs@.take(i + 1).drop_last() == fs@.take(i as int));
        proof {
            assert(decreases_to!(fs@ => fs@[i as int]));
        }
        let name = chars_of(fs[i].0.as_str());
        let ty = type_chars(&fs[i].1);
        if i > 0 {
            push_lit(&mut list, ", ");
        }
        push_chars(&mut list, &name);
        push_lit(&mut list, ": ");
        push_chars(&mut list, &ty);
        i += 1;
    }
    assert(fs@.take(fs@.len() as int) == fs@);
    list
}


// ===== JSON =====

pub open spec fn param_json(p: ParamInfo) -> Seq<char> {
    "        {\n"@ + "          \"name\": \""@ + escape_json(p.name@) + "\",\n"@ + "          \"type\": \""@
        + escape_json(p.ty@) + "\"\n"@ + "        }"@
}

pub open spec fn fn_json(f: FnInfo) -> Seq<char> {
    "    {\n"@ + "      \"name\": \""@ + escape_json(f.name@) + "\",\n"@ + "      \"params\": ["@ + (if f.params@.len()
        == 0 {
        "],\n"@
    } else {
        "\n"@ + sep_list(f.params@, f.params@.len() as int, |p: ParamInfo| param_json(p), ","@, "\n"@)
            + "      ],\n"@
    }) + (match f.ret_type {
        Some(rt) => "      \"ret_type\": \""@ + escape_json(rt@) + "\",\n"@,
        None => "      \"ret_type\": null,\n"@,
    }) + "      \"effects\": ["@ + join_with(f.effects@, |e: String| json_quoted(e), ", "@) + "],\n"@
        + "      \"is_main\": "@ + bool_text(f.is_main) + "\n"@ + "    }"@
}

pub open spec fn variant_json(v: VariantInfo) -> Seq<char> {
    "        {\n"@ + "          \"name\": \""@ + escape_json(v.name@) + "\",\n"@ + "          \"fields\": ["@
        + join_with(v.fields@, |e: String| json_quoted(e), ", "@) + "]\n"@ + "        }"@
}

pub open spec fn enum_json(e: EnumInfo) -> Seq<char> {
    "    {\n"@ + "      \"name\": \""@ + escape_json(e.name@) + "\",\n"@ + "      \"type_params\": ["@
        + join_with(e.type_params@, |e: String| json_quoted(e), ", "@) + "],\n"@ + "      \"variants\": ["@
        + (if e.variants@.len() == 0 {
        "]\n"@
    } else {
        "\n"@ + sep_list(e.variants@, e.variants@.len() as int, |v: VariantInfo| variant_json(v), ","@, "\n"@)
            + "      ]\n"@
    }) + "    }"@
}

pub open spec fn import_item_json(it: ImportItemInfo) -> Seq<char> {
    "        {\n"@ + "          \"name\": \""@ + escape_json(it.name@) + "\",\n"@ + "          \"alias\": \""@
        + escape_json(it.alias@) + "\"\n"@ + "        }"@
}

pub open spec fn import_json(imp: ImportInfo) -> Seq<char> {
    "    {\n"@ + "      \"module\": \""@ + escape_json(imp.module@) + "\",\n"@ + "      \"items\": ["@ + (if imp.items@.len()
        == 0 {
        "]\n"@
    } else {
        "\n"@ + sep_list(imp.items@, imp.items@.len() as int, |it: ImportItemInfo| import_item_json(it), ","@, "\n"@)
            + "      ]\n"@
    }) + "    }"@
}

pub open spec fn functions_section(xs: Seq<FnInfo>) -> Seq<char> {
    if xs.len() == 0 {
        "],\n"@
    } else {
        "\n"@ + sep_list(xs, xs.len() as int, |f: FnInfo| fn_json(f), ","@, "\n"@) + "  ],\n"@
    }
}

pub open spec fn enums_section(xs: Seq<EnumInfo>) -> Seq<char> {
    if xs.len() == 0 {
        "],\n"@
    } else {
        "\n"@ + sep_list(xs, xs.len() as int, |e: EnumInfo| enum_json(e), ","@, "\n"@) + "  ],\n"@
    }
}

pub open spec fn imports_section(xs: Seq<ImportInfo>) -> Seq<char> {
    if xs.len() == 0 {
        "]\n"@
    } else {
        "\n"@ + sep_list(xs, xs.len() as int, |i: ImportInfo| import_json(i), ","@, "\n"@) + "  ]\n"@
    }
}

/// The `lom-info/v1` document.
pub open spec fn info_json(info: ProgramInfo) -> Seq<char> {
    "{\n"@ + "  \"schema\": \"lom-info/v1\",\n"@ + "  \"file\": \""@ + escape_json(info.file@) + "\",\n"@ + "  \"ok\": "@
        + bool_text(info.ok) + ",\n"@ + "  \"functions\": ["@ + functions_section(info.functions@) + "  \"enums\": ["@
        + enums_section(info.enums@) + "  \"imports\": ["@ + imports_section(info.imports@) + "}\n"@
}

fn render_param(p: &ParamInfo) -> (r: Vec<char>)
    ensures
        r@ == param_json(*p),
{
    let mut out = chars_of("        {\n");
    push_lit(&mut out, "          \"name\": \"");
    let n = chars_of(p.name.as_str());
    push_json_escaped(&mut out, &n);
    push_lit(&mut out, "\",\n");
    push_lit(&mut out, "          \"type\": \"");
    let t = chars_of(p.ty.as_str());
    push_json_escaped(&mut out, &t);
    push_lit(&mut out, "\"\n");
    push_lit(&mut out, "        }");
    out
}

fn render_params(ps: &Vec<ParamInfo>) -> (r: Vec<char>)
    ensures
        r@ == sep_list(ps@, ps@.len() as int, |p: ParamInfo| param_json(p), ","@, "\n"@),
{
    let n = ps.len();
    let ghost f = |p: ParamInfo| param_json(p);
    let mut list: Vec<char> = Vec::new();
    let mut i: usize = 0;
    while i < n
        invariant
            n == ps@.len(),
            i <= n,
            f == (|p: ParamInfo| param_json(p)),
            list@ == sep_list(ps@.take(i as int), n as int, f, ","@, "\n"@),
        decreases n - i,
    {
        proof {
            lemma_sep_list_step(ps@, i as int, n as int, f, ","@, "\n"@);
        }
        let item = render_param(&ps[i]);
        push_chars(&mut list, &item);
        if i + 1 < n {
            push_lit(&mut list, ",");
        } else {
            assert(list@ + Seq::<char>::empty() =~= list@);
        }
        push_lit(&mut list, "\n");
        i += 1;
    }
    assert(ps@.take(n as int) == ps@);
    list
}

#[verifier::spinoff_prover]
#[verifier::rlimit(40)]
fn render_fn(f: &FnInfo) -> (r: Vec<char>)
    ensures
        r@ == fn_json(*f),
{
    let mut out = chars_of("    {\n");
    push_lit(&mut out, "      \"name\": \"");
    let n = chars_of(f.name.as_str());
    push_json_escaped(&mut out, &n);
    push_lit(&mut out, "\",\n");
    push_lit(&mut out, "      \"params\": [");
    if f.params.len() == 0 {
        push_lit(&mut out, "],\n");
    } else {
        push_lit(&mut out, "\n");
        let ps = render_params(&f.params);
        push_chars(&mut out, &ps);
        push_lit(&mut out, "      ],\n");
    }
    match &f.ret_type {
        Some(rt) => {
            push_lit(&mut out, "      \"ret_type\": \"");
            let t = chars_of(rt.as_str());
            push_json_escaped(&mut out, &t);
            push_lit(&mut out, "\",\n");
        },
        None => {
            push_lit(&mut out, "      \"ret_type\": null,\n");
        },
    }
    push_lit(&mut out, "      \"effects\": [");
    let es = join_quoted(&f.effects);
    push_chars(&mut out, &es);
    push_lit(&mut out, "],\n");
    push_lit(&mut out, "      \"is_main\": ");
    push_bool(&mut out, f.is_main);
    push_lit(&mut out, "\n");
    push_lit(&mut out, "    }");
    out
}

fn render_variant(v: &VariantInfo) -> (r: Vec<char>)
    ensures
        r@ == variant_json(*v),
{
    let mut out = chars_of("        {\n");
    push_lit(&mut out, "          \"name\": \"");
    let n = chars_of(v.name.as_str());
    push_json_escaped(&mut out, &n);
    push_lit(&mut out, "\",\n");
    push_lit(&mut out, "          \"fields\": [");
    let fs = join_quoted(&v.fields);
    push_chars(&mut out, &fs);
    push_lit(&mut out, "]\n");
    push_lit(&mut out, "        }");
    out
}

fn render_variants(vs: &Vec<VariantInfo>) -> (r: Vec<char>)
    ensures
        r@ == sep_list(vs@, vs@.len() as int, |v: VariantInfo| variant_json(v), ","@, "\n"@),
{
    let n = vs.len();
    let ghost f = |v: VariantInfo| variant_json(v);
    let mut list: Vec<char> = Vec::new();
    let mut i: usize = 0;
    while i < n
        invariant
            n == vs@.len(),
            i <= n,
            f == (|v: VariantInfo| variant_json(v)),
            list@ == sep_list(vs@.take(i as int), n as int, f, ","@, "\n"@),
        decreases n - i,
    {
        proof {
            lemma_sep_list_step(vs@, i as int, n as int, f, ","@, "\n"@);
        }
        let item = render_variant(&vs[i]);
        push_chars(&mut list, &item);
        if i + 1 < n {
            push_lit(&mut list, ",");
        } else {
            assert(list@ + Seq::<char>::empty() =~= list@);
        }
        push_lit(&mut list, "\n");
        i += 1;
    }
    assert(vs@.take(n as int) == vs@);
    list
}

fn render_enum(e: &EnumInfo) -> (r: Vec<char>)
    ensures
        r@ == enum_json(*e),
{
    let mut out = chars_of("    {\n");
    push_lit(&mut out, "      \"name\": \"");
    let n = chars_of(e.name.as_str());
    push_json_escaped(&mut out, &n);
    push_lit(&mut out, "\",\n");
    push_lit(&mut out, "      \"type_params\": [");
    let tps = join_quoted(&e.type_params);
    push_chars(&mut out, &tps);
    push_lit(&mut out, "],\n");
    push_lit(&mut out, "      \"variants\": [");
    if e.variants.len() == 0 {
        push_lit(&mut out, "]\n");
    } else {
        push_lit(&mut out, "\n");
        let vs = render_variants(&e.variants);
        push_chars(&mut out, &vs);
        push_lit(&mut out, "      ]\n");
    }
    push_lit(&mut out, "    }");
    out
}

fn render_import_item(it: &ImportItemInfo) -> (r: Vec<char>)
    ensures
        r@ == import_item_json(*it),
{
    let mut out = chars_of("        {\n");
    push_lit(&mut out, "          \"name\": \"");
    let n = chars_of(it.name.as_str());
    push_json_escaped(&mut out, &n);
    push_lit(&mut out, "\",\n");
    push_lit(&mut out, "          \"alias\": \"");
    let a = chars_of(it.alias.as_str());
    push_json_escaped(&mut out, &a);
    push_lit(&mut out, "\"\n");
    push_lit(&mut out, "        }");
    out
}

fn render_import_items(xs: &Vec<ImportItemInfo>) -> (r: Vec<char>)
    ensures
        r@ == sep_list(xs@, xs@.len() as int, |it: ImportItemInfo| import_item_json(it), ","@, "\n"@),
{
    let n = xs.len();
    let ghost f = |it: ImportItemInfo| import_item_json(it);
    let mut list: Vec<char> = Vec::new();
    let mut i: usize = 0;
    while i < n
        invariant
            n == xs@.len(),
            i <= n,
            f == (|it: ImportItemInfo| import_item_json(it)),
            list@ == sep_list(xs@.take(i as int), n as int, f, ","@, "\n"@),
        decreases n - i,
    {
        proof {
            lemma_sep_list_step(xs@, i as int, n as int, f, ","@, "\n"@);
        }
        let item = render_import_item(&xs[i]);
        push_chars(&mut list, &item);
        if i + 1 < n {
            push_lit(&mut list, ",");
        } else {
            assert(list@ + Seq::<char>::empty() =~= list@);
        }
        push_lit(&mut list, "\n");
        i += 1;
    }
    assert(xs@.take(n as int) == xs@);
    list
}

fn render_import(imp: &ImportInfo) -> (r: Vec<char>)
    ensures
        r@ == import_json(*imp),
{
    let mut out = chars_of("    {\n");
    push_lit(&mut out, "      \"module\": \"");
    let m = chars_of(imp.module.as_str());
    push_json_escaped(&mut out, &m);
    push_lit(&mut out, "\",\n");
    push_lit(&mut out, "      \"items\": [");
    if imp.items.len() == 0 {
        push_lit(&mut out, "]\n");
    } else {
        push_lit(&mut out, "\n");
        let xs = render_import_items(&imp.items);
        push_chars(&mut out, &xs);
        push_lit(&mut out, "      ]\n");
    }
    push_lit(&mut out, "    }");
    out
}

fn render_fns(xs: &Vec<FnInfo>) -> (r: Vec<char>)
    ensures
        r@ == sep_list(xs@, xs@.len() as int, |f: FnInfo| fn_json(f), ","@, "\n"@),
{
    let n = xs.len();
    let ghost f = |f: FnInfo| fn_json(f);
    let mut list: Vec<char> = Vec::new();
    let mut i: usize = 0;
    while i < n
        invariant
            n == xs@.len(),
            i <= n,
            f == (|f: FnInfo| fn_json(f)),
            list@ == sep_list(xs@.take(i as int), n as int, f, ","@, "\n"@),
        decreases n - i,
    {
        proof {
            lemma_sep_list_step(xs@, i as int, n as int, f, ","@, "\n"@);
        }
        let item = render_fn(&xs[i]);
        push_chars(&mut list, &item);
        if i + 1 < n {
            push_lit(&mut list, ",");
        } else {
            assert(list@ + Seq::<char>::empty() =~= list@);
        }
        push_lit(&mut list, "\n");
        i += 1;
    }
    assert(xs@.take(n as int) == xs@);
    list
}

fn render_enums(xs: &Vec<EnumInfo>) -> (r: Vec<char>)
    ensures
        r@ == sep_list(xs@, xs@.len() as int, |e: EnumInfo| enum_json(e), ","@, "\n"@),
{
    let n = xs.len();
    let ghost f = |e: EnumInfo| enum_json(e);
    let mut list: Vec<char> = Vec::new();
    let mut i: usize = 0;
    while i < n
        invariant
            n == xs@.len(),
            i <= n,
            f == (|e: EnumInfo| enum_json(e)),
            list@ == sep_list(xs@.take(i as int), n as int, f, ","@, "\n"@),
        decreases n - i,
    {
        proof {
            lemma_sep_list_step(xs@, i as int, n as int, f, ","@, "\n"@);
        }
        let item = render_enum(&xs[i]);
        push_chars(&mut list, &item);
        if i + 1 < n {
            push_lit(&mut list, ",");
        } else {
            assert(list@ + Seq::<char>::empty() =~= list@);
        }
        push_lit(&mut list, "\n");
        i += 1;
    }
    assert(xs@.take(n as int) == xs@);
    list
}

fn render_imports(xs: &Vec<ImportInfo>) -> (r: Vec<char>)
    ensures
        r@ == sep_list(xs@, xs@.len() as int, |i: ImportInfo| import_json(i), ","@, "\n"@),
{
    let n = xs.len();
    let ghost f = |i: ImportInfo| import_json(i);
    let mut list: Vec<char> = Vec::new();
    let mut i: usize = 0;
    while i < n
        invariant
            n == xs@.len(),
            i <= n,
            f == (|i: ImportInfo| import_json(i)),
            list@ == sep_list(xs@.take(i as int), n as int, f, ","@, "\n"@),
        decreases n - i,
    {
        proof {
            lemma_sep_list_step(xs@, i as int, n as int, f, ","@, "\n"@);
        }
        let item = render_import(&xs[i]);
        push_chars(&mut list, &item);
        if i + 1 < n {
            push_lit(&mut list, ",");
        } else {
            assert(list@ + Seq::<char>::empty() =~= list@);
        }
        push_lit(&mut list, "\n");
        i += 1;
    }
    assert(xs@.take(n as int) == xs@);
    list
}

fn render_functions_section(xs: &Vec<FnInfo>) -> (r: Vec<char>)
    ensures
        r@ == functions_section(xs@),
{
    if xs.len() == 0 {
        chars_of("],\n")
    } else {
        let mut out = chars_of("\n");
        let l = render_fns(xs);
        push_chars(&mut out, &l);
        push_lit(&mut out, "  ],\n");
        out
    }
}

fn render_enums_section(xs: &Vec<EnumInfo>) -> (r: Vec<char>)
    ensures
        r@ == enums_section(xs@),
{
    if xs.len() == 0 {
        chars_of("],\n")
    } else {
        let mut out = chars_of("\n");
        let l = render_enums(xs);
        push_chars(&mut out, &l);
        push_lit(&mut out, "  ],\n");
        out
    }
}

fn render_imports_section(xs: &Vec<ImportInfo>) -> (r: Vec<char>)
    ensures
        r@ == imports_section(xs@),
{
    if xs.len() == 0 {
        chars_of("]\n")
    } else {
        let mut out = chars_of("\n");
        let l = render_imports(xs);
        push_chars(&mut out, &l);
        push_lit(&mut out, "  ]\n");
        out
    }
}

/// The `lom-info/v1` JSON document.
pub fn to_json(info: &ProgramInfo) -> (r: String)
    ensures
        r@ == info_json(*info),
{
    let mut out = chars_of("{\n");
    push_lit(&mut out, "  \"schema\": \"lom-info/v1\",\n");
    push_lit(&mut out, "  \"file\": \"");
    let f = chars_of(info.file.as_str());
    push_json_escaped(&mut out, &f);
    push_lit(&mut out, "\",\n");
    push_lit(&mut out, "  \"ok\": ");
    push_bool(&mut out, info.ok);
    push_lit(&mut out, ",\n");
    push_lit(&mut out, "  \"functions\": [");
    let a = render_functions_section(&info.functions);
    push_chars(&mut out, &a);
    push_lit(&mut out, "  \"enums\": [");
    let b = render_enums_section(&info.enums);
    push_chars(&mut out, &b);
    push_lit(&mut out, "  \"imports\": [");
    let c = render_imports_section(&info.imports);
    push_chars(&mut out, &c);
    push_lit(&mut out, "}\n");
    string_of(&out)
}


// ===== human-readable listing =====

pub open spec fn param_human(p: ParamInfo) -> Seq<char> {
    p.name@ + ": "@ + p.ty@
}

pub open spec fn fn_human(f: FnInfo) -> Seq<char> {
    "  fn "@ + f.name@ + "("@ + join_with(f.params@, |p: ParamInfo| param_human(p), ", "@) + ") -> "@
        + (match f.ret_type {
        Some(rt) => rt@,
        None => "?"@,
    }) + (if f.effects@.len() == 0 {
        Seq::empty()
    } else {
        " ! ["@ + join_with(f.effects@, |s: String| str_view(s), ", "@) + "]"@
    }) + (if f.is_main { " (main)"@ } else { Seq::empty() }) + "\n"@
}

pub open spec fn variant_human(v: VariantInfo) -> Seq<char> {
    if v.fields@.len() == 0 {
        "    "@ + v.name@ + "\n"@
    } else {
        "    "@ + v.name@ + "("@ + join_with(v.fields@, |s: String| str_view(s), ", "@) + ")\n"@
    }
}

pub open spec fn enum_human(e: EnumInfo) -> Seq<char> {
    "  enum "@ + e.name@ + (if e.type_params@.len() == 0 {
        Seq::empty()
    } else {
        "<"@ + join_with(e.type_params@, |s: String| str_view(s), ", "@) + ">"@
    }) + "\n"@ + sep_list(e.variants@, 0, |v: VariantInfo| variant_human(v), Seq::empty(), Seq::empty())
}

pub open spec fn import_item_human(it: ImportItemInfo) -> Seq<char> {
    if it.name@ == it.alias@ {
        it.name@
    } else {
        it.name@ + " as "@ + it.alias@
    }
}

pub open spec fn import_human(imp: ImportInfo) -> Seq<char> {
    "  from "@ + imp.module@ + " import {"@ + join_with(imp.items@, |it: ImportItemInfo| import_item_human(it), ", "@)
        + "}\n"@
}

/// The listing: a header, every function, then enums and imports when any.
pub open spec fn info_human(info: ProgramInfo) -> Seq<char> {
    "=== "@ + info.file@ + " ===\n"@ + "\n[functions] ("@ + dec(info.functions@.len()) + "):\n"@ + sep_list(
        info.functions@,
        0,
        |f: FnInfo| fn_human(f),
        Seq::empty(),
        Seq::empty(),
    ) + (if info.enums@.len() == 0 {
        Seq::empty()
    } else {
        "\n[enums] ("@ + dec(info.enums@.len()) + "):\n"@ + sep_list(
            info.enums@,
            0,
            |e: EnumInfo| enum_human(e),
            Seq::empty(),
            Seq::empty(),
        )
    }) + (if info.imports@.len() == 0 {
        Seq::empty()
    } else {
        "\n[imports] ("@ + dec(info.imports@.len()) + "):\n"@ + sep_list(
            info.imports@,
            0,
            |i: ImportInfo| import_human(i),
            Seq::empty(),
            Seq::empty(),
        )
    })
}

fn human_fn(f: &FnInfo) -> (r: Vec<char>)
    ensures
        r@ == fn_human(*f),
{
    let mut out = chars_of("  fn ");
    let n = chars_of(f.name.as_str());
    push_chars(&mut out, &n);
    push_lit(&mut out, "(");
    let ghost g = |p: ParamInfo| param_human(p);
    let mut ps: Vec<char> = Vec::new();
    let mut i: usize = 0;
    while i < f.params.len()
        invariant
            i <= f.params@.len(),
            g == (|p: ParamInfo| param_human(p)),
            ps@ == join_with(f.params@.take(i as int), g, ", "@),
        decreases f.params@.len() - i,
    {
        proof {
            lemma_join_with_step(f.params@, i as int, g, ", "@);
        }
        if i > 0 {
            push_lit(&mut ps, ", ");
        } else {
            assert(ps@ + Seq::<char>::empty() == ps@);
        }
        let ghost mid = ps@;
        let pn = chars_of(f.params[i].name.as_str());
        push_chars(&mut ps, &pn);
        push_lit(&mut ps, ": ");
        let pt = chars_of(f.params[i].ty.as_str());
        push_chars(&mut ps, &pt);
        assert(ps@ == mid + param_human(f.params@[i as int]));
        i += 1;
    }
    assert(f.params@.take(f.params@.len() as int) == f.params@);
    push_chars(&mut out, &ps);
    push_lit(&mut out, ") -> ");
    match &f.ret_type {
        Some(rt) => {
            let t = chars_of(rt.as_str());
            push_chars(&mut out, &t);
        },
        None => {
            push_lit(&mut out, "?");
        },
    }
    if f.effects.len() > 0 {
        push_lit(&mut out, " ! [");
        let es = join_strs(&f.effects, ", ");
        push_chars(&mut out, &es);
        push_lit(&mut out, "]");
    } else {
        assert(out@ + Seq::<char>::empty() == out@);
    }
    if f.is_main {
        push_lit(&mut out, " (main)");
    } else {
        assert(out@ + Seq::<char>::empty() == out@);
    }
    push_lit(&mut out, "\n");
    out
}

fn human_enum(e: &EnumInfo) -> (r: Vec<char>)
    ensures
        r@ == enum_human(*e),
{
    let mut out = chars_of("  enum ");
    let n = chars_of(e.name.as_str());
    push_chars(&mut out, &n);
    if e.type_params.len() > 0 {
        push_lit(&mut out, "<");
        let tps = join_strs(&e.type_params, ", ");
        push_chars(&mut out, &tps);
        push_lit(&mut out, ">");
    } else {
        assert(out@ + Seq::<char>::empty() == out@);
    }
    push_lit(&mut out, "\n");
    let ghost g = |v: VariantInfo| variant_human(v);
    let mut vs: Vec<char> = Vec::new();
    let mut i: usize = 0;
    while i < e.variants.len()
        invariant
            i <= e.variants@.len(),
            g == (|v: VariantInfo| variant_human(v)),
            vs@ == sep_list(e.variants@.take(i as int), 0, g, Seq::empty(), Seq::empty()),
        decreases e.variants@.len() - i,
    {
        proof {
            lemma_sep_list_step(e.variants@, i as int, 0, g, Seq::empty(), Seq::empty());
        }
        let ghost before = vs@;
        let v = &e.variants[i];
        push_lit(&mut vs, "    ");
        let vn = chars_of(v.name.as_str());
        push_chars(&mut vs, &vn);
        if v.fields.len() == 0 {
            push_lit(&mut vs, "\n");
        } else {
            push_lit(&mut vs, "(");
            let fs = join_strs(&v.fields, ", ");
            push_chars(&mut vs, &fs);
            push_lit(&mut vs, ")\n");
        }
        assert(vs@ == before + variant_human(*v) + Seq::<char>::empty() + Seq::<char>::empty());
        i += 1;
    }
    assert(e.variants@.take(e.variants@.len() as int) == e.variants@);
    push_chars(&mut out, &vs);
    out
}

fn human_import(imp: &ImportInfo) -> (r: Vec<char>)
    ensures
        r@ == import_human(*imp),
{
    let mut out = chars_of("  from ");
    let m = chars_of(imp.module.as_str());
    push_chars(&mut out, &m);
    push_lit(&mut out, " import {");
    let ghost g = |it: ImportItemInfo| import_item_human(it);
    let mut xs: Vec<char> = Vec::new();
    let mut i: usize = 0;
    while i < imp.items.len()
        invariant
            i <= imp.items@.len(),
            g == (|it: ImportItemInfo| import_item_human(it)),
            xs@ == join_with(imp.items@.take(i as int), g, ", "@),
        decreases imp.items@.len() - i,
    {
        proof {
            lemma_join_with_step(imp.items@, i as int, g, ", "@);
        }
        if i > 0 {
            push_lit(&mut xs, ", ");
        } else {
            assert(xs@ + Seq::<char>::empty() == xs@);
        }
        let ghost mid = xs@;
        let it = &imp.items[i];
        let nm = chars_of(it.name.as_str());
        let al = chars_of(it.alias.as_str());
        push_chars(&mut xs, &nm);
        if !crate::text::chars_eq(&nm, &al) {
            push_lit(&mut xs, " as ");
            push_chars(&mut xs, &al);
        } else {
            assert(xs@ == mid + nm@);
        }
        assert(xs@ == mid + import_item_human(*it));
        i += 1;
    }
    assert(imp.items@.take(imp.items@.len() as int) == imp.items@);
    push_chars(&mut out, &xs);
    push_lit(&mut out, "}\n");
    out
}

/// The short listing shown without `--json`.
#[verifier::spinoff_prover]
#[verifier::rlimit(40)]
pub fn to_human(info: &ProgramInfo) -> (r: String)
    ensures
        r@ == info_human(*info),
{
    let mut out = chars_of("=== ");
    let f = chars_of(info.file.as_str());
    push_chars(&mut out, &f);
    push_lit(&mut out, " ===\n");
    push_lit(&mut out, "\n[functions] (");
    push_usize(&mut out, info.functions.len());
    push_lit(&mut out, "):\n");
    let ghost g1 = |f: FnInfo| fn_human(f);
    let mut fl: Vec<char> = Vec::new();
    let mut i: usize = 0;
    while i < info.functions.len()
        invariant
            i <= info.functions@.len(),
            g1 == (|f: FnInfo| fn_human(f)),
            fl@ == sep_list(info.functions@.take(i as int), 0, g1, Seq::empty(), Seq::empty()),
        decreases info.functions@.len() - i,
    {
        proof {
            lemma_sep_list_step(info.functions@, i as int, 0, g1, Seq::empty(), Seq::empty());
        }
        let item = human_fn(&info.functions[i]);
        let ghost before = fl@;
        push_chars(&mut fl, &item);
        assert(fl@ == before + item@ + Seq::<char>::empty() + Seq::<char>::empty());
        i += 1;
    }
    assert(info.functions@.take(info.functions@.len() as int) == info.functions@);
    push_chars(&mut out, &fl);
    if info.enums.len() > 0 {
        push_lit(&mut out, "\n[enums] (");
        push_usize(&mut out, info.enums.len());
        push_lit(&mut out, "):\n");
        let ghost g2 = |e: EnumInfo| enum_human(e);
        let mut el: Vec<char> = Vec::new();
        let mut i: usize = 0;
        while i < info.enums.len()
            invariant
                i <= info.enums@.len(),
                g2 == (|e: EnumInfo| enum_human(e)),
                el@ == sep_list(info.enums@.take(i as int), 0, g2, Seq::empty(), Seq::empty()),
            decreases info.enums@.len() - i,
        {
            proof {
                lemma_sep_list_step(info.enums@, i as int, 0, g2, Seq::empty(), Seq::empty());
            }
            let item = human_enum(&info.enums[i]);
            let ghost before = el@;
            push_chars(&mut el, &item);
            assert(el@ == before + item@ + Seq::<char>::empty() + Seq::<char>::empty());
            i += 1;
        }
        assert(info.enums@.take(info.enums@.len() as int) == info.enums@);
        push_chars(&mut out, &el);
    } else {
        assert(out@ + Seq::<char>::empty() == out@);
    }
    if info.imports.len() > 0 {
        push_lit(&mut out, "\n[imports] (");
        push_usize(&mut out, info.imports.len());
        push_lit(&mut out, "):\n");
        let ghost g3 = |i: ImportInfo| import_human(i);
        let mut il: Vec<char> = Vec::new();
        let mut i: usize = 0;
        while i < info.imports.len()
            invariant
                i <= info.imports@.len(),
                g3 == (|i: ImportInfo| import_human(i)),
                il@ == sep_list(info.imports@.take(i as int), 0, g3, Seq::empty(), Seq::empty()),
            decreases info.imports@.len() - i,
        {
            proof {
                lemma_sep_list_step(info.imports@, i as int, 0, g3, Seq::empty(), Seq::empty());
            }
            let item = human_import(&info.imports[i]);
            let ghost before = il@;
            push_chars(&mut il, &item);
            assert(il@ == before + item@ + Seq::<char>::empty() + Seq::<char>::empty());
            i += 1;
        }
        assert(info.imports@.take(info.imports@.len() as int) == info.imports@);
        push_chars(&mut out, &il);
    } else {
        assert(out@ + Seq::<char>::empty() == out@);
    }
    string_of(&out)
}

} // verus!

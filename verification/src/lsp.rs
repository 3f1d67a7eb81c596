//! Language-server messages: JSON-RPC framing and fields, and diagnostics as
//! LSP `publishDiagnostics` notifications.
use vstd::prelude::*;
use vstd::string::StringSliceAdditionalSpecFns;
use vstd::utf8::encode_utf8;
use crate::ast::{EnumDecl, FnDecl, Item, Param, Program, Type};
use crate::diagnostics::{Diagnostic, Severity};
use crate::info::{type_text, type_to_string, types_text};
use crate::fix_history::{closing_quote, lemma_find_in_bounds, string_body_end};
use crate::text::{
    chars_of, dec, dec_i64, join_strs, owned, dec_int, find_sub, find_sub_from, join_with, lemma_join_with_step, push_chars, push_lit,
    push_usize, replace_all, replace_lit, slice_chars, str_view, string_of,
};

verus! {

/// Hover text, in Markdown.
#[derive(Debug, Clone, PartialEq)]
pub struct HoverResult {
    pub content: String,
}

/// A completion candidate.
pub struct CompletionItem {
    pub label: String,
    pub kind: CompletionKind,
    pub detail: Option<String>,
}

/// Completion kinds (a subset of LSP's `CompletionItemKind`).
#[derive(Debug, Clone, Copy, PartialEq, Eq, Structural)]
pub enum CompletionKind {
    Function,
    Enum,
    Variant,
    Keyword,
    Module,
}

impl CompletionKind {
    /// The LSP `CompletionItemKind` number.
    pub fn as_lsp_number(&self) -> (r: u32)
        ensures
            r == match *self {
                CompletionKind::Function => 3u32,
                CompletionKind::Enum => 13u32,
                CompletionKind::Variant => 22u32,
                CompletionKind::Keyword => 14u32,
                CompletionKind::Module => 9u32,
            },
    {
        match self {
            CompletionKind::Function => 3,
            CompletionKind::Enum => 13,
            CompletionKind::Variant => 22,
            CompletionKind::Keyword => 14,
            CompletionKind::Module => 9,
        }
    }
}

// ===== hover =====

/// A parameter as `name: type`.
pub open spec fn param_sig(p: Param) -> Seq<char> {
    p.name@ + ": "@ + type_text(p.ty)
}

/// A function's signature: `fn name(params) -> ret`, `Unit` when no return
/// type is written.
pub open spec fn fn_sig_text(f: FnDecl) -> Seq<char> {
    "fn "@ + f.name@ + "("@ + join_with(f.params@, |p: Param| param_sig(p), ", "@) + ") -> "@ + match f.ret_type {
        Some(t) => type_text(t),
        None => "Unit"@,
    }
}

/// ` ! [E1, E2]` after a signature, nothing for a pure function.
pub open spec fn effects_suffix(es: Seq<String>) -> Seq<char> {
    if es.len() == 0 {
        Seq::empty()
    } else {
        " ! ["@ + join_with(es, |e: String| str_view(e), ", "@) + "]"@
    }
}

/// A function's signature and effects as hover text, in a `lom` code block.
pub open spec fn fn_hover_text(f: FnDecl) -> Seq<char> {
    "```lom\n"@ + fn_sig_text(f) + effects_suffix(f.effects@) + "\n```"@
}

/// A variant line of an enum's hover text.
pub open spec fn variant_hover_line(v: crate::ast::EnumVariantDecl) -> Seq<char> {
    if v.fields@.len() == 0 {
        "  "@ + v.name@
    } else {
        "  "@ + v.name@ + "("@ + types_text(v.fields@) + ")"@
    }
}

/// An enum's definition as hover text, in a `lom` code block.
pub open spec fn enum_hover_text(e: EnumDecl) -> Seq<char> {
    "```lom\nenum "@ + e.name@ + (if e.type_params@.len() == 0 {
        Seq::empty()
    } else {
        "<"@ + join_with(e.type_params@, |n: String| str_view(n), ", "@) + ">"@
    }) + "\n"@ + join_with(e.variants@, |v: crate::ast::EnumVariantDecl| variant_hover_line(v), "\n"@) + "\n```"@
}

/// Whether 1-based `(line, col)` falls on a declaration's name: on the line
/// of its span, from `skip` characters after the span's column to the end of
/// the name (`name_len` bytes) inclusive.
pub open spec fn on_name(span_line: int, span_col: int, skip: int, name_len: int, line: int, col: int) -> bool {
    span_line == line && col >= span_col && span_col + skip <= col <= span_col + skip + name_len
}

/// The hover text for 1-based `(line, col)`: that of the first function
/// (after `fn `) or enum (after `enum `) from item `k` on whose name the
/// position falls.
pub open spec fn hover_from(items: Seq<Item>, line: int, col: int, k: int) -> Option<Seq<char>>
    decreases items.len() - k,
{
    if k < 0 || k >= items.len() {
        None
    } else {
        match items[k] {
            Item::Fn(f) => if on_name(f.span.line as int, f.span.col as int, 3, encode_utf8(f.name@).len() as usize as int, line, col) {
                Some(fn_hover_text(f))
            } else {
                hover_from(items, line, col, k + 1)
            },
            Item::Enum(e) => if on_name(e.span.line as int, e.span.col as int, 5, encode_utf8(e.name@).len() as usize as int, line, col) {
                Some(enum_hover_text(e))
            } else {
                hover_from(items, line, col, k + 1)
            },
            Item::Import(_) => hover_from(items, line, col, k + 1),
        }
    }
}

pub(crate) fn params_sig_chars(ps: &Vec<Param>) -> (r: Vec<char>)
    ensures
        r@ == join_with(ps@, |p: Param| param_sig(p), ", "@),
{
    let ghost f = |p: Param| param_sig(p);
    let mut r: Vec<char> = Vec::new();
    let mut i: usize = 0;
    while i < ps.len()
        invariant
            i <= ps@.len(),
            f == (|p: Param| param_sig(p)),
            r@ == join_with(ps@.take(i as int), f, ", "@),
        decreases ps@.len() - i,
    {
        proof {
            lemma_join_with_step(ps@, i as int, f, ", "@);
        }
        if i > 0 {
            push_lit(&mut r, ", ");
        } else {
            assert(r@ + Seq::<char>::empty() == r@);
        }
        let mut one = chars_of(ps[i].name.as_str());
        push_lit(&mut one, ": ");
        push_chars(&mut one, &chars_of(type_to_string(&ps[i].ty).as_str()));
        push_chars(&mut r, &one);
        i += 1;
    }
    assert(ps@.take(ps@.len() as int) == ps@);
    r
}

fn fn_sig_chars(f: &FnDecl) -> (r: Vec<char>)
    ensures
        r@ == fn_sig_text(*f),
{
    let mut t = chars_of("fn ");
    push_chars(&mut t, &chars_of(f.name.as_str()));
    push_lit(&mut t, "(");
    push_chars(&mut t, &params_sig_chars(&f.params));
    push_lit(&mut t, ") -> ");
    match &f.ret_type {
        Some(ty) => push_chars(&mut t, &chars_of(type_to_string(ty).as_str())),
        None => push_lit(&mut t, "Unit"),
    }
    t
}

fn effects_suffix_chars(es: &Vec<String>) -> (r: Vec<char>)
    ensures
        r@ == effects_suffix(es@),
{
    if es.len() > 0 {
        let mut t = chars_of(" ! [");
        push_chars(&mut t, &join_strs(es.as_slice(), ", "));
        push_lit(&mut t, "]");
        t
    } else {
        Vec::new()
    }
}

fn variants_hover_chars(vs: &Vec<crate::ast::EnumVariantDecl>) -> (r: Vec<char>)
    ensures
        r@ == join_with(vs@, |v: crate::ast::EnumVariantDecl| variant_hover_line(v), "\n"@),
{
    let ghost f = |v: crate::ast::EnumVariantDecl| variant_hover_line(v);
    let mut r: Vec<char> = Vec::new();
    let mut i: usize = 0;
    while i < vs.len()
        invariant
            i <= vs@.len(),
            f == (|v: crate::ast::EnumVariantDecl| variant_hover_line(v)),
            r@ == join_with(vs@.take(i as int), f, "\n"@),
        decreases vs@.len() - i,
    {
        proof {
            lemma_join_with_step(vs@, i as int, f, "\n"@);
        }
        if i > 0 {
            push_lit(&mut r, "\n");
        } else {
            assert(r@ + Seq::<char>::empty() == r@);
        }
        let mut one = chars_of("  ");
        push_chars(&mut one, &chars_of(vs[i].name.as_str()));
        if vs[i].fields.len() > 0 {
            push_lit(&mut one, "(");
            push_chars(&mut one, &types_chars_of(&vs[i].fields));
            push_lit(&mut one, ")");
        }
        push_chars(&mut r, &one);
        i += 1;
    }
    assert(vs@.take(vs@.len() as int) == vs@);
    r
}

fn types_chars_of(ts: &Vec<Type>) -> (r: Vec<char>)
    ensures
        r@ == types_text(ts@),
{
    let mut r: Vec<char> = Vec::new();
    let mut i: usize = 0;
    while i < ts.len()
        invariant
            i <= ts@.len(),
            r@ == types_text(ts@.take(i as int)),
        decreases ts@.len() - i,
    {
        assert(ts@.take(i + 1).drop_last() == ts@.take(i as int));
        if i > 0 {
            push_lit(&mut r, ", ");
        }
        push_chars(&mut r, &chars_of(type_to_string(&ts[i]).as_str()));
        i += 1;
    }
    assert(ts@.take(ts@.len() as int) == ts@);
    r
}

fn fn_hover(f: &FnDecl) -> (r: HoverResult)
    ensures
        r.content@ == fn_hover_text(*f),
{
    let mut out = chars_of("```lom\n");
    push_chars(&mut out, &fn_sig_chars(f));
    push_chars(&mut out, &effects_suffix_chars(&f.effects));
    push_lit(&mut out, "\n```");
    HoverResult { content: string_of(&out) }
}

fn enum_hover(e: &EnumDecl) -> (r: HoverResult)
    ensures
        r.content@ == enum_hover_text(*e),
{
    let mut out = chars_of("```lom\nenum ");
    push_chars(&mut out, &chars_of(e.name.as_str()));
    if e.type_params.len() > 0 {
        push_lit(&mut out, "<");
        push_chars(&mut out, &join_strs(e.type_params.as_slice(), ", "));
        push_lit(&mut out, ">");
    }
    push_lit(&mut out, "\n");
    push_chars(&mut out, &variants_hover_chars(&e.variants));
    push_lit(&mut out, "\n```");
    HoverResult { content: string_of(&out) }
}

/// Hover over a parsed program at a 0-based LSP position: the signature of
/// the function, or the definition of the enum, whose name is under the
/// position (the first that matches), or nothing.
pub fn handle_hover(program: &Program, line_0based: usize, col_0based: usize) -> (r: Option<HoverResult>)
    requires
        line_0based < usize::MAX,
        col_0based < usize::MAX,
    ensures
        match hover_from(program.items@, line_0based + 1, col_0based + 1, 0) {
            Some(t) => r matches Some(h) && h.content@ == t,
            None => r is None,
        },
{
    let line = line_0based + 1;
    let col = col_0based + 1;
    let mut k: usize = 0;
    while k < program.items.len()
        invariant
            k <= program.items@.len(),
            line == line_0based + 1,
            col == col_0based + 1,
            hover_from(program.items@, line as int, col as int, 0) == hover_from(program.items@, line as int, col as int, k as int),
        decreases program.items@.len() - k,
    {
        match &program.items[k] {
            Item::Fn(f) => {
                let n = f.name.as_str().len();
                assert(n == encode_utf8(f.name@).len() as usize);
                if f.span.line == line && col >= f.span.col && (f.span.col as u128) + 3 <= (col as u128) && (col as u128)
                    <= (f.span.col as u128) + 3 + (n as u128) {
                    return Some(fn_hover(f));
                }
            },
            Item::Enum(e) => {
                let n = e.name.as_str().len();
                assert(n == encode_utf8(e.name@).len() as usize);
                if e.span.line == line && col >= e.span.col && (e.span.col as u128) + 5 <= (col as u128) && (col as u128)
                    <= (e.span.col as u128) + 5 + (n as u128) {
                    return Some(enum_hover(e));
                }
            },
            Item::Import(_) => {},
        }
        k += 1;
    }
    None
}

// ===== completion =====

/// A completion candidate as values: label, kind, detail.
pub type CompletionView = (Seq<char>, CompletionKind, Option<Seq<char>>);

pub open spec fn completion_view(c: CompletionItem) -> CompletionView {
    (
        c.label@,
        c.kind,
        match c.detail {
            Some(d) => Some(d@),
            None => None,
        },
    )
}

pub open spec fn completion_views(cs: Seq<CompletionItem>) -> Seq<CompletionView> {
    cs.map_values(|c: CompletionItem| completion_view(c))
}

/// A function candidate for each function, its signature as detail.
pub open spec fn fn_completions(items: Seq<Item>) -> Seq<CompletionView>
    decreases items.len(),
{
    if items.len() == 0 {
        Seq::empty()
    } else {
        fn_completions(items.drop_last()) + match items.last() {
            Item::Fn(f) => seq![(f.name@, CompletionKind::Function, Some(fn_sig_text(f)))],
            _ => Seq::empty(),
        }
    }
}

/// A variant candidate, its name and field types as detail.
pub open spec fn variant_completion(v: crate::ast::EnumVariantDecl) -> CompletionView {
    (
        v.name@,
        CompletionKind::Variant,
        Some(if v.fields@.len() == 0 { v.name@ } else { v.name@ + "("@ + types_text(v.fields@) + ")"@ }),
    )
}

/// For each enum, its candidate and then one for each of its variants.
pub open spec fn enum_completions(items: Seq<Item>) -> Seq<CompletionView>
    decreases items.len(),
{
    if items.len() == 0 {
        Seq::empty()
    } else {
        enum_completions(items.drop_last()) + match items.last() {
            Item::Enum(e) => seq![(e.name@, CompletionKind::Enum, Some("enum "@ + e.name@))] + e.variants@.map_values(
                |v: crate::ast::EnumVariantDecl| variant_completion(v),
            ),
            _ => Seq::empty(),
        }
    }
}

/// An imported name's candidate: its local alias, with where it comes from.
pub open spec fn import_item_completion(module: Seq<char>, it: crate::ast::ImportItem) -> CompletionView {
    (it.alias@, CompletionKind::Function, Some("from "@ + module + " import "@ + it.name@))
}

/// For each import, a module candidate and one for each imported name.
pub open spec fn import_completions(items: Seq<Item>) -> Seq<CompletionView>
    decreases items.len(),
{
    if items.len() == 0 {
        Seq::empty()
    } else {
        import_completions(items.drop_last()) + match items.last() {
            Item::Import(d) => seq![(d.module@, CompletionKind::Module, Some("module "@ + d.module@))] + d.items@.map_values(
                |it: crate::ast::ImportItem| import_item_completion(d.module@, it),
            ),
            _ => Seq::empty(),
        }
    }
}

/// The built-in variants, in this order.
pub open spec fn builtin_variant_completions() -> Seq<CompletionView> {
    seq![
        ("Ok"@, CompletionKind::Variant, Some("内置变体"@)),
        ("Err"@, CompletionKind::Variant, Some("内置变体"@)),
        ("Some"@, CompletionKind::Variant, Some("内置变体"@)),
        ("None"@, CompletionKind::Variant, Some("内置变体"@)),
    ]
}

/// The keywords, in this order.
pub open spec fn keyword_completions() -> Seq<CompletionView> {
    seq![
        ("fn"@, CompletionKind::Keyword, None),
        ("enum"@, CompletionKind::Keyword, None),
        ("if"@, CompletionKind::Keyword, None),
        ("while"@, CompletionKind::Keyword, None),
        ("for"@, CompletionKind::Keyword, None),
        ("match"@, CompletionKind::Keyword, None),
        ("let"@, CompletionKind::Keyword, None),
        ("return"@, CompletionKind::Keyword, None),
        ("end"@, CompletionKind::Keyword, None),
        ("from"@, CompletionKind::Keyword, None),
        ("import"@, CompletionKind::Keyword, None),
    ]
}

/// Every completion candidate of a program: functions, enums with their
/// variants, imports with their names, the built-in variants, the keywords.
pub open spec fn completion_items(items: Seq<Item>) -> Seq<CompletionView> {
    fn_completions(items) + enum_completions(items) + import_completions(items) + builtin_variant_completions()
        + keyword_completions()
}

fn push_candidate(out: &mut Vec<CompletionItem>, label: String, kind: CompletionKind, detail: Option<String>)
    ensures
        completion_views(final(out)@) == completion_views(old(out)@).push(
            completion_view(CompletionItem { label, kind, detail }),
        ),
{
    let ghost before = out@;
    out.push(CompletionItem { label, kind, detail });
    assert(completion_views(out@) =~= completion_views(before).push(completion_view(CompletionItem { label, kind, detail })));
}

fn push_lit_candidate(out: &mut Vec<CompletionItem>, label: &str, kind: CompletionKind, detail: Option<&str>)
    ensures
        completion_views(final(out)@) == completion_views(old(out)@).push(
            (
                label@,
                kind,
                match detail {
                    Some(d) => Some(d@),
                    None => None,
                },
            ),
        ),
{
    let d = match detail {
        Some(d) => Some(owned(d)),
        None => None,
    };
    push_candidate(out, owned(label), kind, d);
}

/// Completion candidates for a parsed program.
pub fn handle_completion(program: &Program) -> (r: Vec<CompletionItem>)
    ensures
        completion_views(r@) == completion_items(program.items@),
{
    let ghost items = program.items@;
    let mut out: Vec<CompletionItem> = Vec::new();
    let mut i: usize = 0;
    while i < program.items.len()
        invariant
            items == program.items@,
            i <= items.len(),
            completion_views(out@) == fn_completions(items.take(i as int)),
        decreases items.len() - i,
    {
        assert(items.take(i + 1).drop_last() == items.take(i as int));
        assert(items.take(i + 1).last() == items[i as int]);
        match &program.items[i] {
            Item::Fn(f) => {
                let sig = fn_sig_chars(f);
                push_candidate(&mut out, f.name.clone(), CompletionKind::Function, Some(string_of(&sig)));
            },
            _ => {
                assert(completion_views(out@) + Seq::<CompletionView>::empty() == completion_views(out@));
            },
        }
        i += 1;
    }
    assert(items.take(items.len() as int) == items);
    let ghost after_fns = completion_views(out@);
    i = 0;
    while i < program.items.len()
        invariant
            items == program.items@,
            i <= items.len(),
            after_fns == fn_completions(items),
            completion_views(out@) == after_fns + enum_completions(items.take(i as int)),
        decreases items.len() - i,
    {
        assert(items.take(i + 1).drop_last() == items.take(i as int));
        assert(items.take(i + 1).last() == items[i as int]);
        let ghost base = completion_views(out@);
        match &program.items[i] {
            Item::Enum(e) => {
                let mut d = chars_of("enum ");
                push_chars(&mut d, &chars_of(e.name.as_str()));
                push_candidate(&mut out, e.name.clone(), CompletionKind::Enum, Some(string_of(&d)));
                let ghost head = completion_views(out@);
                let mut k: usize = 0;
                while k < e.variants.len()
                    invariant
                        k <= e.variants@.len(),
                        completion_views(out@) == head + e.variants@.take(k as int).map_values(
                            |v: crate::ast::EnumVariantDecl| variant_completion(v),
                        ),
                    decreases e.variants@.len() - k,
                {
                    let v = &e.variants[k];
                    let mut det = chars_of(v.name.as_str());
                    if v.fields.len() > 0 {
                        push_lit(&mut det, "(");
                        push_chars(&mut det, &types_chars_of(&v.fields));
                        push_lit(&mut det, ")");
                    }
                    push_candidate(&mut out, v.name.clone(), CompletionKind::Variant, Some(string_of(&det)));
                    assert(e.variants@.take(k + 1).map_values(|v: crate::ast::EnumVariantDecl| variant_completion(v))
                        =~= e.variants@.take(k as int).map_values(|v: crate::ast::EnumVariantDecl| variant_completion(v)).push(
                        variant_completion(e.variants@[k as int]),
                    ));
                    k += 1;
                }
                assert(e.variants@.take(e.variants@.len() as int) == e.variants@);
                assert(completion_views(out@) =~= base + (seq![(e.name@, CompletionKind::Enum, Some("enum "@ + e.name@))]
                    + e.variants@.map_values(|v: crate::ast::EnumVariantDecl| variant_completion(v))));
            },
            _ => {
                assert(completion_views(out@) + Seq::<CompletionView>::empty() == completion_views(out@));
            },
        }
        i += 1;
    }
    assert(items.take(items.len() as int) == items);
    let ghost after_enums = completion_views(out@);
    i = 0;
    while i < program.items.len()
        invariant
            items == program.items@,
            i <= items.len(),
            after_enums == fn_completions(items) + enum_completions(items),
            completion_views(out@) == after_enums + import_completions(items.take(i as int)),
        decreases items.len() - i,
    {
        assert(items.take(i + 1).drop_last() == items.take(i as int));
        assert(items.take(i + 1).last() == items[i as int]);
        let ghost base = completion_views(out@);
        match &program.items[i] {
            Item::Import(d) => {
                let mut md = chars_of("module ");
                push_chars(&mut md, &chars_of(d.module.as_str()));
                push_candidate(&mut out, d.module.clone(), CompletionKind::Module, Some(string_of(&md)));
                let ghost head = completion_views(out@);
                let mut k: usize = 0;
                while k < d.items.len()
                    invariant
                        k <= d.items@.len(),
                        completion_views(out@) == head + d.items@.take(k as int).map_values(
                            |it: crate::ast::ImportItem| import_item_completion(d.module@, it),
                        ),
                    decreases d.items@.len() - k,
                {
                    let mut det = chars_of("from ");
                    push_chars(&mut det, &chars_of(d.module.as_str()));
                    push_lit(&mut det, " import ");
                    push_chars(&mut det, &chars_of(d.items[k].name.as_str()));
                    push_candidate(&mut out, d.items[k].alias.clone(), CompletionKind::Function, Some(string_of(&det)));
                    assert(d.items@.take(k + 1).map_values(|it: crate::ast::ImportItem| import_item_completion(d.module@, it))
                        =~= d.items@.take(k as int).map_values(|it: crate::ast::ImportItem| import_item_completion(d.module@, it)).push(
                        import_item_completion(d.module@, d.items@[k as int]),
                    ));
                    k += 1;
                }
                assert(d.items@.take(d.items@.len() as int) == d.items@);
                assert(completion_views(out@) =~= base + (seq![(d.module@, CompletionKind::Module, Some("module "@ + d.module@))]
                    + d.items@.map_values(|it: crate::ast::ImportItem| import_item_completion(d.module@, it))));
            },
            _ => {
                assert(completion_views(out@) + Seq::<CompletionView>::empty() == completion_views(out@));
            },
        }
        i += 1;
    }
    assert(items.take(items.len() as int) == items);
    let ghost after_imports = completion_views(out@);
    push_lit_candidate(&mut out, "Ok", CompletionKind::Variant, Some("内置变体"));
    push_lit_candidate(&mut out, "Err", CompletionKind::Variant, Some("内置变体"));
    push_lit_candidate(&mut out, "Some", CompletionKind::Variant, Some("内置变体"));
    push_lit_candidate(&mut out, "None", CompletionKind::Variant, Some("内置变体"));
    assert(completion_views(out@) =~= after_imports + builtin_variant_completions());
    let ghost after_builtins = completion_views(out@);
    push_lit_candidate(&mut out, "fn", CompletionKind::Keyword, None);
    push_lit_candidate(&mut out, "enum", CompletionKind::Keyword, None);
    push_lit_candidate(&mut out, "if", CompletionKind::Keyword, None);
    push_lit_candidate(&mut out, "while", CompletionKind::Keyword, None);
    push_lit_candidate(&mut out, "for", CompletionKind::Keyword, None);
    push_lit_candidate(&mut out, "match", CompletionKind::Keyword, None);
    push_lit_candidate(&mut out, "let", CompletionKind::Keyword, None);
    push_lit_candidate(&mut out, "return", CompletionKind::Keyword, None);
    push_lit_candidate(&mut out, "end", CompletionKind::Keyword, None);
    push_lit_candidate(&mut out, "from", CompletionKind::Keyword, None);
    push_lit_candidate(&mut out, "import", CompletionKind::Keyword, None);
    assert(completion_views(out@) =~= after_builtins + keyword_completions());
    out
}

// ===== JSON-RPC fields =====

/// ASCII whitespace as `u8::is_ascii_whitespace` counts it.
pub open spec fn is_json_ws(c: char) -> bool {
    c == ' ' || c == '\t' || c == '\n' || c == '\r' || c == '\u{c}'
}

pub open spec fn ws_end(s: Seq<char>, i: int) -> int
    decreases s.len() - i,
{
    if 0 <= i < s.len() && is_json_ws(s[i]) { ws_end(s, i + 1) } else { i }
}

pub open spec fn digit_end(s: Seq<char>, i: int) -> int
    decreases s.len() - i,
{
    if 0 <= i < s.len() && '0' <= s[i] <= '9' { digit_end(s, i + 1) } else { i }
}

pub open spec fn digits_val(d: Seq<char>) -> nat
    decreases d.len(),
{
    if d.len() == 0 { 0 } else { digits_val(d.drop_last()) * 10 + (d.last() as nat - '0' as nat) as nat }
}

/// Where the value of the first `"key":` starts, if the key occurs.
pub open spec fn value_start(json: Seq<char>, key: Seq<char>) -> Option<int> {
    let needle = "\""@ + key + "\":"@;
    match find_sub_from(json, needle, 0) {
        None => None,
        Some(p) => Some(p + needle.len()),
    }
}

/// The raw text of the first `"key":"..."` string value (escapes kept).
pub open spec fn rpc_string_field(json: Seq<char>, key: Seq<char>) -> Option<Seq<char>> {
    let needle = "\""@ + key + "\":\""@;
    match find_sub_from(json, needle, 0) {
        None => None,
        Some(p) => {
            let start = p + needle.len();
            Some(json.subrange(start, closing_quote(json, start, start)))
        },
    }
}

/// The first `"key": <digits>` value (whitespace allowed before the
/// digits), when the digits are there and the value is at most `max`.
pub open spec fn number_field_upto(json: Seq<char>, key: Seq<char>, max: nat) -> Option<nat> {
    match value_start(json, key) {
        None => None,
        Some(v) => {
            let a = ws_end(json, v);
            let b = digit_end(json, a);
            if b == a || digits_val(json.subrange(a, b)) > max {
                None
            } else {
                Some(digits_val(json.subrange(a, b)))
            }
        },
    }
}

/// The first `"key": <digits>` value, when it fits in `u64`.
pub open spec fn rpc_number_field(json: Seq<char>, key: Seq<char>) -> Option<nat> {
    number_field_upto(json, key, u64::MAX as nat)
}

/// Position after the bracket that closes depth `depth` of `open`/`close`.
pub open spec fn matching_end(s: Seq<char>, i: int, depth: int, open: char, close: char) -> int
    decreases s.len() - i,
{
    if i < 0 || i >= s.len() || depth <= 0 {
        i
    } else if s[i] == open {
        matching_end(s, i + 1, depth + 1, open, close)
    } else if s[i] == close {
        matching_end(s, i + 1, depth - 1, open, close)
    } else {
        matching_end(s, i + 1, depth, open, close)
    }
}

/// The text of the first `"key": {...}` or `"key": [...]` value.
pub open spec fn rpc_object_field(json: Seq<char>, key: Seq<char>) -> Option<Seq<char>> {
    match value_start(json, key) {
        None => None,
        Some(v) => {
            let i = ws_end(json, v);
            if i >= json.len() || (json[i] != '{' && json[i] != '[') {
                None
            } else {
                let close = if json[i] == '{' { '}' } else { ']' };
                Some(json.subrange(i, matching_end(json, i + 1, 1, json[i], close)))
            }
        },
    }
}

proof fn lemma_ws_end(s: Seq<char>, i: int)
    requires
        0 <= i <= s.len(),
    ensures
        i <= ws_end(s, i) <= s.len(),
    decreases s.len() - i,
{
    if i < s.len() && is_json_ws(s[i]) {
        lemma_ws_end(s, i + 1);
    }
}

proof fn lemma_digit_end(s: Seq<char>, i: int)
    requires
        0 <= i <= s.len(),
    ensures
        i <= digit_end(s, i) <= s.len(),
    decreases s.len() - i,
{
    if i < s.len() && '0' <= s[i] <= '9' {
        lemma_digit_end(s, i + 1);
    }
}

proof fn lemma_matching_end(s: Seq<char>, i: int, depth: int, open: char, close: char)
    requires
        0 <= i <= s.len(),
    ensures
        i <= matching_end(s, i, depth, open, close) <= s.len(),
    decreases s.len() - i,
{
    if i < s.len() && depth > 0 {
        if s[i] == open {
            lemma_matching_end(s, i + 1, depth + 1, open, close);
        } else if s[i] == close {
            lemma_matching_end(s, i + 1, depth - 1, open, close);
        } else {
            lemma_matching_end(s, i + 1, depth, open, close);
        }
    }
}

/// Start of the value of the first `"key":`.
fn find_value_start(json: &[char], key: &str) -> (r: Option<usize>)
    ensures
        match value_start(json@, key@) {
            Some(v) => 0 <= v <= json@.len() && r == Some(v as usize),
            None => r is None,
        },
{
    let mut needle = chars_of("\"");
    push_lit(&mut needle, key);
    push_lit(&mut needle, "\":");
    let found = find_sub(json, &needle, 0);
    proof {
        lemma_find_in_bounds(json@, needle@, 0);
    }
    if found.is_none() {
        return None;
    }
    let p = found.unwrap();
    assert(find_sub_from(json@, needle@, 0) == Some(p as int));
    assert(json@.len() == json.len());
    assert(needle@.len() == needle.len());
    proof {
        lemma_find_in_bounds(json@, needle@, 0);
    }
    Some(p + needle.len())
}

fn skip_ws(json: &[char], from: usize) -> (r: usize)
    requires
        from <= json@.len(),
    ensures
        r == ws_end(json@, from as int),
        from <= r <= json@.len(),
{
    let mut i = from;
    while i < json.len() && (json[i] == ' ' || json[i] == '\t' || json[i] == '\n' || json[i] == '\r' || json[i]
        == '\u{c}')
        invariant
            from <= i <= json@.len(),
            ws_end(json@, i as int) == ws_end(json@, from as int),
        decreases json@.len() - i,
    {
        i += 1;
    }
    i
}

/// The raw text of the first `"key":"..."` value.
pub(crate) fn extract_json_string_field(json: &[char], key: &str) -> (r: Option<Vec<char>>)
    ensures
        match rpc_string_field(json@, key@) {
            Some(v) => r matches Some(x) && x@ == v,
            None => r is None,
        },
{
    let mut needle = chars_of("\"");
    push_lit(&mut needle, key);
    push_lit(&mut needle, "\":\"");
    let found = find_sub(json, &needle, 0);
    proof {
        lemma_find_in_bounds(json@, needle@, 0);
    }
    if found.is_none() {
        return None;
    }
    let p = found.unwrap();
    assert(find_sub_from(json@, needle@, 0) == Some(p as int));
    assert(json@.len() == json.len());
    assert(needle@.len() == needle.len());
    let start = p + needle.len();
    let end = string_body_end(json, start);
    Some(slice_chars(json, start, end))
}

/// The first `"key": <digits>` value as a number, if at most `max`.
pub(crate) fn extract_number_upto(json: &[char], key: &str, max: u64) -> (r: Option<u64>)
    ensures
        match number_field_upto(json@, key@, max as nat) {
            Some(v) => r == Some(v as u64),
            None => r is None,
        },
{
    let v = match find_value_start(json, key) {
        Some(v) => v,
        None => return None,
    };
    let a = skip_ws(json, v);
    let mut b = a;
    let mut acc: u64 = 0;
    let mut big = false;
    while b < json.len() && '0' <= json[b] && json[b] <= '9'
        invariant
            a <= b <= json@.len(),
            digit_end(json@, b as int) == digit_end(json@, a as int),
            !big ==> acc == digits_val(json@.subrange(a as int, b as int)) && acc <= max,
            big ==> digits_val(json@.subrange(a as int, b as int)) > max,
        decreases json@.len() - b,
    {
        let d = (json[b] as u32 - '0' as u32) as u64;
        let ghost x = json@.subrange(a as int, b as int);
        let ghost y = json@.subrange(a as int, b + 1);
        proof {
            assert(y.drop_last() == x);
            assert(digits_val(y) == digits_val(x) * 10 + d);
        }
        if !big {
            if max < d || acc > (max - d) / 10 {
                big = true;
                assert(acc * 10 + d > max) by (nonlinear_arith)
                    requires
                        max < d || acc > (max - d) / 10,
                        d <= 9,
                ;
            } else {
                assert(acc * 10 + d <= max) by (nonlinear_arith)
                    requires
                        acc <= (max - d) / 10,
                        d <= max,
                        d <= 9,
                ;
                acc = acc * 10 + d;
            }
        } else {
            assert(digits_val(y) >= digits_val(x)) by (nonlinear_arith)
                requires
                    digits_val(y) == digits_val(x) * 10 + d,
            ;
        }
        b += 1;
    }
    if b == a || big {
        None
    } else {
        Some(acc)
    }
}

/// The text of the first `"key": {...}` or `"key": [...]` value.
fn extract_json_object_field(json: &[char], key: &str) -> (r: Option<Vec<char>>)
    ensures
        match rpc_object_field(json@, key@) {
            Some(v) => r matches Some(x) && x@ == v,
            None => r is None,
        },
{
    let v = match find_value_start(json, key) {
        Some(v) => v,
        None => return None,
    };
    let mut i = skip_ws(json, v);
    if i >= json.len() {
        return None;
    }
    let opener = json[i];
    let closer = if opener == '{' {
        '}'
    } else if opener == '[' {
        ']'
    } else {
        return None;
    };
    let obj_start = i;
    let mut depth: usize = 1;
    i += 1;
    while i < json.len() && depth > 0
        invariant
            obj_start < i <= json@.len(),
            depth <= i - obj_start,
            matching_end(json@, i as int, depth as int, opener, closer) == matching_end(
                json@,
                obj_start + 1,
                1,
                opener,
                closer,
            ),
        decreases json@.len() - i,
    {
        if json[i] == opener {
            depth += 1;
        } else if json[i] == closer {
            depth -= 1;
        }
        i += 1;
    }
    Some(slice_chars(json, obj_start, i))
}

/// What a JSON-RPC message carries: its id (absent for a notification), its
/// method, and its params text (empty when absent).
pub open spec fn rpc_message(json: Seq<char>) -> Option<(Option<u64>, Seq<char>, Seq<char>)> {
    match rpc_string_field(json, "method"@) {
        None => None,
        Some(m) => Some(
            (
                match rpc_number_field(json, "id"@) {
                    Some(n) => Some(n as u64),
                    None => None,
                },
                m,
                match rpc_object_field(json, "params"@) {
                    Some(p) => p,
                    None => Seq::empty(),
                },
            ),
        ),
    }
}

/// Reads a JSON-RPC message: `(id, method, params)`, or `None` without a
/// method.
pub fn parse_rpc_message(json: &str) -> (r: Option<(Option<u64>, String, String)>)
    ensures
        match rpc_message(json@) {
            Some((id, m, p)) => r matches Some((rid, rm, rp)) && rid == id && rm@ == m && rp@ == p,
            None => r is None,
        },
{
    let cs = chars_of(json);
    let id = extract_number_upto(&cs, "id", u64::MAX);
    let method = match extract_json_string_field(&cs, "method") {
        Some(m) => m,
        None => return None,
    };
    let params = match extract_json_object_field(&cs, "params") {
        Some(p) => string_of(&p),
        None => String::new(),
    };
    Some((id, string_of(&method), params))
}

// ===== building messages =====

/// A JSON-RPC response with a result.
pub fn make_response(id: u64, result_json: &str) -> (r: String)
    ensures
        r@ == "{\"jsonrpc\":\"2.0\",\"id\":"@ + dec(id as nat) + ",\"result\":"@ + result_json@ + "}"@,
{
    let mut out = chars_of("{\"jsonrpc\":\"2.0\",\"id\":");
    let d = crate::text::dec_u64(id);
    push_chars(&mut out, &d);
    push_lit(&mut out, ",\"result\":");
    push_lit(&mut out, result_json);
    push_lit(&mut out, "}");
    string_of(&out)
}

/// `s` with each `"` written as `\"`.
pub open spec fn quote_escaped(s: Seq<char>) -> Seq<char> {
    replace_all(s, "\""@, "\\\""@)
}

/// A JSON-RPC error response.
pub fn make_error_response(id: u64, code: i32, message: &str) -> (r: String)
    ensures
        r@ == "{\"jsonrpc\":\"2.0\",\"id\":"@ + dec(id as nat) + ",\"error\":{\"code\":"@ + dec_int(code as int)
            + ",\"message\":\""@ + quote_escaped(message@) + "\"}}"@,
{
    let mut out = chars_of("{\"jsonrpc\":\"2.0\",\"id\":");
    let d = crate::text::dec_u64(id);
    push_chars(&mut out, &d);
    push_lit(&mut out, ",\"error\":{\"code\":");
    let c = dec_i64(code as i64);
    push_chars(&mut out, &c);
    push_lit(&mut out, ",\"message\":\"");
    let m = chars_of(message);
    let e = replace_lit(&m, "\"", "\\\"");
    push_chars(&mut out, &e);
    push_lit(&mut out, "\"}}");
    string_of(&out)
}

pub open spec fn notification(method: Seq<char>, params: Seq<char>) -> Seq<char> {
    "{\"jsonrpc\":\"2.0\",\"method\":\""@ + method + "\",\"params\":"@ + params + "}"@
}

/// A JSON-RPC notification (no id).
pub fn make_notification(method: &str, params_json: &str) -> (r: String)
    ensures
        r@ == notification(method@, params_json@),
{
    let mut out = chars_of("{\"jsonrpc\":\"2.0\",\"method\":\"");
    push_lit(&mut out, method);
    push_lit(&mut out, "\",\"params\":");
    push_lit(&mut out, params_json);
    push_lit(&mut out, "}");
    string_of(&out)
}

/// A framed LSP message: the header gives the payload's length in UTF-8
/// bytes, then a blank line, then the payload.
pub fn make_lsp_message(json: &str) -> (r: String)
    requires
        json.spec_bytes().len() <= usize::MAX,
    ensures
        r@ == "Content-Length: "@ + dec(json.spec_bytes().len()) + "\r\n\r\n"@ + json@,
{
    let mut out = chars_of("Content-Length: ");
    push_usize(&mut out, json.len());
    push_lit(&mut out, "\r\n\r\n");
    push_lit(&mut out, json);
    string_of(&out)
}

// ===== diagnostics =====

pub open spec fn severity_number(s: Severity) -> nat {
    match s {
        Severity::Error => 1,
        Severity::Warning => 2,
        Severity::Info => 3,
    }
}

/// A 1-based position as LSP's 0-based one (0 stays 0), as `i64`.
pub open spec fn zero_based(n: usize) -> int {
    (if n >= 1 { (n - 1) as usize } else { 0usize }) as i64 as int
}

/// One diagnostic as an LSP `Diagnostic` object: a one-character range at its
/// position, severity, code, source `lom` and message.
pub open spec fn lsp_diagnostic(d: Diagnostic) -> Seq<char> {
    "{\"range\":{\"start\":{\"line\":"@ + dec_int(zero_based(d.line)) + ",\"character\":"@ + dec_int(
        zero_based(d.col),
    ) + "},\"end\":{\"line\":"@ + dec_int(zero_based(d.line)) + ",\"character\":"@ + dec_int(
        zero_based(d.col) + 1,
    ) + "}},\"severity\":"@ + dec(severity_number(d.severity)) + ",\"code\":\""@ + quote_escaped(d.code@)
        + "\",\"source\":\"lom\",\"message\":\""@ + replace_all(quote_escaped(d.message@), "\n"@, "\\n"@)
        + "\"}"@
}

/// A diagnostic as an LSP `Diagnostic` JSON object.
pub fn diagnostic_to_lsp_json(d: &Diagnostic, _uri: &str) -> (r: String)
    requires
        zero_based(d.col) < i64::MAX,
    ensures
        r@ == lsp_diagnostic(*d),
{
    let severity: u64 = match d.severity {
        Severity::Error => 1,
        Severity::Warning => 2,
        Severity::Info => 3,
    };
    let line = d.line.saturating_sub(1) as i64;
    let col = d.col.saturating_sub(1) as i64;
    let mut out = chars_of("{\"range\":{\"start\":{\"line\":");
    let l = dec_i64(line);
    push_chars(&mut out, &l);
    push_lit(&mut out, ",\"character\":");
    let c = dec_i64(col);
    push_chars(&mut out, &c);
    push_lit(&mut out, "},\"end\":{\"line\":");
    push_chars(&mut out, &l);
    push_lit(&mut out, ",\"character\":");
    let c1 = dec_i64(col + 1);
    push_chars(&mut out, &c1);
    push_lit(&mut out, "}},\"severity\":");
    let sv = crate::text::dec_u64(severity);
    push_chars(&mut out, &sv);
    push_lit(&mut out, ",\"code\":\"");
    let code = chars_of(d.code.as_str());
    let ce = replace_lit(&code, "\"", "\\\"");
    push_chars(&mut out, &ce);
    push_lit(&mut out, "\",\"source\":\"lom\",\"message\":\"");
    let msg = chars_of(d.message.as_str());
    let m1 = replace_lit(&msg, "\"", "\\\"");
    let m2 = replace_lit(&m1, "\n", "\\n");
    push_chars(&mut out, &m2);
    push_lit(&mut out, "\"}");
    string_of(&out)
}

/// The `publishDiagnostics` params for a file.
pub open spec fn publish_params(uri: Seq<char>, ds: Seq<Diagnostic>) -> Seq<char> {
    "{\"uri\":\""@ + uri + "\",\"diagnostics\":["@ + join_with(ds, |d: Diagnostic| lsp_diagnostic(d), ","@) + "]}"@
}

/// The `textDocument/publishDiagnostics` notification for a file.
pub fn make_publish_diagnostics(uri: &str, diags: &[Diagnostic]) -> (r: String)
    requires
        forall|k: int| 0 <= k < diags@.len() ==> zero_based(#[trigger] diags@[k].col) < i64::MAX,
    ensures
        r@ == notification("textDocument/publishDiagnostics"@, publish_params(uri@, diags@)),
{
    let ghost g = |d: Diagnostic| lsp_diagnostic(d);
    let mut list: Vec<char> = Vec::new();
    let mut i: usize = 0;
    while i < diags.len()
        invariant
            i <= diags@.len(),
            forall|k: int| 0 <= k < diags@.len() ==> zero_based(#[trigger] diags@[k].col) < i64::MAX,
            g == (|d: Diagnostic| lsp_diagnostic(d)),
            list@ == join_with(diags@.take(i as int), g, ","@),
        decreases diags@.len() - i,
    {
        proof {
            lemma_join_with_step(diags@, i as int, g, ","@);
        }
        if i > 0 {
            push_lit(&mut list, ",");
        } else {
            assert(list@ + Seq::<char>::empty() == list@);
        }
        let j = diagnostic_to_lsp_json(&diags[i], uri);
        let jc = chars_of(j.as_str());
        push_chars(&mut list, &jc);
        i += 1;
    }
    assert(diags@.take(diags@.len() as int) == diags@);
    let mut params = chars_of("{\"uri\":\"");
    push_lit(&mut params, uri);
    push_lit(&mut params, "\",\"diagnostics\":[");
    push_chars(&mut params, &list);
    push_lit(&mut params, "]}");
    let p = string_of(&params);
    make_notification("textDocument/publishDiagnostics", p.as_str())
}


// ===== headers =====

/// A decimal number as `usize` reads it (`str::parse::<usize>`): an optional
/// `+`, then digits, with no overflow.
pub open spec fn decimal_usize(s: Seq<char>) -> Option<nat> {
    let d = crate::json::unsigned_digits(s);
    if d.len() > 0 && (forall|i: int| 0 <= i < d.len() ==> '0' <= #[trigger] d[i] <= '9')
        && crate::json::digits_text_value(d) <= usize::MAX {
        Some(crate::json::digits_text_value(d))
    } else {
        None
    }
}

/// The number `s.parse::<usize>()` reads.
fn usize_value(s: &str) -> (r: Option<usize>)
    ensures
        match decimal_usize(s@) {
            Some(v) => r == Some(v as usize),
            None => r is None,
        },
{
    let cs = chars_of(s);
    let start: usize = if cs.len() > 0 && cs[0] == '+' { 1 } else { 0 };
    assert(cs@.subrange(start as int, cs@.len() as int) =~= crate::json::unsigned_digits(s@));
    match crate::json::decimal_upto(&cs, start, usize::MAX as u128) {
        Some(v) => Some(v as usize),
        None => None,
    }
}

/// A header line ends the headers when it is blank once its end is trimmed.
pub fn is_header_end(line: &str) -> (r: bool)
    ensures
        r == (crate::text::trim_end(line@).len() == 0),
{
    let cs = chars_of(line);
    let t = crate::text::trim_end_chars(&cs);
    t.len() == 0
}

/// The payload length a header line gives: the number after
/// `Content-Length: `, trimmed.
pub open spec fn content_length(line: Seq<char>) -> Option<nat> {
    let t = crate::text::trim_end(line);
    match find_sub_from(t, "Content-Length: "@, 0) {
        None => None,
        Some(p) => decimal_usize(crate::text::trim(t.subrange(p + "Content-Length: "@.len(), t.len() as int))),
    }
}

pub fn content_length_of(line: &str) -> (r: Option<usize>)
    ensures
        match content_length(line@) {
            Some(v) => r == Some(v as usize),
            None => r is None,
        },
{
    let cs = chars_of(line);
    let t = crate::text::trim_end_chars(&cs);
    let key = chars_of("Content-Length: ");
    let found = find_sub(&t, &key, 0);
    proof {
        lemma_find_in_bounds(t@, key@, 0);
    }
    match found {
        None => None,
        Some(p) => {
            assert(find_sub_from(t@, key@, 0) == Some(p as int));
            assert(p + key@.len() <= t@.len());
            assert(t@.len() == t.len());
            assert(key@.len() == key.len());
            let rest = slice_chars(&t, p + key.len(), t.len());
            let num = crate::text::trim_chars(&rest);
            let ns = string_of(&num);
            usize_value(ns.as_str())
        },
    }
}

} // verus!

//! API documentation of a file: its top-level functions and enums with their
//! signatures and the `#` comment lines right above them, as Markdown or as
//! `lom-doc/v1` JSON.
use vstd::prelude::*;
use crate::ast::{EnumDecl, FnDecl, Item, Param, Program, Type};
use crate::info::{strs, type_text, type_to_string};
use crate::json::{escaped, push_escaped};
use crate::lsp::{param_sig, params_sig_chars};
use crate::text::{
    bool_text, chars_of, dec, owned, join_strs, join_with, lemma_join_with_step, lemma_sep_list_step, lines, lines_of,
    push_chars, push_lit, push_usize, sep_list, str_view, string_of, trim_start, trim_start_chars,
};

verus! {

/// A documented item (a top-level `fn` or `enum`).
pub struct DocItem {
    pub kind: &'static str,
    pub name: String,
    pub line: usize,
    pub signature: String,
    pub doc: Option<String>,
    /// For an enum: each variant's name and field types.
    pub variants: Vec<(String, Vec<String>)>,
}

/// The documentation of one file.
pub struct DocModule {
    pub file: String,
    pub ok: bool,
    pub items: Vec<DocItem>,
}

// ===== collecting the documentation of a program =====

/// A function's documented signature: `fn name(params)`, then ` -> ret` when
/// a return type is written, then ` ! [effects]` when there are any.
pub open spec fn fn_doc_signature(f: FnDecl) -> Seq<char> {
    "fn "@ + f.name@ + "("@ + join_with(f.params@, |p: Param| param_sig(p), ", "@) + ")"@ + match f.ret_type {
        Some(t) => " -> "@ + type_text(t),
        None => Seq::empty(),
    } + if f.effects@.len() == 0 {
        Seq::empty()
    } else {
        " ! ["@ + join_with(f.effects@, |e: String| str_view(e), ", "@) + "]"@
    }
}

/// An enum's documented signature: `enum Name` or `enum Name<T, E>`.
pub open spec fn enum_doc_signature(e: EnumDecl) -> Seq<char> {
    "enum "@ + e.name@ + if e.type_params@.len() == 0 {
        Seq::empty()
    } else {
        "<"@ + join_with(e.type_params@, |n: String| str_view(n), ", "@) + ">"@
    }
}

/// The functions and enums among the items, in order: what gets documented.
pub open spec fn documented(items: Seq<Item>) -> Seq<Item>
    decreases items.len(),
{
    if items.len() == 0 {
        Seq::empty()
    } else {
        documented(items.drop_last()) + match items.last() {
            Item::Import(_) => Seq::empty(),
            it => seq![it],
        }
    }
}

pub open spec fn opt_str(o: Option<String>) -> Option<Seq<char>> {
    match o {
        Some(s) => Some(s@),
        None => None,
    }
}

/// `d` documents the declaration `it` of `source`: kind, name, line of the
/// signature, signature, the comment lines above it, and for an enum each
/// variant with its field types as text.
pub open spec fn documents(d: DocItem, it: Item, source: Seq<char>) -> bool {
    match it {
        Item::Fn(f) => {
            &&& d.kind@ == "fn"@
            &&& d.name@ == f.name@
            &&& d.line == f.span.line
            &&& d.signature@ == fn_doc_signature(f)
            &&& opt_str(d.doc) == doc_comment(source, f.span.line as int)
            &&& d.variants@.len() == 0
        },
        Item::Enum(e) => {
            &&& d.kind@ == "enum"@
            &&& d.name@ == e.name@
            &&& d.line == e.span.line
            &&& d.signature@ == enum_doc_signature(e)
            &&& opt_str(d.doc) == doc_comment(source, e.span.line as int)
            &&& d.variants@.len() == e.variants@.len()
            &&& forall|k: int|
                0 <= k < d.variants@.len() ==> (#[trigger] d.variants@[k]).0@ == e.variants@[k].name@ && strs(
                    d.variants@[k].1@,
                ) == e.variants@[k].fields@.map_values(|t: Type| type_text(t))
        },
        Item::Import(_) => false,
    }
}

fn fn_doc_item(f: &FnDecl, source: &str) -> (r: DocItem)
    ensures
        documents(r, Item::Fn(*f), source@),
{
    let mut sig = chars_of("fn ");
    push_chars(&mut sig, &chars_of(f.name.as_str()));
    push_lit(&mut sig, "(");
    push_chars(&mut sig, &params_sig_chars(&f.params));
    push_lit(&mut sig, ")");
    match &f.ret_type {
        Some(t) => {
            let mut r = chars_of(" -> ");
            push_chars(&mut r, &chars_of(type_to_string(t).as_str()));
            push_chars(&mut sig, &r);
        },
        None => {
            assert(sig@ + Seq::<char>::empty() == sig@);
        },
    }
    let ghost mid = sig@;
    if f.effects.len() > 0 {
        let mut r = chars_of(" ! [");
        push_chars(&mut r, &join_strs(f.effects.as_slice(), ", "));
        push_lit(&mut r, "]");
        push_chars(&mut sig, &r);
    } else {
        assert(sig@ + Seq::<char>::empty() == sig@);
    }
    let kind: &'static str = "fn";
    DocItem {
        kind,
        name: f.name.clone(),
        line: f.span.line,
        signature: string_of(&sig),
        doc: extract_doc_comment(source, f.span.line),
        variants: Vec::new(),
    }
}

fn enum_doc_item(e: &EnumDecl, source: &str) -> (r: DocItem)
    ensures
        documents(r, Item::Enum(*e), source@),
{
    let mut sig = chars_of("enum ");
    push_chars(&mut sig, &chars_of(e.name.as_str()));
    if e.type_params.len() > 0 {
        let mut r = chars_of("<");
        push_chars(&mut r, &join_strs(e.type_params.as_slice(), ", "));
        push_lit(&mut r, ">");
        push_chars(&mut sig, &r);
    } else {
        assert(sig@ + Seq::<char>::empty() == sig@);
    }
    let mut variants: Vec<(String, Vec<String>)> = Vec::new();
    let mut i: usize = 0;
    while i < e.variants.len()
        invariant
            i <= e.variants@.len(),
            variants@.len() == i,
            forall|k: int|
                0 <= k < i ==> (#[trigger] variants@[k]).0@ == e.variants@[k].name@ && strs(variants@[k].1@)
                    == e.variants@[k].fields@.map_values(|t: Type| type_text(t)),
        decreases e.variants@.len() - i,
    {
        let tys = &e.variants[i].fields;
        let mut fields: Vec<String> = Vec::new();
        let mut j: usize = 0;
        while j < tys.len()
            invariant
                j <= tys@.len(),
                strs(fields@) == tys@.take(j as int).map_values(|t: Type| type_text(t)),
            decreases tys@.len() - j,
        {
            let ghost before = fields@;
            let t = type_to_string(&tys[j]);
            fields.push(t);
            assert(strs(fields@) =~= strs(before).push(t@));
            assert(tys@.take(j + 1).map_values(|t: Type| type_text(t)) =~= tys@.take(j as int).map_values(
                |t: Type| type_text(t),
            ).push(type_text(tys@[j as int])));
            j += 1;
        }
        assert(tys@.take(tys@.len() as int) == tys@);
        variants.push((e.variants[i].name.clone(), fields));
        i += 1;
    }
    let kind: &'static str = "enum";
    DocItem {
        kind,
        name: e.name.clone(),
        line: e.span.line,
        signature: string_of(&sig),
        doc: extract_doc_comment(source, e.span.line),
        variants,
    }
}

/// The documentation of a parsed program: one entry per top-level function or
/// enum, in source order; imports are not documented.
pub fn collect_doc(program: &Program, source: &str, file: &str) -> (r: DocModule)
    ensures
        r.file@ == file@,
        r.ok,
        r.items@.len() == documented(program.items@).len(),
        forall|k: int| 0 <= k < r.items@.len() ==> documents(#[trigger] r.items@[k], documented(program.items@)[k], source@),
{
    let ghost items = program.items@;
    let mut out: Vec<DocItem> = Vec::new();
    let mut i: usize = 0;
    while i < program.items.len()
        invariant
            items == program.items@,
            i <= items.len(),
            out@.len() == documented(items.take(i as int)).len(),
            forall|k: int| 0 <= k < out@.len() ==> documents(#[trigger] out@[k], documented(items.take(i as int))[k], source@),
        decreases items.len() - i,
    {
        assert(items.take(i + 1).drop_last() == items.take(i as int));
        assert(items.take(i + 1).last() == items[i as int]);
        let ghost prev = documented(items.take(i as int));
        match &program.items[i] {
            Item::Fn(f) => {
                out.push(fn_doc_item(f, source));
                assert(documented(items.take(i + 1)) == prev + seq![items[i as int]]);
            },
            Item::Enum(e) => {
                out.push(enum_doc_item(e, source));
                assert(documented(items.take(i + 1)) == prev + seq![items[i as int]]);
            },
            Item::Import(_) => {
                assert(documented(items.take(i + 1)) == prev + Seq::<Item>::empty());
            },
        }
        i += 1;
    }
    assert(items.take(items.len() as int) == items);
    DocModule { file: owned(file), ok: true, items: out }
}

// ===== doc comments =====

/// Whether a line is a comment: `#` after leading whitespace.
pub open spec fn is_doc_line(l: Seq<char>) -> bool {
    trim_start(l).len() > 0 && trim_start(l)[0] == '#'
}

/// A comment line's text: after the `#`, without one following space.
pub open spec fn doc_line_text(l: Seq<char>) -> Seq<char> {
    let rest = trim_start(l).drop_first();
    if rest.len() > 0 && rest[0] == ' ' { rest.drop_first() } else { rest }
}

/// Start of the run of comment lines that ends right before line index `k`.
pub open spec fn comment_run_start(ls: Seq<Seq<char>>, k: int) -> int
    decreases k,
{
    if k <= 0 || !is_doc_line(ls[k - 1]) { k } else { comment_run_start(ls, k - 1) }
}

/// The texts of the comment lines `ls[j..k]`.
pub open spec fn doc_texts(ls: Seq<Seq<char>>, j: int, k: int) -> Seq<Seq<char>> {
    Seq::new((k - j) as nat, |x: int| doc_line_text(ls[j + x]))
}

/// The doc comment of the item whose signature is on 1-based line `line`: the
/// consecutive comment lines right above it, joined with newlines.
pub open spec fn doc_comment(source: Seq<char>, line: int) -> Option<Seq<char>> {
    let ls = lines(source);
    if line < 1 || line > ls.len() {
        None
    } else {
        let j = comment_run_start(ls, line - 1);
        if j == line - 1 {
            None
        } else {
            Some(join_with(doc_texts(ls, j, line - 1), |t: Seq<char>| t, "\n"@))
        }
    }
}

proof fn lemma_run_start(ls: Seq<Seq<char>>, k: int)
    requires
        0 <= k <= ls.len(),
    ensures
        0 <= comment_run_start(ls, k) <= k,
        forall|x: int| comment_run_start(ls, k) <= x < k ==> #[trigger] is_doc_line(ls[x]),
    decreases k,
{
    if k > 0 && is_doc_line(ls[k - 1]) {
        lemma_run_start(ls, k - 1);
    }
}

/// The doc comment above 1-based line `line` of `source`.
pub fn extract_doc_comment(source: &str, line: usize) -> (r: Option<String>)
    ensures
        match doc_comment(source@, line as int) {
            Some(d) => r matches Some(s) && s@ == d,
            None => r is None,
        },
{
    let chars = chars_of(source);
    let ls = lines_of(&chars);
    let ghost lv = lines(source@);
    if line < 1 || line > ls.len() {
        return None;
    }
    let k = line - 1;
    let mut j = k;
    while j > 0
        invariant
            j <= k,
            k < ls@.len(),
            ls@.len() == lv.len(),
            forall|m: int| 0 <= m < ls@.len() ==> #[trigger] ls@[m]@ == lv[m],
            comment_run_start(lv, j as int) == comment_run_start(lv, k as int),
        ensures
            j == 0 || !is_doc_line(lv[j - 1]),
        decreases j,
    {
        let t = trim_start_chars(&ls[j - 1]);
        assert(ls@[j - 1]@ == lv[j - 1]);
        if t.len() > 0 && t[0] == '#' {
            assert(is_doc_line(lv[j - 1]));
            j = j - 1;
        } else {
            break;
        }
    }
    proof {
        lemma_run_start(lv, k as int);
        if j > 0 {
            assert(!is_doc_line(lv[j - 1]));
        }
    }
    if j == k {
        return None;
    }
    let ghost texts = doc_texts(lv, j as int, k as int);
    let ghost f = |t: Seq<char>| t;
    let mut out: Vec<char> = Vec::new();
    let mut m = j;
    while m < k
        invariant
            j <= m <= k,
            k < ls@.len(),
            ls@.len() == lv.len(),
            forall|x: int| 0 <= x < ls@.len() ==> #[trigger] ls@[x]@ == lv[x],
            forall|x: int| j <= x < k ==> #[trigger] is_doc_line(lv[x]),
            texts == doc_texts(lv, j as int, k as int),
            f == (|t: Seq<char>| t),
            out@ == join_with(texts.take(m - j), f, "\n"@),
        decreases k - m,
    {
        proof {
            lemma_join_with_step(texts, m - j, f, "\n"@);
        }
        if m > j {
            push_lit(&mut out, "\n");
        } else {
            assert(out@ + Seq::<char>::empty() == out@);
        }
        let t = trim_start_chars(&ls[m]);
        assert(ls@[m as int]@ == lv[m as int]);
        assert(is_doc_line(lv[m as int]));
        let ghost before = out@;
        let mut s: usize = 1;
        if t.len() > 1 && t[1] == ' ' {
            s = 2;
        }
        let mut q = s;
        while q < t.len()
            invariant
                s <= q <= t@.len(),
                out@ == before + t@.subrange(s as int, q as int),
            decreases t@.len() - q,
        {
            out.push(t[q]);
            assert(t@.subrange(s as int, q + 1) == t@.subrange(s as int, q as int).push(t@[q as int]));
            q += 1;
        }
        assert(t@.subrange(s as int, t@.len() as int) == doc_line_text(lv[m as int]));
        assert(texts[m - j] == doc_line_text(lv[m as int]));
        m += 1;
    }
    assert(texts.take(k - j) == texts);
    Some(string_of(&out))
}


// ===== JSON =====

pub open spec fn quoted(f: String) -> Seq<char> {
    "\""@ + escaped(f@) + "\""@
}

pub open spec fn variant_json(v: (String, Vec<String>)) -> Seq<char> {
    "{\"name\":\""@ + escaped(v.0@) + "\",\"fields\":["@ + join_with(v.1@, |f: String| quoted(f), ","@) + "]}"@
}

pub open spec fn item_json(it: DocItem) -> Seq<char> {
    "{\"kind\":\""@ + it.kind@ + "\",\"name\":\""@ + escaped(it.name@) + "\",\"line\":"@ + dec(it.line as nat)
        + ",\"signature\":\""@ + escaped(it.signature@) + "\",\"doc\":"@ + (match it.doc {
        Some(d) => "\""@ + escaped(d@) + "\""@,
        None => "null"@,
    }) + (if it.variants@.len() == 0 {
        Seq::empty()
    } else {
        ",\"variants\":["@ + join_with(it.variants@, |v: (String, Vec<String>)| variant_json(v), ","@) + "]"@
    }) + "}"@
}

/// The `lom-doc/v1` document, on one line.
pub open spec fn doc_json(m: DocModule) -> Seq<char> {
    "{\"schema\":\"lom-doc/v1\",\"file\":\""@ + escaped(m.file@) + "\",\"ok\":"@ + bool_text(m.ok) + ",\"items\":["@
        + join_with(m.items@, |it: DocItem| item_json(it), ","@) + "]}\n"@
}

fn quoted_fields(fs: &Vec<String>) -> (r: Vec<char>)
    ensures
        r@ == join_with(fs@, |f: String| quoted(f), ","@),
{
    let ghost g = |f: String| quoted(f);
    let mut out: Vec<char> = Vec::new();
    let mut i: usize = 0;
    while i < fs.len()
        invariant
            i <= fs@.len(),
            g == (|f: String| quoted(f)),
            out@ == join_with(fs@.take(i as int), g, ","@),
        decreases fs@.len() - i,
    {
        proof {
            lemma_join_with_step(fs@, i as int, g, ","@);
        }
        if i > 0 {
            push_lit(&mut out, ",");
        } else {
            assert(out@ + Seq::<char>::empty() == out@);
        }
        let ghost mid = out@;
        push_lit(&mut out, "\"");
        let c = chars_of(fs[i].as_str());
        push_escaped(&mut out, &c);
        push_lit(&mut out, "\"");
        assert(out@ == mid + quoted(fs@[i as int]));
        i += 1;
    }
    assert(fs@.take(fs@.len() as int) == fs@);
    out
}

fn render_variant(v: &(String, Vec<String>)) -> (r: Vec<char>)
    ensures
        r@ == variant_json(*v),
{
    let mut out = chars_of("{\"name\":\"");
    let n = chars_of(v.0.as_str());
    push_escaped(&mut out, &n);
    push_lit(&mut out, "\",\"fields\":[");
    let fs = quoted_fields(&v.1);
    push_chars(&mut out, &fs);
    push_lit(&mut out, "]}");
    out
}

fn render_item(it: &DocItem) -> (r: Vec<char>)
    ensures
        r@ == item_json(*it),
{
    let mut out = chars_of("{\"kind\":\"");
    push_lit(&mut out, it.kind);
    push_lit(&mut out, "\",\"name\":\"");
    let n = chars_of(it.name.as_str());
    push_escaped(&mut out, &n);
    push_lit(&mut out, "\",\"line\":");
    push_usize(&mut out, it.line);
    push_lit(&mut out, ",\"signature\":\"");
    let sg = chars_of(it.signature.as_str());
    push_escaped(&mut out, &sg);
    push_lit(&mut out, "\",\"doc\":");
    match &it.doc {
        Some(d) => {
            push_lit(&mut out, "\"");
            let dc = chars_of(d.as_str());
            push_escaped(&mut out, &dc);
            push_lit(&mut out, "\"");
        },
        None => {
            push_lit(&mut out, "null");
        },
    }
    if it.variants.len() > 0 {
        push_lit(&mut out, ",\"variants\":[");
        let ghost g = |v: (String, Vec<String>)| variant_json(v);
        let mut list: Vec<char> = Vec::new();
        let mut j: usize = 0;
        while j < it.variants.len()
            invariant
                j <= it.variants@.len(),
                g == (|v: (String, Vec<String>)| variant_json(v)),
                list@ == join_with(it.variants@.take(j as int), g, ","@),
            decreases it.variants@.len() - j,
        {
            proof {
                lemma_join_with_step(it.variants@, j as int, g, ","@);
            }
            if j > 0 {
                push_lit(&mut list, ",");
            } else {
                assert(list@ + Seq::<char>::empty() == list@);
            }
            let v = render_variant(&it.variants[j]);
            push_chars(&mut list, &v);
            j += 1;
        }
        assert(it.variants@.take(it.variants@.len() as int) == it.variants@);
        push_chars(&mut out, &list);
        push_lit(&mut out, "]");
    } else {
        assert(out@ + Seq::<char>::empty() == out@);
    }
    push_lit(&mut out, "}");
    out
}

/// The `lom-doc/v1` JSON document.
pub fn to_json(module: &DocModule) -> (r: String)
    ensures
        r@ == doc_json(*module),
{
    let mut out = chars_of("{\"schema\":\"lom-doc/v1\",\"file\":\"");
    let f = chars_of(module.file.as_str());
    push_escaped(&mut out, &f);
    push_lit(&mut out, "\",\"ok\":");
    crate::text::push_bool(&mut out, module.ok);
    push_lit(&mut out, ",\"items\":[");
    let ghost g = |it: DocItem| item_json(it);
    let mut list: Vec<char> = Vec::new();
    let mut i: usize = 0;
    while i < module.items.len()
        invariant
            i <= module.items@.len(),
            g == (|it: DocItem| item_json(it)),
            list@ == join_with(module.items@.take(i as int), g, ","@),
        decreases module.items@.len() - i,
    {
        proof {
            lemma_join_with_step(module.items@, i as int, g, ","@);
        }
        if i > 0 {
            push_lit(&mut list, ",");
        } else {
            assert(list@ + Seq::<char>::empty() == list@);
        }
        let item = render_item(&module.items[i]);
        push_chars(&mut list, &item);
        i += 1;
    }
    assert(module.items@.take(module.items@.len() as int) == module.items@);
    push_chars(&mut out, &list);
    push_lit(&mut out, "]}\n");
    string_of(&out)
}

// ===== Markdown =====

pub open spec fn variant_md(v: (String, Vec<String>)) -> Seq<char> {
    if v.1@.len() == 0 {
        "- `"@ + v.0@ + "`\n"@
    } else {
        "- `"@ + v.0@ + "("@ + join_with(v.1@, |s: String| str_view(s), ", "@) + ")`\n"@
    }
}

pub open spec fn item_md(it: DocItem) -> Seq<char> {
    "## `"@ + it.name@ + "`\n\n"@ + "```lom\n"@ + it.signature@ + "\n```\n\n"@ + (match it.doc {
        Some(d) => d@ + "\n\n"@,
        None => Seq::empty(),
    }) + (if it.variants@.len() == 0 {
        Seq::empty()
    } else {
        "变体：\n\n"@ + sep_list(it.variants@, 0, |v: (String, Vec<String>)| variant_md(v), Seq::empty(), Seq::empty())
            + "\n"@
    }) + "<sub>第 "@ + dec(it.line as nat) + " 行</sub>\n\n"@
}

/// The Markdown page: a title, a note, then one section per item.
pub open spec fn doc_markdown(m: DocModule) -> Seq<char> {
    "# "@ + m.file@ + "\n\n"@ + "> 由 `lom doc` 自动生成\n\n"@ + sep_list(
        m.items@,
        0,
        |it: DocItem| item_md(it),
        Seq::empty(),
        Seq::empty(),
    )
}

fn markdown_item(it: &DocItem) -> (r: Vec<char>)
    ensures
        r@ == item_md(*it),
{
    let mut out = chars_of("## `");
    let n = chars_of(it.name.as_str());
    push_chars(&mut out, &n);
    push_lit(&mut out, "`\n\n");
    push_lit(&mut out, "```lom\n");
    let sg = chars_of(it.signature.as_str());
    push_chars(&mut out, &sg);
    push_lit(&mut out, "\n```\n\n");
    match &it.doc {
        Some(d) => {
            let dc = chars_of(d.as_str());
            push_chars(&mut out, &dc);
            push_lit(&mut out, "\n\n");
        },
        None => {
            assert(out@ + Seq::<char>::empty() == out@);
        },
    }
    if it.variants.len() > 0 {
        push_lit(&mut out, "变体：\n\n");
        let ghost g = |v: (String, Vec<String>)| variant_md(v);
        let mut list: Vec<char> = Vec::new();
        let mut j: usize = 0;
        while j < it.variants.len()
            invariant
                j <= it.variants@.len(),
                g == (|v: (String, Vec<String>)| variant_md(v)),
                list@ == sep_list(it.variants@.take(j as int), 0, g, Seq::empty(), Seq::empty()),
            decreases it.variants@.len() - j,
        {
            proof {
                lemma_sep_list_step(it.variants@, j as int, 0, g, Seq::empty(), Seq::empty());
            }
            let ghost before = list@;
            let v = &it.variants[j];
            push_lit(&mut list, "- `");
            let vn = chars_of(v.0.as_str());
            push_chars(&mut list, &vn);
            if v.1.len() == 0 {
                push_lit(&mut list, "`\n");
            } else {
                push_lit(&mut list, "(");
                let fs = join_strs(&v.1, ", ");
                push_chars(&mut list, &fs);
                push_lit(&mut list, ")`\n");
            }
            assert(list@ == before + variant_md(*v) + Seq::<char>::empty() + Seq::<char>::empty());
            j += 1;
        }
        assert(it.variants@.take(it.variants@.len() as int) == it.variants@);
        push_chars(&mut out, &list);
        push_lit(&mut out, "\n");
    } else {
        assert(out@ + Seq::<char>::empty() == out@);
    }
    push_lit(&mut out, "<sub>第 ");
    push_usize(&mut out, it.line);
    push_lit(&mut out, " 行</sub>\n\n");
    out
}

/// The Markdown page of a file's documentation.
pub fn to_markdown(module: &DocModule) -> (r: String)
    ensures
        r@ == doc_markdown(*module),
{
    let mut out = chars_of("# ");
    let f = chars_of(module.file.as_str());
    push_chars(&mut out, &f);
    push_lit(&mut out, "\n\n");
    push_lit(&mut out, "> 由 `lom doc` 自动生成\n\n");
    let ghost g = |it: DocItem| item_md(it);
    let mut list: Vec<char> = Vec::new();
    let mut i: usize = 0;
    while i < module.items.len()
        invariant
            i <= module.items@.len(),
            g == (|it: DocItem| item_md(it)),
            list@ == sep_list(module.items@.take(i as int), 0, g, Seq::empty(), Seq::empty()),
        decreases module.items@.len() - i,
    {
        proof {
            lemma_sep_list_step(module.items@, i as int, 0, g, Seq::empty(), Seq::empty());
        }
        let item = markdown_item(&module.items[i]);
        let ghost before = list@;
        push_chars(&mut list, &item);
        assert(list@ == before + item@ + Seq::<char>::empty() + Seq::<char>::empty());
        i += 1;
    }
    assert(module.items@.take(module.items@.len() as int) == module.items@);
    push_chars(&mut out, &list);
    string_of(&out)
}

} // verus!

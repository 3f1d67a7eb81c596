//! Command-line arguments, and the LSP request fields the server reads.
use vstd::prelude::*;
use crate::fix_history::{closing_quote, lemma_find_in_bounds, string_body_end};
use crate::lsp::{extract_json_string_field as string_field_chars, extract_number_upto, number_field_upto, rpc_string_field};
use crate::text::{chars_eq_lit, chars_of, find_sub, find_sub_from, push_chars, push_lit, slice_chars, string_of};

verus! {

/// Parsed command line.
#[derive(Debug)]
pub struct CliArgs {
    /// `info`, `doc`, `fmt`, `fix`, `repl`, `lsp` or `build`; `None` runs or
    /// checks a file.
    pub subcommand: Option<String>,
    pub file: Option<String>,
    pub json: bool,
    pub check: bool,
    pub help: bool,
    pub version: bool,
    pub plan: bool,
    pub apply: bool,
    pub dry_run: bool,
    pub history: bool,
    /// `--target <t>`.
    pub target: Option<String>,
    /// `-o` / `--output <path>`.
    pub output: Option<String>,
    pub dump_ast: bool,
    pub dump_tokens: bool,
    /// Everything after `--`, for the program.
    pub program_args: Vec<String>,
}

pub struct CliView {
    pub subcommand: Option<Seq<char>>,
    pub file: Option<Seq<char>>,
    pub json: bool,
    pub check: bool,
    pub help: bool,
    pub version: bool,
    pub plan: bool,
    pub apply: bool,
    pub dry_run: bool,
    pub history: bool,
    pub target: Option<Seq<char>>,
    pub output: Option<Seq<char>>,
    pub dump_ast: bool,
    pub dump_tokens: bool,
    pub program_args: Seq<Seq<char>>,
}

pub open spec fn opt_view(o: Option<String>) -> Option<Seq<char>> {
    match o {
        Some(s) => Some(s@),
        None => None,
    }
}

pub open spec fn strings_view(v: Seq<String>) -> Seq<Seq<char>> {
    v.map_values(|s: String| s@)
}

impl View for CliArgs {
    type V = CliView;

    open spec fn view(&self) -> CliView {
        CliView {
            subcommand: opt_view(self.subcommand),
            file: opt_view(self.file),
            json: self.json,
            check: self.check,
            help: self.help,
            version: self.version,
            plan: self.plan,
            apply: self.apply,
            dry_run: self.dry_run,
            history: self.history,
            target: opt_view(self.target),
            output: opt_view(self.output),
            dump_ast: self.dump_ast,
            dump_tokens: self.dump_tokens,
            program_args: strings_view(self.program_args@),
        }
    }
}

pub open spec fn no_args() -> CliView {
    CliView {
        subcommand: None,
        file: None,
        json: false,
        check: false,
        help: false,
        version: false,
        plan: false,
        apply: false,
        dry_run: false,
        history: false,
        target: None,
        output: None,
        dump_ast: false,
        dump_tokens: false,
        program_args: Seq::empty(),
    }
}

pub open spec fn is_subcommand(a: Seq<char>) -> bool {
    a == "info"@ || a == "doc"@ || a == "fmt"@ || a == "fix"@ || a == "repl"@ || a == "lsp"@ || a == "build"@
}

/// The state after a flag that takes no value, or `None` when `a` is none.
pub open spec fn with_flag(st: CliView, a: Seq<char>) -> Option<CliView> {
    if a == "--json"@ {
        Some(CliView { json: true, ..st })
    } else if a == "--check"@ {
        Some(CliView { check: true, ..st })
    } else if a == "--dump-ast"@ {
        Some(CliView { dump_ast: true, ..st })
    } else if a == "--dump-tokens"@ {
        Some(CliView { dump_tokens: true, ..st })
    } else if a == "--plan"@ {
        Some(CliView { plan: true, ..st })
    } else if a == "--apply"@ {
        Some(CliView { apply: true, ..st })
    } else if a == "--dry-run"@ {
        Some(CliView { dry_run: true, ..st })
    } else if a == "--history"@ {
        Some(CliView { history: true, ..st })
    } else if a == "--help"@ || a == "-h"@ {
        Some(CliView { help: true, ..st })
    } else if a == "--version"@ || a == "-V"@ {
        Some(CliView { version: true, ..st })
    } else {
        None
    }
}

pub open spec fn usage_hint() -> Seq<char> {
    "\n使用 --help 查看用法"@
}

/// Reading arguments `i..`: flags, `--target`/`--output` with their value,
/// `--` handing the rest to the program, one file; an unknown option, a
/// missing value or a second file is a usage error.
pub open spec fn args_from(args: Seq<Seq<char>>, i: int, st: CliView) -> Result<CliView, Seq<char>>
    decreases args.len() - i,
{
    if i < 0 || i >= args.len() {
        Ok(st)
    } else {
        let a = args[i];
        if a == "--"@ {
            Ok(CliView { program_args: args.subrange(i + 1, args.len() as int), ..st })
        } else if with_flag(st, a) is Some {
            args_from(args, i + 1, with_flag(st, a).unwrap())
        } else if a == "--target"@ {
            if i + 1 < args.len() {
                args_from(args, i + 2, CliView { target: Some(args[i + 1]), ..st })
            } else {
                Err("--target 需要一个值（如 --target wasm）"@)
            }
        } else if a == "-o"@ || a == "--output"@ {
            if i + 1 < args.len() {
                args_from(args, i + 2, CliView { output: Some(args[i + 1]), ..st })
            } else {
                Err("-o/--output 需要一个路径值"@)
            }
        } else if a.len() > 0 && a[0] == '-' {
            Err("未知选项: "@ + a + usage_hint())
        } else {
            match st.file {
                Some(f) => Err("只能指定一个文件，但收到多个: "@ + f + " "@ + a + usage_hint()),
                None => args_from(args, i + 1, CliView { file: Some(a), ..st }),
            }
        }
    }
}

/// The command line `args` (the program name first): the parsed arguments,
/// or the usage error to report.
pub open spec fn cli_of(args: Seq<Seq<char>>) -> Result<CliView, Seq<char>> {
    if args.len() > 1 && is_subcommand(args[1]) {
        args_from(args, 2, CliView { subcommand: Some(args[1]), ..no_args() })
    } else {
        args_from(args, 1, no_args())
    }
}

fn is_subcommand_exec(a: &[char]) -> (r: bool)
    ensures
        r == is_subcommand(a@),
{
    chars_eq_lit(a, "info") || chars_eq_lit(a, "doc") || chars_eq_lit(a, "fmt") || chars_eq_lit(a, "fix")
        || chars_eq_lit(a, "repl") || chars_eq_lit(a, "lsp") || chars_eq_lit(a, "build")
}

/// Sets the flag `a` names; whether it named one.
fn set_flag(out: &mut CliArgs, a: &[char]) -> (r: bool)
    ensures
        match with_flag(old(out)@, a@) {
            Some(next) => r && final(out)@ == next,
            None => !r && final(out)@ == old(out)@,
        },
{
    if chars_eq_lit(a, "--json") {
        out.json = true;
    } else if chars_eq_lit(a, "--check") {
        out.check = true;
    } else if chars_eq_lit(a, "--dump-ast") {
        out.dump_ast = true;
    } else if chars_eq_lit(a, "--dump-tokens") {
        out.dump_tokens = true;
    } else if chars_eq_lit(a, "--plan") {
        out.plan = true;
    } else if chars_eq_lit(a, "--apply") {
        out.apply = true;
    } else if chars_eq_lit(a, "--dry-run") {
        out.dry_run = true;
    } else if chars_eq_lit(a, "--history") {
        out.history = true;
    } else if chars_eq_lit(a, "--help") || chars_eq_lit(a, "-h") {
        out.help = true;
    } else if chars_eq_lit(a, "--version") || chars_eq_lit(a, "-V") {
        out.version = true;
    } else {
        return false;
    }
    true
}

/// Arguments `from..`, copied.
fn collect_rest(args: &[String], from: usize) -> (r: Vec<String>)
    requires
        from <= args@.len(),
    ensures
        strings_view(r@) == strings_view(args@).subrange(from as int, args@.len() as int),
{
    let ghost av = strings_view(args@);
    let mut rest: Vec<String> = Vec::new();
    let mut j = from;
    while j < args.len()
        invariant
            from <= j <= args@.len(),
            av == strings_view(args@),
            strings_view(rest@) == av.subrange(from as int, j as int),
        decreases args@.len() - j,
    {
        rest.push(args[j].clone());
        assert(av.subrange(from as int, j + 1) == av.subrange(from as int, j as int).push(av[j as int]));
        j += 1;
    }
    rest
}

/// One argument read at `i`: where to go on (`Some`), done (`None`), or the
/// usage error.
fn arg_step(args: &[String], i: usize, out: &mut CliArgs) -> (r: Result<Option<usize>, String>)
    requires
        i < args@.len(),
    ensures
        match r {
            Ok(Some(j)) => i < j <= args@.len() && args_from(strings_view(args@), i as int, old(out)@)
                == args_from(strings_view(args@), j as int, final(out)@),
            Ok(None) => args_from(strings_view(args@), i as int, old(out)@) == Ok::<CliView, Seq<char>>(
                final(out)@,
            ),
            Err(m) => args_from(strings_view(args@), i as int, old(out)@) == Err::<CliView, Seq<char>>(m@),
        },
{
    let ghost av = strings_view(args@);
    let a = chars_of(args[i].as_str());
    assert(a@ == av[i as int]);
    if chars_eq_lit(&a, "--") {
        out.program_args = collect_rest(args, i + 1);
        return Ok(None);
    }
    if set_flag(out, &a) {
        Ok(Some(i + 1))
    } else if chars_eq_lit(&a, "--target") {
        if i + 1 < args.len() {
            out.target = Some(args[i + 1].clone());
            Ok(Some(i + 2))
        } else {
            let m = chars_of("--target 需要一个值（如 --target wasm）");
            Err(string_of(&m))
        }
    } else if chars_eq_lit(&a, "-o") || chars_eq_lit(&a, "--output") {
        if i + 1 < args.len() {
            out.output = Some(args[i + 1].clone());
            Ok(Some(i + 2))
        } else {
            let m = chars_of("-o/--output 需要一个路径值");
            Err(string_of(&m))
        }
    } else if a.len() > 0 && a[0] == '-' {
        let mut m = chars_of("未知选项: ");
        push_chars(&mut m, &a);
        push_lit(&mut m, "\n使用 --help 查看用法");
        Err(string_of(&m))
    } else {
        match &out.file {
            Some(f) => {
                let mut m = chars_of("只能指定一个文件，但收到多个: ");
                push_lit(&mut m, f.as_str());
                push_lit(&mut m, " ");
                push_chars(&mut m, &a);
                push_lit(&mut m, "\n使用 --help 查看用法");
                Err(string_of(&m))
            },
            None => {
                out.file = Some(args[i].clone());
                Ok(Some(i + 1))
            },
        }
    }
}

/// Parses the command line (the program name first); `Err` holds the usage
/// message to print before exiting with status 1.
pub fn parse_args(args: &[String]) -> (r: Result<CliArgs, String>)
    ensures
        match cli_of(strings_view(args@)) {
            Ok(v) => r matches Ok(c) && c@ == v,
            Err(m) => r matches Err(e) && e@ == m,
        },
{
    let ghost av = strings_view(args@);
    let mut out = CliArgs {
        subcommand: None,
        file: None,
        json: false,
        check: false,
        help: false,
        version: false,
        plan: false,
        apply: false,
        dry_run: false,
        history: false,
        target: None,
        output: None,
        dump_ast: false,
        dump_tokens: false,
        program_args: Vec::new(),
    };
    proof {
        assert(out@.program_args =~= Seq::<Seq<char>>::empty());
        assert(out@ == no_args());
    }
    let mut i: usize = 1;
    if args.len() > 1 {
        let first = chars_of(args[1].as_str());
        if is_subcommand_exec(&first) {
            out.subcommand = Some(args[1].clone());
            i = 2;
        }
    }
    if args.len() == 0 {
        return Ok(out);
    }
    while i < args.len()
        invariant
            1 <= i,
            av == strings_view(args@),
            cli_of(av) == args_from(av, i as int, out@),
        decreases args@.len() - i,
    {
        match arg_step(args, i, &mut out) {
            Ok(Some(j)) => {
                i = j;
            },
            Ok(None) => {
                return Ok(out);
            },
            Err(m) => {
                return Err(m);
            },
        }
    }
    Ok(out)
}


// ===== LSP request parameters =====

/// The first `"key":"..."` string value (escapes kept).
pub fn extract_json_string_field(json: &str, key: &str) -> (r: Option<String>)
    ensures
        match rpc_string_field(json@, key@) {
            Some(v) => r matches Some(x) && x@ == v,
            None => r is None,
        },
{
    let cs = chars_of(json);
    match string_field_chars(&cs, key) {
        Some(v) => Some(string_of(&v)),
        None => None,
    }
}

/// The first `"key": <digits>` value, when it fits in `usize`.
pub fn extract_json_number_field(json: &str, key: &str) -> (r: Option<usize>)
    ensures
        match number_field_upto(json@, key@, usize::MAX as nat) {
            Some(v) => r == Some(v as usize),
            None => r is None,
        },
{
    let cs = chars_of(json);
    match extract_number_upto(&cs, key, usize::MAX as u64) {
        Some(v) => Some(v as usize),
        None => None,
    }
}

pub open spec fn text_needle() -> Seq<char> {
    "\"text\":\""@
}

/// Whether scanning the `"text":"..."` values from `from` runs past the end
/// (a needle ending the text with no closing quote), where the scan panics.
pub open spec fn text_scan_overruns(s: Seq<char>, from: int) -> bool
    decreases s.len() + 1 - from,
{
    if from < 0 || from > s.len() {
        false
    } else {
        match find_sub_from(s, text_needle(), from) {
            None => false,
            Some(p) => {
                let start = p + text_needle().len();
                let end = closing_quote(s, start, start);
                if end + 1 > s.len() {
                    true
                } else if end + 1 <= from {
                    false
                } else {
                    text_scan_overruns(s, end + 1)
                }
            },
        }
    }
}

/// The value of the last `"text":"..."` reached scanning from `from`, each
/// scan going on after the previous value's closing quote.
pub open spec fn last_text_from(s: Seq<char>, from: int, last: Option<Seq<char>>) -> Option<Seq<char>>
    decreases s.len() + 1 - from,
{
    if from < 0 || from > s.len() {
        last
    } else {
        match find_sub_from(s, text_needle(), from) {
            None => last,
            Some(p) => {
                let start = p + text_needle().len();
                let end = closing_quote(s, start, start);
                let v = Some(s.subrange(start, end));
                if end + 1 <= from || end + 1 > s.len() {
                    v
                } else {
                    last_text_from(s, end + 1, v)
                }
            },
        }
    }
}

proof fn lemma_closing_quote_bounds(s: Seq<char>, start: int)
    requires
        0 <= start <= s.len(),
    ensures
        start <= closing_quote(s, start, start) <= s.len(),
        closing_quote(s, start, start) < s.len() || closing_quote(s, start, start) == start,
    decreases s.len() - start,
{
    lemma_cq(s, start, start);
}

proof fn lemma_cq(s: Seq<char>, i: int, start: int)
    requires
        0 <= start <= i,
        start <= s.len(),
    ensures
        start <= closing_quote(s, i, start) <= s.len(),
        closing_quote(s, i, start) < s.len() || closing_quote(s, i, start) == start,
    decreases s.len() - i,
{
    if 0 <= i < s.len() {
        if s[i] == '\\' {
            if i + 2 <= s.len() {
                lemma_cq(s, i + 2, start);
            }
        } else if s[i] != '"' {
            lemma_cq(s, i + 1, start);
        }
    }
}

/// The value of the last `"text":"..."` field (escapes kept): the new text in
/// a `didChange` notification's changes.
pub fn extract_last_text_field(json: &str) -> (r: Option<String>)
    requires
        !text_scan_overruns(json@, 0),
    ensures
        match last_text_from(json@, 0, None) {
            Some(v) => r matches Some(x) && x@ == v,
            None => r is None,
        },
{
    let cs = chars_of(json);
    let ghost s = cs@;
    let needle = chars_of("\"text\":\"");
    proof {
        reveal_strlit("\"text\":\"");
    }
    let mut last: Option<Vec<char>> = None;
    let mut search_from: usize = 0;
    loop
        invariant
            s == cs@,
            s == json@,
            needle@ == text_needle(),
            search_from <= s.len(),
            !text_scan_overruns(s, search_from as int),
            last_text_from(s, 0, None) == last_text_from(
                s,
                search_from as int,
                match last {
                    Some(v) => Some(v@),
                    None => None,
                },
            ),
        decreases s.len() + 1 - search_from,
    {
        let found = find_sub(&cs, &needle, search_from);
        proof {
            crate::fix_history::lemma_find_in_bounds(s, needle@, search_from as int);
        }
        if found.is_none() {
            return match last {
                Some(v) => Some(string_of(&v)),
                None => None,
            };
        }
        let p = found.unwrap();
        assert(find_sub_from(s, needle@, search_from as int) == Some(p as int));
        assert(s.len() == cs.len());
        let start = p + needle.len();
        let end = string_body_end(&cs, start);
        proof {
            lemma_closing_quote_bounds(s, start as int);
        }
        let v = slice_chars(&cs, start, end);
        last = Some(v);
        if end + 1 > cs.len() {
            return Some(string_of(&last.unwrap()));
        }
        search_from = end + 1;
    }
}

/// `uri` and `text` of a `didOpen` notification's params.
pub fn extract_did_open_params(params: &str) -> (r: Option<(String, String)>)
    ensures
        match (rpc_string_field(params@, "uri"@), rpc_string_field(params@, "text"@)) {
            (Some(u), Some(t)) => r matches Some((ru, rt)) && ru@ == u && rt@ == t,
            _ => r is None,
        },
{
    let uri = match extract_json_string_field(params, "uri") {
        Some(u) => u,
        None => return None,
    };
    let text = match extract_json_string_field(params, "text") {
        Some(t) => t,
        None => return None,
    };
    Some((uri, text))
}

/// Whether the `"text":"..."` values of `s` can be scanned without running
/// past its end (what `extract_did_change_params` requires).
pub fn text_scan_ok(s: &str) -> (r: bool)
    ensures
        r == !text_scan_overruns(s@, 0),
{
    let cs = chars_of(s);
    let needle = chars_of("\"text\":\"");
    proof {
        reveal_strlit("\"text\":\"");
    }
    let mut from: usize = 0;
    loop
        invariant
            cs@ == s@,
            needle@ == text_needle(),
            from <= cs@.len(),
            text_scan_overruns(s@, 0) == text_scan_overruns(s@, from as int),
        decreases cs@.len() + 1 - from,
    {
        let found = find_sub(&cs, &needle, from);
        proof {
            crate::fix_history::lemma_find_in_bounds(cs@, needle@, from as int);
        }
        match found {
            None => {
                return true;
            },
            Some(p) => {
                assert(find_sub_from(cs@, needle@, from as int) == Some(p as int));
                assert(p + needle@.len() <= cs@.len());
                assert(cs@.len() == cs.len());
                let start = p + needle.len();
                let end = string_body_end(&cs, start);
                proof {
                    lemma_closing_quote_bounds(cs@, start as int);
                }
                if end >= cs.len() {
                    return false;
                }
                if end < from {
                    return true;
                }
                from = end + 1;
            },
        }
    }
}

/// `uri` and the last `text` of a `didChange` notification's params.
pub fn extract_did_change_params(params: &str) -> (r: Option<(String, String)>)
    requires
        !text_scan_overruns(params@, 0),
    ensures
        match (rpc_string_field(params@, "uri"@), last_text_from(params@, 0, None)) {
            (Some(u), Some(t)) => r matches Some((ru, rt)) && ru@ == u && rt@ == t,
            _ => r is None,
        },
{
    let uri = match extract_json_string_field(params, "uri") {
        Some(u) => u,
        None => return None,
    };
    let text = match extract_last_text_field(params) {
        Some(t) => t,
        None => return None,
    };
    Some((uri, text))
}

/// `uri`, `line` and `character` of a hover request's params.
pub fn extract_hover_params(params: &str) -> (r: Option<(String, usize, usize)>)
    ensures
        match (
            rpc_string_field(params@, "uri"@),
            number_field_upto(params@, "line"@, usize::MAX as nat),
            number_field_upto(params@, "character"@, usize::MAX as nat),
        ) {
            (Some(u), Some(l), Some(c)) => r matches Some((ru, rl, rc)) && ru@ == u && rl == l && rc == c,
            _ => r is None,
        },
{
    let uri = match extract_json_string_field(params, "uri") {
        Some(u) => u,
        None => return None,
    };
    let line = match extract_json_number_field(params, "line") {
        Some(l) => l,
        None => return None,
    };
    let col = match extract_json_number_field(params, "character") {
        Some(c) => c,
        None => return None,
    };
    Some((uri, line, col))
}

/// `uri` of a completion request's params.
pub fn extract_completion_uri(params: &str) -> (r: Option<String>)
    ensures
        match rpc_string_field(params@, "uri"@) {
            Some(u) => r matches Some(x) && x@ == u,
            None => r is None,
        },
{
    extract_json_string_field(params, "uri")
}

} // verus!

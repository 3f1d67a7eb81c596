//! Structured diagnostics (`lom-diag/v1`): classification of lexer and parser
//! errors into error codes, fix hints, and JSON / human-readable rendering.
use vstd::prelude::*;
use crate::text::{
    bool_text, chars_eq_lit, chars_of, contains_lit, contains_sub, dec, escape_json, lemma_sep_list_step, lines, lines_of, owned,
    push_bool, push_chars, push_json_escaped, push_lit, push_usize, repeat_char, sep_list, starts_with, starts_with_lit, string_of,
};
use crate::lexer::LexError;
use crate::parser::{ParseError, ParseResult};

verus! {

broadcast use vstd::string::group_string_axioms;

/// Stage that produced a diagnostic.
#[derive(Debug, Clone, Copy, PartialEq, Eq, Structural)]
pub enum Stage {
    Lex,
    Parse,
    Type,
    Runtime,
}

impl Stage {
    /// Lower-case name of the stage.
    pub open spec fn name(self) -> Seq<char> {
        match self {
            Stage::Lex => "lex"@,
            Stage::Parse => "parse"@,
            Stage::Type => "type"@,
            Stage::Runtime => "runtime"@,
        }
    }

    pub fn as_str(&self) -> (r: &'static str)
        ensures
            r@ == self.name(),
    {
        match self {
            Stage::Lex => "lex",
            Stage::Parse => "parse",
            Stage::Type => "type",
            Stage::Runtime => "runtime",
        }
    }
}

/// Severity of a diagnostic.
#[derive(Debug, Clone, Copy, PartialEq, Eq, Structural)]
pub enum Severity {
    Error,
    Warning,
    Info,
}

impl Severity {
    /// Lower-case name of the severity.
    pub open spec fn name(self) -> Seq<char> {
        match self {
            Severity::Error => "error"@,
            Severity::Warning => "warning"@,
            Severity::Info => "info"@,
        }
    }

    pub fn as_str(&self) -> (r: &'static str)
        ensures
            r@ == self.name(),
    {
        match self {
            Severity::Error => "error",
            Severity::Warning => "warning",
            Severity::Info => "info",
        }
    }
}

/// One diagnostic.
#[derive(Debug)]
pub struct Diagnostic {
    pub severity: Severity,
    pub stage: Stage,
    pub code: String,
    pub message: String,
    pub file: String,
    pub line: usize,
    pub col: usize,
    pub source_line: Option<String>,
    pub is_hole: bool,
    pub hint: Option<String>,
}

/// The text of an optional string.
pub open spec fn opt_text(o: Option<String>) -> Option<Seq<char>> {
    match o {
        Some(s) => Some(s@),
        None => None,
    }
}

/// The source line a 1-based line number points at (line 0 counts as line 1).
pub open spec fn source_line_at(lines: Seq<&str>, line: usize) -> Option<Seq<char>> {
    let idx = if line == 0 { 0 } else { line - 1 };
    if idx < lines.len() {
        Some(lines[idx]@)
    } else {
        None
    }
}

fn get_source_line(lines: &[&str], line: usize) -> (r: Option<String>)
    ensures
        opt_text(r) == source_line_at(lines@, line),
{
    let idx = if line == 0 { 0 } else { line - 1 };
    if idx < lines.len() {
        Some(owned(lines[idx]))
    } else {
        None
    }
}

// ===== classification =====

/// Error code of a lexical error message.
pub open spec fn lex_code(msg: Seq<char>) -> Seq<char> {
    if contains_sub(msg, "未闭合的字符串转义"@) {
        "LEX002"@
    } else if contains_sub(msg, "未闭合的字符串"@) {
        "LEX001"@
    } else if contains_sub(msg, "无效浮点数"@) {
        "LEX003"@
    } else if contains_sub(msg, "无效整数"@) {
        "LEX004"@
    } else if contains_sub(msg, "意外字符"@) {
        "LEX005"@
    } else {
        "LEX000"@
    }
}

/// Error code of a syntax error message.
pub open spec fn parse_code(msg: Seq<char>) -> Seq<char> {
    if contains_sub(msg, "代码洞"@) || contains_sub(msg, "Hole"@) {
        "PARSE099"@
    } else if contains_sub(msg, "Result"@) && contains_sub(msg, "类型参数"@) {
        "PARSE002"@
    } else if contains_sub(msg, "Option"@) && contains_sub(msg, "类型参数"@) {
        "PARSE003"@
    } else if starts_with(msg, "期望"@) {
        "PARSE001"@
    } else {
        "PARSE000"@
    }
}

/// Fix hint of a lexical error code.
pub open spec fn lex_hint(code: Seq<char>) -> Option<Seq<char>> {
    if code == "LEX001"@ {
        Some("在字符串末尾添加 \" 闭合"@)
    } else if code == "LEX002"@ {
        Some("在转义序列后添加 \" 闭合字符串"@)
    } else if code == "LEX003"@ || code == "LEX004"@ {
        Some("检查数字格式，确保无非法字符"@)
    } else if code == "LEX005"@ {
        Some("移除或替换非法字符"@)
    } else {
        None
    }
}

/// Fix hint of a syntax error code.
pub open spec fn parse_hint(code: Seq<char>) -> Option<Seq<char>> {
    if code == "PARSE001"@ {
        Some("检查语法结构是否完整，关键字/分隔符是否匹配"@)
    } else if code == "PARSE002"@ {
        Some("Result<T, E> 需要 2 个类型参数"@)
    } else if code == "PARSE003"@ {
        Some("Option<T> 需要 1 个类型参数"@)
    } else if code == "PARSE099"@ {
        Some("该处解析失败，已插入代码洞；参考上下文补全语法"@)
    } else {
        None
    }
}

/// Error code of a runtime error message.
pub open spec fn runtime_code(msg: Seq<char>) -> Seq<char> {
    if contains_sub(msg, "代码洞"@) || contains_sub(msg, "hole"@) {
        "RUNTIME003"@
    } else if contains_sub(msg, "未定义"@) || contains_sub(msg, "未找到"@) || contains_sub(msg, "未导入"@) {
        "RUNTIME002"@
    } else if contains_sub(msg, "期望"@) && contains_sub(msg, "得到"@) {
        "RUNTIME001"@
    } else if starts_with(msg, "提前返回"@) {
        "RUNTIME004"@
    } else if contains_sub(msg, "未知模块"@) || contains_sub(msg, "不导出符号"@) {
        "RUNTIME005"@
    } else {
        "RUNTIME000"@
    }
}

/// Fix hint of a runtime error code.
pub open spec fn runtime_hint(code: Seq<char>) -> Option<Seq<char>> {
    if code == "RUNTIME001"@ {
        Some("检查值类型与操作期望是否一致"@)
    } else if code == "RUNTIME002"@ {
        Some("确认变量已声明/导入，拼写无误"@)
    } else if code == "RUNTIME003"@ {
        Some("代码洞无法执行；先修复对应位置的语法错误"@)
    } else if code == "RUNTIME005"@ {
        Some("检查模块名/符号名是否在标准库（io/string/math）中"@)
    } else {
        None
    }
}

fn classify_runtime_error(msg: &[char]) -> (r: &'static str)
    ensures
        r@ == runtime_code(msg@),
{
    if contains_lit(msg, "代码洞") || contains_lit(msg, "hole") {
        "RUNTIME003"
    } else if contains_lit(msg, "未定义") || contains_lit(msg, "未找到") || contains_lit(msg, "未导入") {
        "RUNTIME002"
    } else if contains_lit(msg, "期望") && contains_lit(msg, "得到") {
        "RUNTIME001"
    } else if starts_with_lit(msg, "提前返回") {
        "RUNTIME004"
    } else if contains_lit(msg, "未知模块") || contains_lit(msg, "不导出符号") {
        "RUNTIME005"
    } else {
        "RUNTIME000"
    }
}

fn get_runtime_hint(code: &[char]) -> (r: Option<String>)
    ensures
        opt_text(r) == runtime_hint(code@),
{
    if chars_eq_lit(code, "RUNTIME001") {
        Some(owned("检查值类型与操作期望是否一致"))
    } else if chars_eq_lit(code, "RUNTIME002") {
        Some(owned("确认变量已声明/导入，拼写无误"))
    } else if chars_eq_lit(code, "RUNTIME003") {
        Some(owned("代码洞无法执行；先修复对应位置的语法错误"))
    } else if chars_eq_lit(code, "RUNTIME005") {
        Some(owned("检查模块名/符号名是否在标准库（io/string/math）中"))
    } else {
        None
    }
}

/// Whether a message reports a code hole.
pub open spec fn mentions_hole(msg: Seq<char>) -> bool {
    contains_sub(msg, "代码洞"@) || contains_sub(msg, "hole"@)
}

fn classify_lex_error(msg: &[char]) -> (r: &'static str)
    ensures
        r@ == lex_code(msg@),
{
    if contains_lit(msg, "未闭合的字符串转义") {
        "LEX002"
    } else if contains_lit(msg, "未闭合的字符串") {
        "LEX001"
    } else if contains_lit(msg, "无效浮点数") {
        "LEX003"
    } else if contains_lit(msg, "无效整数") {
        "LEX004"
    } else if contains_lit(msg, "意外字符") {
        "LEX005"
    } else {
        "LEX000"
    }
}

fn classify_parse_error(msg: &[char]) -> (r: &'static str)
    ensures
        r@ == parse_code(msg@),
{
    if contains_lit(msg, "代码洞") || contains_lit(msg, "Hole") {
        "PARSE099"
    } else if contains_lit(msg, "Result") && contains_lit(msg, "类型参数") {
        "PARSE002"
    } else if contains_lit(msg, "Option") && contains_lit(msg, "类型参数") {
        "PARSE003"
    } else if starts_with_lit(msg, "期望") {
        "PARSE001"
    } else {
        "PARSE000"
    }
}

fn get_lex_hint(code: &[char]) -> (r: Option<String>)
    ensures
        opt_text(r) == lex_hint(code@),
{
    if chars_eq_lit(code, "LEX001") {
        Some(owned("在字符串末尾添加 \" 闭合"))
    } else if chars_eq_lit(code, "LEX002") {
        Some(owned("在转义序列后添加 \" 闭合字符串"))
    } else if chars_eq_lit(code, "LEX003") || chars_eq_lit(code, "LEX004") {
        Some(owned("检查数字格式，确保无非法字符"))
    } else if chars_eq_lit(code, "LEX005") {
        Some(owned("移除或替换非法字符"))
    } else {
        None
    }
}

fn get_parse_hint(code: &[char]) -> (r: Option<String>)
    ensures
        opt_text(r) == parse_hint(code@),
{
    if chars_eq_lit(code, "PARSE001") {
        Some(owned("检查语法结构是否完整，关键字/分隔符是否匹配"))
    } else if chars_eq_lit(code, "PARSE002") {
        Some(owned("Result<T, E> 需要 2 个类型参数"))
    } else if chars_eq_lit(code, "PARSE003") {
        Some(owned("Option<T> 需要 1 个类型参数"))
    } else if chars_eq_lit(code, "PARSE099") {
        Some(owned("该处解析失败，已插入代码洞；参考上下文补全语法"))
    } else {
        None
    }
}

impl Diagnostic {
    /// Builds the diagnostic of a lexical error.
    pub fn from_lex(err: &LexError, file: &str, source_lines: &[&str]) -> (d: Self)
        ensures
            d.severity == Severity::Error,
            d.stage == Stage::Lex,
            d.code@ == lex_code(err.message@),
            d.message@ == err.message@,
            d.file@ == file@,
            d.line == err.line,
            d.col == err.col,
            opt_text(d.source_line) == source_line_at(source_lines@, err.line),
            !d.is_hole,
            opt_text(d.hint) == lex_hint(lex_code(err.message@)),
    {
        let msg = chars_of(err.message.as_str());
        let code = owned(classify_lex_error(&msg));
        let code_chars = chars_of(code.as_str());
        let hint = get_lex_hint(&code_chars);
        Diagnostic {
            severity: Severity::Error,
            stage: Stage::Lex,
            code,
            message: string_of(&msg),
            file: owned(file),
            line: err.line,
            col: err.col,
            source_line: get_source_line(source_lines, err.line),
            is_hole: false,
            hint,
        }
    }

    /// Builds the diagnostic of a runtime error from its message; the line is
    /// 0 when the position is unknown, and then no source line is shown.
    pub fn from_runtime(message: &str, file: &str, source_lines: &[&str], line: usize, col: usize) -> (d: Self)
        ensures
            d.severity == Severity::Error,
            d.stage == Stage::Runtime,
            d.code@ == runtime_code(message@),
            d.message@ == message@,
            d.file@ == file@,
            d.line == line,
            d.col == col,
            opt_text(d.source_line) == (if line > 0 {
                source_line_at(source_lines@, line)
            } else {
                None
            }),
            d.is_hole == mentions_hole(message@),
            opt_text(d.hint) == runtime_hint(runtime_code(message@)),
    {
        let msg = chars_of(message);
        let code = owned(classify_runtime_error(&msg));
        let code_chars = chars_of(code.as_str());
        let hint = get_runtime_hint(&code_chars);
        let source_line = if line > 0 {
            get_source_line(source_lines, line)
        } else {
            None
        };
        let is_hole = contains_lit(&msg, "代码洞") || contains_lit(&msg, "hole");
        Diagnostic {
            severity: Severity::Error,
            stage: Stage::Runtime,
            code,
            message: string_of(&msg),
            file: owned(file),
            line,
            col,
            source_line,
            is_hole,
            hint,
        }
    }

    /// Builds the diagnostic of a syntax error. Lexical errors reach the parser's
    /// error list too, so a message that classifies as lexical gets the lexical stage.
    pub fn from_parse(err: &ParseError, file: &str, source_lines: &[&str]) -> (d: Self)
        ensures
            d.severity == Severity::Error,
            lex_code(err.message@) != "LEX000"@ ==> d.stage == Stage::Lex && d.code@ == lex_code(err.message@)
                && opt_text(d.hint) == lex_hint(d.code@),
            lex_code(err.message@) == "LEX000"@ ==> d.stage == Stage::Parse && d.code@ == parse_code(err.message@)
                && opt_text(d.hint) == parse_hint(d.code@),
            d.message@ == err.message@,
            d.file@ == file@,
            d.line == err.line,
            d.col == err.col,
            opt_text(d.source_line) == source_line_at(source_lines@, err.line),
            d.is_hole == mentions_hole(err.message@),
    {
        let msg = chars_of(err.message.as_str());
        let lex = classify_lex_error(&msg);
        let lex_chars = chars_of(lex);
        let (stage, code) = if !chars_eq_lit(&lex_chars, "LEX000") {
            (Stage::Lex, owned(lex))
        } else {
            (Stage::Parse, owned(classify_parse_error(&msg)))
        };
        let code_chars = chars_of(code.as_str());
        let is_hole = contains_lit(&msg, "代码洞") || contains_lit(&msg, "hole");
        let hint = if stage == Stage::Lex {
            get_lex_hint(&code_chars)
        } else {
            get_parse_hint(&code_chars)
        };
        Diagnostic {
            severity: Severity::Error,
            stage,
            code,
            message: string_of(&msg),
            file: owned(file),
            line: err.line,
            col: err.col,
            source_line: get_source_line(source_lines, err.line),
            is_hole,
            hint,
        }
    }
}

/// JSON string escape (quote, backslash, newline, carriage return and tab get
/// short escapes, other control characters a `\u` escape).
pub fn json_escape(s: &str) -> (r: String)
    ensures
        r@ == escape_json(s@),
{
    let c = chars_of(s);
    string_of(&crate::text::json_escaped(&c))
}

// ===== collection =====

/// `d` is the diagnostic of the syntax error `err` (as `Diagnostic::from_parse`
/// builds it): an error, of the lexical stage and code when the message
/// classifies as lexical and of the parse stage and code otherwise, with the
/// hint of that code, the message, file, position, source line, and whether
/// it marks a hole.
pub open spec fn parse_diagnostic(d: Diagnostic, err: ParseError, file: Seq<char>, source_lines: Seq<&str>) -> bool {
    &&& d.severity == Severity::Error
    &&& lex_code(err.message@) != "LEX000"@ ==> d.stage == Stage::Lex && d.code@ == lex_code(err.message@) && opt_text(
        d.hint,
    ) == lex_hint(d.code@)
    &&& lex_code(err.message@) == "LEX000"@ ==> d.stage == Stage::Parse && d.code@ == parse_code(err.message@)
        && opt_text(d.hint) == parse_hint(d.code@)
    &&& d.message@ == err.message@
    &&& d.file@ == file
    &&& d.line == err.line
    &&& d.col == err.col
    &&& opt_text(d.source_line) == source_line_at(source_lines, err.line)
    &&& d.is_hole == mentions_hole(err.message@)
}

/// All diagnostics of one compile or run.
pub struct Diagnostics {
    pub schema: &'static str,
    pub file: String,
    pub ok: bool,
    pub diagnostics: Vec<Diagnostic>,
}

/// Number of diagnostics of a given severity.
pub open spec fn count_severity(ds: Seq<Diagnostic>, sev: Severity) -> nat
    decreases ds.len(),
{
    if ds.len() == 0 {
        0
    } else {
        count_severity(ds.drop_last(), sev) + if ds.last().severity == sev { 1nat } else { 0nat }
    }
}

/// Number of diagnostics that mark a code hole.
pub open spec fn count_holes(ds: Seq<Diagnostic>) -> nat
    decreases ds.len(),
{
    if ds.len() == 0 {
        0
    } else {
        count_holes(ds.drop_last()) + if ds.last().is_hole { 1nat } else { 0nat }
    }
}

/// Counts per severity add up to the total.
pub proof fn lemma_severity_counts(ds: Seq<Diagnostic>)
    ensures
        count_severity(ds, Severity::Error) + count_severity(ds, Severity::Warning)
            + count_severity(ds, Severity::Info) == ds.len(),
        count_holes(ds) <= ds.len(),
    decreases ds.len(),
{
    if ds.len() > 0 {
        lemma_severity_counts(ds.drop_last());
    }
}

/// JSON object of one diagnostic (without the list separator).
pub open spec fn diag_json(d: Diagnostic) -> Seq<char> {
    "    {\n"@
        + "      \"severity\": \""@ + d.severity.name() + "\",\n"@
        + "      \"stage\": \""@ + d.stage.name() + "\",\n"@
        + "      \"code\": \""@ + d.code@ + "\",\n"@
        + "      \"message\": \""@ + escape_json(d.message@) + "\",\n"@
        + "      \"file\": \""@ + escape_json(d.file@) + "\",\n"@
        + "      \"line\": "@ + dec(d.line as nat) + ",\n"@
        + "      \"col\": "@ + dec(d.col as nat) + ",\n"@
        + (match d.source_line {
            Some(s) => "      \"source_line\": \""@ + escape_json(s@) + "\",\n"@,
            None => "      \"source_line\": null,\n"@,
        })
        + "      \"is_hole\": "@ + bool_text(d.is_hole) + ",\n"@
        + (match d.hint {
            Some(h) => "      \"hint\": \""@ + escape_json(h@) + "\"\n"@,
            None => "      \"hint\": null\n"@,
        })
        + "    }"@
}

/// The `lom-diag/v1` JSON document.
pub open spec fn diagnostics_json(ds: Diagnostics) -> Seq<char> {
    let items = ds.diagnostics@;
    "{\n"@
        + "  \"schema\": \""@ + ds.schema@ + "\",\n"@
        + "  \"file\": \""@ + escape_json(ds.file@) + "\",\n"@
        + "  \"ok\": "@ + bool_text(ds.ok) + ",\n"@
        + "  \"summary\": {\n"@
        + "    \"total\": "@ + dec(items.len()) + ",\n"@
        + "    \"errors\": "@ + dec(count_severity(items, Severity::Error)) + ",\n"@
        + "    \"warnings\": "@ + dec(count_severity(items, Severity::Warning)) + ",\n"@
        + "    \"holes\": "@ + dec(count_holes(items)) + "\n"@
        + "  },\n"@
        + "  \"diagnostics\": ["@
        + (if items.len() == 0 {
            "]\n"@
        } else {
            "\n"@ + sep_list(items, items.len() as int, |d: Diagnostic| diag_json(d), ","@, "\n"@) + "  ]\n"@
        })
        + "}\n"@
}

/// Human-readable rendering of one diagnostic.
pub open spec fn diag_human(d: Diagnostic) -> Seq<char> {
    "["@ + d.stage.name() + "] "@ + d.severity.name() + " ("@ + dec(d.line as nat) + ":"@ + dec(d.col as nat)
        + "): ["@ + d.code@ + "] "@ + d.message@ + "\n"@
        + (match d.source_line {
            Some(s) => "    | "@ + s@ + "\n"@ + "    | "@
                + (if d.col > 0 { repeat_char(' ', (d.col - 1) as nat) } else { Seq::empty() }) + "^\n"@,
            None => Seq::empty(),
        })
        + (match d.hint {
            Some(h) => "    hint: "@ + h@ + "\n"@,
            None => Seq::empty(),
        })
        + (if d.is_hole { "    (代码洞 — 容错解析器插入的占位符)\n"@ } else { Seq::empty() })
}

/// Human-readable rendering of all diagnostics with a closing summary line.
pub open spec fn diagnostics_human(ds: Diagnostics) -> Seq<char> {
    let items = ds.diagnostics@;
    sep_list(items, 0, |d: Diagnostic| diag_human(d), Seq::empty(), Seq::empty())
        + "共 "@ + dec(items.len()) + " 个诊断（"@ + dec(count_severity(items, Severity::Error)) + " 错误，"@
        + dec(count_severity(items, Severity::Warning)) + " 警告，"@ + dec(count_holes(items)) + " 代码洞）。\n"@
}

fn opt_json_field(o: &Option<String>, some_head: &str, some_tail: &str, none_text: &str) -> (r: Vec<char>)
    ensures
        r@ == (match *o {
            Some(s) => some_head@ + escape_json(s@) + some_tail@,
            None => none_text@,
        }),
{
    match o {
        Some(s) => {
            let mut out = chars_of(some_head);
            let c = chars_of(s.as_str());
            push_json_escaped(&mut out, &c);
            push_lit(&mut out, some_tail);
            out
        }
        None => chars_of(none_text),
    }
}

fn render_diag_json(d: &Diagnostic) -> (r: Vec<char>)
    ensures
        r@ == diag_json(*d),
{
    let mut out = chars_of("    {\n");
    push_lit(&mut out, "      \"severity\": \"");
    push_lit(&mut out, d.severity.as_str());
    push_lit(&mut out, "\",\n");
    push_lit(&mut out, "      \"stage\": \"");
    push_lit(&mut out, d.stage.as_str());
    push_lit(&mut out, "\",\n");
    push_lit(&mut out, "      \"code\": \"");
    push_lit(&mut out, d.code.as_str());
    push_lit(&mut out, "\",\n");
    push_lit(&mut out, "      \"message\": \"");
    let m = chars_of(d.message.as_str());
    push_json_escaped(&mut out, &m);
    push_lit(&mut out, "\",\n");
    push_lit(&mut out, "      \"file\": \"");
    let f = chars_of(d.file.as_str());
    push_json_escaped(&mut out, &f);
    push_lit(&mut out, "\",\n");
    push_lit(&mut out, "      \"line\": ");
    push_usize(&mut out, d.line);
    push_lit(&mut out, ",\n");
    push_lit(&mut out, "      \"col\": ");
    push_usize(&mut out, d.col);
    push_lit(&mut out, ",\n");
    let sl = opt_json_field(&d.source_line, "      \"source_line\": \"", "\",\n", "      \"source_line\": null,\n");
    push_chars(&mut out, &sl);
    push_lit(&mut out, "      \"is_hole\": ");
    push_bool(&mut out, d.is_hole);
    push_lit(&mut out, ",\n");
    let h = opt_json_field(&d.hint, "      \"hint\": \"", "\"\n", "      \"hint\": null\n");
    push_chars(&mut out, &h);
    push_lit(&mut out, "    }");
    out
}

fn render_diag_human(d: &Diagnostic) -> (r: Vec<char>)
    ensures
        r@ == diag_human(*d),
{
    let mut out = chars_of("[");
    push_lit(&mut out, d.stage.as_str());
    push_lit(&mut out, "] ");
    push_lit(&mut out, d.severity.as_str());
    push_lit(&mut out, " (");
    push_usize(&mut out, d.line);
    push_lit(&mut out, ":");
    push_usize(&mut out, d.col);
    push_lit(&mut out, "): [");
    push_lit(&mut out, d.code.as_str());
    push_lit(&mut out, "] ");
    push_lit(&mut out, d.message.as_str());
    push_lit(&mut out, "\n");
    let src_part: Vec<char> = match &d.source_line {
        Some(src) => {
            let mut p = chars_of("    | ");
            push_lit(&mut p, src.as_str());
            push_lit(&mut p, "\n");
            push_lit(&mut p, "    | ");
            let mut pad: Vec<char> = Vec::new();
            if d.col > 0 {
                let mut i: usize = 0;
                while i < d.col - 1
                    invariant
                        d.col > 0,
                        i <= d.col - 1,
                        pad@ == repeat_char(' ', i as nat),
                    decreases d.col - 1 - i,
                {
                    pad.push(' ');
                    i += 1;
                }
            }
            push_chars(&mut p, &pad);
            push_lit(&mut p, "^\n");
            p
        }
        None => Vec::new(),
    };
    push_chars(&mut out, &src_part);
    let hint_part: Vec<char> = match &d.hint {
        Some(h) => {
            let mut p = chars_of("    hint: ");
            push_lit(&mut p, h.as_str());
            push_lit(&mut p, "\n");
            p
        }
        None => Vec::new(),
    };
    push_chars(&mut out, &hint_part);
    let hole_part: Vec<char> = if d.is_hole {
        chars_of("    (代码洞 — 容错解析器插入的占位符)\n")
    } else {
        Vec::new()
    };
    push_chars(&mut out, &hole_part);
    out
}

impl Diagnostics {
    /// An empty, successful collection for `file`.
    pub fn new(file: &str) -> (r: Self)
        ensures
            r.schema@ == "lom-diag/v1"@,
            r.file@ == file@,
            r.ok,
            r.diagnostics@.len() == 0,
    {
        Diagnostics {
            schema: "lom-diag/v1",
            file: owned(file),
            ok: true,
            diagnostics: Vec::new(),
        }
    }

    /// The diagnostics of a tolerant parse: one per syntax error, in order,
    /// as `Diagnostic::from_parse` builds it; ok when there is none.
    pub fn from_parse_result(result: &ParseResult, file: &str, source_lines: &[&str]) -> (r: Self)
        ensures
            r.schema@ == "lom-diag/v1"@,
            r.file@ == file@,
            r.ok == (result.errors@.len() == 0),
            r.diagnostics@.len() == result.errors@.len(),
            forall|k: int|
                0 <= k < r.diagnostics@.len() ==> parse_diagnostic(
                    #[trigger] r.diagnostics@[k],
                    result.errors@[k],
                    file@,
                    source_lines@,
                ),
    {
        let mut ds: Vec<Diagnostic> = Vec::new();
        let mut i: usize = 0;
        while i < result.errors.len()
            invariant
                i <= result.errors@.len(),
                ds@.len() == i,
                forall|k: int|
                    0 <= k < i ==> parse_diagnostic(#[trigger] ds@[k], result.errors@[k], file@, source_lines@),
            decreases result.errors@.len() - i,
        {
            ds.push(Diagnostic::from_parse(&result.errors[i], file, source_lines));
            i += 1;
        }
        let ok = ds.len() == 0;
        Diagnostics { schema: "lom-diag/v1", file: owned(file), ok, diagnostics: ds }
    }

    /// Records a runtime error (its message) at a position of `src`; the run
    /// is then not ok.
    pub fn add_runtime(&mut self, message: &str, src: &str, line: usize, col: usize)
        ensures
            !final(self).ok,
            final(self).file == old(self).file,
            final(self).schema == old(self).schema,
            final(self).diagnostics@.len() == old(self).diagnostics@.len() + 1,
            final(self).diagnostics@.drop_last() == old(self).diagnostics@,
            ({
                let d = final(self).diagnostics@.last();
                let ls = lines(src@);
                &&& d.severity == Severity::Error
                &&& d.stage == Stage::Runtime
                &&& d.code@ == runtime_code(message@)
                &&& d.message@ == message@
                &&& d.file@ == old(self).file@
                &&& d.line == line
                &&& d.col == col
                &&& opt_text(d.source_line) == (if line > 0 && line - 1 < ls.len() {
                    Some(ls[line - 1])
                } else {
                    None
                })
                &&& d.is_hole == mentions_hole(message@)
                &&& opt_text(d.hint) == runtime_hint(runtime_code(message@))
            }),
    {
        let cs = chars_of(src);
        let ls = lines_of(&cs);
        let mut owned_lines: Vec<String> = Vec::new();
        let mut k: usize = 0;
        while k < ls.len()
            invariant
                k <= ls@.len(),
                owned_lines@.len() == k,
                forall|q: int| 0 <= q < k ==> #[trigger] owned_lines@[q]@ == ls@[q]@,
            decreases ls@.len() - k,
        {
            owned_lines.push(string_of(&ls[k]));
            k += 1;
        }
        let mut refs: Vec<&str> = Vec::new();
        let mut q: usize = 0;
        while q < owned_lines.len()
            invariant
                q <= owned_lines@.len(),
                refs@.len() == q,
                forall|j: int| 0 <= j < q ==> #[trigger] refs@[j]@ == owned_lines@[j]@,
            decreases owned_lines@.len() - q,
        {
            refs.push(owned_lines[q].as_str());
            q += 1;
        }
        let file = self.file.clone();
        let d = Diagnostic::from_runtime(message, file.as_str(), &refs, line, col);
        proof {
            if line > 0 && line - 1 < refs@.len() {
                assert(refs@[line - 1]@ == lines(src@)[line - 1]);
            }
        }
        let ghost before = self.diagnostics@;
        self.diagnostics.push(d);
        self.ok = false;
        proof {
            assert(self.diagnostics@.drop_last() =~= before);
        }
    }

    /// `(total, errors, warnings, holes)`.
    pub fn summary(&self) -> (r: (usize, usize, usize, usize))
        ensures
            r.0 == self.diagnostics@.len(),
            r.1 == count_severity(self.diagnostics@, Severity::Error),
            r.2 == count_severity(self.diagnostics@, Severity::Warning),
            r.3 == count_holes(self.diagnostics@),
    {
        let n = self.diagnostics.len();
        let mut errors: usize = 0;
        let mut warnings: usize = 0;
        let mut holes: usize = 0;
        let mut i: usize = 0;
        while i < n
            invariant
                n == self.diagnostics@.len(),
                i <= n,
                errors == count_severity(self.diagnostics@.take(i as int), Severity::Error),
                warnings == count_severity(self.diagnostics@.take(i as int), Severity::Warning),
                holes == count_holes(self.diagnostics@.take(i as int)),
                errors <= i,
                warnings <= i,
                holes <= i,
            decreases n - i,
        {
            let d = &self.diagnostics[i];
            proof {
                assert(self.diagnostics@.take(i + 1).drop_last() == self.diagnostics@.take(i as int));
            }
            if d.severity == Severity::Error {
                errors += 1;
            }
            if d.severity == Severity::Warning {
                warnings += 1;
            }
            if d.is_hole {
                holes += 1;
            }
            i += 1;
        }
        assert(self.diagnostics@.take(n as int) == self.diagnostics@);
        (n, errors, warnings, holes)
    }

    /// The `lom-diag/v1` JSON document.
    pub fn to_json(&self) -> (r: String)
        ensures
            r@ == diagnostics_json(*self),
    {
        let (total, errors, warnings, holes) = self.summary();
        let mut out = chars_of("{\n");
        push_lit(&mut out, "  \"schema\": \"");
        push_lit(&mut out, self.schema);
        push_lit(&mut out, "\",\n");
        push_lit(&mut out, "  \"file\": \"");
        let f = chars_of(self.file.as_str());
        push_json_escaped(&mut out, &f);
        push_lit(&mut out, "\",\n");
        push_lit(&mut out, "  \"ok\": ");
        push_bool(&mut out, self.ok);
        push_lit(&mut out, ",\n");
        push_lit(&mut out, "  \"summary\": {\n");
        push_lit(&mut out, "    \"total\": ");
        push_usize(&mut out, total);
        push_lit(&mut out, ",\n");
        push_lit(&mut out, "    \"errors\": ");
        push_usize(&mut out, errors);
        push_lit(&mut out, ",\n");
        push_lit(&mut out, "    \"warnings\": ");
        push_usize(&mut out, warnings);
        push_lit(&mut out, ",\n");
        push_lit(&mut out, "    \"holes\": ");
        push_usize(&mut out, holes);
        push_lit(&mut out, "\n");
        push_lit(&mut out, "  },\n");
        push_lit(&mut out, "  \"diagnostics\": [");
        let n = self.diagnostics.len();
        if n == 0 {
            push_lit(&mut out, "]\n");
        } else {
            push_lit(&mut out, "\n");
            let ghost f = |d: Diagnostic| diag_json(d);
            let mut list: Vec<char> = Vec::new();
            let mut i: usize = 0;
            while i < n
                invariant
                    n == self.diagnostics@.len(),
                    i <= n,
                    f == (|d: Diagnostic| diag_json(d)),
                    list@ == sep_list(self.diagnostics@.take(i as int), n as int, f, ","@, "\n"@),
                decreases n - i,
            {
                proof { lemma_sep_list_step(self.diagnostics@, i as int, n as int, f, ","@, "\n"@); }
                let item = render_diag_json(&self.diagnostics[i]);
                assert(f(self.diagnostics@[i as int]) == diag_json(self.diagnostics@[i as int]));
                push_chars(&mut list, &item);
                if i + 1 < n {
                    push_lit(&mut list, ",");
                } else {
                    assert(list@ + Seq::<char>::empty() =~= list@);
                }
                push_lit(&mut list, "\n");
                i += 1;
            }
            assert(self.diagnostics@.take(n as int) == self.diagnostics@);
            push_chars(&mut out, &list);
            push_lit(&mut out, "  ]\n");
        }
        push_lit(&mut out, "}\n");
        assert(out@ =~= diagnostics_json(*self));
        string_of(&out)
    }

    /// Human-readable rendering with source context and a pointer line.
    pub fn to_human(&self) -> (r: String)
        ensures
            r@ == diagnostics_human(*self),
    {
        let mut out: Vec<char> = Vec::new();
        let n = self.diagnostics.len();
        let ghost f = |d: Diagnostic| diag_human(d);
        let mut i: usize = 0;
        while i < n
            invariant
                n == self.diagnostics@.len(),
                i <= n,
                f == (|d: Diagnostic| diag_human(d)),
                out@ == sep_list(self.diagnostics@.take(i as int), 0, f, Seq::empty(), Seq::empty()),
            decreases n - i,
        {
            proof { lemma_sep_list_step(self.diagnostics@, i as int, 0, f, Seq::empty(), Seq::empty()); }
            let item = render_diag_human(&self.diagnostics[i]);
            assert(f(self.diagnostics@[i as int]) == diag_human(self.diagnostics@[i as int]));
            push_chars(&mut out, &item);
            assert(out@ + Seq::<char>::empty() + Seq::<char>::empty() =~= out@);
            i += 1;
        }
        assert(self.diagnostics@.take(n as int) == self.diagnostics@);
        let (total, errors, warnings, holes) = self.summary();
        let ghost body = out@;
        push_lit(&mut out, "共 ");
        push_usize(&mut out, total);
        push_lit(&mut out, " 个诊断（");
        push_usize(&mut out, errors);
        push_lit(&mut out, " 错误，");
        push_usize(&mut out, warnings);
        push_lit(&mut out, " 警告，");
        push_usize(&mut out, holes);
        push_lit(&mut out, " 代码洞）。\n");
        assert(out@ =~= diagnostics_human(*self));
        string_of(&out)
    }
}

} // verus!

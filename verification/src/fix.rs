//! Repair plans (`lom-fix/v1`): for every diagnostic, zero or more repair actions
//! (insert / replace / delete / hint) with a confidence level.
use vstd::prelude::*;
use vstd::utf8::{decode_utf8, encode_utf8, is_char_boundary};
use vstd::string::StringSliceAdditionalSpecFns;
use crate::text::{
    chars_eq_lit, chars_of, contains_lit, contains_sub, find_char, find_char_from, is_blank, is_whitespace,
    lines, lines_of, push_chars, push_lit, rfind_char, push_usize, push_bool, bool_text, sep_list,
    lemma_sep_list_step, debug_quoted, debug_string,
    rfind_char_before, slice_chars, string_of, trim, trim_chars, ws_prefix_end, dec,
};
use crate::diagnostics::{Diagnostic, Diagnostics, Severity, Stage, opt_text};

verus! {

broadcast use vstd::string::group_string_axioms;

// ===== data =====

/// Repair plan for one file (`lom-fix/v1` top level).
pub struct FixPlan {
    pub file: String,
    pub ok: bool,
    pub plans: Vec<Plan>,
}

/// Repair plan for one diagnostic.
pub struct Plan {
    pub diagnostic: DiagRef,
    pub fixes: Vec<FixAction>,
    pub retry: bool,
}

/// The part of a diagnostic a repair plan repeats.
pub struct DiagRef {
    pub code: String,
    pub severity: Severity,
    pub stage: Stage,
    pub line: usize,
    pub col: usize,
    pub message: String,
}

/// One repair action. Positions are 1-based characters; 0 means "no position".
pub struct FixAction {
    pub description: String,
    pub action: ActionKind,
    pub line: usize,
    pub col: usize,
    pub end_line: Option<usize>,
    pub end_col: Option<usize>,
    pub text: Option<String>,
    pub confidence: Confidence,
}

/// Kind of a repair action.
#[derive(Debug, Clone, Copy, PartialEq, Eq, Structural)]
pub enum ActionKind {
    Insert,
    Replace,
    Delete,
    Hint,
}

impl ActionKind {
    /// Lower-case name of the action kind.
    pub open spec fn name(self) -> Seq<char> {
        match self {
            ActionKind::Insert => "insert"@,
            ActionKind::Replace => "replace"@,
            ActionKind::Delete => "delete"@,
            ActionKind::Hint => "hint"@,
        }
    }

    pub fn as_str(&self) -> (r: &'static str)
        ensures
            r@ == self.name(),
    {
        match self {
            ActionKind::Insert => "insert",
            ActionKind::Replace => "replace",
            ActionKind::Delete => "delete",
            ActionKind::Hint => "hint",
        }
    }
}

/// Confidence of a repair action.
#[derive(Debug, Clone, Copy, PartialEq, Eq, Structural)]
pub enum Confidence {
    High,
    Medium,
    Low,
}

impl Confidence {
    /// Lower-case name of the confidence level.
    pub open spec fn name(self) -> Seq<char> {
        match self {
            Confidence::High => "high"@,
            Confidence::Medium => "medium"@,
            Confidence::Low => "low"@,
        }
    }

    pub fn as_str(&self) -> (r: &'static str)
        ensures
            r@ == self.name(),
    {
        match self {
            Confidence::High => "high",
            Confidence::Medium => "medium",
            Confidence::Low => "low",
        }
    }
}

/// A repair action with its texts as character sequences.
pub struct FixActionView {
    pub description: Seq<char>,
    pub action: ActionKind,
    pub line: usize,
    pub col: usize,
    pub end_line: Option<usize>,
    pub end_col: Option<usize>,
    pub text: Option<Seq<char>>,
    pub confidence: Confidence,
}

impl View for FixAction {
    type V = FixActionView;

    open spec fn view(&self) -> FixActionView {
        FixActionView {
            description: self.description@,
            action: self.action,
            line: self.line,
            col: self.col,
            end_line: self.end_line,
            end_col: self.end_col,
            text: opt_text(self.text),
            confidence: self.confidence,
        }
    }
}

/// The views of a list of repair actions.
pub open spec fn fix_views(fs: Seq<FixAction>) -> Seq<FixActionView> {
    fs.map_values(|f: FixAction| f@)
}

/// A hint-only action.
pub open spec fn hint_view(text: Seq<char>, confidence: Confidence) -> FixActionView {
    FixActionView {
        description: text,
        action: ActionKind::Hint,
        line: 0,
        col: 0,
        end_line: None,
        end_col: None,
        text: None,
        confidence,
    }
}

/// An insertion of `text` at `(line, col)`.
pub open spec fn insert_view(description: Seq<char>, line: usize, col: usize, text: Seq<char>, confidence: Confidence) -> FixActionView {
    FixActionView {
        description,
        action: ActionKind::Insert,
        line,
        col,
        end_line: None,
        end_col: None,
        text: Some(text),
        confidence,
    }
}

fn mk_fix(
    description: &[char],
    action: ActionKind,
    line: usize,
    col: usize,
    end_line: Option<usize>,
    end_col: Option<usize>,
    text: Option<&[char]>,
    confidence: Confidence,
) -> (r: FixAction)
    ensures
        r@ == (FixActionView {
            description: description@,
            action,
            line,
            col,
            end_line,
            end_col,
            text: match text { Some(t) => Some(t@), None => None },
            confidence,
        }),
{
    FixAction {
        description: string_of(description),
        action,
        line,
        col,
        end_line,
        end_col,
        text: match text { Some(t) => Some(string_of(t)), None => None },
        confidence,
    }
}

fn hint_only(text: &[char], confidence: Confidence) -> (r: FixAction)
    ensures
        r@ == hint_view(text@, confidence),
{
    mk_fix(text, ActionKind::Hint, 0, 0, None, None, None, confidence)
}

fn hint_only_lit(text: &str, confidence: Confidence) -> (r: FixAction)
    ensures
        r@ == hint_view(text@, confidence),
{
    let t = chars_of(text);
    hint_only(&t, confidence)
}

fn one(f: FixAction) -> (r: Vec<FixAction>)
    ensures
        fix_views(r@) == seq![f@],
{
    let mut r: Vec<FixAction> = Vec::new();
    r.push(f);
    assert(fix_views(r@) =~= seq![f@]);
    r
}

// ===== message scanning =====

/// Text between the first two single quotes of `m`.
pub open spec fn quoted_first(m: Seq<char>) -> Option<Seq<char>> {
    match find_char_from(m, '\'', 0) {
        None => None,
        Some(a) => match find_char_from(m, '\'', a + 1) {
            None => None,
            Some(b) => Some(m.subrange(a + 1, b)),
        },
    }
}

/// First character between the first two single quotes of `m`.
pub open spec fn quoted_first_char(m: Seq<char>) -> Option<char> {
    match quoted_first(m) {
        Some(q) => if q.len() > 0 { Some(q[0]) } else { None },
        None => None,
    }
}

/// Text between the last two single quotes of `m`.
pub open spec fn quoted_last(m: Seq<char>) -> Option<Seq<char>> {
    match rfind_char_before(m, '\'', m.len() as int) {
        None => None,
        Some(e) => match rfind_char_before(m, '\'', e) {
            None => None,
            Some(s) => Some(m.subrange(s + 1, e)),
        },
    }
}

/// The name a hint of the form "是否想用 'X'？" suggests.
pub open spec fn suggestion(hint: Option<Seq<char>>) -> Option<Seq<char>> {
    match hint {
        None => None,
        Some(h) => if !contains_sub(h, "是否想用"@) { None } else { quoted_first(h) },
    }
}

/// Trimmed text inside the second pair of square brackets of `m`.
pub open spec fn second_bracketed(m: Seq<char>) -> Option<Seq<char>> {
    match find_char_from(m, '[', 0) {
        None => None,
        Some(a) => match find_char_from(m, '[', a + 1) {
            None => None,
            Some(b) => match find_char_from(m, ']', b + 1) {
                None => None,
                Some(e) => Some(trim(m.subrange(b + 1, e))),
            },
        },
    }
}

fn extract_quoted_string(msg: &[char]) -> (r: Option<Vec<char>>)
    ensures
        match r { Some(v) => quoted_first(msg@) == Some(v@), None => quoted_first(msg@) is None },
{
    let a = match find_char(msg, '\'', 0) {
        Some(a) => a,
        None => return None,
    };
    proof { lemma_find_bounds(msg@, '\'', 0); }
    assert(a < msg.len());
    let b = match find_char(msg, '\'', a + 1) {
        Some(b) => b,
        None => return None,
    };
    proof { lemma_find_bounds(msg@, '\'', a + 1); }
    Some(slice_chars(msg, a + 1, b))
}

/// The first character between the first two single quotes of a message.
pub fn extract_quoted_char(msg: &str) -> (r: Option<char>)
    ensures
        r == quoted_first_char(msg@),
{
    let m = chars_of(msg);
    match extract_quoted_string(&m) {
        Some(q) => if q.len() > 0 { Some(q[0]) } else { None },
        None => None,
    }
}

fn extract_last_quoted(msg: &[char]) -> (r: Option<Vec<char>>)
    ensures
        match r { Some(v) => quoted_last(msg@) == Some(v@), None => quoted_last(msg@) is None },
{
    let e = match rfind_char(msg, '\'', msg.len()) {
        Some(e) => e,
        None => return None,
    };
    proof { lemma_rfind_bounds(msg@, '\'', msg@.len() as int); }
    let s = match rfind_char(msg, '\'', e) {
        Some(s) => s,
        None => return None,
    };
    proof { lemma_rfind_bounds(msg@, '\'', e as int); }
    Some(slice_chars(msg, s + 1, e))
}

fn extract_suggestion(hint: &Option<String>) -> (r: Option<Vec<char>>)
    ensures
        match r { Some(v) => suggestion(opt_text(*hint)) == Some(v@), None => suggestion(opt_text(*hint)) is None },
{
    match hint {
        None => None,
        Some(h) => {
            let hc = chars_of(h.as_str());
            if !contains_lit(&hc, "是否想用") {
                return None;
            }
            extract_quoted_string(&hc)
        }
    }
}

/// The trimmed text inside the second pair of square brackets of a message.
pub fn extract_second_bracketed(msg: &str) -> (r: Option<String>)
    ensures
        opt_text(r) == second_bracketed(msg@),
{
    let m = chars_of(msg);
    let a = match find_char(&m, '[', 0) {
        Some(a) => a,
        None => return None,
    };
    proof { lemma_find_bounds(m@, '[', 0); }
    assert(a < m.len());
    let b = match find_char(&m, '[', a + 1) {
        Some(b) => b,
        None => return None,
    };
    proof { lemma_find_bounds(m@, '[', a + 1); }
    assert(b < m.len());
    let e = match find_char(&m, ']', b + 1) {
        Some(e) => e,
        None => return None,
    };
    proof { lemma_find_bounds(m@, ']', b + 1); }
    let inner = slice_chars(&m, b + 1, e);
    Some(string_of(&trim_chars(&inner)))
}

proof fn lemma_find_bounds(s: Seq<char>, c: char, i: int)
    ensures
        find_char_from(s, c, i) matches Some(k) ==> i <= k < s.len() && s[k] == c,
    decreases s.len() - i,
{
    if 0 <= i < s.len() && s[i] != c {
        lemma_find_bounds(s, c, i + 1);
    }
}

proof fn lemma_rfind_bounds(s: Seq<char>, c: char, i: int)
    ensures
        rfind_char_before(s, c, i) matches Some(k) ==> 0 <= k < i && k < s.len() && s[k] == c,
    decreases i,
{
    if 0 < i <= s.len() && s[i - 1] != c {
        lemma_rfind_bounds(s, c, i - 1);
    }
}

// ===== identifier characters =====

/// What `char::is_alphanumeric` returns for a character.
pub uninterp spec fn alphanumeric(c: char) -> bool;

/// `char::is_alphanumeric` (Unicode `Alphabetic` or `Numeric`). The contract
/// names the result and states its ASCII part: the ASCII letters and digits
/// qualify and no other ASCII character does; beyond ASCII it states nothing.
#[verifier::external_body]
fn char_is_alphanumeric(c: char) -> (r: bool)
    ensures
        r == alphanumeric(c),
        ('a' <= c <= 'z' || 'A' <= c <= 'Z' || '0' <= c <= '9') ==> r,
        (c as u32) < 128 && !('a' <= c <= 'z' || 'A' <= c <= 'Z' || '0' <= c <= '9') ==> !r,
{
    c.is_alphanumeric()
}

/// Identifier character of the language: alphanumeric or underscore.
pub open spec fn ident_char(c: char) -> bool {
    alphanumeric(c) || c == '_'
}

fn is_ident_char(c: char) -> (r: bool)
    ensures
        r == ident_char(c),
        (c as u32) < 128 ==> (r <==> ('a' <= c <= 'z' || 'A' <= c <= 'Z' || '0' <= c <= '9' || c == '_')),
{
    char_is_alphanumeric(c) || c == '_'
}

// ===== locating names in the source =====

/// Where a whole-word occurrence scan of one line continues: start positions of
/// the occurrences of `n` in `l` from position `i` on, skipping string literals
/// (with escapes) and `#` comments.
pub open spec fn occ_from(l: Seq<char>, n: Seq<char>, dot: bool, i: int, in_str: bool) -> Seq<int>
    decreases l.len() + 2 - i,
{
    if i < 0 || i >= l.len() || n.len() == 0 {
        Seq::empty()
    } else if in_str {
        if l[i] == '\\' {
            occ_from(l, n, dot, i + 2, true)
        } else if l[i] == '"' {
            occ_from(l, n, dot, i + 1, false)
        } else {
            occ_from(l, n, dot, i + 1, true)
        }
    } else if l[i] == '"' {
        occ_from(l, n, dot, i + 1, true)
    } else if l[i] == '#' {
        Seq::empty()
    } else if i + n.len() <= l.len() && l.subrange(i, i + n.len()) == n {
        let left_ok = if dot { i > 0 && l[i - 1] == '.' } else { i == 0 || !ident_char(l[i - 1]) };
        let right_ok = i + n.len() == l.len() || !ident_char(l[i + n.len()]);
        if left_ok && right_ok {
            seq![i] + occ_from(l, n, dot, i + n.len(), false)
        } else {
            occ_from(l, n, dot, i + n.len(), false)
        }
    } else {
        occ_from(l, n, dot, i + 1, false)
    }
}

/// All whole-word occurrences of `n` in the lines, as 1-based
/// `(line, col, end_col)` with `end_col` exclusive.
pub open spec fn token_occurrences(lines: Seq<Seq<char>>, n: Seq<char>, dot: bool) -> Seq<(int, int, int)>
    decreases lines.len(),
{
    if lines.len() == 0 {
        Seq::empty()
    } else {
        token_occurrences(lines.drop_last(), n, dot) + occ_from(lines.last(), n, dot, 0, false).map_values(
            |i: int| (lines.len() as int, i + 1, i + 1 + n.len()),
        )
    }
}

/// `(line, col)` of `a` comes before that of `b` in reading order.
pub open spec fn occurrence_before(a: (int, int, int), b: (int, int, int)) -> bool {
    a.0 < b.0 || (a.0 == b.0 && a.1 < b.1)
}

proof fn lemma_occ_from_increasing(l: Seq<char>, n: Seq<char>, dot: bool, i: int, in_str: bool)
    ensures
        forall|a: int| 0 <= a < occ_from(l, n, dot, i, in_str).len() ==> i <= #[trigger] occ_from(l, n, dot, i, in_str)[a] < l.len(),
        forall|a: int, b: int|
            0 <= a < b < occ_from(l, n, dot, i, in_str).len() ==> #[trigger] occ_from(l, n, dot, i, in_str)[a]
                < #[trigger] occ_from(l, n, dot, i, in_str)[b],
    decreases l.len() + 2 - i,
{
    let o = occ_from(l, n, dot, i, in_str);
    if i < 0 || i >= l.len() || n.len() == 0 {
    } else {
        let (j, st) = if in_str {
            if l[i] == '\\' {
                (i + 2, true)
            } else if l[i] == '"' {
                (i + 1, false)
            } else {
                (i + 1, true)
            }
        } else if l[i] == '"' {
            (i + 1, true)
        } else if i + n.len() <= l.len() && l.subrange(i, i + n.len()) == n {
            (i + n.len(), false)
        } else {
            (i + 1, false)
        };
        if !in_str && l[i] == '#' {
        } else {
            lemma_occ_from_increasing(l, n, dot, j, st);
            let rest = occ_from(l, n, dot, j, st);
            if o == rest {
            } else {
                assert(o == seq![i] + rest);
                assert forall|a: int| 0 <= a < o.len() implies i <= #[trigger] o[a] < l.len() by {
                    if a > 0 {
                        assert(o[a] == rest[a - 1]);
                    }
                }
                assert forall|a: int, b: int| 0 <= a < b < o.len() implies #[trigger] o[a] < #[trigger] o[b] by {
                    assert(o[b] == rest[b - 1]);
                    if a > 0 {
                        assert(o[a] == rest[a - 1]);
                    }
                }
            }
        }
    }
}

proof fn lemma_token_occurrences_ordered(lines: Seq<Seq<char>>, n: Seq<char>, dot: bool)
    ensures
        forall|a: int|
            0 <= a < token_occurrences(lines, n, dot).len() ==> 1 <= (#[trigger] token_occurrences(lines, n, dot)[a]).0
                <= lines.len(),
        forall|a: int, b: int|
            0 <= a < b < token_occurrences(lines, n, dot).len() ==> occurrence_before(
                #[trigger] token_occurrences(lines, n, dot)[a],
                #[trigger] token_occurrences(lines, n, dot)[b],
            ),
    decreases lines.len(),
{
    if lines.len() > 0 {
        let prev = token_occurrences(lines.drop_last(), n, dot);
        lemma_token_occurrences_ordered(lines.drop_last(), n, dot);
        let occ = occ_from(lines.last(), n, dot, 0, false);
        lemma_occ_from_increasing(lines.last(), n, dot, 0, false);
        let m = occ.map_values(|i: int| (lines.len() as int, i + 1, i + 1 + n.len()));
        let r = token_occurrences(lines, n, dot);
        assert(r == prev + m);
        assert forall|a: int| 0 <= a < r.len() implies 1 <= (#[trigger] r[a]).0 <= lines.len() by {
            if a < prev.len() {
                assert(r[a] == prev[a]);
            } else {
                assert(r[a] == m[a - prev.len()]);
            }
        }
        assert forall|a: int, b: int| 0 <= a < b < r.len() implies occurrence_before(#[trigger] r[a], #[trigger] r[b]) by {
            if b < prev.len() {
                assert(r[a] == prev[a] && r[b] == prev[b]);
            } else if a < prev.len() {
                assert(r[a] == prev[a]);
                assert(r[b] == m[b - prev.len()]);
            } else {
                assert(r[a] == m[a - prev.len()]);
                assert(r[b] == m[b - prev.len()]);
                assert(occ[a - prev.len()] < occ[b - prev.len()]);
            }
        }
    }
}

/// The occurrences of a name come in reading order: by line, then by
/// column, each position at most once.
pub proof fn lemma_occurrences_in_order(lines: Seq<Seq<char>>, n: Seq<char>, dot: bool)
    ensures
        forall|a: int, b: int|
            0 <= a < b < token_occurrences(lines, n, dot).len() ==> occurrence_before(
                #[trigger] token_occurrences(lines, n, dot)[a],
                #[trigger] token_occurrences(lines, n, dot)[b],
            ),
{
    lemma_token_occurrences_ordered(lines, n, dot);
}

fn scan_line(l: &[char], n: &[char], dot: bool) -> (r: Vec<usize>)
    requires
        l@.len() < usize::MAX,
    ensures
        r@.map_values(|k: usize| k as int) == occ_from(l@, n@, dot, 0, false),
        forall|k: int| 0 <= k < r@.len() ==> r@[k] + n@.len() <= l@.len(),
{
    let mut out: Vec<usize> = Vec::new();
    if n.len() == 0 {
        assert(out@.map_values(|k: usize| k as int) =~= Seq::<int>::empty());
        return out;
    }
    let mut in_string = false;
    let mut i: usize = 0;
    while i < l.len()
        invariant
            l@.len() < usize::MAX,
            n@.len() > 0,
            out@.map_values(|k: usize| k as int) + occ_from(l@, n@, dot, i as int, in_string) == occ_from(l@, n@, dot, 0, false),
            forall|k: int| 0 <= k < out@.len() ==> out@[k] + n@.len() <= l@.len(),
        decreases l@.len() - i,
    {
        let c = l[i];
        if in_string {
            if c == '\\' {
                if i + 2 > l.len() {
                    assert(occ_from(l@, n@, dot, i + 2, true) == Seq::<int>::empty());
                    i = l.len();
                    continue;
                }
                i += 2;
                continue;
            }
            if c == '"' {
                in_string = false;
            }
            i += 1;
            continue;
        }
        if c == '"' {
            in_string = true;
            i += 1;
            continue;
        }
        if c == '#' {
            assert(occ_from(l@, n@, dot, i as int, in_string) == Seq::<int>::empty());
            assert(out@.map_values(|k: usize| k as int) + Seq::<int>::empty() =~= out@.map_values(|k: usize| k as int));
            return out;
        }
        if n.len() <= l.len() - i && crate::text::sub_at(l, n, i) {
            let left_ok = if dot {
                i > 0 && l[i - 1] == '.'
            } else {
                i == 0 || !is_ident_char(l[i - 1])
            };
            let right_ok = i + n.len() == l.len() || !is_ident_char(l[i + n.len()]);
            if left_ok && right_ok {
                let ghost before = out@.map_values(|k: usize| k as int);
                out.push(i);
                assert(out@.map_values(|k: usize| k as int) =~= before.push(i as int));
                assert(before.push(i as int) + occ_from(l@, n@, dot, i + n@.len(), false)
                    =~= before + (seq![i as int] + occ_from(l@, n@, dot, i + n@.len(), false)));
            }
            i += n.len();
            continue;
        }
        i += 1;
    }
    proof {
        if !(i < l@.len()) {
            assert(occ_from(l@, n@, dot, i as int, in_string) == Seq::<int>::empty());
            assert(out@.map_values(|k: usize| k as int) + Seq::<int>::empty() =~= out@.map_values(|k: usize| k as int));
        }
    }
    out
}

/// Whole-word occurrences of `name` in the source lines (skipping string
/// literals and comments), as 1-based `(line, col, end_col)`.
pub fn find_token_occurrences(source_lines: &[&str], name: &str, dot_prefix: bool) -> (r: Vec<(usize, usize, usize)>)
    requires
        forall|k: int| 0 <= k < source_lines@.len() ==> (#[trigger] source_lines@[k])@.len() < usize::MAX,
    ensures
        r@.map_values(|t: (usize, usize, usize)| (t.0 as int, t.1 as int, t.2 as int))
            == token_occurrences(source_lines@.map_values(|s: &str| s@), name@, dot_prefix),
{
    let nm = chars_of(name);
    find_occurrences(source_lines, &nm, dot_prefix)
}

fn find_occurrences(source_lines: &[&str], nm: &[char], dot_prefix: bool) -> (r: Vec<(usize, usize, usize)>)
    requires
        forall|k: int| 0 <= k < source_lines@.len() ==> (#[trigger] source_lines@[k])@.len() < usize::MAX,
    ensures
        r@.map_values(|t: (usize, usize, usize)| (t.0 as int, t.1 as int, t.2 as int))
            == token_occurrences(source_lines@.map_values(|s: &str| s@), nm@, dot_prefix),
{
    let ghost lv = source_lines@.map_values(|s: &str| s@);
    let mut out: Vec<(usize, usize, usize)> = Vec::new();
    let mut li: usize = 0;
    while li < source_lines.len()
        invariant
            li <= source_lines@.len(),
            lv == source_lines@.map_values(|s: &str| s@),
            forall|k: int| 0 <= k < source_lines@.len() ==> (#[trigger] source_lines@[k])@.len() < usize::MAX,
            out@.map_values(|t: (usize, usize, usize)| (t.0 as int, t.1 as int, t.2 as int))
                == token_occurrences(lv.take(li as int), nm@, dot_prefix),
        decreases source_lines@.len() - li,
    {
        let line = chars_of(source_lines[li]);
        assert(line@.len() < usize::MAX);
        let starts = scan_line(&line, nm, dot_prefix);
        let ghost before = out@.map_values(|t: (usize, usize, usize)| (t.0 as int, t.1 as int, t.2 as int));
        let ghost occ = occ_from(line@, nm@, dot_prefix, 0, false);
        let ghost f = |i: int| ((li + 1) as int, i + 1, i + 1 + nm@.len());
        let mut j: usize = 0;
        assert(occ.take(0).map_values(f) =~= Seq::<(int, int, int)>::empty());
        assert(before + occ.take(0).map_values(f) =~= before);
        while j < starts.len()
            invariant
                j <= starts@.len(),
                li < source_lines.len(),
                line@.len() < usize::MAX,
                starts@.map_values(|k: usize| k as int) == occ,
                forall|k: int| 0 <= k < starts@.len() ==> starts@[k] + nm@.len() <= line@.len(),
                f == (|i: int| ((li + 1) as int, i + 1, i + 1 + nm@.len())),
                out@.map_values(|t: (usize, usize, usize)| (t.0 as int, t.1 as int, t.2 as int))
                    == before + occ.take(j as int).map_values(f),
            decreases starts@.len() - j,
        {
            let s = starts[j];
            assert(starts@.map_values(|k: usize| k as int)[j as int] == s as int);
            assert(occ[j as int] == s as int);
            assert(starts@[j as int] + nm@.len() <= line@.len());
            let ghost prev = out@.map_values(|t: (usize, usize, usize)| (t.0 as int, t.1 as int, t.2 as int));
            out.push((li + 1, s + 1, s + 1 + nm.len()));
            let ghost tup = ((li + 1) as int, s + 1 as int, s + 1 + nm@.len());
            assert(f(s as int) == tup);
            assert(out@.map_values(|t: (usize, usize, usize)| (t.0 as int, t.1 as int, t.2 as int)) =~= prev.push(tup));
            assert(occ.take(j + 1).map_values(f) =~= occ.take(j as int).map_values(f).push(f(s as int)));
            assert(out@.map_values(|t: (usize, usize, usize)| (t.0 as int, t.1 as int, t.2 as int))
                =~= before + occ.take(j + 1).map_values(f));
            j += 1;
        }
        proof {
            assert(occ.take(starts@.len() as int) =~= occ);
            assert(lv.take(li + 1).drop_last() =~= lv.take(li as int));
            assert(lv.take(li + 1).last() == line@);
            assert(lv.take(li + 1).len() == li + 1);
        }
        li += 1;
    }
    assert(lv.take(source_lines@.len() as int) =~= lv);
    out
}

/// Exact position from a diagnostic's byte column: `Some((line, col, end_col))`
/// in characters when the bytes of `name` stand at the diagnostic's position
/// (and, for a field, right after a `.`).
pub open spec fn precise_at(d: Diagnostic, lines: Seq<Seq<char>>, name: Seq<char>, dot: bool) -> Option<(int, int, int)> {
    if d.line == 0 || d.col == 0 || d.line - 1 >= lines.len() {
        None
    } else {
        let lb = encode_utf8(lines[d.line - 1]);
        let nb = encode_utf8(name);
        let bs = d.col - 1;
        if lb.len() < bs + nb.len() || lb.subrange(bs as int, bs + nb.len()) != nb {
            None
        } else if !is_char_boundary(lb, bs as int) {
            None
        } else {
            let before = decode_utf8(lb.subrange(0, bs as int));
            if dot && !(before.len() > 0 && before.last() == '.') {
                None
            } else {
                Some((d.line as int, before.len() + 1 as int, before.len() + name.len() + 1 as int))
            }
        }
    }
}

fn bytes_match_at(h: &[u8], n: &[u8], i: usize) -> (r: bool)
    requires
        i + n@.len() <= h@.len(),
    ensures
        r == (h@.subrange(i as int, i + n@.len()) == n@),
{
    let mut k: usize = 0;
    while k < n.len()
        invariant
            i + n@.len() <= h@.len(),
            h@.len() == h.len(),
            k <= n@.len(),
            forall|j: int| 0 <= j < k ==> h@[i + j] == n@[j],
        decreases n@.len() - k,
    {
        if h[i + k] != n[k] {
            assert(h@.subrange(i as int, i + n@.len())[k as int] != n@[k as int]);
            return false;
        }
        k += 1;
    }
    assert(h@.subrange(i as int, i + n@.len()) == n@);
    true
}

fn precise_occurrence(d: &Diagnostic, source_lines: &[&str], name: &[char], dot_prefix: bool) -> (r: Option<(usize, usize, usize)>)
    requires
        forall|k: int| 0 <= k < source_lines@.len() ==> (#[trigger] source_lines@[k])@.len() < usize::MAX / 2,
        name@.len() < usize::MAX / 2,
    ensures
        match r {
            Some(t) => precise_at(*d, source_lines@.map_values(|s: &str| s@), name@, dot_prefix)
                == Some((t.0 as int, t.1 as int, t.2 as int)),
            None => precise_at(*d, source_lines@.map_values(|s: &str| s@), name@, dot_prefix) is None,
        },
{
    let ghost lv = source_lines@.map_values(|s: &str| s@);
    if d.line == 0 || d.col == 0 || d.line - 1 >= source_lines.len() {
        return None;
    }
    let line: &str = source_lines[d.line - 1];
    assert(lv[d.line - 1] == line@);
    let lb = line.as_bytes();
    let name_s = string_of(name);
    let nb = name_s.as_str().as_bytes();
    let bs = d.col - 1;
    if lb.len() < bs || lb.len() - bs < nb.len() {
        return None;
    }
    if !bytes_match_at(lb, nb, bs) {
        return None;
    }
    if !line.is_char_boundary(bs) {
        return None;
    }
    let (first, _rest) = line.split_at(bs);
    let fc = chars_of(first);
    proof {
        vstd::utf8::encode_utf8_decode_utf8(first@);
        vstd::utf8::encode_utf8_decode_utf8(line@);
        vstd::utf8::encode_utf8_valid_utf8(line@);
        vstd::utf8::decode_utf8_split(lb@, bs as int);
        assert(first.spec_bytes() == lb@.subrange(0, bs as int));
        assert(fc@ == decode_utf8(lb@.subrange(0, bs as int)));
        assert(fc@.len() <= line@.len());
    }
    if dot_prefix {
        if !(fc.len() > 0 && fc[fc.len() - 1] == '.') {
            return None;
        }
    }
    let col = fc.len() + 1;
    Some((d.line, col, col + name.len()))
}

// ===== effect annotations =====

/// Position of the `]` closing the first `! [` (spaces allowed after `!`) that has one.
pub open spec fn effect_close_from(c: Seq<char>, i: int) -> Option<int>
    decreases c.len() - i,
{
    if i < 0 || i + 1 >= c.len() {
        None
    } else if c[i] == '!' && ws_space_end(c, i + 1) < c.len() && c[ws_space_end(c, i + 1)] == '['
        && find_char_from(c, ']', ws_space_end(c, i + 1) + 1) is Some {
        find_char_from(c, ']', ws_space_end(c, i + 1) + 1)
    } else {
        effect_close_from(c, i + 1)
    }
}

/// First position `>= j` that is not a space.
pub open spec fn ws_space_end(c: Seq<char>, j: int) -> int
    decreases c.len() - j,
{
    if j < 0 || j >= c.len() || c[j] != ' ' {
        j
    } else {
        ws_space_end(c, j + 1)
    }
}

proof fn lemma_ws_space_end(c: Seq<char>, j: int)
    requires
        0 <= j <= c.len(),
    ensures
        j <= ws_space_end(c, j) <= c.len(),
    decreases c.len() - j,
{
    if j < c.len() && c[j] == ' ' {
        lemma_ws_space_end(c, j + 1);
    }
}

fn find_effect_close_bracket(line: &[char]) -> (r: Option<usize>)
    ensures
        match r { Some(k) => effect_close_from(line@, 0) == Some(k as int), None => effect_close_from(line@, 0) is None },
{
    let mut i: usize = 0;
    while i < line.len() && line.len() - i > 1
        invariant
            effect_close_from(line@, 0) == effect_close_from(line@, i as int),
        decreases line@.len() - i,
    {
        if line[i] == '!' {
            let mut j = i + 1;
            while j < line.len() && line[j] == ' '
                invariant
                    i + 1 <= j <= line@.len(),
                    ws_space_end(line@, i + 1) == ws_space_end(line@, j as int),
                decreases line@.len() - j,
            {
                j += 1;
            }
            if j < line.len() && line[j] == '[' {
                if let Some(k) = find_char(line, ']', j + 1) {
                    return Some(k);
                }
            }
        }
        i += 1;
    }
    None
}

// ===== earlier non-empty line =====

/// The last non-blank line before line `li + 1` (1-based), as `(line, end_col)`,
/// stopping at the first line number past the end.
pub open spec fn prev_nonempty_from(lines: Seq<Seq<char>>, li: int) -> Option<(int, int)>
    decreases li,
{
    if li < 1 {
        None
    } else if li - 1 >= lines.len() {
        None
    } else if trim(lines[li - 1]).len() != 0 {
        Some((li, lines[li - 1].len() + 1 as int))
    } else {
        prev_nonempty_from(lines, li - 1)
    }
}

/// The last non-blank line before line `err_line` (1-based), as `(line, end_col)`.
pub open spec fn prev_nonempty(lines: Seq<Seq<char>>, err_line: usize) -> Option<(int, int)> {
    prev_nonempty_from(lines, if err_line == 0 { 0 } else { err_line - 1 })
}

fn prev_nonempty_line_end(source_lines: &[&str], err_line: usize) -> (r: Option<(usize, usize)>)
    requires
        forall|k: int| 0 <= k < source_lines@.len() ==> (#[trigger] source_lines@[k])@.len() < usize::MAX,
    ensures
        match r {
            Some(t) => prev_nonempty(source_lines@.map_values(|s: &str| s@), err_line) == Some((t.0 as int, t.1 as int)),
            None => prev_nonempty(source_lines@.map_values(|s: &str| s@), err_line) is None,
        },
{
    let ghost lv = source_lines@.map_values(|s: &str| s@);
    let mut li: usize = if err_line == 0 { 0 } else { err_line - 1 };
    while li >= 1
        invariant
            lv == source_lines@.map_values(|s: &str| s@),
            forall|k: int| 0 <= k < source_lines@.len() ==> (#[trigger] source_lines@[k])@.len() < usize::MAX,
            prev_nonempty(lv, err_line) == prev_nonempty_from(lv, li as int),
        decreases li,
    {
        if li - 1 >= source_lines.len() {
            return None;
        }
        let line = chars_of(source_lines[li - 1]);
        assert(lv[li - 1] == line@);
        if !is_blank(&line) {
            return Some((li, line.len() + 1));
        }
        li -= 1;
    }
    None
}

// ===== the repair strategies =====

/// Lines of the source as character sequences.
pub open spec fn line_views(source_lines: Seq<&str>) -> Seq<Seq<char>> {
    source_lines.map_values(|s: &str| s@)
}

/// A diagnostic whose message leaves room for position arithmetic, and whose
/// column can be advanced by one where the repair deletes a character.
pub open spec fn diag_fits(d: Diagnostic) -> bool {
    &&& d.message@.len() < usize::MAX / 2
    &&& (d.code@ == "LEX005"@ ==> d.col < usize::MAX)
}

/// Source lines whose lengths (and the message's) leave room for position arithmetic.
pub open spec fn fits_positions(d: Diagnostic, source_lines: Seq<&str>) -> bool {
    &&& forall|k: int| 0 <= k < source_lines.len() ==> (#[trigger] source_lines[k])@.len() < usize::MAX / 2
    &&& diag_fits(d)
}

/// Unclosed string: insert a closing quote at the end of the line.
pub open spec fn fix_unclosed_string(d: Diagnostic, lines: Seq<Seq<char>>) -> Seq<FixActionView> {
    let idx = if d.line == 0 { 0 } else { d.line - 1 };
    let len = if idx < lines.len() { lines[idx].len() } else { 0 };
    seq![insert_view("在字符串末尾添加 \" 闭合"@, d.line, (len + 1) as usize, "\""@, Confidence::High)]
}

/// Unexpected character: delete it.
pub open spec fn fix_unexpected_char(d: Diagnostic) -> Seq<FixActionView> {
    let ch = match quoted_first_char(d.message@) { Some(c) => c, None => '?' };
    seq![FixActionView {
        description: "删除意外字符 '"@ + seq![ch] + "'"@,
        action: ActionKind::Delete,
        line: d.line,
        col: d.col,
        end_line: Some(d.line),
        end_col: Some((d.col + 1) as usize),
        text: None,
        confidence: Confidence::High,
    }]
}

/// Missing `)`.
pub open spec fn fix_missing_rparen(d: Diagnostic, lines: Seq<Seq<char>>) -> Seq<FixActionView> {
    let at_line_start = if d.line == 0 || d.line - 1 >= lines.len() {
        true
    } else {
        let l = lines[d.line - 1];
        let p = ws_prefix_end(l, 0);
        if p < l.len() { p + 1 == d.col } else { true }
    };
    if at_line_start {
        match prev_nonempty(lines, d.line) {
            Some((pl, pc)) => seq![insert_view(
                "在第 "@ + dec(pl as nat) + " 行行末插入 ')' 闭合表达式"@, pl as usize, pc as usize, ")"@, Confidence::High)],
            None => seq![hint_view("缺少 ')'：检查括号是否配对"@, Confidence::Low)],
        }
    } else {
        seq![insert_view("在出错位置插入 ')'（也可能是缺 ','——请确认）"@, d.line, d.col, ")"@, Confidence::Medium)]
    }
}

/// Missing `end` of a block.
pub open spec fn fix_missing_end(d: Diagnostic, lines: Seq<Seq<char>>) -> Seq<FixActionView> {
    if d.line > lines.len() {
        match prev_nonempty(lines, d.line) {
            Some((pl, pc)) => seq![insert_view("在文件末尾补 'end' 闭合块"@, pl as usize, pc as usize, "\nend\n"@, Confidence::Medium)],
            None => seq![hint_view("缺少 'end'：检查块结构是否配对"@, Confidence::Low)],
        }
    } else {
        seq![insert_view("在出错行之前插入 'end' 闭合块"@, d.line, 1, "end\n"@, Confidence::Medium)]
    }
}

/// Expected token.
pub open spec fn fix_expected_token(d: Diagnostic, lines: Seq<Seq<char>>) -> Seq<FixActionView> {
    let expected = quoted_first(d.message@);
    if expected == Some(")"@) {
        fix_missing_rparen(d, lines)
    } else if expected == Some("end"@) {
        fix_missing_end(d, lines)
    } else if contains_sub(d.message@, "期望"@) {
        seq![hint_view("语法错误："@ + d.message@ + "。检查该位置的语法结构是否完整"@, Confidence::Low)]
    } else {
        seq![hint_view("语法错误：检查关键字/分隔符是否匹配"@, Confidence::Low)]
    }
}

/// The pattern a non-exhaustive match misses (`Err(None)` when none can be named).
pub open spec fn missing_pattern(m: Seq<char>) -> Option<Seq<char>> {
    if contains_sub(m, "未覆盖变体 '"@) {
        quoted_first(m)
    } else if contains_sub(m, "未覆盖 Ok"@) {
        Some("Ok(_)"@)
    } else if contains_sub(m, "未覆盖 Err"@) {
        Some("Err(_)"@)
    } else if contains_sub(m, "未覆盖 Some"@) {
        Some("Some(_)"@)
    } else if contains_sub(m, "未覆盖 None"@) {
        Some("None"@)
    } else {
        None
    }
}

/// Non-exhaustive match: add the missing arm.
pub open spec fn fix_non_exhaustive(d: Diagnostic) -> Seq<FixActionView> {
    let is_builtin = !contains_sub(d.message@, "未覆盖变体 '"@);
    match missing_pattern(d.message@) {
        None => seq![hint_view("match 非穷尽：添加缺失的变体分支或 _ 通配符"@, Confidence::Medium)],
        Some(p) => {
            let branch = "    "@ + p + " => ()\n"@;
            if is_builtin && d.line != 0 {
                seq![insert_view("在 match 的 end 前插入缺失分支: "@ + p + " => ()"@, d.line, 1, branch, Confidence::High)]
            } else {
                seq![FixActionView {
                    description: "在 match 中添加缺失分支: "@ + p + " => ..."@,
                    action: ActionKind::Hint,
                    line: 0,
                    col: 0,
                    end_line: None,
                    end_col: None,
                    text: Some(branch),
                    confidence: Confidence::Medium,
                }]
            }
        },
    }
}

/// Replacement of one occurrence of `name` by `sugg`.
pub open spec fn replace_view(name: Seq<char>, sugg: Seq<char>, o: (int, int, int)) -> FixActionView {
    FixActionView {
        description: "将 '"@ + name + "' 替换为 '"@ + sugg + "'"@,
        action: ActionKind::Replace,
        line: o.0 as usize,
        col: o.1 as usize,
        end_line: Some(o.0 as usize),
        end_col: Some(o.2 as usize),
        text: Some(sugg),
        confidence: Confidence::Medium,
    }
}

/// Occurrences a spelling fix rewrites: the exact position when the diagnostic
/// has one, else every whole-word occurrence.
pub open spec fn spelling_targets(d: Diagnostic, lines: Seq<Seq<char>>, name: Seq<char>, dot: bool) -> Seq<(int, int, int)> {
    match precise_at(d, lines, name, dot) {
        Some(o) => seq![o],
        None => token_occurrences(lines, name, dot),
    }
}

/// Undefined name / unknown member with a spelling suggestion.
pub open spec fn fix_spelling(
    d: Diagnostic,
    lines: Seq<Seq<char>>,
    dot: bool,
    unlocated: spec_fn(Seq<char>, Seq<char>) -> Seq<char>,
    fallback: FixActionView,
) -> Seq<FixActionView> {
    match (quoted_last(d.message@), suggestion(opt_text(d.hint))) {
        (Some(name), Some(sugg)) => {
            let occ = spelling_targets(d, lines, name, dot);
            if occ.len() == 0 {
                seq![hint_view(unlocated(name, sugg), Confidence::Medium)]
            } else {
                occ.map_values(|o: (int, int, int)| replace_view(name, sugg, o))
            }
        },
        _ => seq![fallback],
    }
}

/// Undefined variable or function.
pub open spec fn fix_undefined(d: Diagnostic, lines: Seq<Seq<char>>) -> Seq<FixActionView> {
    fix_spelling(
        d,
        lines,
        false,
        |name: Seq<char>, sugg: Seq<char>| "未定义 '"@ + name + "'：是否想用 '"@ + sugg + "'？（未能在源码中定位出现位置）"@,
        hint_view("未定义变量（"@ + d.message@ + "）：检查拼写、是否遗漏 let 声明或 import 导入"@, Confidence::Low),
    )
}

/// Unknown record field or enum variant.
pub open spec fn fix_unknown_member(d: Diagnostic, lines: Seq<Seq<char>>) -> Seq<FixActionView> {
    fix_spelling(
        d,
        lines,
        contains_sub(d.message@, "无字段"@),
        |name: Seq<char>, sugg: Seq<char>| "'"@ + name + "' 不存在：是否想用 '"@ + sugg + "'？（未能定位出现位置）"@,
        hint_view("无此字段/变体：检查拼写或查阅类型定义"@, Confidence::Low),
    )
}

/// Undeclared effect: add it to the signature line.
pub open spec fn fix_effect(d: Diagnostic, lines: Seq<Seq<char>>) -> Seq<FixActionView> {
    match second_bracketed(d.message@) {
        None => seq![hint_view("效应未声明：在函数返回类型后添加 ! [Effect] 注解"@, Confidence::Medium)],
        Some(eff) => if d.line == 0 {
            seq![FixActionView {
                description: "在函数签名返回类型后添加效应注解: ! ["@ + eff + "]"@,
                action: ActionKind::Hint,
                line: 0,
                col: 0,
                end_line: None,
                end_col: None,
                text: Some("! ["@ + eff + "]"@),
                confidence: Confidence::High,
            }]
        } else if d.line - 1 >= lines.len() {
            seq![hint_view("效应未声明：无法定位函数签名行"@, Confidence::Medium)]
        } else {
            match effect_close_from(lines[d.line - 1], 0) {
                Some(k) => seq![insert_view("在现有效应列表中添加缺失效应: "@ + eff, d.line, (k + 1) as usize, ", "@ + eff, Confidence::High)],
                None => seq![insert_view(
                    "在函数签名行末添加效应注解: ! ["@ + eff + "]"@,
                    d.line,
                    (lines[d.line - 1].len() + 1) as usize,
                    " ! ["@ + eff + "]"@,
                    Confidence::High,
                )],
            }
        },
    }
}

/// The repair actions generated for one diagnostic, by error code.
pub open spec fn fixes_for(d: Diagnostic, lines: Seq<Seq<char>>) -> Seq<FixActionView> {
    let c = d.code@;
    let m = d.message@;
    if c == "LEX001"@ || c == "LEX002"@ {
        fix_unclosed_string(d, lines)
    } else if c == "LEX003"@ || c == "LEX004"@ {
        seq![hint_view("无效数字格式（"@ + m + "）：检查数字字面量是否含非法字符"@, Confidence::Low)]
    } else if c == "LEX005"@ {
        fix_unexpected_char(d)
    } else if c == "LEX000"@ {
        seq![hint_view("词法错误，检查字符是否合法"@, Confidence::Low)]
    } else if c == "PARSE001"@ {
        fix_expected_token(d, lines)
    } else if c == "PARSE002"@ {
        seq![hint_view("Result<T, E> 需要 2 个类型参数，如 Result<Int, String>"@, Confidence::Medium)]
    } else if c == "PARSE003"@ {
        seq![hint_view("Option<T> 需要 1 个类型参数，如 Option<Int>"@, Confidence::Medium)]
    } else if c == "PARSE099"@ {
        seq![hint_view("该处解析失败已插入代码洞，参考上下文补全语法"@, Confidence::Low)]
    } else if c == "PARSE000"@ {
        seq![hint_view("语法错误，检查关键字/分隔符是否匹配"@, Confidence::Low)]
    } else if c == "TYPE001"@ {
        seq![hint_view("类型不匹配：检查 let/赋值/二元运算两侧类型一致"@, Confidence::Low)]
    } else if c == "TYPE002"@ {
        seq![hint_view("条件应为 Bool：用 ==/!=/</> 等比较运算或布尔变量"@, Confidence::Medium)]
    } else if c == "TYPE003"@ {
        seq![hint_view("参数数量不符（"@ + m + "）：调整调用参数数量或函数签名"@, Confidence::Low)]
    } else if c == "TYPE010"@ {
        seq![hint_view("返回类型不符：修改函数体尾表达式或调整返回类型注解"@, Confidence::Low)]
    } else if c == "TYPE020"@ {
        seq![hint_view("`?` 只能用于 Result/Option：检查操作数类型或所在函数返回类型"@, Confidence::Medium)]
    } else if c == "MAT001"@ {
        fix_non_exhaustive(d)
    } else if c == "NAM002"@ {
        seq![hint_view("重复定义：重命名其中一个，或删除多余的定义"@, Confidence::Low)]
    } else if c == "NAM003"@ {
        fix_undefined(d, lines)
    } else if c == "NAM004"@ {
        fix_unknown_member(d, lines)
    } else if c == "EFF001"@ {
        fix_effect(d, lines)
    } else if c == "MUT001"@ {
        seq![hint_view("不可变重赋值：局部变量把声明改为 let mut；函数参数/for 循环变量请引入局部 let mut 副本"@, Confidence::Medium)]
    } else if c == "RUNTIME001"@ {
        seq![hint_view("运行时类型不匹配：检查值与操作期望"@, Confidence::Low)]
    } else if c == "RUNTIME002"@ {
        seq![hint_view("运行时未定义（"@ + m
            + "）：确认变量/函数已声明、导入，拼写无误；若是拼写错误，静态检查的 NAM003/NAM004 诊断会附带 \"是否想用 'X'？\" 建议"@, Confidence::Low)]
    } else if c == "RUNTIME003"@ {
        seq![hint_view("代码洞无法执行：先修复对应位置的语法错误（参考 PARSE099 诊断）"@, Confidence::Low)]
    } else if c == "RUNTIME004"@ {
        seq![hint_view("内部控制流泄漏（提前返回）：检查 ? 运算符使用是否正确"@, Confidence::Low)]
    } else if c == "RUNTIME005"@ {
        seq![hint_view("模块/符号不存在：标准库模块为 io/string/math，检查 import 声明"@, Confidence::Medium)]
    } else if c == "RUNTIME000"@ {
        seq![hint_view("运行时错误，检查程序逻辑"@, Confidence::Low)]
    } else {
        seq![hint_view("未知错误码，参考诊断消息手动修复"@, Confidence::Low)]
    }
}

fn concat3(a: &str, m: &[char], b: &str) -> (r: Vec<char>)
    ensures
        r@ == a@ + m@ + b@,
{
    let mut r = chars_of(a);
    push_chars(&mut r, m);
    push_lit(&mut r, b);
    r
}

fn concat5(a: &str, m: &[char], b: &str, n: &[char], c: &str) -> (r: Vec<char>)
    ensures
        r@ == a@ + m@ + b@ + n@ + c@,
{
    let mut r = chars_of(a);
    push_chars(&mut r, m);
    push_lit(&mut r, b);
    push_chars(&mut r, n);
    push_lit(&mut r, c);
    r
}

fn fix_lex_unclosed_string(d: &Diagnostic, source_lines: &[&str]) -> (r: Vec<FixAction>)
    requires
        fits_positions(*d, source_lines@),
    ensures
        fix_views(r@) == fix_unclosed_string(*d, line_views(source_lines@)),
{
    let idx = if d.line == 0 { 0 } else { d.line - 1 };
    let len = if idx < source_lines.len() { chars_of(source_lines[idx]).len() } else { 0 };
    let desc = chars_of("在字符串末尾添加 \" 闭合");
    let text = chars_of("\"");
    one(mk_fix(&desc, ActionKind::Insert, d.line, len + 1, None, None, Some(&text), Confidence::High))
}

fn fix_lex_unexpected_char(d: &Diagnostic) -> (r: Vec<FixAction>)
    requires
        d.col < usize::MAX,
    ensures
        fix_views(r@) == fix_unexpected_char(*d),
{
    let ch = match extract_quoted_char(d.message.as_str()) {
        Some(c) => c,
        None => '?',
    };
    let mut desc = chars_of("删除意外字符 '");
    desc.push(ch);
    push_lit(&mut desc, "'");
    proof {
        let a = "删除意外字符 '"@;
        assert(desc@ == a.push(ch) + "'"@);
        assert(a.push(ch) =~= a + seq![ch]);
    }
    one(mk_fix(&desc, ActionKind::Delete, d.line, d.col, Some(d.line), Some(d.col + 1), None, Confidence::High))
}

fn fix_parse_missing_rparen(d: &Diagnostic, source_lines: &[&str]) -> (r: Vec<FixAction>)
    requires
        fits_positions(*d, source_lines@),
    ensures
        fix_views(r@) == fix_missing_rparen(*d, line_views(source_lines@)),
{
    let ghost lv = line_views(source_lines@);
    let at_line_start = if d.line == 0 || d.line - 1 >= source_lines.len() {
        true
    } else {
        let l = chars_of(source_lines[d.line - 1]);
        assert(lv[d.line - 1] == l@);
        let mut p: usize = 0;
        while p < l.len() && is_whitespace(l[p])
            invariant
                p <= l@.len(),
                ws_prefix_end(l@, 0) == ws_prefix_end(l@, p as int),
            decreases l@.len() - p,
        {
            p += 1;
        }
        if p < l.len() { p + 1 == d.col } else { true }
    };
    if at_line_start {
        match prev_nonempty_line_end(source_lines, d.line) {
            Some((pline, pcol)) => {
                let num = crate::text::dec_usize(pline);
                let desc = concat3("在第 ", &num, " 行行末插入 ')' 闭合表达式");
                let text = chars_of(")");
                one(mk_fix(&desc, ActionKind::Insert, pline, pcol, None, None, Some(&text), Confidence::High))
            }
            None => one(hint_only_lit("缺少 ')'：检查括号是否配对", Confidence::Low)),
        }
    } else {
        let desc = chars_of("在出错位置插入 ')'（也可能是缺 ','——请确认）");
        let text = chars_of(")");
        one(mk_fix(&desc, ActionKind::Insert, d.line, d.col, None, None, Some(&text), Confidence::Medium))
    }
}

fn fix_parse_missing_end(d: &Diagnostic, source_lines: &[&str]) -> (r: Vec<FixAction>)
    requires
        fits_positions(*d, source_lines@),
    ensures
        fix_views(r@) == fix_missing_end(*d, line_views(source_lines@)),
{
    if d.line > source_lines.len() {
        if let Some((pline, pcol)) = prev_nonempty_line_end(source_lines, d.line) {
            let desc = chars_of("在文件末尾补 'end' 闭合块");
            let text = chars_of("\nend\n");
            return one(mk_fix(&desc, ActionKind::Insert, pline, pcol, None, None, Some(&text), Confidence::Medium));
        }
    } else {
        let desc = chars_of("在出错行之前插入 'end' 闭合块");
        let text = chars_of("end\n");
        return one(mk_fix(&desc, ActionKind::Insert, d.line, 1, None, None, Some(&text), Confidence::Medium));
    }
    one(hint_only_lit("缺少 'end'：检查块结构是否配对", Confidence::Low))
}

fn fix_parse_expected_token(d: &Diagnostic, source_lines: &[&str]) -> (r: Vec<FixAction>)
    requires
        fits_positions(*d, source_lines@),
    ensures
        fix_views(r@) == fix_expected_token(*d, line_views(source_lines@)),
{
    let m = chars_of(d.message.as_str());
    let expected = extract_quoted_string(&m);
    let is_rparen = match &expected { Some(e) => chars_eq_lit(e, ")"), None => false };
    let is_end = match &expected { Some(e) => chars_eq_lit(e, "end"), None => false };
    if is_rparen {
        fix_parse_missing_rparen(d, source_lines)
    } else if is_end {
        fix_parse_missing_end(d, source_lines)
    } else if contains_lit(&m, "期望") {
        let h = concat3("语法错误：", &m, "。检查该位置的语法结构是否完整");
        one(hint_only(&h, Confidence::Low))
    } else {
        one(hint_only_lit("语法错误：检查关键字/分隔符是否匹配", Confidence::Low))
    }
}

fn fix_mat_non_exhaustive(d: &Diagnostic) -> (r: Vec<FixAction>)
    ensures
        fix_views(r@) == fix_non_exhaustive(*d),
{
    let m = chars_of(d.message.as_str());
    let is_variant = contains_lit(&m, "未覆盖变体 '");
    let is_builtin = !is_variant;
    let pattern: Vec<char> = if is_variant {
        match extract_quoted_string(&m) {
            Some(p) => p,
            None => return one(hint_only_lit("match 非穷尽：添加缺失的变体分支或 _ 通配符", Confidence::Medium)),
        }
    } else if contains_lit(&m, "未覆盖 Ok") {
        chars_of("Ok(_)")
    } else if contains_lit(&m, "未覆盖 Err") {
        chars_of("Err(_)")
    } else if contains_lit(&m, "未覆盖 Some") {
        chars_of("Some(_)")
    } else if contains_lit(&m, "未覆盖 None") {
        chars_of("None")
    } else {
        return one(hint_only_lit("match 非穷尽：添加缺失的变体分支或 _ 通配符", Confidence::Medium));
    };
    assert(missing_pattern(m@) == Some(pattern@));
    let branch = concat3("    ", &pattern, " => ()\n");
    if is_builtin && d.line != 0 {
        let desc = concat3("在 match 的 end 前插入缺失分支: ", &pattern, " => ()");
        one(mk_fix(&desc, ActionKind::Insert, d.line, 1, None, None, Some(&branch), Confidence::High))
    } else {
        let desc = concat3("在 match 中添加缺失分支: ", &pattern, " => ...");
        one(mk_fix(&desc, ActionKind::Hint, 0, 0, None, None, Some(&branch), Confidence::Medium))
    }
}

fn spelling_fixes(
    d: &Diagnostic,
    source_lines: &[&str],
    dot: bool,
    name: &[char],
    sugg: &[char],
) -> (r: Vec<FixAction>)
    requires
        fits_positions(*d, source_lines@),
        name@.len() <= d.message@.len(),
    ensures
        fix_views(r@) == spelling_targets(*d, line_views(source_lines@), name@, dot).map_values(
            |o: (int, int, int)| replace_view(name@, sugg@, o),
        ),
{
    let ghost lv = line_views(source_lines@);
    let occ: Vec<(usize, usize, usize)> = match precise_occurrence(d, source_lines, name, dot) {
        Some(o) => {
            let mut v: Vec<(usize, usize, usize)> = Vec::new();
            v.push(o);
            v
        }
        None => find_occurrences(source_lines, name, dot),
    };
    assert(occ@.map_values(|t: (usize, usize, usize)| (t.0 as int, t.1 as int, t.2 as int))
        =~= spelling_targets(*d, lv, name@, dot));
    let ghost targets = spelling_targets(*d, lv, name@, dot);
    let ghost f = |o: (int, int, int)| replace_view(name@, sugg@, o);
    let desc = concat5("将 '", name, "' 替换为 '", sugg, "'");
    let mut out: Vec<FixAction> = Vec::new();
    let mut i: usize = 0;
    while i < occ.len()
        invariant
            i <= occ@.len(),
            occ@.map_values(|t: (usize, usize, usize)| (t.0 as int, t.1 as int, t.2 as int)) == targets,
            f == (|o: (int, int, int)| replace_view(name@, sugg@, o)),
            desc@ == "将 '"@ + name@ + "' 替换为 '"@ + sugg@ + "'"@,
            fix_views(out@) == targets.take(i as int).map_values(f),
        decreases occ@.len() - i,
    {
        let (line, col, end_col) = occ[i];
        assert(targets[i as int] == (line as int, col as int, end_col as int));
        let fx = mk_fix(&desc, ActionKind::Replace, line, col, Some(line), Some(end_col), Some(sugg), Confidence::Medium);
        let ghost before = fix_views(out@);
        out.push(fx);
        assert(fix_views(out@) =~= before.push(fx@));
        assert(targets.take(i + 1).map_values(f) =~= targets.take(i as int).map_values(f).push(f(targets[i as int])));
        i += 1;
    }
    assert(targets.take(occ@.len() as int) =~= targets);
    out
}

fn fix_nam(d: &Diagnostic, source_lines: &[&str], unknown_member: bool) -> (r: Vec<FixAction>)
    requires
        fits_positions(*d, source_lines@),
    ensures
        !unknown_member ==> fix_views(r@) == fix_undefined(*d, line_views(source_lines@)),
        unknown_member ==> fix_views(r@) == fix_unknown_member(*d, line_views(source_lines@)),
{
    let m = chars_of(d.message.as_str());
    let dot = unknown_member && contains_lit(&m, "无字段");
    let name = extract_last_quoted(&m);
    let sugg = extract_suggestion(&d.hint);
    match (name, sugg) {
        (Some(name), Some(sugg)) => {
            proof { lemma_quoted_last_len(m@); }
            let occ = spelling_fixes(d, source_lines, dot, &name, &sugg);
            if occ.len() == 0 {
                let h = if unknown_member {
                    concat5("'", &name, "' 不存在：是否想用 '", &sugg, "'？（未能定位出现位置）")
                } else {
                    concat5("未定义 '", &name, "'：是否想用 '", &sugg, "'？（未能在源码中定位出现位置）")
                };
                one(hint_only(&h, Confidence::Medium))
            } else {
                occ
            }
        }
        _ => {
            if unknown_member {
                one(hint_only_lit("无此字段/变体：检查拼写或查阅类型定义", Confidence::Low))
            } else {
                let h = concat3("未定义变量（", &m, "）：检查拼写、是否遗漏 let 声明或 import 导入");
                one(hint_only(&h, Confidence::Low))
            }
        }
    }
}

proof fn lemma_quoted_last_len(m: Seq<char>)
    ensures
        quoted_last(m) matches Some(q) ==> q.len() <= m.len(),
{
    lemma_rfind_bounds(m, '\'', m.len() as int);
    if let Some(e) = rfind_char_before(m, '\'', m.len() as int) {
        lemma_rfind_bounds(m, '\'', e);
    }
}

fn fix_eff_undeclared(d: &Diagnostic, source_lines: &[&str]) -> (r: Vec<FixAction>)
    requires
        fits_positions(*d, source_lines@),
    ensures
        fix_views(r@) == fix_effect(*d, line_views(source_lines@)),
{
    let ghost lv = line_views(source_lines@);
    let effect = extract_second_bracketed(d.message.as_str());
    match effect {
        Some(eff_s) => {
            let eff = chars_of(eff_s.as_str());
            if d.line == 0 {
                let desc = concat3("在函数签名返回类型后添加效应注解: ! [", &eff, "]");
                let text = concat3("! [", &eff, "]");
                return one(mk_fix(&desc, ActionKind::Hint, 0, 0, None, None, Some(&text), Confidence::High));
            }
            if d.line - 1 >= source_lines.len() {
                return one(hint_only_lit("效应未声明：无法定位函数签名行", Confidence::Medium));
            }
            let line = chars_of(source_lines[d.line - 1]);
            assert(lv[d.line - 1] == line@);
            if let Some(close_col) = find_effect_close_bracket(&line) {
                proof { lemma_effect_close_bounds(line@, 0); }
                let mut desc = chars_of("在现有效应列表中添加缺失效应: ");
                push_chars(&mut desc, &eff);
                let mut text = chars_of(", ");
                push_chars(&mut text, &eff);
                return one(mk_fix(&desc, ActionKind::Insert, d.line, close_col + 1, None, None, Some(&text), Confidence::High));
            }
            let desc = concat3("在函数签名行末添加效应注解: ! [", &eff, "]");
            let text = concat3(" ! [", &eff, "]");
            one(mk_fix(&desc, ActionKind::Insert, d.line, line.len() + 1, None, None, Some(&text), Confidence::High))
        }
        None => one(hint_only_lit("效应未声明：在函数返回类型后添加 ! [Effect] 注解", Confidence::Medium)),
    }
}

proof fn lemma_effect_close_bounds(c: Seq<char>, i: int)
    ensures
        effect_close_from(c, i) matches Some(k) ==> 0 <= k < c.len(),
    decreases c.len() - i,
{
    if 0 <= i && i + 1 < c.len() {
        lemma_ws_space_end(c, i + 1);
        let j = ws_space_end(c, i + 1);
        if j < c.len() {
            lemma_find_bounds(c, ']', j + 1);
        }
        effect_close_from_step(c, i);
    }
}

proof fn effect_close_from_step(c: Seq<char>, i: int)
    requires
        0 <= i,
        i + 1 < c.len(),
    ensures
        effect_close_from(c, i) matches Some(k) ==> 0 <= k < c.len(),
    decreases c.len() - i,
{
    lemma_ws_space_end(c, i + 1);
    let j = ws_space_end(c, i + 1);
    if j < c.len() {
        lemma_find_bounds(c, ']', j + 1);
    }
    if !(c[i] == '!' && j < c.len() && c[j] == '[' && find_char_from(c, ']', j + 1) is Some) {
        if i + 2 < c.len() {
            effect_close_from_step(c, i + 1);
        }
    }
}

/// The repair actions for one diagnostic, by error code.
pub fn fix_for_diagnostic(d: &Diagnostic, source_lines: &[&str]) -> (r: Vec<FixAction>)
    requires
        fits_positions(*d, source_lines@),
    ensures
        fix_views(r@) == fixes_for(*d, line_views(source_lines@)),
{
    let c = chars_of(d.code.as_str());
    if chars_eq_lit(&c, "LEX001") || chars_eq_lit(&c, "LEX002") {
        fix_lex_unclosed_string(d, source_lines)
    } else if chars_eq_lit(&c, "LEX003") || chars_eq_lit(&c, "LEX004") {
        let m = chars_of(d.message.as_str());
        let h = concat3("无效数字格式（", &m, "）：检查数字字面量是否含非法字符");
        one(hint_only(&h, Confidence::Low))
    } else if chars_eq_lit(&c, "LEX005") {
        fix_lex_unexpected_char(d)
    } else if chars_eq_lit(&c, "LEX000") {
        one(hint_only_lit("词法错误，检查字符是否合法", Confidence::Low))
    } else if chars_eq_lit(&c, "PARSE001") {
        fix_parse_expected_token(d, source_lines)
    } else if chars_eq_lit(&c, "PARSE002") {
        one(hint_only_lit("Result<T, E> 需要 2 个类型参数，如 Result<Int, String>", Confidence::Medium))
    } else if chars_eq_lit(&c, "PARSE003") {
        one(hint_only_lit("Option<T> 需要 1 个类型参数，如 Option<Int>", Confidence::Medium))
    } else if chars_eq_lit(&c, "PARSE099") {
        one(hint_only_lit("该处解析失败已插入代码洞，参考上下文补全语法", Confidence::Low))
    } else if chars_eq_lit(&c, "PARSE000") {
        one(hint_only_lit("语法错误，检查关键字/分隔符是否匹配", Confidence::Low))
    } else if chars_eq_lit(&c, "TYPE001") {
        one(hint_only_lit("类型不匹配：检查 let/赋值/二元运算两侧类型一致", Confidence::Low))
    } else if chars_eq_lit(&c, "TYPE002") {
        one(hint_only_lit("条件应为 Bool：用 ==/!=/</> 等比较运算或布尔变量", Confidence::Medium))
    } else if chars_eq_lit(&c, "TYPE003") {
        let m = chars_of(d.message.as_str());
        let h = concat3("参数数量不符（", &m, "）：调整调用参数数量或函数签名");
        one(hint_only(&h, Confidence::Low))
    } else if chars_eq_lit(&c, "TYPE010") {
        one(hint_only_lit("返回类型不符：修改函数体尾表达式或调整返回类型注解", Confidence::Low))
    } else if chars_eq_lit(&c, "TYPE020") {
        one(hint_only_lit("`?` 只能用于 Result/Option：检查操作数类型或所在函数返回类型", Confidence::Medium))
    } else if chars_eq_lit(&c, "MAT001") {
        fix_mat_non_exhaustive(d)
    } else if chars_eq_lit(&c, "NAM002") {
        one(hint_only_lit("重复定义：重命名其中一个，或删除多余的定义", Confidence::Low))
    } else if chars_eq_lit(&c, "NAM003") {
        fix_nam(d, source_lines, false)
    } else if chars_eq_lit(&c, "NAM004") {
        fix_nam(d, source_lines, true)
    } else if chars_eq_lit(&c, "EFF001") {
        fix_eff_undeclared(d, source_lines)
    } else if chars_eq_lit(&c, "MUT001") {
        one(hint_only_lit("不可变重赋值：局部变量把声明改为 let mut；函数参数/for 循环变量请引入局部 let mut 副本", Confidence::Medium))
    } else if chars_eq_lit(&c, "RUNTIME001") {
        one(hint_only_lit("运行时类型不匹配：检查值与操作期望", Confidence::Low))
    } else if chars_eq_lit(&c, "RUNTIME002") {
        let m = chars_of(d.message.as_str());
        let h = concat3("运行时未定义（", &m,
            "）：确认变量/函数已声明、导入，拼写无误；若是拼写错误，静态检查的 NAM003/NAM004 诊断会附带 \"是否想用 'X'？\" 建议");
        one(hint_only(&h, Confidence::Low))
    } else if chars_eq_lit(&c, "RUNTIME003") {
        one(hint_only_lit("代码洞无法执行：先修复对应位置的语法错误（参考 PARSE099 诊断）", Confidence::Low))
    } else if chars_eq_lit(&c, "RUNTIME004") {
        one(hint_only_lit("内部控制流泄漏（提前返回）：检查 ? 运算符使用是否正确", Confidence::Low))
    } else if chars_eq_lit(&c, "RUNTIME005") {
        one(hint_only_lit("模块/符号不存在：标准库模块为 io/string/math，检查 import 声明", Confidence::Medium))
    } else if chars_eq_lit(&c, "RUNTIME000") {
        one(hint_only_lit("运行时错误，检查程序逻辑", Confidence::Low))
    } else {
        one(hint_only_lit("未知错误码，参考诊断消息手动修复", Confidence::Low))
    }
}

// ===== plans =====

/// Whether a list of actions gives something to apply: an action that is not
/// a hint, or a hint with concrete text.
pub open spec fn retry_of(fs: Seq<FixActionView>) -> bool {
    exists|j: int| 0 <= j < fs.len() && ((#[trigger] fs[j]).action != ActionKind::Hint || fs[j].text is Some)
}

/// A plan repeats its diagnostic and holds the repair actions generated for it.
pub open spec fn plan_matches(p: Plan, d: Diagnostic, lines: Seq<Seq<char>>) -> bool {
    &&& p.diagnostic.code@ == d.code@
    &&& p.diagnostic.severity == d.severity
    &&& p.diagnostic.stage == d.stage
    &&& p.diagnostic.line == d.line
    &&& p.diagnostic.col == d.col
    &&& p.diagnostic.message@ == d.message@
    &&& fix_views(p.fixes@) == fixes_for(d, lines)
    &&& p.retry == retry_of(fixes_for(d, lines))
}

/// Every diagnostic gets at least one repair action.
pub proof fn lemma_fixes_nonempty(d: Diagnostic, lines: Seq<Seq<char>>)
    ensures
        fixes_for(d, lines).len() > 0,
{
    let c = d.code@;
    if c == "NAM003"@ || c == "NAM004"@ {
        let dot = contains_sub(d.message@, "无字段"@);
        match (quoted_last(d.message@), suggestion(opt_text(d.hint))) {
            (Some(name), Some(sugg)) => {
                let occ0 = spelling_targets(d, lines, name, false);
                let occ1 = spelling_targets(d, lines, name, dot);
                assert(occ0.map_values(|o: (int, int, int)| replace_view(name, sugg, o)).len() == occ0.len());
                assert(occ1.map_values(|o: (int, int, int)| replace_view(name, sugg, o)).len() == occ1.len());
            },
            _ => {},
        }
    }
}

/// The error codes that have a repair strategy of their own.
pub open spec fn known_code(c: Seq<char>) -> bool {
    c == "LEX001"@ || c == "LEX002"@ || c == "LEX003"@ || c == "LEX004"@ || c == "LEX005"@ || c == "LEX000"@
        || c == "PARSE001"@ || c == "PARSE002"@ || c == "PARSE003"@ || c == "PARSE099"@ || c == "PARSE000"@
        || c == "TYPE001"@ || c == "TYPE002"@ || c == "TYPE003"@ || c == "TYPE010"@ || c == "TYPE020"@
        || c == "MAT001"@ || c == "NAM002"@ || c == "NAM003"@ || c == "NAM004"@ || c == "EFF001"@ || c == "MUT001"@
        || c == "RUNTIME001"@ || c == "RUNTIME002"@ || c == "RUNTIME003"@ || c == "RUNTIME004"@ || c == "RUNTIME005"@
        || c == "RUNTIME000"@
}

/// A code without a strategy gets exactly one low-confidence hint, with no
/// text to apply.
pub proof fn lemma_unknown_code_hint(d: Diagnostic, lines: Seq<Seq<char>>)
    requires
        !known_code(d.code@),
    ensures
        fixes_for(d, lines).len() == 1,
        fixes_for(d, lines)[0].action == ActionKind::Hint,
        fixes_for(d, lines)[0].confidence == Confidence::Low,
        fixes_for(d, lines)[0].text is None,
{
}

/// The error position starts a statement: past the last line, on a blank
/// line, or at the line's first non-blank character.
pub open spec fn starts_statement(d: Diagnostic, lines: Seq<Seq<char>>) -> bool {
    d.line - 1 >= lines.len() || ws_prefix_end(lines[d.line - 1], 0) >= lines[d.line - 1].len()
        || ws_prefix_end(lines[d.line - 1], 0) + 1 == d.col
}

/// Missing `)`: at the start of a statement the `)` goes after the last
/// non-blank line before it (a low hint when there is none); in the middle
/// of a line it goes where the error is.
pub proof fn lemma_missing_rparen_rule(d: Diagnostic, lines: Seq<Seq<char>>)
    requires
        1 <= d.line <= lines.len() + 1,
        forall|k: int| 0 <= k < lines.len() ==> (#[trigger] lines[k]).len() + 1 <= usize::MAX,
    ensures
        fix_missing_rparen(d, lines).len() == 1,
        starts_statement(d, lines) ==> match prev_nonempty(lines, d.line) {
            Some((pl, pc)) => {
                &&& fix_missing_rparen(d, lines)[0].action == ActionKind::Insert
                &&& fix_missing_rparen(d, lines)[0].line == pl
                &&& fix_missing_rparen(d, lines)[0].col == pc
                &&& pc == lines[pl - 1].len() + 1
                &&& pl < d.line
                &&& fix_missing_rparen(d, lines)[0].text == Some(")"@)
                &&& fix_missing_rparen(d, lines)[0].confidence == Confidence::High
            },
            None => {
                &&& fix_missing_rparen(d, lines)[0].action == ActionKind::Hint
                &&& fix_missing_rparen(d, lines)[0].confidence == Confidence::Low
            },
        },
        !starts_statement(d, lines) ==> {
            &&& fix_missing_rparen(d, lines)[0].action == ActionKind::Insert
            &&& fix_missing_rparen(d, lines)[0].line == d.line
            &&& fix_missing_rparen(d, lines)[0].col == d.col
            &&& fix_missing_rparen(d, lines)[0].text == Some(")"@)
            &&& fix_missing_rparen(d, lines)[0].confidence == Confidence::Medium
        },
{
    lemma_prev_nonempty_bounds(lines, d.line - 1);
    if let Some((pl, pc)) = prev_nonempty(lines, d.line) {
        assert(lines[pl - 1].len() + 1 <= usize::MAX);
    }
}

proof fn lemma_prev_nonempty_bounds(lines: Seq<Seq<char>>, li: int)
    ensures
        prev_nonempty_from(lines, li) matches Some((pl, pc)) ==> 1 <= pl <= li && pl - 1 < lines.len() && pc
            == lines[pl - 1].len() + 1,
    decreases li,
{
    if li >= 1 && li - 1 < lines.len() && trim(lines[li - 1]).len() == 0 {
        lemma_prev_nonempty_bounds(lines, li - 1);
    }
}

/// Non-exhaustive match: one fix. A missing user variant `V` gives a medium
/// hint with the arm `V => ()`; a missing `Ok`/`Err`/`Some`/`None` gives an
/// insertion of the arm at the start of the reported line (a medium hint
/// when the line is unknown).
pub proof fn lemma_non_exhaustive_rule(d: Diagnostic)
    ensures
        fix_non_exhaustive(d).len() == 1,
        contains_sub(d.message@, "未覆盖变体 '"@) ==> match quoted_first(d.message@) {
            Some(v) => {
                &&& fix_non_exhaustive(d)[0].action == ActionKind::Hint
                &&& fix_non_exhaustive(d)[0].line == 0
                &&& fix_non_exhaustive(d)[0].confidence == Confidence::Medium
                &&& fix_non_exhaustive(d)[0].text == Some("    "@ + v + " => ()\n"@)
            },
            None => fix_non_exhaustive(d)[0].action == ActionKind::Hint,
        },
        !contains_sub(d.message@, "未覆盖变体 '"@) ==> match missing_pattern(d.message@) {
            Some(p) => {
                &&& (p == "Ok(_)"@ || p == "Err(_)"@ || p == "Some(_)"@ || p == "None"@)
                &&& d.line != 0 ==> {
                    &&& fix_non_exhaustive(d)[0].action == ActionKind::Insert
                    &&& fix_non_exhaustive(d)[0].line == d.line
                    &&& fix_non_exhaustive(d)[0].col == 1
                    &&& fix_non_exhaustive(d)[0].text == Some("    "@ + p + " => ()\n"@)
                    &&& fix_non_exhaustive(d)[0].confidence == Confidence::High
                }
                &&& d.line == 0 ==> {
                    &&& fix_non_exhaustive(d)[0].action == ActionKind::Hint
                    &&& fix_non_exhaustive(d)[0].text == Some("    "@ + p + " => ()\n"@)
                    &&& fix_non_exhaustive(d)[0].confidence == Confidence::Medium
                }
            },
            None => fix_non_exhaustive(d)[0].action == ActionKind::Hint,
        },
        !contains_sub(d.message@, "未覆盖变体 '"@) && contains_sub(d.message@, "未覆盖 Ok"@) ==> missing_pattern(
            d.message@,
        ) == Some("Ok(_)"@),
{
}

fn plans_have_fixes(ps: &Vec<Plan>) -> (r: bool)
    ensures
        r == (ps@.len() == 0 || all_have_fixes(ps@)),
{
    let mut i: usize = 0;
    while i < ps.len()
        invariant
            i <= ps@.len(),
            forall|k: int| 0 <= k < i ==> (#[trigger] ps@[k]).fixes@.len() > 0,
        decreases ps@.len() - i,
    {
        if ps[i].fixes.len() == 0 {
            return false;
        }
        i += 1;
    }
    true
}

fn retry_for(fs: &Vec<FixAction>) -> (r: bool)
    ensures
        r == retry_of(fix_views(fs@)),
{
    let mut i: usize = 0;
    while i < fs.len()
        invariant
            i <= fs@.len(),
            forall|j: int| 0 <= j < i ==> fs@[j].action == ActionKind::Hint && fs@[j].text is None,
        decreases fs@.len() - i,
    {
        if fs[i].action != ActionKind::Hint || fs[i].text.is_some() {
            assert(fix_views(fs@)[i as int] == fs@[i as int]@);
            return true;
        }
        i += 1;
    }
    assert forall|j: int| 0 <= j < fix_views(fs@).len() implies !((#[trigger] fix_views(fs@)[j]).action != ActionKind::Hint
        || fix_views(fs@)[j].text is Some) by {
        assert(fix_views(fs@)[j] == fs@[j]@);
    }
    false
}

/// Every plan has at least one repair action.
pub open spec fn all_have_fixes(ps: Seq<Plan>) -> bool {
    forall|k: int| 0 <= k < ps.len() ==> (#[trigger] ps[k]).fixes@.len() > 0
}

/// Generates the repair plan of a diagnostic collection: one plan per
/// diagnostic, in order; the plan is `ok` when there is no diagnostic or every
/// diagnostic has a repair suggestion (each one always has at least one).
pub fn generate_plan(diags: &Diagnostics, src: &str) -> (r: FixPlan)
    requires
        src@.len() < usize::MAX / 2,
        forall|k: int| 0 <= k < diags.diagnostics@.len() ==> diag_fits(#[trigger] diags.diagnostics@[k]),
    ensures
        r.file@ == diags.file@,
        r.ok == (r.plans@.len() == 0 || all_have_fixes(r.plans@)),
        r.ok,
        r.plans@.len() == diags.diagnostics@.len(),
        forall|k: int| 0 <= k < r.plans@.len() ==> plan_matches(#[trigger] r.plans@[k], diags.diagnostics@[k], lines(src@)),
{
    let sc = chars_of(src);
    let lv = lines_of(&sc);
    proof { crate::text::lemma_lines_shorter(src@); }
    let mut owned_lines: Vec<String> = Vec::new();
    let mut i: usize = 0;
    while i < lv.len()
        invariant
            i <= lv@.len(),
            lv@.len() == lines(src@).len(),
            forall|k: int| 0 <= k < lv@.len() ==> #[trigger] lv@[k]@ == lines(src@)[k],
            owned_lines@.len() == i,
            forall|k: int| 0 <= k < i ==> #[trigger] owned_lines@[k]@ == lines(src@)[k],
        decreases lv@.len() - i,
    {
        owned_lines.push(string_of(&lv[i]));
        i += 1;
    }
    let mut refs: Vec<&str> = Vec::new();
    let mut i: usize = 0;
    while i < owned_lines.len()
        invariant
            i <= owned_lines@.len(),
            owned_lines@.len() == lines(src@).len(),
            forall|k: int| 0 <= k < owned_lines@.len() ==> #[trigger] owned_lines@[k]@ == lines(src@)[k],
            refs@.len() == i,
            forall|k: int| 0 <= k < i ==> #[trigger] refs@[k]@ == lines(src@)[k],
        decreases owned_lines@.len() - i,
    {
        refs.push(owned_lines[i].as_str());
        i += 1;
    }
    assert(line_views(refs@) =~= lines(src@));
    assert forall|k: int| 0 <= k < refs@.len() implies (#[trigger] refs@[k])@.len() < usize::MAX / 2 by {
        assert(refs@[k]@ == lines(src@)[k]);
    }
    let n = diags.diagnostics.len();
    let mut plans: Vec<Plan> = Vec::new();
    let mut i: usize = 0;
    while i < n
        invariant
            n == diags.diagnostics@.len(),
            i <= n,
            line_views(refs@) == lines(src@),
            forall|k: int| 0 <= k < refs@.len() ==> (#[trigger] refs@[k])@.len() < usize::MAX / 2,
            forall|k: int| 0 <= k < diags.diagnostics@.len() ==> diag_fits(#[trigger] diags.diagnostics@[k]),
            plans@.len() == i,
            forall|k: int| 0 <= k < i ==> plan_matches(#[trigger] plans@[k], diags.diagnostics@[k], lines(src@)),
            all_have_fixes(plans@),
        decreases n - i,
    {
        let d = &diags.diagnostics[i];
        assert(diag_fits(*d));
        let fixes = fix_for_diagnostic(d, refs.as_slice());
        proof {
            lemma_fixes_nonempty(*d, line_views(refs@));
        }
        let retry = retry_for(&fixes);
        let p = Plan {
            diagnostic: DiagRef {
                code: d.code.clone(),
                severity: d.severity,
                stage: d.stage,
                line: d.line,
                col: d.col,
                message: d.message.clone(),
            },
            fixes,
            retry,
        };
        assert(fix_views(p.fixes@).len() == p.fixes@.len());
        plans.push(p);
        assert(all_have_fixes(plans@)) by {
            assert forall|k: int| 0 <= k < plans@.len() implies (#[trigger] plans@[k]).fixes@.len() > 0 by {
                if k < plans@.len() - 1 {
                    assert(plans@[k] == plans@.drop_last()[k]);
                }
            }
        }
        i += 1;
    }
    let ok = plans_have_fixes(&plans);
    FixPlan { file: diags.file.clone(), ok, plans }
}

// ===== rendering =====

/// Number of plans that give something to apply.
pub open spec fn count_retry(ps: Seq<Plan>) -> nat
    decreases ps.len(),
{
    if ps.len() == 0 {
        0
    } else {
        count_retry(ps.drop_last()) + if ps.last().retry { 1nat } else { 0nat }
    }
}

proof fn lemma_count_retry_le(ps: Seq<Plan>)
    ensures
        count_retry(ps) <= ps.len(),
    decreases ps.len(),
{
    if ps.len() > 0 {
        lemma_count_retry_le(ps.drop_last());
    }
}

fn count_applicable(ps: &Vec<Plan>) -> (r: usize)
    ensures
        r == count_retry(ps@),
        r <= ps@.len(),
{
    let mut c: usize = 0;
    let mut i: usize = 0;
    while i < ps.len()
        invariant
            i <= ps@.len(),
            c == count_retry(ps@.take(i as int)),
            c <= i,
        decreases ps@.len() - i,
    {
        assert(ps@.take(i + 1).drop_last() == ps@.take(i as int));
        if ps[i].retry {
            c += 1;
        }
        i += 1;
    }
    assert(ps@.take(ps@.len() as int) == ps@);
    c
}

/// A plan gives something to apply: one of its fixes is not a hint.
pub open spec fn has_non_hint(p: Plan) -> bool {
    exists|j: int| 0 <= j < p.fixes@.len() && (#[trigger] p.fixes@[j]).action != ActionKind::Hint
}

/// Number of plans with a fix that is not a hint (the `applicable` of the
/// JSON summary).
pub open spec fn count_non_hint(ps: Seq<Plan>) -> nat
    decreases ps.len(),
{
    if ps.len() == 0 {
        0
    } else {
        count_non_hint(ps.drop_last()) + if has_non_hint(ps.last()) { 1nat } else { 0nat }
    }
}

fn plan_has_non_hint(p: &Plan) -> (r: bool)
    ensures
        r == has_non_hint(*p),
{
    let mut j: usize = 0;
    while j < p.fixes.len()
        invariant
            j <= p.fixes@.len(),
            forall|k: int| 0 <= k < j ==> (#[trigger] p.fixes@[k]).action == ActionKind::Hint,
        decreases p.fixes@.len() - j,
    {
        if !matches!(p.fixes[j].action, ActionKind::Hint) {
            assert(p.fixes@[j as int].action != ActionKind::Hint);
            return true;
        }
        j += 1;
    }
    false
}

fn count_non_hint_plans(ps: &Vec<Plan>) -> (r: usize)
    ensures
        r == count_non_hint(ps@),
        r <= ps@.len(),
{
    let mut c: usize = 0;
    let mut i: usize = 0;
    while i < ps.len()
        invariant
            i <= ps@.len(),
            c == count_non_hint(ps@.take(i as int)),
            c <= i,
        decreases ps@.len() - i,
    {
        assert(ps@.take(i + 1).drop_last() == ps@.take(i as int));
        if plan_has_non_hint(&ps[i]) {
            c += 1;
        }
        i += 1;
    }
    assert(ps@.take(ps@.len() as int) == ps@);
    c
}

/// `"key": value` line of an optional number, `null` when absent.
pub open spec fn opt_num_json(head: Seq<char>, v: Option<usize>) -> Seq<char> {
    match v {
        Some(x) => head + dec(x as nat) + ",\n"@,
        None => head + "null,\n"@,
    }
}

/// JSON object of one repair action.
pub open spec fn fix_json(f: FixAction) -> Seq<char> {
    "        {\n"@
        + "          \"description\": \""@ + crate::json::escaped(f.description@) + "\",\n"@
        + "          \"action\": \""@ + f.action.name() + "\",\n"@
        + (if f.action == ActionKind::Hint {
            "          \"line\": null,\n"@ + "          \"col\": null,\n"@ + "          \"end_line\": null,\n"@
                + "          \"end_col\": null,\n"@
        } else {
            "          \"line\": "@ + dec(f.line as nat) + ",\n"@ + "          \"col\": "@ + dec(f.col as nat) + ",\n"@
                + opt_num_json("          \"end_line\": "@, f.end_line) + opt_num_json("          \"end_col\": "@, f.end_col)
        })
        + (match f.text {
            Some(t) => "          \"text\": \""@ + crate::json::escaped(t@) + "\",\n"@,
            None => "          \"text\": null,\n"@,
        })
        + "          \"confidence\": \""@ + f.confidence.name() + "\"\n"@
        + "        }"@
}

/// JSON object of one plan.
pub open spec fn plan_json(p: Plan) -> Seq<char> {
    let fs = p.fixes@;
    "    {\n"@
        + "      \"diagnostic\": {\n"@
        + "        \"code\": \""@ + crate::json::escaped(p.diagnostic.code@) + "\",\n"@
        + "        \"severity\": \""@ + p.diagnostic.severity.name() + "\",\n"@
        + "        \"stage\": \""@ + p.diagnostic.stage.name() + "\",\n"@
        + "        \"line\": "@ + dec(p.diagnostic.line as nat) + ",\n"@
        + "        \"col\": "@ + dec(p.diagnostic.col as nat) + ",\n"@
        + "        \"message\": \""@ + crate::json::escaped(p.diagnostic.message@) + "\"\n"@
        + "      },\n"@
        + "      \"fixes\": ["@
        + (if fs.len() == 0 {
            "],\n"@
        } else {
            "\n"@ + sep_list(fs, fs.len() as int, |f: FixAction| fix_json(f), ","@, "\n"@) + "      ],\n"@
        })
        + "      \"retry\": "@ + bool_text(p.retry) + "\n"@
        + "    }"@
}

/// The `lom-fix/v1` JSON document of a plan.
pub open spec fn plan_doc_json(plan: FixPlan) -> Seq<char> {
    let ps = plan.plans@;
    let total = ps.len();
    let applicable = count_non_hint(ps);
    "{\n"@
        + "  \"schema\": \"lom-fix/v1\",\n"@
        + "  \"file\": \""@ + crate::json::escaped(plan.file@) + "\",\n"@
        + "  \"ok\": "@ + bool_text(plan.ok) + ",\n"@
        + "  \"summary\": {\n"@
        + "    \"total\": "@ + dec(total) + ",\n"@
        + "    \"applicable\": "@ + dec(applicable) + ",\n"@
        + "    \"skipped\": "@ + dec((total - applicable) as nat) + "\n"@
        + "  },\n"@
        + "  \"plans\": ["@
        + (if total == 0 {
            "]\n"@
        } else {
            "\n"@ + sep_list(ps, total as int, |p: Plan| plan_json(p), ","@, "\n"@) + "  ]\n"@
        })
        + "}\n"@
}

fn opt_num_line(head: &str, v: Option<usize>) -> (r: Vec<char>)
    ensures
        r@ == opt_num_json(head@, v),
{
    let mut out = chars_of(head);
    match v {
        Some(x) => {
            push_usize(&mut out, x);
            push_lit(&mut out, ",\n");
        }
        None => {
            push_lit(&mut out, "null,\n");
        }
    }
    out
}

fn render_fix_json(f: &FixAction) -> (r: Vec<char>)
    ensures
        r@ == fix_json(*f),
{
    let mut out = chars_of("        {\n");
    push_lit(&mut out, "          \"description\": \"");
    let dsc = chars_of(f.description.as_str());
    crate::json::push_escaped(&mut out, &dsc);
    push_lit(&mut out, "\",\n");
    push_lit(&mut out, "          \"action\": \"");
    push_lit(&mut out, f.action.as_str());
    push_lit(&mut out, "\",\n");
    let pos: Vec<char> = if matches!(f.action, ActionKind::Hint) {
        let mut q = chars_of("          \"line\": null,\n");
        push_lit(&mut q, "          \"col\": null,\n");
        push_lit(&mut q, "          \"end_line\": null,\n");
        push_lit(&mut q, "          \"end_col\": null,\n");
        q
    } else {
        let mut q = chars_of("          \"line\": ");
        push_usize(&mut q, f.line);
        push_lit(&mut q, ",\n");
        push_lit(&mut q, "          \"col\": ");
        push_usize(&mut q, f.col);
        push_lit(&mut q, ",\n");
        let el = opt_num_line("          \"end_line\": ", f.end_line);
        push_chars(&mut q, &el);
        let ec = opt_num_line("          \"end_col\": ", f.end_col);
        push_chars(&mut q, &ec);
        q
    };
    push_chars(&mut out, &pos);
    let tx: Vec<char> = match &f.text {
        Some(t) => {
            let mut p = chars_of("          \"text\": \"");
            let tc = chars_of(t.as_str());
            crate::json::push_escaped(&mut p, &tc);
            push_lit(&mut p, "\",\n");
            p
        }
        None => chars_of("          \"text\": null,\n"),
    };
    push_chars(&mut out, &tx);
    push_lit(&mut out, "          \"confidence\": \"");
    push_lit(&mut out, f.confidence.as_str());
    push_lit(&mut out, "\"\n");
    push_lit(&mut out, "        }");
    out
}

fn render_plan_json(p: &Plan) -> (r: Vec<char>)
    ensures
        r@ == plan_json(*p),
{
    let mut out = chars_of("    {\n");
    push_lit(&mut out, "      \"diagnostic\": {\n");
    push_lit(&mut out, "        \"code\": \"");
    let cc = chars_of(p.diagnostic.code.as_str());
    crate::json::push_escaped(&mut out, &cc);
    push_lit(&mut out, "\",\n");
    push_lit(&mut out, "        \"severity\": \"");
    push_lit(&mut out, p.diagnostic.severity.as_str());
    push_lit(&mut out, "\",\n");
    push_lit(&mut out, "        \"stage\": \"");
    push_lit(&mut out, p.diagnostic.stage.as_str());
    push_lit(&mut out, "\",\n");
    push_lit(&mut out, "        \"line\": ");
    push_usize(&mut out, p.diagnostic.line);
    push_lit(&mut out, ",\n");
    push_lit(&mut out, "        \"col\": ");
    push_usize(&mut out, p.diagnostic.col);
    push_lit(&mut out, ",\n");
    push_lit(&mut out, "        \"message\": \"");
    let mc = chars_of(p.diagnostic.message.as_str());
    crate::json::push_escaped(&mut out, &mc);
    push_lit(&mut out, "\"\n");
    push_lit(&mut out, "      },\n");
    push_lit(&mut out, "      \"fixes\": [");
    let m = p.fixes.len();
    let part: Vec<char> = if m == 0 {
        chars_of("],\n")
    } else {
        let mut part = chars_of("\n");
        let mut list: Vec<char> = Vec::new();
        let ghost f = |f: FixAction| fix_json(f);
        let mut j: usize = 0;
        while j < m
            invariant
                m == p.fixes@.len(),
                j <= m,
                f == (|f: FixAction| fix_json(f)),
                list@ == sep_list(p.fixes@.take(j as int), m as int, f, ","@, "\n"@),
            decreases m - j,
        {
            proof { lemma_sep_list_step(p.fixes@, j as int, m as int, f, ","@, "\n"@); }
            let item = render_fix_json(&p.fixes[j]);
            assert(f(p.fixes@[j as int]) == fix_json(p.fixes@[j as int]));
            push_chars(&mut list, &item);
            if j + 1 < m {
                push_lit(&mut list, ",");
            } else {
                assert(list@ + Seq::<char>::empty() =~= list@);
            }
            push_lit(&mut list, "\n");
            j += 1;
        }
        assert(p.fixes@.take(m as int) == p.fixes@);
        push_chars(&mut part, &list);
        push_lit(&mut part, "      ],\n");
        part
    };
    push_chars(&mut out, &part);
    push_lit(&mut out, "      \"retry\": ");
    push_bool(&mut out, p.retry);
    push_lit(&mut out, "\n");
    push_lit(&mut out, "    }");
    out
}

/// The `lom-fix/v1` JSON document of a repair plan.
pub fn to_json(plan: &FixPlan) -> (r: String)
    ensures
        r@ == plan_doc_json(*plan),
{
    let total = plan.plans.len();
    let applicable = count_non_hint_plans(&plan.plans);
    let skipped = total - applicable;
    let mut out = chars_of("{\n");
    push_lit(&mut out, "  \"schema\": \"lom-fix/v1\",\n");
    push_lit(&mut out, "  \"file\": \"");
    let fc = chars_of(plan.file.as_str());
    crate::json::push_escaped(&mut out, &fc);
    push_lit(&mut out, "\",\n");
    push_lit(&mut out, "  \"ok\": ");
    push_bool(&mut out, plan.ok);
    push_lit(&mut out, ",\n");
    push_lit(&mut out, "  \"summary\": {\n");
    push_lit(&mut out, "    \"total\": ");
    push_usize(&mut out, total);
    push_lit(&mut out, ",\n");
    push_lit(&mut out, "    \"applicable\": ");
    push_usize(&mut out, applicable);
    push_lit(&mut out, ",\n");
    push_lit(&mut out, "    \"skipped\": ");
    push_usize(&mut out, skipped);
    push_lit(&mut out, "\n");
    push_lit(&mut out, "  },\n");
    push_lit(&mut out, "  \"plans\": [");
    let part: Vec<char> = if total == 0 {
        chars_of("]\n")
    } else {
        let mut part = chars_of("\n");
        let mut list: Vec<char> = Vec::new();
        let ghost f = |p: Plan| plan_json(p);
        let mut i: usize = 0;
        while i < total
            invariant
                total == plan.plans@.len(),
                i <= total,
                f == (|p: Plan| plan_json(p)),
                list@ == sep_list(plan.plans@.take(i as int), total as int, f, ","@, "\n"@),
            decreases total - i,
        {
            proof { lemma_sep_list_step(plan.plans@, i as int, total as int, f, ","@, "\n"@); }
            let item = render_plan_json(&plan.plans[i]);
            assert(f(plan.plans@[i as int]) == plan_json(plan.plans@[i as int]));
            push_chars(&mut list, &item);
            if i + 1 < total {
                push_lit(&mut list, ",");
            } else {
                assert(list@ + Seq::<char>::empty() =~= list@);
            }
            push_lit(&mut list, "\n");
            i += 1;
        }
        assert(plan.plans@.take(total as int) == plan.plans@);
        push_chars(&mut part, &list);
        push_lit(&mut part, "  ]\n");
        part
    };
    push_chars(&mut out, &part);
    push_lit(&mut out, "}\n");
    string_of(&out)
}

/// Human-readable lines of one action (number `j`, 0-based).
pub open spec fn fix_human(j: int, f: FixAction) -> Seq<char> {
    "    ["@ + dec((j + 1) as nat) + "] "@ + f.description@ + " ["@ + f.confidence.name() + "]\n"@
        + (if f.action != ActionKind::Hint {
            "      action: "@ + f.action.name() + " at "@ + dec(f.line as nat) + ":"@ + dec(f.col as nat)
                + (match (f.end_line, f.end_col) {
                    (Some(el), Some(ec)) => ".."@ + dec(el as nat) + ":"@ + dec(ec as nat),
                    _ => Seq::empty(),
                })
                + (match f.text {
                    Some(t) => " text="@ + debug_quoted(t@),
                    None => Seq::empty(),
                })
                + "\n"@
        } else {
            match f.text {
                Some(t) => "      建议文本: "@ + debug_quoted(t@) + "\n"@,
                None => Seq::empty(),
            }
        })
}

/// Human-readable lines of the first `fs.len()` actions.
pub open spec fn fixes_human(fs: Seq<FixAction>) -> Seq<char>
    decreases fs.len(),
{
    if fs.len() == 0 {
        Seq::empty()
    } else {
        fixes_human(fs.drop_last()) + fix_human(fs.len() - 1, fs.last())
    }
}

/// Human-readable block of one plan (number `i`, 0-based).
pub open spec fn plan_human(file: Seq<char>, i: int, p: Plan) -> Seq<char> {
    "\n--- 诊断 #"@ + dec((i + 1) as nat) + " ["@ + p.diagnostic.code@ + "] ("@ + p.diagnostic.severity.name() + ") ---\n"@
        + "  位置: "@ + file + ":"@ + dec(p.diagnostic.line as nat) + ":"@ + dec(p.diagnostic.col as nat) + "\n"@
        + "  消息: "@ + p.diagnostic.message@ + "\n"@
        + (if p.fixes@.len() == 0 {
            "  修复: (无)\n"@
        } else {
            "  修复 ("@ + dec(p.fixes@.len()) + "):\n"@ + fixes_human(p.fixes@)
        })
        + "  retry: "@ + bool_text(p.retry) + "\n"@
}

/// Human-readable blocks of the first `ps.len()` plans.
pub open spec fn plans_human(file: Seq<char>, ps: Seq<Plan>) -> Seq<char>
    decreases ps.len(),
{
    if ps.len() == 0 {
        Seq::empty()
    } else {
        plans_human(file, ps.drop_last()) + plan_human(file, ps.len() - 1, ps.last())
    }
}

/// Human-readable rendering of a repair plan.
pub open spec fn plan_doc_human(plan: FixPlan) -> Seq<char> {
    let ps = plan.plans@;
    let n = ps.len();
    let applicable = count_retry(ps);
    "=== "@ + plan.file@ + " ===\n"@
        + (if n == 0 {
            "\n无需修复：无诊断。\n"@
        } else {
            "\n共 "@ + dec(n) + " 个诊断（"@ + dec(applicable) + " 个有可应用修复，"@ + dec((n - applicable) as nat)
                + " 个仅提示）\n"@ + plans_human(plan.file@, ps)
        })
}

fn render_fix_human(j: usize, f: &FixAction) -> (r: Vec<char>)
    requires
        j < usize::MAX,
    ensures
        r@ == fix_human(j as int, *f),
{
    let mut out = chars_of("    [");
    push_usize(&mut out, j + 1);
    push_lit(&mut out, "] ");
    push_lit(&mut out, f.description.as_str());
    push_lit(&mut out, " [");
    push_lit(&mut out, f.confidence.as_str());
    push_lit(&mut out, "]\n");
    let tail: Vec<char> = if f.action != ActionKind::Hint {
        let mut t = chars_of("      action: ");
        push_lit(&mut t, f.action.as_str());
        push_lit(&mut t, " at ");
        push_usize(&mut t, f.line);
        push_lit(&mut t, ":");
        push_usize(&mut t, f.col);
        let range: Vec<char> = match (f.end_line, f.end_col) {
            (Some(el), Some(ec)) => {
                let mut r = chars_of("..");
                push_usize(&mut r, el);
                push_lit(&mut r, ":");
                push_usize(&mut r, ec);
                r
            }
            _ => Vec::new(),
        };
        push_chars(&mut t, &range);
        let txt: Vec<char> = match &f.text {
            Some(x) => {
                let mut r = chars_of(" text=");
                let dq = debug_string(x.as_str());
                push_lit(&mut r, dq.as_str());
                r
            }
            None => Vec::new(),
        };
        push_chars(&mut t, &txt);
        push_lit(&mut t, "\n");
        t
    } else {
        match &f.text {
            Some(x) => {
                let mut r = chars_of("      建议文本: ");
                let dq = debug_string(x.as_str());
                push_lit(&mut r, dq.as_str());
                push_lit(&mut r, "\n");
                r
            }
            None => Vec::new(),
        }
    };
    push_chars(&mut out, &tail);
    out
}

fn render_plan_human(file: &str, i: usize, p: &Plan) -> (r: Vec<char>)
    requires
        i < usize::MAX,
    ensures
        r@ == plan_human(file@, i as int, *p),
{
    let mut out = chars_of("\n--- 诊断 #");
    push_usize(&mut out, i + 1);
    push_lit(&mut out, " [");
    push_lit(&mut out, p.diagnostic.code.as_str());
    push_lit(&mut out, "] (");
    push_lit(&mut out, p.diagnostic.severity.as_str());
    push_lit(&mut out, ") ---\n");
    push_lit(&mut out, "  位置: ");
    push_lit(&mut out, file);
    push_lit(&mut out, ":");
    push_usize(&mut out, p.diagnostic.line);
    push_lit(&mut out, ":");
    push_usize(&mut out, p.diagnostic.col);
    push_lit(&mut out, "\n");
    push_lit(&mut out, "  消息: ");
    push_lit(&mut out, p.diagnostic.message.as_str());
    push_lit(&mut out, "\n");
    let m = p.fixes.len();
    let part: Vec<char> = if m == 0 {
        chars_of("  修复: (无)\n")
    } else {
        let mut part = chars_of("  修复 (");
        push_usize(&mut part, m);
        push_lit(&mut part, "):\n");
        let mut list: Vec<char> = Vec::new();
        let mut j: usize = 0;
        while j < m
            invariant
                m == p.fixes@.len(),
                j <= m,
                list@ == fixes_human(p.fixes@.take(j as int)),
            decreases m - j,
        {
            assert(p.fixes@.take(j + 1).drop_last() == p.fixes@.take(j as int));
            let item = render_fix_human(j, &p.fixes[j]);
            push_chars(&mut list, &item);
            j += 1;
        }
        assert(p.fixes@.take(m as int) == p.fixes@);
        push_chars(&mut part, &list);
        part
    };
    push_chars(&mut out, &part);
    push_lit(&mut out, "  retry: ");
    push_bool(&mut out, p.retry);
    push_lit(&mut out, "\n");
    out
}

/// Human-readable rendering of a repair plan.
pub fn to_human(plan: &FixPlan) -> (r: String)
    ensures
        r@ == plan_doc_human(*plan),
{
    let mut out = chars_of("=== ");
    push_lit(&mut out, plan.file.as_str());
    push_lit(&mut out, " ===\n");
    let n = plan.plans.len();
    if n == 0 {
        push_lit(&mut out, "\n无需修复：无诊断。\n");
        return string_of(&out);
    }
    let applicable = count_applicable(&plan.plans);
    let mut part = chars_of("\n共 ");
    push_usize(&mut part, n);
    push_lit(&mut part, " 个诊断（");
    push_usize(&mut part, applicable);
    push_lit(&mut part, " 个有可应用修复，");
    push_usize(&mut part, n - applicable);
    push_lit(&mut part, " 个仅提示）\n");
    let mut list: Vec<char> = Vec::new();
    let mut i: usize = 0;
    while i < n
        invariant
            n == plan.plans@.len(),
            i <= n,
            list@ == plans_human(plan.file@, plan.plans@.take(i as int)),
        decreases n - i,
    {
        assert(plan.plans@.take(i + 1).drop_last() == plan.plans@.take(i as int));
        let item = render_plan_human(plan.file.as_str(), i, &plan.plans[i]);
        push_chars(&mut list, &item);
        i += 1;
    }
    assert(plan.plans@.take(n as int) == plan.plans@);
    push_chars(&mut part, &list);
    push_chars(&mut out, &part);
    string_of(&out)
}

} // verus!

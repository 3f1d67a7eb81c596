//! Source formatter: re-indents each line by block depth, driven by the token
//! stream so that comments and string contents are kept byte for byte.
//!
//! Per line the tokens give a summary (`line_summary`): the first token, the
//! number of block openers (`fn if while for match`, and `enum` where the line
//! has no `=`), of `end`s, whether the last token is `=>`, and the net bracket
//! count. `format_lines` then emits every line at four spaces per level.
use vstd::prelude::*;
use vstd::string::StringSliceAdditionalSpecFns;
use crate::lexer::{lex_from, token_views, Lexer, Token, TokenView, SpannedToken};
use crate::text::{
    chars_of, dec, dec_usize, lines, lines_of, push_chars, push_lit, string_of, trim, trim_chars,
    trim_end, trim_end_chars,
};

verus! {

/// What the tokens of one line give.
pub struct LineSummary {
    pub first: TokenView,
    pub openers: int,
    pub enums: int,
    pub ends: int,
    pub fat_arrow_last: bool,
    pub has_assign: bool,
    pub bracket_delta: int,
}

pub open spec fn is_opener(t: TokenView) -> bool {
    t is Fn || t is If || t is While || t is For || t is Match
}

pub open spec fn bracket_step(t: TokenView) -> int {
    if t is LParen || t is LBrace || t is LBracket {
        1
    } else if t is RParen || t is RBrace || t is RBracket {
        -1
    } else {
        0
    }
}

/// The summary after one more token of the line.
pub open spec fn bump(prev: Option<LineSummary>, t: TokenView) -> LineSummary {
    let s = match prev {
        Some(s) => s,
        None => LineSummary {
            first: t,
            openers: 0,
            enums: 0,
            ends: 0,
            fat_arrow_last: false,
            has_assign: false,
            bracket_delta: 0,
        },
    };
    LineSummary {
        first: s.first,
        openers: s.openers + if is_opener(t) { 1int } else { 0int },
        enums: s.enums + if t is Enum { 1int } else { 0int },
        ends: s.ends + if t is End { 1int } else { 0int },
        fat_arrow_last: t is FatArrow,
        has_assign: s.has_assign || t is Assign,
        bracket_delta: s.bracket_delta + bracket_step(t),
    }
}

/// Summary of line `l` over the first `n` tokens (`None`: no token on it).
pub open spec fn summary_upto(ts: Seq<(TokenView, int, int)>, n: int, l: int) -> Option<LineSummary>
    decreases n,
{
    if n <= 0 {
        None
    } else {
        let prev = summary_upto(ts, n - 1, l);
        if ts[n - 1].1 == l {
            Some(bump(prev, ts[n - 1].0))
        } else {
            prev
        }
    }
}

pub open spec fn line_summary(ts: Seq<(TokenView, int, int)>, l: int) -> Option<LineSummary> {
    summary_upto(ts, ts.len() as int, l)
}

/// Block openers of a line: `enum` counts only on a line without `=`.
pub open spec fn effective_openers(s: LineSummary) -> int {
    s.openers + if s.has_assign { 0int } else { s.enums }
}

/// How a line changes the block depth.
pub open spec fn depth_delta(s: LineSummary) -> int {
    effective_openers(s) - s.ends + if s.fat_arrow_last && !(s.first is End) { 1int } else { 0int }
}

pub open spec fn max0(x: int) -> int {
    if x < 0 { 0 } else { x }
}

/// Four spaces per level.
pub open spec fn indent(depth: int) -> Seq<char>
    decreases depth,
{
    if depth <= 0 {
        Seq::empty()
    } else {
        indent(depth - 1) + "    "@
    }
}

/// Where a line leaves the scan of string literals and comments, from state
/// `st` at character `i`: 0 in code, 1 inside a string literal, 2 inside a
/// `#- ... -#` block comment. A `#` line comment ends with its line; a `\`
/// inside a string takes the next character (the line break too).
pub open spec fn scan_line(l: Seq<char>, i: int, st: int) -> int
    decreases l.len() - i,
{
    if i < 0 || i >= l.len() {
        st
    } else if st == 1 {
        if l[i] == '\\' {
            if i + 1 >= l.len() { 1 } else { scan_line(l, i + 2, 1) }
        } else if l[i] == '"' {
            scan_line(l, i + 1, 0)
        } else {
            scan_line(l, i + 1, 1)
        }
    } else if st == 2 {
        if l[i] == '-' && i + 1 < l.len() && l[i + 1] == '#' {
            scan_line(l, i + 2, 0)
        } else {
            scan_line(l, i + 1, 2)
        }
    } else if l[i] == '"' {
        scan_line(l, i + 1, 1)
    } else if l[i] == '#' {
        if i + 1 < l.len() && l[i + 1] == '-' { scan_line(l, i + 2, 2) } else { 0 }
    } else {
        scan_line(l, i + 1, 0)
    }
}

/// The block depth after a line with summary `s`.
pub open spec fn depth_after(depth: int, s: Option<LineSummary>) -> int {
    match s {
        Some(v) => max0(depth + depth_delta(v)),
        None => depth,
    }
}

/// The open-bracket count after a line with summary `s`.
pub open spec fn brackets_after(bd: int, s: Option<LineSummary>) -> int {
    match s {
        Some(v) => bd + v.bracket_delta,
        None => bd,
    }
}

/// The formatted text of lines `i..` at block depth `depth`, open-bracket
/// count `bd` and scan state `st` (see `scan_line`). A line that starts inside
/// a string literal is kept as it is; a line inside open brackets keeps its
/// own indentation; a line with no token (a comment) takes the current depth;
/// a line starting with `end`, `else` or `elif` goes one level out.
pub open spec fn format_lines(
    ls: Seq<Seq<char>>,
    ts: Seq<(TokenView, int, int)>,
    i: int,
    depth: int,
    bd: int,
    st: int,
) -> Seq<char>
    decreases ls.len() - i,
{
    if i < 0 || i >= ls.len() {
        Seq::empty()
    } else {
        let line = ls[i];
        let t = trim(line);
        let nst = scan_line(line, 0, st);
        let sm = line_summary(ts, i + 1);
        if st == 1 {
            line + "\n"@ + format_lines(ls, ts, i + 1, depth_after(depth, sm), brackets_after(bd, sm), nst)
        } else if t.len() == 0 {
            "\n"@ + format_lines(ls, ts, i + 1, depth, bd, nst)
        } else {
            match sm {
                None => (if bd > 0 { trim_end(line) } else { indent(depth) + t }) + "\n"@ + format_lines(
                    ls,
                    ts,
                    i + 1,
                    depth,
                    bd,
                    nst,
                ),
                Some(s) => {
                    let cont = bd > 0;
                    let dedent = (s.first is End || s.first is Else || s.first is Elif) && !cont;
                    let emit = max0(if dedent { depth - 1 } else { depth });
                    let text = if cont { trim_end(line) } else { indent(emit) + t };
                    text + "\n"@ + format_lines(ls, ts, i + 1, depth_after(depth, sm), brackets_after(bd, sm), nst)
                },
            }
        }
    }
}

/// The lines `format_lines` writes, each without its line break.
pub open spec fn format_pieces(
    ls: Seq<Seq<char>>,
    ts: Seq<(TokenView, int, int)>,
    i: int,
    depth: int,
    bd: int,
    st: int,
) -> Seq<Seq<char>>
    decreases ls.len() - i,
{
    if i < 0 || i >= ls.len() {
        Seq::empty()
    } else {
        let line = ls[i];
        let t = trim(line);
        let nst = scan_line(line, 0, st);
        let sm = line_summary(ts, i + 1);
        if st == 1 {
            seq![line] + format_pieces(ls, ts, i + 1, depth_after(depth, sm), brackets_after(bd, sm), nst)
        } else if t.len() == 0 {
            seq![Seq::<char>::empty()] + format_pieces(ls, ts, i + 1, depth, bd, nst)
        } else {
            match sm {
                None => seq![if bd > 0 { trim_end(line) } else { indent(depth) + t }] + format_pieces(
                    ls,
                    ts,
                    i + 1,
                    depth,
                    bd,
                    nst,
                ),
                Some(s) => {
                    let cont = bd > 0;
                    let dedent = (s.first is End || s.first is Else || s.first is Elif) && !cont;
                    let emit = max0(if dedent { depth - 1 } else { depth });
                    seq![if cont { trim_end(line) } else { indent(emit) + t }] + format_pieces(
                        ls,
                        ts,
                        i + 1,
                        depth_after(depth, sm),
                        brackets_after(bd, sm),
                        nst,
                    )
                },
            }
        }
    }
}

/// Lines joined, each followed by a line break.
pub open spec fn join_lines(ps: Seq<Seq<char>>) -> Seq<char>
    decreases ps.len(),
{
    if ps.len() == 0 {
        Seq::empty()
    } else {
        ps[0] + "\n"@ + join_lines(ps.drop_first())
    }
}

/// How a formatted line relates to its source line: kept as it is (inside a
/// string literal), its trailing whitespace dropped (inside open brackets),
/// its text re-indented, or empty for a blank line.
pub open spec fn reformatted(out: Seq<char>, line: Seq<char>) -> bool {
    ||| out == line
    ||| out == trim_end(line)
    ||| exists|d: int| out == indent(d) + trim(line)
    ||| (out.len() == 0 && trim(line).len() == 0)
}

proof fn lemma_format_pieces(ls: Seq<Seq<char>>, ts: Seq<(TokenView, int, int)>, i: int, depth: int, bd: int, st: int)
    requires
        0 <= i <= ls.len(),
    ensures
        format_lines(ls, ts, i, depth, bd, st) == join_lines(format_pieces(ls, ts, i, depth, bd, st)),
        format_pieces(ls, ts, i, depth, bd, st).len() == ls.len() - i,
        forall|k: int|
            0 <= k < ls.len() - i ==> reformatted(#[trigger] format_pieces(ls, ts, i, depth, bd, st)[k], ls[i + k]),
    decreases ls.len() - i,
{
    if i < ls.len() {
        let line = ls[i];
        let t = trim(line);
        let nst = scan_line(line, 0, st);
        let sm = line_summary(ts, i + 1);
        let (d2, b2) = if st == 1 {
            (depth_after(depth, sm), brackets_after(bd, sm))
        } else if t.len() == 0 {
            (depth, bd)
        } else {
            match sm {
                None => (depth, bd),
                Some(_) => (depth_after(depth, sm), brackets_after(bd, sm)),
            }
        };
        lemma_format_pieces(ls, ts, i + 1, d2, b2, nst);
        let rest = format_pieces(ls, ts, i + 1, d2, b2, nst);
        let ps = format_pieces(ls, ts, i, depth, bd, st);
        assert(ps == seq![ps[0]] + rest);
        assert(ps.drop_first() == rest);
        assert(reformatted(ps[0], line)) by {
            if st != 1 && t.len() != 0 {
                match sm {
                    None => {
                        if bd <= 0 {
                            assert(ps[0] == indent(depth) + t);
                        }
                    },
                    Some(v) => {
                        if bd <= 0 {
                            let dedent = (v.first is End || v.first is Else || v.first is Elif);
                            let emit = max0(if dedent { depth - 1 } else { depth });
                            assert(ps[0] == indent(emit) + t);
                        }
                    },
                }
            }
        }
        assert forall|k: int| 0 <= k < ls.len() - i implies reformatted(#[trigger] ps[k], ls[i + k]) by {
            if k > 0 {
                assert(ps[k] == rest[k - 1]);
                assert(ls[i + k] == ls[(i + 1) + (k - 1)]);
            }
        }
    }
}

/// The formatter works line by line: for each source line, in order, it
/// writes one line followed by a line break, and that line is the source line
/// kept as it is, with its trailing whitespace dropped, re-indented, or
/// emptied when blank.
pub proof fn lemma_format_line_by_line(src: Seq<char>, ts: Seq<(TokenView, int, int)>)
    ensures
        format_lines(lines(src), ts, 0, 0, 0, 0) == join_lines(format_pieces(lines(src), ts, 0, 0, 0, 0)),
        format_pieces(lines(src), ts, 0, 0, 0, 0).len() == lines(src).len(),
        forall|k: int|
            0 <= k < lines(src).len() ==> reformatted(#[trigger] format_pieces(lines(src), ts, 0, 0, 0, 0)[k], lines(src)[k]),
{
    lemma_format_pieces(lines(src), ts, 0, 0, 0, 0);
    assert forall|k: int| 0 <= k < lines(src).len() implies reformatted(
        #[trigger] format_pieces(lines(src), ts, 0, 0, 0, 0)[k],
        lines(src)[k],
    ) by {
        assert(lines(src)[0 + k] == lines(src)[k]);
    }
}

/// The message for a source that does not lex.
pub open spec fn lex_failure(e: (Seq<char>, int, int)) -> Seq<char> {
    "词法错误 ("@ + dec(e.1 as nat) + ":"@ + dec(e.2 as nat) + "): "@ + e.0
}


/// Bounds on a summary over `n` tokens.
pub open spec fn summary_bounded(x: Option<LineSummary>, n: int) -> bool {
    x matches Some(v) ==> {
        &&& 0 <= v.openers
        &&& 0 <= v.enums
        &&& 0 <= v.ends
        &&& v.openers + v.enums + v.ends <= n
        &&& -n <= v.bracket_delta <= n
    }
}

/// Summary counts stay below the number of tokens looked at.
pub proof fn lemma_summary_bounded(ts: Seq<(TokenView, int, int)>, n: int, l: int)
    requires
        0 <= n <= ts.len(),
    ensures
        summary_bounded(summary_upto(ts, n, l), n),
    decreases n,
{
    if n > 0 {
        lemma_summary_bounded(ts, n - 1, l);
    }
}

/// How a line starts, as far as indentation cares.
#[derive(Clone, Copy)]
enum Lead {
    End,
    Else,
    Elif,
    Other,
}

spec fn lead_of(t: TokenView) -> Lead {
    if t is End {
        Lead::End
    } else if t is Else {
        Lead::Else
    } else if t is Elif {
        Lead::Elif
    } else {
        Lead::Other
    }
}

#[derive(Clone, Copy)]
struct LineStat {
    first: Lead,
    openers: u64,
    enums: u64,
    ends: u64,
    fat_arrow_last: bool,
    has_assign: bool,
    bracket_delta: i128,
}

spec fn stat_matches(e: Option<LineStat>, s: Option<LineSummary>) -> bool {
    match (e, s) {
        (None, None) => true,
        (Some(e), Some(s)) => {
            &&& e.first == lead_of(s.first)
            &&& e.openers == s.openers
            &&& e.enums == s.enums
            &&& e.ends == s.ends
            &&& e.fat_arrow_last == s.fat_arrow_last
            &&& e.has_assign == s.has_assign
            &&& e.bracket_delta == s.bracket_delta
        },
        _ => false,
    }
}

fn lead_of_token(t: &Token) -> (r: Lead)
    ensures
        r == lead_of(t@),
{
    match t {
        Token::End => Lead::End,
        Token::Else => Lead::Else,
        Token::Elif => Lead::Elif,
        _ => Lead::Other,
    }
}

/// The stat after one more token of its line; `n` tokens were counted before.
fn bump_stat(prev: Option<LineStat>, t: &Token, Ghost(ps): Ghost<Option<LineSummary>>, n: usize) -> (r: LineStat)
    requires
        stat_matches(prev, ps),
        summary_bounded(ps, n as int),
        n < usize::MAX,
    ensures
        stat_matches(Some(r), Some(bump(ps, t@))),
{
    let s = match prev {
        Some(s) => s,
        None => LineStat {
            first: lead_of_token(t),
            openers: 0,
            enums: 0,
            ends: 0,
            fat_arrow_last: false,
            has_assign: false,
            bracket_delta: 0,
        },
    };
    let is_open = match t {
        Token::Fn | Token::If | Token::While | Token::For | Token::Match => true,
        _ => false,
    };
    let is_enum = match t {
        Token::Enum => true,
        _ => false,
    };
    let is_end = match t {
        Token::End => true,
        _ => false,
    };
    let is_assign = match t {
        Token::Assign => true,
        _ => false,
    };
    let is_fat = match t {
        Token::FatArrow => true,
        _ => false,
    };
    let step: i128 = match t {
        Token::LParen | Token::LBrace | Token::LBracket => 1,
        Token::RParen | Token::RBrace | Token::RBracket => -1,
        _ => 0,
    };
    LineStat {
        first: s.first,
        openers: if is_open { s.openers + 1 } else { s.openers },
        enums: if is_enum { s.enums + 1 } else { s.enums },
        ends: if is_end { s.ends + 1 } else { s.ends },
        fat_arrow_last: is_fat,
        has_assign: s.has_assign || is_assign,
        bracket_delta: s.bracket_delta + step,
    }
}

fn push_indented(out: &mut Vec<char>, depth: i128, text: &[char])
    requires
        depth >= 0,
    ensures
        final(out)@ == old(out)@ + indent(depth as int) + text@,
{
    let mut k: i128 = 0;
    while k < depth
        invariant
            0 <= k <= depth,
            out@ == old(out)@ + indent(k as int),
        decreases depth - k,
    {
        push_lit(out, "    ");
        k = k + 1;
    }
    push_chars(out, text);
}

/// The depth and open-bracket count after a line with stat `s`.
fn step_depth(
    depth: i128,
    bd: i128,
    s: LineStat,
    Ghost(sv): Ghost<LineSummary>,
    Ghost(big): Ghost<int>,
    Ghost(i): Ghost<int>,
) -> (r: (i128, i128))
    requires
        stat_matches(Some(s), Some(sv)),
        summary_bounded(Some(sv), big - 1),
        1 <= big <= 9223372036854775809,
        0 <= i,
        i + 1 <= 9223372036854775808,
        0 <= depth <= i * big,
        -(i * big) <= bd <= i * big,
    ensures
        r.0 == max0(depth + depth_delta(sv)),
        r.1 == bd + sv.bracket_delta,
        0 <= r.0 <= (i + 1) * big,
        -((i + 1) * big) <= r.1 <= (i + 1) * big,
{
    let first_end = match s.first {
        Lead::End => true,
        _ => false,
    };
    let eff: i128 = if s.has_assign {
        s.openers as i128
    } else {
        s.openers as i128 + s.enums as i128
    };
    let fat: i128 = if s.fat_arrow_last && !first_end { 1 } else { 0 };
    let delta: i128 = eff - s.ends as i128 + fat;
    proof {
        assert(delta == depth_delta(sv));
        assert(-big <= delta <= big);
        assert(-big <= sv.bracket_delta <= big);
        assert(depth + delta <= (i + 1) * big) by (nonlinear_arith)
            requires depth <= i * big, delta <= big, big >= 0;
        assert(-((i + 1) * big) <= bd + sv.bracket_delta <= (i + 1) * big) by (nonlinear_arith)
            requires -(i * big) <= bd <= i * big, -big <= sv.bracket_delta <= big, big >= 0;
        assert((i + 1) * big <= 9223372036854775808 * 9223372036854775809) by (nonlinear_arith)
            requires i + 1 <= 9223372036854775808, 0 <= big <= 9223372036854775809;
    }
    let sum = depth + delta;
    (if sum < 0 { 0 } else { sum }, bd + s.bracket_delta)
}

fn scan_state(l: &Vec<char>, st0: u8) -> (r: u8)
    requires
        st0 <= 2,
    ensures
        r as int == scan_line(l@, 0, st0 as int),
        r <= 2,
{
    let mut i: usize = 0;
    let mut st: u8 = st0;
    while i < l.len()
        invariant
            i <= l@.len(),
            st <= 2,
            scan_line(l@, 0, st0 as int) == scan_line(l@, i as int, st as int),
        decreases l@.len() - i,
    {
        let c = l[i];
        if st == 1 {
            if c == '\\' {
                if i + 1 >= l.len() {
                    return 1;
                }
                i = i + 2;
            } else {
                if c == '"' {
                    st = 0;
                }
                i = i + 1;
            }
        } else if st == 2 {
            if c == '-' && i + 1 < l.len() && l[i + 1] == '#' {
                st = 0;
                i = i + 2;
            } else {
                i = i + 1;
            }
        } else if c == '"' {
            st = 1;
            i = i + 1;
        } else if c == '#' {
            if i + 1 < l.len() && l[i + 1] == '-' {
                st = 2;
                i = i + 2;
            } else {
                return 0;
            }
        } else {
            i = i + 1;
        }
    }
    st
}

/// The formatted source, or the message for its first lexical error.
pub fn format_source(src: &str) -> (r: Result<String, String>)
    requires
        src.spec_bytes().len() <= isize::MAX,
    ensures
        match lex_from(src.spec_bytes(), 0) {
            Ok(ts) => r matches Ok(out) && out@ == format_lines(lines(src@), ts, 0, 0, 0, 0),
            Err(e) => r matches Err(m) && m@ == lex_failure(e),
        },
{
    let lexer = Lexer::new(src);
    let tokens = match lexer.tokenize() {
        Ok(ts) => ts,
        Err(e) => {
            let mut m = chars_of("词法错误 (");
            let l = dec_usize(e.line);
            push_chars(&mut m, &l);
            push_lit(&mut m, ":");
            let c = dec_usize(e.col);
            push_chars(&mut m, &c);
            push_lit(&mut m, "): ");
            let msg = chars_of(e.message.as_str());
            push_chars(&mut m, &msg);
            return Err(string_of(&m));
        },
    };
    let ghost ts = token_views(tokens@);
    let ghost bytes = src.spec_bytes();
    proof {
        crate::lexer::lemma_scan_length(bytes, 0);
        crate::text::lemma_encoding_not_shorter(src@);
        crate::text::lemma_lines_count(src@);
    }
    let chars = chars_of(src);
    let ls = lines_of(&chars);
    let ghost lv = lines(src@);
    let nl = ls.len();
    let mut stats: Vec<Option<LineStat>> = Vec::new();
    let mut k: usize = 0;
    while k <= nl
        invariant
            nl < usize::MAX,
            k <= nl + 1,
            stats@.len() == k,
            forall|l: int| 0 <= l < k ==> #[trigger] stats@[l] == None::<LineStat>,
        decreases nl + 1 - k,
    {
        stats.push(None);
        k = k + 1;
    }
    let mut j: usize = 0;
    while j < tokens.len()
        invariant
            ts == token_views(tokens@),
            stats@.len() == nl + 1,
            j <= tokens@.len(),
            forall|l: int| 0 <= l <= nl ==> stat_matches(#[trigger] stats@[l], summary_upto(ts, j as int, l)),
        decreases tokens@.len() - j,
    {
        let line = tokens[j].line;
        assert(ts[j as int] == tokens@[j as int]@);
        if line <= nl {
            let cur = stats[line];
            proof {
                lemma_summary_bounded(ts, j as int, line as int);
            }
            let next = bump_stat(cur, &tokens[j].token, Ghost(summary_upto(ts, j as int, line as int)), j);
            stats.set(line, Some(next));
        }
        assert forall|l: int| 0 <= l <= nl implies stat_matches(#[trigger] stats@[l], summary_upto(ts, j + 1, l)) by {
            if l != line {
                assert(summary_upto(ts, j + 1, l) == summary_upto(ts, j as int, l));
            }
        }
        j = j + 1;
    }
    let ghost big: int = tokens@.len() as int + 1;
    let mut out: Vec<char> = Vec::new();
    let mut depth: i128 = 0;
    let mut bd: i128 = 0;
    let mut st: u8 = 0;
    let mut i: usize = 0;
    while i < nl
        invariant
            ts == token_views(tokens@),
            j == tokens@.len(),
            stats@.len() == nl + 1,
            forall|l: int| 0 <= l <= nl ==> stat_matches(#[trigger] stats@[l], line_summary(ts, l)),
            nl == ls@.len(),
            nl == lv.len(),
            forall|m: int| 0 <= m < ls@.len() ==> #[trigger] ls@[m]@ == lv[m],
            big == tokens@.len() + 1,
            big <= 9223372036854775809,
            nl <= 9223372036854775808,
            i <= nl,
            st <= 2,
            0 <= depth <= i * big,
            -(i * big) <= bd <= i * big,
            out@ + format_lines(lv, ts, i as int, depth as int, bd as int, st as int) == format_lines(lv, ts, 0, 0, 0, 0),
        decreases nl - i,
    {
        let line = &ls[i];
        let t = trim_chars(line);
        let nst = scan_state(line, st);
        let ghost before = out@;
        let ghost sm = line_summary(ts, i + 1);
        proof {
            assert(line@ == lv[i as int]);
            reveal_strlit("\n");
            lemma_summary_bounded(ts, ts.len() as int, i + 1);
            assert(depth <= (i + 1) * big) by (nonlinear_arith)
                requires depth <= i * big, big >= 0;
            assert(-((i + 1) * big) <= bd <= (i + 1) * big) by (nonlinear_arith)
                requires -(i * big) <= bd <= i * big, big >= 0;
        }
        let (nd, nb) = match stats[i + 1] {
            None => (depth, bd),
            Some(s) => step_depth(depth, bd, s, Ghost(sm.unwrap()), Ghost(big), Ghost(i as int)),
        };
        if st == 1 {
            push_chars(&mut out, line);
            out.push('\n');
            proof {
                assert(before + (line@ + "\n"@ + format_lines(lv, ts, i + 1, nd as int, nb as int, nst as int))
                    == out@ + format_lines(lv, ts, i + 1, nd as int, nb as int, nst as int));
            }
            depth = nd;
            bd = nb;
        } else if t.len() == 0 {
            out.push('\n');
            proof {
                assert(before + ("\n"@ + format_lines(lv, ts, i + 1, depth as int, bd as int, nst as int)) == out@
                    + format_lines(lv, ts, i + 1, depth as int, bd as int, nst as int));
            }
        } else {
            match stats[i + 1] {
                None => {
                    let text = if bd > 0 {
                        trim_end_chars(line)
                    } else {
                        let mut v: Vec<char> = Vec::new();
                        push_indented(&mut v, depth, &t);
                        v
                    };
                    push_chars(&mut out, &text);
                    out.push('\n');
                    proof {
                        assert(before + (text@ + "\n"@ + format_lines(lv, ts, i + 1, depth as int, bd as int, nst as int))
                            == out@ + format_lines(lv, ts, i + 1, depth as int, bd as int, nst as int));
                    }
                },
                Some(s) => {
                    let cont = bd > 0;
                    let lead_dedent = match s.first {
                        Lead::End | Lead::Else | Lead::Elif => true,
                        Lead::Other => false,
                    };
                    let dedent = lead_dedent && !cont;
                    let raw = if dedent { depth - 1 } else { depth };
                    let emit = if raw < 0 { 0 } else { raw };
                    let text = if cont {
                        trim_end_chars(line)
                    } else {
                        let mut v: Vec<char> = Vec::new();
                        push_indented(&mut v, emit, &t);
                        v
                    };
                    push_chars(&mut out, &text);
                    out.push('\n');
                    proof {
                        assert(before + (text@ + "\n"@ + format_lines(lv, ts, i + 1, nd as int, nb as int, nst as int))
                            == out@ + format_lines(lv, ts, i + 1, nd as int, nb as int, nst as int));
                    }
                    depth = nd;
                    bd = nb;
                },
            }
        }
        st = nst;
        i = i + 1;
    }
    proof {
        assert(out@ + Seq::<char>::empty() == out@);
    }
    Ok(string_of(&out))
}

} // verus!

verus! {

/// The words that open or close a block: `fn if while for match enum end`.
pub open spec fn block_word(t: TokenView) -> bool {
    t is Fn || t is If || t is While || t is For || t is Match || t is Enum || t is End
}

/// A line whose only block word is its first token, with no `=>` on it.
pub open spec fn lone_block_line(ts: Seq<(TokenView, int, int)>, l: int) -> bool {
    &&& line_summary(ts, l) matches Some(s) && block_word(s.first) && !(s.first is Enum)
    &&& forall|j: int, k: int|
        0 <= j < k < ts.len() && #[trigger] ts[j].1 == l && ts[k].1 == l ==> !block_word(#[trigger] ts[k].0)
    &&& forall|k: int| 0 <= k < ts.len() && ts[k].1 == l ==> !(#[trigger] ts[k].0 is FatArrow)
}

proof fn lemma_summary_has_token(ts: Seq<(TokenView, int, int)>, n: int, l: int)
    requires
        0 <= n <= ts.len(),
        summary_upto(ts, n, l) is Some,
    ensures
        exists|k: int| 0 <= k < n && ts[k].1 == l,
    decreases n,
{
    if ts[n - 1].1 != l {
        lemma_summary_has_token(ts, n - 1, l);
    }
}

proof fn lemma_lone_summary(ts: Seq<(TokenView, int, int)>, n: int, l: int)
    requires
        0 <= n <= ts.len(),
        forall|j: int, k: int|
            0 <= j < k < ts.len() && #[trigger] ts[j].1 == l && ts[k].1 == l ==> !block_word(#[trigger] ts[k].0),
        forall|k: int| 0 <= k < ts.len() && ts[k].1 == l ==> !(#[trigger] ts[k].0 is FatArrow),
    ensures
        summary_upto(ts, n, l) matches Some(s) ==> (((s.first is Fn || s.first is If || s.first is While || s.first is For
            || s.first is Match) ==> s.openers == 1 && s.enums == 0
            && s.ends == 0) && (s.first is End ==> s.openers == 0 && s.enums == 0 && s.ends == 1)
            && !s.fat_arrow_last),
    decreases n,
{
    if n > 0 {
        lemma_lone_summary(ts, n - 1, l);
        if ts[n - 1].1 == l {
            if let Some(p) = summary_upto(ts, n - 1, l) {
                lemma_summary_has_token(ts, n - 1, l);
                let k = choose|k: int| 0 <= k < n - 1 && ts[k].1 == l;
                assert(!block_word(ts[n - 1].0));
                assert(!(ts[n - 1].0 is FatArrow));
            } else {
                assert(!(ts[n - 1].0 is FatArrow));
            }
        }
    }
}

/// Each block word at the start of a line moves the block depth by one: a
/// line-leading `fn`, `if`, `while`, `for` or `match` opens a block (one level
/// deeper after the line), and a line-leading `end` closes one (one level out,
/// never below zero), when it is the line's only block word and no `=>` is on
/// the line.
pub proof fn lemma_block_words_move_depth(ts: Seq<(TokenView, int, int)>, l: int, depth: int)
    requires
        depth >= 0,
        lone_block_line(ts, l),
    ensures
        (line_summary(ts, l)->0.first is Fn || line_summary(ts, l)->0.first is If || line_summary(ts, l)->0.first is While
            || line_summary(ts, l)->0.first is For || line_summary(ts, l)->0.first is Match) ==> depth_after(
            depth,
            line_summary(ts, l),
        ) == depth + 1,
        line_summary(ts, l)->0.first is End ==> depth_after(depth, line_summary(ts, l)) == if depth > 0 {
            depth - 1
        } else {
            0
        },
{
    lemma_lone_summary(ts, ts.len() as int, l);
}

/// The line after a line-leading block opener (`fn`, `if`, `while`, `for`,
/// `match`) is indented one level (four spaces) deeper than the opener,
/// unless it is an `end`, `else` or `elif`, which is indented as the opener
/// itself.
pub proof fn lemma_block_body_indented(
    ls: Seq<Seq<char>>,
    ts: Seq<(TokenView, int, int)>,
    i: int,
    depth: int,
    st: int,
)
    requires
        0 <= i,
        i + 1 < ls.len(),
        depth >= 0,
        st != 1,
        trim(ls[i]).len() > 0,
        lone_block_line(ts, i + 1),
        line_summary(ts, i + 1)->0.first is Fn || line_summary(ts, i + 1)->0.first is If || line_summary(ts, i + 1)->0.first is While
            || line_summary(ts, i + 1)->0.first is For || line_summary(ts, i + 1)->0.first is Match,
        brackets_after(0, line_summary(ts, i + 1)) == 0,
        scan_line(ls[i], 0, st) != 1,
        trim(ls[i + 1]).len() > 0,
        line_summary(ts, i + 2) is Some,
    ensures
        ({
            let s2 = line_summary(ts, i + 2)->0;
            let closes = s2.first is End || s2.first is Else || s2.first is Elif;
            let st2 = scan_line(ls[i], 0, st);
            format_lines(ls, ts, i, depth, 0, st) == indent(depth) + trim(ls[i]) + "\n"@ + indent(
                if closes { depth } else { depth + 1 },
            ) + trim(ls[i + 1]) + "\n"@ + format_lines(
                ls,
                ts,
                i + 2,
                depth_after(depth + 1, line_summary(ts, i + 2)),
                brackets_after(0, line_summary(ts, i + 2)),
                scan_line(ls[i + 1], 0, st2),
            )
        }),
{
    lemma_block_words_move_depth(ts, i + 1, depth);
    let st2 = scan_line(ls[i], 0, st);
    let s2 = line_summary(ts, i + 2)->0;
    let rest = format_lines(
        ls,
        ts,
        i + 2,
        depth_after(depth + 1, line_summary(ts, i + 2)),
        brackets_after(0, line_summary(ts, i + 2)),
        scan_line(ls[i + 1], 0, st2),
    );
    let second = format_lines(ls, ts, i + 1, depth + 1, 0, st2);
    let closes = s2.first is End || s2.first is Else || s2.first is Elif;
    assert(second == indent(if closes { depth } else { depth + 1 }) + trim(ls[i + 1]) + "\n"@ + rest);
    assert(format_lines(ls, ts, i, depth, 0, st) == indent(depth) + trim(ls[i]) + "\n"@ + second);
    assert(format_lines(ls, ts, i, depth, 0, st) =~= indent(depth) + trim(ls[i]) + "\n"@ + indent(
        if closes { depth } else { depth + 1 },
    ) + trim(ls[i + 1]) + "\n"@ + rest);
}

} // verus!

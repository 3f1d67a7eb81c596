//! Applying repair plans: the high-confidence, non-hint actions of a plan are
//! applied to the source from the last position to the first.
use vstd::prelude::*;
use crate::text::{
    chars_of, dec, find_char_from, lines, lines_of, push_chars, push_lit, push_usize, string_of, owned,
    bool_text, push_bool, sep_list, lemma_sep_list_step, escape_json, push_json_escaped, flat_map_chars,
};
use crate::fix::{ActionKind, Confidence, FixAction, FixPlan, Plan};
use crate::diagnostics::opt_text;

verus! {

broadcast use vstd::string::group_string_axioms;

/// Outcome of applying a plan.
pub struct ApplyResult {
    pub applied: usize,
    pub skipped: usize,
    pub changes: Vec<AppliedChange>,
    /// The whole source after the repairs.
    pub patched_source: String,
}

/// One applied repair.
pub struct AppliedChange {
    pub line: usize,
    pub col: usize,
    pub action: ActionKind,
    pub description: String,
}

// ===== positions =====

/// Number of UTF-8 bytes that encode `c`.
pub open spec fn utf8_width(c: char) -> nat {
    if (c as u32) < 0x80 {
        1
    } else if (c as u32) < 0x800 {
        2
    } else if (c as u32) < 0x10000 {
        3
    } else {
        4
    }
}

/// Number of UTF-8 bytes that encode a text.
pub open spec fn utf8_len(s: Seq<char>) -> nat
    decreases s.len(),
{
    if s.len() == 0 {
        0
    } else {
        utf8_len(s.drop_last()) + utf8_width(s.last())
    }
}

/// Character index where line `line` (1-based) starts, when the text has that line start.
pub open spec fn line_start(s: Seq<char>, line: int) -> Option<int>
    decreases line,
{
    if line <= 1 {
        Some(0)
    } else {
        match line_start(s, line - 1) {
            None => None,
            Some(p) => match find_char_from(s, '\n', p) {
                None => None,
                Some(q) => Some(q + 1),
            },
        }
    }
}

/// Number of line feeds in a text.
pub open spec fn count_newlines(s: Seq<char>) -> nat
    decreases s.len(),
{
    if s.len() == 0 {
        0
    } else {
        count_newlines(s.drop_last()) + if s.last() == '\n' { 1nat } else { 0nat }
    }
}

/// Length of the line that starts at `p` (up to the next line feed or the end).
pub open spec fn line_len_at(s: Seq<char>, p: int) -> int {
    match find_char_from(s, '\n', p) {
        Some(q) => q - p,
        None => s.len() - p,
    }
}

/// Character offset of 1-based `(line, col)`, where `col` may be one past the
/// last character of the line; otherwise the error message.
pub open spec fn char_offset(s: Seq<char>, line: usize, col: usize) -> Result<int, Seq<char>> {
    if line == 0 || col == 0 {
        Err("line/col 不能为 0"@)
    } else {
        match line_start(s, line as int) {
            None => Err("line "@ + dec(line as nat) + " 超出源码范围 (max "@ + dec(count_newlines(s) + 1) + ")"@),
            Some(p) => if col <= line_len_at(s, p) + 1 {
                Ok(p + (col - 1))
            } else {
                Err("col "@ + dec(col as nat) + " 超出行范围 (max "@ + dec((line_len_at(s, p) + 1) as nat) + ")"@)
            },
        }
    }
}

proof fn lemma_find_nl(s: Seq<char>, i: int)
    requires
        0 <= i,
    ensures
        find_char_from(s, '\n', i) matches Some(k) ==> i <= k < s.len() && s[k] == '\n'
            && forall|j: int| i <= j < k ==> s[j] != '\n',
        find_char_from(s, '\n', i) is None ==> forall|j: int| i <= j < s.len() ==> s[j] != '\n',
    decreases s.len() - i,
{
    if 0 <= i < s.len() && s[i] != '\n' {
        lemma_find_nl(s, i + 1);
    }
}

proof fn lemma_line_start_bounds(s: Seq<char>, line: int)
    ensures
        line_start(s, line) matches Some(p) ==> 0 <= p <= s.len(),
    decreases line,
{
    if line > 1 {
        lemma_line_start_bounds(s, line - 1);
        if let Some(p) = line_start(s, line - 1) {
            lemma_find_nl(s, p);
        }
    }
}

proof fn lemma_count_newlines_le(s: Seq<char>)
    ensures
        count_newlines(s) <= s.len(),
    decreases s.len(),
{
    if s.len() > 0 {
        lemma_count_newlines_le(s.drop_last());
    }
}

fn line_start_exec(s: &[char], line: usize) -> (r: Option<(usize, usize)>)
    requires
        line >= 1,
    ensures
        match r {
            Some((p, nl)) => line_start(s@, line as int) == Some(p as int),
            None => line_start(s@, line as int) is None,
        },
{
    let mut p: usize = 0;
    let mut cur: usize = 1;
    while cur < line
        invariant
            1 <= cur <= line,
            line_start(s@, cur as int) == Some(p as int),
            p <= s@.len(),
        decreases line - cur,
    {
        match crate::text::find_char(s, '\n', p) {
            None => {
                assert(line_start(s@, (cur + 1) as int) is None);
                proof { lemma_line_start_none(s@, (cur + 1) as int, line as int); }
                return None;
            }
            Some(q) => {
                proof { lemma_find_nl(s@, p as int); }
                assert(q < s.len());
                p = q + 1;
                cur += 1;
            }
        }
    }
    Some((p, 0))
}

proof fn lemma_line_start_none(s: Seq<char>, a: int, b: int)
    requires
        a <= b,
        a >= 2,
        line_start(s, a) is None,
    ensures
        line_start(s, b) is None,
    decreases b - a,
{
    if a < b {
        lemma_line_start_none(s, a + 1, b);
        assert(line_start(s, a + 1) is None);
    }
}

fn count_newlines_exec(s: &[char]) -> (r: usize)
    ensures
        r == count_newlines(s@),
{
    let mut c: usize = 0;
    let mut i: usize = 0;
    while i < s.len()
        invariant
            i <= s@.len(),
            c == count_newlines(s@.take(i as int)),
            c <= i,
        decreases s@.len() - i,
    {
        assert(s@.take(i + 1).drop_last() == s@.take(i as int));
        if s[i] == '\n' {
            c += 1;
        }
        i += 1;
    }
    assert(s@.take(s@.len() as int) == s@);
    c
}

fn line_len_exec(s: &[char], p: usize) -> (r: usize)
    requires
        p <= s@.len(),
    ensures
        r == line_len_at(s@, p as int),
{
    proof { lemma_find_nl(s@, p as int); }
    match crate::text::find_char(s, '\n', p) {
        Some(q) => q - p,
        None => s.len() - p,
    }
}

fn char_offset_exec(s: &[char], line: usize, col: usize) -> (r: Result<usize, Vec<char>>)
    ensures
        match r {
            Ok(k) => char_offset(s@, line, col) == Ok::<int, Seq<char>>(k as int),
            Err(m) => char_offset(s@, line, col) == Err::<int, Seq<char>>(m@),
        },
        r matches Ok(k) ==> k <= s@.len(),
{
    if line == 0 || col == 0 {
        return Err(chars_of("line/col 不能为 0"));
    }
    match line_start_exec(s, line) {
        None => {
            let nl = count_newlines_exec(s);
            proof { lemma_count_newlines_le(s@); }
            let mut m = chars_of("line ");
            push_usize(&mut m, line);
            push_lit(&mut m, " 超出源码范围 (max ");
            crate::text::push_succ(&mut m, nl);
            push_lit(&mut m, ")");
            Err(m)
        }
        Some((p, _)) => {
            proof { lemma_line_start_bounds(s@, line as int); lemma_find_nl(s@, p as int); }
            let len = line_len_exec(s, p);
            assert(len <= s@.len() - p);
            assert(s@.len() == s.len());
            if col - 1 <= len {
                Ok(p + (col - 1))
            } else {
                let mut m = chars_of("col ");
                push_usize(&mut m, col);
                push_lit(&mut m, " 超出行范围 (max ");
                crate::text::push_succ(&mut m, len);
                push_lit(&mut m, ")");
                Err(m)
            }
        }
    }
}

fn utf8_width_exec(c: char) -> (r: usize)
    ensures
        r == utf8_width(c),
{
    let v = c as u32;
    if v < 0x80 {
        1
    } else if v < 0x800 {
        2
    } else if v < 0x10000 {
        3
    } else {
        4
    }
}

proof fn lemma_utf8_len_le(s: Seq<char>)
    ensures
        utf8_len(s) <= 4 * s.len(),
    decreases s.len(),
{
    if s.len() > 0 {
        lemma_utf8_len_le(s.drop_last());
    }
}

fn utf8_len_prefix(s: &[char], k: usize) -> (r: usize)
    requires
        k <= s@.len(),
        s@.len() <= usize::MAX / 4,
    ensures
        r == utf8_len(s@.take(k as int)),
{
    let mut total: usize = 0;
    let mut i: usize = 0;
    while i < k
        invariant
            i <= k <= s@.len(),
            s@.len() <= usize::MAX / 4,
            total == utf8_len(s@.take(i as int)),
            total <= 4 * i,
        decreases k - i,
    {
        assert(s@.take(i + 1).drop_last() == s@.take(i as int));
        total += utf8_width_exec(s[i]);
        i += 1;
    }
    total
}

/// Byte offset of 1-based `(line, col)` in the source (lines split at `\n`;
/// `col` may be one past the last character of the line), or the error message.
pub fn line_col_to_offset(source: &str, line: usize, col: usize) -> (r: Result<usize, String>)
    requires
        source@.len() <= usize::MAX / 4,
    ensures
        match char_offset(source@, line, col) {
            Ok(k) => r matches Ok(b) && b == utf8_len(source@.take(k)),
            Err(m) => r matches Err(e) && e@ == m,
        },
{
    let s = chars_of(source);
    match char_offset_exec(&s, line, col) {
        Ok(k) => Ok(utf8_len_prefix(&s, k)),
        Err(m) => Err(string_of(&m)),
    }
}

// ===== validity =====

/// Whether an action's positions lie inside the source (as `str::lines` splits it).
pub open spec fn valid_position(f: FixAction, src: Seq<char>) -> bool {
    let ls = lines(src);
    &&& f.line != 0 && f.col != 0
    &&& f.line <= ls.len()
    &&& f.col <= ls[f.line - 1].len() + 1
    &&& match (f.end_line, f.end_col) {
        (Some(el), Some(ec)) => {
            &&& el >= f.line
            &&& el <= ls.len()
            &&& !(el == f.line && ec < f.col)
            &&& ec <= ls[el - 1].len() + 1
        },
        _ => true,
    }
}

fn is_valid_position(f: &FixAction, lv: &Vec<Vec<char>>, src: Ghost<Seq<char>>) -> (r: bool)
    requires
        lv@.len() == lines(src@).len(),
        forall|k: int| 0 <= k < lv@.len() ==> #[trigger] lv@[k]@ == lines(src@)[k],
        forall|k: int| 0 <= k < lv@.len() ==> (#[trigger] lv@[k])@.len() < usize::MAX,
    ensures
        r == valid_position(*f, src@),
{
    if f.line == 0 || f.col == 0 {
        return false;
    }
    if f.line > lv.len() {
        return false;
    }
    let col_max = lv[f.line - 1].len() + 1;
    if f.col > col_max {
        return false;
    }
    match (f.end_line, f.end_col) {
        (Some(end_line), Some(end_col)) => {
            if end_line < f.line {
                return false;
            }
            if end_line > lv.len() {
                return false;
            }
            if end_line == f.line && end_col < f.col {
                return false;
            }
            let end_col_max = lv[end_line - 1].len() + 1;
            if end_col > end_col_max {
                return false;
            }
        }
        _ => {}
    }
    true
}

// ===== applying one action =====

/// The text of an action, empty when it has none.
pub open spec fn text_or_empty(f: FixAction) -> Seq<char> {
    match f.text {
        Some(t) => t@,
        None => Seq::empty(),
    }
}

/// The source after applying one action, `None` when a position does not resolve.
pub open spec fn apply_one_spec(f: FixAction, s: Seq<char>) -> Option<Seq<char>> {
    match char_offset(s, f.line, f.col) {
        Err(_) => None,
        Ok(a) => match f.action {
            ActionKind::Insert => Some(s.take(a) + text_or_empty(f) + s.skip(a)),
            ActionKind::Hint => Some(s),
            _ => match (f.end_line, f.end_col) {
                (Some(el), Some(ec)) => match char_offset(s, el, ec) {
                    Err(_) => None,
                    Ok(b) => if b < a {
                        None
                    } else if f.action == ActionKind::Replace {
                        Some(s.take(a) + text_or_empty(f) + s.skip(b))
                    } else {
                        Some(s.take(a) + s.skip(b))
                    },
                },
                _ => None,
            },
        },
    }
}

fn splice(s: &Vec<char>, a: usize, b: usize, t: &[char]) -> (r: Vec<char>)
    requires
        a <= b <= s@.len(),
    ensures
        r@ == s@.take(a as int) + t@ + s@.skip(b as int),
{
    let mut r = crate::text::slice_chars(s, 0, a);
    push_chars(&mut r, t);
    let rest = crate::text::slice_chars(s, b, s.len());
    push_chars(&mut r, &rest);
    assert(s@.subrange(0, a as int) == s@.take(a as int));
    assert(s@.subrange(b as int, s@.len() as int) == s@.skip(b as int));
    r
}

fn apply_one(f: &FixAction, patched: &Vec<char>) -> (r: Option<Vec<char>>)
    ensures
        match r {
            Some(v) => apply_one_spec(*f, patched@) == Some(v@),
            None => apply_one_spec(*f, patched@) is None,
        },
{
    let start = match char_offset_exec(patched, f.line, f.col) {
        Ok(k) => k,
        Err(_) => return None,
    };
    let text: Vec<char> = match &f.text {
        Some(t) => chars_of(t.as_str()),
        None => Vec::new(),
    };
    assert(text@ == text_or_empty(*f));
    match f.action {
        ActionKind::Insert => Some(splice(patched, start, start, &text)),
        ActionKind::Hint => Some(crate::text::to_vec(patched)),
        _ => {
            let (el, ec) = match (f.end_line, f.end_col) {
                (Some(l), Some(c)) => (l, c),
                _ => return None,
            };
            let end = match char_offset_exec(patched, el, ec) {
                Ok(k) => k,
                Err(_) => return None,
            };
            if end < start {
                return None;
            }
            if f.action == ActionKind::Replace {
                Some(splice(patched, start, end, &text))
            } else {
                let empty: Vec<char> = Vec::new();
                let r = splice(patched, start, end, &empty);
                assert(patched@.take(start as int) + empty@ =~= patched@.take(start as int));
                Some(r)
            }
        }
    }
}

// ===== ordering =====

/// Whether `a` stands at a strictly later position than `b`.
pub open spec fn pos_after(a: FixAction, b: FixAction) -> bool {
    a.line > b.line || (a.line == b.line && a.col > b.col)
}

/// First index from `i` on whose action stands strictly before `x`.
pub open spec fn first_before(r: Seq<FixAction>, x: FixAction, i: int) -> int
    decreases r.len() - i,
{
    if i < 0 || i >= r.len() {
        r.len() as int
    } else if pos_after(x, r[i]) {
        i
    } else {
        first_before(r, x, i + 1)
    }
}

/// Stable sort by position, last position first (insertion sort).
pub open spec fn sort_desc(xs: Seq<FixAction>) -> Seq<FixAction>
    decreases xs.len(),
{
    if xs.len() == 0 {
        Seq::empty()
    } else {
        let r = sort_desc(xs.drop_last());
        r.insert(first_before(r, xs.last(), 0), xs.last())
    }
}

proof fn lemma_first_before_bounds(r: Seq<FixAction>, x: FixAction, i: int)
    requires
        0 <= i <= r.len(),
    ensures
        i <= first_before(r, x, i) <= r.len(),
    decreases r.len() - i,
{
    if i < r.len() && !pos_after(x, r[i]) {
        lemma_first_before_bounds(r, x, i + 1);
    }
}

proof fn lemma_sort_desc_len(xs: Seq<FixAction>)
    ensures
        sort_desc(xs).len() == xs.len(),
    decreases xs.len(),
{
    if xs.len() > 0 {
        lemma_sort_desc_len(xs.drop_last());
        lemma_first_before_bounds(sort_desc(xs.drop_last()), xs.last(), 0);
    }
}

fn sort_by_position_desc<'a>(xs: &Vec<&'a FixAction>) -> (r: Vec<&'a FixAction>)
    ensures
        r@.map_values(|f: &FixAction| *f) == sort_desc(xs@.map_values(|f: &FixAction| *f)),
{
    let ghost xv = xs@.map_values(|f: &FixAction| *f);
    let mut r: Vec<&'a FixAction> = Vec::new();
    let mut i: usize = 0;
    while i < xs.len()
        invariant
            i <= xs@.len(),
            xv == xs@.map_values(|f: &FixAction| *f),
            r@.map_values(|f: &FixAction| *f) == sort_desc(xv.take(i as int)),
        decreases xs@.len() - i,
    {
        let x = xs[i];
        let ghost rv = r@.map_values(|f: &FixAction| *f);
        assert(xv.take(i + 1).drop_last() == xv.take(i as int));
        assert(xv.take(i + 1).last() == *x);
        proof { lemma_sort_desc_len(xv.take(i as int)); }
        let mut k: usize = 0;
        while k < r.len() && !(x.line > r[k].line || (x.line == r[k].line && x.col > r[k].col))
            invariant
                k <= r@.len(),
                rv == r@.map_values(|f: &FixAction| *f),
                first_before(rv, *x, 0) == first_before(rv, *x, k as int),
            decreases r@.len() - k,
        {
            k += 1;
        }
        r.insert(k, x);
        assert(r@.map_values(|f: &FixAction| *f) =~= rv.insert(k as int, *x));
        i += 1;
    }
    assert(xv.take(xs@.len() as int) == xv);
    r
}

/// Whether change `a` stands strictly after change `b`.
pub open spec fn change_after(a: AppliedChange, b: AppliedChange) -> bool {
    a.line > b.line || (a.line == b.line && a.col > b.col)
}

/// First index from `i` on whose change stands strictly after `x`.
pub open spec fn first_after(r: Seq<AppliedChange>, x: AppliedChange, i: int) -> int
    decreases r.len() - i,
{
    if i < 0 || i >= r.len() {
        r.len() as int
    } else if change_after(r[i], x) {
        i
    } else {
        first_after(r, x, i + 1)
    }
}

/// Stable sort of changes by position, first position first (insertion sort).
pub open spec fn sort_asc(xs: Seq<AppliedChange>) -> Seq<AppliedChange>
    decreases xs.len(),
{
    if xs.len() == 0 {
        Seq::empty()
    } else {
        let r = sort_asc(xs.drop_last());
        r.insert(first_after(r, xs.last(), 0), xs.last())
    }
}

proof fn lemma_first_after_bounds(r: Seq<AppliedChange>, x: AppliedChange, i: int)
    requires
        0 <= i <= r.len(),
    ensures
        i <= first_after(r, x, i) <= r.len(),
    decreases r.len() - i,
{
    if i < r.len() && !change_after(r[i], x) {
        lemma_first_after_bounds(r, x, i + 1);
    }
}

proof fn lemma_sort_asc_len(xs: Seq<AppliedChange>)
    ensures
        sort_asc(xs).len() == xs.len(),
    decreases xs.len(),
{
    if xs.len() > 0 {
        lemma_sort_asc_len(xs.drop_last());
        lemma_first_after_bounds(sort_asc(xs.drop_last()), xs.last(), 0);
    }
}

// ===== applying a plan =====

/// Whether an action is applied automatically: high confidence and not a hint.
pub open spec fn auto_applicable(f: FixAction) -> bool {
    f.action != ActionKind::Hint && f.confidence == Confidence::High
}

/// All actions of all plans, in order.
pub open spec fn all_fixes(ps: Seq<Plan>) -> Seq<FixAction>
    decreases ps.len(),
{
    if ps.len() == 0 {
        Seq::empty()
    } else {
        all_fixes(ps.drop_last()) + ps.last().fixes@
    }
}

/// An action at `f`'s position is already among `cs`.
pub open spec fn pos_taken(cs: Seq<FixAction>, f: FixAction) -> bool {
    exists|k: int| 0 <= k < cs.len() && (#[trigger] cs[k]).line == f.line && cs[k].col == f.col
}

/// The actions that get applied (in plan order); of several actions at one
/// position only the first is taken.
pub open spec fn candidates(fs: Seq<FixAction>, src: Seq<char>) -> Seq<FixAction>
    decreases fs.len(),
{
    if fs.len() == 0 {
        Seq::empty()
    } else {
        candidates(fs.drop_last(), src) + if auto_applicable(fs.last()) && valid_position(fs.last(), src)
            && !pos_taken(candidates(fs.drop_last(), src), fs.last()) {
            seq![fs.last()]
        } else {
            Seq::empty()
        }
    }
}

/// Applies the actions in order; yields the final text and the actions that applied.
pub open spec fn apply_all(fs: Seq<FixAction>, s: Seq<char>) -> (Seq<char>, Seq<FixAction>)
    decreases fs.len(),
{
    if fs.len() == 0 {
        (s, Seq::empty())
    } else {
        match apply_one_spec(fs[0], s) {
            Some(s2) => {
                let (r, a) = apply_all(fs.drop_first(), s2);
                (r, seq![fs[0]] + a)
            },
            None => apply_all(fs.drop_first(), s),
        }
    }
}

/// The change record of an applied action.
pub open spec fn change_of(f: FixAction) -> AppliedChange {
    AppliedChange { line: f.line, col: f.col, action: f.action, description: f.description }
}

/// The order in which the candidates are applied: last position first.
pub open spec fn apply_order(plan: FixPlan, src: Seq<char>) -> Seq<FixAction> {
    sort_desc(candidates(all_fixes(plan.plans@), src))
}

/// What applying a plan to a source yields: the patched source, the applied
/// changes sorted by position, and the counts.
pub open spec fn apply_outcome(plan: FixPlan, src: Seq<char>, r: ApplyResult) -> bool {
    let order = apply_order(plan, src);
    let (patched, applied) = apply_all(order, src);
    &&& r.patched_source@ == patched
    &&& r.changes@ == sort_asc(applied.map_values(|f: FixAction| change_of(f)))
    &&& r.applied == applied.len()
    &&& r.skipped == all_fixes(plan.plans@).len() - applied.len()
}

proof fn lemma_candidates_len(fs: Seq<FixAction>, src: Seq<char>)
    ensures
        candidates(fs, src).len() <= fs.len(),
    decreases fs.len(),
{
    if fs.len() > 0 {
        lemma_candidates_len(fs.drop_last(), src);
    }
}

proof fn lemma_apply_all_len(fs: Seq<FixAction>, s: Seq<char>)
    ensures
        apply_all(fs, s).1.len() <= fs.len(),
    decreases fs.len(),
{
    if fs.len() > 0 {
        lemma_apply_all_len(fs.drop_first(), s);
        if let Some(s2) = apply_one_spec(fs[0], s) {
            lemma_apply_all_len(fs.drop_first(), s2);
        }
    }
}

fn position_taken(xs: &Vec<&FixAction>, f: &FixAction) -> (r: bool)
    ensures
        r == pos_taken(xs@.map_values(|g: &FixAction| *g), *f),
{
    let ghost v = xs@.map_values(|g: &FixAction| *g);
    let mut k: usize = 0;
    while k < xs.len()
        invariant
            k <= xs@.len(),
            v == xs@.map_values(|g: &FixAction| *g),
            forall|j: int| 0 <= j < k ==> !((#[trigger] v[j]).line == f.line && v[j].col == f.col),
        decreases xs@.len() - k,
    {
        assert(v[k as int] == *xs@[k as int]);
        if xs[k].line == f.line && xs[k].col == f.col {
            return true;
        }
        k += 1;
    }
    false
}

fn insert_change_sorted(changes: &mut Vec<AppliedChange>, x: AppliedChange)
    ensures
        final(changes)@ == old(changes)@.insert(first_after(old(changes)@, x, 0), x),
{
    let ghost rv = changes@;
    let mut k: usize = 0;
    while k < changes.len() && !(changes[k].line > x.line || (changes[k].line == x.line && changes[k].col > x.col))
        invariant
            k <= changes@.len(),
            rv == changes@,
            first_after(rv, x, 0) == first_after(rv, x, k as int),
        decreases changes@.len() - k,
    {
        k += 1;
    }
    changes.insert(k, x);
}

/// Applies the high-confidence, non-hint actions of a plan whose positions lie
/// inside the source, at most one per position, from the last position to the
/// first; an action whose position no longer resolves is skipped.
pub fn apply_plan(plan: &FixPlan, source: &str) -> (r: ApplyResult)
    requires
        all_fixes(plan.plans@).len() <= usize::MAX,
        source@.len() < usize::MAX,
    ensures
        apply_outcome(*plan, source@, r),
{
    let src = chars_of(source);
    let lv = lines_of(&src);
    proof { crate::text::lemma_lines_shorter(src@); }
    assert forall|k: int| 0 <= k < lv@.len() implies (#[trigger] lv@[k])@.len() < usize::MAX by {
        assert(lv@[k]@ == lines(src@)[k]);
    }
    let ghost ps = plan.plans@;
    let mut applicable: Vec<&FixAction> = Vec::new();
    let mut skipped: usize = 0;
    let mut i: usize = 0;
    while i < plan.plans.len()
        invariant
            ps == plan.plans@,
            i <= ps.len(),
            all_fixes(ps).len() <= usize::MAX,
            lv@.len() == lines(src@).len(),
            forall|k: int| 0 <= k < lv@.len() ==> #[trigger] lv@[k]@ == lines(src@)[k],
            forall|k: int| 0 <= k < lv@.len() ==> (#[trigger] lv@[k])@.len() < usize::MAX,
            applicable@.map_values(|f: &FixAction| *f) == candidates(all_fixes(ps.take(i as int)), src@),
            skipped + applicable@.len() == all_fixes(ps.take(i as int)).len(),
            all_fixes(ps.take(i as int)).len() <= all_fixes(ps).len(),
        decreases ps.len() - i,
    {
        let p = &plan.plans[i];
        let ghost pre = all_fixes(ps.take(i as int));
        proof {
            assert(ps.take(i + 1).drop_last() == ps.take(i as int));
            lemma_all_fixes_prefix(ps, i + 1);
        }
        let mut j: usize = 0;
        while j < p.fixes.len()
            invariant
                ps == plan.plans@,
                i < ps.len(),
                p == ps[i as int],
                j <= p.fixes@.len(),
                pre == all_fixes(ps.take(i as int)),
                all_fixes(ps.take(i + 1)) == pre + p.fixes@,
                all_fixes(ps.take(i + 1)).len() <= all_fixes(ps).len(),
                all_fixes(ps).len() <= usize::MAX,
                lv@.len() == lines(src@).len(),
                forall|k: int| 0 <= k < lv@.len() ==> #[trigger] lv@[k]@ == lines(src@)[k],
                forall|k: int| 0 <= k < lv@.len() ==> (#[trigger] lv@[k])@.len() < usize::MAX,
                applicable@.map_values(|f: &FixAction| *f) == candidates(pre + p.fixes@.take(j as int), src@),
                skipped + applicable@.len() == (pre + p.fixes@.take(j as int)).len(),
            decreases p.fixes@.len() - j,
        {
            let f = &p.fixes[j];
            assert((pre + p.fixes@.take(j + 1)).drop_last() == pre + p.fixes@.take(j as int));
            assert((pre + p.fixes@.take(j + 1)).last() == *f);
            assert((pre + p.fixes@.take(j + 1)).len() <= (pre + p.fixes@).len());
            let ghost before = applicable@.map_values(|f: &FixAction| *f);
            if f.action != ActionKind::Hint && f.confidence == Confidence::High {
                if is_valid_position(f, &lv, Ghost(src@)) {
                    if position_taken(&applicable, f) {
                        skipped += 1;
                        assert(before + Seq::<FixAction>::empty() =~= before);
                    } else {
                        applicable.push(f);
                        assert(applicable@.map_values(|f: &FixAction| *f) =~= before + seq![*f]);
                    }
                } else {
                    skipped += 1;
                    assert(before + Seq::<FixAction>::empty() =~= before);
                }
            } else {
                skipped += 1;
                assert(before + Seq::<FixAction>::empty() =~= before);
            }
            j += 1;
        }
        assert(p.fixes@.take(p.fixes@.len() as int) == p.fixes@);
        i += 1;
    }
    assert(ps.take(ps.len() as int) == ps);
    let ghost cands = candidates(all_fixes(ps), src@);
    if applicable.len() == 0 {
        return ApplyResult {
            applied: 0,
            skipped,
            changes: Vec::new(),
            patched_source: owned(source),
        };
    }
    let order = sort_by_position_desc(&applicable);
    let ghost orderv = order@.map_values(|f: &FixAction| *f);
    assert(orderv == apply_order(*plan, src@));
    proof { lemma_sort_desc_len(cands); }
    let ghost fin = apply_all(orderv, src@).0;
    let ghost app = apply_all(orderv, src@).1;
    let mut patched: Vec<char> = crate::text::to_vec(&src);
    let mut changes: Vec<AppliedChange> = Vec::new();
    let ghost mut done: Seq<FixAction> = Seq::empty();
    let mut k: usize = 0;
    assert(orderv.skip(0) == orderv);
    while k < order.len()
        invariant
            k <= orderv.len(),
            orderv == order@.map_values(|f: &FixAction| *f),
            orderv.len() == cands.len(),
            apply_all(orderv.skip(k as int), patched@).0 == fin,
            done + apply_all(orderv.skip(k as int), patched@).1 == app,
            changes@ == sort_asc(done.map_values(|f: FixAction| change_of(f))),
            done.len() <= k,
            all_fixes(ps).len() <= usize::MAX,
            skipped + cands.len() - k + done.len() == all_fixes(ps).len(),
        decreases orderv.len() - k,
    {
        let f = order[k];
        let ghost rest = orderv.skip(k as int);
        assert(rest[0] == *f);
        assert(rest.drop_first() == orderv.skip(k + 1));
        match apply_one(f, &patched) {
            Some(v) => {
                proof {
                    let tail = apply_all(orderv.skip(k + 1), v@).1;
                    assert(done + (seq![*f] + tail) == done.push(*f) + tail);
                    let cm = done.map_values(|f: FixAction| change_of(f));
                    assert(done.push(*f).map_values(|f: FixAction| change_of(f)) =~= cm.push(change_of(*f)));
                    assert(cm.push(change_of(*f)).drop_last() == cm);
                }
                patched = v;
                let c = AppliedChange {
                    line: f.line,
                    col: f.col,
                    action: f.action,
                    description: f.description.clone(),
                };
                assert(c == change_of(*f));
                insert_change_sorted(&mut changes, c);
                proof { done = done.push(*f); }
            }
            None => {
                skipped += 1;
            }
        }
        k += 1;
    }
    proof {
        assert(orderv.skip(k as int).len() == 0);
        assert(done + Seq::<FixAction>::empty() =~= done);
    }
    let applied = changes.len();
    proof { lemma_sort_asc_len(done.map_values(|f: FixAction| change_of(f))); }
    ApplyResult {
        applied,
        skipped,
        changes,
        patched_source: string_of(&patched),
    }
}

proof fn lemma_all_fixes_prefix(ps: Seq<Plan>, i: int)
    requires
        0 <= i <= ps.len(),
    ensures
        all_fixes(ps.take(i)).len() <= all_fixes(ps).len(),
    decreases ps.len() - i,
{
    if i < ps.len() {
        lemma_all_fixes_prefix(ps, i + 1);
        assert(ps.take(i + 1).drop_last() == ps.take(i));
    } else {
        assert(ps.take(i) == ps);
    }
}

// ===== rendering =====

/// Name of an action kind.
pub fn action_str(a: ActionKind) -> (r: &'static str)
    ensures
        r@ == a.name(),
{
    a.as_str()
}

/// A JSON string literal: quotes around the escaped text.
pub open spec fn json_quoted(s: Seq<char>) -> Seq<char> {
    "\""@ + escape_json(s) + "\""@
}

fn json_str(s: &str) -> (r: Vec<char>)
    ensures
        r@ == json_quoted(s@),
{
    let mut out = chars_of("\"");
    let c = chars_of(s);
    push_json_escaped(&mut out, &c);
    push_lit(&mut out, "\"");
    out
}

/// JSON object of one applied change.
pub open spec fn change_json(c: AppliedChange) -> Seq<char> {
    "    {\n"@
        + "      \"line\": "@ + dec(c.line as nat) + ",\n"@
        + "      \"col\": "@ + dec(c.col as nat) + ",\n"@
        + "      \"action\": \""@ + c.action.name() + "\",\n"@
        + "      \"description\": "@ + json_quoted(c.description@) + "\n"@
        + "    }"@
}

/// The `lom-apply/v1` JSON document of an apply result.
pub open spec fn result_json(r: ApplyResult, file: Seq<char>) -> Seq<char> {
    let cs = r.changes@;
    "{\n"@
        + "  \"schema\": \"lom-apply/v1\",\n"@
        + "  \"file\": "@ + json_quoted(file) + ",\n"@
        + "  \"applied\": "@ + dec(r.applied as nat) + ",\n"@
        + "  \"skipped\": "@ + dec(r.skipped as nat) + ",\n"@
        + "  \"changes\": ["@
        + (if cs.len() == 0 {
            "],\n"@
        } else {
            "\n"@ + sep_list(cs, cs.len() as int, |c: AppliedChange| change_json(c), ","@, "\n"@) + "  ],\n"@
        })
        + "  \"ok\": "@ + bool_text(r.applied > 0) + "\n"@
        + "}\n"@
}

fn render_change_json(c: &AppliedChange) -> (r: Vec<char>)
    ensures
        r@ == change_json(*c),
{
    let mut out = chars_of("    {\n");
    push_lit(&mut out, "      \"line\": ");
    push_usize(&mut out, c.line);
    push_lit(&mut out, ",\n");
    push_lit(&mut out, "      \"col\": ");
    push_usize(&mut out, c.col);
    push_lit(&mut out, ",\n");
    push_lit(&mut out, "      \"action\": \"");
    push_lit(&mut out, action_str(c.action));
    push_lit(&mut out, "\",\n");
    push_lit(&mut out, "      \"description\": ");
    let d = json_str(c.description.as_str());
    push_chars(&mut out, &d);
    push_lit(&mut out, "\n");
    push_lit(&mut out, "    }");
    out
}

/// The `lom-apply/v1` JSON document of an apply result.
pub fn to_json(result: &ApplyResult, file: &str) -> (r: String)
    ensures
        r@ == result_json(*result, file@),
{
    let mut out = chars_of("{\n");
    push_lit(&mut out, "  \"schema\": \"lom-apply/v1\",\n");
    push_lit(&mut out, "  \"file\": ");
    let f = json_str(file);
    push_chars(&mut out, &f);
    push_lit(&mut out, ",\n");
    push_lit(&mut out, "  \"applied\": ");
    push_usize(&mut out, result.applied);
    push_lit(&mut out, ",\n");
    push_lit(&mut out, "  \"skipped\": ");
    push_usize(&mut out, result.skipped);
    push_lit(&mut out, ",\n");
    push_lit(&mut out, "  \"changes\": [");
    let n = result.changes.len();
    let part: Vec<char> = if n == 0 {
        chars_of("],\n")
    } else {
        let mut part = chars_of("\n");
        let mut list: Vec<char> = Vec::new();
        let ghost f = |c: AppliedChange| change_json(c);
        let mut i: usize = 0;
        while i < n
            invariant
                n == result.changes@.len(),
                i <= n,
                f == (|c: AppliedChange| change_json(c)),
                list@ == sep_list(result.changes@.take(i as int), n as int, f, ","@, "\n"@),
            decreases n - i,
        {
            proof { lemma_sep_list_step(result.changes@, i as int, n as int, f, ","@, "\n"@); }
            let item = render_change_json(&result.changes[i]);
            assert(f(result.changes@[i as int]) == change_json(result.changes@[i as int]));
            push_chars(&mut list, &item);
            if i + 1 < n {
                push_lit(&mut list, ",");
            } else {
                assert(list@ + Seq::<char>::empty() =~= list@);
            }
            push_lit(&mut list, "\n");
            i += 1;
        }
        assert(result.changes@.take(n as int) == result.changes@);
        push_chars(&mut part, &list);
        push_lit(&mut part, "  ],\n");
        part
    };
    push_chars(&mut out, &part);
    push_lit(&mut out, "  \"ok\": ");
    push_bool(&mut out, result.applied > 0);
    push_lit(&mut out, "\n");
    push_lit(&mut out, "}\n");
    string_of(&out)
}

/// Human-readable line of one applied change.
pub open spec fn change_human(c: AppliedChange) -> Seq<char> {
    "    ["@ + dec(c.line as nat) + ":"@ + dec(c.col as nat) + "] "@ + c.action.name() + " — "@ + c.description@ + "\n"@
}

/// Human-readable rendering of an apply result.
pub open spec fn result_human(r: ApplyResult, file: Seq<char>) -> Seq<char> {
    "lom apply: "@ + file + "\n"@
        + "  applied: "@ + dec(r.applied as nat) + "\n"@
        + "  skipped: "@ + dec(r.skipped as nat) + "\n"@
        + (if r.changes@.len() == 0 {
            Seq::empty()
        } else {
            "  changes:\n"@ + sep_list(r.changes@, 0, |c: AppliedChange| change_human(c), Seq::empty(), Seq::empty())
        })
}

/// Human-readable rendering of an apply result.
pub fn to_human(result: &ApplyResult, file: &str) -> (r: String)
    ensures
        r@ == result_human(*result, file@),
{
    let mut out = chars_of("lom apply: ");
    push_lit(&mut out, file);
    push_lit(&mut out, "\n");
    push_lit(&mut out, "  applied: ");
    push_usize(&mut out, result.applied);
    push_lit(&mut out, "\n");
    push_lit(&mut out, "  skipped: ");
    push_usize(&mut out, result.skipped);
    push_lit(&mut out, "\n");
    let n = result.changes.len();
    let part: Vec<char> = if n == 0 {
        Vec::new()
    } else {
        let mut part = chars_of("  changes:\n");
        let mut list: Vec<char> = Vec::new();
        let ghost f = |c: AppliedChange| change_human(c);
        let mut i: usize = 0;
        while i < n
            invariant
                n == result.changes@.len(),
                i <= n,
                f == (|c: AppliedChange| change_human(c)),
                list@ == sep_list(result.changes@.take(i as int), 0, f, Seq::empty(), Seq::empty()),
            decreases n - i,
        {
            proof { lemma_sep_list_step(result.changes@, i as int, 0, f, Seq::empty(), Seq::empty()); }
            let c = &result.changes[i];
            let mut item = chars_of("    [");
            push_usize(&mut item, c.line);
            push_lit(&mut item, ":");
            push_usize(&mut item, c.col);
            push_lit(&mut item, "] ");
            push_lit(&mut item, action_str(c.action));
            push_lit(&mut item, " — ");
            push_lit(&mut item, c.description.as_str());
            push_lit(&mut item, "\n");
            assert(f(result.changes@[i as int]) == change_human(result.changes@[i as int]));
            push_chars(&mut list, &item);
            assert(list@ + Seq::<char>::empty() + Seq::<char>::empty() =~= list@);
            i += 1;
        }
        assert(result.changes@.take(n as int) == result.changes@);
        push_chars(&mut part, &list);
        part
    };
    push_chars(&mut out, &part);
    string_of(&out)
}


// ===== laws =====

proof fn lemma_apply_all_members(fs: Seq<FixAction>, s: Seq<char>)
    ensures
        forall|k: int| 0 <= k < apply_all(fs, s).1.len() ==> fs.contains(#[trigger] apply_all(fs, s).1[k]),
    decreases fs.len(),
{
    if fs.len() > 0 {
        lemma_apply_all_members(fs.drop_first(), s);
        match apply_one_spec(fs[0], s) {
            Some(s2) => {
                lemma_apply_all_members(fs.drop_first(), s2);
                let a = apply_all(fs.drop_first(), s2).1;
                assert forall|k: int| 0 <= k < apply_all(fs, s).1.len() implies fs.contains(
                    #[trigger] apply_all(fs, s).1[k],
                ) by {
                    if k == 0 {
                        assert(fs[0] == apply_all(fs, s).1[0]);
                    } else {
                        assert(apply_all(fs, s).1[k] == a[k - 1]);
                        assert(fs.drop_first().contains(a[k - 1]));
                        let j = choose|j: int| 0 <= j < fs.drop_first().len() && fs.drop_first()[j] == a[k - 1];
                        assert(fs[j + 1] == a[k - 1]);
                    }
                }
            },
            None => {
                let a = apply_all(fs.drop_first(), s).1;
                assert forall|k: int| 0 <= k < a.len() implies fs.contains(#[trigger] a[k]) by {
                    assert(fs.drop_first().contains(a[k]));
                    let j = choose|j: int| 0 <= j < fs.drop_first().len() && fs.drop_first()[j] == a[k];
                    assert(fs[j + 1] == a[k]);
                }
            },
        }
    }
}

proof fn lemma_apply_all_none(fs: Seq<FixAction>, s: Seq<char>)
    requires
        apply_all(fs, s).1.len() == 0,
    ensures
        apply_all(fs, s).0 == s,
    decreases fs.len(),
{
    if fs.len() > 0 {
        match apply_one_spec(fs[0], s) {
            Some(s2) => {},
            None => {
                lemma_apply_all_none(fs.drop_first(), s);
            },
        }
    }
}

proof fn lemma_sort_desc_members(xs: Seq<FixAction>)
    ensures
        forall|k: int| 0 <= k < sort_desc(xs).len() ==> xs.contains(#[trigger] sort_desc(xs)[k]),
    decreases xs.len(),
{
    if xs.len() > 0 {
        let r = sort_desc(xs.drop_last());
        lemma_sort_desc_members(xs.drop_last());
        lemma_sort_desc_len(xs.drop_last());
        let i = first_before(r, xs.last(), 0);
        lemma_first_before_bounds(r, xs.last(), 0);
        assert forall|k: int| 0 <= k < sort_desc(xs).len() implies xs.contains(#[trigger] sort_desc(xs)[k]) by {
            let y = sort_desc(xs)[k];
            if k == i {
                assert(y == xs[xs.len() - 1]);
            } else {
                let m = if k < i { k } else { k - 1 };
                assert(y == r[m]);
                assert(xs.drop_last().contains(y));
                let j = choose|j: int| 0 <= j < xs.drop_last().len() && xs.drop_last()[j] == y;
                assert(xs[j] == y);
            }
        }
    }
}

proof fn lemma_sort_asc_members(xs: Seq<AppliedChange>)
    ensures
        forall|k: int| 0 <= k < sort_asc(xs).len() ==> xs.contains(#[trigger] sort_asc(xs)[k]),
    decreases xs.len(),
{
    if xs.len() > 0 {
        let r = sort_asc(xs.drop_last());
        lemma_sort_asc_members(xs.drop_last());
        lemma_sort_asc_len(xs.drop_last());
        let i = first_after(r, xs.last(), 0);
        lemma_first_after_bounds(r, xs.last(), 0);
        assert forall|k: int| 0 <= k < sort_asc(xs).len() implies xs.contains(#[trigger] sort_asc(xs)[k]) by {
            let y = sort_asc(xs)[k];
            if k == i {
                assert(y == xs[xs.len() - 1]);
            } else {
                let m = if k < i { k } else { k - 1 };
                assert(y == r[m]);
                assert(xs.drop_last().contains(y));
                let j = choose|j: int| 0 <= j < xs.drop_last().len() && xs.drop_last()[j] == y;
                assert(xs[j] == y);
            }
        }
    }
}

proof fn lemma_candidates_members(fs: Seq<FixAction>, src: Seq<char>)
    ensures
        forall|k: int| 0 <= k < candidates(fs, src).len() ==> fs.contains(#[trigger] candidates(fs, src)[k])
            && auto_applicable(candidates(fs, src)[k]),
    decreases fs.len(),
{
    if fs.len() > 0 {
        lemma_candidates_members(fs.drop_last(), src);
        let c = candidates(fs.drop_last(), src);
        assert forall|k: int| 0 <= k < candidates(fs, src).len() implies fs.contains(
            #[trigger] candidates(fs, src)[k],
        ) && auto_applicable(candidates(fs, src)[k]) by {
            if k < c.len() {
                assert(candidates(fs, src)[k] == c[k]);
                assert(fs.drop_last().contains(c[k]));
                let j = choose|j: int| 0 <= j < fs.drop_last().len() && fs.drop_last()[j] == c[k];
                assert(fs[j] == c[k]);
            } else {
                assert(candidates(fs, src)[k] == fs[fs.len() - 1]);
            }
        }
    }
}

proof fn lemma_first_after_prefix(r: Seq<AppliedChange>, x: AppliedChange, i: int)
    requires
        0 <= i <= r.len(),
    ensures
        forall|m: int| i <= m < first_after(r, x, i) ==> !change_after(#[trigger] r[m], x),
        first_after(r, x, i) < r.len() ==> change_after(r[first_after(r, x, i)], x),
    decreases r.len() - i,
{
    if i < r.len() && !change_after(r[i], x) {
        lemma_first_after_prefix(r, x, i + 1);
    }
}

pub open spec fn ascending(cs: Seq<AppliedChange>) -> bool {
    forall|i: int, j: int| 0 <= i < j < cs.len() ==> !change_after(#[trigger] cs[i], #[trigger] cs[j])
}

proof fn lemma_sort_asc_sorted(xs: Seq<AppliedChange>)
    ensures
        ascending(sort_asc(xs)),
    decreases xs.len(),
{
    if xs.len() > 0 {
        let r = sort_asc(xs.drop_last());
        let x = xs.last();
        lemma_sort_asc_sorted(xs.drop_last());
        lemma_sort_asc_len(xs.drop_last());
        let k = first_after(r, x, 0);
        lemma_first_after_bounds(r, x, 0);
        lemma_first_after_prefix(r, x, 0);
        let out = r.insert(k, x);
        assert forall|i: int, j: int| 0 <= i < j < out.len() implies !change_after(#[trigger] out[i], #[trigger] out[j]) by {
            if i < k && j < k {
                assert(out[i] == r[i] && out[j] == r[j]);
            } else if i < k && j == k {
                assert(out[i] == r[i] && out[j] == x);
            } else if i < k && j > k {
                assert(out[i] == r[i] && out[j] == r[j - 1]);
            } else if i == k {
                assert(out[i] == x && out[j] == r[j - 1]);
                assert(change_after(r[k], x));
                if j - 1 > k {
                    assert(!change_after(r[k], r[j - 1]));
                }
            } else {
                assert(out[i] == r[i - 1] && out[j] == r[j - 1]);
            }
        }
    }
}

/// Every fix of the plan is either applied or counted as skipped, and each
/// applied fix is reported as one change.
pub proof fn lemma_every_fix_accounted(plan: FixPlan, src: Seq<char>, r: ApplyResult)
    requires
        apply_outcome(plan, src, r),
    ensures
        r.applied + r.skipped == all_fixes(plan.plans@).len(),
        r.changes@.len() == r.applied,
{
    let cands = candidates(all_fixes(plan.plans@), src);
    lemma_candidates_len(all_fixes(plan.plans@), src);
    lemma_sort_desc_len(cands);
    lemma_apply_all_len(apply_order(plan, src), src);
    let applied = apply_all(apply_order(plan, src), src).1;
    lemma_sort_asc_len(applied.map_values(|f: FixAction| change_of(f)));
}

/// When no fix applies, the source comes back unchanged.
pub proof fn lemma_nothing_applied_keeps_source(plan: FixPlan, src: Seq<char>, r: ApplyResult)
    requires
        apply_outcome(plan, src, r),
        r.applied == 0,
    ensures
        r.patched_source@ == src,
{
    lemma_apply_all_none(apply_order(plan, src), src);
}

/// Whether a change is that of a fix among `fs` that is high-confidence and
/// not a hint.
pub open spec fn from_safe_fix(fs: Seq<FixAction>, c: AppliedChange) -> bool {
    exists|f: FixAction| fs.contains(f) && auto_applicable(f) && c == #[trigger] change_of(f)
}

/// Only fixes of the plan that are high-confidence and not hints are applied:
/// each reported change is such a fix's position, action and description.
pub proof fn lemma_only_safe_fixes_applied(plan: FixPlan, src: Seq<char>, r: ApplyResult)
    requires
        apply_outcome(plan, src, r),
    ensures
        forall|i: int| 0 <= i < r.changes@.len() ==> from_safe_fix(all_fixes(plan.plans@), #[trigger] r.changes@[i]),
{
    let fs = all_fixes(plan.plans@);
    let cands = candidates(fs, src);
    let order = apply_order(plan, src);
    let applied = apply_all(order, src).1;
    let mapped = applied.map_values(|f: FixAction| change_of(f));
    lemma_candidates_members(fs, src);
    lemma_sort_desc_members(cands);
    lemma_apply_all_members(order, src);
    lemma_sort_asc_members(mapped);
    assert forall|i: int| 0 <= i < r.changes@.len() implies from_safe_fix(fs, #[trigger] r.changes@[i]) by {
        let c = r.changes@[i];
        assert(mapped.contains(c));
        let j = choose|j: int| 0 <= j < mapped.len() && mapped[j] == c;
        let f = applied[j];
        assert(order.contains(f));
        let a = choose|a: int| 0 <= a < order.len() && order[a] == f;
        assert(cands.contains(f));
        let b = choose|b: int| 0 <= b < cands.len() && cands[b] == f;
        assert(fs.contains(f) && auto_applicable(f));
    }
}

/// No two actions selected for applying share a position.
pub proof fn lemma_one_action_per_position(fs: Seq<FixAction>, src: Seq<char>)
    ensures
        forall|i: int, j: int|
            0 <= i < j < candidates(fs, src).len() ==> !((#[trigger] candidates(fs, src)[i]).line
                == (#[trigger] candidates(fs, src)[j]).line && candidates(fs, src)[i].col
                == candidates(fs, src)[j].col),
    decreases fs.len(),
{
    if fs.len() > 0 {
        lemma_one_action_per_position(fs.drop_last(), src);
        let c0 = candidates(fs.drop_last(), src);
        let c = candidates(fs, src);
        if auto_applicable(fs.last()) && valid_position(fs.last(), src) && !pos_taken(c0, fs.last()) {
            assert(c == c0 + seq![fs.last()]);
            assert forall|i: int, j: int| 0 <= i < j < c.len() implies !((#[trigger] c[i]).line == (#[trigger] c[j]).line
                && c[i].col == c[j].col) by {
                assert(c[i] == c0[i]);
                if j < c0.len() {
                    assert(c[j] == c0[j]);
                } else {
                    assert(c[j] == fs.last());
                }
            }
        } else {
            assert(c =~= c0);
        }
    }
}

/// The changes are reported by ascending position (line, then column).
pub proof fn lemma_changes_ascending(plan: FixPlan, src: Seq<char>, r: ApplyResult)
    requires
        apply_outcome(plan, src, r),
    ensures
        ascending(r.changes@),
{
    let applied = apply_all(apply_order(plan, src), src).1;
    lemma_sort_asc_sorted(applied.map_values(|f: FixAction| change_of(f)));
}

} // verus!

verus! {

proof fn lemma_char_offset_bounds(s: Seq<char>, line: usize, col: usize)
    ensures
        char_offset(s, line, col) matches Ok(a) ==> 0 <= a <= s.len(),
{
    if line != 0 && col != 0 {
        lemma_line_start_bounds(s, line as int);
        if let Some(p) = line_start(s, line as int) {
            lemma_find_nl(s, p);
        }
    }
}

proof fn lemma_newlines_step(s: Seq<char>, b: int)
    requires
        0 < b <= s.len(),
    ensures
        count_newlines(s.take(b)) == count_newlines(s.take(b - 1)) + if s[b - 1] == '\n' { 1nat } else { 0nat },
{
    assert(s.take(b).drop_last() =~= s.take(b - 1));
}

proof fn lemma_newlines_flat(s: Seq<char>, a: int, b: int)
    requires
        0 <= a <= b <= s.len(),
        forall|k: int| a <= k < b ==> s[k] != '\n',
    ensures
        count_newlines(s.take(b)) == count_newlines(s.take(a)),
    decreases b - a,
{
    if b > a {
        lemma_newlines_step(s, b);
        lemma_newlines_flat(s, a, b - 1);
    }
}

proof fn lemma_line_start_place(s: Seq<char>, line: int)
    requires
        line >= 1,
    ensures
        line_start(s, line) matches Some(p) ==> 0 <= p <= s.len() && count_newlines(s.take(p)) == line - 1 && (p == 0
            || s[p - 1] == '\n'),
    decreases line,
{
    if line > 1 {
        lemma_line_start_place(s, line - 1);
        if let Some(p) = line_start(s, line - 1) {
            lemma_find_nl(s, p);
            if let Some(q) = find_char_from(s, '\n', p) {
                lemma_newlines_flat(s, p, q);
                lemma_newlines_step(s, q + 1);
            }
        }
    } else {
        assert(s.take(0) =~= Seq::<char>::empty());
    }
}

/// A position resolves to the character offset of its place: the offset of
/// `(line, col)` has `line - 1` line feeds before it, and the `col - 1`
/// characters before it are the start of its line (no line feed among them,
/// and the text start or a line feed right before them).
pub proof fn lemma_offset_is_place(s: Seq<char>, line: usize, col: usize)
    requires
        char_offset(s, line, col) is Ok,
    ensures
        ({
            let a = char_offset(s, line, col)->Ok_0;
            &&& 0 <= a <= s.len()
            &&& line >= 1 && col >= 1
            &&& count_newlines(s.take(a)) == line - 1
            &&& a - (col - 1) >= 0
            &&& forall|k: int| a - (col - 1) <= k < a ==> s[k] != '\n'
            &&& (a - (col - 1) == 0 || s[a - col] == '\n')
        }),
{
    lemma_line_start_place(s, line as int);
    let p = line_start(s, line as int)->0;
    lemma_find_nl(s, p);
    let a = p + (col - 1);
    lemma_newlines_flat(s, p, a);
}

/// Replacing removes the range and puts the text in its place: when a replace
/// action's start and end resolve to character offsets `a <= b`, the result is
/// the source before `a`, then the action's text, then the source from `b` on,
/// so its length is that of the source less `b - a` plus that of the text.
pub proof fn lemma_replace_removes_range(f: FixAction, s: Seq<char>, a: int, b: int)
    requires
        f.action == ActionKind::Replace,
        char_offset(s, f.line, f.col) == Ok::<int, Seq<char>>(a),
        f.end_line is Some && f.end_col is Some,
        char_offset(s, f.end_line->0, f.end_col->0) == Ok::<int, Seq<char>>(b),
        a <= b,
    ensures
        apply_one_spec(f, s) matches Some(r) && {
            let t = text_or_empty(f);
            &&& r == s.subrange(0, a) + t + s.subrange(b, s.len() as int)
            &&& r.len() == s.len() - (b - a) + t.len()
            &&& r.subrange(0, a) == s.subrange(0, a)
            &&& r.subrange(a, a + t.len()) == t
            &&& r.subrange(a + t.len(), r.len() as int) == s.subrange(b, s.len() as int)
        },
{
    lemma_char_offset_bounds(s, f.line, f.col);
    lemma_char_offset_bounds(s, f.end_line->0, f.end_col->0);
    let t = text_or_empty(f);
    let r = s.take(a) + t + s.skip(b);
    assert(apply_one_spec(f, s) == Some(r));
    assert(r =~= s.subrange(0, a) + t + s.subrange(b, s.len() as int));
    assert(r.subrange(0, a) =~= s.subrange(0, a));
    assert(r.subrange(a, a + t.len()) =~= t);
    assert(r.subrange(a + t.len(), r.len() as int) =~= s.subrange(b, s.len() as int));
}

/// Deleting removes exactly the range: when a delete action's start and end
/// resolve to character offsets `a <= b`, the result is the source before `a`
/// followed by the source from `b` on, `b - a` characters shorter.
pub proof fn lemma_delete_removes_range(f: FixAction, s: Seq<char>, a: int, b: int)
    requires
        f.action == ActionKind::Delete,
        char_offset(s, f.line, f.col) == Ok::<int, Seq<char>>(a),
        f.end_line is Some && f.end_col is Some,
        char_offset(s, f.end_line->0, f.end_col->0) == Ok::<int, Seq<char>>(b),
        a <= b,
    ensures
        apply_one_spec(f, s) matches Some(r) && {
            &&& r == s.subrange(0, a) + s.subrange(b, s.len() as int)
            &&& r.len() == s.len() - (b - a)
        },
{
    lemma_char_offset_bounds(s, f.line, f.col);
    lemma_char_offset_bounds(s, f.end_line->0, f.end_col->0);
    let r = s.take(a) + s.skip(b);
    assert(apply_one_spec(f, s) == Some(r));
    assert(r =~= s.subrange(0, a) + s.subrange(b, s.len() as int));
}

/// Inserting removes nothing: when an insert action's position resolves to
/// character offset `a`, the result is the source with the action's text put
/// in at `a`, and everything before and after `a` kept.
pub proof fn lemma_insert_keeps_source(f: FixAction, s: Seq<char>, a: int)
    requires
        f.action == ActionKind::Insert,
        char_offset(s, f.line, f.col) == Ok::<int, Seq<char>>(a),
    ensures
        apply_one_spec(f, s) matches Some(r) && {
            let t = text_or_empty(f);
            &&& r == s.subrange(0, a) + t + s.subrange(a, s.len() as int)
            &&& r.len() == s.len() + t.len()
            &&& r.subrange(0, a) == s.subrange(0, a)
            &&& r.subrange(a, a + t.len()) == t
            &&& r.subrange(a + t.len(), r.len() as int) == s.subrange(a, s.len() as int)
        },
{
    lemma_char_offset_bounds(s, f.line, f.col);
    let t = text_or_empty(f);
    let r = s.take(a) + t + s.skip(a);
    assert(apply_one_spec(f, s) == Some(r));
    assert(r =~= s.subrange(0, a) + t + s.subrange(a, s.len() as int));
    assert(r.subrange(0, a) =~= s.subrange(0, a));
    assert(r.subrange(a, a + t.len()) =~= t);
    assert(r.subrange(a + t.len(), r.len() as int) =~= s.subrange(a, s.len() as int));
}

/// A plan whose one fix is a high-confidence replace at a valid position
/// applies it: the patched source is the source with the range `[a, b)` that
/// the fix's start and end resolve to cut out and the fix's text put in its
/// place.
pub proof fn lemma_single_replace_patches(plan: FixPlan, src: Seq<char>, r: ApplyResult, a: int, b: int)
    requires
        apply_outcome(plan, src, r),
        plan.plans@.len() == 1,
        plan.plans@[0].fixes@.len() == 1,
        plan.plans@[0].fixes@[0].action == ActionKind::Replace,
        plan.plans@[0].fixes@[0].confidence == Confidence::High,
        valid_position(plan.plans@[0].fixes@[0], src),
        char_offset(src, plan.plans@[0].fixes@[0].line, plan.plans@[0].fixes@[0].col) == Ok::<int, Seq<char>>(a),
        plan.plans@[0].fixes@[0].end_line is Some && plan.plans@[0].fixes@[0].end_col is Some,
        char_offset(src, plan.plans@[0].fixes@[0].end_line->0, plan.plans@[0].fixes@[0].end_col->0)
            == Ok::<int, Seq<char>>(b),
        a <= b,
    ensures
        r.applied == 1,
        r.skipped == 0,
        r.patched_source@ == src.subrange(0, a) + text_or_empty(plan.plans@[0].fixes@[0]) + src.subrange(
            b,
            src.len() as int,
        ),
{
    let f = plan.plans@[0].fixes@[0];
    let ps = plan.plans@;
    assert(ps.drop_last() =~= Seq::<Plan>::empty());
    assert(all_fixes(Seq::<Plan>::empty()) == Seq::<FixAction>::empty());
    assert(ps.last().fixes@ =~= seq![f]);
    assert(all_fixes(ps) =~= seq![f]);
    let fs = seq![f];
    assert(fs.drop_last() =~= Seq::<FixAction>::empty());
    assert(!pos_taken(Seq::<FixAction>::empty(), f));
    assert(candidates(Seq::<FixAction>::empty(), src) == Seq::<FixAction>::empty());
    assert(fs.last() == f);
    assert(candidates(fs, src) =~= seq![f]);
    assert(seq![f].drop_last() =~= Seq::<FixAction>::empty());
    assert(first_before(Seq::<FixAction>::empty(), f, 0) == 0);
    assert(Seq::<FixAction>::empty().insert(0, f) =~= seq![f]);
    assert(sort_desc(Seq::<FixAction>::empty()) == Seq::<FixAction>::empty());
    assert(seq![f].last() == f);
    assert(sort_desc(seq![f]) =~= seq![f]);
    lemma_replace_removes_range(f, src, a, b);
    let p = apply_one_spec(f, src)->0;
    assert(seq![f].drop_first() =~= Seq::<FixAction>::empty());
    assert(apply_all(Seq::<FixAction>::empty(), p) == (p, Seq::<FixAction>::empty()));
    assert(seq![f][0] == f);
    assert(apply_all(seq![f], src) == (p, seq![f] + Seq::<FixAction>::empty()));
}

} // verus!

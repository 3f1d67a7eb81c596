//! Pieces of the interactive loop that need no interpreter: whether an input
//! is complete enough to run, the session's accumulated source and its `:`
//! commands, the help text and the result record.
use vstd::prelude::*;
use crate::text::{
    chars_eq_lit, chars_of, find_char, find_char_from, is_blank, owned, lines, lines_of, push_lit, slice_chars, starts_with, string_of,
    trim, trim_start, trim_start_chars,
};

verus! {

/// What one input line produced: whether to keep going, and what to print.
pub struct ReplResult {
    pub should_continue: bool,
    pub output: String,
}

/// Scanner state for the completeness check.
pub struct ScanState {
    pub paren: int,
    pub brace: int,
    pub bracket: int,
    pub in_string: bool,
    pub block: int,
    pub at_line_start: bool,
}

pub open spec fn is_word_char(c: char) -> bool {
    ('a' <= c <= 'z') || ('A' <= c <= 'Z') || ('0' <= c <= '9') || c == '_'
}

/// End of the run of word characters from `i`.
pub open spec fn word_end(cs: Seq<char>, i: int) -> int
    decreases cs.len() - i,
{
    if 0 <= i < cs.len() && is_word_char(cs[i]) { word_end(cs, i + 1) } else { i }
}

/// The word (ASCII letters, digits, `_`) that starts at `i`.
pub open spec fn word_at(cs: Seq<char>, i: int) -> Seq<char> {
    cs.subrange(i, word_end(cs, i))
}

/// First `\n` at or after `i`, or the end.
pub open spec fn line_end_from(cs: Seq<char>, i: int) -> int
    decreases cs.len() - i,
{
    if i < 0 || i >= cs.len() || cs[i] == '\n' { i } else { line_end_from(cs, i + 1) }
}

pub open spec fn opens_block(w: Seq<char>) -> bool {
    w == "fn"@ || w == "if"@ || w == "while"@ || w == "for"@ || w == "match"@
}

/// One step of the scan at `i`: the next position and state. Inside a string a
/// backslash skips the next character; `#` skips to the end of the line; a
/// block keyword counts only as the first word on a line.
pub open spec fn scan_step(cs: Seq<char>, i: int, st: ScanState) -> (int, ScanState) {
    let c = cs[i];
    if st.in_string {
        if c == '\\' {
            (i + 2, st)
        } else if c == '"' {
            (i + 1, ScanState { in_string: false, at_line_start: false, ..st })
        } else {
            (i + 1, ScanState { at_line_start: false, ..st })
        }
    } else if c == '"' {
        (i + 1, ScanState { in_string: true, at_line_start: false, ..st })
    } else if c == '#' {
        (line_end_from(cs, i), st)
    } else if c == '\n' {
        (i + 1, ScanState { at_line_start: true, ..st })
    } else if c == ' ' || c == '\t' || c == '\r' {
        (i + 1, st)
    } else if c == '(' {
        (i + 1, ScanState { paren: st.paren + 1, at_line_start: false, ..st })
    } else if c == ')' {
        (i + 1, ScanState { paren: st.paren - 1, at_line_start: false, ..st })
    } else if c == '{' {
        (i + 1, ScanState { brace: st.brace + 1, at_line_start: false, ..st })
    } else if c == '}' {
        (i + 1, ScanState { brace: st.brace - 1, at_line_start: false, ..st })
    } else if c == '[' {
        (i + 1, ScanState { bracket: st.bracket + 1, at_line_start: false, ..st })
    } else if c == ']' {
        (i + 1, ScanState { bracket: st.bracket - 1, at_line_start: false, ..st })
    } else if st.at_line_start && opens_block(word_at(cs, i)) {
        (word_end(cs, i), ScanState { block: st.block + 1, at_line_start: false, ..st })
    } else if st.at_line_start && word_at(cs, i) == "end"@ {
        (i + 3, ScanState { block: st.block - 1, at_line_start: false, ..st })
    } else {
        (i + 1, ScanState { at_line_start: false, ..st })
    }
}

/// The state after scanning from `i` to the end.
pub open spec fn scan_from(cs: Seq<char>, i: int, st: ScanState) -> ScanState
    decreases cs.len() - i,
{
    if i < 0 || i >= cs.len() {
        st
    } else {
        let (j, next) = scan_step(cs, i, st);
        if j <= i {
            st
        } else if j >= cs.len() {
            next
        } else {
            scan_from(cs, j, next)
        }
    }
}

pub open spec fn initial_scan() -> ScanState {
    ScanState { paren: 0, brace: 0, bracket: 0, in_string: false, block: 0, at_line_start: true }
}

/// A line that is a comment: `#` after its leading whitespace.
pub open spec fn is_comment_line(l: Seq<char>) -> bool {
    starts_with(trim_start(l), "#"@)
}

/// Whether an input is a complete unit to run: not blank, not only comments,
/// brackets balanced, no open string, and every block keyword closed by `end`.
pub open spec fn input_complete(s: Seq<char>) -> bool {
    let ls = lines(s);
    let fin = scan_from(s, 0, initial_scan());
    &&& trim(s).len() != 0
    &&& exists|k: int| 0 <= k < ls.len() && !is_comment_line(#[trigger] ls[k]) && trim(ls[k]).len() != 0
    &&& fin.paren == 0
    &&& fin.brace == 0
    &&& fin.bracket == 0
    &&& !fin.in_string
    &&& fin.block <= 0
}


proof fn lemma_word_end(cs: Seq<char>, i: int)
    requires
        0 <= i <= cs.len(),
    ensures
        i <= word_end(cs, i) <= cs.len(),
    decreases cs.len() - i,
{
    if i < cs.len() && is_word_char(cs[i]) {
        lemma_word_end(cs, i + 1);
    }
}

fn is_word_char_exec(c: char) -> (r: bool)
    ensures
        r == is_word_char(c),
{
    ('a' <= c && c <= 'z') || ('A' <= c && c <= 'Z') || ('0' <= c && c <= '9') || c == '_'
}

/// The word (ASCII letters, digits, `_`) that starts at `pos`.
fn read_word_at(chars: &[char], pos: usize) -> (r: Vec<char>)
    requires
        pos <= chars@.len(),
    ensures
        r@ == word_at(chars@, pos as int),
{
    let mut end = pos;
    while end < chars.len() && is_word_char_exec(chars[end])
        invariant
            pos <= end <= chars@.len(),
            word_end(chars@, end as int) == word_end(chars@, pos as int),
        decreases chars@.len() - end,
    {
        end = end + 1;
    }
    slice_chars(chars, pos, end)
}

/// The first `\n` at or after `i`, or the end.
fn line_end(chars: &[char], i: usize) -> (r: usize)
    requires
        i <= chars@.len(),
    ensures
        r == line_end_from(chars@, i as int),
        i <= r <= chars@.len(),
{
    let mut j = i;
    while j < chars.len() && chars[j] != '\n'
        invariant
            i <= j <= chars@.len(),
            line_end_from(chars@, j as int) == line_end_from(chars@, i as int),
        decreases chars@.len() - j,
    {
        j = j + 1;
    }
    j
}

spec fn state_of(paren: i128, brace: i128, bracket: i128, in_string: bool, block: i128, at_line_start: bool) -> ScanState {
    ScanState {
        paren: paren as int,
        brace: brace as int,
        bracket: bracket as int,
        in_string,
        block: block as int,
        at_line_start,
    }
}

/// Whether an input is complete: not blank or only comments, with balanced
/// brackets, no open string, and each `fn if while for match` that starts a
/// line closed by an `end` that starts a line.
pub fn is_input_complete(input: &str) -> (r: bool)
    ensures
        r == input_complete(input@),
{
    let chars = chars_of(input);
    let ghost cs = chars@;
    if is_blank(&chars) {
        return false;
    }
    let ls = lines_of(&chars);
    let ghost lv = lines(cs);
    let mut has_code = false;
    let mut k: usize = 0;
    while k < ls.len()
        invariant
            k <= ls@.len(),
            ls@.len() == lv.len(),
            forall|m: int| 0 <= m < ls@.len() ==> #[trigger] ls@[m]@ == lv[m],
            has_code == exists|m: int| 0 <= m < k && !is_comment_line(#[trigger] lv[m]) && trim(lv[m]).len() != 0,
        decreases ls@.len() - k,
    {
        let l = &ls[k];
        let ts = trim_start_chars(l);
        let comment = ts.len() > 0 && ts[0] == '#';
        proof {
            reveal_strlit("#");
            assert(l@ == lv[k as int]);
            assert(ts@ == trim_start(lv[k as int]));
            if comment {
                assert(ts@.subrange(0, 1) =~= "#"@);
            } else if ts@.len() > 0 {
                assert(ts@.subrange(0, 1)[0] != "#"@[0]);
            }
            assert(comment == is_comment_line(lv[k as int]));
        }
        if !comment && !is_blank(l) {
            has_code = true;
        }
        k = k + 1;
    }
    if !has_code {
        return false;
    }
    let n = chars.len();
    let mut paren: i128 = 0;
    let mut brace: i128 = 0;
    let mut bracket: i128 = 0;
    let mut in_string = false;
    let mut block: i128 = 0;
    let mut at_line_start = true;
    let mut i: usize = 0;
    while i < n
        invariant
            n == cs.len(),
            chars@ == cs,
            i <= n,
            -(i as int) <= paren <= i,
            -(i as int) <= brace <= i,
            -(i as int) <= bracket <= i,
            -(i as int) <= block <= i,
            scan_from(cs, i as int, state_of(paren, brace, bracket, in_string, block, at_line_start))
                == scan_from(cs, 0, initial_scan()),
        decreases n - i,
    {
        let ghost st = state_of(paren, brace, bracket, in_string, block, at_line_start);
        let ghost step = scan_step(cs, i as int, st);
        let c = chars[i];
        if in_string {
            if c == '\\' {
                i = if i + 1 < n { i + 2 } else { n };
            } else {
                if c == '"' {
                    in_string = false;
                }
                at_line_start = false;
                i = i + 1;
            }
        } else if c == '"' {
            in_string = true;
            at_line_start = false;
            i = i + 1;
        } else if c == '#' {
            i = line_end(&chars, i + 1);
        } else if c == '\n' {
            at_line_start = true;
            i = i + 1;
        } else if c == ' ' || c == '\t' || c == '\r' {
            i = i + 1;
        } else if c == '(' {
            paren = paren + 1;
            at_line_start = false;
            i = i + 1;
        } else if c == ')' {
            paren = paren - 1;
            at_line_start = false;
            i = i + 1;
        } else if c == '{' {
            brace = brace + 1;
            at_line_start = false;
            i = i + 1;
        } else if c == '}' {
            brace = brace - 1;
            at_line_start = false;
            i = i + 1;
        } else if c == '[' {
            bracket = bracket + 1;
            at_line_start = false;
            i = i + 1;
        } else if c == ']' {
            bracket = bracket - 1;
            at_line_start = false;
            i = i + 1;
        } else {
            let mut advanced = false;
            if at_line_start {
                let w = read_word_at(&chars, i);
                proof {
                    lemma_word_end(cs, i as int);
                }
                if chars_eq_lit(&w, "fn") || chars_eq_lit(&w, "if") || chars_eq_lit(&w, "while")
                    || chars_eq_lit(&w, "for") || chars_eq_lit(&w, "match") {
                    block = block + 1;
                    proof {
                        reveal_strlit("fn");
                        reveal_strlit("if");
                        reveal_strlit("while");
                        reveal_strlit("for");
                        reveal_strlit("match");
                    }
                    i = i + w.len();
                    advanced = true;
                } else if chars_eq_lit(&w, "end") {
                    block = block - 1;
                    proof {
                        reveal_strlit("end");
                        assert(w@.len() == 3);
                        assert(w@.len() == word_end(cs, i as int) - i);
                    }
                    i = i + 3;
                    advanced = true;
                }
            }
            at_line_start = false;
            if !advanced {
                i = i + 1;
            }
        }
    }
    paren == 0 && brace == 0 && bracket == 0 && !in_string && block <= 0
}

/// The text shown by `:help`.
pub fn help_text() -> (r: String)
    ensures
        r@ == help_text_spec(),
{
    let mut s = chars_of("Lom REPL 命令：\n");
    push_lit(&mut s, "  :help    显示本帮助\n");
    push_lit(&mut s, "  :reset   重置会话（清空已定义的函数/变量）\n");
    push_lit(&mut s, "  :show    显示累积的源码\n");
    push_lit(&mut s, "  :q       退出 REPL\n");
    push_lit(&mut s, "\n");
    push_lit(&mut s, "用法：\n");
    push_lit(&mut s, "  fn add(a: Int, b: Int) -> Int\n    a + b\n  end\n");
    push_lit(&mut s, "  let x = 5\n");
    push_lit(&mut s, "  add(x, 3)        # 自动求值并打印结果\n");
    push_lit(&mut s, "  println(\"hi\")   # 执行副作用\n");
    string_of(&s)
}


/// The first word of a `:` command: up to its first space.
pub open spec fn command_word(cmd: Seq<char>) -> Seq<char> {
    match find_char_from(cmd, ' ', 0) {
        Some(k) => cmd.take(k),
        None => cmd,
    }
}

/// The REPL session as far as it goes without an interpreter: the source
/// entered so far.
pub struct ReplSession {
    pub source_acc: String,
}

impl ReplSession {
    /// A session with no source yet.
    pub fn new() -> (r: Self)
        ensures
            r.source_acc@ == Seq::<char>::empty(),
    {
        ReplSession { source_acc: String::new() }
    }

    /// Adds an input to the accumulated source, on a line of its own.
    pub fn record_input(&mut self, input: &str)
        ensures
            final(self).source_acc@ == if old(self).source_acc@.len() == 0 {
                input@
            } else {
                old(self).source_acc@ + "\n"@ + input@
            },
    {
        let mut acc = chars_of(self.source_acc.as_str());
        if acc.len() > 0 {
            acc.push('\n');
        }
        let ghost before = acc@;
        crate::text::push_chars(&mut acc, &chars_of(input));
        proof {
            if old(self).source_acc@.len() == 0 {
                assert(before == Seq::<char>::empty());
                assert(acc@ =~= input@);
            } else {
                reveal_strlit("\n");
                assert(before =~= old(self).source_acc@ + "\n"@);
                assert(acc@ =~= old(self).source_acc@ + "\n"@ + input@);
            }
        }
        self.source_acc = string_of(&acc);
    }

    /// Runs a `:` command (its first word decides): `:q`, `:quit` and `:exit`
    /// end the session with a farewell; `:help` shows the help; `:reset`
    /// empties the session; `:show` shows the source so far; anything else is
    /// reported as unknown.
    pub fn handle_command(&mut self, cmd: &str) -> (r: ReplResult)
        ensures
            ({
                let w = command_word(cmd@);
                if w == ":q"@ || w == ":quit"@ || w == ":exit"@ {
                    !r.should_continue && r.output@ == "再见"@ && final(self).source_acc@ == old(self).source_acc@
                } else if w == ":help"@ {
                    r.should_continue && r.output@ == help_text_spec() && final(self).source_acc@ == old(self).source_acc@
                } else if w == ":reset"@ {
                    r.should_continue && r.output@ == "会话已重置"@ && final(self).source_acc@ == Seq::<char>::empty()
                } else if w == ":show"@ {
                    r.should_continue && r.output@ == old(self).source_acc@ && final(self).source_acc@ == old(
                        self,
                    ).source_acc@
                } else {
                    r.should_continue && r.output@ == "未知命令: "@ + w + "（输入 :help 查看可用命令）"@
                        && final(self).source_acc@ == old(self).source_acc@
                }
            }),
    {
        let cs = chars_of(cmd);
        proof {
            crate::dump::lemma_find_char_bounds(cmd@, ' ', 0);
        }
        let w = match find_char(&cs, ' ', 0) {
            Some(k) => slice_chars(&cs, 0, k),
            None => cs,
        };
        proof {
            if let Some(k) = find_char_from(cmd@, ' ', 0) {
                assert(cmd@.subrange(0, k) == cmd@.take(k));
            } else {
                assert(cmd@ == cs@);
            }
            assert(w@ == command_word(cmd@));
        }
        if chars_eq_lit(&w, ":q") || chars_eq_lit(&w, ":quit") || chars_eq_lit(&w, ":exit") {
            ReplResult { should_continue: false, output: owned("再见") }
        } else if chars_eq_lit(&w, ":help") {
            ReplResult { should_continue: true, output: help_text() }
        } else if chars_eq_lit(&w, ":reset") {
            self.source_acc = String::new();
            ReplResult { should_continue: true, output: owned("会话已重置") }
        } else if chars_eq_lit(&w, ":show") {
            ReplResult { should_continue: true, output: self.source_acc.clone() }
        } else {
            let mut m = chars_of("未知命令: ");
            crate::text::push_chars(&mut m, &w);
            push_lit(&mut m, "（输入 :help 查看可用命令）");
            ReplResult { should_continue: true, output: string_of(&m) }
        }
    }
}

/// The text shown by `:help`.
pub open spec fn help_text_spec() -> Seq<char> {
    "Lom REPL 命令：\n"@ + "  :help    显示本帮助\n"@ + "  :reset   重置会话（清空已定义的函数/变量）\n"@
        + "  :show    显示累积的源码\n"@ + "  :q       退出 REPL\n"@ + "\n"@ + "用法：\n"@
        + "  fn add(a: Int, b: Int) -> Int\n    a + b\n  end\n"@ + "  let x = 5\n"@
        + "  add(x, 3)        # 自动求值并打印结果\n"@ + "  println(\"hi\")   # 执行副作用\n"@
}

} // verus!

verus! {

/// The text holds `end` nowhere.
pub open spec fn has_no_end(s: Seq<char>) -> bool {
    forall|i: int| 0 <= i && i + 3 <= s.len() ==> #[trigger] s.subrange(i, i + 3) != "end"@
}

proof fn lemma_open_block_stays(s: Seq<char>, i: int, st: ScanState)
    requires
        0 <= i,
        has_no_end(s),
        st.block >= 1,
    ensures
        scan_from(s, i, st).block >= 1,
    decreases s.len() - i,
{
    if i < s.len() {
        let (j, next) = scan_step(s, i, st);
        if word_at(s, i) == "end"@ {
            lemma_word_end(s, i);
            reveal_strlit("end");
            assert(word_at(s, i).len() == 3);
            assert(s.subrange(i, i + 3) == "end"@);
        }
        assert(next.block >= 1);
        if j > i && j < s.len() {
            lemma_open_block_stays(s, j, next);
        }
    }
}

proof fn lemma_line_end_before(cs: Seq<char>, j: int, q: int)
    requires
        0 <= j <= q < cs.len(),
        cs[q] == '\n',
    ensures
        j <= line_end_from(cs, j) <= q,
        cs[j] != '\n' ==> line_end_from(cs, j) > j,
    decreases q - j,
{
    if cs[j] != '\n' {
        lemma_line_end_before(cs, j + 1, q);
    }
}

proof fn lemma_word_end_before(cs: Seq<char>, j: int, q: int)
    requires
        0 <= j <= q < cs.len(),
        !is_word_char(cs[q]),
    ensures
        j <= word_end(cs, j) <= q,
    decreases q - j,
{
    if j < q && is_word_char(cs[j]) {
        lemma_word_end_before(cs, j + 1, q);
    }
}

/// The scan up to a line-leading block keyword at `i` (its line starting at
/// `l`, with only spaces and tabs before the keyword) counts that keyword.
proof fn lemma_scan_reaches(s: Seq<char>, l: int, i: int, j: int, st: ScanState)
    requires
        0 <= l <= i < s.len(),
        l == 0 || s[l - 1] == '\n',
        forall|k: int| l <= k < i ==> (#[trigger] s[k] == ' ' || s[k] == '\t'),
        word_at(s, i) == "fn"@ || word_at(s, i) == "if"@ || word_at(s, i) == "while"@ || word_at(s, i) == "for"@
            || word_at(s, i) == "match"@,
        has_no_end(s),
        forall|k: int| 0 <= k < i ==> #[trigger] s[k] != '"',
        0 <= j <= i,
        !st.in_string,
        st.block >= 0,
        l <= j ==> st.at_line_start,
    ensures
        scan_from(s, j, st).block >= 1,
    decreases i - j,
{
    reveal_strlit("fn");
    reveal_strlit("if");
    reveal_strlit("while");
    reveal_strlit("for");
    reveal_strlit("match");
    reveal_strlit("end");
    lemma_word_end(s, j);
    let (j2, next) = scan_step(s, j, st);
    if j == i {
        let w = word_at(s, i);
        assert(w.len() > 0);
        assert(s[i] == w[0]);
        assert(s[i] == 'f' || s[i] == 'i' || s[i] == 'w' || s[i] == 'm');
        assert(opens_block(w));
        assert(next.block >= 1);
        if j2 < s.len() {
            lemma_open_block_stays(s, j2, next);
        }
    } else {
        let c = s[j];
        if word_at(s, j) == "end"@ {
            assert(word_at(s, j).len() == 3);
            assert(s.subrange(j, j + 3) == "end"@);
        }
        if l <= j {
            assert(c == ' ' || c == '\t');
        } else {
            lemma_line_end_before(s, j, l - 1);
            assert(!is_word_char(s[l - 1]));
            lemma_word_end_before(s, j, l - 1);
        }
        assert("fn"@.len() == 2 && "if"@.len() == 2 && "for"@.len() == 3 && "while"@.len() == 5
            && "match"@.len() == 5);
        if l <= j {
            assert(!is_word_char(c));
            assert(word_end(s, j) == j);
            assert(word_at(s, j).len() == 0);
            assert(!opens_block(word_at(s, j)));
        }
        if c == '#' {
            assert(j2 == line_end_from(s, j));
        } else if c == '\n' || c == ' ' || c == '\t' || c == '\r' || c == '(' || c == ')' || c == '{' || c == '}'
            || c == '[' || c == ']' {
            assert(j2 == j + 1);
        } else if st.at_line_start && opens_block(word_at(s, j)) {
            assert(j < l);
            assert(is_word_char(c)) by {
                if !is_word_char(c) {
                    assert(word_end(s, j) == j);
                    assert(word_at(s, j).len() == 0);
                }
            }
            assert(j2 == word_end(s, j));
        } else {
            assert(j2 == j + 1);
        }
        assert(j < j2 <= i);
        assert(!next.in_string);
        assert(next.block >= 0);
        assert(l <= j2 ==> next.at_line_start);
        lemma_scan_reaches(s, l, i, j2, next);
    }
}

/// Every block keyword (`fn if while for match`) at the start of a line
/// needs an `end`: an input with such a keyword at the start of a line
/// (after spaces or tabs at most), no string literal before it, and no `end`
/// anywhere, is never complete.
pub proof fn lemma_unclosed_block_incomplete(s: Seq<char>, l: int, i: int)
    requires
        0 <= l <= i < s.len(),
        l == 0 || s[l - 1] == '\n',
        forall|k: int| l <= k < i ==> (#[trigger] s[k] == ' ' || s[k] == '\t'),
        word_at(s, i) == "fn"@ || word_at(s, i) == "if"@ || word_at(s, i) == "while"@ || word_at(s, i) == "for"@
            || word_at(s, i) == "match"@,
        has_no_end(s),
        forall|k: int| 0 <= k < i ==> #[trigger] s[k] != '"',
    ensures
        !input_complete(s),
{
    lemma_scan_reaches(s, l, i, 0, initial_scan());
}

} // verus!

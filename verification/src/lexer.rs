//! Lexer: turns source bytes into a token stream.
//!
//! The token language is defined by the spec functions below over the source
//! bytes: `skip_from` (whitespace and comments), `token_at` (one token),
//! `lex_from` (the whole strict scan) and `recover_from` (the scan that records
//! an error, skips one byte and goes on).  Lines and columns are 1-based and
//! are functions of the byte position (`line_at`, `col_at`).
use vstd::prelude::*;
use vstd::string::StringSliceAdditionalSpecFns;
use crate::text::{chars_eq_lit, chars_of, push_chars, push_lit, string_of};

verus! {

/// A token. A floating-point literal keeps its source text (digits, a dot,
/// digits), which reads as exactly one `f64`.
#[derive(Debug, Clone, PartialEq)]
pub enum Token {
    Fn,
    Let,
    Mut,
    If,
    Elif,
    Else,
    While,
    For,
    In,
    Return,
    End,
    True,
    False,
    And,
    Or,
    From,
    Import,
    As,
    Match,
    Enum,
    Int(i64),
    Float(String),
    Str(String),
    Ident(String),
    Plus,
    Minus,
    Star,
    Slash,
    Percent,
    PlusEq,
    MinusEq,
    StarEq,
    SlashEq,
    Eq,
    NotEq,
    Lt,
    Gt,
    LtEq,
    GtEq,
    Assign,
    Bang,
    Question,
    Pipe,
    Bar,
    Arrow,
    FatArrow,
    LParen,
    RParen,
    LBrace,
    RBrace,
    LBracket,
    RBracket,
    Comma,
    Colon,
    Dot,
    Semi,
    Eof,
}

/// The mathematical value of a token: text payloads as character sequences.
pub enum TokenView {
    Fn,
    Let,
    Mut,
    If,
    Elif,
    Else,
    While,
    For,
    In,
    Return,
    End,
    True,
    False,
    And,
    Or,
    From,
    Import,
    As,
    Match,
    Enum,
    Int(i64),
    Float(Seq<char>),
    Str(Seq<char>),
    Ident(Seq<char>),
    Plus,
    Minus,
    Star,
    Slash,
    Percent,
    PlusEq,
    MinusEq,
    StarEq,
    SlashEq,
    Eq,
    NotEq,
    Lt,
    Gt,
    LtEq,
    GtEq,
    Assign,
    Bang,
    Question,
    Pipe,
    Bar,
    Arrow,
    FatArrow,
    LParen,
    RParen,
    LBrace,
    RBrace,
    LBracket,
    RBracket,
    Comma,
    Colon,
    Dot,
    Semi,
    Eof,
}

impl View for Token {
    type V = TokenView;

    open spec fn view(&self) -> TokenView {
        match self {
            Token::Fn => TokenView::Fn,
            Token::Let => TokenView::Let,
            Token::Mut => TokenView::Mut,
            Token::If => TokenView::If,
            Token::Elif => TokenView::Elif,
            Token::Else => TokenView::Else,
            Token::While => TokenView::While,
            Token::For => TokenView::For,
            Token::In => TokenView::In,
            Token::Return => TokenView::Return,
            Token::End => TokenView::End,
            Token::True => TokenView::True,
            Token::False => TokenView::False,
            Token::And => TokenView::And,
            Token::Or => TokenView::Or,
            Token::From => TokenView::From,
            Token::Import => TokenView::Import,
            Token::As => TokenView::As,
            Token::Match => TokenView::Match,
            Token::Enum => TokenView::Enum,
            Token::Int(v) => TokenView::Int(*v),
            Token::Float(t) => TokenView::Float(t@),
            Token::Str(t) => TokenView::Str(t@),
            Token::Ident(t) => TokenView::Ident(t@),
            Token::Plus => TokenView::Plus,
            Token::Minus => TokenView::Minus,
            Token::Star => TokenView::Star,
            Token::Slash => TokenView::Slash,
            Token::Percent => TokenView::Percent,
            Token::PlusEq => TokenView::PlusEq,
            Token::MinusEq => TokenView::MinusEq,
            Token::StarEq => TokenView::StarEq,
            Token::SlashEq => TokenView::SlashEq,
            Token::Eq => TokenView::Eq,
            Token::NotEq => TokenView::NotEq,
            Token::Lt => TokenView::Lt,
            Token::Gt => TokenView::Gt,
            Token::LtEq => TokenView::LtEq,
            Token::GtEq => TokenView::GtEq,
            Token::Assign => TokenView::Assign,
            Token::Bang => TokenView::Bang,
            Token::Question => TokenView::Question,
            Token::Pipe => TokenView::Pipe,
            Token::Bar => TokenView::Bar,
            Token::Arrow => TokenView::Arrow,
            Token::FatArrow => TokenView::FatArrow,
            Token::LParen => TokenView::LParen,
            Token::RParen => TokenView::RParen,
            Token::LBrace => TokenView::LBrace,
            Token::RBrace => TokenView::RBrace,
            Token::LBracket => TokenView::LBracket,
            Token::RBracket => TokenView::RBracket,
            Token::Comma => TokenView::Comma,
            Token::Colon => TokenView::Colon,
            Token::Dot => TokenView::Dot,
            Token::Semi => TokenView::Semi,
            Token::Eof => TokenView::Eof,
        }
    }
}

/// A token with the 1-based line and column of its first byte.
#[derive(Debug, Clone, PartialEq)]
pub struct SpannedToken {
    pub token: Token,
    pub line: usize,
    pub col: usize,
}

impl View for SpannedToken {
    type V = (TokenView, int, int);

    open spec fn view(&self) -> (TokenView, int, int) {
        (self.token@, self.line as int, self.col as int)
    }
}

/// A lexical error: message and 1-based position.
#[derive(Debug)]
pub struct LexError {
    pub message: String,
    pub line: usize,
    pub col: usize,
}

impl LexError {
    /// The error as the text a user sees.
    pub fn describe(&self) -> (r: String)
        ensures
            r@ == "词法错误 ("@ + crate::text::dec(self.line as nat) + ":"@ + crate::text::dec(self.col as nat) + "): "@
                + self.message@,
    {
        let mut out: Vec<char> = Vec::new();
        push_lit(&mut out, "词法错误 (");
        crate::text::push_usize(&mut out, self.line);
        push_lit(&mut out, ":");
        crate::text::push_usize(&mut out, self.col);
        push_lit(&mut out, "): ");
        let m = chars_of(self.message.as_str());
        push_chars(&mut out, &m);
        string_of(&out)
    }
}

impl View for LexError {
    type V = (Seq<char>, int, int);

    open spec fn view(&self) -> (Seq<char>, int, int) {
        (self.message@, self.line as int, self.col as int)
    }
}

// ===== the token language =====

/// 1-based line of byte position `p`: one more than the newlines before it.
pub open spec fn line_at(s: Seq<u8>, p: int) -> int
    decreases p,
{
    if p <= 0 {
        1
    } else {
        line_at(s, p - 1) + if s[p - 1] == 10u8 { 1int } else { 0int }
    }
}

/// 1-based column of byte position `p`: bytes since the last newline, plus one.
pub open spec fn col_at(s: Seq<u8>, p: int) -> int
    decreases p,
{
    if p <= 0 {
        1
    } else if s[p - 1] == 10u8 {
        1
    } else {
        col_at(s, p - 1) + 1
    }
}

pub open spec fn is_digit(b: u8) -> bool {
    48u8 <= b <= 57u8
}

pub open spec fn is_alpha(b: u8) -> bool {
    (65u8 <= b <= 90u8) || (97u8 <= b <= 122u8)
}

pub open spec fn is_ident_byte(b: u8) -> bool {
    is_alpha(b) || is_digit(b) || b == 95u8
}

pub open spec fn is_space(b: u8) -> bool {
    b == 32u8 || b == 9u8 || b == 13u8 || b == 10u8
}

/// Where the run of whitespace and comments starting at `p` ends. `mode` is 0
/// between tokens, 1 inside a `#` line comment, 2 inside a `#- ... -#` block
/// comment (an unclosed block comment runs to the end).
pub open spec fn skip_from(s: Seq<u8>, p: int, mode: int) -> int
    decreases s.len() - p,
{
    if p < 0 || p >= s.len() {
        p
    } else if mode == 1 {
        if s[p] == 10u8 { skip_from(s, p + 1, 0) } else { skip_from(s, p + 1, 1) }
    } else if mode == 2 {
        if s[p] == 45u8 && p + 1 < s.len() && s[p + 1] == 35u8 {
            skip_from(s, p + 2, 0)
        } else {
            skip_from(s, p + 1, 2)
        }
    } else if is_space(s[p]) {
        skip_from(s, p + 1, 0)
    } else if s[p] == 35u8 {
        if p + 1 < s.len() && s[p + 1] == 45u8 { skip_from(s, p + 2, 2) } else { skip_from(s, p + 1, 1) }
    } else {
        p
    }
}

/// End of the run of bytes satisfying `is_digit` from `p`.
pub open spec fn digits_end(s: Seq<u8>, p: int) -> int
    decreases s.len() - p,
{
    if 0 <= p < s.len() && is_digit(s[p]) { digits_end(s, p + 1) } else { p }
}

/// End of the run of identifier bytes from `p`.
pub open spec fn ident_end(s: Seq<u8>, p: int) -> int
    decreases s.len() - p,
{
    if 0 <= p < s.len() && is_ident_byte(s[p]) { ident_end(s, p + 1) } else { p }
}

/// Decimal value of a run of digit bytes.
pub open spec fn dec_val(d: Seq<u8>) -> nat
    decreases d.len(),
{
    if d.len() == 0 { 0 } else { dec_val(d.drop_last()) * 10 + (d.last() - 48u8) as nat }
}

/// Bytes read one character per byte.
pub open spec fn byte_text(d: Seq<u8>) -> Seq<char> {
    d.map_values(|b: u8| b as char)
}

/// The character an escape `\b` stands for inside a string literal.
pub open spec fn escaped(b: u8) -> char {
    if b == 110u8 { '\n' } else if b == 116u8 { '\t' } else if b == 114u8 { '\r' } else { b as char }
}

/// A number literal at `p` (which holds a digit): its token and end position,
/// or the error for an integer that does not fit in `i64`.
pub open spec fn number_at(s: Seq<u8>, p: int) -> Result<(TokenView, int), Seq<char>> {
    let e = digits_end(s, p);
    if e + 1 < s.len() && s[e] == 46u8 && is_digit(s[e + 1]) {
        let f = digits_end(s, e + 1);
        Ok((TokenView::Float(byte_text(s.subrange(p, f))), f))
    } else if dec_val(s.subrange(p, e)) <= i64::MAX {
        Ok((TokenView::Int(dec_val(s.subrange(p, e)) as i64), e))
    } else {
        Err("无效整数: "@ + byte_text(s.subrange(p, e)))
    }
}

/// The rest of a string literal from `q` (after the opening quote), with the
/// characters `acc` read so far.
pub open spec fn string_from(s: Seq<u8>, q: int, acc: Seq<char>) -> Result<(TokenView, int), Seq<char>>
    decreases s.len() - q,
{
    if q < 0 || q >= s.len() {
        Err("未闭合的字符串"@)
    } else if s[q] == 34u8 {
        Ok((TokenView::Str(acc), q + 1))
    } else if s[q] == 92u8 {
        if q + 1 >= s.len() {
            Err("未闭合的字符串转义"@)
        } else {
            string_from(s, q + 2, acc.push(escaped(s[q + 1])))
        }
    } else {
        string_from(s, q + 1, acc.push(s[q] as char))
    }
}

/// The token for an identifier's text: a keyword or `Ident`.
pub open spec fn word_token(w: Seq<char>) -> TokenView {
    if w == "fn"@ { TokenView::Fn }
    else if w == "let"@ { TokenView::Let }
    else if w == "mut"@ { TokenView::Mut }
    else if w == "if"@ { TokenView::If }
    else if w == "elif"@ { TokenView::Elif }
    else if w == "else"@ { TokenView::Else }
    else if w == "while"@ { TokenView::While }
    else if w == "for"@ { TokenView::For }
    else if w == "in"@ { TokenView::In }
    else if w == "return"@ { TokenView::Return }
    else if w == "end"@ { TokenView::End }
    else if w == "True"@ { TokenView::True }
    else if w == "False"@ { TokenView::False }
    else if w == "and"@ { TokenView::And }
    else if w == "or"@ { TokenView::Or }
    else if w == "from"@ { TokenView::From }
    else if w == "import"@ { TokenView::Import }
    else if w == "as"@ { TokenView::As }
    else if w == "match"@ { TokenView::Match }
    else if w == "enum"@ { TokenView::Enum }
    else { TokenView::Ident(w) }
}

/// The message for a byte that starts no token.
pub open spec fn unexpected_msg(c: u8) -> Seq<char> {
    "意外字符 '"@ + seq![c as char] + "'"@
}

/// An operator or punctuation token at `p`, longest match first.
pub open spec fn op_at(s: Seq<u8>, p: int) -> Result<(TokenView, int), Seq<char>> {
    let c = s[p];
    let n: int = if p + 1 < s.len() { s[p + 1] as int } else { -1 };
    if c == 43u8 {
        if n == 61 { Ok((TokenView::PlusEq, p + 2)) } else { Ok((TokenView::Plus, p + 1)) }
    } else if c == 45u8 {
        if n == 62 { Ok((TokenView::Arrow, p + 2)) }
        else if n == 61 { Ok((TokenView::MinusEq, p + 2)) }
        else { Ok((TokenView::Minus, p + 1)) }
    } else if c == 42u8 {
        if n == 61 { Ok((TokenView::StarEq, p + 2)) } else { Ok((TokenView::Star, p + 1)) }
    } else if c == 47u8 {
        if n == 61 { Ok((TokenView::SlashEq, p + 2)) } else { Ok((TokenView::Slash, p + 1)) }
    } else if c == 37u8 {
        Ok((TokenView::Percent, p + 1))
    } else if c == 33u8 {
        if n == 61 { Ok((TokenView::NotEq, p + 2)) } else { Ok((TokenView::Bang, p + 1)) }
    } else if c == 61u8 {
        if n == 61 { Ok((TokenView::Eq, p + 2)) }
        else if n == 62 { Ok((TokenView::FatArrow, p + 2)) }
        else { Ok((TokenView::Assign, p + 1)) }
    } else if c == 60u8 {
        if n == 61 { Ok((TokenView::LtEq, p + 2)) } else { Ok((TokenView::Lt, p + 1)) }
    } else if c == 62u8 {
        if n == 61 { Ok((TokenView::GtEq, p + 2)) } else { Ok((TokenView::Gt, p + 1)) }
    } else if c == 124u8 {
        if n == 62 { Ok((TokenView::Pipe, p + 2)) } else { Ok((TokenView::Bar, p + 1)) }
    } else if c == 63u8 { Ok((TokenView::Question, p + 1)) }
    else if c == 40u8 { Ok((TokenView::LParen, p + 1)) }
    else if c == 41u8 { Ok((TokenView::RParen, p + 1)) }
    else if c == 123u8 { Ok((TokenView::LBrace, p + 1)) }
    else if c == 125u8 { Ok((TokenView::RBrace, p + 1)) }
    else if c == 91u8 { Ok((TokenView::LBracket, p + 1)) }
    else if c == 93u8 { Ok((TokenView::RBracket, p + 1)) }
    else if c == 44u8 { Ok((TokenView::Comma, p + 1)) }
    else if c == 58u8 { Ok((TokenView::Colon, p + 1)) }
    else if c == 46u8 { Ok((TokenView::Dot, p + 1)) }
    else if c == 59u8 { Ok((TokenView::Semi, p + 1)) }
    else { Err(unexpected_msg(c)) }
}

/// The token that starts at `p` (a position holding a byte that is not
/// whitespace or a comment start): the token and where it ends, or a message.
pub open spec fn token_at(s: Seq<u8>, p: int) -> Result<(TokenView, int), Seq<char>> {
    let c = s[p];
    if is_digit(c) {
        number_at(s, p)
    } else if c == 34u8 {
        string_from(s, p + 1, Seq::empty())
    } else if is_alpha(c) || c == 95u8 {
        let e = ident_end(s, p);
        Ok((word_token(byte_text(s.subrange(p, e))), e))
    } else {
        op_at(s, p)
    }
}

/// Spanned token value at byte position `p`.
pub open spec fn spanned(s: Seq<u8>, t: TokenView, p: int) -> (TokenView, int, int) {
    (t, line_at(s, p), col_at(s, p))
}

/// The strict scan from `p`: all tokens up to and including `Eof`, or the
/// first lexical error.
pub open spec fn lex_from(s: Seq<u8>, p: int) -> Result<Seq<(TokenView, int, int)>, (Seq<char>, int, int)>
    decreases s.len() - p,
{
    let q = skip_from(s, p, 0);
    if q < p || q >= s.len() {
        Ok(seq![spanned(s, TokenView::Eof, q)])
    } else {
        match token_at(s, q) {
            Ok((t, e)) => {
                if e <= q || e > s.len() {
                    Ok(seq![spanned(s, t, q)])
                } else {
                    match lex_from(s, e) {
                        Ok(rest) => Ok(seq![spanned(s, t, q)] + rest),
                        Err(x) => Err(x),
                    }
                }
            },
            Err(m) => Err((m, line_at(s, q), col_at(s, q))),
        }
    }
}

/// The recovering scan from `p`: tokens (ending with `Eof`) and errors; after
/// an error the scan goes on one byte further.
pub open spec fn recover_from(s: Seq<u8>, p: int) -> (Seq<(TokenView, int, int)>, Seq<(Seq<char>, int, int)>)
    decreases s.len() - p,
{
    let q = skip_from(s, p, 0);
    if q < p || q >= s.len() {
        (seq![spanned(s, TokenView::Eof, q)], Seq::empty())
    } else {
        match token_at(s, q) {
            Ok((t, e)) => {
                if e <= q || e > s.len() {
                    (seq![spanned(s, t, q)], Seq::empty())
                } else {
                    let r = recover_from(s, e);
                    (seq![spanned(s, t, q)] + r.0, r.1)
                }
            },
            Err(m) => {
                let r = recover_from(s, q + 1);
                (r.0, seq![(m, line_at(s, q), col_at(s, q))] + r.1)
            },
        }
    }
}

pub open spec fn token_views(ts: Seq<SpannedToken>) -> Seq<(TokenView, int, int)> {
    ts.map_values(|t: SpannedToken| t@)
}

pub open spec fn error_views(es: Seq<LexError>) -> Seq<(Seq<char>, int, int)> {
    es.map_values(|e: LexError| e@)
}


/// A strict-scan result with `prefix` put in front of its tokens.
pub open spec fn glue(
    prefix: Seq<(TokenView, int, int)>,
    r: Result<Seq<(TokenView, int, int)>, (Seq<char>, int, int)>,
) -> Result<Seq<(TokenView, int, int)>, (Seq<char>, int, int)> {
    match r {
        Ok(ts) => Ok(prefix + ts),
        Err(x) => Err(x),
    }
}

// ===== facts about the token language =====

/// Line and column counts stay within the bytes scanned.
pub proof fn lemma_line_col_bounds(s: Seq<u8>, p: int)
    requires
        0 <= p <= s.len(),
    ensures
        1 <= line_at(s, p) <= p + 1,
        1 <= col_at(s, p) <= p + 1,
    decreases p,
{
    if p > 0 {
        lemma_line_col_bounds(s, p - 1);
    }
}

/// Skipping white space and comments moves forward within the source.
pub proof fn lemma_skip_bounds(s: Seq<u8>, p: int, mode: int)
    requires
        0 <= p <= s.len(),
    ensures
        p <= skip_from(s, p, mode) <= s.len(),
    decreases s.len() - p,
{
    if p < s.len() {
        if mode == 1 {
            if s[p] == 10u8 { lemma_skip_bounds(s, p + 1, 0) } else { lemma_skip_bounds(s, p + 1, 1) }
        } else if mode == 2 {
            if s[p] == 45u8 && p + 1 < s.len() && s[p + 1] == 35u8 {
                lemma_skip_bounds(s, p + 2, 0)
            } else {
                lemma_skip_bounds(s, p + 1, 2)
            }
        } else if is_space(s[p]) {
            lemma_skip_bounds(s, p + 1, 0)
        } else if s[p] == 35u8 {
            if p + 1 < s.len() && s[p + 1] == 45u8 {
                lemma_skip_bounds(s, p + 2, 2)
            } else {
                lemma_skip_bounds(s, p + 1, 1)
            }
        }
    }
}

/// A digit run ends at or after its start, within the source.
pub proof fn lemma_digits_end(s: Seq<u8>, p: int)
    requires
        0 <= p <= s.len(),
    ensures
        p <= digits_end(s, p) <= s.len(),
    decreases s.len() - p,
{
    if p < s.len() && is_digit(s[p]) {
        lemma_digits_end(s, p + 1);
    }
}

/// An identifier ends at or after its start, within the source.
pub proof fn lemma_ident_end(s: Seq<u8>, p: int)
    requires
        0 <= p <= s.len(),
    ensures
        p <= ident_end(s, p) <= s.len(),
    decreases s.len() - p,
{
    if p < s.len() && is_ident_byte(s[p]) {
        lemma_ident_end(s, p + 1);
    }
}

/// A string literal ends within the source.
pub proof fn lemma_string_end(s: Seq<u8>, q: int, acc: Seq<char>)
    requires
        0 <= q <= s.len(),
    ensures
        string_from(s, q, acc) matches Ok((_, e)) ==> q < e <= s.len(),
    decreases s.len() - q,
{
    if q < s.len() && s[q] != 34u8 {
        if s[q] == 92u8 {
            if q + 1 < s.len() {
                lemma_string_end(s, q + 2, acc.push(escaped(s[q + 1])));
            }
        } else {
            lemma_string_end(s, q + 1, acc.push(s[q] as char));
        }
    }
}

/// A token always consumes at least one byte and stays within the source.
pub proof fn lemma_token_end(s: Seq<u8>, q: int)
    requires
        0 <= q < s.len(),
    ensures
        token_at(s, q) matches Ok((_, e)) ==> q < e <= s.len(),
{
    lemma_digits_end(s, q + 1);
    lemma_ident_end(s, q + 1);
    lemma_string_end(s, q + 1, Seq::empty());
    let e = digits_end(s, q);
    if e + 1 < s.len() {
        lemma_digits_end(s, e + 1);
    }
}

/// The strict scan succeeds exactly when the recovering scan records no
/// error; then both give the same tokens, and otherwise the strict scan's
/// error is the first one the recovering scan records.
pub proof fn lemma_strict_and_recovering_agree(s: Seq<u8>, p: int)
    requires
        0 <= p <= s.len(),
    ensures
        (lex_from(s, p) is Ok) <==> recover_from(s, p).1.len() == 0,
        lex_from(s, p) matches Ok(ts) ==> ts == recover_from(s, p).0,
        lex_from(s, p) matches Err(e) ==> recover_from(s, p).1.len() > 0 && recover_from(s, p).1[0] == e,
    decreases s.len() - p,
{
    let q = skip_from(s, p, 0);
    lemma_skip_bounds(s, p, 0);
    if q < s.len() {
        lemma_token_end(s, q);
        match token_at(s, q) {
            Ok((t, e)) => {
                lemma_strict_and_recovering_agree(s, e);
            },
            Err(m) => {},
        }
    }
}

/// A successful scan from `p` has at most one token per remaining byte, plus `Eof`.
pub proof fn lemma_scan_length(s: Seq<u8>, p: int)
    requires
        0 <= p <= s.len(),
    ensures
        lex_from(s, p) matches Ok(ts) ==> ts.len() <= s.len() - p + 1,
    decreases s.len() - p,
{
    let q = skip_from(s, p, 0);
    lemma_skip_bounds(s, p, 0);
    if q < s.len() {
        lemma_token_end(s, q);
        match token_at(s, q) {
            Ok((t, e)) => {
                lemma_scan_length(s, e);
            },
            Err(m) => {},
        }
    }
}

/// Every successful scan ends with an `Eof` token, and so do the tokens of
/// every recovering scan.
pub proof fn lemma_scans_end_with_eof(s: Seq<u8>, p: int)
    requires
        0 <= p <= s.len(),
    ensures
        recover_from(s, p).0.len() > 0,
        recover_from(s, p).0.last().0 == TokenView::Eof,
        lex_from(s, p) matches Ok(ts) ==> ts.len() > 0 && ts.last().0 == TokenView::Eof,
    decreases s.len() - p,
{
    let q = skip_from(s, p, 0);
    lemma_skip_bounds(s, p, 0);
    if q < s.len() {
        lemma_token_end(s, q);
        match token_at(s, q) {
            Ok((t, e)) => {
                lemma_scans_end_with_eof(s, e);
            },
            Err(m) => {
                lemma_scans_end_with_eof(s, q + 1);
            },
        }
    }
}


// ===== the lexer =====

/// Lexer state over a source's bytes: the position of the next byte and its
/// line and column.
pub struct Lexer<'a> {
    src: &'a [u8],
    pos: usize,
    line: usize,
    col: usize,
}

/// A byte read as one character.
fn byte_char(b: u8) -> (c: char)
    ensures
        c == (b as char),
{
    b as char
}

/// The characters of `src[from..to]`, one per byte.
fn byte_chars(src: &[u8], from: usize, to: usize) -> (r: Vec<char>)
    requires
        from <= to <= src@.len(),
    ensures
        r@ == byte_text(src@.subrange(from as int, to as int)),
{
    let mut r: Vec<char> = Vec::new();
    let mut i = from;
    while i < to
        invariant
            from <= i <= to <= src@.len(),
            r@ == byte_text(src@.subrange(from as int, i as int)),
        decreases to - i,
    {
        r.push(byte_char(src[i]));
        assert(src@.subrange(from as int, i + 1) == src@.subrange(from as int, i as int).push(src@[i as int]));
        i += 1;
    }
    r
}

fn is_digit_byte(b: u8) -> (r: bool)
    ensures
        r == is_digit(b),
{
    48u8 <= b && b <= 57u8
}

fn is_alpha_byte(b: u8) -> (r: bool)
    ensures
        r == is_alpha(b),
{
    (65u8 <= b && b <= 90u8) || (97u8 <= b && b <= 122u8)
}

impl<'a> Lexer<'a> {
    /// The source bytes.
    pub closed spec fn source(&self) -> Seq<u8> {
        self.src@
    }

    /// The position of the next byte.
    pub closed spec fn position(&self) -> int {
        self.pos as int
    }

    /// The line and column agree with the position.
    pub closed spec fn wf(&self) -> bool {
        &&& self.src@.len() < usize::MAX
        &&& self.pos <= self.src@.len()
        &&& self.line == line_at(self.src@, self.pos as int)
        &&& self.col == col_at(self.src@, self.pos as int)
    }

    /// A lexer at the start of `src`.
    pub fn new(src: &'a str) -> (r: Self)
        requires
            src.spec_bytes().len() < usize::MAX,
        ensures
            r.wf(),
            r.source() == src.spec_bytes(),
            r.position() == 0,
    {
        Lexer { src: src.as_bytes(), pos: 0, line: 1, col: 1 }
    }

    fn advance(&mut self)
        requires
            old(self).wf(),
            old(self).pos < old(self).src@.len(),
        ensures
            final(self).wf(),
            final(self).src@ == old(self).src@,
            final(self).pos == old(self).pos + 1,
    {
        proof {
            lemma_line_col_bounds(self.src@, self.pos as int);
        }
        let ch = self.src[self.pos];
        self.pos = self.pos + 1;
        if ch == 10u8 {
            self.line = self.line + 1;
            self.col = 1;
        } else {
            self.col = self.col + 1;
        }
    }

    /// Skips whitespace, `#` line comments and `#- ... -#` block comments.
    fn skip_whitespace_and_comments(&mut self)
        requires
            old(self).wf(),
        ensures
            final(self).wf(),
            final(self).src@ == old(self).src@,
            final(self).pos == skip_from(old(self).src@, old(self).pos as int, 0),
    {
        let ghost s = self.src@;
        let ghost p0 = self.pos as int;
        let mut mode: u8 = 0;
        loop
            invariant
                self.wf(),
                self.src@ == s,
                mode <= 2,
                skip_from(s, self.pos as int, mode as int) == skip_from(s, p0, 0),
            ensures
                self.wf(),
                self.src@ == s,
                self.pos == skip_from(s, p0, 0),
            decreases s.len() - self.pos,
        {
            if self.pos >= self.src.len() {
                break;
            }
            let c = self.src[self.pos];
            let has_next = self.pos + 1 < self.src.len();
            if mode == 1 {
                self.advance();
                if c == 10u8 {
                    mode = 0;
                }
            } else if mode == 2 {
                if c == 45u8 && has_next && self.src[self.pos + 1] == 35u8 {
                    self.advance();
                    self.advance();
                    mode = 0;
                } else {
                    self.advance();
                }
            } else if c == 32u8 || c == 9u8 || c == 13u8 || c == 10u8 {
                self.advance();
            } else if c == 35u8 {
                if has_next && self.src[self.pos + 1] == 45u8 {
                    self.advance();
                    self.advance();
                    mode = 2;
                } else {
                    self.advance();
                    mode = 1;
                }
            } else {
                break;
            }
        }
    }
}


/// Whether `r`, the outcome of reading the token at `p`, is what `token_at`
/// gives there, with the token ending at `end`.
pub open spec fn step_matches(s: Seq<u8>, p: int, end: int, r: Result<SpannedToken, LexError>) -> bool {
    match r {
        Ok(t) => {
            &&& token_at(s, p) == Ok::<(TokenView, int), Seq<char>>((t.token@, end))
            &&& t.line == line_at(s, p)
            &&& t.col == col_at(s, p)
        },
        Err(e) => {
            &&& token_at(s, p) == Err::<(TokenView, int), Seq<char>>(e.message@)
            &&& e.line == line_at(s, p)
            &&& e.col == col_at(s, p)
        },
    }
}

fn is_ident_byte_exec(b: u8) -> (r: bool)
    ensures
        r == is_ident_byte(b),
{
    is_alpha_byte(b) || is_digit_byte(b) || b == 95u8
}

impl<'a> Lexer<'a> {
    fn lex_number(&mut self, line: usize, col: usize) -> (r: Result<SpannedToken, LexError>)
        requires
            old(self).wf(),
            old(self).pos < old(self).src@.len(),
            is_digit(old(self).src@[old(self).pos as int]),
            line == line_at(old(self).src@, old(self).pos as int),
            col == col_at(old(self).src@, old(self).pos as int),
        ensures
            final(self).wf(),
            final(self).src@ == old(self).src@,
            final(self).pos > old(self).pos,
            step_matches(old(self).src@, old(self).pos as int, final(self).pos as int, r),
    {
        let ghost s = self.src@;
        let start = self.pos;
        let mut acc: u64 = 0;
        let mut big = false;
        while self.pos < self.src.len() && is_digit_byte(self.src[self.pos])
            invariant
                self.wf(),
                self.src@ == s,
                start <= self.pos <= s.len(),
                digits_end(s, self.pos as int) == digits_end(s, start as int),
                !big ==> acc == dec_val(s.subrange(start as int, self.pos as int)) && acc <= i64::MAX,
                big ==> dec_val(s.subrange(start as int, self.pos as int)) > i64::MAX,
            decreases s.len() - self.pos,
        {
            let d = (self.src[self.pos] - 48u8) as u64;
            let ghost a = s.subrange(start as int, self.pos as int);
            let ghost b = s.subrange(start as int, self.pos + 1);
            proof {
                assert(b.drop_last() == a);
                assert(dec_val(b) == dec_val(a) * 10 + d);
            }
            if !big {
                if acc > (9223372036854775807u64 - d) / 10 {
                    big = true;
                    assert(acc * 10 + d > 9223372036854775807u64) by (nonlinear_arith)
                        requires
                            acc > (9223372036854775807u64 - d) / 10,
                            d <= 9,
                    ;
                } else {
                    assert(acc * 10 + d <= 9223372036854775807u64) by (nonlinear_arith)
                        requires
                            acc <= (9223372036854775807u64 - d) / 10,
                            d <= 9,
                    ;
                    acc = acc * 10 + d;
                }
            } else {
                assert(dec_val(b) >= dec_val(a)) by (nonlinear_arith)
                    requires
                        dec_val(b) == dec_val(a) * 10 + d,
                ;
            }
            self.advance();
        }
        let e = self.pos;
        proof {
            lemma_digits_end(s, start + 1);
        }
        if e + 1 < self.src.len() && self.src[e] == 46u8 && is_digit_byte(self.src[e + 1]) {
            self.advance();
            while self.pos < self.src.len() && is_digit_byte(self.src[self.pos])
                invariant
                    self.wf(),
                    self.src@ == s,
                    e + 1 <= self.pos <= s.len(),
                    digits_end(s, self.pos as int) == digits_end(s, e + 1),
                decreases s.len() - self.pos,
            {
                self.advance();
            }
            let text = byte_chars(self.src, start, self.pos);
            return Ok(SpannedToken { token: Token::Float(string_of(&text)), line, col });
        }
        let text = byte_chars(self.src, start, e);
        if big {
            let mut m = chars_of("无效整数: ");
            push_chars(&mut m, &text);
            return Err(LexError { message: string_of(&m), line, col });
        }
        Ok(SpannedToken { token: Token::Int(acc as i64), line, col })
    }

    fn lex_string(&mut self, line: usize, col: usize) -> (r: Result<SpannedToken, LexError>)
        requires
            old(self).wf(),
            old(self).pos < old(self).src@.len(),
            old(self).src@[old(self).pos as int] == 34u8,
            line == line_at(old(self).src@, old(self).pos as int),
            col == col_at(old(self).src@, old(self).pos as int),
        ensures
            final(self).wf(),
            final(self).src@ == old(self).src@,
            final(self).pos > old(self).pos,
            step_matches(old(self).src@, old(self).pos as int, final(self).pos as int, r),
    {
        let ghost s = self.src@;
        let ghost p = self.pos as int;
        self.advance();
        let mut acc: Vec<char> = Vec::new();
        loop
            invariant
                self.wf(),
                self.src@ == s,
                p < self.pos <= s.len(),
                s == old(self).src@,
                p == old(self).pos,
                s[p] == 34u8,
                line == line_at(s, p),
                col == col_at(s, p),
                string_from(s, self.pos as int, acc@) == string_from(s, p + 1, Seq::empty()),
            decreases s.len() - self.pos,
        {
            if self.pos >= self.src.len() {
                let m = chars_of("未闭合的字符串");
                return Err(LexError { message: string_of(&m), line, col });
            }
            let c = self.src[self.pos];
            if c == 34u8 {
                self.advance();
                return Ok(SpannedToken { token: Token::Str(string_of(&acc)), line, col });
            } else if c == 92u8 {
                self.advance();
                if self.pos >= self.src.len() {
                    let m = chars_of("未闭合的字符串转义");
                    return Err(LexError { message: string_of(&m), line, col });
                }
                let e = self.src[self.pos];
                let ch = if e == 110u8 {
                    '\n'
                } else if e == 116u8 {
                    '\t'
                } else if e == 114u8 {
                    '\r'
                } else {
                    byte_char(e)
                };
                acc.push(ch);
                self.advance();
            } else {
                acc.push(byte_char(c));
                self.advance();
            }
        }
    }

    fn lex_ident(&mut self, line: usize, col: usize) -> (r: Result<SpannedToken, LexError>)
        requires
            old(self).wf(),
            old(self).pos < old(self).src@.len(),
            is_alpha(old(self).src@[old(self).pos as int]) || old(self).src@[old(self).pos as int]
                == 95u8,
            line == line_at(old(self).src@, old(self).pos as int),
            col == col_at(old(self).src@, old(self).pos as int),
        ensures
            final(self).wf(),
            final(self).src@ == old(self).src@,
            final(self).pos > old(self).pos,
            step_matches(old(self).src@, old(self).pos as int, final(self).pos as int, r),
    {
        let ghost s = self.src@;
        let start = self.pos;
        while self.pos < self.src.len() && is_ident_byte_exec(self.src[self.pos])
            invariant
                self.wf(),
                self.src@ == s,
                start <= self.pos <= s.len(),
                ident_end(s, self.pos as int) == ident_end(s, start as int),
            decreases s.len() - self.pos,
        {
            self.advance();
        }
        proof {
            lemma_ident_end(s, start + 1);
        }
        let w = byte_chars(self.src, start, self.pos);
        let token = if chars_eq_lit(&w, "fn") {
            Token::Fn
        } else if chars_eq_lit(&w, "let") {
            Token::Let
        } else if chars_eq_lit(&w, "mut") {
            Token::Mut
        } else if chars_eq_lit(&w, "if") {
            Token::If
        } else if chars_eq_lit(&w, "elif") {
            Token::Elif
        } else if chars_eq_lit(&w, "else") {
            Token::Else
        } else if chars_eq_lit(&w, "while") {
            Token::While
        } else if chars_eq_lit(&w, "for") {
            Token::For
        } else if chars_eq_lit(&w, "in") {
            Token::In
        } else if chars_eq_lit(&w, "return") {
            Token::Return
        } else if chars_eq_lit(&w, "end") {
            Token::End
        } else if chars_eq_lit(&w, "True") {
            Token::True
        } else if chars_eq_lit(&w, "False") {
            Token::False
        } else if chars_eq_lit(&w, "and") {
            Token::And
        } else if chars_eq_lit(&w, "or") {
            Token::Or
        } else if chars_eq_lit(&w, "from") {
            Token::From
        } else if chars_eq_lit(&w, "import") {
            Token::Import
        } else if chars_eq_lit(&w, "as") {
            Token::As
        } else if chars_eq_lit(&w, "match") {
            Token::Match
        } else if chars_eq_lit(&w, "enum") {
            Token::Enum
        } else {
            Token::Ident(string_of(&w))
        };
        Ok(SpannedToken { token, line, col })
    }
}


impl<'a> Lexer<'a> {
    /// Operators and punctuation, longest match first.
    fn lex_op(&mut self, line: usize, col: usize) -> (r: Result<SpannedToken, LexError>)
        requires
            old(self).wf(),
            old(self).pos < old(self).src@.len(),
            !is_digit(old(self).src@[old(self).pos as int]),
            old(self).src@[old(self).pos as int] != 34u8,
            !is_alpha(old(self).src@[old(self).pos as int]),
            old(self).src@[old(self).pos as int] != 95u8,
            line == line_at(old(self).src@, old(self).pos as int),
            col == col_at(old(self).src@, old(self).pos as int),
        ensures
            final(self).wf(),
            final(self).src@ == old(self).src@,
            r is Ok ==> final(self).pos > old(self).pos,
            step_matches(old(self).src@, old(self).pos as int, final(self).pos as int, r),
    {
        let c = self.src[self.pos];
        let has_next = self.pos + 1 < self.src.len();
        let n: u8 = if has_next { self.src[self.pos + 1] } else { 0u8 };
        let eq_next = has_next && n == 61u8;
        let gt_next = has_next && n == 62u8;
        let (token, two) = if c == 43u8 {
            if eq_next { (Token::PlusEq, true) } else { (Token::Plus, false) }
        } else if c == 45u8 {
            if gt_next {
                (Token::Arrow, true)
            } else if eq_next {
                (Token::MinusEq, true)
            } else {
                (Token::Minus, false)
            }
        } else if c == 42u8 {
            if eq_next { (Token::StarEq, true) } else { (Token::Star, false) }
        } else if c == 47u8 {
            if eq_next { (Token::SlashEq, true) } else { (Token::Slash, false) }
        } else if c == 37u8 {
            (Token::Percent, false)
        } else if c == 33u8 {
            if eq_next { (Token::NotEq, true) } else { (Token::Bang, false) }
        } else if c == 61u8 {
            if eq_next {
                (Token::Eq, true)
            } else if gt_next {
                (Token::FatArrow, true)
            } else {
                (Token::Assign, false)
            }
        } else if c == 60u8 {
            if eq_next { (Token::LtEq, true) } else { (Token::Lt, false) }
        } else if c == 62u8 {
            if eq_next { (Token::GtEq, true) } else { (Token::Gt, false) }
        } else if c == 124u8 {
            if gt_next { (Token::Pipe, true) } else { (Token::Bar, false) }
        } else if c == 63u8 {
            (Token::Question, false)
        } else if c == 40u8 {
            (Token::LParen, false)
        } else if c == 41u8 {
            (Token::RParen, false)
        } else if c == 123u8 {
            (Token::LBrace, false)
        } else if c == 125u8 {
            (Token::RBrace, false)
        } else if c == 91u8 {
            (Token::LBracket, false)
        } else if c == 93u8 {
            (Token::RBracket, false)
        } else if c == 44u8 {
            (Token::Comma, false)
        } else if c == 58u8 {
            (Token::Colon, false)
        } else if c == 46u8 {
            (Token::Dot, false)
        } else if c == 59u8 {
            (Token::Semi, false)
        } else {
            let mut m = chars_of("意外字符 '");
            m.push(byte_char(c));
            push_lit(&mut m, "'");
            assert(m@ == unexpected_msg(c));
            return Err(LexError { message: string_of(&m), line, col });
        };
        self.advance();
        if two {
            self.advance();
        }
        Ok(SpannedToken { token, line, col })
    }

    /// Reads the token at the current position, which holds a byte that
    /// starts no whitespace or comment.
    fn next_token(&mut self) -> (r: Result<SpannedToken, LexError>)
        requires
            old(self).wf(),
            old(self).pos < old(self).src@.len(),
        ensures
            final(self).wf(),
            final(self).src@ == old(self).src@,
            r is Ok ==> final(self).pos > old(self).pos,
            step_matches(old(self).src@, old(self).pos as int, final(self).pos as int, r),
    {
        let line = self.line;
        let col = self.col;
        let c = self.src[self.pos];
        if is_digit_byte(c) {
            return self.lex_number(line, col);
        }
        if c == 34u8 {
            return self.lex_string(line, col);
        }
        if is_alpha_byte(c) || c == 95u8 {
            return self.lex_ident(line, col);
        }
        self.lex_op(line, col)
    }
}


impl<'a> Lexer<'a> {
    /// All tokens, ending with `Eof`, or the first lexical error.
    pub fn tokenize(self) -> (r: Result<Vec<SpannedToken>, LexError>)
        requires
            self.wf(),
        ensures
            match r {
                Ok(ts) => lex_from(self.source(), self.position()) == Ok::<
                    Seq<(TokenView, int, int)>,
                    (Seq<char>, int, int),
                >(token_views(ts@)),
                Err(e) => lex_from(self.source(), self.position()) == Err::<
                    Seq<(TokenView, int, int)>,
                    (Seq<char>, int, int),
                >(e@),
            },
    {
        let ghost s = self.src@;
        let ghost p0 = self.pos as int;
        let mut lx = self;
        let mut tokens: Vec<SpannedToken> = Vec::new();
        loop
            invariant
                lx.wf(),
                lx.src@ == s,
                s == self.source(),
                p0 == self.position(),
                lex_from(s, p0) == glue(token_views(tokens@), lex_from(s, lx.pos as int)),
            decreases s.len() - lx.pos,
        {
            let ghost before = lx.pos as int;
            lx.skip_whitespace_and_comments();
            proof {
                lemma_skip_bounds(s, before, 0);
            }
            if lx.pos >= lx.src.len() {
                let ghost prev = tokens@;
                let eof = SpannedToken { token: Token::Eof, line: lx.line, col: lx.col };
                tokens.push(eof);
                proof {
                    assert(token_views(tokens@) == token_views(prev) + seq![eof@]);
                    assert(lex_from(s, before) == Ok::<Seq<(TokenView, int, int)>, (Seq<char>, int, int)>(
                        seq![eof@],
                    ));
                }
                return Ok(tokens);
            }
            let ghost q = lx.pos as int;
            match lx.next_token() {
                Ok(tok) => {
                    let ghost prev = tokens@;
                    tokens.push(tok);
                    proof {
                        assert(token_views(tokens@) == token_views(prev) + seq![tok@]);
                        let e = lx.pos as int;
                        match lex_from(s, e) {
                            Ok(rest) => {
                                assert(token_views(prev) + (seq![tok@] + rest) == token_views(tokens@) + rest);
                            },
                            Err(x) => {},
                        }
                    }
                },
                Err(e) => {
                    return Err(e);
                },
            }
        }
    }

    /// All tokens (always ending with `Eof`) and all lexical errors; after an
    /// error the scan resumes one byte past where the bad token started.
    pub fn tokenize_recover(self) -> (r: (Vec<SpannedToken>, Vec<LexError>))
        requires
            self.wf(),
        ensures
            recover_from(self.source(), self.position()) == (token_views(r.0@), error_views(r.1@)),
    {
        let ghost s = self.src@;
        let ghost p0 = self.pos as int;
        let mut lx = self;
        let mut tokens: Vec<SpannedToken> = Vec::new();
        let mut errors: Vec<LexError> = Vec::new();
        loop
            invariant
                lx.wf(),
                lx.src@ == s,
                s == self.source(),
                p0 == self.position(),
                recover_from(s, p0) == (
                    token_views(tokens@) + recover_from(s, lx.pos as int).0,
                    error_views(errors@) + recover_from(s, lx.pos as int).1,
                ),
            decreases s.len() - lx.pos,
        {
            let ghost before = lx.pos as int;
            lx.skip_whitespace_and_comments();
            proof {
                lemma_skip_bounds(s, before, 0);
            }
            if lx.pos >= lx.src.len() {
                let ghost prev = tokens@;
                let eof = SpannedToken { token: Token::Eof, line: lx.line, col: lx.col };
                tokens.push(eof);
                proof {
                    assert(token_views(tokens@) == token_views(prev) + seq![eof@]);
                    assert(error_views(errors@) + Seq::<(Seq<char>, int, int)>::empty() == error_views(errors@));
                }
                return (tokens, errors);
            }
            let saved_pos = lx.pos;
            let saved_line = lx.line;
            let saved_col = lx.col;
            match lx.next_token() {
                Ok(tok) => {
                    let ghost prev = tokens@;
                    tokens.push(tok);
                    proof {
                        assert(token_views(tokens@) == token_views(prev) + seq![tok@]);
                        let r = recover_from(s, lx.pos as int);
                        assert(token_views(prev) + (seq![tok@] + r.0) == token_views(tokens@) + r.0);
                    }
                },
                Err(e) => {
                    let ghost prev = errors@;
                    errors.push(e);
                    lx.pos = saved_pos;
                    lx.line = saved_line;
                    lx.col = saved_col;
                    lx.advance();
                    proof {
                        assert(error_views(errors@) == error_views(prev) + seq![e@]);
                        let r = recover_from(s, lx.pos as int);
                        assert(error_views(prev) + (seq![e@] + r.1) == error_views(errors@) + r.1);
                    }
                },
            }
        }
    }
}

} // verus!

verus! {

/// What a word reads as: each reserved word of the language as its own
/// keyword token, and any other word as an identifier.
pub open spec fn reads_as_word(w: Seq<char>, t: TokenView) -> bool {
    &&& w == "fn"@ ==> t is Fn
    &&& w == "let"@ ==> t is Let
    &&& w == "mut"@ ==> t is Mut
    &&& w == "if"@ ==> t is If
    &&& w == "elif"@ ==> t is Elif
    &&& w == "else"@ ==> t is Else
    &&& w == "while"@ ==> t is While
    &&& w == "for"@ ==> t is For
    &&& w == "in"@ ==> t is In
    &&& w == "return"@ ==> t is Return
    &&& w == "end"@ ==> t is End
    &&& w == "True"@ ==> t is True
    &&& w == "False"@ ==> t is False
    &&& w == "and"@ ==> t is And
    &&& w == "or"@ ==> t is Or
    &&& w == "from"@ ==> t is From
    &&& w == "import"@ ==> t is Import
    &&& w == "as"@ ==> t is As
    &&& w == "match"@ ==> t is Match
    &&& w == "enum"@ ==> t is Enum
    &&& (w != "fn"@ && w != "let"@ && w != "mut"@ && w != "if"@ && w != "elif"@ && w != "else"@
        && w != "while"@ && w != "for"@ && w != "in"@ && w != "return"@ && w != "end"@ && w != "True"@
        && w != "False"@ && w != "and"@ && w != "or"@ && w != "from"@ && w != "import"@ && w != "as"@
        && w != "match"@ && w != "enum"@) ==> t == TokenView::Ident(w)
}

/// A word (a letter or `_`, then letters, digits and `_`) lexes as a whole:
/// the token runs to the word's end and is the word's keyword token when it
/// is a reserved word, and an identifier holding the word otherwise.
pub proof fn lemma_words_lex(s: Seq<u8>, p: int)
    requires
        0 <= p < s.len(),
        is_alpha(s[p]) || s[p] == 95u8,
    ensures
        token_at(s, p) matches Ok((t, e)) && e == ident_end(s, p) && reads_as_word(
            byte_text(s.subrange(p, ident_end(s, p))),
            t,
        ),
{
    assert(!is_digit(s[p]));
    lemma_ident_end(s, p);
    lemma_word_token_reads(byte_text(s.subrange(p, ident_end(s, p))));
}

proof fn lemma_word_token_reads(w: Seq<char>)
    ensures
        reads_as_word(w, word_token(w)),
{
    reveal_strlit("fn");
    reveal_strlit("let");
    reveal_strlit("mut");
    reveal_strlit("if");
    reveal_strlit("elif");
    reveal_strlit("else");
    reveal_strlit("while");
    reveal_strlit("for");
    reveal_strlit("in");
    reveal_strlit("return");
    reveal_strlit("end");
    reveal_strlit("True");
    reveal_strlit("False");
    reveal_strlit("and");
    reveal_strlit("or");
    reveal_strlit("from");
    reveal_strlit("import");
    reveal_strlit("as");
    reveal_strlit("match");
    reveal_strlit("enum");
    if w == "fn"@ {
        assert(w.len() == 2 && w[0] == 'f' && w[1] == 'n');
    } else if w == "let"@ {
        assert(w.len() == 3 && w[0] == 'l' && w[1] == 'e' && w[2] == 't');
    } else if w == "mut"@ {
        assert(w.len() == 3 && w[0] == 'm' && w[1] == 'u' && w[2] == 't');
    } else if w == "if"@ {
        assert(w.len() == 2 && w[0] == 'i' && w[1] == 'f');
    } else if w == "elif"@ {
        assert(w.len() == 4 && w[0] == 'e' && w[1] == 'l' && w[2] == 'i' && w[3] == 'f');
    } else if w == "else"@ {
        assert(w.len() == 4 && w[0] == 'e' && w[1] == 'l' && w[2] == 's' && w[3] == 'e');
    } else if w == "while"@ {
        assert(w.len() == 5 && w[0] == 'w' && w[1] == 'h' && w[2] == 'i' && w[3] == 'l' && w[4] == 'e');
    } else if w == "for"@ {
        assert(w.len() == 3 && w[0] == 'f' && w[1] == 'o' && w[2] == 'r');
    } else if w == "in"@ {
        assert(w.len() == 2 && w[0] == 'i' && w[1] == 'n');
    } else if w == "return"@ {
        assert(w.len() == 6 && w[0] == 'r' && w[1] == 'e' && w[2] == 't' && w[3] == 'u' && w[4] == 'r' && w[5] == 'n');
    } else if w == "end"@ {
        assert(w.len() == 3 && w[0] == 'e' && w[1] == 'n' && w[2] == 'd');
    } else if w == "True"@ {
        assert(w.len() == 4 && w[0] == 'T' && w[1] == 'r' && w[2] == 'u' && w[3] == 'e');
    } else if w == "False"@ {
        assert(w.len() == 5 && w[0] == 'F' && w[1] == 'a' && w[2] == 'l' && w[3] == 's' && w[4] == 'e');
    } else if w == "and"@ {
        assert(w.len() == 3 && w[0] == 'a' && w[1] == 'n' && w[2] == 'd');
    } else if w == "or"@ {
        assert(w.len() == 2 && w[0] == 'o' && w[1] == 'r');
    } else if w == "from"@ {
        assert(w.len() == 4 && w[0] == 'f' && w[1] == 'r' && w[2] == 'o' && w[3] == 'm');
    } else if w == "import"@ {
        assert(w.len() == 6 && w[0] == 'i' && w[1] == 'm' && w[2] == 'p' && w[3] == 'o' && w[4] == 'r' && w[5] == 't');
    } else if w == "as"@ {
        assert(w.len() == 2 && w[0] == 'a' && w[1] == 's');
    } else if w == "match"@ {
        assert(w.len() == 5 && w[0] == 'm' && w[1] == 'a' && w[2] == 't' && w[3] == 'c' && w[4] == 'h');
    } else if w == "enum"@ {
        assert(w.len() == 4 && w[0] == 'e' && w[1] == 'n' && w[2] == 'u' && w[3] == 'm');
    }
}

proof fn lemma_ident_end_all(s: Seq<u8>, p: int)
    requires
        0 <= p <= s.len(),
        forall|k: int| 0 <= k < s.len() ==> is_ident_byte(#[trigger] s[k]),
    ensures
        ident_end(s, p) == s.len(),
    decreases s.len() - p,
{
    if p < s.len() {
        lemma_ident_end_all(s, p + 1);
    }
}

/// A source that is one word alone lexes to that word's token, then `Eof`:
/// a reserved word gives its keyword token, never an identifier.
pub proof fn lemma_word_alone(s: Seq<u8>)
    requires
        s.len() > 0,
        is_alpha(s[0]) || s[0] == 95u8,
        forall|k: int| 0 <= k < s.len() ==> is_ident_byte(#[trigger] s[k]),
    ensures
        lex_from(s, 0) matches Ok(ts) && ts.len() == 2 && reads_as_word(byte_text(s), ts[0].0) && ts[0].1 == 1
            && ts[0].2 == 1 && ts[1].0 is Eof,
{
    lemma_ident_end_all(s, 0);
    lemma_words_lex(s, 0);
    assert(s.subrange(0, s.len() as int) =~= s);
    assert(skip_from(s, 0, 0) == 0);
    assert(skip_from(s, s.len() as int, 0) == s.len());
    let t = token_at(s, 0)->Ok_0.0;
    assert(lex_from(s, s.len() as int) == Ok::<Seq<(TokenView, int, int)>, (Seq<char>, int, int)>(
        seq![spanned(s, TokenView::Eof, s.len() as int)],
    ));
    assert(lex_from(s, 0) == Ok::<Seq<(TokenView, int, int)>, (Seq<char>, int, int)>(
        seq![spanned(s, t, 0)] + seq![spanned(s, TokenView::Eof, s.len() as int)],
    ));
}

} // verus!

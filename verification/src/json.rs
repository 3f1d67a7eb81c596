//! JSON: a parser from text to values and a writer back to text.
use vstd::prelude::*;
use vstd::utf8::{decode_utf8, encode_utf8, valid_utf8};
use crate::text::{flat_map_chars, lemma_flat_map_step, chars_of, string_of, unicode_escape, hex_char, digit_char, repeat_char};

verus! {

/// JSON escape of one character, with the short escapes `\b` and `\f` besides
/// quote, backslash, newline, carriage return and tab; other control characters
/// get a `\u` escape.
pub open spec fn escape_char(c: char) -> Seq<char> {
    if c == '"' { seq!['\\', '"'] }
    else if c == '\\' { seq!['\\', '\\'] }
    else if c == '\n' { seq!['\\', 'n'] }
    else if c == '\r' { seq!['\\', 'r'] }
    else if c == '\t' { seq!['\\', 't'] }
    else if c == '\u{8}' { seq!['\\', 'b'] }
    else if c == '\u{c}' { seq!['\\', 'f'] }
    else if (c as u32) < 0x20 { unicode_escape(c) }
    else { seq![c] }
}

/// JSON escape of a text (without surrounding quotes).
pub open spec fn escaped(s: Seq<char>) -> Seq<char> {
    flat_map_chars(s, |c: char| escape_char(c))
}

fn push_escaped_char(out: &mut Vec<char>, c: char)
    ensures
        final(out)@ == old(out)@ + escape_char(c),
{
    if c == '"' {
        out.push('\\'); out.push('"');
    } else if c == '\\' {
        out.push('\\'); out.push('\\');
    } else if c == '\n' {
        out.push('\\'); out.push('n');
    } else if c == '\r' {
        out.push('\\'); out.push('r');
    } else if c == '\t' {
        out.push('\\'); out.push('t');
    } else if c == '\u{8}' {
        out.push('\\'); out.push('b');
    } else if c == '\u{c}' {
        out.push('\\'); out.push('f');
    } else if (c as u32) < 0x20 {
        let e = crate::text::unicode_escape_chars(c);
        crate::text::push_chars(out, &e);
    } else {
        out.push(c);
    }
    assert(out@ == old(out)@ + escape_char(c));
}

/// Appends the JSON escape of a text.
pub fn push_escaped(out: &mut Vec<char>, s: &[char])
    ensures
        final(out)@ == old(out)@ + escaped(s@),
{
    let mut i: usize = 0;
    while i < s.len()
        invariant
            i <= s@.len(),
            out@ == old(out)@ + escaped(s@.take(i as int)),
        decreases s@.len() - i,
    {
        proof { lemma_flat_map_step(s@, i as int, |c: char| escape_char(c)); }
        push_escaped_char(out, s[i]);
        i += 1;
    }
    assert(s@.take(s@.len() as int) == s@);
}

/// JSON string content escape (without surrounding quotes).
pub fn escape_str(s: &str) -> (r: String)
    ensures
        r@ == escaped(s@),
{
    let c = chars_of(s);
    let mut out: Vec<char> = Vec::new();
    push_escaped(&mut out, &c);
    assert(out@ =~= escaped(s@));
    string_of(&out)
}


// ===== values =====

/// A JSON value. A number with a fraction or an exponent keeps its text: the
/// caller turns it into a float.
#[derive(Debug)]
pub enum JsonValue {
    Null,
    Bool(bool),
    Int(i64),
    Float(String),
    Str(String),
    Array(Vec<JsonValue>),
    Object(Vec<(String, JsonValue)>),
}

pub enum JsonView {
    Null,
    Bool(bool),
    Int(int),
    Float(Seq<char>),
    Str(Seq<char>),
    Array(Seq<JsonView>),
    Object(Seq<(Seq<char>, JsonView)>),
}

/// The value a JSON value stands for.
pub open spec fn json_view(v: JsonValue) -> JsonView
    decreases v,
{
    match v {
        JsonValue::Null => JsonView::Null,
        JsonValue::Bool(b) => JsonView::Bool(b),
        JsonValue::Int(n) => JsonView::Int(n as int),
        JsonValue::Float(t) => JsonView::Float(t@),
        JsonValue::Str(s) => JsonView::Str(s@),
        JsonValue::Array(xs) => {
            proof {
                assert forall|i: int| 0 <= i < xs@.len() implies decreases_to!(v => xs@[i]) by {
                    assert(decreases_to!(v => xs));
                    assert(decreases_to!(xs => xs@));
                    assert(decreases_to!(xs@ => xs@[i]));
                }
            }
            JsonView::Array(Seq::new(xs@.len(), |i: int| if 0 <= i < xs@.len() { json_view(xs@[i]) } else { JsonView::Null }))
        },
        JsonValue::Object(fs) => {
            proof {
                assert forall|i: int| 0 <= i < fs@.len() implies decreases_to!(v => fs@[i].1) by {
                    assert(decreases_to!(v => fs));
                    assert(decreases_to!(fs => fs@));
                    assert(decreases_to!(fs@ => fs@[i]));
                    assert(decreases_to!(fs@[i] => fs@[i].1));
                }
            }
            JsonView::Object(
                Seq::new(
                    fs@.len(),
                    |i: int|
                        if 0 <= i < fs@.len() {
                            (fs@[i].0@, json_view(fs@[i].1))
                        } else {
                            (Seq::empty(), JsonView::Null)
                        },
                ),
            )
        },
    }
}

impl View for JsonValue {
    type V = JsonView;

    open spec fn view(&self) -> JsonView {
        json_view(*self)
    }
}

pub open spec fn items_view(xs: Seq<JsonValue>) -> Seq<JsonView> {
    Seq::new(xs.len(), |i: int| xs[i]@)
}

pub open spec fn fields_view(fs: Seq<(String, JsonValue)>) -> Seq<(Seq<char>, JsonView)> {
    Seq::new(fs.len(), |i: int| (fs[i].0@, fs[i].1@))
}

proof fn lemma_array_view(xs: Vec<JsonValue>)
    ensures
        JsonValue::Array(xs)@ == JsonView::Array(items_view(xs@)),
{
    assert(JsonValue::Array(xs)@->Array_0.len() == xs@.len());
    assert(JsonValue::Array(xs)@->Array_0 =~= items_view(xs@));
}

proof fn lemma_object_view(fs: Vec<(String, JsonValue)>)
    ensures
        JsonValue::Object(fs)@ == JsonView::Object(fields_view(fs@)),
{
    let o = JsonValue::Object(fs);
    assert(o@->Object_0.len() == fs@.len());
    assert(o@->Object_0 =~= fields_view(fs@));
}

/// A JSON parse error: what went wrong, and at which byte offset.
#[derive(Debug)]
pub struct JsonError {
    pub message: String,
    pub pos: usize,
}

impl JsonError {
    /// The error as the text a user sees.
    pub fn describe(&self) -> (r: String)
        ensures
            r@ == "JSON 解析错误 (偏移 "@ + crate::text::dec(self.pos as nat) + "): "@ + self.message@,
    {
        let mut out: Vec<char> = Vec::new();
        crate::text::push_lit(&mut out, "JSON 解析错误 (偏移 ");
        crate::text::push_usize(&mut out, self.pos);
        crate::text::push_lit(&mut out, "): ");
        let m = chars_of(self.message.as_str());
        crate::text::push_chars(&mut out, &m);
        string_of(&out)
    }
}

// ===== the grammar, over the bytes of the text =====

/// What reading gives: a result and the offset after it, or a message and an offset.
pub type Read<T> = Result<(T, int), (Seq<char>, int)>;

pub open spec fn byte_at(b: Seq<u8>, i: int) -> Option<u8> {
    if 0 <= i < b.len() {
        Some(b[i])
    } else {
        None
    }
}

pub open spec fn is_ws_byte(c: u8) -> bool {
    c == 0x20 || c == 0x09 || c == 0x0A || c == 0x0D
}

pub open spec fn is_digit_byte(c: u8) -> bool {
    0x30 <= c <= 0x39
}

/// Offset of the first byte from `i` on that is not white space.
pub open spec fn ws_end(b: Seq<u8>, i: int) -> int
    decreases b.len() - i,
{
    if 0 <= i < b.len() && is_ws_byte(b[i]) {
        ws_end(b, i + 1)
    } else {
        i
    }
}

/// Offset of the first byte from `i` on that is not a digit.
pub open spec fn digits_end(b: Seq<u8>, i: int) -> int
    decreases b.len() - i,
{
    if 0 <= i < b.len() && is_digit_byte(b[i]) {
        digits_end(b, i + 1)
    } else {
        i
    }
}

/// Upper-case hexadecimal digit for `d < 16`.
pub open spec fn hex_upper(d: nat) -> char {
    if d < 10 {
        digit_char(d)
    } else {
        ((d - 10) + 0x41) as char
    }
}

/// Upper-case hexadecimal numeral.
pub open spec fn hex_digits(n: nat) -> Seq<char>
    decreases n,
{
    if n < 16 {
        seq![hex_upper(n)]
    } else {
        hex_digits(n / 16).push(hex_upper(n % 16))
    }
}

/// Upper-case hexadecimal numeral, zero-padded to at least `w` digits.
pub open spec fn hex_pad(n: nat, w: nat) -> Seq<char> {
    let d = hex_digits(n);
    if d.len() < w {
        repeat_char('0', (w - d.len()) as nat) + d
    } else {
        d
    }
}

/// How the byte at `i` is shown in a message.
pub open spec fn shown_byte(b: Seq<u8>, i: int) -> Seq<char> {
    match byte_at(b, i) {
        Some(c) => if 0x21 <= c <= 0x7E {
            seq!['\'', c as char, '\'']
        } else {
            "0x"@ + hex_pad(c as nat, 2)
        },
        None => "EOF"@,
    }
}

pub open spec fn expected_got(what: Seq<char>, b: Seq<u8>, i: int) -> (Seq<char>, int) {
    ("期望 "@ + what + "，得到 '"@ + shown_byte(b, i) + "'"@, i)
}

/// Width of the UTF-8 sequence that a byte of `0x80` or more begins; 0 when it
/// begins none.
pub open spec fn lead_width(c: u8) -> int {
    if 0xC0 <= c <= 0xDF {
        2
    } else if 0xE0 <= c <= 0xEF {
        3
    } else if 0xF0 <= c <= 0xF7 {
        4
    } else {
        0
    }
}

pub open spec fn is_hex_char(c: char) -> bool {
    ('0' <= c <= '9') || ('a' <= c <= 'f') || ('A' <= c <= 'F')
}

pub open spec fn hex_char_value(c: char) -> nat {
    if '0' <= c <= '9' {
        (c as nat - '0' as nat) as nat
    } else if 'a' <= c <= 'f' {
        (c as nat - 'a' as nat + 10) as nat
    } else {
        (c as nat - 'A' as nat + 10) as nat
    }
}

pub open spec fn hex_value(d: Seq<char>) -> nat
    decreases d.len(),
{
    if d.len() == 0 {
        0
    } else {
        hex_value(d.drop_last()) * 16 + hex_char_value(d.last())
    }
}

/// An unsigned number in base 16, read as `u32::from_str_radix(s, 16)` reads
/// it: an optional `+`, then hexadecimal digits, with no overflow.
pub open spec fn radix16(s: Seq<char>) -> Option<nat> {
    if unsigned_digits(s).len() > 0 && (forall|i: int|
        0 <= i < unsigned_digits(s).len() ==> is_hex_char(#[trigger] unsigned_digits(s)[i])) && hex_value(
        unsigned_digits(s),
    ) <= u32::MAX {
        Some(hex_value(unsigned_digits(s)))
    } else {
        None
    }
}

/// The digits of an unsigned numeral, after its `+` sign if it has one.
pub open spec fn unsigned_digits(s: Seq<char>) -> Seq<char> {
    if s.len() > 0 && s[0] == '+' { s.drop_first() } else { s }
}

pub open spec fn is_scalar_value(n: nat) -> bool {
    n <= 0x10FFFF && !(0xD800 <= n <= 0xDFFF)
}

/// The four bytes of a `\u` escape at `i`: their text, or an error.
pub open spec fn hex4_at(
    b: Seq<u8>,
    i: int,
    short: Seq<char>,
    bytes: Seq<char>,
    bad: Seq<char>,
    close: Seq<char>,
) -> Read<nat> {
    if i + 4 > b.len() {
        Err((short, i))
    } else if !valid_utf8(b.subrange(i, i + 4)) {
        Err((bytes, i))
    } else {
        match radix16(decode_utf8(b.subrange(i, i + 4))) {
            Some(v) => Ok((v, i + 4)),
            None => Err((bad + decode_utf8(b.subrange(i, i + 4)) + close, i)),
        }
    }
}

/// The character of a `\u` escape whose digits start at `i` (a high surrogate
/// takes the low one that must follow).
pub open spec fn unicode_at(b: Seq<u8>, i: int) -> Read<char> {
    match hex4_at(b, i, "\\u 转义需要 4 个十六进制数字"@, "\\u 转义包含非 ASCII 字节"@, "无效 \\u 转义 '\\u"@, "'"@) {
        Err(e) => Err(e),
        Ok((cp, j)) => {
            if 0xD800 <= cp <= 0xDBFF {
                if j + 6 > b.len() || b[j] != 0x5C || b[j + 1] != 0x75 {
                    Err(("高代理后缺少低代理 \\uXXXX"@, j))
                } else {
                    match hex4_at(b, j + 2, "低代理 \\u 转义需要 4 个十六进制数字"@, "低代理 \\u 转义包含非 ASCII 字节"@, "无效低代理 \\u"@, ""@) {
                        Err(e) => Err(e),
                        Ok((lo, m)) => {
                            if !(0xDC00 <= lo <= 0xDFFF) {
                                Err(("期望低代理，得到 \\u"@ + hex_pad(lo, 4), m))
                            } else {
                                let comb = (0x10000 + (cp - 0xD800) * 1024 + (lo - 0xDC00)) as nat;
                                if is_scalar_value(comb) {
                                    Ok((comb as char, m))
                                } else {
                                    Err(("无效 Unicode 码点 U+"@ + hex_pad(comb, 6), m))
                                }
                            }
                        },
                    }
                }
            } else if is_scalar_value(cp) {
                Ok((cp as char, j))
            } else {
                Err(("无效 Unicode 码点 U+"@ + hex_pad(cp, 4), j))
            }
        },
    }
}

/// The character a two-character escape `\c` stands for.
pub open spec fn short_escape(c: u8) -> Option<char> {
    if c == 0x22 {
        Some('"')
    } else if c == 0x5C {
        Some('\\')
    } else if c == 0x2F {
        Some('/')
    } else if c == 0x62 {
        Some('\u{8}')
    } else if c == 0x66 {
        Some('\u{c}')
    } else if c == 0x6E {
        Some('\n')
    } else if c == 0x72 {
        Some('\r')
    } else if c == 0x74 {
        Some('\t')
    } else {
        None
    }
}

/// The rest of a string literal from `i` (after its opening quote), with
/// `acc` read so far.
pub open spec fn string_body(b: Seq<u8>, i: int, acc: Seq<char>) -> Read<Seq<char>>
    decreases b.len() - i,
{
    if i < 0 || i >= b.len() {
        Err(("未闭合的字符串"@, i))
    } else if b[i] == 0x22 {
        Ok((acc, i + 1))
    } else if b[i] == 0x5C {
        if i + 1 >= b.len() {
            Err(("转义序列意外结束"@, i + 1))
        } else {
            let esc = b[i + 1];
            match short_escape(esc) {
                Some(c) => string_body(b, i + 2, acc.push(c)),
                None => if esc == 0x75 {
                    match unicode_at(b, i + 2) {
                        Err(e) => Err(e),
                        Ok((c, k)) => if k <= i {
                            Err((Seq::empty(), k))
                        } else {
                            string_body(b, k, acc.push(c))
                        },
                    }
                } else {
                    Err(("无效转义 '\\"@ + seq![esc as char] + "'"@, i + 1))
                },
            }
        }
    } else if b[i] < 0x80 {
        string_body(b, i + 1, acc.push(b[i] as char))
    } else {
        let w = lead_width(b[i]);
        if w == 0 {
            Err(("无效 UTF-8 字节 0x"@ + hex_pad(b[i] as nat, 2), i))
        } else if i + w > b.len() {
            Err(("UTF-8 字符意外结束"@, i))
        } else if !valid_utf8(b.subrange(i, i + w)) {
            Err(("无效 UTF-8 序列"@, i))
        } else {
            string_body(b, i + w, acc + decode_utf8(b.subrange(i, i + w)))
        }
    }
}

/// A string literal at `i`.
pub open spec fn string_at(b: Seq<u8>, i: int) -> Read<Seq<char>> {
    if byte_at(b, i) != Some(0x22u8) {
        Err(expected_got("'\"'"@, b, i))
    } else {
        string_body(b, i + 1, Seq::empty())
    }
}

/// The text of bytes that are all ASCII.
pub open spec fn ascii_text(b: Seq<u8>) -> Seq<char> {
    Seq::new(b.len(), |i: int| b[i] as char)
}

pub open spec fn digits_text_value(d: Seq<char>) -> nat
    decreases d.len(),
{
    if d.len() == 0 {
        0
    } else {
        digits_text_value(d.drop_last()) * 10 + (d.last() as nat - '0' as nat) as nat
    }
}

/// An integer numeral: an optional `-`, then one or more digits.
pub open spec fn int_numeral(t: Seq<char>) -> bool {
    numeral_digits(t).len() > 0 && forall|i: int| 0 <= i < numeral_digits(t).len() ==> '0' <= #[trigger] numeral_digits(t)[i] <= '9'
}

/// The digits of a numeral, after its `-` sign if it has one.
pub open spec fn numeral_digits(t: Seq<char>) -> Seq<char> {
    if t.len() > 0 && t[0] == '-' { t.drop_first() } else { t }
}

/// An integer numeral as `i64` reads it: its value when in range.
pub open spec fn int_value(t: Seq<char>) -> Option<int> {
    let neg = t.len() > 0 && t[0] == '-';
    let mag = digits_text_value(numeral_digits(t));
    let v = if neg { -mag } else { mag as int };
    if i64::MIN <= v <= i64::MAX {
        Some(v)
    } else {
        None
    }
}

/// End of the integer part of a number whose sign (if any) ends at `j`.
pub open spec fn int_part_end(b: Seq<u8>, j: int) -> Option<int> {
    match byte_at(b, j) {
        Some(c) => if c == 0x30 {
            Some(j + 1)
        } else if is_digit_byte(c) {
            Some(digits_end(b, j))
        } else {
            None
        },
        None => None,
    }
}

/// A number at `i`.
pub open spec fn number_at(b: Seq<u8>, i: int) -> Read<JsonView> {
    let j0 = if byte_at(b, i) == Some(0x2Du8) { i + 1 } else { i };
    match int_part_end(b, j0) {
        None => Err(("数字缺少整数部分"@, j0)),
        Some(j1) => {
            let has_frac = byte_at(b, j1) == Some(0x2Eu8);
            let f = digits_end(b, j1 + 1);
            if has_frac && f == j1 + 1 {
                Err(("小数点后缺少数字"@, f))
            } else {
                let j2 = if has_frac { f } else { j1 };
                let has_exp = byte_at(b, j2) == Some(0x65u8) || byte_at(b, j2) == Some(0x45u8);
                let k = if byte_at(b, j2 + 1) == Some(0x2Bu8) || byte_at(b, j2 + 1) == Some(0x2Du8) {
                    j2 + 2
                } else {
                    j2 + 1
                };
                let e = digits_end(b, k);
                if has_exp && e == k {
                    Err(("指数缺少数字"@, e))
                } else {
                    let j3 = if has_exp { e } else { j2 };
                    let text = b.subrange(i, j3);
                    if has_frac || has_exp {
                        Ok((JsonView::Float(ascii_text(text)), j3))
                    } else {
                        match int_value(ascii_text(text)) {
                            Some(n) => Ok((JsonView::Int(n), j3)),
                            None => Err(("无效整数 '"@ + ascii_text(text) + "'（可能溢出 i64）"@, i)),
                        }
                    }
                }
            }
        },
    }
}

pub open spec fn is_word_byte(c: u8) -> bool {
    (0x30 <= c <= 0x39) || (0x41 <= c <= 0x5A) || (0x61 <= c <= 0x7A) || c == 0x5F
}

/// The keyword `kw` stands at `i`, not followed by a letter, digit or `_`.
pub open spec fn keyword_at(b: Seq<u8>, i: int, kw: Seq<u8>) -> bool {
    &&& 0 <= i
    &&& i + kw.len() <= b.len()
    &&& b.subrange(i, i + kw.len()) == kw
    &&& !(i + kw.len() < b.len() && is_word_byte(b[i + kw.len()]))
}

pub open spec fn kw_true() -> Seq<u8> {
    seq![0x74u8, 0x72u8, 0x75u8, 0x65u8]
}

pub open spec fn kw_false() -> Seq<u8> {
    seq![0x66u8, 0x61u8, 0x6Cu8, 0x73u8, 0x65u8]
}

pub open spec fn kw_null() -> Seq<u8> {
    seq![0x6Eu8, 0x75u8, 0x6Cu8, 0x6Cu8]
}

pub open spec fn bool_at(b: Seq<u8>, i: int) -> Read<JsonView> {
    if keyword_at(b, i, kw_true()) {
        Ok((JsonView::Bool(true), i + 4))
    } else if keyword_at(b, i, kw_false()) {
        Ok((JsonView::Bool(false), i + 5))
    } else {
        Err(expected_got("'true' 或 'false'"@, b, i))
    }
}

pub open spec fn null_at(b: Seq<u8>, i: int) -> Read<JsonView> {
    if keyword_at(b, i, kw_null()) {
        Ok((JsonView::Null, i + 4))
    } else {
        Err(expected_got("'null'"@, b, i))
    }
}


/// Skipping white space never goes back, nor past the end.
pub proof fn lemma_ws_end(b: Seq<u8>, i: int)
    ensures
        ws_end(b, i) >= i,
        0 <= i <= b.len() ==> ws_end(b, i) <= b.len(),
    decreases b.len() - i,
{
    if 0 <= i < b.len() && is_ws_byte(b[i]) {
        lemma_ws_end(b, i + 1);
    }
}

/// White space between tokens is exactly the four JSON white-space bytes:
/// from any position the reader passes over spaces, tabs, line feeds and
/// carriage returns and over nothing else, and stops at the first other byte.
pub proof fn lemma_white_space_skipped(b: Seq<u8>, i: int)
    requires
        0 <= i <= b.len(),
    ensures
        i <= ws_end(b, i) <= b.len(),
        forall|k: int|
            i <= k < ws_end(b, i) ==> (b[k] == 0x20u8 || b[k] == 0x09u8 || b[k] == 0x0Au8 || b[k] == 0x0Du8),
        ws_end(b, i) < b.len() ==> !(b[ws_end(b, i)] == 0x20u8 || b[ws_end(b, i)] == 0x09u8 || b[ws_end(b, i)]
            == 0x0Au8 || b[ws_end(b, i)] == 0x0Du8),
    decreases b.len() - i,
{
    if i < b.len() && is_ws_byte(b[i]) {
        lemma_white_space_skipped(b, i + 1);
    }
}

proof fn lemma_unicode_advances(b: Seq<u8>, i: int)
    ensures
        unicode_at(b, i) matches Ok((_, e)) ==> i < e <= b.len(),
{
}

/// Reading a string body moves forward and stays within the bytes.
pub proof fn lemma_string_body_advances(b: Seq<u8>, i: int, acc: Seq<char>)
    requires
        0 <= i,
    ensures
        string_body(b, i, acc) matches Ok((_, e)) ==> i < e <= b.len(),
    decreases b.len() - i,
{
    if i < b.len() && b[i] != 0x22 {
        if b[i] == 0x5C {
            if i + 1 < b.len() {
                match short_escape(b[i + 1]) {
                    Some(c) => lemma_string_body_advances(b, i + 2, acc.push(c)),
                    None => if b[i + 1] == 0x75 {
                        match unicode_at(b, i + 2) {
                            Ok((c, k)) => if k > i {
                                lemma_string_body_advances(b, k, acc.push(c));
                            },
                            Err(_) => {},
                        }
                    },
                }
            }
        } else if b[i] < 0x80 {
            lemma_string_body_advances(b, i + 1, acc.push(b[i] as char));
        } else {
            let w = lead_width(b[i]);
            if w != 0 && i + w <= b.len() && valid_utf8(b.subrange(i, i + w)) {
                lemma_string_body_advances(b, i + w, acc + decode_utf8(b.subrange(i, i + w)));
            }
        }
    }
}

/// Reading a string literal moves forward and stays within the bytes.
pub proof fn lemma_string_at_advances(b: Seq<u8>, i: int)
    ensures
        string_at(b, i) matches Ok((_, e)) ==> i < e <= b.len(),
{
    if byte_at(b, i) == Some(0x22u8) {
        lemma_string_body_advances(b, i + 1, Seq::empty());
    }
}

/// A value at `i`.
pub open spec fn value_at(b: Seq<u8>, i: int) -> Read<JsonView>
    decreases b.len() - i, 1int,
{
    if i < 0 || i >= b.len() {
        Err(("意外的输入结束"@, i))
    } else {
        let c = b[i];
        if c == 0x7B {
            object_at(b, i + 1)
        } else if c == 0x5B {
            array_at(b, i + 1)
        } else if c == 0x22 {
            match string_at(b, i) {
                Ok((t, e)) => Ok((JsonView::Str(t), e)),
                Err(x) => Err(x),
            }
        } else if c == 0x74 || c == 0x66 {
            bool_at(b, i)
        } else if c == 0x6E {
            null_at(b, i)
        } else if c == 0x2D || is_digit_byte(c) {
            number_at(b, i)
        } else {
            Err(("意外字符 '"@ + seq![c as char] + "'"@, i))
        }
    }
}

/// The members of an object from `i` on, with `acc` read so far.
pub open spec fn members_at(b: Seq<u8>, i: int, acc: Seq<(Seq<char>, JsonView)>) -> Read<JsonView>
    decreases b.len() - i, 2int,
{
    let j = ws_end(b, i);
    match string_at(b, j) {
        Err(x) => Err(x),
        Ok((key, k)) => {
            proof {
                lemma_ws_end(b, i);
                lemma_string_at_advances(b, j);
            }
            let k2 = ws_end(b, k);
            if byte_at(b, k2) != Some(0x3Au8) {
                Err(expected_got("':'"@, b, k2))
            } else {
                let k3 = ws_end(b, k2 + 1);
                proof {
                    lemma_ws_end(b, k);
                    lemma_ws_end(b, k2 + 1);
                }
                match value_at(b, k3) {
                    Err(x) => Err(x),
                    Ok((v, m)) => {
                        let acc2 = acc.push((key, v));
                        let m2 = ws_end(b, m);
                        if byte_at(b, m2) == Some(0x2Cu8) {
                            if m2 + 1 <= i {
                                Err((Seq::empty(), m2))
                            } else {
                                members_at(b, m2 + 1, acc2)
                            }
                        } else if byte_at(b, m2) == Some(0x7Du8) {
                            Ok((JsonView::Object(acc2), m2 + 1))
                        } else {
                            Err(expected_got("',' 或 '}'"@, b, m2))
                        }
                    },
                }
            }
        },
    }
}

/// An object whose `{` ends right before `i`.
pub open spec fn object_at(b: Seq<u8>, i: int) -> Read<JsonView>
    decreases b.len() - i, 3int,
{
    let j = ws_end(b, i);
    proof {
        lemma_ws_end(b, i);
    }
    if byte_at(b, j) == Some(0x7Du8) {
        Ok((JsonView::Object(Seq::empty()), j + 1))
    } else {
        members_at(b, j, Seq::empty())
    }
}

/// The elements of an array from `i` on, with `acc` read so far.
pub open spec fn elements_at(b: Seq<u8>, i: int, acc: Seq<JsonView>) -> Read<JsonView>
    decreases b.len() - i, 2int,
{
    let j = ws_end(b, i);
    proof {
        lemma_ws_end(b, i);
    }
    match value_at(b, j) {
        Err(x) => Err(x),
        Ok((v, m)) => {
            let acc2 = acc.push(v);
            let m2 = ws_end(b, m);
            if byte_at(b, m2) == Some(0x2Cu8) {
                if m2 + 1 <= i {
                    Err((Seq::empty(), m2))
                } else {
                    elements_at(b, m2 + 1, acc2)
                }
            } else if byte_at(b, m2) == Some(0x5Du8) {
                Ok((JsonView::Array(acc2), m2 + 1))
            } else {
                Err(expected_got("',' 或 ']'"@, b, m2))
            }
        },
    }
}

/// An array whose `[` ends right before `i`.
pub open spec fn array_at(b: Seq<u8>, i: int) -> Read<JsonView>
    decreases b.len() - i, 3int,
{
    let j = ws_end(b, i);
    proof {
        lemma_ws_end(b, i);
    }
    if byte_at(b, j) == Some(0x5Du8) {
        Ok((JsonView::Array(Seq::empty()), j + 1))
    } else {
        elements_at(b, j, Seq::empty())
    }
}


/// A digit run ends at or after its start, and within the bytes.
pub proof fn lemma_digits_end(b: Seq<u8>, i: int)
    ensures
        digits_end(b, i) >= i,
        0 <= i <= b.len() ==> digits_end(b, i) <= b.len(),
    decreases b.len() - i,
{
    if 0 <= i < b.len() && is_digit_byte(b[i]) {
        lemma_digits_end(b, i + 1);
    }
}

proof fn lemma_number_advances(b: Seq<u8>, i: int)
    requires
        0 <= i < b.len(),
    ensures
        number_at(b, i) matches Ok((_, e)) ==> i < e <= b.len(),
{
    let j0 = if byte_at(b, i) == Some(0x2Du8) { i + 1 } else { i };
    lemma_digits_end(b, j0);
    match int_part_end(b, j0) {
        None => {},
        Some(j1) => {
            lemma_digits_end(b, j1 + 1);
            let has_frac = byte_at(b, j1) == Some(0x2Eu8);
            let j2 = if has_frac { digits_end(b, j1 + 1) } else { j1 };
            let k = if byte_at(b, j2 + 1) == Some(0x2Bu8) || byte_at(b, j2 + 1) == Some(0x2Du8) {
                j2 + 2
            } else {
                j2 + 1
            };
            lemma_digits_end(b, k);
        },
    }
}

proof fn lemma_keyword_advances(b: Seq<u8>, i: int)
    ensures
        bool_at(b, i) matches Ok((_, e)) ==> i < e <= b.len(),
        null_at(b, i) matches Ok((_, e)) ==> i < e <= b.len(),
{
}

#[verifier::rlimit(40)]
pub proof fn lemma_value_advances(b: Seq<u8>, i: int)
    requires
        0 <= i,
    ensures
        value_at(b, i) matches Ok((_, e)) ==> i < e <= b.len(),
    decreases b.len() - i, 1int,
{
    if i < b.len() {
        let c = b[i];
        if c == 0x7B {
            lemma_object_advances(b, i + 1);
        } else if c == 0x5B {
            lemma_array_advances(b, i + 1);
        } else if c == 0x22 {
            lemma_string_at_advances(b, i);
        } else if c == 0x2D || is_digit_byte(c) {
            lemma_number_advances(b, i);
        } else {
            lemma_keyword_advances(b, i);
        }
    }
}

proof fn lemma_members_advances(b: Seq<u8>, i: int, acc: Seq<(Seq<char>, JsonView)>)
    requires
        0 <= i <= b.len(),
    ensures
        members_at(b, i, acc) matches Ok((_, e)) ==> i < e <= b.len(),
    decreases b.len() - i, 2int,
{
    let j = ws_end(b, i);
    lemma_ws_end(b, i);
    lemma_string_at_advances(b, j);
    match string_at(b, j) {
        Err(_) => {},
        Ok((key, k)) => {
            let k2 = ws_end(b, k);
            lemma_ws_end(b, k);
            if byte_at(b, k2) == Some(0x3Au8) {
                let k3 = ws_end(b, k2 + 1);
                lemma_ws_end(b, k2 + 1);
                lemma_value_advances(b, k3);
                match value_at(b, k3) {
                    Err(_) => {},
                    Ok((v, m)) => {
                        let m2 = ws_end(b, m);
                        lemma_ws_end(b, m);
                        if byte_at(b, m2) == Some(0x2Cu8) && m2 + 1 > i {
                            lemma_members_advances(b, m2 + 1, acc.push((key, v)));
                        }
                    },
                }
            }
        },
    }
}

proof fn lemma_object_advances(b: Seq<u8>, i: int)
    requires
        0 <= i <= b.len(),
    ensures
        object_at(b, i) matches Ok((_, e)) ==> i < e <= b.len(),
    decreases b.len() - i, 3int,
{
    lemma_ws_end(b, i);
    let j = ws_end(b, i);
    if byte_at(b, j) != Some(0x7Du8) {
        lemma_members_advances(b, j, Seq::empty());
    }
}

proof fn lemma_elements_advances(b: Seq<u8>, i: int, acc: Seq<JsonView>)
    requires
        0 <= i <= b.len(),
    ensures
        elements_at(b, i, acc) matches Ok((_, e)) ==> i < e <= b.len(),
    decreases b.len() - i, 2int,
{
    let j = ws_end(b, i);
    lemma_ws_end(b, i);
    lemma_value_advances(b, j);
    match value_at(b, j) {
        Err(_) => {},
        Ok((v, m)) => {
            let m2 = ws_end(b, m);
            lemma_ws_end(b, m);
            if byte_at(b, m2) == Some(0x2Cu8) && m2 + 1 > i {
                lemma_elements_advances(b, m2 + 1, acc.push(v));
            }
        },
    }
}

proof fn lemma_array_advances(b: Seq<u8>, i: int)
    requires
        0 <= i <= b.len(),
    ensures
        array_at(b, i) matches Ok((_, e)) ==> i < e <= b.len(),
    decreases b.len() - i, 3int,
{
    lemma_ws_end(b, i);
    let j = ws_end(b, i);
    if byte_at(b, j) != Some(0x5Du8) {
        lemma_elements_advances(b, j, Seq::empty());
    }
}


// ===== reading =====

/// `std::str::from_utf8`: the text of bytes that are valid UTF-8, and nothing
/// for others.
#[verifier::external_body]
fn utf8_text(bytes: &[u8]) -> (r: Option<String>)
    ensures
        r is Some <==> valid_utf8(bytes@),
        r matches Some(t) ==> t@ == decode_utf8(bytes@),
{
    match std::str::from_utf8(bytes) {
        Ok(t) => Some(t.to_string()),
        Err(_) => None,
    }
}

proof fn lemma_hex_prefix(d: Seq<char>, k: int)
    requires
        0 <= k <= d.len(),
    ensures
        hex_value(d.take(k)) <= hex_value(d),
    decreases d.len(),
{
    if k < d.len() {
        lemma_hex_prefix(d.drop_last(), k);
        assert(d.drop_last().take(k) =~= d.take(k));
    } else {
        assert(d.take(k) =~= d);
    }
}

pub proof fn lemma_digits_prefix(d: Seq<char>, k: int)
    requires
        0 <= k <= d.len(),
        forall|i: int| 0 <= i < d.len() ==> '0' <= #[trigger] d[i] <= '9',
    ensures
        digits_text_value(d.take(k)) <= digits_text_value(d),
    decreases d.len(),
{
    if k < d.len() {
        lemma_digits_prefix(d.drop_last(), k);
        assert(d.drop_last().take(k) =~= d.take(k));
    } else {
        assert(d.take(k) =~= d);
    }
}

fn hex_digit(c: char) -> (r: u64)
    requires
        is_hex_char(c),
    ensures
        r == hex_char_value(c),
{
    if '0' <= c && c <= '9' {
        (c as u64) - ('0' as u64)
    } else if 'a' <= c && c <= 'f' {
        (c as u64) - ('a' as u64) + 10
    } else {
        (c as u64) - ('A' as u64) + 10
    }
}

/// The number `u32::from_str_radix(s, 16)` reads: an optional `+`, then
/// hexadecimal digits whose value fits in a `u32`.
fn radix16_value(s: &str) -> (r: Option<u32>)
    ensures
        match radix16(s@) {
            Some(v) => r == Some(v as u32),
            None => r is None,
        },
{
    let cs = crate::text::chars_of(s);
    let start: usize = if cs.len() > 0 && cs[0] == '+' { 1 } else { 0 };
    let ghost d = cs@.subrange(start as int, cs@.len() as int);
    assert(d =~= unsigned_digits(s@));
    if start == cs.len() {
        return None;
    }
    let mut acc: u64 = 0;
    let mut i: usize = start;
    while i < cs.len()
        invariant
            start <= i <= cs@.len(),
            d == cs@.subrange(start as int, cs@.len() as int),
            d == unsigned_digits(s@),
            acc == hex_value(d.take(i - start)),
            acc <= u32::MAX,
            forall|k: int| 0 <= k < i - start ==> is_hex_char(#[trigger] d[k]),
        decreases cs@.len() - i,
    {
        let c = cs[i];
        assert(d[i - start] == c);
        if !(('0' <= c && c <= '9') || ('a' <= c && c <= 'f') || ('A' <= c && c <= 'F')) {
            assert(!is_hex_char(d[i - start]));
            return None;
        }
        assert(d.take(i + 1 - start).drop_last() =~= d.take(i - start));
        assert(d.take(i + 1 - start).last() == c);
        let next = acc * 16 + hex_digit(c);
        assert(next == hex_value(d.take(i + 1 - start)));
        if next > 0xFFFF_FFFFu64 {
            proof {
                lemma_hex_prefix(d, i + 1 - start);
            }
            assert(hex_value(d) > u32::MAX);
            return None;
        }
        acc = next;
        i += 1;
    }
    assert(d.take(d.len() as int) =~= d);
    Some(acc as u32)
}

/// The value of the decimal digits `cs[start..]`, when there is at least one,
/// all are digits, and the value is at most `bound`.
pub(crate) fn decimal_upto(cs: &[char], start: usize, bound: u128) -> (r: Option<u128>)
    requires
        start <= cs@.len(),
        bound <= u64::MAX,
    ensures
        ({
            let d = cs@.subrange(start as int, cs@.len() as int);
            let fits = d.len() > 0 && (forall|i: int| 0 <= i < d.len() ==> '0' <= #[trigger] d[i] <= '9')
                && digits_text_value(d) <= bound;
            match r {
                Some(v) => fits && v == digits_text_value(d),
                None => !fits,
            }
        }),
{
    let ghost d = cs@.subrange(start as int, cs@.len() as int);
    if start == cs.len() {
        return None;
    }
    let mut acc: u128 = 0;
    let mut i: usize = start;
    while i < cs.len()
        invariant
            start <= i <= cs@.len(),
            d == cs@.subrange(start as int, cs@.len() as int),
            bound <= u64::MAX,
            acc == digits_text_value(d.take(i - start)),
            acc <= bound,
            forall|k: int| 0 <= k < i - start ==> '0' <= #[trigger] d[k] <= '9',
        decreases cs@.len() - i,
    {
        let c = cs[i];
        assert(d[i - start] == c);
        if !('0' <= c && c <= '9') {
            assert(!('0' <= d[i - start] <= '9'));
            return None;
        }
        assert(d.take(i + 1 - start).drop_last() =~= d.take(i - start));
        assert(d.take(i + 1 - start).last() == c);
        let next = acc * 10 + ((c as u128) - ('0' as u128));
        assert(next == digits_text_value(d.take(i + 1 - start)));
        if next > bound {
            proof {
                if forall|k: int| 0 <= k < d.len() ==> '0' <= #[trigger] d[k] <= '9' {
                    lemma_digits_prefix(d, i + 1 - start);
                }
            }
            return None;
        }
        acc = next;
        i += 1;
    }
    assert(d.take(d.len() as int) =~= d);
    Some(acc)
}

/// The value `s.parse::<i64>()` gives an integer numeral, when it fits.
fn i64_value(s: &str) -> (r: Option<i64>)
    requires
        int_numeral(s@),
    ensures
        match int_value(s@) {
            Some(v) => r == Some(v as i64),
            None => r is None,
        },
{
    let cs = crate::text::chars_of(s);
    let neg = cs.len() > 0 && cs[0] == '-';
    let start: usize = if neg { 1 } else { 0 };
    let ghost d = cs@.subrange(start as int, cs@.len() as int);
    assert(d =~= numeral_digits(s@));
    match decimal_upto(&cs, start, 0x8000_0000_0000_0000u128) {
        None => {
            assert(digits_text_value(d) > 0x8000_0000_0000_0000);
            None
        },
        Some(m) => {
            if neg {
                if m == 0x8000_0000_0000_0000u128 {
                    Some(i64::MIN)
                } else {
                    Some(-(m as i64))
                }
            } else if m > 0x7FFF_FFFF_FFFF_FFFFu128 {
                None
            } else {
                Some(m as i64)
            }
        },
    }
}

/// `char::from_u32`: the character with that code point, if there is one.
#[verifier::external_body]
fn char_from(v: u32) -> (r: Option<char>)
    ensures
        r is Some <==> is_scalar_value(v as nat),
        r matches Some(c) ==> c == (v as char),
{
    char::from_u32(v)
}

fn err(message: Vec<char>, pos: usize) -> (e: JsonError)
    ensures
        e.message@ == message@,
        e.pos == pos,
{
    JsonError { message: string_of(&message), pos }
}

fn err_lit(message: &str, pos: usize) -> (e: JsonError)
    ensures
        e.message@ == message@,
        e.pos == pos,
{
    JsonError { message: crate::text::owned(message), pos }
}

fn skip_ws(b: &[u8], i: usize) -> (r: usize)
    requires
        i <= b.len(),
    ensures
        r == ws_end(b@, i as int),
        i <= r <= b.len(),
{
    let mut k = i;
    while k < b.len() && (b[k] == 0x20 || b[k] == 0x09 || b[k] == 0x0A || b[k] == 0x0D)
        invariant
            i <= k <= b.len(),
            ws_end(b@, k as int) == ws_end(b@, i as int),
        decreases b.len() - k,
    {
        k += 1;
    }
    k
}

fn skip_digits(b: &[u8], i: usize) -> (r: usize)
    requires
        i <= b.len(),
    ensures
        r == digits_end(b@, i as int),
        i <= r <= b.len(),
{
    let mut k = i;
    while k < b.len() && 0x30 <= b[k] && b[k] <= 0x39
        invariant
            i <= k <= b.len(),
            digits_end(b@, k as int) == digits_end(b@, i as int),
        decreases b.len() - k,
    {
        k += 1;
    }
    k
}

fn hex_upper_of(d: u32) -> (c: char)
    requires
        d < 16,
    ensures
        c == hex_upper(d as nat),
{
    if d < 10 {
        crate::text::digit_of(d as u64)
    } else {
        let c = ((d - 10) + 0x41) as u8;
        c as char
    }
}

fn hex_padded(n: u32, w: usize) -> (r: Vec<char>)
    ensures
        r@ == hex_pad(n as nat, w as nat),
{
    let mut m = n;
    let mut tail: Vec<char> = Vec::new();
    while m >= 16
        invariant
            hex_digits(n as nat) == hex_digits(m as nat) + tail@,
        decreases m,
    {
        let d = hex_upper_of(m % 16);
        let ghost t0 = tail@;
        tail.insert(0, d);
        assert(hex_digits(m as nat) == hex_digits((m / 16) as nat).push(hex_upper((m % 16) as nat)));
        assert(hex_digits((m / 16) as nat).push(d) + t0 == hex_digits((m / 16) as nat) + tail@) by {
            assert(tail@ == seq![d] + t0);
        }
        m = m / 16;
    }
    let mut digits: Vec<char> = Vec::new();
    digits.push(hex_upper_of(m));
    digits.append(&mut tail);
    assert(digits@ == hex_digits(n as nat));
    if digits.len() < w {
        let mut r: Vec<char> = Vec::new();
        let k = w - digits.len();
        let mut i: usize = 0;
        while i < k
            invariant
                i <= k,
                r@ == repeat_char('0', i as nat),
            decreases k - i,
        {
            r.push('0');
            i += 1;
        }
        crate::text::push_chars(&mut r, &digits);
        r
    } else {
        digits
    }
}

fn show_byte(b: &[u8], i: usize) -> (r: Vec<char>)
    ensures
        r@ == shown_byte(b@, i as int),
{
    let mut out: Vec<char> = Vec::new();
    if i < b.len() {
        let c = b[i];
        if 0x21 <= c && c <= 0x7E {
            out.push('\'');
            out.push(c as char);
            out.push('\'');
            assert(out@ =~= seq!['\'', c as char, '\'']);
        } else {
            crate::text::push_lit(&mut out, "0x");
            let mut h = hex_padded(c as u32, 2);
            out.append(&mut h);
        }
    } else {
        crate::text::push_lit(&mut out, "EOF");
    }
    out
}

fn expected(what: &str, b: &[u8], i: usize) -> (e: JsonError)
    ensures
        (e.message@, e.pos as int) == expected_got(what@, b@, i as int),
{
    let mut m: Vec<char> = Vec::new();
    crate::text::push_lit(&mut m, "期望 ");
    crate::text::push_lit(&mut m, what);
    crate::text::push_lit(&mut m, "，得到 '");
    let mut sb = show_byte(b, i);
    m.append(&mut sb);
    crate::text::push_lit(&mut m, "'");
    err(m, i)
}

/// The four bytes of a `\u` escape at `i`.
fn read_hex4(b: &[u8], i: usize, short: &str, bytes: &str, bad: &str, close: &str) -> (r: Result<(u32, usize), JsonError>)
    requires
        i <= b.len(),
    ensures
        match hex4_at(b@, i as int, short@, bytes@, bad@, close@) {
            Ok((v, e)) => r matches Ok((x, f)) && x as nat == v && f as int == e,
            Err((m, p)) => r matches Err(er) && er.message@ == m && er.pos as int == p,
        },
{
    if b.len() - i < 4 {
        return Err(err_lit(short, i));
    }
    let sub = crate::text::slice_bytes(b, i, i + 4);
    match utf8_text(&sub) {
        None => Err(err_lit(bytes, i)),
        Some(t) => match radix16_value(t.as_str()) {
            Some(v) => Ok((v, i + 4)),
            None => {
                let mut m: Vec<char> = Vec::new();
                crate::text::push_lit(&mut m, bad);
                crate::text::push_lit(&mut m, t.as_str());
                crate::text::push_lit(&mut m, close);
                Err(err(m, i))
            },
        },
    }
}


fn code_point_err(prefix: &str, v: u32, w: usize, pos: usize) -> (e: JsonError)
    ensures
        e.message@ == prefix@ + hex_pad(v as nat, w as nat),
        e.pos == pos,
{
    let mut m: Vec<char> = Vec::new();
    crate::text::push_lit(&mut m, prefix);
    let mut h = hex_padded(v, w);
    m.append(&mut h);
    err(m, pos)
}

/// The character of a `\u` escape whose digits start at `i`.
fn read_unicode(b: &[u8], i: usize) -> (r: Result<(char, usize), JsonError>)
    requires
        i <= b.len(),
    ensures
        match unicode_at(b@, i as int) {
            Ok((c, e)) => r matches Ok((x, f)) && x == c && f as int == e,
            Err((m, p)) => r matches Err(er) && er.message@ == m && er.pos as int == p,
        },
{
    let (cp, j) = match read_hex4(b, i, "\\u 转义需要 4 个十六进制数字", "\\u 转义包含非 ASCII 字节", "无效 \\u 转义 '\\u", "'") {
        Ok(x) => x,
        Err(e) => return Err(e),
    };
    if 0xD800 <= cp && cp <= 0xDBFF {
        if b.len() - j < 6 || b[j] != 0x5C || b[j + 1] != 0x75 {
            return Err(err_lit("高代理后缺少低代理 \\uXXXX", j));
        }
        let (lo, m) = match read_hex4(b, j + 2, "低代理 \\u 转义需要 4 个十六进制数字", "低代理 \\u 转义包含非 ASCII 字节", "无效低代理 \\u", "") {
            Ok(x) => x,
            Err(e) => return Err(e),
        };
        if !(0xDC00 <= lo && lo <= 0xDFFF) {
            return Err(code_point_err("期望低代理，得到 \\u", lo, 4, m));
        }
        let comb: u32 = 0x10000 + (cp - 0xD800) * 1024 + (lo - 0xDC00);
        match char_from(comb) {
            Some(c) => Ok((c, m)),
            None => Err(code_point_err("无效 Unicode 码点 U+", comb, 6, m)),
        }
    } else {
        match char_from(cp) {
            Some(c) => Ok((c, j)),
            None => Err(code_point_err("无效 Unicode 码点 U+", cp, 4, j)),
        }
    }
}

fn short_escape_of(c: u8) -> (r: Option<char>)
    ensures
        r == short_escape(c),
{
    if c == 0x22 {
        Some('"')
    } else if c == 0x5C {
        Some('\\')
    } else if c == 0x2F {
        Some('/')
    } else if c == 0x62 {
        Some('\u{8}')
    } else if c == 0x66 {
        Some('\u{c}')
    } else if c == 0x6E {
        Some('\n')
    } else if c == 0x72 {
        Some('\r')
    } else if c == 0x74 {
        Some('\t')
    } else {
        None
    }
}

/// A string literal at `i`.
fn read_string(b: &[u8], i: usize) -> (r: Result<(Vec<char>, usize), JsonError>)
    requires
        i <= b.len(),
    ensures
        match string_at(b@, i as int) {
            Ok((t, e)) => r matches Ok((x, f)) && x@ == t && f as int == e,
            Err((m, p)) => r matches Err(er) && er.message@ == m && er.pos as int == p,
        },
{
    if i >= b.len() || b[i] != 0x22 {
        return Err(expected("'\"'", b, i));
    }
    let mut k = i + 1;
    let mut acc: Vec<char> = Vec::new();
    loop
        invariant
            i < k <= b.len(),
            string_body(b@, k as int, acc@) == string_at(b@, i as int),
        decreases b.len() - k,
    {
        if k >= b.len() {
            return Err(err_lit("未闭合的字符串", k));
        }
        let c = b[k];
        if c == 0x22 {
            return Ok((acc, k + 1));
        } else if c == 0x5C {
            if k + 1 >= b.len() {
                return Err(err_lit("转义序列意外结束", k + 1));
            }
            let esc = b[k + 1];
            match short_escape_of(esc) {
                Some(ch) => {
                    acc.push(ch);
                    k = k + 2;
                },
                None => {
                    if esc == 0x75 {
                        match read_unicode(b, k + 2) {
                            Err(e) => return Err(e),
                            Ok((ch, e)) => {
                                proof {
                                    assert(unicode_at(b@, k + 2) == Ok::<(char, int), (Seq<char>, int)>((ch, e as int)));
                                    lemma_unicode_advances(b@, k + 2);
                                }
                                acc.push(ch);
                                k = e;
                            },
                        }
                    } else {
                        let mut m: Vec<char> = Vec::new();
                        crate::text::push_lit(&mut m, "无效转义 '\\");
                        m.push(esc as char);
                        crate::text::push_lit(&mut m, "'");
                        return Err(err(m, k + 1));
                    }
                },
            }
        } else if c < 0x80 {
            acc.push(c as char);
            k = k + 1;
        } else {
            let w: usize = if 0xC0 <= c && c <= 0xDF {
                2
            } else if 0xE0 <= c && c <= 0xEF {
                3
            } else if 0xF0 <= c && c <= 0xF7 {
                4
            } else {
                0
            };
            if w == 0 {
                let mut m: Vec<char> = Vec::new();
                crate::text::push_lit(&mut m, "无效 UTF-8 字节 0x");
                let mut h = hex_padded(c as u32, 2);
                m.append(&mut h);
                return Err(err(m, k));
            }
            if b.len() - k < w {
                return Err(err_lit("UTF-8 字符意外结束", k));
            }
            let sub = crate::text::slice_bytes(b, k, k + w);
            match utf8_text(&sub) {
                None => return Err(err_lit("无效 UTF-8 序列", k)),
                Some(t) => {
                    crate::text::push_lit(&mut acc, t.as_str());
                    k = k + w;
                },
            }
        }
    }
}


proof fn lemma_digits_run(b: Seq<u8>, i: int)
    requires
        0 <= i,
    ensures
        forall|k: int| i <= k < digits_end(b, i) ==> is_digit_byte(#[trigger] b[k]),
    decreases b.len() - i,
{
    if 0 <= i < b.len() && is_digit_byte(b[i]) {
        lemma_digits_run(b, i + 1);
    }
}

fn ascii_chars(b: &[u8], from: usize, to: usize) -> (r: Vec<char>)
    requires
        from <= to <= b.len(),
    ensures
        r@ == ascii_text(b@.subrange(from as int, to as int)),
{
    let mut r: Vec<char> = Vec::new();
    let mut k = from;
    while k < to
        invariant
            from <= k <= to <= b.len(),
            r@ == ascii_text(b@.subrange(from as int, k as int)),
        decreases to - k,
    {
        r.push(b[k] as char);
        k += 1;
        assert(r@ =~= ascii_text(b@.subrange(from as int, k as int)));
    }
    r
}

proof fn lemma_int_text(b: Seq<u8>, i: int, j0: int, j3: int)
    requires
        0 <= i <= j0 < j3 <= b.len(),
        (b[i] == 0x2D && j0 == i + 1) || (b[i] != 0x2D && j0 == i),
        forall|q: int| j0 <= q < j3 ==> is_digit_byte(#[trigger] b[q]),
    ensures
        int_numeral(ascii_text(b.subrange(i, j3))),
{
    let t = ascii_text(b.subrange(i, j3));
    let d = if t.len() > 0 && t[0] == '-' { t.drop_first() } else { t };
    assert forall|q: int| 0 <= q < d.len() implies '0' <= #[trigger] d[q] <= '9' by {
        if j0 == i + 1 {
            assert(t[0] == '-');
            assert(d[q] == t[q + 1]);
            assert(t[q + 1] == b[i + 1 + q] as char);
            assert(is_digit_byte(b[i + 1 + q]));
        } else {
            assert(t[0] == b[i] as char);
            assert(is_digit_byte(b[i]));
            assert(d[q] == b[i + q] as char);
            assert(is_digit_byte(b[i + q]));
        }
    }
}

/// A number at `i`.
#[verifier::rlimit(40)]
fn read_number(b: &[u8], i: usize) -> (r: Result<(JsonValue, usize), JsonError>)
    requires
        i < b.len(),
    ensures
        match number_at(b@, i as int) {
            Ok((v, e)) => r matches Ok((x, f)) && x@ == v && f as int == e,
            Err((m, p)) => r matches Err(er) && er.message@ == m && er.pos as int == p,
        },
{
    let j0 = if b[i] == 0x2D { i + 1 } else { i };
    let j1 = if j0 < b.len() && b[j0] == 0x30 {
        j0 + 1
    } else if j0 < b.len() && 0x30 <= b[j0] && b[j0] <= 0x39 {
        skip_digits(b, j0)
    } else {
        return Err(err_lit("数字缺少整数部分", j0));
    };
    let has_frac = j1 < b.len() && b[j1] == 0x2E;
    let j2 = if has_frac {
        let f = skip_digits(b, j1 + 1);
        if f == j1 + 1 {
            return Err(err_lit("小数点后缺少数字", f));
        }
        f
    } else {
        j1
    };
    let has_exp = j2 < b.len() && (b[j2] == 0x65 || b[j2] == 0x45);
    let j3 = if has_exp {
        let k = if j2 + 1 < b.len() && (b[j2 + 1] == 0x2B || b[j2 + 1] == 0x2D) {
            j2 + 2
        } else {
            j2 + 1
        };
        let e = skip_digits(b, k);
        if e == k {
            return Err(err_lit("指数缺少数字", e));
        }
        e
    } else {
        j2
    };
    let text = ascii_chars(b, i, j3);
    let t = string_of(&text);
    if has_frac || has_exp {
        Ok((JsonValue::Float(t), j3))
    } else {
        proof {
            lemma_digits_run(b@, j0 as int);
            lemma_digits_end(b@, j0 + 1);
            assert forall|q: int| j0 <= q < j3 implies is_digit_byte(#[trigger] b@[q]) by {
                if b@[j0 as int] != 0x30 {
                    assert(j1 == digits_end(b@, j0 as int));
                }
            }
            lemma_int_text(b@, i as int, j0 as int, j3 as int);
        }
        match i64_value(t.as_str()) {
            Some(n) => Ok((JsonValue::Int(n), j3)),
            None => {
                let mut m: Vec<char> = Vec::new();
                crate::text::push_lit(&mut m, "无效整数 '");
                crate::text::push_chars(&mut m, &text);
                crate::text::push_lit(&mut m, "'（可能溢出 i64）");
                Err(err(m, i))
            },
        }
    }
}

fn keyword(b: &[u8], i: usize, kw: &[u8]) -> (r: bool)
    requires
        i <= b.len(),
    ensures
        r == keyword_at(b@, i as int, kw@),
{
    if b.len() - i < kw.len() {
        return false;
    }
    let mut k: usize = 0;
    while k < kw.len()
        invariant
            k <= kw.len(),
            i + kw.len() <= b.len(),
            forall|q: int| 0 <= q < k ==> b@[i + q] == kw@[q],
        decreases kw.len() - k,
    {
        if b[i + k] != kw[k] {
            assert(b@.subrange(i as int, i + kw.len())[k as int] != kw@[k as int]);
            return false;
        }
        k += 1;
    }
    assert(b@.subrange(i as int, i + kw.len()) =~= kw@);
    let n = i + kw.len();
    if n < b.len() {
        let c = b[n];
        if (0x30 <= c && c <= 0x39) || (0x41 <= c && c <= 0x5A) || (0x61 <= c && c <= 0x7A) || c == 0x5F {
            return false;
        }
    }
    true
}

fn read_bool(b: &[u8], i: usize) -> (r: Result<(JsonValue, usize), JsonError>)
    requires
        i <= b.len(),
    ensures
        match bool_at(b@, i as int) {
            Ok((v, e)) => r matches Ok((x, f)) && x@ == v && f as int == e,
            Err((m, p)) => r matches Err(er) && er.message@ == m && er.pos as int == p,
        },
{
    let t = vec![0x74u8, 0x72u8, 0x75u8, 0x65u8];
    let f = vec![0x66u8, 0x61u8, 0x6Cu8, 0x73u8, 0x65u8];
    assert(t@ =~= kw_true());
    assert(f@ =~= kw_false());
    if keyword(b, i, &t) {
        Ok((JsonValue::Bool(true), i + 4))
    } else if keyword(b, i, &f) {
        Ok((JsonValue::Bool(false), i + 5))
    } else {
        Err(expected("'true' 或 'false'", b, i))
    }
}

fn read_null(b: &[u8], i: usize) -> (r: Result<(JsonValue, usize), JsonError>)
    requires
        i <= b.len(),
    ensures
        match null_at(b@, i as int) {
            Ok((v, e)) => r matches Ok((x, f)) && x@ == v && f as int == e,
            Err((m, p)) => r matches Err(er) && er.message@ == m && er.pos as int == p,
        },
{
    let n = vec![0x6Eu8, 0x75u8, 0x6Cu8, 0x6Cu8];
    assert(n@ =~= kw_null());
    if keyword(b, i, &n) {
        Ok((JsonValue::Null, i + 4))
    } else {
        Err(expected("'null'", b, i))
    }
}


/// A value at `i`.
fn read_value(b: &[u8], i: usize) -> (r: Result<(JsonValue, usize), JsonError>)
    requires
        i <= b.len(),
    ensures
        match value_at(b@, i as int) {
            Ok((v, e)) => r matches Ok((x, f)) && x@ == v && f as int == e,
            Err((m, p)) => r matches Err(er) && er.message@ == m && er.pos as int == p,
        },
    decreases b.len() - i, 1int,
{
    if i >= b.len() {
        return Err(err_lit("意外的输入结束", i));
    }
    let c = b[i];
    if c == 0x7B {
        read_object(b, i + 1)
    } else if c == 0x5B {
        read_array(b, i + 1)
    } else if c == 0x22 {
        match read_string(b, i) {
            Ok((t, e)) => Ok((JsonValue::Str(string_of(&t)), e)),
            Err(x) => Err(x),
        }
    } else if c == 0x74 || c == 0x66 {
        read_bool(b, i)
    } else if c == 0x6E {
        read_null(b, i)
    } else if c == 0x2D || (0x30 <= c && c <= 0x39) {
        read_number(b, i)
    } else {
        let mut m: Vec<char> = Vec::new();
        crate::text::push_lit(&mut m, "意外字符 '");
        m.push(c as char);
        crate::text::push_lit(&mut m, "'");
        Err(err(m, i))
    }
}

/// An object whose `{` ends right before `i`.
fn read_object(b: &[u8], i: usize) -> (r: Result<(JsonValue, usize), JsonError>)
    requires
        i <= b.len(),
    ensures
        match object_at(b@, i as int) {
            Ok((v, e)) => r matches Ok((x, f)) && x@ == v && f as int == e,
            Err((m, p)) => r matches Err(er) && er.message@ == m && er.pos as int == p,
        },
    decreases b.len() - i, 3int,
{
    let j = skip_ws(b, i);
    if j < b.len() && b[j] == 0x7D {
        let none: Vec<(String, JsonValue)> = Vec::new();
        proof {
            lemma_object_view(none);
            assert(fields_view(none@) =~= Seq::<(Seq<char>, JsonView)>::empty());
        }
        return Ok((JsonValue::Object(none), j + 1));
    }
    let mut fields: Vec<(String, JsonValue)> = Vec::new();
    let mut k = j;
    assert(fields_view(fields@) =~= Seq::<(Seq<char>, JsonView)>::empty());
    loop
        invariant
            i <= k <= b.len(),
            members_at(b@, k as int, fields_view(fields@)) == object_at(b@, i as int),
        decreases b.len() - k,
    {
        let k1 = skip_ws(b, k);
        let (key, k2) = match read_string(b, k1) {
            Ok(x) => x,
            Err(e) => return Err(e),
        };
        proof {
            lemma_string_at_advances(b@, k1 as int);
        }
        let k3 = skip_ws(b, k2);
        if !(k3 < b.len() && b[k3] == 0x3A) {
            return Err(expected("':'", b, k3));
        }
        let k4 = skip_ws(b, k3 + 1);
        let (v, m) = match read_value(b, k4) {
            Ok(x) => x,
            Err(e) => return Err(e),
        };
        proof {
            lemma_value_advances(b@, k4 as int);
        }
        let m2 = skip_ws(b, m);
        let ghost before = fields@;
        let ks = string_of(&key);
        fields.push((ks, v));
        proof {
            assert(fields_view(fields@) =~= fields_view(before).push((key@, v@)));
        }
        if m2 < b.len() && b[m2] == 0x2C {
            k = m2 + 1;
        } else if m2 < b.len() && b[m2] == 0x7D {
            proof {
                lemma_object_view(fields);
            }
            return Ok((JsonValue::Object(fields), m2 + 1));
        } else {
            return Err(expected("',' 或 '}'", b, m2));
        }
    }
}

/// An array whose `[` ends right before `i`.
fn read_array(b: &[u8], i: usize) -> (r: Result<(JsonValue, usize), JsonError>)
    requires
        i <= b.len(),
    ensures
        match array_at(b@, i as int) {
            Ok((v, e)) => r matches Ok((x, f)) && x@ == v && f as int == e,
            Err((m, p)) => r matches Err(er) && er.message@ == m && er.pos as int == p,
        },
    decreases b.len() - i, 3int,
{
    let j = skip_ws(b, i);
    if j < b.len() && b[j] == 0x5D {
        let none: Vec<JsonValue> = Vec::new();
        proof {
            lemma_array_view(none);
            assert(items_view(none@) =~= Seq::<JsonView>::empty());
        }
        return Ok((JsonValue::Array(none), j + 1));
    }
    let mut items: Vec<JsonValue> = Vec::new();
    let mut k = j;
    assert(items_view(items@) =~= Seq::<JsonView>::empty());
    loop
        invariant
            i <= k <= b.len(),
            elements_at(b@, k as int, items_view(items@)) == array_at(b@, i as int),
        decreases b.len() - k,
    {
        let k1 = skip_ws(b, k);
        let (v, m) = match read_value(b, k1) {
            Ok(x) => x,
            Err(e) => return Err(e),
        };
        proof {
            lemma_value_advances(b@, k1 as int);
        }
        let m2 = skip_ws(b, m);
        let ghost before = items@;
        items.push(v);
        proof {
            assert(items_view(items@) =~= items_view(before).push(v@));
        }
        if m2 < b.len() && b[m2] == 0x2C {
            k = m2 + 1;
        } else if m2 < b.len() && b[m2] == 0x5D {
            proof {
                lemma_array_view(items);
            }
            return Ok((JsonValue::Array(items), m2 + 1));
        } else {
            return Err(expected("',' 或 ']'", b, m2));
        }
    }
}


// ===== the document =====

pub open spec fn is_cont_byte(c: u8) -> bool {
    0x80 <= c <= 0xBF
}

/// End of the run of continuation bytes from `k`.
pub open spec fn cont_end(w: Seq<u8>, k: int) -> int
    decreases w.len() - k,
{
    if 0 <= k < w.len() && is_cont_byte(w[k]) {
        cont_end(w, k + 1)
    } else {
        k
    }
}

/// Width of the character a byte begins: 1 for ASCII, else its lead width.
pub open spec fn seq_width(c: u8) -> int {
    if c < 0x80 {
        1
    } else {
        lead_width(c)
    }
}

/// End of the whole characters from `k` on.
pub open spec fn whole_end(w: Seq<u8>, k: int) -> int
    decreases w.len() - k,
{
    if k < 0 || k >= w.len() || seq_width(w[k]) == 0 || k + seq_width(w[k]) > w.len() {
        k
    } else {
        whole_end(w, k + seq_width(w[k]))
    }
}

/// A window cut out of UTF-8 text, decoded with U+FFFD for each continuation
/// byte it starts with and one U+FFFD for a character cut off at its end (as
/// `String::from_utf8_lossy` decodes such a window).
pub open spec fn window_text(w: Seq<u8>) -> Seq<char> {
    let lc = cont_end(w, 0);
    let we = whole_end(w, lc);
    let mid = w.subrange(lc, we);
    repeat_char('\u{FFFD}', lc as nat) + (if valid_utf8(mid) {
        decode_utf8(mid)
    } else {
        Seq::empty()
    }) + (if we < w.len() {
        seq!['\u{FFFD}']
    } else {
        Seq::empty()
    })
}

/// The text around offset `k`: ten bytes either side.
pub open spec fn context_at(b: Seq<u8>, k: int) -> Seq<char> {
    let s = if k >= 10 { k - 10 } else { 0 };
    let e = if k + 10 < b.len() { k + 10 } else { b.len() as int };
    window_text(b.subrange(s, e))
}

/// A whole JSON text: one value, with white space around it.
pub open spec fn parse_text(b: Seq<u8>) -> Result<JsonView, (Seq<char>, int)> {
    match value_at(b, ws_end(b, 0)) {
        Err(x) => Err(x),
        Ok((v, m)) => {
            let k = ws_end(b, m);
            if k < b.len() {
                Err(("JSON 值后有多余内容: '"@ + context_at(b, k) + "'"@, k))
            } else {
                Ok(v)
            }
        },
    }
}

fn window_chars(w: &[u8]) -> (r: Vec<char>)
    ensures
        r@ == window_text(w@),
{
    let mut lc: usize = 0;
    while lc < w.len() && 0x80 <= w[lc] && w[lc] <= 0xBF
        invariant
            lc <= w.len(),
            cont_end(w@, lc as int) == cont_end(w@, 0),
        decreases w.len() - lc,
    {
        lc += 1;
    }
    assert(cont_end(w@, lc as int) == lc);
    let mut we: usize = lc;
    loop
        invariant
            lc <= we <= w.len(),
            whole_end(w@, we as int) == whole_end(w@, lc as int),
        ensures
            lc <= we <= w.len(),
            whole_end(w@, lc as int) == we,
        decreases w.len() - we,
    {
        if we >= w.len() {
            break;
        }
        let c = w[we];
        let width: usize = if c < 0x80 {
            1
        } else if 0xC0 <= c && c <= 0xDF {
            2
        } else if 0xE0 <= c && c <= 0xEF {
            3
        } else if 0xF0 <= c && c <= 0xF7 {
            4
        } else {
            0
        };
        if width == 0 || w.len() - we < width {
            break;
        }
        we = we + width;
    }
    let mut out: Vec<char> = Vec::new();
    let mut q: usize = 0;
    while q < lc
        invariant
            q <= lc,
            out@ == repeat_char('\u{FFFD}', q as nat),
        decreases lc - q,
    {
        out.push('\u{FFFD}');
        q += 1;
    }
    let mid = crate::text::slice_bytes(w, lc, we);
    match utf8_text(&mid) {
        Some(t) => crate::text::push_lit(&mut out, t.as_str()),
        None => {},
    }
    if we < w.len() {
        out.push('\u{FFFD}');
    }
    proof {
        let a = repeat_char('\u{FFFD}', lc as nat);
        let m = if valid_utf8(mid@) { decode_utf8(mid@) } else { Seq::<char>::empty() };
        if we < w.len() {
            assert(out@ =~= a + m + seq!['\u{FFFD}']);
        } else {
            assert(out@ =~= a + m + Seq::<char>::empty());
        }
    }
    out
}

/// Parses a JSON text. Objects keep their keys in order; a number with a
/// fraction or an exponent keeps its text.
pub fn parse(src: &str) -> (r: Result<JsonValue, JsonError>)
    ensures
        match parse_text(encode_utf8(src@)) {
            Ok(v) => r matches Ok(x) && x@ == v,
            Err((m, p)) => r matches Err(e) && e.message@ == m && e.pos as int == p,
        },
{
    let b = src.as_bytes();
    let j = skip_ws(b, 0);
    let (v, m) = match read_value(b, j) {
        Ok(x) => x,
        Err(e) => return Err(e),
    };
    proof {
        lemma_value_advances(b@, j as int);
    }
    let k = skip_ws(b, m);
    if k < b.len() {
        let s = if k >= 10 { k - 10 } else { 0 };
        let e = if b.len() - k > 10 { k + 10 } else { b.len() };
        let w = crate::text::slice_bytes(b, s, e);
        let mut msg: Vec<char> = Vec::new();
        crate::text::push_lit(&mut msg, "JSON 值后有多余内容: '");
        let mut ctx = window_chars(&w);
        msg.append(&mut ctx);
        crate::text::push_lit(&mut msg, "'");
        return Err(err(msg, k));
    }
    Ok(v)
}


// ===== writing =====

/// A JSON string literal.
pub open spec fn quoted(s: Seq<char>) -> Seq<char> {
    seq!['"'] + escaped(s) + seq!['"']
}

/// The JSON text of a value: no white space, object keys in order, a float
/// as its text.
pub open spec fn json_text(v: JsonView) -> Seq<char>
    decreases v,
{
    match v {
        JsonView::Null => "null"@,
        JsonView::Bool(x) => if x {
            "true"@
        } else {
            "false"@
        },
        JsonView::Int(n) => crate::text::dec_int(n),
        JsonView::Float(t) => t,
        JsonView::Str(t) => quoted(t),
        JsonView::Array(xs) => seq!['['] + items_text(xs) + seq![']'],
        JsonView::Object(fs) => seq!['{'] + members_text(fs) + seq!['}'],
    }
}

/// The elements of an array, comma-separated.
pub open spec fn items_text(xs: Seq<JsonView>) -> Seq<char>
    decreases xs,
{
    if xs.len() == 0 {
        Seq::empty()
    } else if xs.len() == 1 {
        json_text(xs[0])
    } else {
        items_text(xs.drop_last()) + seq![','] + json_text(xs.last())
    }
}

/// The members of an object, comma-separated.
pub open spec fn members_text(fs: Seq<(Seq<char>, JsonView)>) -> Seq<char>
    decreases fs,
{
    if fs.len() == 0 {
        Seq::empty()
    } else if fs.len() == 1 {
        quoted(fs[0].0) + seq![':'] + json_text(fs[0].1)
    } else {
        members_text(fs.drop_last()) + seq![','] + quoted(fs.last().0) + seq![':'] + json_text(fs.last().1)
    }
}


/// One more element of an array text.
pub proof fn lemma_items_step(xs: Seq<JsonView>, k: int)
    requires
        0 <= k < xs.len(),
    ensures
        items_text(xs.take(k + 1)) == items_text(xs.take(k)) + (if k > 0 {
            seq![',']
        } else {
            Seq::empty()
        }) + json_text(xs[k]),
{
    assert(xs.take(k + 1).drop_last() =~= xs.take(k));
    if k == 0 {
        assert(items_text(xs.take(0)) == Seq::<char>::empty());
        assert(items_text(xs.take(1)) =~= Seq::<char>::empty() + Seq::<char>::empty() + json_text(xs[0]));
    }
}

/// One more member of an object text.
pub proof fn lemma_members_step(fs: Seq<(Seq<char>, JsonView)>, k: int)
    requires
        0 <= k < fs.len(),
    ensures
        members_text(fs.take(k + 1)) == members_text(fs.take(k)) + (if k > 0 {
            seq![',']
        } else {
            Seq::empty()
        }) + quoted(fs[k].0) + seq![':'] + json_text(fs[k].1),
{
    assert(fs.take(k + 1).drop_last() =~= fs.take(k));
    if k == 0 {
        assert(members_text(fs.take(0)) == Seq::<char>::empty());
        assert(members_text(fs.take(1)) =~= Seq::<char>::empty() + Seq::<char>::empty() + quoted(fs[0].0) + seq![':']
            + json_text(fs[0].1));
    }
}

fn push_quoted(out: &mut Vec<char>, s: &String)
    ensures
        final(out)@ == old(out)@ + quoted(s@),
{
    let ghost start = out@;
    out.push('"');
    let c = chars_of(s.as_str());
    push_escaped(out, &c);
    out.push('"');
    assert(out@ =~= start + quoted(s@));
}

fn write_value(v: &JsonValue, out: &mut Vec<char>)
    ensures
        final(out)@ == old(out)@ + json_text(v@),
    decreases v,
{
    let ghost start = out@;
    match v {
        JsonValue::Null => crate::text::push_lit(out, "null"),
        JsonValue::Bool(x) => if *x {
            crate::text::push_lit(out, "true")
        } else {
            crate::text::push_lit(out, "false")
        },
        JsonValue::Int(n) => {
            let mut d = crate::text::dec_i64(*n);
            out.append(&mut d);
        },
        JsonValue::Float(t) => crate::text::push_lit(out, t.as_str()),
        JsonValue::Str(t) => push_quoted(out, t),
        JsonValue::Array(xs) => {
            proof {
                lemma_array_view(*xs);
            }
            let ghost views = items_view(xs@);
            out.push('[');
            let mut k: usize = 0;
            while k < xs.len()
                invariant
                    k <= xs.len(),
                    views == items_view(xs@),
                    *v == JsonValue::Array(*xs),
                    out@ == start + seq!['['] + items_text(views.take(k as int)),
                decreases xs.len() - k,
            {
                proof {
                    lemma_items_step(views, k as int);
                    assert(decreases_to!(v => xs@[k as int])) by {
                        assert(*v == JsonValue::Array(*xs));
                        assert(decreases_to!(*v => (*v)->Array_0));
                        assert(decreases_to!(v => *xs));
                        assert(decreases_to!(*xs => xs@));
                        assert(decreases_to!(xs@ => xs@[k as int]));
                    }
                }
                if k > 0 {
                    out.push(',');
                }
                write_value(&xs[k], out);
                k += 1;
            }
            out.push(']');
            assert(views.take(xs.len() as int) =~= views);
        },
        JsonValue::Object(fs) => {
            proof {
                lemma_object_view(*fs);
            }
            let ghost views = fields_view(fs@);
            out.push('{');
            let mut k: usize = 0;
            while k < fs.len()
                invariant
                    k <= fs.len(),
                    views == fields_view(fs@),
                    *v == JsonValue::Object(*fs),
                    out@ == start + seq!['{'] + members_text(views.take(k as int)),
                decreases fs.len() - k,
            {
                proof {
                    lemma_members_step(views, k as int);
                    assert(decreases_to!(v => fs@[k as int].1)) by {
                        assert(*v == JsonValue::Object(*fs));
                        assert(decreases_to!(*v => (*v)->Object_0));
                        assert(decreases_to!(v => *fs));
                        assert(decreases_to!(*fs => fs@));
                        assert(decreases_to!(fs@ => fs@[k as int]));
                        assert(decreases_to!(fs@[k as int] => fs@[k as int].1));
                    }
                }
                if k > 0 {
                    out.push(',');
                }
                push_quoted(out, &fs[k].0);
                out.push(':');
                write_value(&fs[k].1, out);
                k += 1;
            }
            out.push('}');
            assert(views.take(fs.len() as int) =~= views);
        },
    }
}

/// Writes a value as JSON text.
pub fn stringify(v: &JsonValue) -> (r: String)
    ensures
        r@ == json_text(v@),
{
    let mut out: Vec<char> = Vec::new();
    write_value(v, &mut out);
    assert(out@ =~= json_text(v@));
    string_of(&out)
}

} // verus!

//! Reading back what is written: the JSON text of a value parses as the value.
use vstd::prelude::*;
use vstd::utf8::{
    decode_utf8, encode_scalar, encode_utf8, encode_utf8_decode_utf8, encode_utf8_valid_utf8, valid_utf8,
};
use crate::json::{
    array_at, ascii_text, byte_at, digits_end, digits_text_value, elements_at, escape_char, escaped, hex_char_value,
    hex_value, int_part_end, int_value, is_digit_byte, is_hex_char, items_text, json_text, kw_false, kw_null, kw_true,
    lead_width, lemma_items_step, lemma_members_step, members_at, members_text, number_at, object_at, parse_text,
    quoted, radix16, string_at, string_body, unicode_at, value_at, ws_end, JsonValue, JsonView,
};

verus! {

// ===== UTF-8 of what the writer produces =====

pub(crate) proof fn lemma_encode_concat(x: Seq<char>, y: Seq<char>)
    ensures
        encode_utf8(x + y) == encode_utf8(x) + encode_utf8(y),
    decreases x.len(),
{
    if x.len() == 0 {
        assert(x + y =~= y);
        assert(encode_utf8(x) =~= Seq::<u8>::empty());
        assert(encode_utf8(x) + encode_utf8(y) =~= encode_utf8(y));
    } else {
        assert((x + y).drop_first() =~= x.drop_first() + y);
        assert((x + y)[0] == x[0]);
        lemma_encode_concat(x.drop_first(), y);
        assert(encode_utf8(x + y) =~= encode_scalar(x[0] as u32) + encode_utf8(x.drop_first() + y));
    }
}

pub open spec fn ascii_chars(t: Seq<char>) -> bool {
    forall|k: int| 0 <= k < t.len() ==> (#[trigger] t[k] as u32) < 0x80
}

proof fn lemma_low_byte(x: u32)
    requires
        x < 0x80,
    ensures
        (x & 0x7F) as u8 == x as u8,
        (x as u8) as u32 == x,
{
    assert((x & 0x7F) as u8 == x as u8) by (bit_vector)
        requires
            x < 0x80,
    ;
    assert((x as u8) as u32 == x) by (bit_vector)
        requires
            x < 0x80,
    ;
}

pub(crate) proof fn lemma_encode_ascii(t: Seq<char>)
    requires
        ascii_chars(t),
    ensures
        encode_utf8(t).len() == t.len(),
        forall|k: int| 0 <= k < t.len() ==> #[trigger] encode_utf8(t)[k] == (t[k] as u32) as u8,
    decreases t.len(),
{
    if t.len() > 0 {
        assert(ascii_chars(t.drop_first())) by {
            assert forall|k: int| 0 <= k < t.drop_first().len() implies (#[trigger] t.drop_first()[k] as u32) < 0x80 by {
                assert(t.drop_first()[k] == t[k + 1]);
            }
        }
        lemma_encode_ascii(t.drop_first());
        let x = t[0] as u32;
        assert(x < 0x80);
        lemma_low_byte(x);
        assert(encode_scalar(x) == seq![x as u8]);
        assert forall|k: int| 0 <= k < t.len() implies #[trigger] encode_utf8(t)[k] == (t[k] as u32) as u8 by {
            if k > 0 {
                assert(encode_utf8(t)[k] == encode_utf8(t.drop_first())[k - 1]);
                assert(t.drop_first()[k - 1] == t[k]);
            }
        }
    }
}


proof fn lemma_lead_bytes(u: u32)
    ensures
        0x80 <= u <= 0x7FF ==> 0xC0 <= (0xC0 | ((u >> 6) & 0x1F) as u8) <= 0xDF,
        0x800 <= u <= 0xFFFF ==> 0xE0 <= (0xE0 | ((u >> 12) & 0x0F) as u8) <= 0xEF,
        0x10000 <= u <= 0x10FFFF ==> 0xF0 <= (0xF0 | ((u >> 18) & 0x7) as u8) <= 0xF7,
{
    assert(0x80 <= u <= 0x7FF ==> 0xC0 <= (0xC0 | ((u >> 6) & 0x1F) as u8) <= 0xDF) by (bit_vector);
    assert(0x800 <= u <= 0xFFFF ==> 0xE0 <= (0xE0 | ((u >> 12) & 0x0F) as u8) <= 0xEF) by (bit_vector);
    assert(0x10000 <= u <= 0x10FFFF ==> 0xF0 <= (0xF0 | ((u >> 18) & 0x7) as u8) <= 0xF7) by (bit_vector);
}

/// The UTF-8 of one character outside ASCII: a lead byte that announces its
/// width, and bytes that decode back to the character.
proof fn lemma_encode_wide(c: char)
    requires
        (c as u32) >= 0x80,
    ensures
        encode_utf8(seq![c]) == encode_scalar(c as u32),
        2 <= encode_scalar(c as u32).len() <= 4,
        encode_scalar(c as u32)[0] >= 0x80,
        lead_width(encode_scalar(c as u32)[0]) == encode_scalar(c as u32).len(),
        valid_utf8(encode_scalar(c as u32)),
        decode_utf8(encode_scalar(c as u32)) == seq![c],
{
    let u = c as u32;
    vstd::utf8::char_is_scalar(c);
    lemma_lead_bytes(u);
    assert(seq![c].drop_first() =~= Seq::<char>::empty());
    assert(encode_utf8(seq![c]) =~= encode_scalar(u) + encode_utf8(Seq::<char>::empty()));
    assert(encode_utf8(Seq::<char>::empty()) =~= Seq::<u8>::empty());
    assert(encode_utf8(seq![c]) =~= encode_scalar(u));
    encode_utf8_valid_utf8(seq![c]);
    encode_utf8_decode_utf8(seq![c]);
}

proof fn lemma_hex_char(d: nat)
    requires
        d < 16,
    ensures
        is_hex_char(crate::text::hex_char(d)),
        hex_char_value(crate::text::hex_char(d)) == d,
        (crate::text::hex_char(d) as u32) < 0x80,
{
}

/// One character of a string's text reads back: after its escape, the reading
/// has taken in exactly that character.
proof fn lemma_escape_step(b: Seq<u8>, i: int, c: char, acc: Seq<char>)
    requires
        0 <= i,
        i + encode_utf8(escape_char(c)).len() <= b.len(),
        b.subrange(i, i + encode_utf8(escape_char(c)).len()) == encode_utf8(escape_char(c)),
    ensures
        encode_utf8(escape_char(c)).len() > 0,
        string_body(b, i, acc) == string_body(b, i + encode_utf8(escape_char(c)).len(), acc.push(c)),
{
    let e = escape_char(c);
    let u = c as u32;
    let n = encode_utf8(e).len() as int;
    if c == '"' || c == '\\' || c == '\n' || c == '\r' || c == '\t' || c == '\u{8}' || c == '\u{c}' {
        assert(ascii_chars(e));
        lemma_encode_ascii(e);
        assert(b[i] == b.subrange(i, i + n)[0]);
        assert(b[i + 1] == b.subrange(i, i + n)[1]);
        assert(b[i] == 0x5C);
        assert(n == 2);
    } else if u < 0x20 {
        let h1 = crate::text::hex_char((u / 16) as nat);
        let h2 = crate::text::hex_char((u % 16) as nat);
        lemma_hex_char((u / 16) as nat);
        lemma_hex_char((u % 16) as nat);
        assert(e == crate::text::unicode_escape(c));
        assert(e =~= seq!['\\', 'u', '0', '0', h1, h2]);
        assert(ascii_chars(e));
        lemma_encode_ascii(e);
        assert(n == 6);
        assert forall|q: int| 0 <= q < 6 implies b[i + q] == (e[q] as u32) as u8 by {
            assert(b[i + q] == b.subrange(i, i + n)[q]);
        }
        let digits = seq!['0', '0', h1, h2];
        assert(ascii_chars(digits));
        lemma_encode_ascii(digits);
        assert(b.subrange(i + 2, i + 6) =~= encode_utf8(digits)) by {
            assert forall|q: int| 0 <= q < 4 implies b.subrange(i + 2, i + 6)[q] == encode_utf8(digits)[q] by {
                assert(digits[q] == e[q + 2]);
            }
        }
        encode_utf8_valid_utf8(digits);
        encode_utf8_decode_utf8(digits);
        assert(digits.drop_last() =~= seq!['0', '0', h1]);
        assert(digits.drop_last().drop_last() =~= seq!['0', '0']);
        assert(seq!['0', '0'].drop_last() =~= seq!['0']);
        assert(seq!['0'].drop_last() =~= Seq::<char>::empty());
        assert(hex_value(Seq::<char>::empty()) == 0);
        assert(hex_value(seq!['0']) == 0);
        assert(hex_value(seq!['0', '0']) == 0);
        assert(hex_value(seq!['0', '0', h1]) == (u / 16) as nat);
        assert(hex_value(digits) == u);
        assert forall|q: int| 0 <= q < digits.len() implies is_hex_char(#[trigger] digits[q]) by {}
        assert(radix16(digits) == Some(u as nat));
        vstd::utf8::char_u32_cast(c, u);
        assert(unicode_at(b, i + 2) == Ok::<(char, int), (Seq<char>, int)>((c, i + 6)));
    } else if u < 0x80 {
        assert(e == seq![c]);
        assert(ascii_chars(e));
        lemma_encode_ascii(e);
        assert(b[i] == b.subrange(i, i + n)[0]);
        lemma_low_byte(u);
        vstd::utf8::char_u32_cast(c, u);
        assert(b[i] as char == c);
    } else {
        assert(e == seq![c]);
        lemma_encode_wide(c);
        assert(b.subrange(i, i + n) == encode_scalar(u));
        assert(b[i] == b.subrange(i, i + n)[0]);
        assert(acc + seq![c] =~= acc.push(c));
    }
}


proof fn lemma_string_body_text(b: Seq<u8>, i: int, s: Seq<char>, acc: Seq<char>)
    requires
        0 <= i,
        i + encode_utf8(escaped(s)).len() < b.len(),
        b.subrange(i, i + encode_utf8(escaped(s)).len()) == encode_utf8(escaped(s)),
        b[i + encode_utf8(escaped(s)).len()] == 0x22,
    ensures
        string_body(b, i, acc) == Ok::<(Seq<char>, int), (Seq<char>, int)>(
            (acc + s, i + encode_utf8(escaped(s)).len() + 1),
        ),
    decreases s.len(),
{
    if s.len() == 0 {
        assert(escaped(s) =~= Seq::<char>::empty());
        assert(encode_utf8(Seq::<char>::empty()) =~= Seq::<u8>::empty());
        assert(acc + s =~= acc);
    } else {
        let c = s[0];
        let rest = s.drop_first();
        crate::history_proof::lemma_flat_front(s, |x: char| escape_char(x));
        assert(escaped(s) == escape_char(c) + escaped(rest));
        lemma_encode_concat(escape_char(c), escaped(rest));
        let e0 = encode_utf8(escape_char(c));
        let er = encode_utf8(escaped(rest));
        assert(encode_utf8(escaped(s)) == e0 + er);
        assert(b.subrange(i, i + e0.len()) =~= e0) by {
            assert forall|q: int| 0 <= q < e0.len() implies b.subrange(i, i + e0.len())[q] == e0[q] by {
                assert(b.subrange(i, i + e0.len() + er.len())[q] == (e0 + er)[q]);
            }
        }
        lemma_escape_step(b, i, c, acc);
        let j = i + e0.len();
        assert(b.subrange(j, j + er.len()) =~= er) by {
            assert forall|q: int| 0 <= q < er.len() implies b.subrange(j, j + er.len())[q] == er[q] by {
                assert(b.subrange(i, i + e0.len() + er.len())[e0.len() + q] == (e0 + er)[e0.len() + q]);
            }
        }
        lemma_string_body_text(b, j, rest, acc.push(c));
        assert(acc.push(c) + rest =~= acc + s);
    }
}

/// A string literal reads back as its text.
pub(crate) proof fn lemma_string_literal(b: Seq<u8>, i: int, s: Seq<char>)
    requires
        0 <= i,
        i + encode_utf8(quoted(s)).len() <= b.len(),
        b.subrange(i, i + encode_utf8(quoted(s)).len()) == encode_utf8(quoted(s)),
    ensures
        string_at(b, i) == Ok::<(Seq<char>, int), (Seq<char>, int)>((s, i + encode_utf8(quoted(s)).len())),
        encode_utf8(quoted(s))[0] == 0x22,
{
    let t = encode_utf8(escaped(s));
    let q = seq!['"'];
    lemma_encode_ascii(q);
    lemma_encode_concat(q, escaped(s));
    lemma_encode_concat(q + escaped(s), q);
    let all = encode_utf8(quoted(s));
    assert(all == encode_utf8(q) + t + encode_utf8(q));
    assert(encode_utf8(q) =~= seq![0x22u8]);
    let n = all.len() as int;
    assert(b[i] == b.subrange(i, i + n)[0]);
    assert(b.subrange(i + 1, i + 1 + t.len()) =~= t) by {
        assert forall|k: int| 0 <= k < t.len() implies b.subrange(i + 1, i + 1 + t.len())[k] == t[k] by {
            assert(b.subrange(i, i + n)[1 + k] == all[1 + k]);
        }
    }
    assert(b[i + 1 + t.len()] == b.subrange(i, i + n)[1 + t.len() as int]);
    lemma_string_body_text(b, i + 1, s, Seq::empty());
    assert(Seq::<char>::empty() + s =~= s);
}


// ===== numbers =====

/// The bytes `d` are a JSON number with a fraction or an exponent: an
/// optional `-`, `0` or digits not starting with `0`, then `.` and digits,
/// and/or `e` or `E`, an optional sign and digits.
pub open spec fn float_bytes(d: Seq<u8>) -> bool {
    let j0 = if byte_at(d, 0) == Some(0x2Du8) { 1int } else { 0int };
    match int_part_end(d, j0) {
        None => false,
        Some(j1) => {
            let has_frac = byte_at(d, j1) == Some(0x2Eu8);
            let f = digits_end(d, j1 + 1);
            let j2 = if has_frac { f } else { j1 };
            let has_exp = byte_at(d, j2) == Some(0x65u8) || byte_at(d, j2) == Some(0x45u8);
            let k = if byte_at(d, j2 + 1) == Some(0x2Bu8) || byte_at(d, j2 + 1) == Some(0x2Du8) {
                j2 + 2
            } else {
                j2 + 1
            };
            let e = digits_end(d, k);
            let j3 = if has_exp { e } else { j2 };
            &&& !(has_frac && f == j1 + 1)
            &&& !(has_exp && e == k)
            &&& (has_frac || has_exp)
            &&& j3 == d.len()
        },
    }
}

/// A float's text as the writer can put it down: ASCII, a JSON number with a
/// fraction or an exponent.
pub open spec fn float_text(t: Seq<char>) -> bool {
    ascii_chars(t) && float_bytes(encode_utf8(t))
}

/// After a value's text: the end, a comma, a closing bracket or brace, or
/// white space.
pub open spec fn ends_value(b: Seq<u8>, p: int) -> bool {
    p == b.len() || (0 <= p < b.len() && (b[p] == 0x2C || b[p] == 0x5D || b[p] == 0x7D || crate::json::is_ws_byte(b[p])))
}

proof fn lemma_digits_shift(b: Seq<u8>, i: int, d: Seq<u8>, x: int)
    requires
        0 <= i,
        i + d.len() <= b.len(),
        b.subrange(i, i + d.len()) == d,
        ends_value(b, i + d.len()),
        0 <= x <= d.len(),
    ensures
        digits_end(b, i + x) == i + digits_end(d, x),
    decreases d.len() - x,
{
    if x < d.len() {
        assert(b[i + x] == d[x]);
        if is_digit_byte(d[x]) {
            lemma_digits_shift(b, i, d, x + 1);
        }
    }
}

proof fn lemma_dec_first(m: nat)
    requires
        m > 0,
    ensures
        crate::text::dec(m)[0] != '0',
    decreases m,
{
    if m >= 10 {
        lemma_dec_first(m / 10);
        crate::history_proof::lemma_dec_digits(m / 10);
        assert(crate::text::dec(m)[0] == crate::text::dec(m / 10)[0]);
    }
}

proof fn lemma_digit_char_value(x: nat)
    requires
        x < 10,
    ensures
        '0' <= crate::text::digit_char(x) <= '9',
        (crate::text::digit_char(x) as nat - '0' as nat) == x,
{
}

proof fn lemma_dec_value(m: nat)
    ensures
        digits_text_value(crate::text::dec(m)) == m,
        ascii_chars(crate::text::dec(m)),
        forall|k: int| 0 <= k < crate::text::dec(m).len() ==> '0' <= #[trigger] crate::text::dec(m)[k] <= '9',
        crate::text::dec(m).len() >= 1,
    decreases m,
{
    let d = crate::text::dec(m);
    lemma_digit_char_value(m % 10);
    if m < 10 {
        assert(d.drop_last() =~= Seq::<char>::empty());
        assert(d.last() == crate::text::digit_char(m));
        assert(digits_text_value(d) == digits_text_value(d.drop_last()) * 10 + (d.last() as nat - '0' as nat));
        assert(digits_text_value(Seq::<char>::empty()) == 0);
    } else {
        lemma_dec_value(m / 10);
        assert(d.last() == crate::text::digit_char(m % 10));
        assert(digits_text_value(d) == digits_text_value(d.drop_last()) * 10 + (d.last() as nat - '0' as nat));
        assert(m == (m / 10) * 10 + m % 10);
        assert(d.drop_last() =~= crate::text::dec(m / 10));
        assert forall|k: int| 0 <= k < d.len() implies '0' <= #[trigger] d[k] <= '9' by {
            if k < d.len() - 1 {
                assert(d[k] == crate::text::dec(m / 10)[k]);
            }
        }
    }
    assert forall|k: int| 0 <= k < d.len() implies (#[trigger] d[k] as u32) < 0x80 by {
        assert('0' <= d[k] <= '9');
    }
}

/// An integer written out reads back as itself.
proof fn lemma_int_at(b: Seq<u8>, i: int, n: int)
    requires
        0 <= i,
        i64::MIN <= n <= i64::MAX,
        i + encode_utf8(crate::text::dec_int(n)).len() <= b.len(),
        b.subrange(i, i + encode_utf8(crate::text::dec_int(n)).len()) == encode_utf8(crate::text::dec_int(n)),
        ends_value(b, i + encode_utf8(crate::text::dec_int(n)).len()),
    ensures
        number_at(b, i) == Ok::<(JsonView, int), (Seq<char>, int)>(
            (JsonView::Int(n), i + encode_utf8(crate::text::dec_int(n)).len()),
        ),
{
    let t = crate::text::dec_int(n);
    let m: nat = if n < 0 { (-n) as nat } else { n as nat };
    let dm = crate::text::dec(m);
    lemma_dec_value(m);
    let neg = n < 0;
    let j0t: int = if neg { 1 } else { 0 };
    assert(t == (if neg { seq!['-'] + dm } else { dm }));
    assert(forall|k: int| 0 <= k < dm.len() ==> #[trigger] t[j0t + k] == dm[k]);
    assert(ascii_chars(t)) by {
        assert forall|k: int| 0 <= k < t.len() implies (#[trigger] t[k] as u32) < 0x80 by {
            if k >= j0t {
                assert(t[k] == dm[k - j0t]);
            }
        }
    }
    lemma_encode_ascii(t);
    let l = t.len() as int;
    assert(forall|k: int| 0 <= k < l ==> b[i + k] == (#[trigger] t[k] as u32) as u8) by {
        assert forall|k: int| 0 <= k < l implies b[i + k] == (#[trigger] t[k] as u32) as u8 by {
            assert(b[i + k] == b.subrange(i, i + l)[k]);
        }
    }
    let j0 = i + j0t;
    assert(byte_at(b, i) == Some(0x2Du8) <==> neg) by {
        assert(b[i + 0] == (t[0] as u32) as u8);
        if !neg {
            assert(t[0] == dm[0]);
        }
    }
    // the digits
    assert forall|k: int| j0 <= k < i + l implies is_digit_byte(#[trigger] b[k]) by {
        assert(b[i + (k - i)] == (t[k - i] as u32) as u8);
        assert(t[k - i] == dm[k - i - j0t]);
    }
    lemma_digit_span(b, j0, i + l);
    if m == 0 {
        assert(dm == seq!['0']);
        assert(b[j0] == 0x30);
    } else {
        lemma_dec_first(m);
        assert(b[j0] == (t[j0t] as u32) as u8);
        assert(b[j0] != 0x30);
    }
    assert(int_part_end(b, j0) == Some(i + l));
    let text = b.subrange(i, i + l);
    assert(ascii_text(text) =~= t) by {
        assert forall|k: int| 0 <= k < l implies ascii_text(text)[k] == t[k] by {
            assert(text[k] == b[i + k]);
            lemma_low_byte(t[k] as u32);
            vstd::utf8::char_u32_cast(t[k], t[k] as u32);
        }
    }
    if neg {
        assert(t.drop_first() =~= dm);
    }
    assert(int_value(t) == Some(n));
}

proof fn lemma_digit_span(b: Seq<u8>, j: int, e: int)
    requires
        0 <= j <= e,
        ends_value(b, e),
        forall|k: int| j <= k < e ==> is_digit_byte(#[trigger] b[k]),
    ensures
        digits_end(b, j) == e,
    decreases e - j,
{
    if j < e {
        lemma_digit_span(b, j + 1, e);
    }
}

/// A float's text written out reads back as itself.
proof fn lemma_float_at(b: Seq<u8>, i: int, t: Seq<char>)
    requires
        0 <= i,
        float_text(t),
        i + encode_utf8(t).len() <= b.len(),
        b.subrange(i, i + encode_utf8(t).len()) == encode_utf8(t),
        ends_value(b, i + encode_utf8(t).len()),
    ensures
        number_at(b, i) == Ok::<(JsonView, int), (Seq<char>, int)>((JsonView::Float(t), i + encode_utf8(t).len())),
{
    let d = encode_utf8(t);
    lemma_encode_ascii(t);
    let l = d.len() as int;
    assert forall|x: int| 0 <= x < l implies byte_at(b, i + x) == #[trigger] byte_at(d, x) by {
        assert(b[i + x] == b.subrange(i, i + l)[x]);
    }
    // the integer part
    let j0d = if byte_at(d, 0) == Some(0x2Du8) { 1int } else { 0int };
    let j0 = if byte_at(b, i) == Some(0x2Du8) { i + 1 } else { i };
    assert(byte_at(b, i + 0) == byte_at(d, 0));
    assert(j0 == i + j0d);
    let j1d = int_part_end(d, j0d)->0;
    crate::json::lemma_digits_end(d, j0d);
    assert(byte_at(b, i + j0d) == byte_at(d, j0d));
    lemma_digits_shift(b, i, d, j0d);
    assert(int_part_end(b, j0) == Some(i + j1d));
    let j1 = i + j1d;
    // the fraction
    crate::json::lemma_digits_end(d, j1d + 1);
    let fd = digits_end(d, j1d + 1);
    let has_frac_d = byte_at(d, j1d) == Some(0x2Eu8);
    let has_frac = byte_at(b, j1) == Some(0x2Eu8);
    if j1d < l {
        assert(byte_at(b, i + j1d) == byte_at(d, j1d));
    }
    assert(has_frac == has_frac_d);
    let f = digits_end(b, j1 + 1);
    if has_frac {
        lemma_digits_shift(b, i, d, j1d + 1);
        assert(f == i + fd);
    }
    let j2d = if has_frac_d { fd } else { j1d };
    let j2 = if has_frac { f } else { j1 };
    assert(j2 == i + j2d);
    // the exponent
    let has_exp_d = byte_at(d, j2d) == Some(0x65u8) || byte_at(d, j2d) == Some(0x45u8);
    let has_exp = byte_at(b, j2) == Some(0x65u8) || byte_at(b, j2) == Some(0x45u8);
    if j2d < l {
        assert(byte_at(b, i + j2d) == byte_at(d, j2d));
    }
    assert(has_exp == has_exp_d);
    if has_exp {
        if j2d + 1 < l {
            assert(byte_at(b, i + (j2d + 1)) == byte_at(d, j2d + 1));
        }
        let kd = if byte_at(d, j2d + 1) == Some(0x2Bu8) || byte_at(d, j2d + 1) == Some(0x2Du8) {
            j2d + 2
        } else {
            j2d + 1
        };
        let k = if byte_at(b, j2 + 1) == Some(0x2Bu8) || byte_at(b, j2 + 1) == Some(0x2Du8) { j2 + 2 } else { j2 + 1 };
        assert(k == i + kd);
        crate::json::lemma_digits_end(d, kd);
        lemma_digits_shift(b, i, d, kd);
    }
    let text = b.subrange(i, i + l);
    assert(ascii_text(text) =~= t) by {
        assert forall|k: int| 0 <= k < l implies ascii_text(text)[k] == t[k] by {
            assert(text[k] == d[k]);
            lemma_low_byte(t[k] as u32);
            vstd::utf8::char_u32_cast(t[k], t[k] as u32);
        }
    }
}


// ===== values =====

/// A value the writer can put down so that it reads back: its integers fit
/// an `i64` and its floats' texts are JSON numbers.
pub open spec fn writable(w: JsonView) -> bool
    decreases w,
{
    match w {
        JsonView::Int(n) => i64::MIN <= n <= i64::MAX,
        JsonView::Float(t) => float_text(t),
        JsonView::Array(xs) => forall|k: int| 0 <= k < xs.len() ==> writable(#[trigger] xs[k]),
        JsonView::Object(fs) => forall|k: int| 0 <= k < fs.len() ==> writable(#[trigger] fs[k].1),
        _ => true,
    }
}

/// The elements of an array from the `k`-th on, comma-separated.
pub open spec fn items_from(xs: Seq<JsonView>, k: int) -> Seq<char>
    decreases xs.len() - k,
{
    if k < 0 || k >= xs.len() {
        Seq::empty()
    } else if k == xs.len() - 1 {
        json_text(xs[k])
    } else {
        json_text(xs[k]) + seq![','] + items_from(xs, k + 1)
    }
}

pub open spec fn member_text(f: (Seq<char>, JsonView)) -> Seq<char> {
    quoted(f.0) + seq![':'] + json_text(f.1)
}

/// The members of an object from the `k`-th on, comma-separated.
pub open spec fn members_from(fs: Seq<(Seq<char>, JsonView)>, k: int) -> Seq<char>
    decreases fs.len() - k,
{
    if k < 0 || k >= fs.len() {
        Seq::empty()
    } else if k == fs.len() - 1 {
        member_text(fs[k])
    } else {
        member_text(fs[k]) + seq![','] + members_from(fs, k + 1)
    }
}


proof fn lemma_items_prefix(xs: Seq<JsonView>, n: int)
    requires
        1 <= n < xs.len(),
    ensures
        items_from(xs, 0) == items_text(xs.take(n)) + seq![','] + items_from(xs, n),
    decreases n,
{
    if n == 1 {
        lemma_items_step(xs, 0);
        assert(xs.take(0).len() == 0);
        assert(items_text(xs.take(0)) == Seq::<char>::empty());
        assert(items_text(xs.take(1)) =~= json_text(xs[0]));
    } else {
        lemma_items_prefix(xs, n - 1);
        lemma_items_step(xs, n - 1);
        assert(items_from(xs, n - 1) == json_text(xs[n - 1]) + seq![','] + items_from(xs, n));
        assert(items_text(xs.take(n - 1)) + seq![','] + (json_text(xs[n - 1]) + seq![','] + items_from(xs, n))
            =~= (items_text(xs.take(n - 1)) + seq![','] + json_text(xs[n - 1])) + seq![','] + items_from(xs, n));
    }
}

proof fn lemma_items_from(xs: Seq<JsonView>)
    ensures
        items_text(xs) == items_from(xs, 0),
{
    let n = xs.len() as int;
    if n == 0 {
        assert(items_text(xs) == Seq::<char>::empty());
    } else if n == 1 {
        assert(items_text(xs) == json_text(xs[0]));
    } else {
        lemma_items_prefix(xs, n - 1);
        lemma_items_step(xs, n - 1);
        assert(xs.take(n) =~= xs);
        assert(items_from(xs, n - 1) == json_text(xs[n - 1]));
    }
}

proof fn lemma_members_prefix(fs: Seq<(Seq<char>, JsonView)>, n: int)
    requires
        1 <= n < fs.len(),
    ensures
        members_from(fs, 0) == members_text(fs.take(n)) + seq![','] + members_from(fs, n),
    decreases n,
{
    if n == 1 {
        lemma_members_step(fs, 0);
        assert(fs.take(0).len() == 0);
        assert(members_text(fs.take(0)) == Seq::<char>::empty());
        assert(members_text(fs.take(1)) =~= member_text(fs[0]));
    } else {
        lemma_members_prefix(fs, n - 1);
        lemma_members_step(fs, n - 1);
        assert(members_from(fs, n - 1) == member_text(fs[n - 1]) + seq![','] + members_from(fs, n));
        assert(members_text(fs.take(n - 1)) + seq![','] + (member_text(fs[n - 1]) + seq![','] + members_from(fs, n))
            =~= (members_text(fs.take(n - 1)) + seq![','] + quoted(fs[n - 1].0) + seq![':'] + json_text(fs[n - 1].1))
            + seq![','] + members_from(fs, n));
    }
}

proof fn lemma_members_from(fs: Seq<(Seq<char>, JsonView)>)
    ensures
        members_text(fs) == members_from(fs, 0),
{
    let n = fs.len() as int;
    if n == 0 {
        assert(members_text(fs) == Seq::<char>::empty());
    } else if n == 1 {
        assert(members_text(fs) == member_text(fs[0]));
    } else {
        lemma_members_prefix(fs, n - 1);
        lemma_members_step(fs, n - 1);
        assert(fs.take(n) =~= fs);
        assert(members_from(fs, n - 1) == member_text(fs[n - 1]));
        assert(members_text(fs.take(n)) =~= members_text(fs.take(n - 1)) + seq![','] + member_text(fs[n - 1]));
    }
}


/// The text `x` stands, as UTF-8, at offset `p` of `b`.
pub open spec fn at_text(b: Seq<u8>, p: int, x: Seq<char>) -> bool {
    0 <= p && p + encode_utf8(x).len() <= b.len() && b.subrange(p, p + encode_utf8(x).len()) == encode_utf8(x)
}

pub(crate) proof fn lemma_at_split(b: Seq<u8>, p: int, x: Seq<char>, y: Seq<char>)
    requires
        at_text(b, p, x + y),
    ensures
        at_text(b, p, x),
        at_text(b, p + encode_utf8(x).len(), y),
        encode_utf8(x + y).len() == encode_utf8(x).len() + encode_utf8(y).len(),
{
    lemma_encode_concat(x, y);
    let ex = encode_utf8(x);
    let ey = encode_utf8(y);
    let n = ex.len() + ey.len();
    assert(b.subrange(p, p + ex.len()) =~= ex) by {
        assert forall|k: int| 0 <= k < ex.len() implies b.subrange(p, p + ex.len())[k] == ex[k] by {
            assert(b.subrange(p, p + n)[k] == (ex + ey)[k]);
        }
    }
    assert(b.subrange(p + ex.len(), p + n) =~= ey) by {
        assert forall|k: int| 0 <= k < ey.len() implies b.subrange(p + ex.len(), p + n)[k] == ey[k] by {
            assert(b.subrange(p, p + n)[ex.len() + k] == (ex + ey)[ex.len() + k]);
        }
    }
}

pub(crate) proof fn lemma_at_byte(b: Seq<u8>, p: int, c: char)
    requires
        at_text(b, p, seq![c]),
        (c as u32) < 0x80,
    ensures
        p < b.len(),
        b[p] == (c as u32) as u8,
        encode_utf8(seq![c]).len() == 1,
{
    assert(ascii_chars(seq![c]));
    lemma_encode_ascii(seq![c]);
    assert(b[p] == b.subrange(p, p + 1)[0]);
}

/// A byte a value's text can begin with.
pub open spec fn value_start(c: u8) -> bool {
    c == 0x6E || c == 0x74 || c == 0x66 || c == 0x2D || is_digit_byte(c) || c == 0x22 || c == 0x5B || c == 0x7B
}

proof fn lemma_lit_bytes(t: Seq<char>, bytes: Seq<u8>)
    requires
        ascii_chars(t),
        t.len() == bytes.len(),
        forall|k: int| 0 <= k < t.len() ==> (#[trigger] t[k] as u32) as u8 == bytes[k],
    ensures
        encode_utf8(t) == bytes,
{
    lemma_encode_ascii(t);
    assert(encode_utf8(t) =~= bytes);
}

proof fn lemma_keyword_texts()
    ensures
        encode_utf8("null"@) == kw_null(),
        encode_utf8("true"@) == kw_true(),
        encode_utf8("false"@) == kw_false(),
{
    reveal_strlit("null");
    reveal_strlit("true");
    reveal_strlit("false");
    lemma_lit_bytes("null"@, kw_null());
    lemma_lit_bytes("true"@, kw_true());
    lemma_lit_bytes("false"@, kw_false());
}

pub(crate) proof fn lemma_first_byte(w: JsonView)
    requires
        writable(w),
    ensures
        encode_utf8(json_text(w)).len() > 0,
        value_start(encode_utf8(json_text(w))[0]),
{
    let t = json_text(w);
    match w {
        JsonView::Null => {
            lemma_keyword_texts();
        },
        JsonView::Bool(x) => {
            lemma_keyword_texts();
        },
        JsonView::Int(n) => {
            let m: nat = if n < 0 { (-n) as nat } else { n as nat };
            lemma_dec_value(m);
            lemma_encode_concat(seq![t[0]], t.drop_first());
            assert(seq![t[0]] + t.drop_first() =~= t);
            if n < 0 {
                assert(t[0] == '-');
            } else {
                assert(t[0] == crate::text::dec(m)[0]);
            }
            assert(ascii_chars(seq![t[0]]));
            lemma_encode_ascii(seq![t[0]]);
        },
        JsonView::Float(x) => {
            let d = encode_utf8(x);
            let j0 = if byte_at(d, 0) == Some(0x2Du8) { 1int } else { 0int };
            assert(int_part_end(d, j0) is Some);
        },
        JsonView::Str(x) => {
            lemma_encode_concat(seq!['"'], escaped(x) + seq!['"']);
            assert(quoted(x) =~= seq!['"'] + (escaped(x) + seq!['"']));
            lemma_encode_ascii(seq!['"']);
        },
        JsonView::Array(xs) => {
            lemma_encode_concat(seq!['['], items_text(xs) + seq![']']);
            assert(t =~= seq!['['] + (items_text(xs) + seq![']']));
            lemma_encode_ascii(seq!['[']);
        },
        JsonView::Object(fs) => {
            lemma_encode_concat(seq!['{'], members_text(fs) + seq!['}']);
            assert(t =~= seq!['{'] + (members_text(fs) + seq!['}']));
            lemma_encode_ascii(seq!['{']);
        },
    }
}


proof fn lemma_not_ws(b: Seq<u8>, p: int)
    requires
        0 <= p < b.len(),
        value_start(b[p]) || b[p] == 0x2C || b[p] == 0x5D || b[p] == 0x7D || b[p] == 0x3A,
    ensures
        ws_end(b, p) == p,
{
}

/// The text of a value, followed by the end or a separator, reads back as
/// the value.
pub(crate) proof fn lemma_value_text(b: Seq<u8>, i: int, w: JsonView)
    requires
        writable(w),
        at_text(b, i, json_text(w)),
        ends_value(b, i + encode_utf8(json_text(w)).len()),
    ensures
        value_at(b, i) == Ok::<(JsonView, int), (Seq<char>, int)>((w, i + encode_utf8(json_text(w)).len())),
    decreases w, 0int,
{
    let t = json_text(w);
    let l = encode_utf8(t).len() as int;
    lemma_first_byte(w);
    assert(b[i] == b.subrange(i, i + l)[0]);
    match w {
        JsonView::Null => {
            lemma_keyword_texts();
        },
        JsonView::Bool(x) => {
            lemma_keyword_texts();
            if !x {
                assert(b.subrange(i, i + 4)[0] == b[i]);
                assert(b.subrange(i, i + 4) != kw_true());
            }
        },
        JsonView::Int(n) => {
            lemma_int_at(b, i, n);
        },
        JsonView::Float(x) => {
            lemma_float_at(b, i, x);
        },
        JsonView::Str(x) => {
            lemma_string_literal(b, i, x);
        },
        JsonView::Array(xs) => {
            lemma_array_text(b, i, xs);
        },
        JsonView::Object(fs) => {
            lemma_object_text(b, i, fs);
        },
    }
}

#[verifier::spinoff_prover]
#[verifier::rlimit(60)]
proof fn lemma_array_text(b: Seq<u8>, i: int, xs: Seq<JsonView>)
    requires
        writable(JsonView::Array(xs)),
        at_text(b, i, json_text(JsonView::Array(xs))),
        ends_value(b, i + encode_utf8(json_text(JsonView::Array(xs))).len()),
    ensures
        value_at(b, i) == Ok::<(JsonView, int), (Seq<char>, int)>(
            (JsonView::Array(xs), i + encode_utf8(json_text(JsonView::Array(xs))).len()),
        ),
    decreases xs, xs.len() + 1,
{
    let t = json_text(JsonView::Array(xs));
    lemma_items_from(xs);
    let inner = items_from(xs, 0);
    assert(t =~= seq!['['] + (inner + seq![']']));
    lemma_at_split(b, i, seq!['['], inner + seq![']']);
    lemma_at_byte(b, i, '[');
    if xs.len() == 0 {
        assert(inner =~= Seq::<char>::empty());
        assert(inner + seq![']'] =~= seq![']']);
        lemma_at_byte(b, i + 1, ']');
        lemma_not_ws(b, i + 1);
        assert(array_at(b, i + 1) == Ok::<(JsonView, int), (Seq<char>, int)>((JsonView::Array(Seq::empty()), i + 2)));
        assert(xs =~= Seq::<JsonView>::empty());
    } else {
        lemma_at_split(b, i + 1, inner, seq![']']);
        lemma_first_byte(xs[0]);
        let r0 = if xs.len() > 1 { seq![','] + items_from(xs, 1) } else { Seq::<char>::empty() };
        assert(inner == json_text(xs[0]) + r0);
        lemma_at_split(b, i + 1, json_text(xs[0]), r0);
        assert(b[i + 1] == b.subrange(i + 1, i + 1 + encode_utf8(json_text(xs[0])).len())[0]);
        lemma_not_ws(b, i + 1);
        assert(xs.take(0) =~= Seq::<JsonView>::empty());
        lemma_elements_text(b, i + 1, xs, 0);
        lemma_encode_concat(inner, seq![']']);
        lemma_encode_ascii(seq![']']);
        assert(byte_at(b, i + 1) != Some(0x5Du8));
        assert(array_at(b, i + 1) == elements_at(b, i + 1, Seq::empty()));
    }
    assert(value_at(b, i) == array_at(b, i + 1));
}

#[verifier::spinoff_prover]
#[verifier::rlimit(60)]
proof fn lemma_object_text(b: Seq<u8>, i: int, fs: Seq<(Seq<char>, JsonView)>)
    requires
        writable(JsonView::Object(fs)),
        at_text(b, i, json_text(JsonView::Object(fs))),
        ends_value(b, i + encode_utf8(json_text(JsonView::Object(fs))).len()),
    ensures
        value_at(b, i) == Ok::<(JsonView, int), (Seq<char>, int)>(
            (JsonView::Object(fs), i + encode_utf8(json_text(JsonView::Object(fs))).len()),
        ),
    decreases fs, fs.len() + 1,
{
    let t = json_text(JsonView::Object(fs));
    lemma_members_from(fs);
    let inner = members_from(fs, 0);
    assert(t =~= seq!['{'] + (inner + seq!['}']));
    lemma_at_split(b, i, seq!['{'], inner + seq!['}']);
    lemma_at_byte(b, i, '{');
    if fs.len() == 0 {
        assert(inner =~= Seq::<char>::empty());
        assert(inner + seq!['}'] =~= seq!['}']);
        lemma_at_byte(b, i + 1, '}');
        lemma_not_ws(b, i + 1);
        assert(object_at(b, i + 1) == Ok::<(JsonView, int), (Seq<char>, int)>((JsonView::Object(Seq::empty()), i + 2)));
        assert(fs =~= Seq::<(Seq<char>, JsonView)>::empty());
    } else {
        lemma_at_split(b, i + 1, inner, seq!['}']);
        let r0 = if fs.len() > 1 { seq![','] + members_from(fs, 1) } else { Seq::<char>::empty() };
        assert(inner == member_text(fs[0]) + r0);
        lemma_at_split(b, i + 1, member_text(fs[0]), r0);
        assert(member_text(fs[0]) =~= quoted(fs[0].0) + (seq![':'] + json_text(fs[0].1)));
        lemma_at_split(b, i + 1, quoted(fs[0].0), seq![':'] + json_text(fs[0].1));
        lemma_string_literal(b, i + 1, fs[0].0);
        assert(b[i + 1] == b.subrange(i + 1, i + 1 + encode_utf8(quoted(fs[0].0)).len())[0]);
        lemma_not_ws(b, i + 1);
        assert(fs.take(0) =~= Seq::<(Seq<char>, JsonView)>::empty());
        lemma_members_text(b, i + 1, fs, 0);
        lemma_encode_concat(inner, seq!['}']);
        lemma_encode_ascii(seq!['}']);
        assert(byte_at(b, i + 1) != Some(0x7Du8));
        assert(object_at(b, i + 1) == members_at(b, i + 1, Seq::empty()));
    }
    assert(value_at(b, i) == object_at(b, i + 1));
}

/// The elements of an array from the `k`-th on, then its `]`, read back as
/// the array.
#[verifier::spinoff_prover]
#[verifier::rlimit(60)]
proof fn lemma_elements_text(b: Seq<u8>, p: int, xs: Seq<JsonView>, k: int)
    requires
        0 <= k < xs.len(),
        forall|q: int| 0 <= q < xs.len() ==> writable(#[trigger] xs[q]),
        at_text(b, p, items_from(xs, k) + seq![']']),
    ensures
        elements_at(b, p, xs.take(k)) == Ok::<(JsonView, int), (Seq<char>, int)>(
            (JsonView::Array(xs), p + encode_utf8(items_from(xs, k)).len() + 1),
        ),
    decreases xs, xs.len() - k,
{
    let v = xs[k];
    let last = k == xs.len() - 1;
    let rest = if last { Seq::<char>::empty() } else { seq![','] + items_from(xs, k + 1) };
    assert(items_from(xs, k) == json_text(v) + rest);
    assert(items_from(xs, k) + seq![']'] =~= json_text(v) + (rest + seq![']']));
    lemma_at_split(b, p, json_text(v), rest + seq![']']);
    lemma_at_split(b, p, items_from(xs, k), seq![']']);
    lemma_encode_concat(json_text(v), rest);
    let lv = encode_utf8(json_text(v)).len() as int;
    let m = p + lv;
    lemma_first_byte(v);
    assert(b[p] == b.subrange(p, p + lv)[0]);
    lemma_not_ws(b, p);
    if last {
        assert(rest + seq![']'] =~= seq![']']);
        lemma_at_byte(b, m, ']');
    } else {
        assert(rest + seq![']'] =~= seq![','] + (items_from(xs, k + 1) + seq![']']));
        lemma_at_split(b, m, seq![','], items_from(xs, k + 1) + seq![']']);
        lemma_at_byte(b, m, ',');
        lemma_encode_concat(seq![','], items_from(xs, k + 1));
    }
    assert(ends_value(b, m));
    assert(decreases_to!(xs => xs[k]));
    lemma_value_text(b, p, v);
    lemma_not_ws(b, m);
    let acc2 = xs.take(k).push(v);
    assert(acc2 =~= xs.take(k + 1));
    if last {
        assert(acc2 =~= xs);
    } else {
        lemma_elements_text(b, m + 1, xs, k + 1);
    }
}

/// The members of an object from the `k`-th on, then its `}`, read back as
/// the object.
#[verifier::spinoff_prover]
#[verifier::rlimit(60)]
proof fn lemma_members_text(b: Seq<u8>, p: int, fs: Seq<(Seq<char>, JsonView)>, k: int)
    requires
        0 <= k < fs.len(),
        forall|q: int| 0 <= q < fs.len() ==> writable(#[trigger] fs[q].1),
        at_text(b, p, members_from(fs, k) + seq!['}']),
    ensures
        members_at(b, p, fs.take(k)) == Ok::<(JsonView, int), (Seq<char>, int)>(
            (JsonView::Object(fs), p + encode_utf8(members_from(fs, k)).len() + 1),
        ),
    decreases fs, fs.len() - k,
{
    let f = fs[k];
    let key = f.0;
    let v = f.1;
    let last = k == fs.len() - 1;
    let rest = if last { Seq::<char>::empty() } else { seq![','] + members_from(fs, k + 1) };
    assert(members_from(fs, k) == member_text(f) + rest);
    assert(members_from(fs, k) + seq!['}'] =~= quoted(key) + (seq![':'] + (json_text(v) + (rest + seq!['}']))));
    lemma_at_split(b, p, members_from(fs, k), seq!['}']);
    lemma_at_split(b, p, quoted(key), seq![':'] + (json_text(v) + (rest + seq!['}'])));
    let lk = encode_utf8(quoted(key)).len() as int;
    let q = p + lk;
    lemma_at_split(b, q, seq![':'], json_text(v) + (rest + seq!['}']));
    lemma_at_byte(b, q, ':');
    lemma_at_split(b, q + 1, json_text(v), rest + seq!['}']);
    lemma_string_literal(b, p, key);
    assert(b[p] == b.subrange(p, p + lk)[0]);
    lemma_not_ws(b, p);
    lemma_not_ws(b, q);
    let lv = encode_utf8(json_text(v)).len() as int;
    let m = q + 1 + lv;
    lemma_first_byte(v);
    assert(b[q + 1] == b.subrange(q + 1, q + 1 + lv)[0]);
    lemma_not_ws(b, q + 1);
    if last {
        assert(rest + seq!['}'] =~= seq!['}']);
        lemma_at_byte(b, m, '}');
    } else {
        assert(rest + seq!['}'] =~= seq![','] + (members_from(fs, k + 1) + seq!['}']));
        lemma_at_split(b, m, seq![','], members_from(fs, k + 1) + seq!['}']);
        lemma_at_byte(b, m, ',');
        lemma_encode_concat(seq![','], members_from(fs, k + 1));
    }
    assert(ends_value(b, m));
    assert(decreases_to!(fs => fs[k].1)) by {
        assert(decreases_to!(fs => fs[k]));
        assert(decreases_to!(fs[k] => fs[k].1));
    }
    lemma_value_text(b, q + 1, v);
    lemma_not_ws(b, m);
    lemma_encode_concat(quoted(key), seq![':']);
    lemma_encode_concat(quoted(key) + seq![':'], json_text(v));
    lemma_encode_concat(member_text(f), rest);
    lemma_encode_ascii(seq![':']);
    let acc2 = fs.take(k).push((key, v));
    assert(acc2 =~= fs.take(k + 1));
    if last {
        assert(acc2 =~= fs);
    } else {
        lemma_members_text(b, m + 1, fs, k + 1);
    }
}


/// What `stringify` writes of a value, `parse` reads back as the same value:
/// for every value whose integers fit an `i64` and whose floats' texts are
/// JSON numbers.
pub proof fn lemma_parse_stringify(v: JsonValue)
    requires
        writable(v@),
    ensures
        parse_text(encode_utf8(json_text(v@))) == Ok::<JsonView, (Seq<char>, int)>(v@),
{
    lemma_parse_stringify_view(v@);
}

proof fn lemma_parse_stringify_view(w: JsonView)
    requires
        writable(w),
    ensures
        parse_text(encode_utf8(json_text(w))) == Ok::<JsonView, (Seq<char>, int)>(w),
{
    let b = encode_utf8(json_text(w));
    assert(b.subrange(0, b.len() as int) =~= b);
    lemma_first_byte(w);
    lemma_not_ws(b, 0);
    lemma_value_text(b, 0, w);
    assert(ws_end(b, b.len() as int) == b.len());
}


// ===== what is read can be written =====

proof fn lemma_digits_sub(b: Seq<u8>, i: int, l: int, x: int)
    requires
        0 <= i,
        i + l <= b.len(),
        0 <= x <= l,
        digits_end(b, i + x) <= i + l,
    ensures
        digits_end(b.subrange(i, i + l), x) == digits_end(b, i + x) - i,
    decreases l - x,
{
    let d = b.subrange(i, i + l);
    crate::json::lemma_digits_end(b, i + x);
    if x < l {
        assert(d[x] == b[i + x]);
        if is_digit_byte(b[i + x]) {
            lemma_digits_sub(b, i, l, x + 1);
        }
    }
}

proof fn lemma_digits_ascii(b: Seq<u8>, j: int)
    requires
        0 <= j,
    ensures
        forall|k: int| j <= k < digits_end(b, j) ==> is_digit_byte(#[trigger] b[k]),
    decreases b.len() - j,
{
    if j < b.len() && is_digit_byte(b[j]) {
        lemma_digits_ascii(b, j + 1);
    }
}

/// A number that reads as a float has a float's text.
#[verifier::rlimit(60)]
proof fn lemma_number_writable(b: Seq<u8>, i: int)
    requires
        0 <= i < b.len(),
    ensures
        number_at(b, i) matches Ok((w, _)) ==> writable(w),
{
    let j0 = if byte_at(b, i) == Some(0x2Du8) { i + 1 } else { i };
    match int_part_end(b, j0) {
        None => {},
        Some(j1) => {
            crate::json::lemma_digits_end(b, j0);
            crate::json::lemma_digits_end(b, j1 + 1);
            lemma_digits_ascii(b, j0);
            lemma_digits_ascii(b, j1 + 1);
            let has_frac = byte_at(b, j1) == Some(0x2Eu8);
            let f = digits_end(b, j1 + 1);
            let j2 = if has_frac { f } else { j1 };
            let has_exp = byte_at(b, j2) == Some(0x65u8) || byte_at(b, j2) == Some(0x45u8);
            let k = if byte_at(b, j2 + 1) == Some(0x2Bu8) || byte_at(b, j2 + 1) == Some(0x2Du8) { j2 + 2 } else { j2 + 1 };
            crate::json::lemma_digits_end(b, k);
            lemma_digits_ascii(b, k);
            let e = digits_end(b, k);
            let j3 = if has_exp { e } else { j2 };
            if (has_frac || has_exp) && !(has_frac && f == j1 + 1) && !(has_exp && e == k) {
                let l = j3 - i;
                let d = b.subrange(i, j3);
                let t = ascii_text(d);
                // every byte of the number is ASCII
                assert forall|q: int| 0 <= q < l implies #[trigger] d[q] < 0x80 by {
                    let p = i + q;
                    assert(d[q] == b[p]);
                    if p < j0 {
                        assert(b[p] == 0x2D);
                    } else if p < j1 {
                        if b[j0] != 0x30 {
                            assert(is_digit_byte(b[p]));
                        }
                    } else if p == j1 && has_frac {
                    } else if has_frac && p < j2 {
                        assert(is_digit_byte(b[p]));
                    } else if p == j2 {
                    } else if p < k {
                    } else {
                        assert(is_digit_byte(b[p]));
                    }
                }
                assert(ascii_chars(t)) by {
                    assert forall|q: int| 0 <= q < t.len() implies (#[trigger] t[q] as u32) < 0x80 by {
                        assert(d[q] < 0x80);
                    }
                }
                lemma_encode_ascii(t);
                assert(encode_utf8(t) =~= d) by {
                    assert forall|q: int| 0 <= q < l implies encode_utf8(t)[q] == d[q] by {
                        assert(d[q] < 0x80);
                        assert(t[q] == d[q] as char);
                    }
                }
                // the grammar on the number's own bytes
                assert forall|x: int| 0 <= x < l implies #[trigger] byte_at(d, x) == byte_at(b, i + x) by {}
                let j0d = j0 - i;
                assert(byte_at(d, 0) == byte_at(b, i + 0));
                assert(byte_at(d, j0d) == byte_at(b, i + j0d));
                if b[j0] != 0x30 {
                    lemma_digits_sub(b, i, l, j0d);
                }
                assert(int_part_end(d, j0d) == Some(j1 - i));
                let j1d = j1 - i;
                if j1d < l {
                    assert(byte_at(d, j1d) == byte_at(b, i + j1d));
                }
                assert((byte_at(d, j1d) == Some(0x2Eu8)) == has_frac);
                if has_frac {
                    lemma_digits_sub(b, i, l, j1d + 1);
                }
                let j2d = j2 - i;
                if j2d < l {
                    assert(byte_at(d, j2d) == byte_at(b, i + j2d));
                }
                if has_exp {
                    if j2d + 1 < l {
                        assert(byte_at(d, j2d + 1) == byte_at(b, i + (j2d + 1)));
                    }
                    lemma_digits_sub(b, i, l, k - i);
                }
                assert(float_bytes(d));
            }
        },
    }
}

proof fn lemma_keyword_writable(b: Seq<u8>, i: int)
    ensures
        crate::json::bool_at(b, i) matches Ok((w, _)) ==> writable(w),
        crate::json::null_at(b, i) matches Ok((w, _)) ==> writable(w),
{
}

proof fn lemma_value_writable(b: Seq<u8>, i: int)
    requires
        0 <= i,
    ensures
        value_at(b, i) matches Ok((w, _)) ==> writable(w),
    decreases b.len() - i, 1int,
{
    if i < b.len() {
        let c = b[i];
        if c == 0x7B {
            lemma_object_writable(b, i + 1);
        } else if c == 0x5B {
            lemma_array_writable(b, i + 1);
        } else if c == 0x2D || is_digit_byte(c) {
            lemma_number_writable(b, i);
        } else {
            lemma_keyword_writable(b, i);
        }
    }
}

proof fn lemma_members_writable(b: Seq<u8>, i: int, acc: Seq<(Seq<char>, JsonView)>)
    requires
        0 <= i <= b.len(),
        forall|q: int| 0 <= q < acc.len() ==> writable(#[trigger] acc[q].1),
    ensures
        members_at(b, i, acc) matches Ok((w, _)) ==> writable(w),
    decreases b.len() - i, 2int,
{
    let j = ws_end(b, i);
    crate::json::lemma_ws_end(b, i);
    crate::json::lemma_string_at_advances(b, j);
    match string_at(b, j) {
        Err(_) => {},
        Ok((key, k)) => {
            let k2 = ws_end(b, k);
            crate::json::lemma_ws_end(b, k);
            if byte_at(b, k2) == Some(0x3Au8) {
                let k3 = ws_end(b, k2 + 1);
                crate::json::lemma_ws_end(b, k2 + 1);
                lemma_value_writable(b, k3);
                crate::json::lemma_value_advances(b, k3);
                match value_at(b, k3) {
                    Err(_) => {},
                    Ok((v, m)) => {
                        let acc2 = acc.push((key, v));
                        assert forall|q: int| 0 <= q < acc2.len() implies writable(#[trigger] acc2[q].1) by {
                            if q < acc.len() {
                                assert(acc2[q] == acc[q]);
                            }
                        }
                        let m2 = ws_end(b, m);
                        crate::json::lemma_ws_end(b, m);
                        if byte_at(b, m2) == Some(0x2Cu8) && m2 + 1 > i {
                            lemma_members_writable(b, m2 + 1, acc2);
                        }
                    },
                }
            }
        },
    }
}

proof fn lemma_object_writable(b: Seq<u8>, i: int)
    requires
        0 <= i <= b.len(),
    ensures
        object_at(b, i) matches Ok((w, _)) ==> writable(w),
    decreases b.len() - i, 3int,
{
    crate::json::lemma_ws_end(b, i);
    let j = ws_end(b, i);
    if byte_at(b, j) != Some(0x7Du8) {
        lemma_members_writable(b, j, Seq::empty());
    }
}

proof fn lemma_elements_writable(b: Seq<u8>, i: int, acc: Seq<JsonView>)
    requires
        0 <= i <= b.len(),
        forall|q: int| 0 <= q < acc.len() ==> writable(#[trigger] acc[q]),
    ensures
        elements_at(b, i, acc) matches Ok((w, _)) ==> writable(w),
    decreases b.len() - i, 2int,
{
    let j = ws_end(b, i);
    crate::json::lemma_ws_end(b, i);
    lemma_value_writable(b, j);
    crate::json::lemma_value_advances(b, j);
    match value_at(b, j) {
        Err(_) => {},
        Ok((v, m)) => {
            let acc2 = acc.push(v);
            assert forall|q: int| 0 <= q < acc2.len() implies writable(#[trigger] acc2[q]) by {
                if q < acc.len() {
                    assert(acc2[q] == acc[q]);
                }
            }
            let m2 = ws_end(b, m);
            crate::json::lemma_ws_end(b, m);
            if byte_at(b, m2) == Some(0x2Cu8) && m2 + 1 > i {
                lemma_elements_writable(b, m2 + 1, acc2);
            }
        },
    }
}

proof fn lemma_array_writable(b: Seq<u8>, i: int)
    requires
        0 <= i <= b.len(),
    ensures
        array_at(b, i) matches Ok((w, _)) ==> writable(w),
    decreases b.len() - i, 3int,
{
    crate::json::lemma_ws_end(b, i);
    let j = ws_end(b, i);
    if byte_at(b, j) != Some(0x5Du8) {
        lemma_elements_writable(b, j, Seq::empty());
    }
}

/// Whatever `parse` reads, `stringify` writes so that `parse` reads it back
/// as the same value.
pub proof fn lemma_reparse(src: Seq<char>)
    requires
        parse_text(encode_utf8(src)) is Ok,
    ensures
        parse_text(encode_utf8(json_text(parse_text(encode_utf8(src))->Ok_0))) == parse_text(encode_utf8(src)),
{
    let b = encode_utf8(src);
    crate::json::lemma_ws_end(b, 0);
    lemma_value_writable(b, ws_end(b, 0));
    let w = parse_text(b)->Ok_0;
    let v = value_at(b, ws_end(b, 0));
    assert(v matches Ok((x, _)) && x == w);
    lemma_parse_stringify_view(w);
}

} // verus!

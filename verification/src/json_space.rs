//! White space before a JSON text: bytes in front of a text move every
//! position of the reading by their number and change nothing else, so a run
//! of JSON white space in front of a text leaves what it parses to unchanged.
use vstd::prelude::*;
use vstd::utf8::valid_utf8;
use crate::json::{
    array_at, bool_at, byte_at, digits_end, elements_at, expected_got, hex4_at, int_part_end, is_ws_byte, keyword_at,
    kw_false, kw_null, kw_true, lemma_string_at_advances, lemma_string_body_advances, lemma_value_advances, lemma_ws_end,
    members_at, null_at, number_at, object_at, parse_text, shown_byte, string_at, string_body, unicode_at, value_at,
    ws_end, JsonView, Read,
};

verus! {

/// A reading with every position moved on by `n`.
pub open spec fn moved<T>(r: Read<T>, n: int) -> Read<T> {
    match r {
        Ok((v, m)) => Ok((v, m + n)),
        Err((msg, q)) => Err((msg, q + n)),
    }
}

proof fn lemma_prefix_bytes(p: Seq<u8>, b: Seq<u8>)
    ensures
        forall|k: int| 0 <= k ==> #[trigger] byte_at(p + b, p.len() + k) == byte_at(b, k),
        forall|k: int| 0 <= k < b.len() ==> #[trigger] (p + b)[p.len() + k] == b[k],
{
    assert forall|k: int| 0 <= k implies #[trigger] byte_at(p + b, p.len() + k) == byte_at(b, k) by {
        if k < b.len() {
            assert((p + b)[p.len() + k] == b[k]);
        }
    }
}

proof fn lemma_byte_moved(p: Seq<u8>, b: Seq<u8>, k: int)
    requires
        0 <= k,
    ensures
        byte_at(p + b, p.len() + k) == byte_at(b, k),
{
    lemma_prefix_bytes(p, b);
}

proof fn lemma_prefix_range(p: Seq<u8>, b: Seq<u8>, i: int, j: int)
    requires
        0 <= i <= j <= b.len(),
    ensures
        (p + b).subrange(p.len() + i, p.len() + j) == b.subrange(i, j),
{
    assert((p + b).subrange(p.len() + i, p.len() + j) =~= b.subrange(i, j));
}

proof fn lemma_ws_end_moved(p: Seq<u8>, b: Seq<u8>, i: int)
    requires
        0 <= i,
    ensures
        ws_end(p + b, p.len() + i) == p.len() + ws_end(b, i),
    decreases b.len() - i,
{
    lemma_prefix_bytes(p, b);
    if i < b.len() && is_ws_byte(b[i]) {
        lemma_ws_end_moved(p, b, i + 1);
    }
}

proof fn lemma_digits_end_moved(p: Seq<u8>, b: Seq<u8>, i: int)
    requires
        0 <= i,
    ensures
        digits_end(p + b, p.len() + i) == p.len() + digits_end(b, i),
    decreases b.len() - i,
{
    lemma_prefix_bytes(p, b);
    if i < b.len() {
        lemma_digits_end_moved(p, b, i + 1);
    }
}

proof fn lemma_shown_byte_moved(p: Seq<u8>, b: Seq<u8>, i: int)
    requires
        0 <= i,
    ensures
        shown_byte(p + b, p.len() + i) == shown_byte(b, i),
{
    lemma_prefix_bytes(p, b);
}

proof fn lemma_keyword_moved(p: Seq<u8>, b: Seq<u8>, i: int, kw: Seq<u8>)
    requires
        0 <= i,
    ensures
        keyword_at(p + b, p.len() + i, kw) == keyword_at(b, i, kw),
{
    lemma_prefix_bytes(p, b);
    if i + kw.len() <= b.len() {
        lemma_prefix_range(p, b, i, i + kw.len());
    }
}

proof fn lemma_number_moved(p: Seq<u8>, b: Seq<u8>, i: int)
    requires
        0 <= i,
    ensures
        number_at(p + b, p.len() + i) == moved(number_at(b, i), p.len() as int),
{
    let c = p + b;
    let n = p.len() as int;
    lemma_prefix_bytes(p, b);
    let j0 = if byte_at(b, i) == Some(0x2Du8) { i + 1 } else { i };
    lemma_digits_end_moved(p, b, j0);
    assert(int_part_end(c, n + j0) == match int_part_end(b, j0) {
        Some(x) => Some(x + n),
        None => None::<int>,
    });
    if let Some(j1) = int_part_end(b, j0) {
        crate::json::lemma_digits_end(b, j0);
        lemma_digits_end_moved(p, b, j1 + 1);
        crate::json::lemma_digits_end(b, j1 + 1);
        let has_frac = byte_at(b, j1) == Some(0x2Eu8);
        let f = digits_end(b, j1 + 1);
        let j2 = if has_frac { f } else { j1 };
        let k = if byte_at(b, j2 + 1) == Some(0x2Bu8) || byte_at(b, j2 + 1) == Some(0x2Du8) {
            j2 + 2
        } else {
            j2 + 1
        };
        lemma_digits_end_moved(p, b, k);
        crate::json::lemma_digits_end(b, k);
        let has_exp = byte_at(b, j2) == Some(0x65u8) || byte_at(b, j2) == Some(0x45u8);
        let e = digits_end(b, k);
        let j3 = if has_exp { e } else { j2 };
        if i <= j3 <= b.len() {
            lemma_prefix_range(p, b, i, j3);
        }
    }
}

proof fn lemma_words_moved(p: Seq<u8>, b: Seq<u8>, i: int)
    requires
        0 <= i,
    ensures
        bool_at(p + b, p.len() + i) == moved(bool_at(b, i), p.len() as int),
        null_at(p + b, p.len() + i) == moved(null_at(b, i), p.len() as int),
{
    lemma_keyword_moved(p, b, i, kw_true());
    lemma_keyword_moved(p, b, i, kw_false());
    lemma_keyword_moved(p, b, i, kw_null());
    lemma_shown_byte_moved(p, b, i);
}

proof fn lemma_hex4_moved(
    p: Seq<u8>,
    b: Seq<u8>,
    i: int,
    short: Seq<char>,
    bytes: Seq<char>,
    bad: Seq<char>,
    close: Seq<char>,
)
    requires
        0 <= i,
    ensures
        hex4_at(p + b, p.len() + i, short, bytes, bad, close) == moved(hex4_at(b, i, short, bytes, bad, close), p.len() as int),
{
    if i + 4 <= b.len() {
        lemma_prefix_range(p, b, i, i + 4);
    }
}

proof fn lemma_unicode_moved(p: Seq<u8>, b: Seq<u8>, i: int)
    requires
        0 <= i,
    ensures
        unicode_at(p + b, p.len() + i) == moved(unicode_at(b, i), p.len() as int),
{
    lemma_prefix_bytes(p, b);
    lemma_hex4_moved(p, b, i, "\\u 转义需要 4 个十六进制数字"@, "\\u 转义包含非 ASCII 字节"@, "无效 \\u 转义 '\\u"@, "'"@);
    let j = i + 4;
    lemma_hex4_moved(p, b, j + 2, "低代理 \\u 转义需要 4 个十六进制数字"@, "低代理 \\u 转义包含非 ASCII 字节"@, "无效低代理 \\u"@, ""@);
}

proof fn lemma_string_body_moved(p: Seq<u8>, b: Seq<u8>, i: int, acc: Seq<char>)
    requires
        0 <= i,
    ensures
        string_body(p + b, p.len() + i, acc) == moved(string_body(b, i, acc), p.len() as int),
    decreases b.len() - i,
{
    let c = p + b;
    let n = p.len() as int;
    lemma_prefix_bytes(p, b);
    if i < b.len() {
        if b[i] == 0x5C {
            if i + 1 < b.len() {
                let esc = b[i + 1];
                match crate::json::short_escape(esc) {
                    Some(ch) => lemma_string_body_moved(p, b, i + 2, acc.push(ch)),
                    None => if esc == 0x75 {
                        lemma_unicode_moved(p, b, i + 2);
                        if let Ok((ch, k)) = unicode_at(b, i + 2) {
                            if k > i {
                                lemma_string_body_moved(p, b, k, acc.push(ch));
                            }
                        }
                    },
                }
            }
        } else if b[i] == 0x22 {
        } else if b[i] < 0x80 {
            lemma_string_body_moved(p, b, i + 1, acc.push(b[i] as char));
        } else {
            let w = crate::json::lead_width(b[i]);
            if w != 0 && i + w <= b.len() {
                lemma_prefix_range(p, b, i, i + w);
                if valid_utf8(b.subrange(i, i + w)) {
                    lemma_string_body_moved(p, b, i + w, acc + vstd::utf8::decode_utf8(b.subrange(i, i + w)));
                }
            }
        }
    }
}

proof fn lemma_string_moved(p: Seq<u8>, b: Seq<u8>, i: int)
    requires
        0 <= i,
    ensures
        string_at(p + b, p.len() + i) == moved(string_at(b, i), p.len() as int),
{
    lemma_prefix_bytes(p, b);
    lemma_shown_byte_moved(p, b, i);
    lemma_string_body_moved(p, b, i + 1, Seq::empty());
}

proof fn lemma_value_moved(p: Seq<u8>, b: Seq<u8>, i: int)
    requires
        0 <= i,
    ensures
        value_at(p + b, p.len() + i) == moved(value_at(b, i), p.len() as int),
    decreases b.len() - i, 1int,
{
    lemma_prefix_bytes(p, b);
    if i < b.len() {
        let c = b[i];
        if c == 0x7B {
            lemma_object_moved(p, b, i + 1);
        } else if c == 0x5B {
            lemma_array_moved(p, b, i + 1);
        } else if c == 0x22 {
            lemma_string_moved(p, b, i);
        } else if c == 0x74 || c == 0x66 || c == 0x6E {
            lemma_words_moved(p, b, i);
        } else if c == 0x2D || crate::json::is_digit_byte(c) {
            lemma_number_moved(p, b, i);
        }
    }
}

/// What an object's members read to once a member's value has been read up
/// to `m`, with `acc` the members so far.
spec fn after_value(b: Seq<u8>, i: int, acc: Seq<(Seq<char>, JsonView)>, m: int) -> Read<JsonView> {
    let m2 = ws_end(b, m);
    if byte_at(b, m2) == Some(0x2Cu8) {
        if m2 + 1 <= i {
            Err((Seq::empty(), m2))
        } else {
            members_at(b, m2 + 1, acc)
        }
    } else if byte_at(b, m2) == Some(0x7Du8) {
        Ok((JsonView::Object(acc), m2 + 1))
    } else {
        Err(expected_got("',' 或 '}'"@, b, m2))
    }
}

/// What an object's members read to once the key `key` has been read up to `k`.
spec fn after_key(b: Seq<u8>, i: int, acc: Seq<(Seq<char>, JsonView)>, key: Seq<char>, k: int) -> Read<JsonView> {
    let k2 = ws_end(b, k);
    if byte_at(b, k2) != Some(0x3Au8) {
        Err(expected_got("':'"@, b, k2))
    } else {
        match value_at(b, ws_end(b, k2 + 1)) {
            Err(x) => Err(x),
            Ok((v, m)) => after_value(b, i, acc.push((key, v)), m),
        }
    }
}

proof fn lemma_members_split(b: Seq<u8>, i: int, acc: Seq<(Seq<char>, JsonView)>)
    ensures
        members_at(b, i, acc) == match string_at(b, ws_end(b, i)) {
            Err(x) => Err(x),
            Ok((key, k)) => after_key(b, i, acc, key, k),
        },
{
}

proof fn lemma_members_moved(p: Seq<u8>, b: Seq<u8>, i: int, acc: Seq<(Seq<char>, JsonView)>)
    requires
        0 <= i,
    ensures
        members_at(p + b, p.len() + i, acc) == moved(members_at(b, i, acc), p.len() as int),
    decreases b.len() - i, 3int,
{
    let j = ws_end(b, i);
    lemma_ws_end(b, i);
    lemma_ws_end_moved(p, b, i);
    lemma_string_at_advances(b, j);
    lemma_string_moved(p, b, j);
    lemma_members_split(b, i, acc);
    lemma_members_split(p + b, p.len() + i, acc);
    if let Ok((key, k)) = string_at(b, j) {
        lemma_after_key_moved(p, b, i, acc, key, k);
    }
}

proof fn lemma_after_key_moved(p: Seq<u8>, b: Seq<u8>, i: int, acc: Seq<(Seq<char>, JsonView)>, key: Seq<char>, k: int)
    requires
        0 <= i < k,
    ensures
        after_key(p + b, p.len() + i, acc, key, p.len() + k) == moved(after_key(b, i, acc, key, k), p.len() as int),
    decreases b.len() - i, 2int,
{
    let k2 = ws_end(b, k);
    lemma_ws_end(b, k);
    lemma_ws_end_moved(p, b, k);
    lemma_byte_moved(p, b, k2);
    lemma_shown_byte_moved(p, b, k2);
    if byte_at(b, k2) == Some(0x3Au8) {
        let k3 = ws_end(b, k2 + 1);
        lemma_ws_end(b, k2 + 1);
        lemma_ws_end_moved(p, b, k2 + 1);
        lemma_value_moved(p, b, k3);
        lemma_value_advances(b, k3);
        if let Ok((v, m)) = value_at(b, k3) {
            lemma_after_value_moved(p, b, i, acc.push((key, v)), m);
        }
    }
}

proof fn lemma_after_value_moved(p: Seq<u8>, b: Seq<u8>, i: int, acc: Seq<(Seq<char>, JsonView)>, m: int)
    requires
        0 <= i < m,
    ensures
        after_value(p + b, p.len() + i, acc, p.len() + m) == moved(after_value(b, i, acc, m), p.len() as int),
    decreases b.len() - i, 1int,
{
    let m2 = ws_end(b, m);
    lemma_ws_end(b, m);
    lemma_ws_end_moved(p, b, m);
    lemma_byte_moved(p, b, m2);
    lemma_shown_byte_moved(p, b, m2);
    if byte_at(b, m2) == Some(0x2Cu8) && m2 + 1 > i {
        lemma_members_moved(p, b, m2 + 1, acc);
    }
}

proof fn lemma_object_moved(p: Seq<u8>, b: Seq<u8>, i: int)
    requires
        0 <= i,
    ensures
        object_at(p + b, p.len() + i) == moved(object_at(b, i), p.len() as int),
    decreases b.len() - i, 4int,
{
    lemma_prefix_bytes(p, b);
    lemma_ws_end(b, i);
    lemma_ws_end_moved(p, b, i);
    let j = ws_end(b, i);
    if byte_at(b, j) != Some(0x7Du8) {
        lemma_members_moved(p, b, j, Seq::empty());
    }
}

proof fn lemma_elements_moved(p: Seq<u8>, b: Seq<u8>, i: int, acc: Seq<JsonView>)
    requires
        0 <= i,
    ensures
        elements_at(p + b, p.len() + i, acc) == moved(elements_at(b, i, acc), p.len() as int),
    decreases b.len() - i, 2int,
{
    lemma_prefix_bytes(p, b);
    let j = ws_end(b, i);
    lemma_ws_end(b, i);
    lemma_ws_end_moved(p, b, i);
    lemma_value_moved(p, b, j);
    lemma_value_advances(b, j);
    if let Ok((v, m)) = value_at(b, j) {
        let m2 = ws_end(b, m);
        lemma_ws_end(b, m);
        lemma_ws_end_moved(p, b, m);
        if byte_at(b, m2) == Some(0x2Cu8) && m2 + 1 > i {
            lemma_elements_moved(p, b, m2 + 1, acc.push(v));
        }
        lemma_shown_byte_moved(p, b, m2);
    }
}

proof fn lemma_array_moved(p: Seq<u8>, b: Seq<u8>, i: int)
    requires
        0 <= i,
    ensures
        array_at(p + b, p.len() + i) == moved(array_at(b, i), p.len() as int),
    decreases b.len() - i, 3int,
{
    lemma_prefix_bytes(p, b);
    lemma_ws_end(b, i);
    lemma_ws_end_moved(p, b, i);
    let j = ws_end(b, i);
    if byte_at(b, j) != Some(0x5Du8) {
        lemma_elements_moved(p, b, j, Seq::empty());
    }
}

proof fn lemma_ws_run_skipped(w: Seq<u8>, b: Seq<u8>, k: int)
    requires
        0 <= k <= w.len(),
        forall|x: int| 0 <= x < w.len() ==> is_ws_byte(#[trigger] w[x]),
    ensures
        ws_end(w + b, k) == w.len() + ws_end(b, 0),
    decreases w.len() - k,
{
    if k < w.len() {
        assert((w + b)[k] == w[k]);
        lemma_ws_run_skipped(w, b, k + 1);
    } else {
        lemma_ws_end_moved(w, b, 0);
    }
}

/// White space in front of a JSON text is insignificant: with any run of
/// spaces, tabs, line feeds and carriage returns put before it, a text parses
/// to the same value, and fails where it failed, that many bytes further on.
pub proof fn lemma_leading_white_space(w: Seq<u8>, b: Seq<u8>)
    requires
        forall|x: int| 0 <= x < w.len() ==> (#[trigger] w[x] == 0x20u8 || w[x] == 0x09u8 || w[x] == 0x0Au8 || w[x]
            == 0x0Du8),
    ensures
        parse_text(w + b) is Ok <==> parse_text(b) is Ok,
        parse_text(b) matches Ok(v) ==> parse_text(w + b) == Ok::<JsonView, (Seq<char>, int)>(v),
        parse_text(b) matches Err((_, q)) ==> parse_text(w + b) matches Err((_, q2)) && q2 == q + w.len(),
{
    let n = w.len() as int;
    lemma_ws_run_skipped(w, b, 0);
    let j = ws_end(b, 0);
    lemma_ws_end(b, 0);
    lemma_value_moved(w, b, j);
    if let Ok((v, m)) = value_at(b, j) {
        lemma_value_advances(b, j);
        lemma_ws_end_moved(w, b, m);
    }
}

} // verus!

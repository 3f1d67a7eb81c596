//! White space between tokens: a value's text with white space around every
//! bracket, brace, comma and colon, and around the whole, reads back as the
//! value.
use vstd::prelude::*;
use vstd::utf8::encode_utf8;
use crate::json_proof::{
    ascii_chars, at_text, ends_value, lemma_at_byte, lemma_at_split, lemma_encode_ascii, lemma_encode_concat,
    lemma_first_byte, lemma_string_literal, lemma_value_text, value_start, writable,
};
use crate::json::{
    array_at, byte_at, elements_at, is_ws_byte, json_text, members_at, object_at, parse_text, quoted, string_at,
    value_at, ws_end, JsonValue, JsonView,
};

verus! {

/// White space only: spaces, tabs, line feeds and carriage returns.
pub open spec fn ws_text(s: Seq<char>) -> bool {
    forall|k: int| 0 <= k < s.len() ==> (#[trigger] s[k] == ' ' || s[k] == '\t' || s[k] == '\n' || s[k] == '\r')
}

/// The text of a value with the white space `s` put on both sides of every
/// bracket, brace, comma and colon inside it.
pub open spec fn spaced_text(v: JsonView, s: Seq<char>) -> Seq<char>
    decreases v, 0int,
{
    match v {
        JsonView::Array(xs) => seq!['['] + s + spaced_items(xs, s, 0) + s + seq![']'],
        JsonView::Object(fs) => seq!['{'] + s + spaced_members(fs, s, 0) + s + seq!['}'],
        _ => json_text(v),
    }
}

/// The elements of an array from the `k`-th on, spaced by `s`.
pub open spec fn spaced_items(xs: Seq<JsonView>, s: Seq<char>, k: int) -> Seq<char>
    decreases xs, xs.len() - k,
{
    if k < 0 || k >= xs.len() {
        Seq::empty()
    } else {
        proof {
            assert(decreases_to!(xs => xs[k]));
        }
        if k == xs.len() - 1 {
            spaced_text(xs[k], s)
        } else {
            spaced_text(xs[k], s) + s + seq![','] + s + spaced_items(xs, s, k + 1)
        }
    }
}

/// One member of an object, spaced by `s`.
pub open spec fn spaced_member(key: Seq<char>, v: JsonView, s: Seq<char>) -> Seq<char>
    decreases v, 1int,
{
    quoted(key) + s + seq![':'] + s + spaced_text(v, s)
}

/// The members of an object from the `k`-th on, spaced by `s`.
pub open spec fn spaced_members(fs: Seq<(Seq<char>, JsonView)>, s: Seq<char>, k: int) -> Seq<char>
    decreases fs, fs.len() - k,
{
    if k < 0 || k >= fs.len() {
        Seq::empty()
    } else {
        proof {
            assert(decreases_to!(fs => fs[k].1)) by {
                assert(decreases_to!(fs => fs[k]));
                assert(decreases_to!(fs[k] => fs[k].1));
            }
        }
        if k == fs.len() - 1 {
            spaced_member(fs[k].0, fs[k].1, s)
        } else {
            spaced_member(fs[k].0, fs[k].1, s) + s + seq![','] + s + spaced_members(fs, s, k + 1)
        }
    }
}

proof fn lemma_ws_bytes(s: Seq<char>)
    requires
        ws_text(s),
    ensures
        ascii_chars(s),
        encode_utf8(s).len() == s.len(),
        forall|k: int| 0 <= k < s.len() ==> is_ws_byte(#[trigger] encode_utf8(s)[k]),
{
    assert(ascii_chars(s)) by {
        assert forall|k: int| 0 <= k < s.len() implies (#[trigger] s[k] as u32) < 0x80 by {
            assert(s[k] == ' ' || s[k] == '\t' || s[k] == '\n' || s[k] == '\r');
        }
    }
    lemma_encode_ascii(s);
    assert forall|k: int| 0 <= k < s.len() implies is_ws_byte(#[trigger] encode_utf8(s)[k]) by {
        assert(s[k] == ' ' || s[k] == '\t' || s[k] == '\n' || s[k] == '\r');
        assert(encode_utf8(s)[k] == (s[k] as u32) as u8);
    }
}

/// The byte right after the text `x` at `p` is the first of `y`'s.
proof fn lemma_next_byte(b: Seq<u8>, p: int, x: Seq<char>, y: Seq<char>)
    requires
        at_text(b, p, x + y),
        encode_utf8(y).len() > 0,
    ensures
        at_text(b, p, x),
        at_text(b, p + encode_utf8(x).len(), y),
        encode_utf8(x + y).len() == encode_utf8(x).len() + encode_utf8(y).len(),
        p + encode_utf8(x).len() < b.len(),
        b[p + encode_utf8(x).len()] == encode_utf8(y)[0],
{
    lemma_at_split(b, p, x, y);
    let q = p + encode_utf8(x).len();
    assert(b[q] == b.subrange(q, q + encode_utf8(y).len())[0]);
}

/// The first byte of a text followed by more is the text's first byte.
proof fn lemma_first_of(x: Seq<char>, y: Seq<char>)
    requires
        encode_utf8(x).len() > 0,
    ensures
        encode_utf8(x + y).len() > 0,
        encode_utf8(x + y)[0] == encode_utf8(x)[0],
{
    lemma_encode_concat(x, y);
}

/// A run of white space at `p` followed by a byte that is not white space, or
/// by the end, is skipped whole.
proof fn lemma_skip_run(b: Seq<u8>, p: int, s: Seq<char>, k: int)
    requires
        ws_text(s),
        at_text(b, p, s),
        0 <= k <= s.len(),
        p + s.len() == b.len() || (p + s.len() < b.len() && !is_ws_byte(b[p + s.len()])),
    ensures
        ws_end(b, p + k) == p + s.len(),
    decreases s.len() - k,
{
    lemma_ws_bytes(s);
    if k < s.len() {
        assert(b[p + k] == b.subrange(p, p + s.len())[k]);
        assert(is_ws_byte(encode_utf8(s)[k]));
        lemma_skip_run(b, p, s, k + 1);
    }
}

/// A spaced value's text starts with a byte a value can start with.
proof fn lemma_spaced_first(w: JsonView, s: Seq<char>)
    requires
        writable(w),
    ensures
        encode_utf8(spaced_text(w, s)).len() > 0,
        value_start(encode_utf8(spaced_text(w, s))[0]),
{
    match w {
        JsonView::Array(xs) => {
            let rest = s + spaced_items(xs, s, 0) + s + seq![']'];
            assert(spaced_text(w, s) =~= seq!['['] + rest);
            lemma_encode_ascii(seq!['[']);
            lemma_first_of(seq!['['], rest);
        },
        JsonView::Object(fs) => {
            let rest = s + spaced_members(fs, s, 0) + s + seq!['}'];
            assert(spaced_text(w, s) =~= seq!['{'] + rest);
            lemma_encode_ascii(seq!['{']);
            lemma_first_of(seq!['{'], rest);
        },
        _ => {
            lemma_first_byte(w);
        },
    }
}

proof fn lemma_ws_twice(s: Seq<char>)
    requires
        ws_text(s),
    ensures
        ws_text(s + s),
{
    assert forall|k: int| 0 <= k < (s + s).len() implies ((#[trigger] (s + s)[k]) == ' ' || (s + s)[k] == '\t'
        || (s + s)[k] == '\n' || (s + s)[k] == '\r') by {
        if k < s.len() {
            assert((s + s)[k] == s[k]);
        } else {
            assert((s + s)[k] == s[k - s.len()]);
        }
    }
}

/// A spaced value's text, followed by the end, white space or a separator,
/// reads back as the value.
proof fn lemma_value_spaced(b: Seq<u8>, i: int, w: JsonView, s: Seq<char>)
    requires
        writable(w),
        ws_text(s),
        at_text(b, i, spaced_text(w, s)),
        ends_value(b, i + encode_utf8(spaced_text(w, s)).len()),
    ensures
        value_at(b, i) == Ok::<(JsonView, int), (Seq<char>, int)>((w, i + encode_utf8(spaced_text(w, s)).len())),
    decreases w, 0int,
{
    match w {
        JsonView::Array(xs) => lemma_array_spaced(b, i, xs, s),
        JsonView::Object(fs) => lemma_object_spaced(b, i, fs, s),
        _ => lemma_value_text(b, i, w),
    }
}

#[verifier::spinoff_prover]
proof fn lemma_array_spaced(b: Seq<u8>, i: int, xs: Seq<JsonView>, s: Seq<char>)
    requires
        writable(JsonView::Array(xs)),
        ws_text(s),
        at_text(b, i, spaced_text(JsonView::Array(xs), s)),
        ends_value(b, i + encode_utf8(spaced_text(JsonView::Array(xs), s)).len()),
    ensures
        value_at(b, i) == Ok::<(JsonView, int), (Seq<char>, int)>(
            (JsonView::Array(xs), i + encode_utf8(spaced_text(JsonView::Array(xs), s)).len()),
        ),
    decreases xs, xs.len() + 1,
{
    let w = JsonView::Array(xs);
    let items = spaced_items(xs, s, 0);
    let inner = s + (items + (s + seq![']']));
    assert(spaced_text(w, s) =~= seq!['['] + inner);
    lemma_encode_ascii(seq!['[']);
    lemma_encode_ascii(seq![']']);
    lemma_ws_bytes(s);
    lemma_at_split(b, i, seq!['['], inner);
    lemma_at_byte(b, i, '[');
    let q = i + 1;
    lemma_encode_concat(s, items + (s + seq![']']));
    lemma_encode_concat(items, s + seq![']']);
    lemma_encode_concat(s, seq![']']);
    if xs.len() == 0 {
        assert(items =~= Seq::<char>::empty());
        assert(inner =~= (s + s) + seq![']']);
        lemma_ws_twice(s);
        lemma_ws_bytes(s + s);
        lemma_next_byte(b, q, s + s, seq![']']);
        lemma_skip_run(b, q, s + s, 0);
        assert(xs =~= Seq::<JsonView>::empty());
        assert(array_at(b, q) == Ok::<(JsonView, int), (Seq<char>, int)>((JsonView::Array(Seq::empty()), q + 2 * s.len() + 1)));
    } else {
        lemma_spaced_first(xs[0], s);
        let rest0 = if xs.len() == 1 { Seq::<char>::empty() } else { s + seq![','] + s + spaced_items(xs, s, 1) };
        assert(items == spaced_text(xs[0], s) + rest0) by {
            if xs.len() == 1 {
                assert(spaced_text(xs[0], s) + rest0 =~= spaced_text(xs[0], s));
            }
        }
        lemma_first_of(spaced_text(xs[0], s), rest0);
        lemma_first_of(items, s + seq![']']);
        lemma_next_byte(b, q, s, items + (s + seq![']']));
        lemma_skip_run(b, q, s, 0);
        let j = q + s.len();
        assert(Seq::<char>::empty() + (items + (s + seq![']'])) =~= items + (s + seq![']']));
        lemma_elements_spaced(b, j, xs, s, 0, Seq::empty());
        assert(xs.take(0) =~= Seq::<JsonView>::empty());
        assert(array_at(b, q) == elements_at(b, j, Seq::empty()));
    }
    assert(value_at(b, i) == array_at(b, q));
}

#[verifier::spinoff_prover]
#[verifier::rlimit(40)]
proof fn lemma_elements_spaced(b: Seq<u8>, p: int, xs: Seq<JsonView>, s: Seq<char>, k: int, lead: Seq<char>)
    requires
        0 <= k < xs.len(),
        forall|x: int| 0 <= x < xs.len() ==> writable(#[trigger] xs[x]),
        ws_text(s),
        ws_text(lead),
        at_text(b, p, lead + (spaced_items(xs, s, k) + (s + seq![']']))),
    ensures
        elements_at(b, p, xs.take(k)) == Ok::<(JsonView, int), (Seq<char>, int)>(
            (JsonView::Array(xs), p + lead.len() + encode_utf8(spaced_items(xs, s, k)).len() + s.len() + 1),
        ),
    decreases xs, xs.len() - k,
{
    let v = xs[k];
    let vt = spaced_text(v, s);
    let last = k == xs.len() - 1;
    let rest2 = s + (spaced_items(xs, s, k + 1) + (s + seq![']']));
    let after = if last { seq![']'] } else { seq![','] + rest2 };
    let more = if last { Seq::<char>::empty() } else { s + seq![','] + s + spaced_items(xs, s, k + 1) };
    assert(spaced_items(xs, s, k) == vt + more) by {
        if last {
            assert(vt + more =~= vt);
        }
    }
    assert(spaced_items(xs, s, k) + (s + seq![']']) =~= vt + (s + after));
    lemma_ws_bytes(s);
    lemma_ws_bytes(lead);
    lemma_encode_ascii(seq![']']);
    lemma_encode_ascii(seq![',']);
    lemma_spaced_first(v, s);
    lemma_first_of(vt, s + after);
    lemma_next_byte(b, p, lead, vt + (s + after));
    lemma_skip_run(b, p, lead, 0);
    let q = p + lead.len();
    if !last {
        lemma_first_of(seq![','], rest2);
    }
    lemma_encode_concat(s, after);
    lemma_next_byte(b, q, vt, s + after);
    let m = q + encode_utf8(vt).len();
    lemma_next_byte(b, m, s, after);
    let m2 = m + s.len();
    if s.len() > 0 {
        lemma_first_of(s, after);
    }
    assert(ends_value(b, m));
    assert(decreases_to!(xs => xs[k]));
    lemma_value_spaced(b, q, v, s);
    lemma_skip_run(b, m, s, 0);
    let acc2 = xs.take(k).push(v);
    assert(acc2 =~= xs.take(k + 1));
    lemma_encode_concat(vt, more);
    if last {
        assert(acc2 =~= xs);
        assert(byte_at(b, m2) == Some(0x5Du8));
    } else {
        assert(byte_at(b, m2) == Some(0x2Cu8));
        lemma_at_split(b, m2, seq![','], rest2);
        lemma_elements_spaced(b, m2 + 1, xs, s, k + 1, s);
        lemma_encode_concat(s + seq![','] + s, spaced_items(xs, s, k + 1));
        lemma_encode_concat(s + seq![','], s);
        lemma_encode_concat(s, seq![',']);
        assert(elements_at(b, p, xs.take(k)) == elements_at(b, m2 + 1, acc2));
    }
}

#[verifier::spinoff_prover]
#[verifier::rlimit(80)]
proof fn lemma_object_spaced(b: Seq<u8>, i: int, fs: Seq<(Seq<char>, JsonView)>, s: Seq<char>)
    requires
        writable(JsonView::Object(fs)),
        ws_text(s),
        at_text(b, i, spaced_text(JsonView::Object(fs), s)),
        ends_value(b, i + encode_utf8(spaced_text(JsonView::Object(fs), s)).len()),
    ensures
        value_at(b, i) == Ok::<(JsonView, int), (Seq<char>, int)>(
            (JsonView::Object(fs), i + encode_utf8(spaced_text(JsonView::Object(fs), s)).len()),
        ),
    decreases fs, fs.len() + 1,
{
    let w = JsonView::Object(fs);
    let mems = spaced_members(fs, s, 0);
    let inner = s + (mems + (s + seq!['}']));
    assert(spaced_text(w, s) =~= seq!['{'] + inner);
    lemma_encode_ascii(seq!['{']);
    lemma_encode_ascii(seq!['}']);
    lemma_ws_bytes(s);
    lemma_at_split(b, i, seq!['{'], inner);
    lemma_at_byte(b, i, '{');
    let q = i + 1;
    lemma_encode_concat(s, mems + (s + seq!['}']));
    lemma_encode_concat(mems, s + seq!['}']);
    lemma_encode_concat(s, seq!['}']);
    if fs.len() == 0 {
        assert(mems =~= Seq::<char>::empty());
        assert(inner =~= (s + s) + seq!['}']);
        lemma_ws_twice(s);
        lemma_ws_bytes(s + s);
        lemma_next_byte(b, q, s + s, seq!['}']);
        lemma_skip_run(b, q, s + s, 0);
        assert(fs =~= Seq::<(Seq<char>, JsonView)>::empty());
        assert(object_at(b, q) == Ok::<(JsonView, int), (Seq<char>, int)>((JsonView::Object(Seq::empty()), q + 2 * s.len() + 1)));
    } else {
        let key = fs[0].0;
        let tail0 = if fs.len() == 1 { Seq::<char>::empty() } else { s + seq![','] + s + spaced_members(fs, s, 1) };
        let after_key = s + seq![':'] + s + spaced_text(fs[0].1, s) + tail0;
        assert(mems + (s + seq!['}']) =~= quoted(key) + (after_key + (s + seq!['}']))) by {
            if fs.len() == 1 {
                assert(mems == spaced_member(key, fs[0].1, s));
            } else {
                assert(mems == spaced_member(key, fs[0].1, s) + s + seq![','] + s + spaced_members(fs, s, 1));
            }
        }
        lemma_at_split(b, q, s, mems + (s + seq!['}']));
        let j = q + s.len();
        lemma_at_split(b, j, quoted(key), after_key + (s + seq!['}']));
        lemma_string_literal(b, j, key);
        assert(b[j] == b.subrange(j, j + encode_utf8(quoted(key)).len())[0]);
        lemma_skip_run(b, q, s, 0);
        assert(Seq::<char>::empty() + (mems + (s + seq!['}'])) =~= mems + (s + seq!['}']));
        lemma_members_spaced(b, j, fs, s, 0, Seq::empty());
        assert(fs.take(0) =~= Seq::<(Seq<char>, JsonView)>::empty());
        assert(object_at(b, q) == members_at(b, j, Seq::empty()));
    }
    assert(value_at(b, i) == object_at(b, q));
}

#[verifier::spinoff_prover]
#[verifier::rlimit(80)]
proof fn lemma_members_spaced(
    b: Seq<u8>,
    p: int,
    fs: Seq<(Seq<char>, JsonView)>,
    s: Seq<char>,
    k: int,
    lead: Seq<char>,
)
    requires
        0 <= k < fs.len(),
        forall|x: int| 0 <= x < fs.len() ==> writable(#[trigger] fs[x].1),
        ws_text(s),
        ws_text(lead),
        at_text(b, p, lead + (spaced_members(fs, s, k) + (s + seq!['}']))),
    ensures
        members_at(b, p, fs.take(k)) == Ok::<(JsonView, int), (Seq<char>, int)>(
            (JsonView::Object(fs), p + lead.len() + encode_utf8(spaced_members(fs, s, k)).len() + s.len() + 1),
        ),
    decreases fs, fs.len() - k,
{
    let key = fs[k].0;
    let v = fs[k].1;
    let vt = spaced_text(v, s);
    let qk = quoted(key);
    let mt = spaced_member(key, v, s);
    let last = k == fs.len() - 1;
    let rest2 = s + (spaced_members(fs, s, k + 1) + (s + seq!['}']));
    let after = if last { seq!['}'] } else { seq![','] + rest2 };
    let more = if last { Seq::<char>::empty() } else { s + seq![','] + s + spaced_members(fs, s, k + 1) };
    assert(spaced_members(fs, s, k) == mt + more) by {
        if last {
            assert(mt + more =~= mt);
        }
    }
    let tail_v = s + after;
    let x3 = vt + tail_v;
    let x2 = s + x3;
    let x1 = seq![':'] + x2;
    let x0 = s + x1;
    assert(spaced_members(fs, s, k) + (s + seq!['}']) =~= qk + x0);
    lemma_ws_bytes(s);
    lemma_ws_bytes(lead);
    lemma_encode_ascii(seq!['}']);
    lemma_encode_ascii(seq![',']);
    lemma_encode_ascii(seq![':']);
    // the key
    lemma_at_split(b, p, lead, qk + x0);
    let q = p + lead.len();
    lemma_at_split(b, q, qk, x0);
    lemma_string_literal(b, q, key);
    let lk = encode_utf8(qk).len() as int;
    assert(b[q] == b.subrange(q, q + lk)[0]);
    lemma_skip_run(b, p, lead, 0);
    // the colon
    let kq = q + lk;
    lemma_first_of(seq![':'], x2);
    lemma_next_byte(b, kq, s, x1);
    lemma_skip_run(b, kq, s, 0);
    let k2 = kq + s.len();
    lemma_at_split(b, k2, seq![':'], x2);
    // the value
    lemma_spaced_first(v, s);
    lemma_first_of(vt, tail_v);
    lemma_next_byte(b, k2 + 1, s, x3);
    lemma_skip_run(b, k2 + 1, s, 0);
    let k3 = k2 + 1 + s.len();
    if !last {
        lemma_first_of(seq![','], rest2);
    }
    lemma_encode_concat(s, after);
    lemma_next_byte(b, k3, vt, tail_v);
    let m = k3 + encode_utf8(vt).len();
    lemma_next_byte(b, m, s, after);
    let m2 = m + s.len();
    if s.len() > 0 {
        lemma_first_of(s, after);
    }
    assert(ends_value(b, m));
    assert(decreases_to!(fs => fs[k].1)) by {
        assert(decreases_to!(fs => fs[k]));
        assert(decreases_to!(fs[k] => fs[k].1));
    }
    lemma_value_spaced(b, k3, v, s);
    lemma_skip_run(b, m, s, 0);
    let acc2 = fs.take(k).push((key, v));
    assert(acc2 =~= fs.take(k + 1));
    // lengths
    lemma_encode_concat(qk, s);
    lemma_encode_concat(qk + s, seq![':']);
    lemma_encode_concat(qk + s + seq![':'], s);
    lemma_encode_concat(qk + s + seq![':'] + s, vt);
    lemma_encode_concat(mt, more);
    if last {
        assert(acc2 =~= fs);
        assert(byte_at(b, m2) == Some(0x7Du8));
    } else {
        assert(byte_at(b, m2) == Some(0x2Cu8));
        lemma_at_split(b, m2, seq![','], rest2);
        lemma_members_spaced(b, m2 + 1, fs, s, k + 1, s);
        lemma_encode_concat(s + seq![','] + s, spaced_members(fs, s, k + 1));
        lemma_encode_concat(s + seq![','], s);
        lemma_encode_concat(s, seq![',']);
        assert(members_at(b, p, fs.take(k)) == members_at(b, m2 + 1, acc2));
    }
}

/// White space between tokens is insignificant: with a run of spaces, tabs,
/// line feeds and carriage returns on both sides of every bracket, brace,
/// comma and colon of `stringify`'s text of a value, and before and after the
/// whole, the text still parses as the value.
pub proof fn lemma_parse_spaced(v: JsonValue, s: Seq<char>)
    requires
        writable(v@),
        ws_text(s),
    ensures
        parse_text(encode_utf8(s + spaced_text(v@, s) + s)) == Ok::<JsonView, (Seq<char>, int)>(v@),
{
    let w = v@;
    let vt = spaced_text(w, s);
    let all = s + vt + s;
    let b = encode_utf8(all);
    assert(b.subrange(0, b.len() as int) =~= b);
    assert(all =~= s + (vt + s));
    assert(at_text(b, 0, s + (vt + s)));
    lemma_ws_bytes(s);
    lemma_spaced_first(w, s);
    lemma_first_of(vt, s);
    lemma_next_byte(b, 0, s, vt + s);
    lemma_skip_run(b, 0, s, 0);
    let j = s.len() as int;
    lemma_at_split(b, j, vt, s);
    let m = j + encode_utf8(vt).len();
    if s.len() > 0 {
        assert(b[m] == b.subrange(m, m + s.len())[0]);
        assert(is_ws_byte(encode_utf8(s)[0]));
    }
    assert(ends_value(b, m));
    lemma_value_spaced(b, j, w, s);
    lemma_skip_run(b, m, s, 0);
}

} // verus!

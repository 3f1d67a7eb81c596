//! Reading a history record back: a record line written by `entry_to_json`
//! reads back, by `parse_entry`, as the same record.
use vstd::prelude::*;
use crate::fix_history::{
    brace_end, change_json, change_of, closing_quote, entry_json, entry_of, EntryView, FixHistoryEntry, digit_run_end, digits_value, is_digit_char, jq, unescape, ChangeView,
};
use crate::text::{join_with, dec, digit_char, escape_json, flat_map_chars, json_escape_char, replace_all};

verus! {

// ===== text that escapes and unescapes cleanly =====

/// A character that the history format carries through unchanged: not a
/// backslash, and not a control character other than newline, carriage return
/// and tab.
pub open spec fn plain_char(c: char) -> bool {
    c != '\\' && ((c as u32) >= 0x20 || c == '\n' || c == '\r' || c == '\t')
}

pub open spec fn plain_text(x: Seq<char>) -> bool {
    forall|i: int| 0 <= i < x.len() ==> plain_char(#[trigger] x[i])
}

/// `flat_map_chars` takes the first character first.
pub proof fn lemma_flat_front(s: Seq<char>, f: spec_fn(char) -> Seq<char>)
    requires
        s.len() > 0,
    ensures
        flat_map_chars(s, f) == f(s[0]) + flat_map_chars(s.drop_first(), f),
    decreases s.len(),
{
    if s.len() == 1 {
        assert(s.drop_last().len() == 0);
        assert(s.drop_first().len() == 0);
        assert(flat_map_chars(s.drop_first(), f) == Seq::<char>::empty());
        assert(flat_map_chars(s.drop_last(), f) == Seq::<char>::empty());
        assert(f(s[0]) + Seq::<char>::empty() == f(s[0]));
    } else {
        lemma_flat_front(s.drop_last(), f);
        assert(s.drop_last().drop_first() == s.drop_first().drop_last());
        assert(s.drop_first().last() == s.last());
        assert(s.drop_last()[0] == s[0]);
    }
}

/// JSON escaping with some of the two-character escapes switched on: quote,
/// newline, carriage return, tab.
pub open spec fn punit(c: char, q: bool, n: bool, r: bool, t: bool) -> Seq<char> {
    if c == '"' && q {
        seq!['\\', '"']
    } else if c == '\n' && n {
        seq!['\\', 'n']
    } else if c == '\r' && r {
        seq!['\\', 'r']
    } else if c == '\t' && t {
        seq!['\\', 't']
    } else {
        seq![c]
    }
}

pub open spec fn pesc(x: Seq<char>, q: bool, n: bool, r: bool, t: bool) -> Seq<char>
    decreases x.len(),
{
    if x.len() == 0 {
        Seq::empty()
    } else {
        punit(x[0], q, n, r, t) + pesc(x.drop_first(), q, n, r, t)
    }
}

proof fn lemma_escape_is_pesc(x: Seq<char>)
    requires
        plain_text(x),
    ensures
        escape_json(x) == pesc(x, true, true, true, true),
    decreases x.len(),
{
    if x.len() > 0 {
        lemma_flat_front(x, |c: char| json_escape_char(c));
        assert(plain_text(x.drop_first())) by {
            assert forall|i: int| 0 <= i < x.drop_first().len() implies plain_char(#[trigger] x.drop_first()[i]) by {
                assert(x.drop_first()[i] == x[i + 1]);
            }
        }
        lemma_escape_is_pesc(x.drop_first());
        assert(plain_char(x[0]));
        assert(json_escape_char(x[0]) == punit(x[0], true, true, true, true));
    } else {
        assert(escape_json(x) == Seq::<char>::empty());
    }
}

proof fn lemma_plain_tail(x: Seq<char>)
    requires
        plain_text(x),
        x.len() > 0,
    ensures
        plain_text(x.drop_first()),
        plain_char(x[0]),
{
    assert forall|i: int| 0 <= i < x.drop_first().len() implies plain_char(#[trigger] x.drop_first()[i]) by {
        assert(x.drop_first()[i] == x[i + 1]);
    }
}

/// Undoing the backslash escape changes nothing: there is none.
proof fn lemma_replace_backslash_noop(x: Seq<char>, q: bool, n: bool, r: bool, t: bool)
    requires
        plain_text(x),
    ensures
        replace_all(pesc(x, q, n, r, t), seq!['\\', '\\'], seq!['\\']) == pesc(x, q, n, r, t),
    decreases x.len(),
{
    let p = seq!['\\', '\\'];
    let rp = seq!['\\'];
    if x.len() > 0 {
        lemma_plain_tail(x);
        lemma_replace_backslash_noop(x.drop_first(), q, n, r, t);
        let u = punit(x[0], q, n, r, t);
        let rest = pesc(x.drop_first(), q, n, r, t);
        let s = u + rest;
        assert(pesc(x, q, n, r, t) == s);
        if u.len() == 2 {
            assert(s.subrange(0, 2) == u);
            assert(u[0] == '\\');
            assert(u[1] != '\\');
            assert(u != p);
            assert(replace_all(s, p, rp) == seq![s[0]] + replace_all(s.drop_first(), p, rp));
            let s2 = s.drop_first();
            assert(s2 == seq![u[1]] + rest);
            if s2.len() < 2 {
                assert(rest.len() == 0);
                assert(replace_all(s2, p, rp) == s2);
                assert(replace_all(rest, p, rp) == rest);
            } else {
                assert(s2.subrange(0, 2)[0] == u[1]);
                assert(s2.subrange(0, 2) != p);
                assert(s2.drop_first() == rest);
                assert(replace_all(s2, p, rp) == seq![u[1]] + replace_all(rest, p, rp));
            }
            assert(seq![s[0]] + (seq![u[1]] + rest) == s);
        } else {
            assert(u == seq![x[0]]);
            if s.len() < 2 {
                assert(rest.len() == 0);
                assert(replace_all(s, p, rp) == s);
            } else {
                assert(s.subrange(0, 2)[0] == x[0]);
                assert(s.subrange(0, 2) != p);
                assert(s.drop_first() == rest);
                assert(replace_all(s, p, rp) == seq![s[0]] + replace_all(s.drop_first(), p, rp));
                assert(seq![s[0]] + rest == s);
            }
        }
    } else {
        assert(pesc(x, q, n, r, t).len() == 0);
    }
}


/// One unit of escaped text in front of `rest` under undoing `\a`: the unit
/// is `\a` itself (replaced), another escape `\b`, or a character that is not
/// a backslash.
proof fn lemma_replace_step(u: Seq<char>, rest: Seq<char>, a: char, ch: char)
    requires
        a != '\\',
        u == seq!['\\', a] || (u.len() == 2 && u[0] == '\\' && u[1] != '\\') || (u.len() == 1 && u[0] != '\\'),
    ensures
        replace_all(u + rest, seq!['\\', a], seq![ch]) == (if u == seq!['\\', a] { seq![ch] } else { u })
            + replace_all(rest, seq!['\\', a], seq![ch]),
{
    let p = seq!['\\', a];
    let rp = seq![ch];
    let s = u + rest;
    if u == p {
        assert(s.subrange(0, 2) == p);
        assert(s.skip(2) == rest);
    } else if u.len() == 2 {
        assert(s.subrange(0, 2) == u);
        assert(replace_all(s, p, rp) == seq![s[0]] + replace_all(s.drop_first(), p, rp));
        let s2 = s.drop_first();
        assert(s2 == seq![u[1]] + rest);
        if s2.len() < 2 {
            assert(rest.len() == 0);
            assert(replace_all(s2, p, rp) == s2);
            assert(replace_all(rest, p, rp) == rest);
        } else {
            assert(s2.subrange(0, 2)[0] == u[1]);
            assert(s2.subrange(0, 2) != p);
            assert(s2.drop_first() == rest);
            assert(replace_all(s2, p, rp) == seq![u[1]] + replace_all(rest, p, rp));
        }
        assert(seq![s[0]] + (seq![u[1]] + replace_all(rest, p, rp)) == u + replace_all(rest, p, rp));
    } else {
        if s.len() < 2 {
            assert(rest.len() == 0);
            assert(replace_all(s, p, rp) == s);
            assert(replace_all(rest, p, rp) == rest);
            assert(s == u + rest);
        } else {
            assert(s.subrange(0, 2)[0] == u[0]);
            assert(s.subrange(0, 2) != p);
            assert(s.drop_first() == rest);
            assert(replace_all(s, p, rp) == seq![s[0]] + replace_all(s.drop_first(), p, rp));
            assert(seq![s[0]] == u);
        }
    }
}

/// A unit of partially escaped text is one of the shapes `lemma_replace_step` takes.
proof fn lemma_punit_shape(c: char, q: bool, n: bool, r: bool, t: bool, a: char)
    requires
        plain_char(c),
        a != '\\',
    ensures
        ({
            let u = punit(c, q, n, r, t);
            u == seq!['\\', a] || (u.len() == 2 && u[0] == '\\' && u[1] != '\\') || (u.len() == 1 && u[0]
                != '\\')
        }),
{
}

/// Undoing one kind of two-character escape `\a` (back to `ch`) turns the
/// escaping with flags `(q, n, r, t)` into the one with flags `(q2, n2, r2, t2)`.
proof fn lemma_replace_kind(
    x: Seq<char>,
    q: bool,
    n: bool,
    r: bool,
    t: bool,
    a: char,
    ch: char,
    q2: bool,
    n2: bool,
    r2: bool,
    t2: bool,
)
    requires
        plain_text(x),
        a != '\\',
        forall|c: char| #[trigger] punit(c, q2, n2, r2, t2) == (if punit(c, q, n, r, t) == seq!['\\', a] {
            seq![ch]
        } else {
            punit(c, q, n, r, t)
        }),
    ensures
        replace_all(pesc(x, q, n, r, t), seq!['\\', a], seq![ch]) == pesc(x, q2, n2, r2, t2),
    decreases x.len(),
{
    if x.len() > 0 {
        lemma_plain_tail(x);
        lemma_replace_kind(x.drop_first(), q, n, r, t, a, ch, q2, n2, r2, t2);
        let u = punit(x[0], q, n, r, t);
        lemma_punit_shape(x[0], q, n, r, t, a);
        lemma_replace_step(u, pesc(x.drop_first(), q, n, r, t), a, ch);
        assert(punit(x[0], q2, n2, r2, t2) == (if u == seq!['\\', a] { seq![ch] } else { u }));
    } else {
        assert(pesc(x, q, n, r, t).len() == 0);
        assert(pesc(x, q2, n2, r2, t2).len() == 0);
    }
}

proof fn lemma_pesc_none(x: Seq<char>)
    ensures
        pesc(x, false, false, false, false) == x,
    decreases x.len(),
{
    if x.len() > 0 {
        lemma_pesc_none(x.drop_first());
        assert(seq![x[0]] + x.drop_first() == x);
    }
}

/// Escaping a plain text and undoing the escapes gives the text back.
pub proof fn lemma_unescape_escape(x: Seq<char>)
    requires
        plain_text(x),
    ensures
        unescape(escape_json(x)) == x,
{
    reveal_strlit("\\\"");
    reveal_strlit("\"");
    reveal_strlit("\\\\");
    reveal_strlit("\\");
    reveal_strlit("\\n");
    reveal_strlit("\n");
    reveal_strlit("\\r");
    reveal_strlit("\r");
    reveal_strlit("\\t");
    reveal_strlit("\t");
    lemma_escape_is_pesc(x);
    assert("\\\""@ == seq!['\\', '"']);
    assert("\""@ == seq!['"']);
    assert("\\\\"@ == seq!['\\', '\\']);
    assert("\\"@ == seq!['\\']);
    assert("\\n"@ == seq!['\\', 'n']);
    assert("\n"@ == seq!['\n']);
    assert("\\r"@ == seq!['\\', 'r']);
    assert("\r"@ == seq!['\r']);
    assert("\\t"@ == seq!['\\', 't']);
    assert("\t"@ == seq!['\t']);
    lemma_replace_kind(x, true, true, true, true, '"', '"', false, true, true, true);
    lemma_replace_backslash_noop(x, false, true, true, true);
    lemma_replace_kind(x, false, true, true, true, 'n', '\n', false, false, true, true);
    lemma_replace_kind(x, false, false, true, true, 'r', '\r', false, false, false, true);
    lemma_replace_kind(x, false, false, false, true, 't', '\t', false, false, false, false);
    lemma_pesc_none(x);
}


proof fn lemma_cq_pesc(s: Seq<char>, i: int, st: int, x: Seq<char>)
    requires
        plain_text(x),
        0 <= st <= i,
        i + pesc(x, true, true, true, true).len() < s.len(),
        s.subrange(i, i + pesc(x, true, true, true, true).len()) == pesc(x, true, true, true, true),
        s[i + pesc(x, true, true, true, true).len()] == '"',
    ensures
        closing_quote(s, i, st) == i + pesc(x, true, true, true, true).len(),
    decreases x.len(),
{
    let e = pesc(x, true, true, true, true);
    if x.len() > 0 {
        lemma_plain_tail(x);
        let u = punit(x[0], true, true, true, true);
        let rest = pesc(x.drop_first(), true, true, true, true);
        assert(e == u + rest);
        assert(s[i] == e[0]);
        assert(e[0] == u[0]);
        if u.len() == 2 {
            assert(u[0] == '\\');
            assert(s.subrange(i + 2, i + 2 + rest.len()) == rest) by {
                assert forall|k: int| 0 <= k < rest.len() implies s.subrange(i + 2, i + 2 + rest.len())[k] == rest[k] by {
                    assert(s.subrange(i, i + e.len())[k + 2] == e[k + 2]);
                }
            }
            lemma_cq_pesc(s, i + 2, st, x.drop_first());
        } else {
            assert(u[0] != '\\' && u[0] != '"');
            assert(s.subrange(i + 1, i + 1 + rest.len()) == rest) by {
                assert forall|k: int| 0 <= k < rest.len() implies s.subrange(i + 1, i + 1 + rest.len())[k] == rest[k] by {
                    assert(s.subrange(i, i + e.len())[k + 1] == e[k + 1]);
                }
            }
            lemma_cq_pesc(s, i + 1, st, x.drop_first());
        }
    }
}

/// Scanning a JSON string body that is the escape of a plain text stops at the
/// quote right after it.
proof fn lemma_cq_escaped(s: Seq<char>, i: int, x: Seq<char>)
    requires
        plain_text(x),
        0 <= i,
        i + escape_json(x).len() < s.len(),
        s.subrange(i, i + escape_json(x).len()) == escape_json(x),
        s[i + escape_json(x).len()] == '"',
    ensures
        closing_quote(s, i, i) == i + escape_json(x).len(),
{
    lemma_escape_is_pesc(x);
    lemma_cq_pesc(s, i, i, x);
}

proof fn lemma_digit_char_is_digit(d: nat)
    requires
        d < 10,
    ensures
        is_digit_char(digit_char(d)),
        digit_char(d) as nat - '0' as nat == d,
{
}

/// A decimal numeral: nonempty digits reading back as the number.
pub proof fn lemma_dec_digits(n: nat)
    ensures
        dec(n).len() >= 1,
        forall|k: int| 0 <= k < dec(n).len() ==> is_digit_char(#[trigger] dec(n)[k]),
        digits_value(dec(n)) == n,
    decreases n,
{
    if n < 10 {
        lemma_digit_char_is_digit(n);
        assert(dec(n) == seq![digit_char(n)]);
        assert(dec(n).drop_last().len() == 0);
        assert(digits_value(dec(n).drop_last()) == 0);
        assert(digits_value(dec(n)) == n);
    } else {
        lemma_dec_digits(n / 10);
        lemma_digit_char_is_digit(n % 10);
        let d = dec(n);
        assert(d == dec(n / 10).push(digit_char(n % 10)));
        assert(d.drop_last() == dec(n / 10));
        assert forall|k: int| 0 <= k < d.len() implies is_digit_char(#[trigger] d[k]) by {
            if k < d.len() - 1 {
                assert(d[k] == dec(n / 10)[k]);
            }
        }
        assert(digits_value(d) == digits_value(dec(n / 10)) * 10 + (n % 10));
        assert((n / 10) * 10 + n % 10 == n) by (nonlinear_arith);
    }
}

/// The run of digits at `i` ends where the numeral does.
proof fn lemma_digit_run(s: Seq<char>, i: int, d: Seq<char>)
    requires
        0 <= i,
        i + d.len() <= s.len(),
        s.subrange(i, i + d.len()) == d,
        forall|k: int| 0 <= k < d.len() ==> is_digit_char(#[trigger] d[k]),
        i + d.len() == s.len() || !is_digit_char(s[i + d.len()]),
    ensures
        digit_run_end(s, i) == i + d.len(),
    decreases d.len(),
{
    if d.len() > 0 {
        assert(s[i] == d[0]);
        assert(s.subrange(i + 1, i + 1 + d.drop_first().len()) == d.drop_first()) by {
            assert forall|k: int| 0 <= k < d.drop_first().len() implies s.subrange(i + 1, i + d.len())[k] == d.drop_first()[k] by {
                assert(s.subrange(i, i + d.len())[k + 1] == d[k + 1]);
            }
        }
        assert forall|k: int| 0 <= k < d.drop_first().len() implies is_digit_char(#[trigger] d.drop_first()[k]) by {
            assert(d.drop_first()[k] == d[k + 1]);
        }
        lemma_digit_run(s, i + 1, d.drop_first());
    }
}


// ===== where a key can be found =====

pub open spec fn is_key_letter(c: char) -> bool {
    'a' <= c <= 'z'
}

/// A key name: lowercase letters.
pub open spec fn key_name(k: Seq<char>) -> bool {
    k.len() > 0 && forall|i: int| 0 <= i < k.len() ==> is_key_letter(#[trigger] k[i])
}

/// Position `c` closes a key: a quote right after a letter and right before
/// a colon.
pub open spec fn key_close(s: Seq<char>, c: int) -> bool {
    1 <= c && c + 1 < s.len() && s[c] == '"' && s[c + 1] == ':' && is_key_letter(s[c - 1])
}

/// `"key` ends right before position `c`.
pub open spec fn quoted_before(s: Seq<char>, c: int, k: Seq<char>) -> bool {
    c - k.len() - 1 >= 0 && c <= s.len() && s.subrange(c - k.len() - 1, c) == seq!['"'] + k
}

/// Every key close of `s` (below its last position) closes one of `keys`.
pub open spec fn closes_known(s: Seq<char>, keys: Seq<Seq<char>>) -> bool {
    forall|c: int| #[trigger] key_close(s, c) ==> exists|k: Seq<char>| keys.contains(k) && key_name(k) && quoted_before(s, c, k)
}

/// The text a key's value is looked up by: `"key":` and a tail.
pub open spec fn key_needle(k: Seq<char>, tail: Seq<char>) -> Seq<char> {
    seq!['"'] + k + seq!['"', ':'] + tail
}

/// Two keys cannot both end right before the same position.
proof fn lemma_keys_agree(s: Seq<char>, c: int, a: Seq<char>, b: Seq<char>)
    requires
        key_name(a),
        key_name(b),
        quoted_before(s, c, a),
        quoted_before(s, c, b),
    ensures
        a == b,
{
    let sa = s.subrange(c - a.len() - 1, c);
    let sb = s.subrange(c - b.len() - 1, c);
    if a.len() < b.len() {
        let i = c - a.len() - 1;
        assert(sa[0] == s[i]);
        assert(sb[i - (c - b.len() - 1)] == s[i]);
        assert(sb[i - (c - b.len() - 1)] == b[i - (c - b.len() - 1) - 1]);
        assert(is_key_letter(b[i - (c - b.len() - 1) - 1]));
    } else if b.len() < a.len() {
        let i = c - b.len() - 1;
        assert(sb[0] == s[i]);
        assert(sa[i - (c - a.len() - 1)] == s[i]);
        assert(sa[i - (c - a.len() - 1)] == a[i - (c - a.len() - 1) - 1]);
        assert(is_key_letter(a[i - (c - a.len() - 1) - 1]));
    } else {
        assert forall|i: int| 0 <= i < a.len() implies a[i] == b[i] by {
            assert(sa[i + 1] == a[i]);
            assert(sb[i + 1] == b[i]);
        }
        assert(a =~= b);
    }
}

/// A needle found at `q` makes `q + |key| + 1` a key close with the key
/// right before it.
proof fn lemma_needle_close(s: Seq<char>, k: Seq<char>, tail: Seq<char>, q: int)
    requires
        key_name(k),
        crate::text::occurs_at(s, key_needle(k, tail), q),
    ensures
        key_close(s, q + k.len() + 1),
        quoted_before(s, q + k.len() + 1, k),
{
    let n = key_needle(k, tail);
    let c = q + k.len() + 1;
    assert(s.subrange(q, q + n.len()) == n);
    let kl = k.len() as int;
    assert(s[c] == n[kl + 1]);
    assert(s[c + 1] == n[kl + 2]);
    assert(s[c - 1] == n[kl]);
    assert(n[kl] == k[kl - 1]);
    assert(s.subrange(c - k.len() - 1, c) =~= seq!['"'] + k) by {
        assert forall|i: int| 0 <= i < k.len() + 1 implies s.subrange(c - k.len() - 1, c)[i] == (seq!['"'] + k)[i] by {
            assert(s.subrange(q, q + n.len())[i] == n[i]);
        }
    }
}


/// A key literal: an optional comma, the quoted key, a colon, and an
/// optional `[`.
pub open spec fn key_literal(pre: Seq<char>, k: Seq<char>, post: Seq<char>) -> Seq<char> {
    pre + seq!['"'] + k + seq!['"', ':'] + post
}

pub open spec fn literal_ends(pre: Seq<char>, post: Seq<char>) -> bool {
    (pre == Seq::<char>::empty() || pre == seq![',']) && (post == Seq::<char>::empty() || post == seq!['['])
}

proof fn lemma_closes_prefix(s: Seq<char>, t: Seq<char>, keys: Seq<Seq<char>>, c: int)
    requires
        closes_known(s, keys),
        c + 1 < s.len(),
        key_close(s + t, c),
    ensures
        exists|k: Seq<char>| keys.contains(k) && key_name(k) && quoted_before(s + t, c, k),
{
    assert(key_close(s, c));
    let k = choose|k: Seq<char>| keys.contains(k) && key_name(k) && quoted_before(s, c, k);
    assert((s + t).subrange(c - k.len() - 1, c) == s.subrange(c - k.len() - 1, c));
}

/// Appending a key literal adds exactly its own key close.
proof fn lemma_append_literal(s: Seq<char>, keys: Seq<Seq<char>>, pre: Seq<char>, k: Seq<char>, post: Seq<char>)
    requires
        closes_known(s, keys),
        key_name(k),
        literal_ends(pre, post),
    ensures
        closes_known(s + key_literal(pre, k, post), keys.push(k)),
{
    let lit = key_literal(pre, k, post);
    let t = s + lit;
    let kl = k.len() as int;
    let pl = pre.len() as int;
    assert(lit.len() == pl + kl + 3 + post.len());
    assert(lit[pl] == '"');
    assert forall|i: int| 0 <= i < kl implies lit[pl + 1 + i] == k[i] by {}
    assert(lit[pl + 1 + kl] == '"');
    assert(lit[pl + 2 + kl] == ':');
    assert forall|c: int| #[trigger] key_close(t, c) implies exists|kk: Seq<char>| keys.push(k).contains(kk)
        && key_name(kk) && quoted_before(t, c, kk) by {
        if c + 1 < s.len() {
            lemma_closes_prefix(s, lit, keys, c);
            let kk = choose|kk: Seq<char>| keys.contains(kk) && key_name(kk) && quoted_before(t, c, kk);
            assert(keys.push(k).contains(kk)) by {
                let j = choose|j: int| 0 <= j < keys.len() && keys[j] == kk;
                assert(keys.push(k)[j] == kk);
            }
            assert(keys.push(k).contains(kk) && key_name(kk) && quoted_before(t, c, kk));
        } else if c + 1 == s.len() {
            assert(t[c + 1] == lit[0]);
            if pl == 1 {
                assert(lit[0] == ',');
            } else {
                assert(lit[0] == '"');
            }
        } else {
            let o = c - s.len();
            assert(t[c] == lit[o]);
            assert(t[c + 1] == lit[o + 1]);
            if o < pl {
                assert(lit[o] == ',');
            } else if o == pl {
                assert(lit[o + 1] == k[0]);
            } else if o < pl + 1 + kl {
                assert(lit[o] == k[o - pl - 1]);
            } else if o == pl + 1 + kl {
                assert(t.subrange(c - kl - 1, c) =~= seq!['"'] + k) by {
                    assert forall|i: int| 0 <= i < kl + 1 implies t.subrange(c - kl - 1, c)[i] == (seq!['"']
                        + k)[i] by {
                        assert(t[c - kl - 1 + i] == lit[pl + i]);
                    }
                }
                assert(keys.push(k).contains(k)) by {
                    assert(keys.push(k)[keys.len() as int] == k);
                }
                assert(quoted_before(t, c, k));
                assert(keys.push(k).contains(k) && key_name(k) && quoted_before(t, c, k));
            } else if o == pl + 2 + kl {
                assert(lit[o] == ':');
            } else {
                assert(lit[o] == '[');
            }
        }
    }
}

proof fn lemma_pesc_quotes(x: Seq<char>)
    requires
        plain_text(x),
    ensures
        forall|e: int| 0 <= e < pesc(x, true, true, true, true).len() && #[trigger] pesc(x, true, true, true, true)[e]
            == '"' ==> e >= 1 && pesc(x, true, true, true, true)[e - 1] == '\\',
    decreases x.len(),
{
    if x.len() > 0 {
        lemma_plain_tail(x);
        lemma_pesc_quotes(x.drop_first());
        let u = punit(x[0], true, true, true, true);
        let rest = pesc(x.drop_first(), true, true, true, true);
        let all = pesc(x, true, true, true, true);
        assert(all == u + rest);
        assert forall|e: int| 0 <= e < all.len() && #[trigger] all[e] == '"' implies e >= 1 && all[e - 1] == '\\' by {
            if e < u.len() {
                if u.len() == 1 {
                    assert(u[0] == x[0]);
                } else {
                    assert(e == 1);
                }
            } else {
                let f = e - u.len();
                assert(all[e] == rest[f]);
                if f == 0 {
                    assert(rest[0] == punit(x.drop_first()[0], true, true, true, true)[0]);
                    lemma_plain_tail(x.drop_first());
                } else {
                    assert(all[e - 1] == rest[f - 1]);
                }
            }
        }
    }
}

/// Appending a JSON string (after a colon) adds no key close.
proof fn lemma_append_string(s: Seq<char>, keys: Seq<Seq<char>>, x: Seq<char>)
    requires
        closes_known(s, keys),
        plain_text(x),
        s.len() > 0,
        s.last() == ':',
    ensures
        closes_known(s + (seq!['"'] + escape_json(x) + seq!['"']), keys),
{
    let v = seq!['"'] + escape_json(x) + seq!['"'];
    let t = s + v;
    let e = escape_json(x);
    lemma_escape_is_pesc(x);
    lemma_pesc_quotes(x);
    assert forall|c: int| #[trigger] key_close(t, c) implies exists|kk: Seq<char>| keys.contains(kk) && key_name(kk)
        && quoted_before(t, c, kk) by {
        if c + 1 < s.len() {
            lemma_closes_prefix(s, v, keys, c);
        } else if c + 1 == s.len() {
            assert(t[c] == s.last());
        } else if c == s.len() {
            assert(t[c - 1] == s.last());
        } else {
            let o = c - s.len();
            assert(t[c] == v[o]);
            assert(o < v.len() - 1);
            assert(v[o] == e[o - 1]);
            assert(t[c - 1] == v[o - 1]);
            if o >= 2 {
                assert(v[o - 1] == e[o - 2]);
            }
        }
    }
}

/// Appending a decimal numeral adds no key close.
proof fn lemma_append_number(s: Seq<char>, keys: Seq<Seq<char>>, n: nat)
    requires
        closes_known(s, keys),
    ensures
        closes_known(s + dec(n), keys),
{
    let d = dec(n);
    let t = s + d;
    lemma_dec_digits(n);
    assert forall|c: int| #[trigger] key_close(t, c) implies exists|kk: Seq<char>| keys.contains(kk) && key_name(kk)
        && quoted_before(t, c, kk) by {
        if c + 1 < s.len() {
            lemma_closes_prefix(s, d, keys, c);
        } else if c + 1 == s.len() {
            assert(t[c + 1] == d[0]);
            assert(is_digit_char(d[0]));
        } else {
            assert(t[c] == d[c - s.len()]);
            assert(is_digit_char(d[c - s.len()]));
        }
    }
}

proof fn lemma_find_at(h: Seq<char>, n: Seq<char>, i: int, p: int)
    requires
        0 <= i <= p,
        crate::text::occurs_at(h, n, p),
        forall|q: int| i <= q < p ==> !crate::text::occurs_at(h, n, q),
    ensures
        crate::text::find_sub_from(h, n, i) == Some(p),
    decreases p - i,
{
    if i < p {
        assert(!crate::text::occurs_at(h, n, i));
        if i + n.len() <= h.len() {
            assert(h.subrange(i, i + n.len()) != n);
        }
        lemma_find_at(h, n, i + 1, p);
    } else {
        assert(h.subrange(p, p + n.len()) == n);
    }
}

/// The first place a key's needle is found is the key's own literal, when the
/// text before has only other keys.
proof fn lemma_find_key(
    a: Seq<char>,
    keys: Seq<Seq<char>>,
    pre: Seq<char>,
    k: Seq<char>,
    post: Seq<char>,
    b: Seq<char>,
    tail: Seq<char>,
)
    requires
        closes_known(a, keys),
        !keys.contains(k),
        key_name(k),
        literal_ends(pre, post),
        tail.len() <= (post + b).len(),
        (post + b).subrange(0, tail.len() as int) == tail,
    ensures
        crate::text::find_sub_from(a + key_literal(pre, k, post) + b, key_needle(k, tail), 0) == Some(
            (a.len() + pre.len()) as int,
        ),
{
    let lit = key_literal(pre, k, post);
    let j = a + lit + b;
    let n = key_needle(k, tail);
    let p = (a.len() + pre.len()) as int;
    let kl = k.len() as int;
    let pl = pre.len() as int;
    assert(lit[pl] == '"');
    assert(lit[pl + 1 + kl] == '"');
    assert(lit[pl + 2 + kl] == ':');
    assert(j.subrange(p, p + n.len()) =~= n) by {
        assert forall|i: int| 0 <= i < n.len() implies j.subrange(p, p + n.len())[i] == n[i] by {
            if i < kl + 3 {
                assert(j[p + i] == lit[pl + i]);
            } else {
                let m = i - kl - 3;
                assert(n[i] == tail[m]);
                assert(tail[m] == (post + b)[m]);
                if m < post.len() {
                    assert(j[p + i] == lit[pl + kl + 3 + m]);
                } else {
                    assert(j[p + i] == b[m - post.len()]);
                }
            }
        }
    }
    assert forall|q: int| 0 <= q < p implies !crate::text::occurs_at(j, n, q) by {
        if crate::text::occurs_at(j, n, q) {
            lemma_needle_close(j, k, tail, q);
            let c = q + kl + 1;
            if c + 1 < a.len() {
                lemma_closes_prefix(a, lit + b, keys, c);
                assert(a + lit + b == a + (lit + b));
                let kk = choose|kk: Seq<char>| keys.contains(kk) && key_name(kk) && quoted_before(a + (lit + b), c, kk);
                lemma_keys_agree(j, c, k, kk);
            } else if c + 1 == a.len() {
                assert(j[c + 1] == lit[0]);
                if pl == 1 {
                    assert(lit[0] == ',');
                } else {
                    assert(lit[0] == '"');
                }
            } else {
                let o = c - a.len();
                assert(j[c] == lit[o]);
                assert(j[c + 1] == lit[o + 1]);
                if o < pl {
                    assert(lit[o] == ',');
                } else if o == pl {
                    assert(lit[o + 1] == k[0]);
                } else {
                    assert(lit[o] == k[o - pl - 1]);
                }
            }
        }
    }
    lemma_find_at(j, n, 0, p);
}


pub open spec fn json_string(x: Seq<char>) -> Seq<char> {
    seq!['"'] + escape_json(x) + seq!['"']
}

/// A string field reads back as the plain text it was written from.
proof fn lemma_string_field(
    a: Seq<char>,
    keys: Seq<Seq<char>>,
    pre: Seq<char>,
    k: Seq<char>,
    x: Seq<char>,
    rest: Seq<char>,
)
    requires
        closes_known(a, keys),
        !keys.contains(k),
        key_name(k),
        literal_ends(pre, Seq::empty()),
        plain_text(x),
    ensures
        crate::fix_history::string_field(a + key_literal(pre, k, Seq::empty()) + (json_string(x) + rest), k)
            == Some(x),
{
    let lit = key_literal(pre, k, Seq::empty());
    let v = json_string(x);
    let b = v + rest;
    let j = a + lit + b;
    reveal_strlit("\"");
    reveal_strlit("\":\"");
    let needle = "\""@ + k + "\":\""@;
    assert(needle =~= key_needle(k, seq!['"']));
    assert((Seq::<char>::empty() + b).subrange(0, 1) =~= seq!['"']) by {
        assert(b[0] == v[0]);
    }
    lemma_find_key(a, keys, pre, k, Seq::empty(), b, seq!['"']);
    let p = (a.len() + pre.len()) as int;
    let start = p + needle.len();
    let e = escape_json(x);
    assert(start == a.len() + lit.len() + 1);
    assert(j.subrange(start, start + e.len()) =~= e) by {
        assert forall|i: int| 0 <= i < e.len() implies j.subrange(start, start + e.len())[i] == e[i] by {
            assert(j[start + i] == b[i + 1]);
            assert(b[i + 1] == v[i + 1]);
        }
    }
    assert(j[start + e.len()] == '"') by {
        assert(j[start + e.len()] == b[e.len() as int + 1]);
        assert(b[e.len() as int + 1] == v[e.len() as int + 1]);
    }
    lemma_cq_escaped(j, start, x);
    lemma_unescape_escape(x);
}

/// A number field reads back as the number it was written from, when the
/// text after it does not go on with a digit.
proof fn lemma_number_field(
    a: Seq<char>,
    keys: Seq<Seq<char>>,
    pre: Seq<char>,
    k: Seq<char>,
    n: nat,
    rest: Seq<char>,
)
    requires
        closes_known(a, keys),
        !keys.contains(k),
        key_name(k),
        literal_ends(pre, Seq::empty()),
        n <= usize::MAX,
        rest.len() > 0,
        !is_digit_char(rest[0]),
    ensures
        crate::fix_history::number_field(a + key_literal(pre, k, Seq::empty()) + (dec(n) + rest), k) == Some(n),
{
    let lit = key_literal(pre, k, Seq::empty());
    let d = dec(n);
    let b = d + rest;
    let j = a + lit + b;
    reveal_strlit("\"");
    reveal_strlit("\":");
    let needle = "\""@ + k + "\":"@;
    assert(needle =~= key_needle(k, Seq::empty()));
    assert((Seq::<char>::empty() + b).subrange(0, 0) =~= Seq::<char>::empty());
    lemma_find_key(a, keys, pre, k, Seq::empty(), b, Seq::empty());
    let p = (a.len() + pre.len()) as int;
    let start = p + needle.len();
    assert(start == a.len() + lit.len());
    lemma_dec_digits(n);
    assert(j.subrange(start, start + d.len()) =~= d) by {
        assert forall|i: int| 0 <= i < d.len() implies j.subrange(start, start + d.len())[i] == d[i] by {
            assert(j[start + i] == b[i]);
        }
    }
    assert(j[start + d.len()] == rest[0]) by {
        assert(j[start + d.len()] == b[d.len() as int]);
    }
    lemma_digit_run(j, start, d);
    assert(j.subrange(start, start + d.len()) == d);
}


proof fn lemma_closes_start(s: Seq<char>)
    requires
        s.len() <= 1,
    ensures
        closes_known(s, Seq::empty()),
{
}

proof fn lemma_jq_is_json_string(x: Seq<char>)
    ensures
        jq(x) == json_string(x),
{
    reveal_strlit("\"");
    assert("\""@ == seq!['"']);
}


// ===== one change object =====

/// The keys of a change object, in the order they are written.
pub open spec fn change_key(i: int) -> Seq<char> {
    if i == 0 {
        seq!['l', 'i', 'n', 'e']
    } else if i == 1 {
        seq!['c', 'o', 'l']
    } else if i == 2 {
        seq!['a', 'c', 't', 'i', 'o', 'n']
    } else if i == 3 {
        seq!['d', 'e', 's', 'c', 'r', 'i', 'p', 't', 'i', 'o', 'n']
    } else {
        seq!['c', 'o', 'd', 'e']
    }
}

pub open spec fn field_pre(i: int) -> Seq<char> {
    if i == 0 {
        Seq::empty()
    } else {
        seq![',']
    }
}

pub open spec fn change_lit(i: int) -> Seq<char> {
    key_literal(field_pre(i), change_key(i), Seq::empty())
}

pub open spec fn change_val(c: ChangeView, i: int) -> Seq<char> {
    if i == 0 {
        dec(c.line)
    } else if i == 1 {
        dec(c.col)
    } else if i == 2 {
        json_string(c.action)
    } else if i == 3 {
        json_string(c.description)
    } else {
        json_string(c.code)
    }
}

/// The text of a change object before its field `i`.
pub open spec fn change_prefix(c: ChangeView, i: int) -> Seq<char>
    decreases i,
{
    if i <= 0 {
        seq!['{']
    } else {
        change_prefix(c, i - 1) + change_lit(i - 1) + change_val(c, i - 1)
    }
}

/// The text of a change object from its field `i` on.
pub open spec fn change_suffix(c: ChangeView, i: int) -> Seq<char>
    decreases 5 - i,
{
    if i >= 5 {
        seq!['}']
    } else {
        change_lit(i) + change_val(c, i) + change_suffix(c, i + 1)
    }
}

pub open spec fn change_keys(i: int) -> Seq<Seq<char>> {
    Seq::new(i as nat, |j: int| change_key(j))
}

proof fn lemma_change_text(c: ChangeView)
    ensures
        change_json(c) == change_prefix(c, 0) + change_suffix(c, 0),
{
    reveal_strlit("{");
    reveal_strlit("}");
    reveal_strlit("\"");
    reveal_strlit("\"line\":");
    reveal_strlit(",\"col\":");
    reveal_strlit(",\"action\":");
    reveal_strlit(",\"description\":");
    reveal_strlit(",\"code\":");
    assert(change_lit(0) =~= "\"line\":"@);
    assert(change_lit(1) =~= ",\"col\":"@);
    assert(change_lit(2) =~= ",\"action\":"@);
    assert(change_lit(3) =~= ",\"description\":"@);
    assert(change_lit(4) =~= ",\"code\":"@);
    lemma_jq_is_json_string(c.action);
    lemma_jq_is_json_string(c.description);
    lemma_jq_is_json_string(c.code);
    let s5 = change_suffix(c, 5);
    assert(s5 == "}"@);
    let s4 = change_lit(4) + change_val(c, 4) + s5;
    assert(change_suffix(c, 4) == s4);
    let s3 = change_lit(3) + change_val(c, 3) + s4;
    assert(change_suffix(c, 3) == s3);
    let s2 = change_lit(2) + change_val(c, 2) + s3;
    assert(change_suffix(c, 2) == s2);
    let s1 = change_lit(1) + change_val(c, 1) + s2;
    assert(change_suffix(c, 1) == s1);
    let s0 = change_lit(0) + change_val(c, 0) + s1;
    assert(change_suffix(c, 0) == s0);
    assert(change_prefix(c, 0) == "{"@);
    assert(change_json(c) =~= "{"@ + s0);
}

proof fn lemma_change_split(c: ChangeView, i: int)
    requires
        0 <= i <= 5,
    ensures
        change_json(c) == change_prefix(c, i) + change_suffix(c, i),
    decreases i,
{
    if i == 0 {
        lemma_change_text(c);
    } else {
        lemma_change_split(c, i - 1);
        assert(change_prefix(c, i - 1) + change_suffix(c, i - 1) =~= change_prefix(c, i) + change_suffix(c, i));
    }
}

proof fn lemma_change_keys_distinct(i: int, j: int)
    requires
        0 <= j < i < 5,
    ensures
        change_key(j) != change_key(i),
{
    if change_key(j) == change_key(i) {
        if j == 0 && i == 4 {
            assert(change_key(j)[0] != change_key(i)[0]);
        } else {
            assert(change_key(j).len() != change_key(i).len() || change_key(j)[0] != change_key(i)[0]);
        }
    }
}

proof fn lemma_change_key_name(i: int)
    ensures
        key_name(change_key(i)),
{
    let k = change_key(i);
    assert forall|m: int| 0 <= m < k.len() implies is_key_letter(#[trigger] k[m]) by {}
}

proof fn lemma_change_closes(c: ChangeView, i: int)
    requires
        0 <= i <= 4,
        plain_text(c.action),
        plain_text(c.description),
        plain_text(c.code),
    ensures
        closes_known(change_prefix(c, i), change_keys(i)),
    decreases i,
{
    if i == 0 {
        lemma_closes_start(seq!['{']);
        assert(change_keys(0) =~= Seq::<Seq<char>>::empty());
    } else {
        lemma_change_closes(c, i - 1);
        let a = change_prefix(c, i - 1);
        lemma_change_key_name(i - 1);
        lemma_append_literal(a, change_keys(i - 1), field_pre(i - 1), change_key(i - 1), Seq::empty());
        assert(change_keys(i - 1).push(change_key(i - 1)) =~= change_keys(i));
        let al = a + change_lit(i - 1);
        if i - 1 < 2 {
            lemma_append_number(al, change_keys(i), if i - 1 == 0 { c.line } else { c.col });
        } else {
            assert(al.last() == ':');
            let x = if i - 1 == 2 { c.action } else if i - 1 == 3 { c.description } else { c.code };
            lemma_append_string(al, change_keys(i), x);
        }
    }
}

proof fn lemma_change_field_free(i: int)
    requires
        0 <= i < 5,
    ensures
        !change_keys(i).contains(change_key(i)),
{
    if change_keys(i).contains(change_key(i)) {
        let j = choose|j: int| 0 <= j < change_keys(i).len() && change_keys(i)[j] == change_key(i);
        lemma_change_keys_distinct(i, j);
    }
}

proof fn lemma_change_field(c: ChangeView, i: int)
    requires
        0 <= i < 5,
        plain_text(c.action),
        plain_text(c.description),
        plain_text(c.code),
        c.line <= usize::MAX,
        c.col <= usize::MAX,
    ensures
        i == 0 ==> crate::fix_history::number_field(change_json(c), change_key(i)) == Some(c.line),
        i == 1 ==> crate::fix_history::number_field(change_json(c), change_key(i)) == Some(c.col),
        i == 2 ==> crate::fix_history::string_field(change_json(c), change_key(i)) == Some(c.action),
        i == 3 ==> crate::fix_history::string_field(change_json(c), change_key(i)) == Some(c.description),
        i == 4 ==> crate::fix_history::string_field(change_json(c), change_key(i)) == Some(c.code),
{
    lemma_change_split(c, i);
    lemma_change_closes(c, i);
    lemma_change_field_free(i);
    lemma_change_key_name(i);
    let a = change_prefix(c, i);
    let rest = change_suffix(c, i + 1);
    assert(change_json(c) =~= a + change_lit(i) + (change_val(c, i) + rest));
    if i < 2 {
        assert(rest[0] == ',');
        lemma_number_field(a, change_keys(i), field_pre(i), change_key(i), if i == 0 { c.line } else { c.col }, rest);
    } else {
        let x = if i == 2 { c.action } else if i == 3 { c.description } else { c.code };
        lemma_string_field(a, change_keys(i), field_pre(i), change_key(i), x, rest);
    }
}

/// A change object reads back as the change it was written from, when its
/// texts are plain.
proof fn lemma_change_roundtrip(c: ChangeView)
    requires
        plain_text(c.action),
        plain_text(c.description),
        plain_text(c.code),
        c.line <= usize::MAX,
        c.col <= usize::MAX,
    ensures
        change_of(change_json(c)) == Some(c),
{
    reveal_strlit("line");
    reveal_strlit("col");
    reveal_strlit("action");
    reveal_strlit("description");
    reveal_strlit("code");
    assert("line"@ =~= change_key(0));
    assert("col"@ =~= change_key(1));
    assert("action"@ =~= change_key(2));
    assert("description"@ =~= change_key(3));
    assert("code"@ =~= change_key(4));
    lemma_change_field(c, 0);
    lemma_change_field(c, 1);
    lemma_change_field(c, 2);
    lemma_change_field(c, 3);
    lemma_change_field(c, 4);
}


// ===== the changes array =====

/// No curly brace anywhere in the text.
pub open spec fn brace_free(x: Seq<char>) -> bool {
    forall|i: int| 0 <= i < x.len() ==> #[trigger] x[i] != '{' && x[i] != '}'
}

proof fn lemma_pesc_brace_free(x: Seq<char>)
    requires
        brace_free(x),
    ensures
        brace_free(pesc(x, true, true, true, true)),
    decreases x.len(),
{
    if x.len() > 0 {
        assert(brace_free(x.drop_first())) by {
            assert forall|i: int| 0 <= i < x.drop_first().len() implies #[trigger] x.drop_first()[i] != '{'
                && x.drop_first()[i] != '}' by {
                assert(x.drop_first()[i] == x[i + 1]);
            }
        }
        lemma_pesc_brace_free(x.drop_first());
        let u = punit(x[0], true, true, true, true);
        let rest = pesc(x.drop_first(), true, true, true, true);
        assert(x[0] != '{' && x[0] != '}');
        assert forall|i: int| 0 <= i < (u + rest).len() implies #[trigger] (u + rest)[i] != '{' && (u + rest)[i]
            != '}' by {
            if i >= u.len() {
                assert((u + rest)[i] == rest[i - u.len()]);
            }
        }
    }
}

proof fn lemma_json_string_brace_free(x: Seq<char>)
    requires
        plain_text(x),
        brace_free(x),
    ensures
        brace_free(json_string(x)),
{
    lemma_escape_is_pesc(x);
    lemma_pesc_brace_free(x);
    let e = escape_json(x);
    assert forall|i: int| 0 <= i < json_string(x).len() implies #[trigger] json_string(x)[i] != '{'
        && json_string(x)[i] != '}' by {
        if 1 <= i < e.len() + 1 {
            assert(json_string(x)[i] == e[i - 1]);
        }
    }
}

proof fn lemma_brace_free_concat(a: Seq<char>, b: Seq<char>)
    requires
        brace_free(a),
        brace_free(b),
    ensures
        brace_free(a + b),
{
    assert forall|i: int| 0 <= i < (a + b).len() implies #[trigger] (a + b)[i] != '{' && (a + b)[i] != '}' by {
        if i >= a.len() {
            assert((a + b)[i] == b[i - a.len()]);
        }
    }
}

/// The texts of a change that the history format carries through.
pub open spec fn change_plain(c: ChangeView) -> bool {
    &&& plain_text(c.action)
    &&& plain_text(c.description)
    &&& plain_text(c.code)
    &&& brace_free(c.action)
    &&& brace_free(c.description)
    &&& brace_free(c.code)
    &&& c.line <= usize::MAX
    &&& c.col <= usize::MAX
}

proof fn lemma_change_suffix_inner(c: ChangeView, i: int)
    requires
        0 <= i <= 5,
        change_plain(c),
    ensures
        change_suffix(c, i).len() >= 1,
        change_suffix(c, i).last() == '}',
        brace_free(change_suffix(c, i).drop_last()),
    decreases 5 - i,
{
    if i == 5 {
        assert(change_suffix(c, 5).drop_last() =~= Seq::<char>::empty());
    } else {
        lemma_change_suffix_inner(c, i + 1);
        let lit = change_lit(i);
        let v = change_val(c, i);
        let nx = change_suffix(c, i + 1);
        lemma_change_key_name(i);
        assert(brace_free(lit)) by {
            let k = change_key(i);
            assert forall|m: int| 0 <= m < lit.len() implies #[trigger] lit[m] != '{' && lit[m] != '}' by {
                let pl = field_pre(i).len() as int;
                if pl + 1 <= m < pl + 1 + k.len() {
                    assert(lit[m] == k[m - pl - 1]);
                    assert(is_key_letter(k[m - pl - 1]));
                }
            }
        }
        assert(brace_free(v)) by {
            if i < 2 {
                lemma_dec_digits(if i == 0 { c.line } else { c.col });
            } else if i == 2 {
                lemma_json_string_brace_free(c.action);
            } else if i == 3 {
                lemma_json_string_brace_free(c.description);
            } else {
                lemma_json_string_brace_free(c.code);
            }
        }
        lemma_brace_free_concat(lit, v);
        lemma_brace_free_concat(lit + v, nx.drop_last());
        assert(change_suffix(c, i).drop_last() =~= lit + v + nx.drop_last());
        assert(change_suffix(c, i) =~= lit + v + nx);
    }
}

/// A change object: braces only at its two ends.
proof fn lemma_change_braces(c: ChangeView)
    requires
        change_plain(c),
    ensures
        change_json(c).len() >= 2,
        change_json(c)[0] == '{',
        change_json(c).last() == '}',
        brace_free(change_json(c).subrange(1, change_json(c).len() - 1)),
{
    lemma_change_split(c, 0);
    lemma_change_suffix_inner(c, 0);
    let sfx = change_suffix(c, 0);
    let j = change_json(c);
    assert(j =~= seq!['{'] + sfx);
    assert(j.subrange(1, j.len() - 1) =~= sfx.drop_last());
}

proof fn lemma_brace_run(s: Seq<char>, i: int, m: int)
    requires
        0 <= i <= m < s.len(),
        forall|k: int| i <= k < m ==> #[trigger] s[k] != '{' && s[k] != '}',
        s[m] == '}',
    ensures
        brace_end(s, i, 1) == m + 1,
    decreases m - i,
{
    if i < m {
        lemma_brace_run(s, i + 1, m);
    } else {
        assert(brace_end(s, m + 1, 0) == m + 1);
    }
}

proof fn lemma_join_front<T>(xs: Seq<T>, f: spec_fn(T) -> Seq<char>, sep: Seq<char>)
    requires
        xs.len() > 0,
    ensures
        join_with(xs, f, sep) == f(xs[0]) + (if xs.len() > 1 {
            sep + join_with(xs.drop_first(), f, sep)
        } else {
            Seq::empty()
        }),
    decreases xs.len(),
{
    if xs.len() == 1 {
        assert(f(xs[0]) + Seq::<char>::empty() =~= f(xs[0]));
    } else if xs.len() == 2 {
        assert(xs.drop_last().len() == 1);
        assert(xs.drop_first().len() == 1);
        assert(xs.drop_first()[0] == xs.last());
        assert(join_with(xs.drop_first(), f, sep) == f(xs.drop_first()[0]));
        assert(join_with(xs.drop_last(), f, sep) == f(xs.drop_last()[0]));
        assert(join_with(xs, f, sep) =~= f(xs[0]) + (sep + join_with(xs.drop_first(), f, sep)));
    } else {
        lemma_join_front(xs.drop_last(), f, sep);
        assert(xs.drop_last().drop_first() =~= xs.drop_first().drop_last());
        assert(xs.drop_first().last() == xs.last());
        assert(xs.drop_last()[0] == xs[0]);
        assert(join_with(xs.drop_first(), f, sep) == join_with(xs.drop_first().drop_last(), f, sep) + sep + f(
            xs.drop_first().last(),
        ));
        assert(join_with(xs, f, sep) =~= f(xs[0]) + (sep + join_with(xs.drop_first(), f, sep)));
    }
}

/// A change object inside a text is read where it stands.
proof fn lemma_change_object(s: Seq<char>, i: int, c: ChangeView)
    requires
        change_plain(c),
        0 <= i,
        i + change_json(c).len() <= s.len(),
        s.subrange(i, i + change_json(c).len()) == change_json(c),
    ensures
        brace_end(s, i + 1, 1) == i + change_json(c).len(),
        change_of(s.subrange(i, i + change_json(c).len())) == Some(c),
        s[i] == '{',
{
    let cj = change_json(c);
    let e = i + cj.len();
    lemma_change_braces(c);
    lemma_change_roundtrip(c);
    assert(s[i] == cj[0]);
    assert forall|k: int| i + 1 <= k < e - 1 implies #[trigger] s[k] != '{' && s[k] != '}' by {
        assert(s[k] == s.subrange(i, e)[k - i]);
        assert(cj.subrange(1, cj.len() - 1)[k - i - 1] == cj[k - i]);
    }
    assert(s[e - 1] == s.subrange(i, e)[cj.len() - 1]);
    lemma_brace_run(s, i + 1, e - 1);
}

/// The change objects of a written array read back as the changes, in order.
#[verifier::spinoff_prover]
#[verifier::rlimit(40)]
proof fn lemma_changes_read(cs: Seq<ChangeView>, f: spec_fn(ChangeView) -> Seq<char>, a: Seq<char>, r: Seq<char>)
    requires
        forall|c: ChangeView| #[trigger] f(c) == change_json(c),
        forall|i: int| 0 <= i < cs.len() ==> change_plain(#[trigger] cs[i]),
        r.len() > 0,
        r[0] == ']',
    ensures
        crate::fix_history::changes_from(a + join_with(cs, f, seq![',']) + r, a.len() as int) == cs,
    decreases cs.len(),
{
    let sep = seq![','];
    let s = a + join_with(cs, f, sep) + r;
    let i = a.len() as int;
    if cs.len() == 0 {
        assert(join_with(cs, f, sep) == Seq::<char>::empty());
        assert(s[i] == r[0]);
        assert(crate::fix_history::changes_from(s, i) =~= cs);
    } else {
        lemma_join_front(cs, f, sep);
        let c0 = cs[0];
        assert(change_plain(c0));
        let cj = change_json(c0);
        let tail = if cs.len() > 1 {
            sep + join_with(cs.drop_first(), f, sep) + r
        } else {
            r
        };
        assert(s =~= a + cj + tail);
        let e = i + cj.len();
        assert(s.subrange(i, e) =~= cj);
        lemma_change_object(s, i, c0);
        assert(s[e] == tail[0]);
        let rest = crate::fix_history::changes_from(s, e);
        assert(crate::fix_history::changes_from(s, i) == seq![c0] + rest);
        if cs.len() > 1 {
            let a2 = a + cj + sep;
            assert forall|m: int| 0 <= m < cs.drop_first().len() implies change_plain(#[trigger] cs.drop_first()[m]) by {
                assert(cs.drop_first()[m] == cs[m + 1]);
            }
            lemma_changes_read(cs.drop_first(), f, a2, r);
            assert(s =~= a2 + join_with(cs.drop_first(), f, sep) + r);
            assert(rest == crate::fix_history::changes_from(s, e + 1));
            assert(seq![c0] + cs.drop_first() =~= cs);
        } else {
            assert(rest =~= Seq::<ChangeView>::empty());
            assert(seq![c0] + Seq::<ChangeView>::empty() =~= cs);
        }
    }
}


// ===== one record line =====

/// The keys of a record line, in the order they are written.
pub open spec fn entry_key(i: int) -> Seq<char> {
    if i == 0 {
        seq!['t', 'i', 'm', 'e', 's', 't', 'a', 'm', 'p']
    } else if i == 1 {
        seq!['f', 'i', 'l', 'e']
    } else if i == 2 {
        seq!['a', 'p', 'p', 'l', 'i', 'e', 'd']
    } else if i == 3 {
        seq!['s', 'k', 'i', 'p', 'p', 'e', 'd']
    } else if i == 4 {
        seq!['r', 'o', 'u', 'n', 'd']
    } else {
        seq!['c', 'h', 'a', 'n', 'g', 'e', 's']
    }
}

pub open spec fn entry_post(i: int) -> Seq<char> {
    if i == 5 {
        seq!['[']
    } else {
        Seq::empty()
    }
}

pub open spec fn entry_lit(i: int) -> Seq<char> {
    key_literal(field_pre(i), entry_key(i), entry_post(i))
}

pub open spec fn change_writer() -> spec_fn(ChangeView) -> Seq<char> {
    |c: ChangeView| change_json(c)
}

pub open spec fn entry_val(e: EntryView, i: int) -> Seq<char> {
    if i == 0 {
        json_string(e.timestamp)
    } else if i == 1 {
        json_string(e.file)
    } else if i == 2 {
        dec(e.applied)
    } else if i == 3 {
        dec(e.skipped)
    } else if i == 4 {
        dec(e.round)
    } else {
        join_with(e.changes, change_writer(), seq![','])
    }
}

/// The text of a record line before its field `i`.
pub open spec fn entry_prefix(e: EntryView, i: int) -> Seq<char>
    decreases i,
{
    if i <= 0 {
        seq!['{']
    } else {
        entry_prefix(e, i - 1) + entry_lit(i - 1) + entry_val(e, i - 1)
    }
}

/// The text of a record line from its field `i` on.
pub open spec fn entry_suffix(e: EntryView, i: int) -> Seq<char>
    decreases 6 - i,
{
    if i >= 6 {
        seq![']', '}']
    } else {
        entry_lit(i) + entry_val(e, i) + entry_suffix(e, i + 1)
    }
}

pub open spec fn entry_keys(i: int) -> Seq<Seq<char>> {
    Seq::new(i as nat, |j: int| entry_key(j))
}

#[verifier::spinoff_prover]
#[verifier::rlimit(60)]
proof fn lemma_entry_text(e: EntryView)
    ensures
        entry_json(e) == entry_prefix(e, 0) + entry_suffix(e, 0),
{
    reveal_strlit("{");
    reveal_strlit("}");
    reveal_strlit("]");
    reveal_strlit(",");
    reveal_strlit("\"timestamp\":");
    reveal_strlit(",\"file\":");
    reveal_strlit(",\"applied\":");
    reveal_strlit(",\"skipped\":");
    reveal_strlit(",\"round\":");
    reveal_strlit(",\"changes\":[");
    assert(entry_lit(0) =~= "\"timestamp\":"@);
    assert(entry_lit(1) =~= ",\"file\":"@);
    assert(entry_lit(2) =~= ",\"applied\":"@);
    assert(entry_lit(3) =~= ",\"skipped\":"@);
    assert(entry_lit(4) =~= ",\"round\":"@);
    assert(entry_lit(5) =~= ",\"changes\":["@);
    lemma_jq_is_json_string(e.timestamp);
    lemma_jq_is_json_string(e.file);
    assert(join_with(e.changes, |c: ChangeView| change_json(c), ","@) == entry_val(e, 5)) by {
        assert(change_writer() =~= (|c: ChangeView| change_json(c)));
        assert(","@ =~= seq![',']);
    }
    let s6 = entry_suffix(e, 6);
    assert(s6 =~= "]"@ + "}"@);
    let s5 = entry_lit(5) + entry_val(e, 5) + s6;
    assert(entry_suffix(e, 5) == s5);
    let s4 = entry_lit(4) + entry_val(e, 4) + s5;
    assert(entry_suffix(e, 4) == s4);
    let s3 = entry_lit(3) + entry_val(e, 3) + s4;
    assert(entry_suffix(e, 3) == s3);
    let s2 = entry_lit(2) + entry_val(e, 2) + s3;
    assert(entry_suffix(e, 2) == s2);
    let s1 = entry_lit(1) + entry_val(e, 1) + s2;
    assert(entry_suffix(e, 1) == s1);
    let s0 = entry_lit(0) + entry_val(e, 0) + s1;
    assert(entry_suffix(e, 0) == s0);
    assert(entry_prefix(e, 0) == "{"@);
    assert(entry_json(e) =~= "{"@ + s0);
}

proof fn lemma_entry_split(e: EntryView, i: int)
    requires
        0 <= i <= 6,
    ensures
        entry_json(e) == entry_prefix(e, i) + entry_suffix(e, i),
    decreases i,
{
    if i == 0 {
        lemma_entry_text(e);
    } else {
        lemma_entry_split(e, i - 1);
        assert(entry_prefix(e, i - 1) + entry_suffix(e, i - 1) =~= entry_prefix(e, i) + entry_suffix(e, i));
    }
}

proof fn lemma_entry_key_name(i: int)
    ensures
        key_name(entry_key(i)),
{
    let k = entry_key(i);
    assert forall|m: int| 0 <= m < k.len() implies is_key_letter(#[trigger] k[m]) by {}
}

proof fn lemma_entry_field_free(i: int)
    requires
        0 <= i < 6,
    ensures
        !entry_keys(i).contains(entry_key(i)),
{
    if entry_keys(i).contains(entry_key(i)) {
        let j = choose|j: int| 0 <= j < entry_keys(i).len() && entry_keys(i)[j] == entry_key(i);
        assert(entry_key(j)[0] != entry_key(i)[0]);
    }
}

/// The texts of a record that the history format carries through.
pub open spec fn entry_plain(e: EntryView) -> bool {
    &&& plain_text(e.timestamp)
    &&& plain_text(e.file)
    &&& e.applied <= usize::MAX
    &&& e.skipped <= usize::MAX
    &&& e.round <= usize::MAX
    &&& forall|i: int| 0 <= i < e.changes.len() ==> change_plain(#[trigger] e.changes[i])
}

proof fn lemma_entry_closes(e: EntryView, i: int)
    requires
        0 <= i <= 5,
        entry_plain(e),
    ensures
        closes_known(entry_prefix(e, i), entry_keys(i)),
    decreases i,
{
    if i == 0 {
        lemma_closes_start(seq!['{']);
        assert(entry_keys(0) =~= Seq::<Seq<char>>::empty());
    } else {
        lemma_entry_closes(e, i - 1);
        let a = entry_prefix(e, i - 1);
        lemma_entry_key_name(i - 1);
        lemma_append_literal(a, entry_keys(i - 1), field_pre(i - 1), entry_key(i - 1), Seq::empty());
        assert(entry_keys(i - 1).push(entry_key(i - 1)) =~= entry_keys(i));
        let al = a + entry_lit(i - 1);
        if i - 1 < 2 {
            assert(al.last() == ':');
            lemma_append_string(al, entry_keys(i), if i - 1 == 0 { e.timestamp } else { e.file });
        } else {
            let n = if i - 1 == 2 { e.applied } else if i - 1 == 3 { e.skipped } else { e.round };
            lemma_append_number(al, entry_keys(i), n);
        }
    }
}

proof fn lemma_entry_field(e: EntryView, i: int)
    requires
        0 <= i < 5,
        entry_plain(e),
    ensures
        i == 0 ==> crate::fix_history::string_field(entry_json(e), entry_key(i)) == Some(e.timestamp),
        i == 1 ==> crate::fix_history::string_field(entry_json(e), entry_key(i)) == Some(e.file),
        i == 2 ==> crate::fix_history::number_field(entry_json(e), entry_key(i)) == Some(e.applied),
        i == 3 ==> crate::fix_history::number_field(entry_json(e), entry_key(i)) == Some(e.skipped),
        i == 4 ==> crate::fix_history::number_field(entry_json(e), entry_key(i)) == Some(e.round),
{
    lemma_entry_split(e, i);
    lemma_entry_closes(e, i);
    lemma_entry_field_free(i);
    lemma_entry_key_name(i);
    let a = entry_prefix(e, i);
    let rest = entry_suffix(e, i + 1);
    assert(entry_lit(i) == key_literal(field_pre(i), entry_key(i), Seq::empty()));
    assert(entry_json(e) =~= a + entry_lit(i) + (entry_val(e, i) + rest));
    if i < 2 {
        let x = if i == 0 { e.timestamp } else { e.file };
        lemma_string_field(a, entry_keys(i), field_pre(i), entry_key(i), x, rest);
    } else {
        assert(rest[0] == ',');
        let n = if i == 2 { e.applied } else if i == 3 { e.skipped } else { e.round };
        lemma_number_field(a, entry_keys(i), field_pre(i), entry_key(i), n, rest);
    }
}

proof fn lemma_entry_changes(e: EntryView)
    requires
        entry_plain(e),
    ensures
        crate::fix_history::changes_of(entry_json(e)) == e.changes,
{
    reveal_strlit("\"changes\":[");
    lemma_entry_split(e, 5);
    lemma_entry_closes(e, 5);
    lemma_entry_field_free(5);
    lemma_entry_key_name(5);
    let a = entry_prefix(e, 5);
    let lit = entry_lit(5);
    let v = entry_val(e, 5);
    let r = seq![']', '}'];
    let j = entry_json(e);
    assert(entry_suffix(e, 6) == r);
    assert(j =~= a + lit + (v + r));
    let key = "\"changes\":["@;
    assert(key =~= key_needle(entry_key(5), seq!['[']));
    assert((seq!['['] + (v + r)).subrange(0, 1) =~= seq!['[']);
    lemma_find_key(a, entry_keys(5), seq![','], entry_key(5), seq!['['], v + r, seq!['[']);
    assert(lit =~= key_literal(seq![','], entry_key(5), seq!['[']));
    let p = a.len() + 1;
    assert(p + key.len() == (a + lit).len());
    assert(j =~= (a + lit) + join_with(e.changes, change_writer(), seq![',']) + r);
    assert forall|c: ChangeView| #[trigger] change_writer()(c) == change_json(c) by {}
    lemma_changes_read(e.changes, change_writer(), a + lit, r);
}


/// A record written by `entry_to_json` reads back, by `parse_entry`, as the
/// same record, when its texts hold no backslash and no control character
/// other than newline, carriage return and tab, and the texts of its changes
/// no curly brace.
pub proof fn lemma_entry_roundtrip(e: FixHistoryEntry)
    requires
        plain_text(e.timestamp@),
        plain_text(e.file@),
        forall|i: int|
            0 <= i < e.changes@.len() ==> {
                let c = #[trigger] e.changes@[i];
                &&& plain_text(c.action@)
                &&& plain_text(c.description@)
                &&& plain_text(c.diagnostic_code@)
                &&& brace_free(c.action@)
                &&& brace_free(c.description@)
                &&& brace_free(c.diagnostic_code@)
            },
    ensures
        entry_of(entry_json(e@)) == Some(e@),
{
    let v = e@;
    assert forall|i: int| 0 <= i < v.changes.len() implies change_plain(#[trigger] v.changes[i]) by {
        assert(v.changes[i] == e.changes@[i]@);
    }
    assert(entry_plain(v));
    reveal_strlit("timestamp");
    reveal_strlit("file");
    reveal_strlit("applied");
    reveal_strlit("skipped");
    reveal_strlit("round");
    assert("timestamp"@ =~= entry_key(0));
    assert("file"@ =~= entry_key(1));
    assert("applied"@ =~= entry_key(2));
    assert("skipped"@ =~= entry_key(3));
    assert("round"@ =~= entry_key(4));
    lemma_entry_field(v, 0);
    lemma_entry_field(v, 1);
    lemma_entry_field(v, 2);
    lemma_entry_field(v, 3);
    lemma_entry_field(v, 4);
    lemma_entry_changes(v);
}

} // verus!

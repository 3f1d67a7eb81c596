//! Character-level text utilities shared by every module.
//!
//! Text is handled as `Vec<char>` inside the library; `&str` arguments are
//! turned into characters on entry and results are turned into `String` on exit.
use vstd::prelude::*;

verus! {

broadcast use vstd::string::group_string_axioms;

// ===== conversions =====

/// The characters of a string slice, in order.
pub fn chars_of(s: &str) -> (r: Vec<char>)
    ensures
        r@ == s@,
{
    let mut r: Vec<char> = Vec::new();
    for c in it: s.chars()
        invariant
            r@ == it.seq().take(it.index() as int),
            it.seq() == s@,
    {
        r.push(c);
    }
    r
}

/// Appends one character to a `String` (std's `String::push`).
#[verifier::external_body]
fn string_push(s: &mut String, c: char)
    ensures
        final(s)@ == old(s)@.push(c),
{
    s.push(c);
}

/// Builds a `String` holding exactly the given characters.
pub fn string_of(v: &[char]) -> (r: String)
    ensures
        r@ == v@,
{
    let mut r = String::new();
    let mut i: usize = 0;
    while i < v.len()
        invariant
            i <= v@.len(),
            r@ == v@.take(i as int),
        decreases v@.len() - i,
    {
        string_push(&mut r, v[i]);
        assert(v@.take(i + 1) == v@.take(i as int).push(v@[i as int]));
        i += 1;
    }
    assert(v@.take(v@.len() as int) == v@);
    r
}

/// An owned copy of a string slice.
pub fn owned(s: &str) -> (r: String)
    ensures
        r@ == s@,
{
    s.to_owned()
}

/// What `format!("{:?}", s)` writes for a string: the quoted, escaped form.
pub uninterp spec fn debug_quoted(s: Seq<char>) -> Seq<char>;

/// The `Debug` rendering of a string (`format!("{:?}", s)`); the contract names
/// the result and states nothing of how characters are escaped.
#[verifier::external_body]
pub(crate) fn debug_string(s: &str) -> (r: String)
    ensures
        r@ == debug_quoted(s@),
{
    format!("{:?}", s)
}

/// Appends the characters of a string slice.
pub fn push_lit(out: &mut Vec<char>, s: &str)
    ensures
        final(out)@ == old(out)@ + s@,
{
    let mut c = chars_of(s);
    out.append(&mut c);
}

/// Appends a sequence of characters.
pub fn push_chars(out: &mut Vec<char>, s: &[char])
    ensures
        final(out)@ == old(out)@ + s@,
{
    let mut i: usize = 0;
    while i < s.len()
        invariant
            i <= s@.len(),
            out@ == old(out)@ + s@.take(i as int),
        decreases s@.len() - i,
    {
        out.push(s[i]);
        assert(s@.take(i + 1) == s@.take(i as int).push(s@[i as int]));
        i += 1;
    }
    assert(s@.take(s@.len() as int) == s@);
}

/// A copy of a character slice as a vector.
pub fn to_vec(s: &[char]) -> (r: Vec<char>)
    ensures
        r@ == s@,
{
    let mut r: Vec<char> = Vec::new();
    push_chars(&mut r, s);
    r
}

/// The characters `s[from..to]`.
pub fn slice_chars(s: &[char], from: usize, to: usize) -> (r: Vec<char>)
    requires
        from <= to <= s@.len(),
    ensures
        r@ == s@.subrange(from as int, to as int),
{
    let mut r: Vec<char> = Vec::new();
    let mut i = from;
    while i < to
        invariant
            from <= i <= to <= s@.len(),
            r@ == s@.subrange(from as int, i as int),
        decreases to - i,
    {
        r.push(s[i]);
        assert(s@.subrange(from as int, i + 1) == s@.subrange(from as int, i as int).push(s@[i as int]));
        i += 1;
    }
    r
}

/// The bytes `s[from..to]`.
pub fn slice_bytes(s: &[u8], from: usize, to: usize) -> (r: Vec<u8>)
    requires
        from <= to <= s@.len(),
    ensures
        r@ == s@.subrange(from as int, to as int),
{
    let mut r: Vec<u8> = Vec::new();
    let mut i = from;
    while i < to
        invariant
            from <= i <= to <= s@.len(),
            r@ == s@.subrange(from as int, i as int),
        decreases to - i,
    {
        r.push(s[i]);
        assert(s@.subrange(from as int, i + 1) == s@.subrange(from as int, i as int).push(s@[i as int]));
        i += 1;
    }
    r
}

/// Whether two character sequences are equal.
pub fn chars_eq(a: &[char], b: &[char]) -> (r: bool)
    ensures
        r == (a@ == b@),
{
    if a.len() != b.len() {
        return false;
    }
    let mut i: usize = 0;
    while i < a.len()
        invariant
            a@.len() == b@.len(),
            i <= a@.len(),
            forall|j: int| 0 <= j < i ==> a@[j] == b@[j],
        decreases a@.len() - i,
    {
        if a[i] != b[i] {
            return false;
        }
        i += 1;
    }
    assert(a@ == b@);
    true
}

/// Whether a character sequence equals the characters of a string slice.
pub fn chars_eq_lit(a: &[char], s: &str) -> (r: bool)
    ensures
        r == (a@ == s@),
{
    let b = chars_of(s);
    chars_eq(a, &b)
}

// ===== decimal numbers =====

/// The decimal digit for `d < 10`.
pub open spec fn digit_char(d: nat) -> char {
    if d == 0 { '0' }
    else if d == 1 { '1' }
    else if d == 2 { '2' }
    else if d == 3 { '3' }
    else if d == 4 { '4' }
    else if d == 5 { '5' }
    else if d == 6 { '6' }
    else if d == 7 { '7' }
    else if d == 8 { '8' }
    else { '9' }
}

/// Decimal representation of a natural number, without leading zeros.
pub open spec fn dec(n: nat) -> Seq<char>
    decreases n,
{
    if n < 10 {
        seq![digit_char(n)]
    } else {
        dec(n / 10).push(digit_char(n % 10))
    }
}

/// Decimal representation of an integer, with a leading `-` when negative.
pub open spec fn dec_int(n: int) -> Seq<char> {
    if n < 0 {
        seq!['-'] + dec((-n) as nat)
    } else {
        dec(n as nat)
    }
}

/// `n` `c` characters.
pub open spec fn repeat_char(c: char, n: nat) -> Seq<char>
    decreases n,
{
    if n == 0 {
        Seq::empty()
    } else {
        repeat_char(c, (n - 1) as nat).push(c)
    }
}

/// Decimal representation left-padded with zeros to at least `width` characters.
pub open spec fn dec_padded(n: nat, width: nat) -> Seq<char> {
    if dec(n).len() < width {
        repeat_char('0', (width - dec(n).len()) as nat) + dec(n)
    } else {
        dec(n)
    }
}

pub(crate) fn digit_of(d: u64) -> (c: char)
    requires
        d < 10,
    ensures
        c == digit_char(d as nat),
{
    if d == 0 { '0' }
    else if d == 1 { '1' }
    else if d == 2 { '2' }
    else if d == 3 { '3' }
    else if d == 4 { '4' }
    else if d == 5 { '5' }
    else if d == 6 { '6' }
    else if d == 7 { '7' }
    else if d == 8 { '8' }
    else { '9' }
}

/// Decimal representation of a `u64`.
pub fn dec_u64(n: u64) -> (r: Vec<char>)
    ensures
        r@ == dec(n as nat),
{
    dec_u128(n as u128)
}

/// Decimal representation of a `u128`.
pub fn dec_u128(n: u128) -> (r: Vec<char>)
    ensures
        r@ == dec(n as nat),
{
    let mut m = n;
    let mut tail: Vec<char> = Vec::new();
    while m >= 10
        invariant
            dec(n as nat) == dec(m as nat) + tail@,
        decreases m,
    {
        let d = digit_of((m % 10) as u64);
        let ghost t0 = tail@;
        tail.insert(0, d);
        assert(dec(m as nat) == dec((m / 10) as nat).push(digit_char((m % 10) as nat)));
        assert(dec((m / 10) as nat).push(d) + t0 == dec((m / 10) as nat) + tail@) by {
            assert(tail@ == seq![d] + t0);
        }
        m = m / 10;
    }
    let mut r: Vec<char> = Vec::new();
    r.push(digit_of(m as u64));
    r.append(&mut tail);
    r
}

/// Decimal representation of a `usize`.
pub fn dec_usize(n: usize) -> (r: Vec<char>)
    ensures
        r@ == dec(n as nat),
{
    dec_u64(n as u64)
}

/// Decimal representation of an `i64`.
pub fn dec_i64(n: i64) -> (r: Vec<char>)
    ensures
        r@ == dec_int(n as int),
{
    if n < 0 {
        let m: u64 = if n == i64::MIN { 9223372036854775808u64 } else { (-n) as u64 };
        let mut r: Vec<char> = Vec::new();
        r.push('-');
        let mut d = dec_u64(m);
        r.append(&mut d);
        r
    } else {
        dec_u64(n as u64)
    }
}

/// Appends the decimal representation of a `usize`.
pub fn push_usize(out: &mut Vec<char>, n: usize)
    ensures
        final(out)@ == old(out)@ + dec(n as nat),
{
    let mut d = dec_usize(n);
    out.append(&mut d);
}

/// Appends the decimal representation of `n + 1`.
pub fn push_succ(out: &mut Vec<char>, n: usize)
    ensures
        final(out)@ == old(out)@ + dec((n + 1) as nat),
{
    let mut d = dec_u128(n as u128 + 1);
    out.append(&mut d);
}

/// Decimal representation padded with leading zeros to `width` characters.
pub fn dec_u64_padded(n: u64, width: usize) -> (r: Vec<char>)
    ensures
        r@ == dec_padded(n as nat, width as nat),
{
    let d = dec_u64(n);
    if d.len() < width {
        let mut r: Vec<char> = Vec::new();
        let k = width - d.len();
        let mut i: usize = 0;
        while i < k
            invariant
                i <= k,
                r@ == repeat_char('0', i as nat),
            decreases k - i,
        {
            r.push('0');
            i += 1;
        }
        push_chars(&mut r, &d);
        r
    } else {
        d
    }
}

/// Textual form of a boolean (`true` / `false`).
pub open spec fn bool_text(b: bool) -> Seq<char> {
    if b { seq!['t', 'r', 'u', 'e'] } else { seq!['f', 'a', 'l', 's', 'e'] }
}

/// Appends `true` or `false`.
pub fn push_bool(out: &mut Vec<char>, b: bool)
    ensures
        final(out)@ == old(out)@ + bool_text(b),
{
    if b {
        out.push('t'); out.push('r'); out.push('u'); out.push('e');
        assert(out@ == old(out)@ + bool_text(b));
    } else {
        out.push('f'); out.push('a'); out.push('l'); out.push('s'); out.push('e');
        assert(out@ == old(out)@ + bool_text(b));
    }
}

// ===== searching =====

/// First index `>= i` holding `c`.
pub open spec fn find_char_from(s: Seq<char>, c: char, i: int) -> Option<int>
    decreases s.len() - i,
{
    if i < 0 || i >= s.len() {
        None
    } else if s[i] == c {
        Some(i)
    } else {
        find_char_from(s, c, i + 1)
    }
}

/// Last index `< i` holding `c`.
pub open spec fn rfind_char_before(s: Seq<char>, c: char, i: int) -> Option<int>
    decreases i,
{
    if i <= 0 || i > s.len() {
        None
    } else if s[i - 1] == c {
        Some(i - 1)
    } else {
        rfind_char_before(s, c, i - 1)
    }
}

/// Whether `n` occurs in `h` at position `i`.
pub open spec fn occurs_at(h: Seq<char>, n: Seq<char>, i: int) -> bool {
    0 <= i && i + n.len() <= h.len() && h.subrange(i, i + n.len()) == n
}

/// First position `>= i` at which `n` occurs in `h`.
pub open spec fn find_sub_from(h: Seq<char>, n: Seq<char>, i: int) -> Option<int>
    decreases h.len() + 1 - i,
{
    if i < 0 || i + n.len() > h.len() {
        None
    } else if h.subrange(i, i + n.len()) == n {
        Some(i)
    } else {
        find_sub_from(h, n, i + 1)
    }
}

/// Whether `n` occurs anywhere in `h`.
pub open spec fn contains_sub(h: Seq<char>, n: Seq<char>) -> bool {
    find_sub_from(h, n, 0) is Some
}

/// Whether `h` begins with `n`.
pub open spec fn starts_with(h: Seq<char>, n: Seq<char>) -> bool {
    n.len() <= h.len() && h.subrange(0, n.len() as int) == n
}

/// Whether `h` ends with `n`.
pub open spec fn ends_with(h: Seq<char>, n: Seq<char>) -> bool {
    n.len() <= h.len() && h.subrange(h.len() - n.len(), h.len() as int) == n
}

/// Finds the first index `>= from` holding `c`.
pub fn find_char(s: &[char], c: char, from: usize) -> (r: Option<usize>)
    ensures
        r matches Some(i) ==> find_char_from(s@, c, from as int) == Some(i as int),
        r is None ==> find_char_from(s@, c, from as int) is None,
{
    let mut i = from;
    while i < s.len()
        invariant
            from <= i,
            find_char_from(s@, c, from as int) == find_char_from(s@, c, i as int),
        decreases s@.len() - i,
    {
        if s[i] == c {
            return Some(i);
        }
        i += 1;
    }
    None
}

/// Finds the last index `< before` holding `c`.
pub fn rfind_char(s: &[char], c: char, before: usize) -> (r: Option<usize>)
    requires
        before <= s@.len(),
    ensures
        r matches Some(i) ==> rfind_char_before(s@, c, before as int) == Some(i as int),
        r is None ==> rfind_char_before(s@, c, before as int) is None,
{
    let mut i = before;
    while i > 0
        invariant
            i <= before <= s@.len(),
            rfind_char_before(s@, c, before as int) == rfind_char_before(s@, c, i as int),
        decreases i,
    {
        if s[i - 1] == c {
            return Some(i - 1);
        }
        i -= 1;
    }
    None
}

/// Whether `n` occurs in `h` at position `i`.
pub fn sub_at(h: &[char], n: &[char], i: usize) -> (r: bool)
    ensures
        r == occurs_at(h@, n@, i as int),
{
    if i > h.len() || n.len() > h.len() - i {
        return false;
    }
    let mut k: usize = 0;
    while k < n.len()
        invariant
            i + n@.len() <= h@.len(),
            h@.len() == h.len(),
            k <= n@.len(),
            forall|j: int| 0 <= j < k ==> h@[i + j] == n@[j],
        decreases n@.len() - k,
    {
        if h[i + k] != n[k] {
            assert(h@.subrange(i as int, i + n@.len())[k as int] != n@[k as int]);
            return false;
        }
        k += 1;
    }
    assert(h@.subrange(i as int, i + n@.len()) == n@);
    true
}

/// Finds the first position `>= from` where `n` occurs in `h`.
pub fn find_sub(h: &[char], n: &[char], from: usize) -> (r: Option<usize>)
    ensures
        r matches Some(i) ==> find_sub_from(h@, n@, from as int) == Some(i as int),
        r is None ==> find_sub_from(h@, n@, from as int) is None,
{
    let mut i = from;
    while i <= h.len() && n.len() <= h.len() - i
        invariant
            from <= i,
            find_sub_from(h@, n@, from as int) == find_sub_from(h@, n@, i as int),
        decreases h@.len() + 1 - i,
    {
        if sub_at(h, n, i) {
            return Some(i);
        }
        if i >= h.len() {
            assert(n@.len() == 0);
            assert(h@.subrange(i as int, i as int) == n@);
            return None;
        }
        i += 1;
    }
    None
}

/// Whether the characters of `lit` occur in `h`.
pub fn contains_lit(h: &[char], lit: &str) -> (r: bool)
    ensures
        r == contains_sub(h@, lit@),
{
    let n = chars_of(lit);
    find_sub(h, &n, 0).is_some()
}

/// Whether `h` begins with the characters of `lit`.
pub fn starts_with_lit(h: &[char], lit: &str) -> (r: bool)
    ensures
        r == starts_with(h@, lit@),
{
    let n = chars_of(lit);
    sub_at(h, &n, 0)
}


// ===== whitespace and trimming =====

/// Unicode `White_Space` characters (what `char::is_whitespace` accepts).
pub open spec fn is_ws(c: char) -> bool {
    ||| ('\t' <= c && c <= '\r')
    ||| c == ' '
    ||| c == '\u{85}'
    ||| c == '\u{a0}'
    ||| c == '\u{1680}'
    ||| ('\u{2000}' <= c && c <= '\u{200a}')
    ||| c == '\u{2028}'
    ||| c == '\u{2029}'
    ||| c == '\u{202f}'
    ||| c == '\u{205f}'
    ||| c == '\u{3000}'
}

/// `char::is_whitespace`.
pub fn is_whitespace(c: char) -> (r: bool)
    ensures
        r == is_ws(c),
{
    ('\t' <= c && c <= '\r') || c == ' ' || c == '\u{85}' || c == '\u{a0}' || c == '\u{1680}'
        || ('\u{2000}' <= c && c <= '\u{200a}') || c == '\u{2028}' || c == '\u{2029}'
        || c == '\u{202f}' || c == '\u{205f}' || c == '\u{3000}'
}

/// Number of leading whitespace characters of `s` from position `i` on.
pub open spec fn ws_prefix_end(s: Seq<char>, i: int) -> int
    decreases s.len() - i,
{
    if i < 0 || i >= s.len() || !is_ws(s[i]) {
        i
    } else {
        ws_prefix_end(s, i + 1)
    }
}

/// Start of the trailing whitespace of `s[..i]`.
pub open spec fn ws_suffix_start(s: Seq<char>, i: int) -> int
    decreases i,
{
    if i <= 0 || i > s.len() || !is_ws(s[i - 1]) {
        i
    } else {
        ws_suffix_start(s, i - 1)
    }
}

/// `s` without leading whitespace (`str::trim_start`).
pub open spec fn trim_start(s: Seq<char>) -> Seq<char> {
    s.subrange(ws_prefix_end(s, 0), s.len() as int)
}

/// `s` without trailing whitespace (`str::trim_end`).
pub open spec fn trim_end(s: Seq<char>) -> Seq<char> {
    s.subrange(0, ws_suffix_start(s, s.len() as int))
}

/// `s` without leading or trailing whitespace (`str::trim`).
pub open spec fn trim(s: Seq<char>) -> Seq<char> {
    trim_end(trim_start(s))
}

proof fn lemma_ws_prefix_end_bounds(s: Seq<char>, i: int)
    requires
        0 <= i <= s.len(),
    ensures
        i <= ws_prefix_end(s, i) <= s.len(),
    decreases s.len() - i,
{
    if i < s.len() && is_ws(s[i]) {
        lemma_ws_prefix_end_bounds(s, i + 1);
    }
}

proof fn lemma_ws_suffix_start_bounds(s: Seq<char>, i: int)
    requires
        0 <= i <= s.len(),
    ensures
        0 <= ws_suffix_start(s, i) <= i,
    decreases i,
{
    if i > 0 && is_ws(s[i - 1]) {
        lemma_ws_suffix_start_bounds(s, i - 1);
    }
}

/// `str::trim_start`.
pub fn trim_start_chars(s: &[char]) -> (r: Vec<char>)
    ensures
        r@ == trim_start(s@),
{
    let mut i: usize = 0;
    while i < s.len() && is_whitespace(s[i])
        invariant
            i <= s@.len(),
            ws_prefix_end(s@, 0) == ws_prefix_end(s@, i as int),
        decreases s@.len() - i,
    {
        i += 1;
    }
    slice_chars(s, i, s.len())
}

/// `str::trim_end`.
pub fn trim_end_chars(s: &[char]) -> (r: Vec<char>)
    ensures
        r@ == trim_end(s@),
{
    let mut i: usize = s.len();
    while i > 0 && is_whitespace(s[i - 1])
        invariant
            i <= s@.len(),
            ws_suffix_start(s@, s@.len() as int) == ws_suffix_start(s@, i as int),
        decreases i,
    {
        i -= 1;
    }
    slice_chars(s, 0, i)
}

/// `str::trim`.
pub fn trim_chars(s: &[char]) -> (r: Vec<char>)
    ensures
        r@ == trim(s@),
{
    let a = trim_start_chars(s);
    trim_end_chars(&a)
}

/// Whether every character of `s` is whitespace (so that `trim` leaves nothing).
pub fn is_blank(s: &[char]) -> (r: bool)
    ensures
        r == (trim(s@).len() == 0),
{
    let t = trim_chars(s);
    t.len() == 0
}

// ===== lines =====

/// `l` without one trailing carriage return.
pub open spec fn strip_cr(l: Seq<char>) -> Seq<char> {
    if l.len() > 0 && l.last() == '\r' {
        l.drop_last()
    } else {
        l
    }
}

/// Lines of `rest`, the current (unfinished) line being `cur`.
pub open spec fn lines_from(cur: Seq<char>, rest: Seq<char>) -> Seq<Seq<char>>
    decreases rest.len(),
{
    if rest.len() == 0 {
        if cur.len() == 0 {
            Seq::empty()
        } else {
            seq![cur]
        }
    } else if rest[0] == '\n' {
        seq![strip_cr(cur)] + lines_from(Seq::empty(), rest.drop_first())
    } else {
        lines_from(cur.push(rest[0]), rest.drop_first())
    }
}

/// The lines of a text, as `str::lines` splits them: at each `\n`, dropping a
/// `\r` right before it, with no empty last line after a final line ending.
pub open spec fn lines(s: Seq<char>) -> Seq<Seq<char>> {
    lines_from(Seq::empty(), s)
}

proof fn lemma_lines_from_shorter(cur: Seq<char>, rest: Seq<char>)
    ensures
        forall|k: int| 0 <= k < lines_from(cur, rest).len() ==> #[trigger] lines_from(cur, rest)[k].len() <= cur.len() + rest.len(),
    decreases rest.len(),
{
    if rest.len() == 0 {
        if cur.len() != 0 {
            assert(lines_from(cur, rest) == seq![cur]);
        }
    } else if rest[0] == '\n' {
        lemma_lines_from_shorter(Seq::empty(), rest.drop_first());
        let tail = lines_from(Seq::empty(), rest.drop_first());
        let all = seq![strip_cr(cur)] + tail;
        assert(lines_from(cur, rest) == all);
        assert(strip_cr(cur).len() <= cur.len());
        assert forall|k: int| 0 <= k < all.len() implies #[trigger] all[k].len() <= cur.len() + rest.len() by {
            if k > 0 {
                assert(all[k] == tail[k - 1]);
            } else {
                assert(all[k] == strip_cr(cur));
            }
        }
    } else {
        lemma_lines_from_shorter(cur.push(rest[0]), rest.drop_first());
        assert(lines_from(cur, rest) == lines_from(cur.push(rest[0]), rest.drop_first()));
    }
}

/// No line is longer than the text.
pub proof fn lemma_lines_shorter(s: Seq<char>)
    ensures
        forall|k: int| 0 <= k < lines(s).len() ==> #[trigger] lines(s)[k].len() <= s.len(),
{
    lemma_lines_from_shorter(Seq::empty(), s);
}

proof fn lemma_lines_from_count(cur: Seq<char>, rest: Seq<char>)
    ensures
        lines_from(cur, rest).len() <= rest.len() + 1,
    decreases rest.len(),
{
    if rest.len() > 0 {
        if rest[0] == '\n' {
            lemma_lines_from_count(Seq::empty(), rest.drop_first());
        } else {
            lemma_lines_from_count(cur.push(rest[0]), rest.drop_first());
        }
    }
}

/// A text of `n` characters has at most `n + 1` lines.
pub proof fn lemma_lines_count(s: Seq<char>)
    ensures
        lines(s).len() <= s.len() + 1,
{
    lemma_lines_from_count(Seq::empty(), s);
}

/// The UTF-8 encoding has at least one byte per character.
pub proof fn lemma_encoding_not_shorter(cs: Seq<char>)
    ensures
        vstd::utf8::encode_utf8(cs).len() >= cs.len(),
    decreases cs.len(),
{
    if cs.len() > 0 {
        lemma_encoding_not_shorter(cs.drop_first());
    }
}

/// `str::lines`.
pub fn lines_of(s: &[char]) -> (r: Vec<Vec<char>>)
    ensures
        r@.len() == lines(s@).len(),
        forall|k: int| 0 <= k < r@.len() ==> #[trigger] r@[k]@ == lines(s@)[k],
{
    let mut done: Vec<Vec<char>> = Vec::new();
    let mut cur: Vec<char> = Vec::new();
    let mut i: usize = 0;
    let ghost mut done_v: Seq<Seq<char>> = Seq::empty();
    assert(s@.skip(0) == s@);
    while i < s.len()
        invariant
            i <= s@.len(),
            done@.len() == done_v.len(),
            forall|k: int| 0 <= k < done@.len() ==> #[trigger] done@[k]@ == done_v[k],
            done_v + lines_from(cur@, s@.skip(i as int)) == lines(s@),
        decreases s@.len() - i,
    {
        let c = s[i];
        assert(s@.skip(i as int).drop_first() == s@.skip(i + 1));
        if c == '\n' {
            let mut line = cur;
            if line.len() > 0 && line[line.len() - 1] == '\r' {
                line.pop();
            }
            assert(line@ == strip_cr(cur@));
            proof {
                assert(done_v.push(line@) + lines_from(Seq::empty(), s@.skip(i + 1))
                    == done_v + (seq![strip_cr(cur@)] + lines_from(Seq::empty(), s@.skip(i + 1))));
                done_v = done_v.push(line@);
            }
            done.push(line);
            cur = Vec::new();
        } else {
            cur.push(c);
        }
        i += 1;
    }
    if cur.len() > 0 {
        proof {
            done_v = done_v.push(cur@);
        }
        done.push(cur);
    }
    done
}

// ===== replacing =====

/// `s` with every non-overlapping occurrence of `p` (left to right) replaced by `r`.
pub open spec fn replace_all(s: Seq<char>, p: Seq<char>, r: Seq<char>) -> Seq<char>
    decreases s.len(),
{
    if p.len() == 0 || s.len() < p.len() {
        s
    } else if s.subrange(0, p.len() as int) == p {
        r + replace_all(s.skip(p.len() as int), p, r)
    } else {
        seq![s[0]] + replace_all(s.drop_first(), p, r)
    }
}

/// `str::replace` for a non-empty pattern.
pub fn replace_chars(s: &[char], p: &[char], r: &[char]) -> (out: Vec<char>)
    ensures
        out@ == replace_all(s@, p@, r@),
{
    if p.len() == 0 {
        return to_vec(s);
    }
    let mut out: Vec<char> = Vec::new();
    let mut i: usize = 0;
    assert(s@.skip(0) == s@);
    while i < s.len()
        invariant
            p@.len() > 0,
            i <= s@.len(),
            out@ + replace_all(s@.skip(i as int), p@, r@) == replace_all(s@, p@, r@),
        decreases s@.len() - i,
    {
        let ghost rest = s@.skip(i as int);
        if p.len() <= s.len() - i && sub_at(s, p, i) {
            assert(rest.subrange(0, p@.len() as int) == s@.subrange(i as int, i + p@.len()));
            assert(rest.skip(p@.len() as int) == s@.skip(i + p@.len()));
            push_chars(&mut out, r);
            i += p.len();
        } else {
            proof {
                if p@.len() <= rest.len() {
                    assert(rest.subrange(0, p@.len() as int) == s@.subrange(i as int, i + p@.len()));
                }
                assert(rest.drop_first() == s@.skip(i + 1));
            }
            out.push(s[i]);
            i += 1;
        }
    }
    assert(s@.skip(i as int).len() == 0);
    out
}

/// `str::replace` with string-slice pattern and replacement.
pub fn replace_lit(s: &[char], p: &str, r: &str) -> (out: Vec<char>)
    ensures
        out@ == replace_all(s@, p@, r@),
{
    let pv = chars_of(p);
    let rv = chars_of(r);
    replace_chars(s, &pv, &rv)
}

// ===== list rendering =====

/// Concatenates `f(x)` for every element, each followed by `sep` unless it is
/// element number `total` or later, and then by `end`.
pub open spec fn sep_list<T>(xs: Seq<T>, total: int, f: spec_fn(T) -> Seq<char>, sep: Seq<char>, end: Seq<char>) -> Seq<char>
    decreases xs.len(),
{
    if xs.len() == 0 {
        Seq::empty()
    } else {
        sep_list(xs.drop_last(), total, f, sep, end) + f(xs.last()) + (if xs.len() < total {
            sep
        } else {
            Seq::empty()
        }) + end
    }
}

/// Concatenates `f(x)` for every element, with `sep` between consecutive elements.
pub open spec fn join_with<T>(xs: Seq<T>, f: spec_fn(T) -> Seq<char>, sep: Seq<char>) -> Seq<char>
    decreases xs.len(),
{
    if xs.len() == 0 {
        Seq::empty()
    } else if xs.len() == 1 {
        f(xs[0])
    } else {
        join_with(xs.drop_last(), f, sep) + sep + f(xs.last())
    }
}

/// Concatenates `f(c)` for every character.
pub open spec fn flat_map_chars(s: Seq<char>, f: spec_fn(char) -> Seq<char>) -> Seq<char>
    decreases s.len(),
{
    if s.len() == 0 {
        Seq::empty()
    } else {
        flat_map_chars(s.drop_last(), f) + f(s.last())
    }
}

/// One step of `sep_list` over a prefix.
pub proof fn lemma_sep_list_step<T>(xs: Seq<T>, i: int, total: int, f: spec_fn(T) -> Seq<char>, sep: Seq<char>, end: Seq<char>)
    requires
        0 <= i < xs.len(),
    ensures
        sep_list(xs.take(i + 1), total, f, sep, end) == sep_list(xs.take(i), total, f, sep, end) + f(xs[i])
            + (if i + 1 < total { sep } else { Seq::empty() }) + end,
{
    assert(xs.take(i + 1).drop_last() == xs.take(i));
}

/// One step of `join_with` over a prefix.
pub proof fn lemma_join_with_step<T>(xs: Seq<T>, i: int, f: spec_fn(T) -> Seq<char>, sep: Seq<char>)
    requires
        0 <= i < xs.len(),
    ensures
        join_with(xs.take(i + 1), f, sep) == join_with(xs.take(i), f, sep) + (if i > 0 { sep } else { Seq::empty() }) + f(xs[i]),
{
    assert(xs.take(i + 1).drop_last() == xs.take(i));
    if i == 0 {
        assert(xs.take(0).len() == 0);
        assert(join_with(xs.take(0), f, sep) == Seq::<char>::empty());
    }
}

/// One step of `flat_map_chars` over a prefix.
pub proof fn lemma_flat_map_step(s: Seq<char>, i: int, f: spec_fn(char) -> Seq<char>)
    requires
        0 <= i < s.len(),
    ensures
        flat_map_chars(s.take(i + 1), f) == flat_map_chars(s.take(i), f) + f(s[i]),
{
    assert(s.take(i + 1).drop_last() == s.take(i));
}

// ===== JSON-style escaping =====

/// Lower-case hexadecimal digit for `d < 16`.
pub open spec fn hex_char(d: nat) -> char {
    if d < 10 { digit_char(d) }
    else if d == 10 { 'a' }
    else if d == 11 { 'b' }
    else if d == 12 { 'c' }
    else if d == 13 { 'd' }
    else if d == 14 { 'e' }
    else { 'f' }
}

fn hex_of(d: u32) -> (c: char)
    requires
        d < 16,
    ensures
        c == hex_char(d as nat),
{
    if d < 10 { digit_of(d as u64) }
    else if d == 10 { 'a' }
    else if d == 11 { 'b' }
    else if d == 12 { 'c' }
    else if d == 13 { 'd' }
    else if d == 14 { 'e' }
    else { 'f' }
}

/// `\u` escape of a control character, as `format!("\\u{:04x}", c as u32)` writes it.
pub open spec fn unicode_escape(c: char) -> Seq<char> {
    seq!['\\', 'u', '0', '0', hex_char(((c as u32) / 16) as nat), hex_char(((c as u32) % 16) as nat)]
}

/// The characters of a `\\u` escape of a control character.
pub fn unicode_escape_chars(c: char) -> (r: Vec<char>)
    requires
        (c as u32) < 0x20,
    ensures
        r@ == unicode_escape(c),
{
    let v = c as u32;
    let mut r: Vec<char> = Vec::new();
    r.push('\\'); r.push('u'); r.push('0'); r.push('0');
    r.push(hex_of(v / 16));
    r.push(hex_of(v % 16));
    assert(r@ =~= unicode_escape(c));
    r
}

/// JSON escape of one character: quote, backslash, newline, carriage return and
/// tab get their short escapes, other control characters a `\u` escape.
pub open spec fn json_escape_char(c: char) -> Seq<char> {
    if c == '"' { seq!['\\', '"'] }
    else if c == '\\' { seq!['\\', '\\'] }
    else if c == '\n' { seq!['\\', 'n'] }
    else if c == '\r' { seq!['\\', 'r'] }
    else if c == '\t' { seq!['\\', 't'] }
    else if (c as u32) < 0x20 { unicode_escape(c) }
    else { seq![c] }
}

/// JSON escape of a text (without surrounding quotes).
pub open spec fn escape_json(s: Seq<char>) -> Seq<char> {
    flat_map_chars(s, |c: char| json_escape_char(c))
}

/// Appends the JSON escape of one character.
pub fn push_json_escaped_char(out: &mut Vec<char>, c: char)
    ensures
        final(out)@ == old(out)@ + json_escape_char(c),
{
    if c == '"' {
        out.push('\\'); out.push('"');
    } else if c == '\\' {
        out.push('\\'); out.push('\\');
    } else if c == '\n' {
        out.push('\\'); out.push('n');
    } else if c == '\r' {
        out.push('\\'); out.push('r');
    } else if c == '\t' {
        out.push('\\'); out.push('t');
    } else if (c as u32) < 0x20 {
        let v = c as u32;
        out.push('\\'); out.push('u'); out.push('0'); out.push('0');
        out.push(hex_of(v / 16));
        out.push(hex_of(v % 16));
    } else {
        out.push(c);
    }
    assert(out@ == old(out)@ + json_escape_char(c));
}

/// Appends the JSON escape of a text.
pub fn push_json_escaped(out: &mut Vec<char>, s: &[char])
    ensures
        final(out)@ == old(out)@ + escape_json(s@),
{
    let mut i: usize = 0;
    while i < s.len()
        invariant
            i <= s@.len(),
            out@ == old(out)@ + escape_json(s@.take(i as int)),
        decreases s@.len() - i,
    {
        proof { lemma_flat_map_step(s@, i as int, |c: char| json_escape_char(c)); }
        push_json_escaped_char(out, s[i]);
        i += 1;
    }
    assert(s@.take(s@.len() as int) == s@);
}

/// JSON escape of a text.
pub fn json_escaped(s: &[char]) -> (r: Vec<char>)
    ensures
        r@ == escape_json(s@),
{
    let mut r: Vec<char> = Vec::new();
    push_json_escaped(&mut r, s);
    r
}


/// A string's characters.
pub open spec fn str_view(s: String) -> Seq<char> {
    s@
}

/// A string as a JSON string literal.
pub open spec fn json_quoted(s: String) -> Seq<char> {
    "\""@ + escape_json(s@) + "\""@
}

/// The strings joined with `sep` (`[String]::join`).
pub fn join_strs(xs: &[String], sep: &str) -> (r: Vec<char>)
    ensures
        r@ == join_with(xs@, |s: String| str_view(s), sep@),
{
    let ghost f = |s: String| str_view(s);
    let mut r: Vec<char> = Vec::new();
    let mut i: usize = 0;
    while i < xs.len()
        invariant
            i <= xs@.len(),
            f == (|s: String| str_view(s)),
            r@ == join_with(xs@.take(i as int), f, sep@),
        decreases xs@.len() - i,
    {
        proof {
            lemma_join_with_step(xs@, i as int, f, sep@);
        }
        if i > 0 {
            push_lit(&mut r, sep);
        } else {
            assert(r@ + Seq::<char>::empty() == r@);
        }
        let cs = chars_of(xs[i].as_str());
        push_chars(&mut r, &cs);
        i += 1;
    }
    assert(xs@.take(xs@.len() as int) == xs@);
    r
}

/// The strings as JSON string literals joined with `, `.
pub fn join_quoted(xs: &[String]) -> (r: Vec<char>)
    ensures
        r@ == join_with(xs@, |s: String| json_quoted(s), ", "@),
{
    let ghost f = |s: String| json_quoted(s);
    let mut r: Vec<char> = Vec::new();
    let mut i: usize = 0;
    while i < xs.len()
        invariant
            i <= xs@.len(),
            f == (|s: String| json_quoted(s)),
            r@ == join_with(xs@.take(i as int), f, ", "@),
        decreases xs@.len() - i,
    {
        proof {
            lemma_join_with_step(xs@, i as int, f, ", "@);
        }
        let ghost before = r@;
        if i > 0 {
            push_lit(&mut r, ", ");
        } else {
            assert(r@ + Seq::<char>::empty() == r@);
        }
        let ghost mid = r@;
        push_lit(&mut r, "\"");
        let cs = chars_of(xs[i].as_str());
        push_json_escaped(&mut r, &cs);
        push_lit(&mut r, "\"");
        assert(r@ == mid + json_quoted(xs@[i as int]));
        i += 1;
    }
    assert(xs@.take(xs@.len() as int) == xs@);
    r
}

} // verus!

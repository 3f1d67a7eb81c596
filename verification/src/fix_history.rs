//! Fix history: one JSON line per applied fix run (NDJSON), its reading back,
//! UTC timestamps, and the `lom-fix-history/v1` and human renderings.
use vstd::prelude::*;
use core::time::Duration;
use crate::text::{
    occurs_at,
    chars_of, dec, dec_padded, dec_u64_padded, escape_json, find_sub, find_sub_from, join_with,
    lemma_join_with_step, lemma_sep_list_step, push_chars, push_json_escaped, push_lit, push_usize,
    repeat_char, replace_all, replace_lit, sep_list, slice_chars, string_of,
};

verus! {

/// One applied change.
#[derive(Debug, Clone, PartialEq)]
pub struct HistoryChange {
    pub line: usize,
    pub col: usize,
    /// "insert", "delete" or "replace".
    pub action: String,
    pub description: String,
    /// The diagnostic code the change answers.
    pub diagnostic_code: String,
}

/// One `fix --apply` run.
#[derive(Debug, Clone, PartialEq)]
pub struct FixHistoryEntry {
    /// ISO 8601 UTC time, such as `2026-08-08T10:30:00Z`.
    pub timestamp: String,
    pub file: String,
    pub applied: usize,
    pub skipped: usize,
    pub changes: Vec<HistoryChange>,
    /// Round of an iterative fix run (1 for records written before rounds).
    pub round: usize,
}

pub struct ChangeView {
    pub line: nat,
    pub col: nat,
    pub action: Seq<char>,
    pub description: Seq<char>,
    pub code: Seq<char>,
}

pub struct EntryView {
    pub timestamp: Seq<char>,
    pub file: Seq<char>,
    pub applied: nat,
    pub skipped: nat,
    pub changes: Seq<ChangeView>,
    pub round: nat,
}

impl View for HistoryChange {
    type V = ChangeView;

    open spec fn view(&self) -> ChangeView {
        ChangeView {
            line: self.line as nat,
            col: self.col as nat,
            action: self.action@,
            description: self.description@,
            code: self.diagnostic_code@,
        }
    }
}

pub open spec fn change_views(cs: Seq<HistoryChange>) -> Seq<ChangeView> {
    cs.map_values(|c: HistoryChange| c@)
}

impl View for FixHistoryEntry {
    type V = EntryView;

    open spec fn view(&self) -> EntryView {
        EntryView {
            timestamp: self.timestamp@,
            file: self.file@,
            applied: self.applied as nat,
            skipped: self.skipped as nat,
            changes: change_views(self.changes@),
            round: self.round as nat,
        }
    }
}

// ===== timestamps =====

pub open spec fn is_leap(y: int) -> bool {
    (y % 4 == 0 && y % 100 != 0) || y % 400 == 0
}

pub open spec fn days_in_year(y: int) -> int {
    if is_leap(y) { 366 } else { 365 }
}

/// Whole years from `y` on taken out of `days`: the year and the day within it.
pub open spec fn year_of(days: int, y: int) -> (int, int)
    decreases days,
{
    if days < days_in_year(y) || days < 0 {
        (y, days)
    } else {
        year_of(days - days_in_year(y), y + 1)
    }
}

/// Length of month `k` (0-based).
pub open spec fn month_len(leap: bool, k: int) -> int {
    if k == 1 {
        if leap { 29 } else { 28 }
    } else if k == 3 || k == 5 || k == 8 || k == 10 {
        30
    } else {
        31
    }
}

/// Whole months from month `k` on taken out of `rem`: the 1-based month and
/// the day within it.
pub open spec fn month_of(rem: int, leap: bool, k: int) -> (int, int)
    decreases 12 - k,
{
    if k >= 12 || rem < month_len(leap, k) {
        (k + 1, rem)
    } else {
        month_of(rem - month_len(leap, k), leap, k + 1)
    }
}

/// `YYYY-MM-DDTHH:MM:SSZ` for seconds since the Unix epoch.
pub open spec fn utc_text(secs: nat) -> Seq<char> {
    let days = secs / 86400;
    let hour = (secs % 86400) / 3600;
    let min = (secs % 3600) / 60;
    let sec = secs % 60;
    let (year, rem) = year_of(days as int, 1970);
    let (month, d) = month_of(rem, is_leap(year), 0);
    dec_padded(year as nat, 4) + "-"@ + dec_padded(month as nat, 2) + "-"@ + dec_padded((d + 1) as nat, 2) + "T"@
        + dec_padded(hour, 2) + ":"@ + dec_padded(min, 2) + ":"@ + dec_padded(sec, 2) + "Z"@
}

pub fn is_leap_year(year: u64) -> (r: bool)
    ensures
        r == is_leap(year as int),
{
    (year % 4 == 0 && year % 100 != 0) || (year % 400 == 0)
}

fn days_of_year(year: u64) -> (r: u64)
    ensures
        r == days_in_year(year as int),
{
    if is_leap_year(year) { 366 } else { 365 }
}

fn month_length(leap: bool, k: u64) -> (r: u64)
    ensures
        r == month_len(leap, k as int),
{
    if k == 1 {
        if leap { 29 } else { 28 }
    } else if k == 3 || k == 5 || k == 8 || k == 10 {
        30
    } else {
        31
    }
}

/// Seconds since the Unix epoch as an ISO 8601 UTC time.
pub fn epoch_to_utc(secs: u64) -> (r: String)
    ensures
        r@ == utc_text(secs as nat),
{
    let days = secs / 86400;
    let hour = (secs % 86400) / 3600;
    let min = (secs % 3600) / 60;
    let sec = secs % 60;
    let mut year: u64 = 1970;
    let mut remaining = days;
    while remaining >= days_of_year(year)
        invariant
            1970 <= year,
            year - 1970 + remaining <= days,
            days <= u64::MAX / 86400,
            year_of(remaining as int, year as int) == year_of(days as int, 1970),
        decreases remaining,
    {
        remaining = remaining - days_of_year(year);
        year = year + 1;
    }
    let leap = is_leap_year(year);
    let mut month: u64 = 1;
    let mut k: u64 = 0;
    while k < 12 && remaining >= month_length(leap, k)
        invariant
            k <= 12,
            month == k + 1,
            remaining <= days,
            month_of(remaining as int, leap, k as int) == month_of(
                year_of(days as int, 1970).1,
                is_leap(year_of(days as int, 1970).0),
                0,
            ),
        decreases 12 - k,
    {
        remaining = remaining - month_length(leap, k);
        month = month + 1;
        k = k + 1;
    }
    let day = remaining + 1;
    let mut out = dec_u64_padded(year, 4);
    push_lit(&mut out, "-");
    let m = dec_u64_padded(month, 2);
    push_chars(&mut out, &m);
    push_lit(&mut out, "-");
    let d = dec_u64_padded(day, 2);
    push_chars(&mut out, &d);
    push_lit(&mut out, "T");
    let h = dec_u64_padded(hour, 2);
    push_chars(&mut out, &h);
    push_lit(&mut out, ":");
    let mi = dec_u64_padded(min, 2);
    push_chars(&mut out, &mi);
    push_lit(&mut out, ":");
    let s = dec_u64_padded(sec, 2);
    push_chars(&mut out, &s);
    push_lit(&mut out, "Z");
    string_of(&out)
}

/// Time since the Unix epoch on the system clock (`SystemTime::elapsed` of
/// `UNIX_EPOCH`); `None` when the clock is before the epoch. Nothing is
/// stated of the value: it is the clock's.
#[verifier::external_body]
fn elapsed_since_epoch() -> (r: Option<Duration>) {
    std::time::UNIX_EPOCH.elapsed().ok()
}

/// Whole seconds of a duration (`Duration::as_secs`); nothing is stated of
/// the value.
#[verifier::external_body]
fn whole_seconds(d: &Duration) -> (r: u64) {
    d.as_secs()
}

/// The current UTC time as an ISO 8601 timestamp (the epoch itself when the
/// clock reads earlier).
pub fn current_timestamp() -> (r: String)
    ensures
        exists|s: u64| r@ == utc_text(s as nat),
{
    let secs = match elapsed_since_epoch() {
        Some(d) => whole_seconds(&d),
        None => 0,
    };
    epoch_to_utc(secs)
}


// ===== serialization =====

/// A JSON string literal.
pub open spec fn jq(s: Seq<char>) -> Seq<char> {
    "\""@ + escape_json(s) + "\""@
}

pub open spec fn change_json(c: ChangeView) -> Seq<char> {
    "{"@ + "\"line\":"@ + dec(c.line) + ",\"col\":"@ + dec(c.col) + ",\"action\":"@ + jq(c.action)
        + ",\"description\":"@ + jq(c.description) + ",\"code\":"@ + jq(c.code) + "}"@
}

/// One history line (without the line ending).
pub open spec fn entry_json(e: EntryView) -> Seq<char> {
    "{"@ + "\"timestamp\":"@ + jq(e.timestamp) + ",\"file\":"@ + jq(e.file) + ",\"applied\":"@ + dec(e.applied)
        + ",\"skipped\":"@ + dec(e.skipped) + ",\"round\":"@ + dec(e.round) + ",\"changes\":["@ + join_with(
        e.changes,
        |c: ChangeView| change_json(c),
        ","@,
    ) + "]"@ + "}"@
}

fn push_jq(out: &mut Vec<char>, s: &String)
    ensures
        final(out)@ == old(out)@ + jq(s@),
{
    push_lit(out, "\"");
    let cs = chars_of(s.as_str());
    push_json_escaped(out, &cs);
    push_lit(out, "\"");
}

fn render_change(c: &HistoryChange) -> (r: Vec<char>)
    ensures
        r@ == change_json(c@),
{
    let mut out = chars_of("{");
    push_lit(&mut out, "\"line\":");
    push_usize(&mut out, c.line);
    push_lit(&mut out, ",\"col\":");
    push_usize(&mut out, c.col);
    push_lit(&mut out, ",\"action\":");
    push_jq(&mut out, &c.action);
    push_lit(&mut out, ",\"description\":");
    push_jq(&mut out, &c.description);
    push_lit(&mut out, ",\"code\":");
    push_jq(&mut out, &c.diagnostic_code);
    push_lit(&mut out, "}");
    out
}

fn render_entry(entry: &FixHistoryEntry) -> (r: Vec<char>)
    ensures
        r@ == entry_json(entry@),
{
    let mut s = chars_of("{");
    push_lit(&mut s, "\"timestamp\":");
    push_jq(&mut s, &entry.timestamp);
    push_lit(&mut s, ",\"file\":");
    push_jq(&mut s, &entry.file);
    push_lit(&mut s, ",\"applied\":");
    push_usize(&mut s, entry.applied);
    push_lit(&mut s, ",\"skipped\":");
    push_usize(&mut s, entry.skipped);
    push_lit(&mut s, ",\"round\":");
    push_usize(&mut s, entry.round);
    push_lit(&mut s, ",\"changes\":[");
    let ghost cv = change_views(entry.changes@);
    let ghost g = |c: ChangeView| change_json(c);
    let mut list: Vec<char> = Vec::new();
    let mut i: usize = 0;
    while i < entry.changes.len()
        invariant
            i <= entry.changes@.len(),
            cv == change_views(entry.changes@),
            g == (|c: ChangeView| change_json(c)),
            list@ == join_with(cv.take(i as int), g, ","@),
        decreases entry.changes@.len() - i,
    {
        proof {
            lemma_join_with_step(cv, i as int, g, ","@);
        }
        if i > 0 {
            push_lit(&mut list, ",");
        } else {
            assert(list@ + Seq::<char>::empty() == list@);
        }
        let item = render_change(&entry.changes[i]);
        push_chars(&mut list, &item);
        i += 1;
    }
    assert(cv.take(cv.len() as int) == cv);
    push_chars(&mut s, &list);
    push_lit(&mut s, "]");
    push_lit(&mut s, "}");
    s
}

/// One history record as a single JSON line.
pub fn entry_to_json(entry: &FixHistoryEntry) -> (r: String)
    ensures
        r@ == entry_json(entry@),
{
    let v = render_entry(entry);
    string_of(&v)
}

pub open spec fn entry_line(e: FixHistoryEntry) -> Seq<char> {
    "    "@ + entry_json(e@)
}

/// The `lom-fix-history/v1` document.
pub open spec fn history_json(es: Seq<FixHistoryEntry>) -> Seq<char> {
    "{\n"@ + "  \"schema\": \"lom-fix-history/v1\",\n"@ + "  \"count\": "@ + dec(es.len()) + ",\n"@ + "  \"entries\": ["@
        + (if es.len() == 0 {
        "]\n"@
    } else {
        "\n"@ + sep_list(es, es.len() as int, |e: FixHistoryEntry| entry_line(e), ","@, "\n"@) + "  ]\n"@
    }) + "}\n"@
}

/// The history document begins by naming its schema, `lom-fix-history/v1`,
/// whatever the records.
pub proof fn lemma_history_json_schema_first(es: Seq<FixHistoryEntry>)
    ensures
        history_json(es).take(36) == "{\n  \"schema\": \"lom-fix-history/v1\",\n"@,
{
    reveal_strlit("{\n  \"schema\": \"lom-fix-history/v1\",\n");
    reveal_strlit("{\n");
    reveal_strlit("  \"schema\": \"lom-fix-history/v1\",\n");
    let head = "{\n"@ + "  \"schema\": \"lom-fix-history/v1\",\n"@;
    assert(head == "{\n  \"schema\": \"lom-fix-history/v1\",\n"@);
    assert(head.len() == 36);
    assert(history_json(es).take(36) == head);
}

proof fn lemma_occurs_inside(a: Seq<char>, b: Seq<char>, c: Seq<char>, n: Seq<char>, i: int)
    requires
        occurs_at(b, n, i),
    ensures
        occurs_at(a + b + c, n, a.len() + i),
{
    assert((a + b + c).subrange(a.len() + i, a.len() + i + n.len()) =~= b.subrange(i, i + n.len()));
}

spec fn entry_lines(xs: Seq<FixHistoryEntry>, total: int, sep: Seq<char>, end: Seq<char>) -> Seq<char> {
    sep_list(xs, total, |e: FixHistoryEntry| entry_line(e), sep, end)
}

proof fn lemma_sep_list_holds(
    xs: Seq<FixHistoryEntry>,
    total: int,
    sep: Seq<char>,
    end: Seq<char>,
    k: int,
)
    requires
        0 <= k < xs.len(),
    ensures
        exists|i: int| #[trigger] occurs_at(entry_lines(xs, total, sep, end), entry_line(xs[k]), i),
    decreases xs.len(),
{
    let f = |e: FixHistoryEntry| entry_line(e);
    let before = entry_lines(xs.drop_last(), total, sep, end);
    let after = (if xs.len() < total { sep } else { Seq::empty() }) + end;
    assert(entry_lines(xs, total, sep, end) == before + f(xs.last()) + after);
    if k == xs.len() - 1 {
        assert(occurs_at(f(xs.last()), entry_line(xs[k]), 0)) by {
            assert(f(xs.last()).subrange(0, f(xs.last()).len() as int) =~= f(xs.last()));
        }
        lemma_occurs_inside(before, f(xs.last()), after, entry_line(xs[k]), 0);
    } else {
        lemma_sep_list_holds(xs.drop_last(), total, sep, end, k);
        assert(xs.drop_last()[k] == xs[k]);
        let i = choose|i: int| #[trigger] occurs_at(before, entry_line(xs[k]), i);
        lemma_occurs_inside(Seq::empty(), before, f(xs.last()) + after, entry_line(xs[k]), i);
        assert(Seq::<char>::empty() + before + (f(xs.last()) + after) =~= before + f(xs.last()) + after);
    }
}

/// The history document holds every record as one line: four spaces, then
/// the record's JSON.
pub proof fn lemma_history_json_holds_entries(es: Seq<FixHistoryEntry>, k: int)
    requires
        0 <= k < es.len(),
    ensures
        exists|i: int| #[trigger] occurs_at(history_json(es), "    "@ + entry_json(es[k]@), i),
{
    let list = entry_lines(es, es.len() as int, ","@, "\n"@);
    lemma_sep_list_holds(es, es.len() as int, ","@, "\n"@, k);
    let i = choose|i: int| #[trigger] occurs_at(list, entry_line(es[k]), i);
    let head = "{\n"@ + "  \"schema\": \"lom-fix-history/v1\",\n"@ + "  \"count\": "@ + dec(es.len()) + ",\n"@
        + "  \"entries\": ["@ + "\n"@;
    let tail = "  ]\n"@ + "}\n"@;
    lemma_occurs_inside(head, list, tail, entry_line(es[k]), i);
    assert(history_json(es) =~= head + list + tail);
}

/// All records as `lom-fix-history/v1` JSON.
pub fn to_json(entries: &[FixHistoryEntry]) -> (r: String)
    ensures
        r@ == history_json(entries@),
{
    let mut s = chars_of("{\n");
    push_lit(&mut s, "  \"schema\": \"lom-fix-history/v1\",\n");
    push_lit(&mut s, "  \"count\": ");
    push_usize(&mut s, entries.len());
    push_lit(&mut s, ",\n");
    push_lit(&mut s, "  \"entries\": [");
    let n = entries.len();
    if n == 0 {
        push_lit(&mut s, "]\n");
    } else {
        push_lit(&mut s, "\n");
        let ghost g = |e: FixHistoryEntry| entry_line(e);
        let mut list: Vec<char> = Vec::new();
        let mut i: usize = 0;
        while i < n
            invariant
                n == entries@.len(),
                i <= n,
                g == (|e: FixHistoryEntry| entry_line(e)),
                list@ == sep_list(entries@.take(i as int), n as int, g, ","@, "\n"@),
            decreases n - i,
        {
            proof {
                lemma_sep_list_step(entries@, i as int, n as int, g, ","@, "\n"@);
            }
            let ghost before = list@;
            push_lit(&mut list, "    ");
            let e = render_entry(&entries[i]);
            push_chars(&mut list, &e);
            assert(list@ == before + entry_line(entries@[i as int]));
            if i + 1 < n {
                push_lit(&mut list, ",");
            } else {
                assert(list@ + Seq::<char>::empty() =~= list@);
            }
            push_lit(&mut list, "\n");
            i += 1;
        }
        assert(entries@.take(n as int) == entries@);
        push_chars(&mut s, &list);
        push_lit(&mut s, "  ]\n");
    }
    push_lit(&mut s, "}\n");
    string_of(&s)
}

pub open spec fn change_human(c: ChangeView) -> Seq<char> {
    "    ["@ + dec(c.line) + ":"@ + dec(c.col) + "] "@ + c.action + " ("@ + c.code + ") — "@ + c.description + "\n"@
}

pub open spec fn entry_human(e: EntryView, k: nat) -> Seq<char> {
    "["@ + dec(k) + "] "@ + e.timestamp + " | "@ + e.file + "\n"@ + "    applied: "@ + dec(e.applied) + ", skipped: "@
        + dec(e.skipped) + ", round: "@ + dec(e.round) + "\n"@ + sep_list(
        e.changes,
        0,
        |c: ChangeView| change_human(c),
        Seq::empty(),
        Seq::empty(),
    )
}

/// The records `es` (the first `es.len()` of `n`), numbered from 1, a blank
/// line between consecutive records.
pub open spec fn entries_human(es: Seq<FixHistoryEntry>, n: int) -> Seq<char>
    decreases es.len(),
{
    if es.len() == 0 {
        Seq::empty()
    } else {
        entries_human(es.drop_last(), n) + entry_human(es.last()@, es.len()) + (if es.len() < n {
            "\n"@
        } else {
            Seq::empty()
        })
    }
}

/// The human listing of all records.
pub open spec fn history_human(es: Seq<FixHistoryEntry>) -> Seq<char> {
    if es.len() == 0 {
        "无修复历史记录。\n"@
    } else {
        "修复历史 ("@ + dec(es.len()) + " 条记录)\n"@ + repeat_char('─', 60) + "\n"@ + entries_human(es, es.len() as int)
    }
}

fn human_entry(e: &FixHistoryEntry, k: usize) -> (r: Vec<char>)
    ensures
        r@ == entry_human(e@, k as nat),
{
    let mut s = chars_of("[");
    push_usize(&mut s, k);
    push_lit(&mut s, "] ");
    let ts = chars_of(e.timestamp.as_str());
    push_chars(&mut s, &ts);
    push_lit(&mut s, " | ");
    let f = chars_of(e.file.as_str());
    push_chars(&mut s, &f);
    push_lit(&mut s, "\n");
    push_lit(&mut s, "    applied: ");
    push_usize(&mut s, e.applied);
    push_lit(&mut s, ", skipped: ");
    push_usize(&mut s, e.skipped);
    push_lit(&mut s, ", round: ");
    push_usize(&mut s, e.round);
    push_lit(&mut s, "\n");
    let ghost cv = change_views(e.changes@);
    let ghost g = |c: ChangeView| change_human(c);
    let mut list: Vec<char> = Vec::new();
    let mut i: usize = 0;
    while i < e.changes.len()
        invariant
            i <= e.changes@.len(),
            cv == change_views(e.changes@),
            g == (|c: ChangeView| change_human(c)),
            list@ == sep_list(cv.take(i as int), 0, g, Seq::empty(), Seq::empty()),
        decreases e.changes@.len() - i,
    {
        proof {
            lemma_sep_list_step(cv, i as int, 0, g, Seq::empty(), Seq::empty());
        }
        let ghost before = list@;
        let c = &e.changes[i];
        push_lit(&mut list, "    [");
        push_usize(&mut list, c.line);
        push_lit(&mut list, ":");
        push_usize(&mut list, c.col);
        push_lit(&mut list, "] ");
        let a = chars_of(c.action.as_str());
        push_chars(&mut list, &a);
        push_lit(&mut list, " (");
        let code = chars_of(c.diagnostic_code.as_str());
        push_chars(&mut list, &code);
        push_lit(&mut list, ") — ");
        let d = chars_of(c.description.as_str());
        push_chars(&mut list, &d);
        push_lit(&mut list, "\n");
        assert(list@ == before + change_human(cv[i as int]) + Seq::<char>::empty() + Seq::<char>::empty());
        i += 1;
    }
    assert(cv.take(cv.len() as int) == cv);
    push_chars(&mut s, &list);
    s
}

/// The human listing of the records.
pub fn to_human(entries: &[FixHistoryEntry]) -> (r: String)
    ensures
        r@ == history_human(entries@),
{
    let n = entries.len();
    if n == 0 {
        let m = chars_of("无修复历史记录。\n");
        return string_of(&m);
    }
    let mut s = chars_of("修复历史 (");
    push_usize(&mut s, n);
    push_lit(&mut s, " 条记录)\n");
    let mut k: usize = 0;
    while k < 60
        invariant
            k <= 60,
            s@ == "修复历史 ("@ + dec(n as nat) + " 条记录)\n"@ + repeat_char('─', k as nat),
        decreases 60 - k,
    {
        s.push('─');
        k += 1;
    }
    push_lit(&mut s, "\n");
    let mut list: Vec<char> = Vec::new();
    let mut i: usize = 0;
    while i < n
        invariant
            n == entries@.len(),
            i <= n,
            list@ == entries_human(entries@.take(i as int), n as int),
        decreases n - i,
    {
        assert(entries@.take(i + 1).drop_last() == entries@.take(i as int));
        let item = human_entry(&entries[i], i + 1);
        push_chars(&mut list, &item);
        if i + 1 < n {
            push_lit(&mut list, "\n");
        } else {
            assert(list@ + Seq::<char>::empty() == list@);
        }
        i += 1;
    }
    assert(entries@.take(n as int) == entries@);
    push_chars(&mut s, &list);
    string_of(&s)
}


// ===== reading records back =====

/// End of a JSON string body starting at `i`: the index of the closing quote,
/// a backslash skipping the character after it; `start` when there is none.
pub open spec fn closing_quote(s: Seq<char>, i: int, start: int) -> int
    decreases s.len() - i,
{
    if i < 0 || i >= s.len() {
        start
    } else if s[i] == '\\' {
        if i + 2 > s.len() { start } else { closing_quote(s, i + 2, start) }
    } else if s[i] == '"' {
        i
    } else {
        closing_quote(s, i + 1, start)
    }
}

/// Undoes the escapes `\"`, `\\`, `\n`, `\r`, `\t`, in that order, each over
/// the whole text.
pub open spec fn unescape(raw: Seq<char>) -> Seq<char> {
    replace_all(
        replace_all(
            replace_all(replace_all(replace_all(raw, "\\\""@, "\""@), "\\\\"@, "\\"@), "\\n"@, "\n"@),
            "\\r"@,
            "\r"@,
        ),
        "\\t"@,
        "\t"@,
    )
}

/// The string value of the first `"key":"..."` in a JSON text.
pub open spec fn string_field(json: Seq<char>, key: Seq<char>) -> Option<Seq<char>> {
    let needle = "\""@ + key + "\":\""@;
    match find_sub_from(json, needle, 0) {
        None => None,
        Some(p) => {
            let start = p + needle.len();
            Some(unescape(json.subrange(start, closing_quote(json, start, start))))
        },
    }
}

pub open spec fn is_digit_char(c: char) -> bool {
    '0' <= c <= '9'
}

pub open spec fn digit_run_end(s: Seq<char>, i: int) -> int
    decreases s.len() - i,
{
    if 0 <= i < s.len() && is_digit_char(s[i]) { digit_run_end(s, i + 1) } else { i }
}

/// Decimal value of a run of digit characters.
pub open spec fn digits_value(d: Seq<char>) -> nat
    decreases d.len(),
{
    if d.len() == 0 { 0 } else { digits_value(d.drop_last()) * 10 + (d.last() as nat - '0' as nat) as nat }
}

/// The number value of the first `"key":<digits>` in a JSON text, when the
/// digits are there and fit in `usize`.
pub open spec fn number_field(json: Seq<char>, key: Seq<char>) -> Option<nat> {
    let needle = "\""@ + key + "\":"@;
    match find_sub_from(json, needle, 0) {
        None => None,
        Some(p) => {
            let start = p + needle.len();
            let end = digit_run_end(json, start);
            if end == start || digits_value(json.subrange(start, end)) > usize::MAX {
                None
            } else {
                Some(digits_value(json.subrange(start, end)))
            }
        },
    }
}

proof fn lemma_closing_quote(s: Seq<char>, i: int, start: int)
    requires
        0 <= start <= i,
        start <= s.len(),
    ensures
        start <= closing_quote(s, i, start) <= s.len(),
    decreases s.len() - i,
{
    if 0 <= i < s.len() {
        if s[i] == '\\' {
            if i + 2 <= s.len() {
                lemma_closing_quote(s, i + 2, start);
            }
        } else if s[i] != '"' {
            lemma_closing_quote(s, i + 1, start);
        }
    }
}

proof fn lemma_digit_run_end(s: Seq<char>, i: int)
    requires
        0 <= i <= s.len(),
    ensures
        i <= digit_run_end(s, i) <= s.len(),
    decreases s.len() - i,
{
    if i < s.len() && is_digit_char(s[i]) {
        lemma_digit_run_end(s, i + 1);
    }
}

/// A match of a search lies within the text, at or after the start.
pub proof fn lemma_find_in_bounds(h: Seq<char>, n: Seq<char>, i: int)
    ensures
        find_sub_from(h, n, i) matches Some(p) ==> i <= p && p + n.len() <= h.len(),
    decreases h.len() + 1 - i,
{
    if !(i < 0 || i + n.len() > h.len()) && h.subrange(i, i + n.len()) != n {
        lemma_find_in_bounds(h, n, i + 1);
    }
}

/// Index of the quote that closes a JSON string body starting at `start`
/// (`start` itself when there is none).
pub fn string_body_end(json: &[char], start: usize) -> (end: usize)
    requires
        start <= json@.len(),
    ensures
        end == closing_quote(json@, start as int, start as int),
        start <= end <= json@.len(),
{
    let mut end = start;
    let mut i = start;
    while i < json.len()
        invariant_except_break
            end == start,
        invariant
            start <= i,
            start <= json@.len(),
            closing_quote(json@, i as int, start as int) == closing_quote(json@, start as int, start as int),
        ensures
            end == closing_quote(json@, start as int, start as int),
        decreases json@.len() - i,
    {
        if json[i] == '\\' {
            i = if i + 1 < json.len() { i + 2 } else { json.len() };
        } else if json[i] == '"' {
            end = i;
            break;
        } else {
            i += 1;
        }
    }
    proof {
        lemma_closing_quote(json@, start as int, start as int);
    }
    end
}

/// The needle `"key":"`, as characters.
fn string_needle(key: &str) -> (r: Vec<char>)
    ensures
        r@ == "\""@ + key@ + "\":\""@,
{
    let mut n = chars_of("\"");
    push_lit(&mut n, key);
    push_lit(&mut n, "\":\"");
    n
}

/// The string value of the first `"key":"..."` in `json`, its basic escapes
/// undone.
pub fn extract_json_string(json: &[char], key: &str) -> (r: Option<Vec<char>>)
    ensures
        match string_field(json@, key@) {
            Some(v) => r matches Some(x) && x@ == v,
            None => r is None,
        },
{
    let needle = string_needle(key);
    let found = find_sub(json, &needle, 0);
    proof {
        lemma_find_in_bounds(json@, needle@, 0);
    }
    if found.is_none() {
        return None;
    }
    let p = found.unwrap();
    assert(find_sub_from(json@, needle@, 0) == Some(p as int));
    assert(p + needle@.len() <= json@.len());
    assert(json@.len() == json.len());
    assert(needle@.len() == needle.len());
    let start = p + needle.len();
    let end = string_body_end(json, start);
    let raw = slice_chars(json, start, end);
    let a = replace_lit(&raw, "\\\"", "\"");
    let b = replace_lit(&a, "\\\\", "\\");
    let c = replace_lit(&b, "\\n", "\n");
    let d = replace_lit(&c, "\\r", "\r");
    let e = replace_lit(&d, "\\t", "\t");
    Some(e)
}

fn digit_value(c: char) -> (r: u64)
    requires
        is_digit_char(c),
    ensures
        r == c as nat - '0' as nat,
        r <= 9,
{
    (c as u32 - '0' as u32) as u64
}

/// The number value of the first `"key":<digits>` in `json`.
pub fn extract_json_number(json: &[char], key: &str) -> (r: Option<usize>)
    ensures
        match number_field(json@, key@) {
            Some(v) => r matches Some(x) && x == v,
            None => r is None,
        },
{
    let mut needle = chars_of("\"");
    push_lit(&mut needle, key);
    push_lit(&mut needle, "\":");
    let found = find_sub(json, &needle, 0);
    proof {
        lemma_find_in_bounds(json@, needle@, 0);
    }
    if found.is_none() {
        return None;
    }
    let p = found.unwrap();
    assert(find_sub_from(json@, needle@, 0) == Some(p as int));
    assert(p + needle@.len() <= json@.len());
    assert(json@.len() == json.len());
    assert(needle@.len() == needle.len());
    let start = p + needle.len();
    let mut end = start;
    let mut acc: u64 = 0;
    let mut big = false;
    while end < json.len() && '0' <= json[end] && json[end] <= '9'
        invariant
            start <= end <= json@.len(),
            digit_run_end(json@, end as int) == digit_run_end(json@, start as int),
            !big ==> acc == digits_value(json@.subrange(start as int, end as int)) && acc <= usize::MAX,
            big ==> digits_value(json@.subrange(start as int, end as int)) > usize::MAX,
        decreases json@.len() - end,
    {
        let d = digit_value(json[end]);
        let ghost a = json@.subrange(start as int, end as int);
        let ghost b = json@.subrange(start as int, end + 1);
        proof {
            assert(b.drop_last() == a);
            assert(digits_value(b) == digits_value(a) * 10 + d);
        }
        if !big {
            if acc > (usize::MAX as u64 - d) / 10 {
                big = true;
                assert(acc * 10 + d > usize::MAX) by (nonlinear_arith)
                    requires
                        acc > (usize::MAX as u64 - d) / 10,
                        d <= 9,
                        usize::MAX <= u64::MAX,
                ;
            } else {
                assert(acc * 10 + d <= usize::MAX) by (nonlinear_arith)
                    requires
                        acc <= (usize::MAX as u64 - d) / 10,
                        d <= 9,
                        usize::MAX <= u64::MAX,
                ;
                acc = acc * 10 + d;
            }
        } else {
            assert(digits_value(b) >= digits_value(a)) by (nonlinear_arith)
                requires
                    digits_value(b) == digits_value(a) * 10 + d,
            ;
        }
        end += 1;
    }
    if end == start || big {
        None
    } else {
        Some(acc as usize)
    }
}


/// A change record read from its JSON object.
pub open spec fn change_of(obj: Seq<char>) -> Option<ChangeView> {
    match (
        number_field(obj, "line"@),
        number_field(obj, "col"@),
        string_field(obj, "action"@),
        string_field(obj, "description"@),
        string_field(obj, "code"@),
    ) {
        (Some(line), Some(col), Some(action), Some(description), Some(code)) => Some(
            ChangeView { line, col, action, description, code },
        ),
        _ => None,
    }
}

/// Position after the `}` that brings the brace depth from `depth` to 0
/// (braces are counted without regard to strings), or the end.
pub open spec fn brace_end(s: Seq<char>, i: int, depth: int) -> int
    decreases s.len() - i,
{
    if i < 0 || i >= s.len() || depth <= 0 {
        i
    } else if s[i] == '{' {
        brace_end(s, i + 1, depth + 1)
    } else if s[i] == '}' {
        brace_end(s, i + 1, depth - 1)
    } else {
        brace_end(s, i + 1, depth)
    }
}

proof fn lemma_brace_end(s: Seq<char>, i: int, depth: int)
    requires
        0 <= i <= s.len(),
    ensures
        i <= brace_end(s, i, depth) <= s.len(),
    decreases s.len() - i,
{
    if i < s.len() && depth > 0 {
        if s[i] == '{' {
            lemma_brace_end(s, i + 1, depth + 1);
        } else if s[i] == '}' {
            lemma_brace_end(s, i + 1, depth - 1);
        } else {
            lemma_brace_end(s, i + 1, depth);
        }
    }
}

/// The change records of the objects from `i` up to the closing `]`; an
/// object that does not read as a change is left out.
pub open spec fn changes_from(s: Seq<char>, i: int) -> Seq<ChangeView>
    decreases s.len() - i,
{
    if i < 0 || i >= s.len() {
        Seq::empty()
    } else if s[i] == '{' {
        let e = brace_end(s, i + 1, 1);
        let rest = if e <= i || e > s.len() { Seq::empty() } else { changes_from(s, e) };
        match change_of(s.subrange(i, e)) {
            Some(c) => seq![c] + rest,
            None => rest,
        }
    } else if s[i] == ']' {
        Seq::empty()
    } else {
        changes_from(s, i + 1)
    }
}

/// The changes of a record line: those in its `"changes":[...]` array.
pub open spec fn changes_of(json: Seq<char>) -> Seq<ChangeView> {
    let key = "\"changes\":["@;
    match find_sub_from(json, key, 0) {
        None => Seq::empty(),
        Some(p) => changes_from(json, p + key.len()),
    }
}

/// A record read from one history line; the round is 1 when absent.
pub open spec fn entry_of(json: Seq<char>) -> Option<EntryView> {
    match (
        string_field(json, "timestamp"@),
        string_field(json, "file"@),
        number_field(json, "applied"@),
        number_field(json, "skipped"@),
    ) {
        (Some(timestamp), Some(file), Some(applied), Some(skipped)) => Some(
            EntryView {
                timestamp,
                file,
                applied,
                skipped,
                changes: changes_of(json),
                round: match number_field(json, "round"@) {
                    Some(r) => r,
                    None => 1,
                },
            },
        ),
        _ => None,
    }
}

/// Reads one change object.
fn parse_change(obj: &[char]) -> (r: Option<HistoryChange>)
    ensures
        match change_of(obj@) {
            Some(v) => r matches Some(c) && c@ == v,
            None => r is None,
        },
{
    let line = match extract_json_number(obj, "line") {
        Some(v) => v,
        None => return None,
    };
    let col = match extract_json_number(obj, "col") {
        Some(v) => v,
        None => return None,
    };
    let action = match extract_json_string(obj, "action") {
        Some(v) => v,
        None => return None,
    };
    let description = match extract_json_string(obj, "description") {
        Some(v) => v,
        None => return None,
    };
    let code = match extract_json_string(obj, "code") {
        Some(v) => v,
        None => return None,
    };
    Some(
        HistoryChange {
            line,
            col,
            action: string_of(&action),
            description: string_of(&description),
            diagnostic_code: string_of(&code),
        },
    )
}

/// Reads the `"changes":[...]` array of a record line.
fn parse_changes_array(json: &[char]) -> (r: Vec<HistoryChange>)
    ensures
        change_views(r@) == changes_of(json@),
{
    let key = chars_of("\"changes\":[");
    let found = find_sub(json, &key, 0);
    proof {
        lemma_find_in_bounds(json@, key@, 0);
    }
    if found.is_none() {
        let none: Vec<HistoryChange> = Vec::new();
        assert(change_views(none@) =~= Seq::<ChangeView>::empty());
        return none;
    }
    let p = found.unwrap();
    assert(find_sub_from(json@, key@, 0) == Some(p as int));
    assert(json@.len() == json.len());
    let start = p + key.len();
    let mut changes: Vec<HistoryChange> = Vec::new();
    let mut i = start;
    while i < json.len()
        invariant
            start <= i <= json@.len(),
            changes_of(json@) == change_views(changes@) + changes_from(json@, i as int),
        ensures
            changes_of(json@) == change_views(changes@),
        decreases json@.len() - i,
    {
        if json[i] == '{' {
            let obj_start = i;
            let mut depth: usize = 1;
            i += 1;
            while i < json.len() && depth > 0
                invariant
                    obj_start < i <= json@.len(),
                    brace_end(json@, i as int, depth as int) == brace_end(json@, obj_start + 1, 1),
                    depth <= i - obj_start,
                decreases json@.len() - i,
            {
                if json[i] == '{' {
                    depth += 1;
                } else if json[i] == '}' {
                    depth -= 1;
                }
                i += 1;
            }
            let obj = slice_chars(json, obj_start, i);
            let ghost prev = changes@;
            let ghost rest = changes_from(json@, i as int);
            match parse_change(&obj) {
                Some(c) => {
                    changes.push(c);
                    proof {
                        assert(change_views(changes@) == change_views(prev) + seq![c@]);
                        assert(change_views(prev) + (seq![c@] + rest) == change_views(changes@) + rest);
                    }
                },
                None => {},
            }
        } else if json[i] == ']' {
            assert(change_views(changes@) + Seq::<ChangeView>::empty() == change_views(changes@));
            break;
        } else {
            i += 1;
        }
    }
    changes
}

/// Reads one history line; `None` when it lacks the timestamp, the file or
/// either count.
pub fn parse_entry(json: &str) -> (r: Option<FixHistoryEntry>)
    ensures
        match entry_of(json@) {
            Some(v) => r matches Some(e) && e@ == v,
            None => r is None,
        },
{
    let cs = chars_of(json);
    let timestamp = match extract_json_string(&cs, "timestamp") {
        Some(v) => v,
        None => return None,
    };
    let file = match extract_json_string(&cs, "file") {
        Some(v) => v,
        None => return None,
    };
    let applied = match extract_json_number(&cs, "applied") {
        Some(v) => v,
        None => return None,
    };
    let skipped = match extract_json_number(&cs, "skipped") {
        Some(v) => v,
        None => return None,
    };
    let round = match extract_json_number(&cs, "round") {
        Some(v) => v,
        None => 1,
    };
    let changes = parse_changes_array(&cs);
    Some(
        FixHistoryEntry {
            timestamp: string_of(&timestamp),
            file: string_of(&file),
            applied,
            skipped,
            changes,
            round,
        },
    )
}


pub open spec fn entry_views(es: Seq<FixHistoryEntry>) -> Seq<EntryView> {
    es.map_values(|e: FixHistoryEntry| e@)
}

/// The records of the lines from `k` on: a blank line, or one that does not
/// read as a record, is left out.
pub open spec fn records_from(ls: Seq<Seq<char>>, k: int) -> Seq<EntryView>
    decreases ls.len() - k,
{
    if k < 0 || k >= ls.len() {
        Seq::empty()
    } else {
        let rest = records_from(ls, k + 1);
        if crate::text::trim(ls[k]).len() == 0 {
            rest
        } else {
            match entry_of(ls[k]) {
                Some(e) => seq![e] + rest,
                None => rest,
            }
        }
    }
}

/// The records of a history file's text, one per line.
pub fn parse_history(content: &str) -> (r: Vec<FixHistoryEntry>)
    ensures
        entry_views(r@) == records_from(crate::text::lines(content@), 0),
{
    let cs = chars_of(content);
    let ls = crate::text::lines_of(&cs);
    let ghost lv = crate::text::lines(content@);
    let mut out: Vec<FixHistoryEntry> = Vec::new();
    let mut k: usize = 0;
    while k < ls.len()
        invariant
            k <= ls@.len(),
            ls@.len() == lv.len(),
            lv == crate::text::lines(content@),
            forall|m: int| 0 <= m < ls@.len() ==> #[trigger] ls@[m]@ == lv[m],
            records_from(lv, 0) == entry_views(out@) + records_from(lv, k as int),
        decreases ls@.len() - k,
    {
        assert(ls@[k as int]@ == lv[k as int]);
        let ghost before = out@;
        if !crate::text::is_blank(&ls[k]) {
            let line = string_of(&ls[k]);
            match parse_entry(line.as_str()) {
                Some(e) => {
                    out.push(e);
                    proof {
                        assert(entry_views(out@) =~= entry_views(before).push(e@));
                        assert(entry_views(before) + (seq![e@] + records_from(lv, k + 1)) =~= entry_views(out@)
                            + records_from(lv, k + 1));
                    }
                },
                None => {},
            }
        }
        k += 1;
    }
    assert(entry_views(out@) + Seq::<EntryView>::empty() =~= entry_views(out@));
    out
}

} // verus!

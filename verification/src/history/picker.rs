//! The timeline picker's read model: rows that answer when (a relative
//! label, with a clock time where siblings share one), which (the commit
//! subject or a description of the edit) and how much (lines added and
//! removed versus the current text), and the small pure helpers behind them.

use vstd::prelude::*;
use crate::facets::FacetItem;
use crate::text::{decimal, push_decimal, push_zero_padded, str_to_chars, zero_padded};

verus! {

/// Millis in a day.
pub const DAY_MS: u64 = 86_400_000;

/// Whether two millis stamps fall on the same UTC day.
pub fn same_utc_day(a: u64, b: u64) -> (r: bool)
    ensures
        r == (a / DAY_MS == b / DAY_MS),
{
    a / DAY_MS == b / DAY_MS
}

/// The current session's start, millis since the epoch: unset until the live
/// app marks it once at launch.
pub struct SessionEpoch {
    pub ms: Option<u64>,
}

impl SessionEpoch {
    /// Not yet marked.
    pub fn new() -> (e: Self)
        ensures
            e.ms is None,
    {
        SessionEpoch { ms: None }
    }
}

/// Mark the clock's current instant as the session's start. Only the first
/// call takes effect; later calls leave the mark as it is.
pub fn mark_session_start(epoch: &mut SessionEpoch)
    ensures
        old(epoch).ms is Some ==> final(epoch).ms == old(epoch).ms,
        final(epoch).ms is Some,
{
    if epoch.ms.is_none() {
        epoch.ms = Some(crate::history::store::now_millis());
    }
}

/// The session's start, or `None` when it was never marked.
pub fn session_epoch_ms(epoch: &SessionEpoch) -> (r: Option<u64>)
    ensures
        r == epoch.ms,
{
    epoch.ms
}

/// The history picker's lens buckets, by strip index: 1 (Session) keeps rows
/// stamped at or after the session's start, 2 (Today) rows on the reference
/// day; a row without a stamp, or a lens without its reference clock, groups
/// nothing.
pub open spec fn history_bucket_of(item: FacetItem, lens_idx: usize) -> Option<Seq<char>> {
    match item.ts {
        None => None,
        Some(ts) => if lens_idx == 1 {
            match item.session_start {
                Some(s) => if ts >= s {
                    Some("Session"@)
                } else {
                    None
                },
                None => None,
            }
        } else if lens_idx == 2 {
            match item.now {
                Some(n) => if ts / DAY_MS == n / DAY_MS {
                    Some("Today"@)
                } else {
                    None
                },
                None => None,
            }
        } else {
            None
        },
    }
}

/// The history picker's bucket for `item` under lens `lens_idx`
/// ([`history_bucket_of`]).
pub fn history_bucket(item: FacetItem, lens_idx: usize) -> (r: Option<&'static str>)
    ensures
        match history_bucket_of(item, lens_idx) {
            Some(l) => r matches Some(s) && s@ == l,
            None => r is None,
        },
{
    let ts = match item.ts {
        Some(t) => t,
        None => return None,
    };
    if lens_idx == 1 {
        match item.session_start {
            Some(s) => if ts >= s {
                Some("Session")
            } else {
                None
            },
            None => None,
        }
    } else if lens_idx == 2 {
        match item.now {
            Some(n) => if same_utc_day(ts, n) {
                Some("Today")
            } else {
                None
            },
            None => None,
        }
    } else {
        None
    }
}

/// `"HH:MM"`, zero-padded, of the UTC time of `ts_ms`.
pub open spec fn clock_hm_of(ts_ms: u64) -> Seq<char> {
    let mins = (ts_ms / 60_000) % 1440;
    zero_padded((mins / 60) as nat, 2) + seq![':'] + zero_padded((mins % 60) as nat, 2)
}

/// The UTC clock time of `ts_ms` ([`clock_hm_of`]).
pub fn clock_hm(ts_ms: u64) -> (r: String)
    ensures
        r@ == clock_hm_of(ts_ms),
{
    let mins: u64 = (ts_ms / 60_000) % 1440;
    let mut s = String::new();
    push_zero_padded(&mut s, mins / 60, 2);
    s.push(':');
    push_zero_padded(&mut s, mins % 60, 2);
    proof {
        assert(s@ =~= clock_hm_of(ts_ms));
    }
    s
}


// --- Civil dates and relative labels ---------------------------------------------------

/// A Gregorian leap year.
pub open spec fn is_leap(y: int) -> bool {
    y % 4 == 0 && (y % 100 != 0 || y % 400 == 0)
}

/// Days in year `y`.
pub open spec fn year_len(y: int) -> nat {
    if is_leap(y) {
        366
    } else {
        365
    }
}

/// Days in month `m` (1..=12) of year `y`.
pub open spec fn month_len(y: int, m: int) -> nat {
    if m == 2 {
        if is_leap(y) {
            29
        } else {
            28
        }
    } else if m == 4 || m == 6 || m == 9 || m == 11 {
        30
    } else {
        31
    }
}

/// The year and day-of-year `rem` days after the first day of year `y`.
pub open spec fn year_day(y: int, rem: nat) -> (int, nat)
    decreases rem,
{
    if rem < year_len(y) {
        (y, rem)
    } else {
        year_day(y + 1, (rem - year_len(y)) as nat)
    }
}

/// The month and day of the month of day-of-year `doy`, counting months
/// from `m`.
pub open spec fn month_day(y: int, m: int, doy: nat) -> (int, nat)
    decreases 12 - m,
{
    if m >= 12 || doy < month_len(y, m) {
        (m, doy + 1)
    } else {
        month_day(y, m + 1, (doy - month_len(y, m)) as nat)
    }
}

/// The UTC calendar date `days` days after 1970-01-01, as (year, month,
/// day). The calendar repeats every 400 years (146097 days), so the count of
/// whole 400-year eras is taken first.
pub open spec fn civil_ymd(days: nat) -> (int, int, nat) {
    let (y, doy) = year_day((1970 + 400 * (days / 146097)) as int, days % 146097);
    let (m, d) = month_day(y, 1, doy);
    (y, m, d)
}

/// `YYYY-MM-DD` for `secs` seconds since the epoch, UTC.
pub open spec fn civil_date_of(secs: u64) -> Seq<char> {
    let (y, m, d) = civil_ymd((secs / 86_400) as nat);
    zero_padded(y as nat, 4) + seq!['-'] + zero_padded(m as nat, 2) + seq!['-'] + zero_padded(d, 2)
}

/// The UTC date of `secs` seconds since the epoch ([`civil_date_of`]).
pub fn civil_date(secs: u64) -> (r: String)
    ensures
        r@ == civil_date_of(secs),
{
    let days: u64 = secs / 86_400;
    let mut y: u64 = 1970 + 400 * (days / 146097);
    let mut rem: u64 = days % 146097;
    let ghost y0: int = y as int;
    let ghost r0: nat = rem as nat;
    while rem >= year_days(y)
        invariant
            year_day(y0, r0) == year_day(y as int, rem as nat),
            y0 <= y,
            y - y0 + rem <= r0,
            rem <= r0,
            r0 < 146097,
            y0 <= 1970 + 400 * 0x10000_0000_0000,
        decreases rem,
    {
        let l: u64 = year_days(y);
        rem = rem - l;
        y = y + 1;
    }
    let leap: bool = y % 4 == 0 && (y % 100 != 0 || y % 400 == 0);
    let mut m: u64 = 1;
    let mut doy: u64 = rem;
    while m < 12 && doy >= month_days(leap, m)
        invariant
            1 <= m <= 12,
            leap == is_leap(y as int),
            month_day(y as int, 1, rem as nat) == month_day(y as int, m as int, doy as nat),
            doy <= rem,
        decreases 12 - m,
    {
        doy = doy - month_days(leap, m);
        m = m + 1;
    }
    let mut s = String::new();
    push_zero_padded(&mut s, y, 4);
    s.push('-');
    push_zero_padded(&mut s, m, 2);
    s.push('-');
    push_zero_padded(&mut s, doy + 1, 2);
    proof {
        assert(s@ =~= civil_date_of(secs));
    }
    s
}

fn year_days(y: u64) -> (r: u64)
    ensures
        r == year_len(y as int),
{
    if y % 4 == 0 && (y % 100 != 0 || y % 400 == 0) {
        366
    } else {
        365
    }
}

fn month_days(leap: bool, m: u64) -> (r: u64)
    ensures
        forall|y: int| is_leap(y) == leap ==> r == month_len(y, m as int),
{
    if m == 2 {
        if leap { 29 } else { 28 }
    } else if m == 4 || m == 6 || m == 9 || m == 11 {
        30
    } else {
        31
    }
}

/// The calm relative label of a snapshot stamped `ts_ms`, read at `now_ms`:
/// "just now" under a minute (a future stamp too), "N min ago", "N hr ago",
/// "yesterday" under two days, "N days ago" under a week, else its date.
pub open spec fn relative_label_of(now_ms: u64, ts_ms: u64) -> Seq<char> {
    let secs = (if now_ms >= ts_ms {
        now_ms - ts_ms
    } else {
        0
    }) / 1000;
    if secs < 60 {
        "just now"@
    } else if secs < 3600 {
        decimal((secs / 60) as nat) + " min ago"@
    } else if secs < 86400 {
        decimal((secs / 3600) as nat) + " hr ago"@
    } else if secs < 172800 {
        "yesterday"@
    } else if secs < 604800 {
        decimal((secs / 86400) as nat) + " days ago"@
    } else {
        civil_date_of(ts_ms / 1000)
    }
}

/// The relative label of `ts_ms` read at `now_ms` ([`relative_label_of`]).
pub fn relative_label(now_ms: u64, ts_ms: u64) -> (r: String)
    ensures
        r@ == relative_label_of(now_ms, ts_ms),
{
    let secs: u64 = (if now_ms >= ts_ms { now_ms - ts_ms } else { 0 }) / 1000;
    let mut s = String::new();
    if secs < 60 {
        crate::text::append_str(&mut s, "just now");
    } else if secs < 3600 {
        push_decimal(&mut s, secs / 60);
        crate::text::append_str(&mut s, " min ago");
    } else if secs < 86400 {
        push_decimal(&mut s, secs / 3600);
        crate::text::append_str(&mut s, " hr ago");
    } else if secs < 172800 {
        crate::text::append_str(&mut s, "yesterday");
    } else if secs < 604800 {
        push_decimal(&mut s, secs / 86400);
        crate::text::append_str(&mut s, " days ago");
    } else {
        return civil_date(ts_ms / 1000);
    }
    proof {
        assert(s@ =~= relative_label_of(now_ms, ts_ms));
    }
    s
}


// --- Line comparisons ----------------------------------------------------------------

fn range_text_eq(v: &Vec<char>, r: (usize, usize), w: &Vec<char>, q: (usize, usize)) -> (b: bool)
    requires
        r.0 <= r.1 <= v@.len(),
        q.0 <= q.1 <= w@.len(),
    ensures
        b == (v@.subrange(r.0 as int, r.1 as int) == w@.subrange(q.0 as int, q.1 as int)),
{
    if r.1 - r.0 != q.1 - q.0 {
        proof {
            assert(v@.subrange(r.0 as int, r.1 as int).len() != w@.subrange(q.0 as int, q.1 as int).len());
        }
        return false;
    }
    let mut k: usize = 0;
    while k < r.1 - r.0
        invariant
            r.0 <= r.1 <= v@.len(),
            q.0 <= q.1 <= w@.len(),
            r.1 - r.0 == q.1 - q.0,
            0 <= k <= r.1 - r.0,
            v@.subrange(r.0 as int, r.0 + k) == w@.subrange(q.0 as int, q.0 + k),
        decreases r.1 - r.0 - k,
    {
        if v[r.0 + k] != w[q.0 + k] {
            proof {
                assert(v@.subrange(r.0 as int, r.1 as int)[k as int] != w@.subrange(q.0 as int, q.1 as int)[k as int]);
            }
            return false;
        }
        proof {
            assert(v@.subrange(r.0 as int, r.0 + k + 1) =~= v@.subrange(r.0 as int, r.0 + k).push(v@[r.0 + k]));
            assert(w@.subrange(q.0 as int, q.0 + k + 1) =~= w@.subrange(q.0 as int, q.0 + k).push(w@[q.0 + k]));
        }
        k += 1;
    }
    true
}

/// The first index at or after `i` where `a` and `b` differ, among their
/// common indices (`min` of the lengths when none does).
pub open spec fn first_diff_from(a: Seq<Seq<char>>, b: Seq<Seq<char>>, i: int) -> int
    decreases a.len() - i,
{
    if i >= a.len() || i >= b.len() {
        if a.len() < b.len() {
            a.len() as int
        } else {
            b.len() as int
        }
    } else if a[i] != b[i] {
        i
    } else {
        first_diff_from(a, b, i + 1)
    }
}

/// The first line where `old` and `new` differ, clamped into `new`'s lines:
/// the first differing paired line, else where the shorter runs out, at most
/// `new`'s last line (0 for an empty `new`).
pub open spec fn first_changed_line_of(old: Seq<char>, new: Seq<char>) -> nat {
    let a = crate::text::lines_of(old);
    let b = crate::text::lines_of(new);
    let f = first_diff_from(a, b, 0);
    let common = if a.len() < b.len() {
        a.len() as int
    } else {
        b.len() as int
    };
    if f < common {
        f as nat
    } else {
        let last = if b.len() > 0 {
            b.len() - 1
        } else {
            0
        };
        (if common < last {
            common
        } else {
            last
        }) as nat
    }
}

/// The 0-based index of the first line where `old` and `new` differ
/// ([`first_changed_line_of`]).
pub fn first_changed_line(old: &str, new: &str) -> (r: usize)
    ensures
        r == first_changed_line_of(old@, new@),
{
    let va = str_to_chars(old);
    let vb = str_to_chars(new);
    let la = crate::text::line_ranges(&va);
    let lb = crate::text::line_ranges(&vb);
    let ghost a = crate::text::lines_of(va@);
    let ghost b = crate::text::lines_of(vb@);
    let common: usize = if la.len() < lb.len() { la.len() } else { lb.len() };
    let mut i: usize = 0;
    while i < common
        invariant
            0 <= i <= common,
            va@ == old@,
            vb@ == new@,
            a == crate::text::lines_of(va@),
            b == crate::text::lines_of(vb@),
            common == (if a.len() < b.len() { a.len() } else { b.len() }),
            la@.len() == a.len(),
            lb@.len() == b.len(),
            crate::text::ranges_spell(va@, la@, a),
            crate::text::ranges_spell(vb@, lb@, b),
            first_diff_from(a, b, 0) == first_diff_from(a, b, i as int),
        decreases common - i,
    {
        proof {
            assert(crate::text::range_spells(va@, la@[i as int], a[i as int]));
            assert(crate::text::range_spells(vb@, lb@[i as int], b[i as int]));
        }
        if !range_text_eq(&va, la[i], &vb, lb[i]) {
            return i;
        }
        i += 1;
    }
    let last: usize = if lb.len() > 0 { lb.len() - 1 } else { 0 };
    if common < last { common } else { last }
}

/// The pieces of `s` between `\n` characters (`str::split('\n')`): one more
/// than there are newlines, a trailing newline giving a final empty piece.
pub open spec fn split_newlines(s: Seq<char>) -> Seq<Seq<char>>
    decreases s.len(),
{
    let k = crate::text::first_index_of(s, '\n', 0);
    if k >= s.len() {
        seq![s]
    } else {
        proof {
            crate::text::lemma_first_index_of(s, '\n', 0);
        }
        seq![s.take(k)] + split_newlines(s.skip(k + 1))
    }
}

/// A cursor clamped into `text`: the line to its last `\n`-separated line,
/// the column to that line's character count.
pub open spec fn clamp_line_col_of(text: Seq<char>, line: usize, col: usize) -> (usize, usize) {
    let pieces = split_newlines(text);
    let l = if line < pieces.len() - 1 {
        line as int
    } else {
        pieces.len() - 1
    };
    let c = if col < pieces[l].len() {
        col as int
    } else {
        pieces[l].len() as int
    };
    (l as usize, c as usize)
}

proof fn lemma_split_newlines_nonempty(s: Seq<char>)
    ensures
        split_newlines(s).len() >= 1,
    decreases s.len(),
{
    let k = crate::text::first_index_of(s, '\n', 0);
    crate::text::lemma_first_index_of(s, '\n', 0);
    if k < s.len() {
        lemma_split_newlines_nonempty(s.skip(k + 1));
    }
}

/// Clamp a `(line, col)` cursor into `text` ([`clamp_line_col_of`]).
pub fn clamp_line_col(text: &str, line: usize, col: usize) -> (r: (usize, usize))
    ensures
        r == clamp_line_col_of(text@, line, col),
{
    let v = str_to_chars(text);
    let mut start: usize = 0;
    let mut idx: usize = 0;
    let ghost mut rest = v@;
    let ghost mut pieces_left = split_newlines(v@);
    proof {
        lemma_split_newlines_nonempty(v@);
        assert(v@.skip(0) =~= v@);
    }
    loop
        invariant
            0 <= start <= v@.len(),
            rest == v@.skip(start as int),
            split_newlines(v@) == split_newlines(v@).take(idx as int) + split_newlines(rest),
            idx < split_newlines(v@).len(),
            idx <= start,
            idx <= line,
        ensures
            idx == line || idx == split_newlines(v@).len() - 1,
            idx <= line,
            0 <= start <= v@.len(),
            split_newlines(v@)[idx as int] == split_newlines(v@.skip(start as int))[0],
        decreases v@.len() - start,
    {
        let k: usize = crate::text::find_in_range(&v, '\n', start, v.len());
        proof {
            assert(v@.subrange(start as int, v@.len() as int) =~= rest);
            crate::text::lemma_first_index_of(rest, '\n', 0);
            lemma_split_newlines_nonempty(rest);
        }
        if idx == line || k == v.len() {
            proof {
                assert(split_newlines(v@)[idx as int] == split_newlines(rest)[0]);
                if k == v.len() {
                    assert(split_newlines(rest) =~= seq![rest]);
                }
            }
            break;
        }
        proof {
            let nr = rest.skip(k - start + 1);
            assert(nr =~= v@.skip(k + 1));
            lemma_split_newlines_nonempty(nr);
            assert(split_newlines(rest) == seq![rest.take(k - start)] + split_newlines(nr));
            assert(split_newlines(v@).take(idx + 1) =~= split_newlines(v@).take(idx as int).push(rest.take(k - start)));
            rest = nr;
        }
        idx = idx + 1;
        start = k + 1;
    }
    let e: usize = crate::text::find_in_range(&v, '\n', start, v.len());
    let n: usize = e - start;
    proof {
        let r = v@.skip(start as int);
        assert(v@.subrange(start as int, v@.len() as int) =~= r);
        crate::text::lemma_first_index_of(r, '\n', 0);
        if e - start < r.len() {
            assert(split_newlines(r)[0] == r.take(e - start));
        } else {
            assert(split_newlines(r)[0] == r);
        }
    }
    let c: usize = if col < n { col } else { n };
    (idx, c)
}


// --- Changed-line counts -----------------------------------------------------------------

/// The length of the longest common subsequence of `a[i..]` and `b[j..]`.
pub open spec fn lcs_from(a: Seq<Seq<char>>, b: Seq<Seq<char>>, i: int, j: int) -> nat
    decreases a.len() - i + b.len() - j,
{
    if i < 0 || j < 0 || i >= a.len() || j >= b.len() {
        0
    } else if a[i] == b[j] {
        1 + lcs_from(a, b, i + 1, j + 1)
    } else {
        let x = lcs_from(a, b, i + 1, j);
        let y = lcs_from(a, b, i, j + 1);
        if x >= y {
            x
        } else {
            y
        }
    }
}

proof fn lemma_lcs_bound(a: Seq<Seq<char>>, b: Seq<Seq<char>>, i: int, j: int)
    requires
        0 <= i <= a.len(),
        0 <= j <= b.len(),
    ensures
        lcs_from(a, b, i, j) <= b.len() - j,
        lcs_from(a, b, i, j) <= a.len() - i,
    decreases a.len() - i + b.len() - j,
{
    if i < a.len() && j < b.len() {
        if a[i] == b[j] {
            lemma_lcs_bound(a, b, i + 1, j + 1);
        } else {
            lemma_lcs_bound(a, b, i + 1, j);
            lemma_lcs_bound(a, b, i, j + 1);
        }
    }
}

/// How often `v` occurs in `s[0..hi]`.
pub open spec fn count_in(s: Seq<Seq<char>>, v: Seq<char>, hi: int) -> nat
    decreases hi,
{
    if hi <= 0 || s.len() == 0 {
        0
    } else {
        count_in(s, v, hi - 1) + (if hi - 1 < s.len() && s[hi - 1] == v {
            1nat
        } else {
            0nat
        })
    }
}

/// How many of the first `k` lines of `a` are occurrences beyond the number
/// of times that line appears in `b`.
pub open spec fn surplus_upto(a: Seq<Seq<char>>, b: Seq<Seq<char>>, k: int) -> nat
    decreases k,
{
    if k <= 0 {
        0
    } else {
        surplus_upto(a, b, k - 1) + (if count_in(a, a[k - 1], k) > count_in(b, a[k - 1], b.len() as int) {
            1nat
        } else {
            0nat
        })
    }
}

/// The lines of `a` beyond what `b` holds of each, counted with multiplicity.
pub open spec fn surplus(a: Seq<Seq<char>>, b: Seq<Seq<char>>) -> nat {
    surplus_upto(a, b, a.len() as int)
}

/// The largest line grid the exact count is computed for.
pub const LCS_CELL_LIMIT: u64 = 1_000_000;

/// The lines restoring `new` adds and removes against `old`: from the
/// longest common subsequence of their lines, or, when the line grid exceeds
/// [`LCS_CELL_LIMIT`] cells, from the lines each holds beyond the other.
pub open spec fn line_diff_counts_of(old: Seq<char>, new: Seq<char>) -> (nat, nat) {
    let a = crate::text::lines_of(old);
    let b = crate::text::lines_of(new);
    if (a.len() + 1) * (b.len() + 1) > LCS_CELL_LIMIT {
        (surplus(b, a), surplus(a, b))
    } else {
        let l = lcs_from(a, b, 0, 0);
        ((b.len() - l) as nat, (a.len() - l) as nat)
    }
}

proof fn lemma_lcs_self(a: Seq<Seq<char>>, i: int)
    requires
        0 <= i <= a.len(),
    ensures
        lcs_from(a, a, i, i) == a.len() - i,
    decreases a.len() - i,
{
    if i < a.len() {
        lemma_lcs_self(a, i + 1);
    }
}

proof fn lemma_count_in_mono(s: Seq<Seq<char>>, v: Seq<char>, h1: int, h2: int)
    requires
        0 <= h1 <= h2,
    ensures
        count_in(s, v, h1) <= count_in(s, v, h2),
    decreases h2 - h1,
{
    if h1 < h2 {
        lemma_count_in_mono(s, v, h1, h2 - 1);
    }
}

proof fn lemma_surplus_self(a: Seq<Seq<char>>, k: int)
    requires
        0 <= k <= a.len(),
    ensures
        surplus_upto(a, a, k) == 0,
    decreases k,
{
    if k > 0 {
        lemma_surplus_self(a, k - 1);
        lemma_count_in_mono(a, a[k - 1], k, a.len() as int);
    }
}

/// A Gregorian leap year, by the calendar's rule: divisible by 400, or by 4
/// and not by 100.
pub open spec fn gregorian_leap(y: int) -> bool {
    y % 400 == 0 || (y % 4 == 0 && y % 100 != 0)
}

/// The days of month `m` (1..=12) of year `y`: thirty for September, April,
/// June and November, February 29 in a leap year and 28 otherwise, 31 for
/// the rest.
pub open spec fn gregorian_month_days(y: int, m: int) -> int {
    if m == 9 || m == 4 || m == 6 || m == 11 {
        30
    } else if m == 2 {
        if gregorian_leap(y) {
            29
        } else {
            28
        }
    } else {
        31
    }
}

/// The days from 1970-01-01 to the first day of year `y` (from 1970 on).
pub open spec fn days_before_year(y: int) -> int
    decreases y - 1970,
{
    if y <= 1970 {
        0
    } else {
        days_before_year(y - 1) + (if gregorian_leap(y - 1) {
            366int
        } else {
            365int
        })
    }
}

/// The days of year `y` before the first day of month `m`.
pub open spec fn days_before_month(y: int, m: int) -> int
    decreases m,
{
    if m <= 1 {
        0
    } else {
        days_before_month(y, m - 1) + gregorian_month_days(y, m - 1)
    }
}

/// The days from 1970-01-01 to the date `y`-`m`-`d`.
pub open spec fn day_number(y: int, m: int, d: int) -> int {
    days_before_year(y) + days_before_month(y, m) + d - 1
}

proof fn lemma_year_fits(y: int)
    ensures
        days_before_month(y, 13) == year_len(y),
        forall|m: int| 1 <= m <= 12 ==> #[trigger] month_len(y, m) == gregorian_month_days(y, m),
        is_leap(y) == gregorian_leap(y),
{
    reveal_with_fuel(days_before_month, 13);
}

proof fn lemma_month_day_counts(y: int, m0: int, x: nat)
    requires
        1 <= m0 <= 12,
        x < days_before_month(y, 13) - days_before_month(y, m0),
    ensures
        ({
            let (m, d) = month_day(y, m0, x);
            &&& m0 <= m <= 12
            &&& 1 <= d <= gregorian_month_days(y, m)
            &&& days_before_month(y, m) - days_before_month(y, m0) + d - 1 == x
        }),
    decreases 12 - m0,
{
    lemma_year_fits(y);
    assert(month_len(y, m0) == gregorian_month_days(y, m0));
    if m0 == 12 {
        assert(days_before_month(y, 13) == days_before_month(y, 12) + gregorian_month_days(y, 12));
    } else if x >= month_len(y, m0) {
        assert(days_before_month(y, m0 + 1) == days_before_month(y, m0) + gregorian_month_days(y, m0));
        lemma_month_day_counts(y, m0 + 1, (x - month_len(y, m0)) as nat);
    }
}

proof fn lemma_year_day_counts(y0: int, r: nat)
    requires
        y0 >= 1970,
    ensures
        ({
            let (y, doy) = year_day(y0, r);
            &&& y >= y0
            &&& doy < year_len(y)
            &&& days_before_year(y) - days_before_year(y0) + doy == r
        }),
    decreases r,
{
    lemma_year_fits(y0);
    if r >= year_len(y0) {
        assert(days_before_year(y0 + 1) == days_before_year(y0) + year_len(y0));
        lemma_year_day_counts(y0 + 1, (r - year_len(y0)) as nat);
    }
}

/// The leap years among 1..=x, by the Gregorian rule's divisors.
spec fn leap_count(x: int) -> int {
    x / 4 - x / 100 + x / 400
}

proof fn lemma_div_step(x: int, d: int)
    requires
        x >= 1,
        d > 0,
    ensures
        x / d - (x - 1) / d == (if x % d == 0 {
            1int
        } else {
            0int
        }),
{
    vstd::arithmetic::div_mod::lemma_fundamental_div_mod(x, d);
    vstd::arithmetic::div_mod::lemma_fundamental_div_mod(x - 1, d);
    vstd::arithmetic::div_mod::lemma_mod_bound(x, d);
    vstd::arithmetic::div_mod::lemma_mod_bound(x - 1, d);
    if x % d == 0 {
        assert(x / d - (x - 1) / d == 1) by (nonlinear_arith)
            requires
                x == d * (x / d) + x % d,
                x - 1 == d * ((x - 1) / d) + (x - 1) % d,
                0 <= (x - 1) % d < d,
                x % d == 0,
                d > 0,
        ;
    } else {
        assert(x / d - (x - 1) / d == 0) by (nonlinear_arith)
            requires
                x == d * (x / d) + x % d,
                x - 1 == d * ((x - 1) / d) + (x - 1) % d,
                0 <= (x - 1) % d < d,
                0 < x % d < d,
                d > 0,
        ;
    }
}

proof fn lemma_days_before_year_closed(y: int)
    requires
        y >= 1970,
    ensures
        days_before_year(y) == 365 * (y - 1970) + leap_count(y - 1) - leap_count(1969),
    decreases y - 1970,
{
    if y > 1970 {
        lemma_days_before_year_closed(y - 1);
        lemma_div_step(y - 1, 4);
        lemma_div_step(y - 1, 100);
        lemma_div_step(y - 1, 400);
        let x = y - 1;
        assert(gregorian_leap(x) <==> (x % 400 == 0 || (x % 4 == 0 && x % 100 != 0)));
        if x % 400 == 0 {
            assert(x % 4 == 0 && x % 100 == 0) by {
                vstd::arithmetic::div_mod::lemma_fundamental_div_mod(x, 400);
                assert(x == 400 * (x / 400));
                assert(x == 4 * (100 * (x / 400)));
                assert(x == 100 * (4 * (x / 400)));
                vstd::arithmetic::div_mod::lemma_mod_multiples_basic(100 * (x / 400), 4);
                vstd::arithmetic::div_mod::lemma_mod_multiples_basic(4 * (x / 400), 100);
            }
        } else if x % 100 == 0 {
            assert(x % 4 == 0) by {
                vstd::arithmetic::div_mod::lemma_fundamental_div_mod(x, 100);
                assert(x == 4 * (25 * (x / 100)));
                vstd::arithmetic::div_mod::lemma_mod_multiples_basic(25 * (x / 100), 4);
            }
        }
    }
}

proof fn lemma_div_shift(x: int, d: int, k: int)
    requires
        d > 0,
    ensures
        (x + k * d) / d == x / d + k,
{
    vstd::arithmetic::div_mod::lemma_fundamental_div_mod(x, d);
    vstd::arithmetic::div_mod::lemma_mod_bound(x, d);
    assert(x + k * d == (x / d + k) * d + x % d) by (nonlinear_arith)
        requires
            x == d * (x / d) + x % d,
    ;
    vstd::arithmetic::div_mod::lemma_fundamental_div_mod_converse(x + k * d, d, x / d + k, x % d);
}

proof fn lemma_four_hundred_years(a: int)
    requires
        a >= 1970,
    ensures
        days_before_year(a + 400) - days_before_year(a) == 146097,
{
    lemma_days_before_year_closed(a);
    lemma_days_before_year_closed(a + 400);
    let x = a - 1;
    lemma_div_shift(x, 4, 100);
    lemma_div_shift(x, 100, 4);
    lemma_div_shift(x, 400, 1);
    assert(a + 400 - 1 == x + 100 * 4);
    assert(a + 400 - 1 == x + 4 * 100);
    assert(a + 400 - 1 == x + 1 * 400);
}

proof fn lemma_eras(k: nat)
    ensures
        days_before_year((1970 + 400 * k) as int) == 146097 * k,
    decreases k,
{
    if k > 0 {
        lemma_eras((k - 1) as nat);
        lemma_four_hundred_years((1970 + 400 * (k - 1)) as int);
        assert(1970 + 400 * (k - 1) + 400 == 1970 + 400 * k);
    }
}

/// LAW: the printed date is the calendar date: for every day count, the
/// date [`civil_ymd`] gives (and [`civil_date_of`] prints) is a real
/// Gregorian date, its day within its month's length, and counting the days
/// from 1970-01-01 to it gives the count back.
pub proof fn lemma_civil_date_counts_back(days: nat)
    ensures
        ({
            let (y, m, d) = civil_ymd(days);
            &&& 1970 <= y
            &&& 1 <= m <= 12
            &&& 1 <= d <= gregorian_month_days(y, m)
            &&& day_number(y, m, d as int) == days
        }),
{
    let k = days / 146097;
    let r = days % 146097;
    let y0: int = (1970 + 400 * k) as int;
    lemma_eras(k);
    lemma_year_day_counts(y0, r);
    let (y, doy) = year_day(y0, r);
    lemma_year_fits(y);
    lemma_month_day_counts(y, 1, doy);
    assert(days == 146097 * k + r);
}

/// Restoring a version identical to the current text adds and removes
/// nothing: its row counts `+0 −0`.
pub proof fn lemma_unchanged_text_counts_nothing(s: Seq<char>)
    ensures
        line_diff_counts_of(s, s) == (0nat, 0nat),
{
    let a = crate::text::lines_of(s);
    lemma_lcs_self(a, 0);
    lemma_surplus_self(a, a.len() as int);
}

/// `ia` and `ib` pick a common subsequence of the lines `a[i..]` and
/// `b[j..]`: as many positions in each, strictly increasing, within those
/// suffixes, with equal lines at each pair.
pub open spec fn common_from(
    a: Seq<Seq<char>>,
    b: Seq<Seq<char>>,
    i: int,
    j: int,
    ia: Seq<int>,
    ib: Seq<int>,
) -> bool {
    &&& ia.len() == ib.len()
    &&& forall|k: int|
        0 <= k < ia.len() ==> i <= #[trigger] ia[k] < a.len() && j <= ib[k] < b.len() && a[ia[k]] == b[ib[k]]
    &&& forall|k: int, l: int| #![trigger ia[k], ia[l]] 0 <= k < l < ia.len() ==> ia[k] < ia[l] && ib[k] < ib[l]
}

#[verifier::spinoff_prover]
#[verifier::rlimit(30)]
proof fn lemma_lcs_upper(a: Seq<Seq<char>>, b: Seq<Seq<char>>, i: int, j: int, ia: Seq<int>, ib: Seq<int>)
    requires
        0 <= i,
        0 <= j,
        common_from(a, b, i, j, ia, ib),
    ensures
        ia.len() <= lcs_from(a, b, i, j),
    decreases a.len() - i + b.len() - j,
{
    if ia.len() > 0 {
        assert(i <= ia[0] < a.len() && j <= ib[0] < b.len());
        assert forall|k: int| 0 <= k < ia.len() implies ia[0] <= #[trigger] ia[k] && ib[0] <= ib[k] by {
            if k > 0 {
                assert(0 <= 0int < k < ia.len());
                assert(ia[0int] < ia[k]);
                assert(ib[0int] < ib[k]);
            }
        }
        if a[i] == b[j] {
            let ta = ia.drop_first();
            let tb = ib.drop_first();
            assert forall|k: int| 0 <= k < ta.len() implies i + 1 <= #[trigger] ta[k] < a.len() && j + 1 <= tb[k]
                < b.len() && a[ta[k]] == b[tb[k]] by {
                assert(ta[k] == ia[k + 1] && tb[k] == ib[k + 1]);
                assert(ia[0] < ia[k + 1] && ib[0] < ib[k + 1]);
            }
            assert forall|k: int, l: int| #![trigger ta[k], ta[l]] 0 <= k < l < ta.len() implies ta[k] < ta[l] && tb[k]
                < tb[l] by {
                assert(ia[k + 1] < ia[l + 1] && ib[k + 1] < ib[l + 1]);
            }
            lemma_lcs_upper(a, b, i + 1, j + 1, ta, tb);
        } else if ia[0] > i {
            lemma_lcs_upper(a, b, i + 1, j, ia, ib);
        } else {
            assert(ib[0] != j);
            lemma_lcs_upper(a, b, i, j + 1, ia, ib);
        }
    }
}

#[verifier::spinoff_prover]
#[verifier::rlimit(30)]
proof fn lemma_lcs_witness(a: Seq<Seq<char>>, b: Seq<Seq<char>>, i: int, j: int) -> (w: (Seq<int>, Seq<int>))
    requires
        0 <= i,
        0 <= j,
    ensures
        common_from(a, b, i, j, w.0, w.1),
        w.0.len() == lcs_from(a, b, i, j),
    decreases a.len() - i + b.len() - j,
{
    if i >= a.len() || j >= b.len() {
        (Seq::empty(), Seq::empty())
    } else if a[i] == b[j] {
        let (wa, wb) = lemma_lcs_witness(a, b, i + 1, j + 1);
        let ra = seq![i] + wa;
        let rb = seq![j] + wb;
        assert forall|k: int| 0 <= k < ra.len() implies i <= #[trigger] ra[k] < a.len() && j <= rb[k] < b.len()
            && a[ra[k]] == b[rb[k]] by {
            if k > 0 {
                assert(ra[k] == wa[k - 1] && rb[k] == wb[k - 1]);
            }
        }
        assert forall|k: int, l: int| #![trigger ra[k], ra[l]] 0 <= k < l < ra.len() implies ra[k] < ra[l] && rb[k]
            < rb[l] by {
            assert(ra[l] == wa[l - 1] && rb[l] == wb[l - 1]);
            if k > 0 {
                assert(ra[k] == wa[k - 1] && rb[k] == wb[k - 1]);
            } else {
                assert(i + 1 <= wa[l - 1] && j + 1 <= wb[l - 1]);
            }
        }
        (ra, rb)
    } else if lcs_from(a, b, i + 1, j) >= lcs_from(a, b, i, j + 1) {
        lemma_lcs_witness(a, b, i + 1, j)
    } else {
        lemma_lcs_witness(a, b, i, j + 1)
    }
}

/// LAW: the count's [`lcs_from`]`(a, b, 0, 0)` is the length of a longest
/// common subsequence of the lines `a` and `b`: some common subsequence is
/// that long, and none is longer. So, within the grid limit, restoring
/// `new` over `old` adds `m - L` and removes `n - L` lines for the `n` and
/// `m` lines of the two texts and that length `L`.
pub proof fn lemma_lcs_is_longest(a: Seq<Seq<char>>, b: Seq<Seq<char>>)
    ensures
        exists|ia: Seq<int>, ib: Seq<int>| #[trigger] common_from(a, b, 0, 0, ia, ib) && ia.len() == lcs_from(a, b, 0, 0),
        forall|ia: Seq<int>, ib: Seq<int>| #[trigger] common_from(a, b, 0, 0, ia, ib) ==> ia.len() <= lcs_from(a, b, 0, 0),
{
    let w = lemma_lcs_witness(a, b, 0, 0);
    assert(common_from(a, b, 0, 0, w.0, w.1));
    assert forall|ia: Seq<int>, ib: Seq<int>| #[trigger] common_from(a, b, 0, 0, ia, ib) implies ia.len() <= lcs_from(a, b, 0, 0) by {
        lemma_lcs_upper(a, b, 0, 0, ia, ib);
    }
}

proof fn lemma_lcs_symmetric(a: Seq<Seq<char>>, b: Seq<Seq<char>>, i: int, j: int)
    ensures
        lcs_from(a, b, i, j) == lcs_from(b, a, j, i),
    decreases a.len() - i + b.len() - j,
{
    if 0 <= i < a.len() && 0 <= j < b.len() {
        if a[i] == b[j] {
            lemma_lcs_symmetric(a, b, i + 1, j + 1);
        } else {
            lemma_lcs_symmetric(a, b, i + 1, j);
            lemma_lcs_symmetric(a, b, i, j + 1);
        }
    }
}

/// Swapping the two texts swaps the counts: the lines restoring `new` over
/// `old` adds are the lines restoring `old` over `new` removes.
pub proof fn lemma_swapped_texts_swap_counts(old: Seq<char>, new: Seq<char>)
    ensures
        line_diff_counts_of(new, old) == (line_diff_counts_of(old, new).1, line_diff_counts_of(old, new).0),
{
    let a = crate::text::lines_of(old);
    let b = crate::text::lines_of(new);
    lemma_lcs_symmetric(a, b, 0, 0);
    vstd::arithmetic::mul::lemma_mul_is_commutative(a.len() + 1int, b.len() + 1int);
}

/// A stamp at or after the reading time (clock skew) reads "just now".
pub proof fn lemma_future_stamp_reads_just_now(now_ms: u64, ts_ms: u64)
    requires
        ts_ms >= now_ms,
    ensures
        relative_label_of(now_ms, ts_ms) == "just now"@,
{
}

fn count_line(
    v: &Vec<char>,
    rs: &Vec<(usize, usize)>,
    hi: usize,
    w: &Vec<char>,
    q: (usize, usize),
    Ghost(s): Ghost<Seq<Seq<char>>>,
) -> (c: usize)
    requires
        hi <= rs@.len(),
        rs@.len() == s.len(),
        crate::text::ranges_spell(v@, rs@, s),
        q.0 <= q.1 <= w@.len(),
    ensures
        c == count_in(s, w@.subrange(q.0 as int, q.1 as int), hi as int),
{
    let mut c: usize = 0;
    let mut k: usize = 0;
    while k < hi
        invariant
            0 <= k <= hi <= rs@.len(),
            rs@.len() == s.len(),
            crate::text::ranges_spell(v@, rs@, s),
            q.0 <= q.1 <= w@.len(),
            c == count_in(s, w@.subrange(q.0 as int, q.1 as int), k as int),
            c <= k,
        decreases hi - k,
    {
        proof {
            assert(crate::text::range_spells(v@, rs@[k as int], s[k as int]));
        }
        if range_text_eq(v, rs[k], w, q) {
            c = c + 1;
        }
        k += 1;
    }
    c
}

fn surplus_exec(
    va: &Vec<char>,
    la: &Vec<(usize, usize)>,
    vb: &Vec<char>,
    lb: &Vec<(usize, usize)>,
    Ghost(a): Ghost<Seq<Seq<char>>>,
    Ghost(b): Ghost<Seq<Seq<char>>>,
) -> (n: usize)
    requires
        la@.len() == a.len(),
        lb@.len() == b.len(),
        crate::text::ranges_spell(va@, la@, a),
        crate::text::ranges_spell(vb@, lb@, b),
    ensures
        n == surplus(a, b),
{
    let mut n: usize = 0;
    let mut i: usize = 0;
    while i < la.len()
        invariant
            0 <= i <= la@.len(),
            la@.len() == a.len(),
            lb@.len() == b.len(),
            crate::text::ranges_spell(va@, la@, a),
            crate::text::ranges_spell(vb@, lb@, b),
            n == surplus_upto(a, b, i as int),
            n <= i,
        decreases la.len() - i,
    {
        proof {
            assert(crate::text::range_spells(va@, la@[i as int], a[i as int]));
        }
        let occ: usize = count_line(va, la, i + 1, va, la[i], Ghost(a));
        let cb: usize = count_line(vb, lb, lb.len(), va, la[i], Ghost(b));
        if occ > cb {
            n = n + 1;
        }
        i += 1;
    }
    n
}

/// How many lines restoring `new` would add and remove against `old`
/// ([`line_diff_counts_of`]).
pub fn line_diff_counts(old: &str, new: &str) -> (r: (usize, usize))
    ensures
        r.0 == line_diff_counts_of(old@, new@).0,
        r.1 == line_diff_counts_of(old@, new@).1,
{
    let va = str_to_chars(old);
    let vb = str_to_chars(new);
    let la = crate::text::line_ranges(&va);
    let lb = crate::text::line_ranges(&vb);
    let ghost a = crate::text::lines_of(va@);
    let ghost b = crate::text::lines_of(vb@);
    let n: usize = la.len();
    let m: usize = lb.len();
    let big: bool = if n as u64 >= LCS_CELL_LIMIT || m as u64 >= LCS_CELL_LIMIT {
        true
    } else {
        proof {
            assert((n + 1) * (m + 1) <= 1_000_000 * 1_000_000) by (nonlinear_arith)
                requires
                    n < 1_000_000,
                    m < 1_000_000,
            ;
        }
        (n as u64 + 1) * (m as u64 + 1) > LCS_CELL_LIMIT
    };
    if big {
        proof {
            if n as u64 >= LCS_CELL_LIMIT || m as u64 >= LCS_CELL_LIMIT {
                assert((n + 1) * (m + 1) > LCS_CELL_LIMIT) by (nonlinear_arith)
                    requires
                        n >= LCS_CELL_LIMIT || m >= LCS_CELL_LIMIT,
                ;
            }
        }
        let added: usize = surplus_exec(&vb, &lb, &va, &la, Ghost(b), Ghost(a));
        let removed: usize = surplus_exec(&va, &la, &vb, &lb, Ghost(a), Ghost(b));
        return (added, removed);
    }
    let mut prev: Vec<u32> = vec![0u32; m + 1];
    let mut cur: Vec<u32> = vec![0u32; m + 1];
    let mut i: usize = n;
    proof {
        assert forall|j: int| 0 <= j <= m implies prev@[j] == lcs_from(a, b, n as int, j) by {}
    }
    while i > 0
        invariant
            0 <= i <= n,
            n == a.len(),
            m == b.len(),
            n < LCS_CELL_LIMIT,
            m < LCS_CELL_LIMIT,
            la@.len() == a.len(),
            lb@.len() == b.len(),
            crate::text::ranges_spell(va@, la@, a),
            crate::text::ranges_spell(vb@, lb@, b),
            prev@.len() == m + 1,
            cur@.len() == m + 1,
            forall|j: int| 0 <= j <= m ==> prev@[j] == lcs_from(a, b, i as int, j),
        decreases i,
    {
        i -= 1;
        cur.set(m, 0);
        let mut j: usize = m;
        while j > 0
            invariant
                0 <= j <= m,
                i < n,
                n == a.len(),
                m == b.len(),
                n < LCS_CELL_LIMIT,
                m < LCS_CELL_LIMIT,
                la@.len() == a.len(),
                lb@.len() == b.len(),
                crate::text::ranges_spell(va@, la@, a),
                crate::text::ranges_spell(vb@, lb@, b),
                prev@.len() == m + 1,
                cur@.len() == m + 1,
                forall|k: int| 0 <= k <= m ==> prev@[k] == lcs_from(a, b, i + 1, k),
                forall|k: int| j <= k <= m ==> cur@[k] == lcs_from(a, b, i as int, k),
            decreases j,
        {
            j -= 1;
            proof {
                assert(crate::text::range_spells(va@, la@[i as int], a[i as int]));
                assert(crate::text::range_spells(vb@, lb@[j as int], b[j as int]));
                lemma_lcs_bound(a, b, i + 1, j + 1);
                lemma_lcs_bound(a, b, i as int, j as int);
            }
            let val: u32 = if range_text_eq(&va, la[i], &vb, lb[j]) {
                prev[j + 1] + 1
            } else {
                let x: u32 = prev[j];
                let y: u32 = cur[j + 1];
                if x >= y { x } else { y }
            };
            cur.set(j, val);
        }
        std::mem::swap(&mut prev, &mut cur);
    }
    let l: u32 = prev[0];
    proof {
        lemma_lcs_bound(a, b, 0, 0);
    }
    ((m - l as usize), (n - l as usize))
}


// --- Labels that collide ---------------------------------------------------------------

/// How many of `labels` equal `l`.
pub open spec fn label_count(labels: Seq<Seq<char>>, l: Seq<char>) -> nat {
    count_in(labels, l, labels.len() as int)
}

/// `labels` with the clock time of `ts[i]` appended to every label that
/// another label shares.
pub open spec fn with_shared_clocks(labels: Seq<Seq<char>>, ts: Seq<u64>) -> Seq<Seq<char>> {
    Seq::new(
        labels.len(),
        |i: int|
            if label_count(labels, labels[i]) > 1 && i < ts.len() {
                labels[i] + seq![' '] + clock_hm_of(ts[i])
            } else {
                labels[i]
            },
    )
}

/// The characters of each string.
pub open spec fn strings_view(s: Seq<String>) -> Seq<Seq<char>> {
    s.map_values(|x: String| x@)
}

fn count_label(labels: &Vec<String>, l: &str) -> (c: usize)
    ensures
        c == label_count(strings_view(labels@), l@),
{
    let ghost s = strings_view(labels@);
    let mut c: usize = 0;
    let mut k: usize = 0;
    while k < labels.len()
        invariant
            0 <= k <= labels@.len(),
            s == strings_view(labels@),
            c == count_in(s, l@, k as int),
            c <= k,
        decreases labels.len() - k,
    {
        if crate::text::str_eq(labels[k].as_str(), l) {
            c = c + 1;
        }
        k += 1;
    }
    c
}

/// Tell colliding labels apart: every label another label shares gains the
/// ` HH:MM` clock time of its stamp ([`with_shared_clocks`]); a lone label
/// stays as it is.
pub fn append_clock_when_shared(labels: &mut Vec<String>, ts: &[u64])
    ensures
        strings_view(final(labels)@) == with_shared_clocks(strings_view(old(labels)@), ts@),
{
    let ghost orig = strings_view(labels@);
    let mut shared: Vec<bool> = Vec::new();
    let mut i: usize = 0;
    while i < labels.len()
        invariant
            0 <= i <= labels@.len(),
            orig == strings_view(labels@),
            shared@.len() == i,
            forall|k: int| 0 <= k < i ==> shared@[k] == (label_count(orig, orig[k]) > 1),
        decreases labels.len() - i,
    {
        let c: usize = count_label(labels, labels[i].as_str());
        shared.push(c > 1);
        i += 1;
    }
    let mut out: Vec<String> = Vec::new();
    let mut j: usize = 0;
    while j < labels.len()
        invariant
            0 <= j <= labels@.len(),
            orig == strings_view(labels@),
            shared@.len() == labels@.len(),
            forall|k: int| 0 <= k < labels@.len() ==> shared@[k] == (label_count(orig, orig[k]) > 1),
            strings_view(out@) == with_shared_clocks(orig, ts@).take(j as int),
        decreases labels.len() - j,
    {
        let mut l = labels[j].clone();
        proof {
            assert(l@ == orig[j as int]);
        }
        if shared[j] && j < ts.len() {
            l.push(' ');
            let hm = clock_hm(ts[j]);
            crate::text::append_str(&mut l, hm.as_str());
            proof {
                assert(l@ =~= orig[j as int] + seq![' '] + clock_hm_of(ts@[j as int]));
            }
        }
        proof {
            assert(l@ == with_shared_clocks(orig, ts@)[j as int]);
        }
        let ghost before = strings_view(out@);
        out.push(l);
        proof {
            assert(strings_view(out@) =~= before.push(l@));
            assert(with_shared_clocks(orig, ts@).take(j + 1) =~= with_shared_clocks(orig, ts@).take(
                j as int,
            ).push(with_shared_clocks(orig, ts@)[j as int]));
        }
        j += 1;
    }
    proof {
        assert(with_shared_clocks(orig, ts@).take(labels@.len() as int) =~= with_shared_clocks(orig, ts@));
    }
    *labels = out;
}


// --- Describing an edit ------------------------------------------------------------------

/// How many `#` characters `line` starts with.
pub open spec fn hash_run(line: Seq<char>) -> nat
    decreases line.len(),
{
    if line.len() > 0 && line[0] == '#' {
        1 + hash_run(line.drop_first())
    } else {
        0
    }
}

/// The title of a heading line: one to six `#` followed by a space, a tab,
/// or nothing, then the title (trimmed).
pub open spec fn heading_text(line: Seq<char>) -> Option<Seq<char>> {
    let k = hash_run(line);
    if 1 <= k <= 6 && (k == line.len() || line[k as int] == ' ' || line[k as int] == '\t') {
        Some(crate::text::trim(line.skip(k as int)))
    } else {
        None
    }
}

/// The title of the nearest heading at or above line `n` of `lines`.
pub open spec fn heading_above(lines: Seq<Seq<char>>, n: int) -> Option<Seq<char>>
    decreases n + 1,
{
    if n < 0 {
        None
    } else if n < lines.len() && heading_text(lines[n]) is Some {
        heading_text(lines[n])
    } else {
        heading_above(lines, n - 1)
    }
}

/// The character budget of an edit excerpt.
pub const EXCERPT_CHARS: usize = 42;

/// A description of the edit that made `cur` from `prev`: the nearest
/// heading at or above the first changed line, as `edited "<title>"`; with
/// no heading there, the changed line itself, trimmed and cut to
/// [`EXCERPT_CHARS`] characters with a `…`.
pub open spec fn auto_description_of(prev: Seq<char>, cur: Seq<char>) -> Seq<char> {
    let lines = crate::text::lines_of(cur);
    let n = first_changed_line_of(prev, cur);
    match heading_above(lines, n as int) {
        Some(h) => "edited \""@ + h + "\""@,
        None => {
            let l = crate::text::trim(if n < lines.len() {
                lines[n as int]
            } else {
                seq![]
            });
            if l.len() > EXCERPT_CHARS {
                l.take(EXCERPT_CHARS as int) + seq!['…']
            } else {
                l
            }
        },
    }
}

fn heading_range(v: &Vec<char>, r: (usize, usize)) -> (h: Option<(usize, usize)>)
    requires
        r.0 <= r.1 <= v@.len(),
    ensures
        match heading_text(v@.subrange(r.0 as int, r.1 as int)) {
            Some(t) => h matches Some(p) && p.0 <= p.1 <= v@.len() && v@.subrange(p.0 as int, p.1 as int) == t,
            None => h is None,
        },
{
    let ghost line = v@.subrange(r.0 as int, r.1 as int);
    let mut k: usize = r.0;
    while k < r.1 && v[k] == '#'
        invariant
            r.0 <= k <= r.1 <= v@.len(),
            line == v@.subrange(r.0 as int, r.1 as int),
            hash_run(line) == (k - r.0) + hash_run(v@.subrange(k as int, r.1 as int)),
        decreases r.1 - k,
    {
        proof {
            assert(v@.subrange(k as int, r.1 as int).drop_first() =~= v@.subrange(k + 1, r.1 as int));
        }
        k += 1;
    }
    proof {
        assert(hash_run(v@.subrange(k as int, r.1 as int)) == 0);
    }
    let run: usize = k - r.0;
    if run >= 1 && run <= 6 && (k == r.1 || v[k] == ' ' || v[k] == '\t') {
        let (a, b) = crate::text::trim_range(v, k, r.1);
        proof {
            assert(line.skip(run as int) =~= v@.subrange(k as int, r.1 as int));
        }
        Some((a, b))
    } else {
        proof {
            if k < r.1 {
                assert(line[run as int] == v@[k as int]);
            }
        }
        None
    }
}

/// Describe the edit that made `cur` from `prev` ([`auto_description_of`]).
pub fn auto_description(prev: &str, cur: &str) -> (r: String)
    ensures
        r@ == auto_description_of(prev@, cur@),
{
    let n: usize = first_changed_line(prev, cur);
    let v = str_to_chars(cur);
    let ls = crate::text::line_ranges(&v);
    let ghost lines = crate::text::lines_of(v@);
    let mut k: usize = if n < ls.len() { n + 1 } else { ls.len() };
    proof {
        if n >= ls.len() && ls.len() > 0 {
            assert(heading_above(lines, n as int) == heading_above(lines, ls.len() - 1)) by {
                lemma_heading_above_past(lines, n as int);
            }
        }
    }
    while k > 0
        invariant
            0 <= k <= ls@.len(),
            v@ == cur@,
            lines == crate::text::lines_of(v@),
            n == first_changed_line_of(prev@, cur@),
            ls@.len() == lines.len(),
            crate::text::ranges_spell(v@, ls@, lines),
            heading_above(lines, n as int) == heading_above(lines, k - 1),
        decreases k,
    {
        k -= 1;
        proof {
            assert(crate::text::range_spells(v@, ls@[k as int], lines[k as int]));
        }
        match heading_range(&v, ls[k]) {
            Some((a, b)) => {
                let mut s = String::new();
                crate::text::append_str(&mut s, "edited \"");
                let title = crate::text::string_of(&v, a, b);
                crate::text::append_str(&mut s, title.as_str());
                crate::text::append_str(&mut s, "\"");
                proof {
                    assert(s@ =~= auto_description_of(prev@, cur@));
                }
                return s;
            },
            None => {},
        }
    }
    let mut s = String::new();
    if n < ls.len() {
        proof {
            assert(crate::text::range_spells(v@, ls@[n as int], lines[n as int]));
        }
        let (a, b) = crate::text::trim_range(&v, ls[n].0, ls[n].1);
        if b - a > EXCERPT_CHARS {
            let s2 = crate::text::string_of(&v, a, a + EXCERPT_CHARS);
            crate::text::append_str(&mut s, s2.as_str());
            s.push('…');
        } else {
            let s2 = crate::text::string_of(&v, a, b);
            crate::text::append_str(&mut s, s2.as_str());
        }
    } else {
        proof {
            crate::text::lemma_lead_ws_le(Seq::<char>::empty());
            assert(crate::text::trim(Seq::<char>::empty()) =~= Seq::<char>::empty());
        }
    }
    proof {
        assert(s@ =~= auto_description_of(prev@, cur@));
    }
    s
}

proof fn lemma_heading_above_past(lines: Seq<Seq<char>>, n: int)
    requires
        n >= lines.len(),
        lines.len() > 0,
    ensures
        heading_above(lines, n) == heading_above(lines, lines.len() - 1),
    decreases n,
{
    if n > lines.len() {
        lemma_heading_above_past(lines, n - 1);
    }
}


// --- Timeline rows -------------------------------------------------------------------------

/// One row of the timeline picker.
#[derive(Debug, Clone, PartialEq, Eq)]
pub struct TimelineRow {
    /// When: a relative label, with a clock time where siblings share it.
    pub when: String,
    /// Which edit: the commit subject, or a description of the edit.
    pub which: String,
    /// `+N −M`: lines restoring this version adds and removes.
    pub counts: String,
    /// The restore key.
    pub id: String,
    /// The snapshot's millis stamp.
    pub timestamp: u64,
    /// A kept version.
    pub pinned: bool,
    /// A kept version's name.
    pub name: Option<String>,
}

/// A timeline row as plain values.
pub type TimelineRowView = (Seq<char>, Seq<char>, Seq<char>, Seq<char>, u64, bool, Option<Seq<char>>);

impl View for TimelineRow {
    type V = TimelineRowView;

    open spec fn view(&self) -> TimelineRowView {
        (
            self.when@,
            self.which@,
            self.counts@,
            self.id@,
            self.timestamp,
            self.pinned,
            crate::history::codec::opt_chars(self.name),
        )
    }
}

/// `+N −M`.
pub open spec fn counts_text(added: nat, removed: nat) -> Seq<char> {
    seq!['+'] + decimal(added) + seq![' ', '\u{2212}'] + decimal(removed)
}

/// The `i`-th content, or nothing past the end.
pub open spec fn content_at(contents: Seq<Seq<char>>, i: int) -> Seq<char> {
    if 0 <= i < contents.len() {
        contents[i]
    } else {
        seq![]
    }
}

/// The rows for the snapshots `snaps` (newest first) with their `contents`,
/// against the `current` text at `now_ms`: when is the relative label (with
/// a clock time where labels collide), which is the commit subject or a
/// description of the edit from the next older content, counts are against
/// `current`.
pub open spec fn rows_of(
    snaps: Seq<crate::history::store::SnapshotView>,
    contents: Seq<Seq<char>>,
    current: Seq<char>,
    now_ms: u64,
) -> Seq<TimelineRowView> {
    let labels = Seq::new(snaps.len(), |k: int| relative_label_of(now_ms, snaps[k].1));
    let whens = with_shared_clocks(labels, snaps.map_values(|s: crate::history::store::SnapshotView| s.1));
    Seq::new(
        snaps.len(),
        |i: int|
            {
                let c = content_at(contents, i);
                let counts = line_diff_counts_of(current, c);
                (
                    whens[i],
                    match snaps[i].2 {
                        Some(subject) => subject,
                        None => auto_description_of(content_at(contents, i + 1), c),
                    },
                    counts_text(counts.0, counts.1),
                    snaps[i].0,
                    snaps[i].1,
                    snaps[i].3,
                    snaps[i].4,
                )
            },
    )
}

fn str_at(contents: &[String], i: usize) -> (r: &str)
    ensures
        r@ == content_at(strings_view(contents@), i as int),
{
    if i < contents.len() {
        contents[i].as_str()
    } else {
        proof {
            reveal_strlit("");
        }
        ""
    }
}

/// Compose the timeline rows ([`rows_of`]).
pub fn rows_from(
    snaps: &[crate::history::store::Snapshot],
    contents: &[String],
    current: &str,
    now_ms: u64,
) -> (r: Vec<TimelineRow>)
    ensures
        r@.map_values(|x: TimelineRow| x@) == rows_of(
            crate::history::store::snapshots_view(snaps@),
            strings_view(contents@),
            current@,
            now_ms,
        ),
{
    let ghost sv = crate::history::store::snapshots_view(snaps@);
    let ghost cv = strings_view(contents@);
    let mut whens: Vec<String> = Vec::new();
    let mut stamps: Vec<u64> = Vec::new();
    let mut k: usize = 0;
    while k < snaps.len()
        invariant
            0 <= k <= snaps@.len(),
            sv == crate::history::store::snapshots_view(snaps@),
            strings_view(whens@) == Seq::new(snaps@.len(), |q: int| relative_label_of(now_ms, sv[q].1)).take(k as int),
            stamps@ == sv.map_values(|s: crate::history::store::SnapshotView| s.1).take(k as int),
        decreases snaps.len() - k,
    {
        let l = relative_label(now_ms, snaps[k].timestamp);
        let ghost before = strings_view(whens@);
        whens.push(l);
        stamps.push(snaps[k].timestamp);
        proof {
            assert(strings_view(whens@) =~= before.push(l@));
            assert(strings_view(whens@) =~= Seq::new(snaps@.len(), |q: int| relative_label_of(now_ms, sv[q].1)).take(k + 1));
            assert(stamps@ =~= sv.map_values(|s: crate::history::store::SnapshotView| s.1).take(k + 1));
        }
        k += 1;
    }
    proof {
        assert(strings_view(whens@) =~= Seq::new(snaps@.len(), |q: int| relative_label_of(now_ms, sv[q].1)));
        assert(stamps@ =~= sv.map_values(|s: crate::history::store::SnapshotView| s.1));
    }
    append_clock_when_shared(&mut whens, stamps.as_slice());
    let ghost wv = strings_view(whens@);
    proof {
        assert(wv.len() == whens@.len());
    }
    let ghost spec_rows = rows_of(sv, cv, current@, now_ms);
    let mut out: Vec<TimelineRow> = Vec::new();
    let mut i: usize = 0;
    while i < snaps.len()
        invariant
            0 <= i <= snaps@.len(),
            sv == crate::history::store::snapshots_view(snaps@),
            cv == strings_view(contents@),
            whens@.len() == snaps@.len(),
            wv == strings_view(whens@),
            spec_rows == rows_of(sv, cv, current@, now_ms),
            wv == with_shared_clocks(
                Seq::new(snaps@.len(), |q: int| relative_label_of(now_ms, sv[q].1)),
                sv.map_values(|s: crate::history::store::SnapshotView| s.1),
            ),
            out@.map_values(|x: TimelineRow| x@) == spec_rows.take(i as int),
        decreases snaps.len() - i,
    {
        let c = str_at(contents, i);
        let s = &snaps[i];
        let which = match &s.subject {
            Some(subject) => subject.clone(),
            None => auto_description(str_at(contents, i + 1), c),
        };
        let (added, removed) = line_diff_counts(current, c);
        let mut counts = String::new();
        counts.push('+');
        push_decimal(&mut counts, added as u64);
        counts.push(' ');
        counts.push('\u{2212}');
        push_decimal(&mut counts, removed as u64);
        let name = match &s.name {
            Some(n) => Some(n.clone()),
            None => None,
        };
        let row = TimelineRow {
            when: whens[i].clone(),
            which,
            counts,
            id: s.id.clone(),
            timestamp: s.timestamp,
            pinned: s.pinned,
            name,
        };
        let ghost before = out@.map_values(|x: TimelineRow| x@);
        proof {
            assert(sv[i as int] == snaps@[i as int]@);
            assert(counts@ =~= counts_text(added as nat, removed as nat));
            assert(row@ == spec_rows[i as int]);
        }
        out.push(row);
        proof {
            assert(out@.map_values(|x: TimelineRow| x@) =~= before.push(row@));
            assert(spec_rows.take(i + 1) =~= spec_rows.take(i as int).push(spec_rows[i as int]));
        }
        i += 1;
    }
    proof {
        assert(spec_rows.take(snaps@.len() as int) =~= spec_rows);
    }
    out
}

/// The contents behind the awl snapshots of the log entries `ev`, each
/// found by its id (empty when none is).
pub open spec fn snapshot_contents(ev: Seq<crate::history::codec::EntryView>) -> Seq<Seq<char>> {
    let snaps = crate::history::store::awl_snapshots(ev);
    Seq::new(
        snaps.len(),
        |i: int|
            match crate::history::store::content_with_id(ev, snaps[i].0) {
                Some(c) => c,
                None => seq![],
            },
    )
}

/// The timeline of a file whose awl log holds `ev`: its snapshots, newest
/// first, as rows against `current` ([`rows_of`]).
pub open spec fn timeline_of(ev: Seq<crate::history::codec::EntryView>, current: Seq<char>, now_ms: u64) -> Seq<
    TimelineRowView,
> {
    rows_of(crate::history::store::awl_snapshots(ev), snapshot_contents(ev), current, now_ms)
}

/// The timeline rows for `path`'s awl history against the `current` text
/// ([`timeline_of`]), newest first.
pub fn timeline_rows<F: crate::fs::FileSystem>(
    fs: &mut F,
    data_root: &str,
    path: &str,
    current: &str,
    now_ms: u64,
) -> (r: Vec<TimelineRow>)
    ensures
        r@.map_values(|x: TimelineRow| x@) == timeline_of(
            crate::history::store::log_entries_of(
                old(fs).files(),
                crate::history::store::log_path_of(data_root@, path@),
            ),
            current@,
            now_ms,
        ),
{
    let ghost lp = crate::history::store::log_path_of(data_root@, path@);
    let ghost ev = crate::history::store::log_entries_of(old(fs).files(), lp);
    let snaps = crate::history::store::list(fs, data_root, path, None);
    let ghost sv = crate::history::store::snapshots_view(snaps@);
    assert(sv == crate::history::store::awl_snapshots(ev));
    let mut contents: Vec<String> = Vec::new();
    let mut i: usize = 0;
    while i < snaps.len()
        invariant
            0 <= i <= snaps@.len(),
            sv == crate::history::store::snapshots_view(snaps@),
            sv == crate::history::store::awl_snapshots(ev),
            ev == crate::history::store::log_entries_of(fs.files(), lp),
            lp == crate::history::store::log_path_of(data_root@, path@),
            contents@.len() == i,
            forall|k: int| 0 <= k < i ==> (#[trigger] contents@[k])@ == snapshot_contents(ev)[k],
        decreases snaps.len() - i,
    {
        assert(snaps@[i as int]@ == sv[i as int]);
        let c = match crate::history::store::load(fs, data_root, path, snaps[i].id.as_str(), None) {
            Some(c) => c,
            None => String::new(),
        };
        contents.push(c);
        i += 1;
    }
    let rows = rows_from(snaps.as_slice(), contents.as_slice(), current, now_ms);
    proof {
        assert(strings_view(contents@) =~= snapshot_contents(ev));
    }
    rows
}

/// The path a buffer's history is kept under: the buffer's own path, else
/// the app-level file, else (for the scratch buffer, not a note) the
/// scratch stash under `data_root`; an unnamed note has none yet.
pub fn source_path(buffer_path: Option<&str>, file: Option<&str>, is_note: bool, data_root: &str) -> (r: Option<String>)
    ensures
        match buffer_path {
            Some(b) => r matches Some(s) && s@ == b@,
            None => match file {
                Some(f) => r matches Some(s) && s@ == f@,
                None => if is_note {
                    r is None
                } else {
                    r matches Some(s) && s@ == crate::fs::join_of(data_root@, "scratch.md"@)
                },
            },
        },
{
    match buffer_path {
        Some(b) => {
            let mut s = String::new();
            crate::text::append_str(&mut s, b);
            Some(s)
        },
        None => match file {
            Some(f) => {
                let mut s = String::new();
                crate::text::append_str(&mut s, f);
                Some(s)
            },
            None => if is_note {
                None
            } else {
                Some(crate::fs::join(data_root, "scratch.md"))
            },
        },
    }
}

} // verus!

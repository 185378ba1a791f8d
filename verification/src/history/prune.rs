//! The aged retention ladder: which snapshots of a log survive a prune.
//! Resolution thins with age while memory is kept: everything fresh stays,
//! then one survivor per work session up to a day, one per day up to thirty
//! days, one per week beyond. When too many un-pinned snapshots remain, the
//! ladder climbs until they fit (each level halves the fresh window and
//! doubles the session gap and bucket widths, up to the widest a `u64`
//! holds), never dropping the oldest snapshot first-in first-out. Pinned snapshots always survive and do not count against the cap.

use vstd::prelude::*;
use crate::history::codec::Entry;

verus! {

/// Everything at most this old (15 min) is kept at level 0.
pub const FRESH_MS: u64 = 900_000;

/// Two snapshots closer than this (15 min) belong to the same work session.
pub const SESSION_GAP_MS: u64 = 900_000;

/// One day, the session band's horizon.
pub const DAY_MS: u64 = 86_400_000;

/// Thirty days, the daily band's horizon.
pub const OLD_HORIZON_MS: u64 = 2_592_000_000;

/// One week, the oldest band's bucket width.
pub const WEEK_MS: u64 = 604_800_000;

/// The cap on un-pinned survivors, enforced by climbing the ladder.
pub const MAX_TOTAL: usize = 150;

/// The highest ladder level tried: from here on every width is as wide as a
/// `u64` holds, and the cap fits unless the fresh window itself overflows it.
pub const MAX_LEVEL: u32 = 44;

/// The age band a snapshot falls in, with its bucket for the bucketed bands.
#[derive(PartialEq, Eq, Structural)]
pub enum Band {
    Fresh,
    Session,
    Daily(u64),
    Weekly(u64),
}

/// The fresh window at `level`: halved per level.
pub open spec fn fresh_window(level: u32) -> u64 {
    FRESH_MS >> (if level < 63 {
        level
    } else {
        63u32
    })
}

/// The session gap at `level`: doubled per level, up to the widest that a
/// `u64` holds (level 44).
pub open spec fn gap_width(level: u32) -> u64 {
    SESSION_GAP_MS << (if level < 44 {
        level
    } else {
        44u32
    })
}

/// The daily bucket width at `level`: doubled per level, up to the widest
/// that a `u64` holds (level 37).
pub open spec fn day_width(level: u32) -> u64 {
    DAY_MS << (if level < 37 {
        level
    } else {
        37u32
    })
}

/// The weekly bucket width at `level`: doubled per level, up to the widest
/// that a `u64` holds (level 34).
pub open spec fn week_width(level: u32) -> u64 {
    WEEK_MS << (if level < 34 {
        level
    } else {
        34u32
    })
}

/// `a - b`, or 0 when `b` is larger.
pub open spec fn sat_sub(a: u64, b: u64) -> u64 {
    if a >= b {
        (a - b) as u64
    } else {
        0
    }
}

/// The band of a snapshot stamped `t`, read at `now` on ladder `level`.
pub open spec fn band_of(t: u64, now: u64, level: u32) -> Band {
    let age: u64 = sat_sub(now, t);
    if age <= fresh_window(level) {
        Band::Fresh
    } else if age <= DAY_MS {
        Band::Session
    } else if age <= OLD_HORIZON_MS {
        Band::Daily(t / day_width(level))
    } else {
        Band::Weekly(t / week_width(level))
    }
}

/// Two neighbouring snapshots (`newer` directly before `older` in the log)
/// are in one group: both fresh, one work session, one day bucket, or one
/// week bucket.
pub open spec fn same_group(newer: u64, older: u64, now: u64, level: u32) -> bool {
    match (band_of(newer, now, level), band_of(older, now, level)) {
        (Band::Fresh, Band::Fresh) => true,
        (Band::Session, Band::Session) => sat_sub(newer, older) < gap_width(level),
        (Band::Daily(b), Band::Daily(pb)) => b == pb,
        (Band::Weekly(b), Band::Weekly(pb)) => b == pb,
        _ => false,
    }
}

/// Whether the `j`-th of the newest-first stamps `ts` survives `level`: it
/// is fresh, the newest, the oldest, or the newest of its group (the stamp
/// just before it belongs to another group).
pub open spec fn ladder_keeps(ts: Seq<u64>, now: u64, level: u32, j: int) -> bool {
    band_of(ts[j], now, level) == Band::Fresh || j == 0 || j == ts.len() - 1 || !same_group(
        ts[j - 1],
        ts[j],
        now,
        level,
    )
}

/// The keep mask of `level` over `ts`.
pub open spec fn keep_mask(ts: Seq<u64>, now: u64, level: u32) -> Seq<bool> {
    Seq::new(ts.len(), |j: int| ladder_keeps(ts, now, level, j))
}

fn band(t: u64, now: u64, level: u32) -> (b: Band)
    ensures
        b == band_of(t, now, level),
{
    let fs: u32 = if level < 63 { level } else { 63 };
    let ds: u32 = if level < 37 { level } else { 37 };
    let ws: u32 = if level < 34 { level } else { 34 };
    let fresh: u64 = FRESH_MS >> fs;
    let age: u64 = if now >= t { now - t } else { 0 };
    if age <= fresh {
        Band::Fresh
    } else if age <= DAY_MS {
        Band::Session
    } else if age <= OLD_HORIZON_MS {
        let w: u64 = DAY_MS << ds;
        proof {
            assert(w > 0) by (bit_vector)
                requires
                    w == 86_400_000u64 << ds,
                    ds <= 37,
            ;
        }
        Band::Daily(t / w)
    } else {
        let w: u64 = WEEK_MS << ws;
        proof {
            assert(w > 0) by (bit_vector)
                requires
                    w == 604_800_000u64 << ws,
                    ws <= 34,
            ;
        }
        Band::Weekly(t / w)
    }
}

fn grouped(newer: u64, older: u64, now: u64, level: u32) -> (r: bool)
    ensures
        r == same_group(newer, older, now, level),
{
    let gs: u32 = if level < 44 { level } else { 44 };
    let gap: u64 = SESSION_GAP_MS << gs;
    match (band(newer, now, level), band(older, now, level)) {
        (Band::Fresh, Band::Fresh) => true,
        (Band::Session, Band::Session) => {
            let d: u64 = if newer >= older { newer - older } else { 0 };
            d < gap
        },
        (Band::Daily(b), Band::Daily(pb)) => b == pb,
        (Band::Weekly(b), Band::Weekly(pb)) => b == pb,
        _ => false,
    }
}

/// One level of the ladder over the newest-first stamps `ts`: which survive,
/// as a parallel mask ([`keep_mask`]).
pub fn ladder_keep(ts: &[u64], now_ms: u64, level: u32) -> (keep: Vec<bool>)
    ensures
        keep@ == keep_mask(ts@, now_ms, level),
{
    let n: usize = ts.len();
    let mut keep: Vec<bool> = Vec::new();
    let mut j: usize = 0;
    while j < n
        invariant
            0 <= j <= n,
            n == ts@.len(),
            keep@.len() == j,
            forall|k: int| 0 <= k < j ==> keep@[k] == ladder_keeps(ts@, now_ms, level, k),
        decreases n - j,
    {
        let k = band(ts[j], now_ms, level) == Band::Fresh || j == 0 || j == n - 1 || !grouped(
            ts[j - 1],
            ts[j],
            now_ms,
            level,
        );
        keep.push(k);
        j += 1;
    }
    proof {
        assert(keep@ =~= keep_mask(ts@, now_ms, level));
    }
    keep
}

/// How many positions `mask` keeps that `pinned` does not pin.
pub open spec fn unpinned_kept(mask: Seq<bool>, pinned: Seq<bool>) -> nat
    decreases mask.len(),
{
    if mask.len() == 0 {
        0
    } else {
        unpinned_kept(mask.drop_last(), pinned) + (if mask.last() && !pinned[mask.len() - 1] {
            1nat
        } else {
            0nat
        })
    }
}

/// The ladder level a prune settles on: the first level from `k` whose
/// un-pinned survivors fit [`MAX_TOTAL`], or [`MAX_LEVEL`].
pub open spec fn chosen_level(ts: Seq<u64>, pinned: Seq<bool>, now: u64, k: u32) -> u32
    decreases MAX_LEVEL - k,
{
    if k >= MAX_LEVEL || unpinned_kept(keep_mask(ts, now, k), pinned) <= MAX_TOTAL {
        k
    } else {
        chosen_level(ts, pinned, now, (k + 1) as u32)
    }
}

/// The stamps of `es`.
pub open spec fn stamps(es: Seq<Entry>) -> Seq<u64> {
    es.map_values(|e: Entry| e.ts)
}

/// The pinned flags of `es`.
pub open spec fn pins(es: Seq<Entry>) -> Seq<bool> {
    es.map_values(|e: Entry| e.pinned)
}

/// Which of the entries stamped `ts` and pinned as `ps` survive a prune at
/// `now`: the pinned ones and those the chosen ladder level keeps.
pub open spec fn survivor_mask(ts: Seq<u64>, ps: Seq<bool>, now: u64) -> Seq<bool> {
    let level: u32 = chosen_level(ts, ps, now, 0);
    Seq::new(ts.len(), |j: int| ps[j] || keep_mask(ts, now, level)[j])
}

/// Which entries of `es` survive a prune at `now` ([`survivor_mask`]).
pub open spec fn survivors(es: Seq<Entry>, now: u64) -> Seq<bool> {
    survivor_mask(stamps(es), pins(es), now)
}

/// The elements of `s` whose mask bit is set, in order.
pub open spec fn retained<T>(s: Seq<T>, m: Seq<bool>) -> Seq<T>
    decreases s.len(),
{
    if s.len() == 0 {
        seq![]
    } else {
        (if m[0] {
            seq![s[0]]
        } else {
            seq![]
        }) + retained(s.drop_first(), m.drop_first())
    }
}

fn count_unpinned(mask: &Vec<bool>, pinned: &Vec<bool>) -> (c: usize)
    requires
        mask@.len() == pinned@.len(),
    ensures
        c == unpinned_kept(mask@, pinned@),
{
    let mut c: usize = 0;
    let mut j: usize = 0;
    while j < mask.len()
        invariant
            0 <= j <= mask@.len(),
            mask@.len() == pinned@.len(),
            c == unpinned_kept(mask@.take(j as int), pinned@),
            c <= j,
        decreases mask.len() - j,
    {
        proof {
            assert(mask@.take(j + 1).drop_last() =~= mask@.take(j as int));
        }
        if mask[j] && !pinned[j] {
            c += 1;
        }
        j += 1;
    }
    proof {
        assert(mask@.take(mask@.len() as int) =~= mask@);
    }
    c
}

/// The aged retention ladder: prune the newest-first `entries` at `now_ms`,
/// keeping the pinned entries and those the chosen ladder level keeps
/// ([`survivors`]), in their order.
pub fn prune_ladder(entries: &mut Vec<Entry>, now_ms: u64)
    ensures
        final(entries)@ == retained(old(entries)@, survivors(old(entries)@, now_ms)),
{
    let mut ts: Vec<u64> = Vec::new();
    let mut pinned: Vec<bool> = Vec::new();
    let mut j: usize = 0;
    while j < entries.len()
        invariant
            0 <= j <= entries@.len(),
            entries@ == old(entries)@,
            ts@ == stamps(entries@).take(j as int),
            pinned@ == pins(entries@).take(j as int),
        decreases entries.len() - j,
    {
        ts.push(entries[j].ts);
        pinned.push(entries[j].pinned);
        proof {
            assert(ts@ =~= stamps(entries@).take(j + 1));
            assert(pinned@ =~= pins(entries@).take(j + 1));
        }
        j += 1;
    }
    proof {
        assert(ts@ =~= stamps(entries@));
        assert(pinned@ =~= pins(entries@));
    }
    let mut level: u32 = 0;
    let mut chosen = ladder_keep(ts.as_slice(), now_ms, 0);
    while level < MAX_LEVEL && count_unpinned(&chosen, &pinned) > MAX_TOTAL
        invariant
            0 <= level <= MAX_LEVEL,
            ts@ == stamps(old(entries)@),
            pinned@ == pins(old(entries)@),
            chosen@ == keep_mask(ts@, now_ms, level),
            chosen_level(ts@, pinned@, now_ms, 0) == chosen_level(ts@, pinned@, now_ms, level),
        decreases MAX_LEVEL - level,
    {
        level += 1;
        chosen = ladder_keep(ts.as_slice(), now_ms, level);
    }
    let ghost mask = survivors(old(entries)@, now_ms);
    proof {
        assert(chosen_level(ts@, pinned@, now_ms, level) == level);
    }
    let mut i: usize = entries.len();
    proof {
        assert(entries@.skip(i as int) =~= Seq::<Entry>::empty());
        assert(entries@ =~= old(entries)@.take(i as int) + retained(
            old(entries)@.skip(i as int),
            mask.skip(i as int),
        ));
    }
    while i > 0
        invariant
            0 <= i <= old(entries)@.len(),
            mask == survivors(old(entries)@, now_ms),
            mask.len() == old(entries)@.len(),
            chosen@.len() == old(entries)@.len(),
            pinned@ == pins(old(entries)@),
            forall|k: int| 0 <= k < mask.len() ==> mask[k] == (pinned@[k] || chosen@[k]),
            entries@ == old(entries)@.take(i as int) + retained(
                old(entries)@.skip(i as int),
                mask.skip(i as int),
            ),
        decreases i,
    {
        i -= 1;
        let ghost o = old(entries)@;
        proof {
            assert(o.skip(i as int).drop_first() =~= o.skip(i + 1));
            assert(mask.skip(i as int).drop_first() =~= mask.skip(i + 1));
            assert(o.skip(i as int)[0] == o[i as int]);
            assert(mask.skip(i as int)[0] == mask[i as int]);
            assert(entries@[i as int] == o[i as int]);
        }
        if !(pinned[i] || chosen[i]) {
            entries.remove(i);
            proof {
                assert(entries@ =~= o.take(i as int) + retained(o.skip(i as int), mask.skip(i as int)));
            }
        } else {
            proof {
                assert(o.take(i + 1) =~= o.take(i as int).push(o[i as int]));
                assert(entries@ =~= o.take(i as int) + retained(o.skip(i as int), mask.skip(i as int)));
            }
        }
    }
    proof {
        assert(old(entries)@.take(0) =~= Seq::<Entry>::empty());
        assert(old(entries)@.skip(0) =~= old(entries)@);
        assert(mask.skip(0) =~= mask);
        assert(entries@ =~= retained(old(entries)@, mask));
    }
}

// --- Laws ----------------------------------------------------------------------

/// The newest and the oldest snapshot survive every prune.
pub proof fn lemma_prune_keeps_newest_and_oldest(es: Seq<Entry>, now: u64)
    requires
        es.len() > 0,
    ensures
        survivors(es, now)[0],
        survivors(es, now)[es.len() - 1],
{
}

/// A pinned snapshot survives every prune.
pub proof fn lemma_prune_keeps_pinned(es: Seq<Entry>, now: u64, j: int)
    requires
        0 <= j < es.len(),
        es[j].pinned,
    ensures
        survivors(es, now)[j],
{
}

/// How many of the first `m` stamps of `ts` are at or after `now`: those
/// stay fresh at every level of the ladder.
pub open spec fn not_before(ts: Seq<u64>, now: u64, m: int) -> nat
    decreases m,
{
    if m <= 0 {
        0
    } else {
        not_before(ts, now, m - 1) + (if ts[m - 1] >= now {
            1nat
        } else {
            0nat
        })
    }
}

/// LAW: the ladder climbs until the un-pinned survivors fit the cap. Over
/// stamps newest first, with at most `MAX_TOTAL - 7` of them at or after
/// `now` (which no level thins), the un-pinned survivors of a prune are at
/// most [`MAX_TOTAL`]; the oldest is never dropped to get there.
pub proof fn lemma_prune_respects_cap(es: Seq<Entry>, now: u64)
    requires
        newest_first(stamps(es)),
        not_before(stamps(es), now, es.len() as int) + 7 <= MAX_TOTAL,
    ensures
        unpinned_kept(keep_mask(stamps(es), now, chosen_level(stamps(es), pins(es), now, 0)), pins(es))
            <= MAX_TOTAL,
{
    let ts = stamps(es);
    let ps = pins(es);
    lemma_chosen_level_fits(ts, ps, now, 0);
    lemma_chosen_level_bounds(ts, ps, now, 0);
    if chosen_level(ts, ps, now, 0) == MAX_LEVEL {
        lemma_top_total(ts, now);
        lemma_unpinned_le_kept(ts, now, ps, ts.len() as int);
        assert(keep_mask(ts, now, MAX_LEVEL).take(ts.len() as int) =~= keep_mask(ts, now, MAX_LEVEL));
    }
}

/// The top level's widths: no fresh window, and a gap and buckets as wide as
/// a `u64` holds.
proof fn lemma_top_widths()
    ensures
        fresh_window(MAX_LEVEL) == 0,
        gap_width(MAX_LEVEL) == 15_832_967_439_974_400_000u64,
        day_width(MAX_LEVEL) == 11_874_725_579_980_800_000u64,
        week_width(MAX_LEVEL) == 10_390_384_882_483_200_000u64,
{
    assert(900_000u64 >> 44u32 == 0u64) by (bit_vector);
    assert(900_000u64 << 44u32 == 15_832_967_439_974_400_000u64) by (bit_vector);
    assert(86_400_000u64 << 37u32 == 11_874_725_579_980_800_000u64) by (bit_vector);
    assert(604_800_000u64 << 34u32 == 10_390_384_882_483_200_000u64) by (bit_vector);
}

/// Where a stamp that is not fresh at the top level stands in the order of
/// its groups there: the session band, the two day buckets, the two week
/// buckets.
spec fn top_rank(t: u64, now: u64) -> int {
    match band_of(t, now, MAX_LEVEL) {
        Band::Daily(b) => if b >= 1 {
            1
        } else {
            2
        },
        Band::Weekly(b) => if b >= 1 {
            3
        } else {
            4
        },
        _ => 0,
    }
}

/// At the top level, an older stamp `b` never stands before the newer `a`,
/// and stands strictly after it when they are in different groups.
proof fn lemma_top_step(a: u64, b: u64, now: u64)
    requires
        b <= a < now,
    ensures
        0 <= top_rank(b, now) <= 4,
        top_rank(a, now) <= top_rank(b, now),
        !same_group(a, b, now, MAX_LEVEL) ==> top_rank(a, now) < top_rank(b, now),
{
    lemma_top_widths();
    let dw = day_width(MAX_LEVEL) as int;
    let ww = week_width(MAX_LEVEL) as int;
    assert((a as int) / dw <= 1) by (nonlinear_arith)
        requires
            0 <= a < 2 * dw,
            dw > 0,
    ;
    assert((b as int) / dw <= 1) by (nonlinear_arith)
        requires
            0 <= b < 2 * dw,
            dw > 0,
    ;
    assert((a as int) / ww <= 1) by (nonlinear_arith)
        requires
            0 <= a < 2 * ww,
            ww > 0,
    ;
    assert((b as int) / ww <= 1) by (nonlinear_arith)
        requires
            0 <= b < 2 * ww,
            ww > 0,
    ;
    vstd::arithmetic::div_mod::lemma_div_is_ordered(b as int, a as int, dw);
    vstd::arithmetic::div_mod::lemma_div_is_ordered(b as int, a as int, ww);
    assert(sat_sub(now, a) <= sat_sub(now, b));
    assert(sat_sub(a, b) <= sat_sub(now, b) - sat_sub(now, a));
}

/// How many of the first `m` stamps the top level keeps.
spec fn kept_below(ts: Seq<u64>, now: u64, m: int) -> nat
    decreases m,
{
    if m <= 0 {
        0
    } else {
        kept_below(ts, now, m - 1) + (if ladder_keeps(ts, now, MAX_LEVEL, m - 1) {
            1nat
        } else {
            0nat
        })
    }
}

proof fn lemma_top_count(ts: Seq<u64>, now: u64, m: int)
    requires
        newest_first(ts),
        0 <= m < ts.len(),
    ensures
        m == 0 ==> kept_below(ts, now, m) == 0,
        m > 0 && ts[m - 1] >= now ==> kept_below(ts, now, m) <= not_before(ts, now, m),
        m > 0 && ts[m - 1] < now ==> kept_below(ts, now, m) <= not_before(ts, now, m) + 2 + top_rank(
            ts[m - 1],
            now,
        ),
    decreases m,
{
    if m > 0 {
        let j = m - 1;
        lemma_top_count(ts, now, j);
        lemma_top_widths();
        if ts[j] < now {
            if j > 0 {
                assert(ts[j] <= ts[j - 1]);
                if ts[j - 1] < now {
                    lemma_top_step(ts[j - 1], ts[j], now);
                }
            }
            lemma_top_step(ts[j], ts[j], now);
        } else if j > 0 {
            assert(ts[j] <= ts[j - 1]);
        }
    }
}

proof fn lemma_top_total(ts: Seq<u64>, now: u64)
    requires
        newest_first(ts),
    ensures
        kept_below(ts, now, ts.len() as int) <= not_before(ts, now, ts.len() as int) + 7,
{
    let n = ts.len() as int;
    if n > 0 {
        lemma_top_count(ts, now, n - 1);
        if n > 1 && ts[n - 2] < now {
            lemma_top_step(ts[n - 2], ts[n - 2], now);
        }
    }
}

proof fn lemma_unpinned_le_kept(ts: Seq<u64>, now: u64, ps: Seq<bool>, m: int)
    requires
        0 <= m <= ts.len(),
    ensures
        unpinned_kept(keep_mask(ts, now, MAX_LEVEL).take(m), ps) <= kept_below(ts, now, m),
    decreases m,
{
    if m > 0 {
        lemma_unpinned_le_kept(ts, now, ps, m - 1);
        assert(keep_mask(ts, now, MAX_LEVEL).take(m).drop_last() =~= keep_mask(ts, now, MAX_LEVEL).take(m - 1));
    }
}

proof fn lemma_chosen_level_fits(ts: Seq<u64>, pinned: Seq<bool>, now: u64, k: u32)
    ensures
        chosen_level(ts, pinned, now, k) < MAX_LEVEL ==> unpinned_kept(
            keep_mask(ts, now, chosen_level(ts, pinned, now, k)),
            pinned,
        ) <= MAX_TOTAL,
    decreases MAX_LEVEL - k,
{
    if !(k >= MAX_LEVEL || unpinned_kept(keep_mask(ts, now, k), pinned) <= MAX_TOTAL) {
        lemma_chosen_level_fits(ts, pinned, now, (k + 1) as u32);
    }
}

/// A prune keeps the survivors in their order and nothing else: the result
/// is the survivors' subsequence, and it is never longer than the input.
pub proof fn lemma_retained_len<T>(s: Seq<T>, m: Seq<bool>)
    requires
        m.len() == s.len(),
    ensures
        retained(s, m).len() <= s.len(),
    decreases s.len(),
{
    if s.len() > 0 {
        lemma_retained_len(s.drop_first(), m.drop_first());
    }
}

/// Pruning is idempotent: a newest-first log pruned at `now` is left as it is
/// by a second prune at the same `now` (every survivor is the newest of its
/// own group, the newest, the oldest, fresh or pinned).
pub proof fn lemma_prune_idempotent(es: Seq<Entry>, now: u64)
    requires
        newest_first(stamps(es)),
    ensures
        retained(
            retained(es, survivors(es, now)),
            survivors(retained(es, survivors(es, now)), now),
        ) == retained(es, survivors(es, now)),
{
    let ts = stamps(es);
    let ps = pins(es);
    let l = chosen_level(ts, ps, now, 0);
    let m = survivors(es, now);
    let r = retained(es, m);
    let t = stamps(r);
    let p = pins(r);
    let l2 = chosen_level(t, p, now, 0);
    lemma_chosen_level_bounds(ts, ps, now, 0);
    lemma_chosen_level_bounds(t, p, now, 0);
    if l < MAX_LEVEL {
        lemma_chosen_level_fits(ts, ps, now, 0);
        lemma_unpinned_kept_congruent(keep_mask(ts, now, l), ps, m, ps);
        lemma_retained_unpinned(es, m);
        lemma_survivors_stay(es, now, 0);
        assert forall|j: int| 0 <= j < r.len() implies (keep_mask(t, now, 0)[j] && !p[j]) == (
        keep_all(r.len())[j] && !p[j]) by {
            assert(p[j] == r[j].pinned);
        }
        lemma_unpinned_kept_congruent(keep_mask(t, now, 0), p, keep_all(r.len()), p);
        assert(l2 == 0);
    }
    lemma_survivors_stay(es, now, l2);
    assert forall|j: int| 0 <= j < r.len() implies #[trigger] survivors(r, now)[j] by {
        assert(p[j] == r[j].pinned);
    }
    lemma_retained_keep_all(r, survivors(r, now));
}

/// Stamps newest first: never increasing along the log.
pub open spec fn newest_first(ts: Seq<u64>) -> bool {
    forall|i: int, j: int| 0 <= i <= j < ts.len() ==> ts[j] <= ts[i]
}

/// A higher ladder level is coarser: a narrower fresh window, a wider session
/// gap, and day and week buckets that are unions of the lower level's buckets
/// (the widths grow by the factors `m.0` and `m.1`).
proof fn lemma_ladder_coarsens(k: u32, l: u32) -> (m: (int, int))
    requires
        k <= l,
    ensures
        fresh_window(l) <= fresh_window(k) <= FRESH_MS,
        gap_width(k) <= gap_width(l),
        m.0 > 0,
        m.1 > 0,
        day_width(k) > 0,
        week_width(k) > 0,
        day_width(l) == day_width(k) * m.0,
        week_width(l) == week_width(k) * m.1,
{
    let fk: u32 = if k < 63 { k } else { 63 };
    let fl: u32 = if l < 63 { l } else { 63 };
    assert((900_000u64 >> fl) <= (900_000u64 >> fk) && (900_000u64 >> fk) <= 900_000u64)
        by (bit_vector)
        requires
            fk <= fl,
    ;
    let gk: u32 = if k < 44 { k } else { 44 };
    let gl: u32 = if l < 44 { l } else { 44 };
    assert((900_000u64 << gk) <= (900_000u64 << gl)) by (bit_vector)
        requires
            gk <= gl,
            gl <= 44,
    ;
    let dk: u32 = if k < 37 { k } else { 37 };
    let dl: u32 = if l < 37 { l } else { 37 };
    let dd: u32 = (dl - dk) as u32;
    assert((86_400_000u64 << dl) == (86_400_000u64 << dk) * (1u64 << dd) && (1u64 << dd) > 0
        && (86_400_000u64 << dk) > 0) by (bit_vector)
        requires
            dl == dk + dd,
            dl <= 37,
    ;
    let wk: u32 = if k < 34 { k } else { 34 };
    let wl: u32 = if l < 34 { l } else { 34 };
    let wd: u32 = (wl - wk) as u32;
    assert((604_800_000u64 << wl) == (604_800_000u64 << wk) * (1u64 << wd) && (1u64 << wd) > 0
        && (604_800_000u64 << wk) > 0) by (bit_vector)
        requires
            wl == wk + wd,
            wl <= 34,
    ;
    ((1u64 << dd) as int, (1u64 << wd) as int)
}

/// A group boundary of a coarser level survives at a finer one: when `b`'s
/// predecessor `p` is in another group at level `l`, anything at least as
/// new as `p` is in another group from `b` at every level `k <= l` (unless
/// `b` is fresh there, which keeps it anyway).
proof fn lemma_boundary_persists(a: u64, p: u64, b: u64, now: u64, k: u32, l: u32)
    requires
        b <= p <= a,
        k <= l,
        !same_group(p, b, now, l),
        band_of(b, now, k) != Band::Fresh,
    ensures
        !same_group(a, b, now, k),
{
    let m2 = lemma_ladder_coarsens(k, l);
    let dk = day_width(k) as int;
    let wk = week_width(k) as int;
    let dl = day_width(l) as int;
    let wl = week_width(l) as int;
    assert(sat_sub(now, a) <= sat_sub(now, p) <= sat_sub(now, b));
    match band_of(b, now, k) {
        Band::Session => {},
        Band::Daily(_) => {
            if band_of(a, now, k) is Daily && (a as int) / dk == (b as int) / dk {
                vstd::arithmetic::div_mod::lemma_div_denominator(a as int, dk, m2.0);
                vstd::arithmetic::div_mod::lemma_div_denominator(b as int, dk, m2.0);
                vstd::arithmetic::div_mod::lemma_div_is_ordered(b as int, p as int, dl);
                vstd::arithmetic::div_mod::lemma_div_is_ordered(p as int, a as int, dl);
                assert((a as int) / dl == (b as int) / dl);
                assert(false);
            }
        },
        Band::Weekly(_) => {
            if band_of(a, now, k) is Weekly && (a as int) / wk == (b as int) / wk {
                vstd::arithmetic::div_mod::lemma_div_denominator(a as int, wk, m2.1);
                vstd::arithmetic::div_mod::lemma_div_denominator(b as int, wk, m2.1);
                vstd::arithmetic::div_mod::lemma_div_is_ordered(b as int, p as int, wl);
                vstd::arithmetic::div_mod::lemma_div_is_ordered(p as int, a as int, wl);
                assert((a as int) / wl == (b as int) / wl);
                assert(false);
            }
        },
        Band::Fresh => {},
    }
}

/// A higher ladder level keeps no more than a lower one: over stamps newest
/// first, every snapshot that level `l` keeps is kept at each level `k <= l`;
/// and every level keeps the newest and the oldest.
pub proof fn lemma_higher_level_keeps_less(ts: Seq<u64>, now: u64, k: u32, l: u32)
    requires
        newest_first(ts),
        k <= l,
    ensures
        forall|j: int| 0 <= j < ts.len() && #[trigger] keep_mask(ts, now, l)[j] ==> keep_mask(ts, now, k)[j],
        ts.len() > 0 ==> keep_mask(ts, now, l)[0] && keep_mask(ts, now, l)[ts.len() - 1],
{
    assert forall|j: int| 0 <= j < ts.len() && #[trigger] keep_mask(ts, now, l)[j] implies keep_mask(ts, now, k)[j] by {
        lemma_ladder_coarsens(k, l);
        if j > 0 && j < ts.len() - 1 && band_of(ts[j], now, k) != Band::Fresh && band_of(ts[j], now, l) != Band::Fresh {
            lemma_boundary_persists(ts[j - 1], ts[j - 1], ts[j], now, k, l);
        }
    }
}

/// The position in `m` of its `i`-th set bit.
spec fn sel(m: Seq<bool>, i: int) -> int
    decreases m.len(),
{
    if m.len() == 0 {
        0
    } else if m[0] {
        if i == 0 {
            0
        } else {
            1 + sel(m.drop_first(), i - 1)
        }
    } else {
        1 + sel(m.drop_first(), i)
    }
}

/// The `i`-th retained element is the element at the `i`-th set bit, and the
/// set bits are visited in order.
proof fn lemma_retained_sel<T>(s: Seq<T>, m: Seq<bool>)
    requires
        m.len() == s.len(),
    ensures
        forall|i: int|
            0 <= i < retained(s, m).len() ==> 0 <= #[trigger] sel(m, i) < s.len() && m[sel(m, i)]
                && retained(s, m)[i] == s[sel(m, i)],
        forall|i: int, i2: int|
            0 <= i < i2 < retained(s, m).len() ==> #[trigger] sel(m, i) < #[trigger] sel(m, i2),
    decreases s.len(),
{
    if s.len() > 0 {
        let r = retained(s, m);
        let r1 = retained(s.drop_first(), m.drop_first());
        lemma_retained_sel(s.drop_first(), m.drop_first());
        if m[0] {
            assert(r == seq![s[0]] + r1);
            assert forall|i: int| 0 <= i < r.len() implies 0 <= #[trigger] sel(m, i) < s.len()
                && m[sel(m, i)] && r[i] == s[sel(m, i)] by {
                if i > 0 {
                    assert(sel(m.drop_first(), i - 1) >= 0);
                }
            }
            assert forall|i: int, i2: int| 0 <= i < i2 < r.len() implies #[trigger] sel(m, i)
                < #[trigger] sel(m, i2) by {
                assert(sel(m.drop_first(), i2 - 1) >= 0);
                if i > 0 {
                    assert(sel(m.drop_first(), i - 1) < sel(m.drop_first(), i2 - 1));
                }
            }
        } else {
            assert(r == r1);
            assert forall|i: int| 0 <= i < r.len() implies 0 <= #[trigger] sel(m, i) < s.len()
                && m[sel(m, i)] && r[i] == s[sel(m, i)] by {
                assert(sel(m.drop_first(), i) >= 0);
            }
            assert forall|i: int, i2: int| 0 <= i < i2 < r.len() implies #[trigger] sel(m, i)
                < #[trigger] sel(m, i2) by {
                assert(sel(m.drop_first(), i) < sel(m.drop_first(), i2));
            }
        }
    }
}

/// Every snapshot a prune keeps un-pinned is kept again, at any ladder level
/// up to the one the prune settled on, when the pruned log is laddered anew.
proof fn lemma_survivors_stay(es: Seq<Entry>, now: u64, k: u32)
    requires
        newest_first(stamps(es)),
        k <= chosen_level(stamps(es), pins(es), now, 0),
    ensures
        forall|i: int|
            0 <= i < retained(es, survivors(es, now)).len() ==> retained(
                es,
                survivors(es, now),
            )[i].pinned || #[trigger] keep_mask(
                stamps(retained(es, survivors(es, now))),
                now,
                k,
            )[i],
{
    let ts = stamps(es);
    let ps = pins(es);
    let l = chosen_level(ts, ps, now, 0);
    let m = survivors(es, now);
    let r = retained(es, m);
    let t = stamps(r);
    lemma_retained_sel(es, m);
    let fw = lemma_ladder_coarsens(k, l);
    assert forall|i: int| 0 <= i < r.len() implies r[i].pinned || #[trigger] keep_mask(
        t,
        now,
        k,
    )[i] by {
        if !r[i].pinned && 0 < i < r.len() - 1 && band_of(t[i], now, k) != Band::Fresh {
            let j = sel(m, i);
            let jp = sel(m, i - 1);
            let jn = sel(m, i + 1);
            assert(m[j]);
            assert(r[i] == es[j]);
            assert(!ps[j]);
            assert(keep_mask(ts, now, l)[j]);
            assert(sel(m, 0) <= jp < j < jn);
            assert(ladder_keeps(ts, now, l, j));
            assert(band_of(ts[j], now, l) != Band::Fresh);
            assert(!same_group(ts[j - 1], ts[j], now, l));
            assert(ts[j] <= ts[j - 1] <= ts[jp]);
            lemma_boundary_persists(ts[jp], ts[j - 1], ts[j], now, k, l);
            assert(t[i - 1] == ts[jp]);
            assert(t[i] == ts[j]);
        }
    }
}

/// A mask that keeps all of `n` positions.
spec fn keep_all(n: nat) -> Seq<bool> {
    Seq::new(n, |j: int| true)
}

/// The un-pinned count depends only on which positions are kept un-pinned.
proof fn lemma_unpinned_kept_congruent(a: Seq<bool>, p: Seq<bool>, b: Seq<bool>, q: Seq<bool>)
    requires
        a.len() == b.len(),
        forall|j: int| 0 <= j < a.len() ==> (a[j] && !p[j]) == (b[j] && !q[j]),
    ensures
        unpinned_kept(a, p) == unpinned_kept(b, q),
    decreases a.len(),
{
    if a.len() > 0 {
        lemma_unpinned_kept_congruent(a.drop_last(), p, b.drop_last(), q);
    }
}

/// Retaining by a mask, split off at the last position.
proof fn lemma_retained_snoc<T>(s: Seq<T>, m: Seq<bool>)
    requires
        s.len() == m.len(),
        s.len() > 0,
    ensures
        retained(s, m) == retained(s.drop_last(), m.drop_last()) + (if m.last() {
            seq![s.last()]
        } else {
            seq![]
        }),
    decreases s.len(),
{
    if s.len() == 1 {
        assert(s.drop_last() =~= Seq::<T>::empty());
        assert(retained(s.drop_first(), m.drop_first()) == Seq::<T>::empty());
        assert(retained(s, m) =~= retained(s.drop_last(), m.drop_last()) + (if m.last() {
            seq![s.last()]
        } else {
            seq![]
        }));
    } else {
        lemma_retained_snoc(s.drop_first(), m.drop_first());
        assert(s.drop_first().drop_last() =~= s.drop_last().drop_first());
        assert(m.drop_first().drop_last() =~= m.drop_last().drop_first());
        assert(retained(s, m) =~= retained(s.drop_last(), m.drop_last()) + (if m.last() {
            seq![s.last()]
        } else {
            seq![]
        }));
    }
}

/// The un-pinned entries a mask keeps are the un-pinned entries of what it
/// retains.
proof fn lemma_retained_unpinned(es: Seq<Entry>, m: Seq<bool>)
    requires
        m.len() == es.len(),
    ensures
        unpinned_kept(m, pins(es)) == unpinned_kept(
            keep_all(retained(es, m).len()),
            pins(retained(es, m)),
        ),
    decreases es.len(),
{
    let r = retained(es, m);
    if es.len() == 0 {
        assert(r.len() == 0);
    } else {
        let es1 = es.drop_last();
        let m1 = m.drop_last();
        let r1 = retained(es1, m1);
        lemma_retained_snoc(es, m);
        lemma_retained_unpinned(es1, m1);
        lemma_unpinned_kept_congruent(m1, pins(es), m1, pins(es1));
        if m.last() {
            assert(keep_all(r.len()).drop_last() =~= keep_all(r1.len()));
            lemma_unpinned_kept_congruent(keep_all(r1.len()), pins(r), keep_all(r1.len()), pins(r1));
            assert(pins(r)[r.len() - 1] == es.last().pinned);
        } else {
            assert(r =~= r1);
        }
    }
}

/// Retaining with a mask that keeps everything changes nothing.
proof fn lemma_retained_keep_all<T>(s: Seq<T>, m: Seq<bool>)
    requires
        m.len() == s.len(),
        forall|j: int| 0 <= j < m.len() ==> m[j],
    ensures
        retained(s, m) == s,
    decreases s.len(),
{
    if s.len() > 0 {
        lemma_retained_keep_all(s.drop_first(), m.drop_first());
        assert(retained(s, m) =~= s);
    }
}

/// The level a prune settles on lies between where the climb starts and the
/// top of the ladder.
proof fn lemma_chosen_level_bounds(ts: Seq<u64>, pinned: Seq<bool>, now: u64, k: u32)
    requires
        k <= MAX_LEVEL,
    ensures
        k <= chosen_level(ts, pinned, now, k) <= MAX_LEVEL,
    decreases MAX_LEVEL - k,
{
    if !(k >= MAX_LEVEL || unpinned_kept(keep_mask(ts, now, k), pinned) <= MAX_TOTAL) {
        lemma_chosen_level_bounds(ts, pinned, now, (k + 1) as u32);
    }
}

} // verus!

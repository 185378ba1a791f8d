use awl::facets::FacetItem;
use awl::fs::{leaf_name, parent, FileSystem, InMemoryFs};
use awl::history::now_millis;
use awl::history::codec::{parse_log, parse_log_checked, serialize_log, Entry};
use awl::history::picker::{
    append_clock_when_shared, auto_description, civil_date, clamp_line_col, clock_hm, first_changed_line,
    history_bucket, line_diff_counts, relative_label, rows_from, same_utc_day, source_path, timeline_rows,
    EXCERPT_CHARS,
};
use awl::history::prune::{prune_ladder, DAY_MS, MAX_TOTAL};
use awl::history::store::{
    git_repo_root, is_git_managed, list, load, log_path, parse_git_log_line, read_log, record, record_at,
    record_pinned, write_log, Snapshot,
};

const DATA: &str = "/data";
const DAY: u64 = 86_400_000;

fn rec(fs: &mut InMemoryFs, p: &str, content: &str) {
    record(fs, DATA, p, content, true).unwrap();
}

fn snaps_of(fs: &mut InMemoryFs, p: &str) -> Vec<Snapshot> {
    list(fs, DATA, p, None)
}

fn load_of(fs: &mut InMemoryFs, p: &str, id: &str) -> Option<String> {
    load(fs, DATA, p, id, None)
}

fn entry(ts: u64, content: &str, pinned: bool) -> Entry {
    Entry { ts, content: content.to_string(), pinned, name: None }
}

fn entries_aged(now: u64, ages: &[u64]) -> Vec<Entry> {
    let mut v: Vec<Entry> = ages.iter().map(|a| entry(now - a, &format!("v@{a}"), false)).collect();
    v.sort_by(|a, b| b.ts.cmp(&a.ts));
    v
}

#[test]
fn tests_save_writes_a_snapshot_then_list_and_load_round_trip() {
    let p = "/notes/draft.md";
    let mut fs = InMemoryFs::new();
    rec(&mut fs, p, "first body\nwith two lines");
    let snaps = snaps_of(&mut fs, p);
    assert_eq!(snaps.len(), 1, "one snapshot recorded");
    assert_eq!(
        load_of(&mut fs, p, &snaps[0].id).as_deref(),
        Some("first body\nwith two lines"),
        "content round-trips byte-for-byte"
    );
}

#[test]
fn tests_list_is_newest_first() {
    let p = "/notes/a.md";
    let mut fs = InMemoryFs::new();
    rec(&mut fs, p, "one");
    rec(&mut fs, p, "two");
    let snaps = snaps_of(&mut fs, p);
    assert_eq!(snaps.len(), 2, "both distinct saves kept");
    assert!(snaps[0].timestamp >= snaps[1].timestamp, "newest first");
    assert_eq!(load_of(&mut fs, p, &snaps[0].id).as_deref(), Some("two"));
    assert_eq!(load_of(&mut fs, p, &snaps[1].id).as_deref(), Some("one"));
}

#[test]
fn tests_unchanged_content_is_not_re_snapshotted() {
    let p = "/notes/same.md";
    let mut fs = InMemoryFs::new();
    rec(&mut fs, p, "steady");
    rec(&mut fs, p, "steady");
    rec(&mut fs, p, "steady");
    assert_eq!(snaps_of(&mut fs, p).len(), 1, "identical re-saves dedup to one");
}

#[test]
fn tests_ladder_keeps_everything_under_15_min() {
    let now = 1_700_000_000_000u64;
    let mut e = entries_aged(now, &[0, 30_000, 60_000, 5 * 60_000, 14 * 60_000]);
    prune_ladder(&mut e, now);
    assert_eq!(e.len(), 5, "everything <= 15 min old is kept");
}

#[test]
fn tests_ladder_one_survivor_per_session_15min_to_24h() {
    let now = 1_700_000_000_000u64;
    let hr = 3_600_000u64;
    let mut e = entries_aged(
        now,
        &[2 * hr, 2 * hr + 10 * 60_000, 2 * hr + 20 * 60_000, 5 * hr, 5 * hr + 10 * 60_000, 8 * hr],
    );
    prune_ladder(&mut e, now);
    let kept: Vec<u64> = e.iter().map(|e| now - e.ts).collect();
    assert_eq!(kept, vec![2 * hr, 5 * hr, 8 * hr], "each session's NEWEST snapshot survives: {kept:?}");
}

#[test]
fn tests_ladder_one_per_day_to_30_days_newest_survives() {
    let now = 1_700_000_000_000u64;
    let day = DAY_MS;
    let mut e = entries_aged(now, &[5 * day, 5 * day + 3_600_000, 5 * day + 7_200_000, 9 * day]);
    prune_ladder(&mut e, now);
    assert_eq!(e.len(), 2, "one per day in the daily band");
    let kept: Vec<u64> = e.iter().map(|e| now - e.ts).collect();
    assert_eq!(kept, vec![5 * day, 9 * day], "the newest of each day: {kept:?}");
}

#[test]
fn tests_ladder_one_per_week_beyond_30_days() {
    let now = 1_700_000_000_000u64;
    let day = DAY_MS;
    let ages: Vec<u64> = (35..49).map(|d| d * day).collect();
    let mut e = entries_aged(now, &ages);
    prune_ladder(&mut e, now);
    assert!(e.len() >= 2 && e.len() <= 4, "14 old daily saves collapse to ~one per week: {}", e.len());
    assert!(e.iter().any(|e| now - e.ts == 48 * day), "the oldest snapshot survives (memory, not resolution)");
}

#[test]
fn tests_ladder_cap_150_escalates_never_fifo() {
    let now = 1_700_000_000_000u64;
    let day = DAY_MS;
    let mut ages: Vec<u64> = (0..365).map(|i| 2 * day + i * 3 * day).collect();
    ages.extend([0u64, 60_000, 120_000]);
    let oldest_age = *ages.iter().max().unwrap();
    let mut e = entries_aged(now, &ages);
    prune_ladder(&mut e, now);
    assert!(e.len() <= MAX_TOTAL, "cap holds: {}", e.len());
    assert!(e.iter().any(|e| now - e.ts == oldest_age), "the OLDEST snapshot survives the cap (never FIFO)");
    assert!(e.iter().any(|e| now - e.ts == 0), "the newest snapshot survives too");
}

#[test]
fn tests_ladder_is_deterministic_and_idempotent() {
    let now = 1_700_000_000_000u64;
    let day = DAY_MS;
    let ages: Vec<u64> = vec![
        0, 5 * 60_000, 2 * 3_600_000, 2 * 3_600_000 + 5 * 60_000,
        3 * day, 3 * day + 3_600_000, 40 * day, 41 * day, 200 * day,
    ];
    let mut a = entries_aged(now, &ages);
    let mut b = entries_aged(now, &ages);
    prune_ladder(&mut a, now);
    prune_ladder(&mut b, now);
    assert_eq!(a, b, "deterministic for a fixed now");
    let once = a.clone();
    prune_ladder(&mut a, now);
    assert_eq!(a, once, "prune of pruned is a no-op");
}

#[test]
fn tests_record_at_prunes_with_injected_clock() {
    let p = "/notes/ladder.md";
    let mut fs = InMemoryFs::new();
    let t0 = 1_700_000_000_000u64;
    for i in 0..40u64 {
        record_at(&mut fs, DATA, p, &format!("v{i}"), true, t0 + i * 60_000, false, None).unwrap();
    }
    let snaps = snaps_of(&mut fs, p);
    assert!(snaps.len() < 40, "the ladder pruned the stale burst");
    assert_eq!(load_of(&mut fs, p, &snaps[0].id).as_deref(), Some("v39"), "the newest save always survives");
}

#[test]
fn tests_git_managed_file_is_detected_and_skips_awl_snapshots() {
    let p = "/repo/src/main.rs";
    let mut fs = InMemoryFs::new().with_dir("/repo/.git");
    assert!(is_git_managed(&fs, p), "`.git` ancestor detected");
    assert_eq!(git_repo_root(&fs, p).as_deref(), Some("/repo"), "repo root is the `.git` parent");
    rec(&mut fs, p, "fn main() {}");
    assert!(fs.read(&log_path(DATA, p)).is_err(), "no awl snapshot log for a git-managed file");
}

#[test]
fn tests_record_inside_git_repo_writes_nothing_ever() {
    let p = "/repo/src/notes.md";
    let mut fs = InMemoryFs::new().with_dir("/repo/.git");
    assert!(is_git_managed(&fs, p), "the seeded `.git` ancestor is detected");
    rec(&mut fs, p, "v1");
    record_at(&mut fs, DATA, p, "v2", true, 1_700_000_000_000, false, None).unwrap();
    assert!(fs.read(&log_path(DATA, p)).is_err(), "no awl snapshot log for a git-managed file, from any path");
    record(&mut fs, DATA, p, "v3", false).unwrap();
    assert!(fs.read(&log_path(DATA, p)).is_err());
}

#[test]
fn tests_parse_git_log_line_extracts_hash_secs_subject() {
    let s = parse_git_log_line("abc123 1700000000 fix: the thing, twice").expect("well-formed line parses");
    assert_eq!(s.id, "abc123");
    assert_eq!(s.timestamp, 1_700_000_000_000);
    assert_eq!(s.subject.as_deref(), Some("fix: the thing, twice"));
    let bare = parse_git_log_line("def456 1700000001").expect("subject-less parses");
    assert_eq!(bare.subject, None);
    let trailing = parse_git_log_line("def456 1700000001 ").expect("trailing space");
    assert_eq!(trailing.subject, None);
    assert!(parse_git_log_line("").is_none());
    assert!(parse_git_log_line("onlyhash").is_none());
    assert!(parse_git_log_line("hash notasecond subject").is_none());
}

#[test]
fn tests_a_loose_file_beside_a_repo_is_not_git_managed() {
    let p = "/notes/loose.md";
    let mut fs = InMemoryFs::new().with_dir("/repo/.git");
    assert!(!is_git_managed(&fs, p), "no `.git` ancestor → loose");
    rec(&mut fs, p, "loose note");
    assert_eq!(snaps_of(&mut fs, p).len(), 1, "loose file gets an awl snapshot");
}

#[test]
fn tests_history_off_disables_snapshots() {
    let p = "/notes/off.md";
    let mut fs = InMemoryFs::new();
    record(&mut fs, DATA, p, "nothing kept", false).unwrap();
    assert!(snaps_of(&mut fs, p).is_empty(), "history off → no snapshots");
}

#[test]
fn tests_log_round_trips_content_with_newlines_and_spaces() {
    let entries = vec![entry(1_000, "line one\nline two\n", true), entry(999, "a b  c\nd", false)];
    let bytes = serialize_log(&entries);
    assert_eq!(parse_log(&bytes), entries, "serialize→parse is lossless");
}

#[test]
fn tests_fnv_is_stable_and_path_keyed() {
    assert_eq!(log_path(DATA, "/a"), log_path(DATA, "/a"));
    assert_ne!(log_path(DATA, "/a"), log_path(DATA, "/b"));
}

#[test]
fn tests_relative_label_reads_the_time_gap_humanly() {
    let now: u64 = 10_000 * 24 * 60 * 60 * 1000;
    let min: u64 = 60 * 1000;
    let hr = 60 * min;
    let day = 24 * hr;
    assert_eq!(relative_label(now, now), "just now");
    assert_eq!(relative_label(now, now - 30 * 1000), "just now");
    assert_eq!(relative_label(now, now - 2 * min), "2 min ago");
    assert_eq!(relative_label(now, now - 3 * hr), "3 hr ago");
    assert_eq!(relative_label(now, now - 1 * day - hr), "yesterday");
    assert_eq!(relative_label(now, now - 4 * day), "4 days ago");
    assert_eq!(relative_label(now, now - 30 * day), civil_date((now - 30 * day) / 1000));
    assert_eq!(civil_date(0), "1970-01-01");
    assert_eq!(relative_label(now, now + day), "just now");
}

#[test]
fn tests_line_diff_counts_are_add_minus_remove_vs_current() {
    assert_eq!(line_diff_counts("a\nb\nc", "a\nb\nc"), (0, 0));
    assert_eq!(line_diff_counts("a\nb\nc", "a\nc"), (0, 1));
    assert_eq!(line_diff_counts("a\nc", "a\nb\nc"), (1, 0));
    assert_eq!(line_diff_counts("a\nb\nc", "a\nB\nc"), (1, 1));
    assert_eq!(line_diff_counts("", "x\ny"), (2, 0));
    let big_old: String = (0..3000).map(|i| format!("l{i}\n")).collect();
    let big_new: String = (0..3001).map(|i| format!("l{i}\n")).collect();
    let (add, rem) = line_diff_counts(&big_old, &big_new);
    assert_eq!((add, rem), (1, 0), "fallback multiset diff counts the one added line");
}

#[test]
fn tests_timeline_rows_are_newest_first_with_labels_and_counts() {
    let p = "/notes/timeline.md";
    let mut fs = InMemoryFs::new();
    rec(&mut fs, p, "one\ntwo");
    rec(&mut fs, p, "one\ntwo\nthree");
    let now = now_millis();
    let rows = timeline_rows(&mut fs, DATA, p, "one\ntwo\nthree", now);
    assert_eq!(rows.len(), 2, "both versions listed");
    assert_eq!(rows[0].counts, "+0 \u{2212}0");
    assert_eq!(load_of(&mut fs, p, &rows[0].id).as_deref(), Some("one\ntwo\nthree"));
    assert_eq!(rows[1].counts, "+0 \u{2212}1");
    assert_eq!(load_of(&mut fs, p, &rows[1].id).as_deref(), Some("one\ntwo"));
    assert!(!rows[0].when.is_empty() && !rows[1].when.is_empty());
    assert_eq!(rows[0].which, "three");
}

#[test]
fn tests_timeline_rows_empty_for_a_file_with_no_history() {
    let p = "/notes/fresh.md";
    let mut fs = InMemoryFs::new();
    assert!(timeline_rows(&mut fs, DATA, p, "scratch", now_millis()).is_empty());
}

fn snap(id: &str, timestamp: u64, subject: Option<&str>) -> Snapshot {
    Snapshot { id: id.to_string(), timestamp, subject: subject.map(|s| s.to_string()), pinned: false, name: None }
}

#[test]
fn same_utc_day_compares_day_indices() {
    let base = 100 * DAY + 5_000;
    assert!(same_utc_day(base, 100 * DAY + DAY - 1));
    assert!(!same_utc_day(base, 101 * DAY));
    assert!(!same_utc_day(base, 99 * DAY + DAY - 1));
}

#[test]
fn history_bucket_sessions_and_today_by_injected_clock() {
    let now = 100 * DAY + 3_000;
    let session_start = 100 * DAY;
    let item = |ts: u64| FacetItem {
        accept: "",
        is_dir: false,
        is_git: false,
        recent: false,
        heading: false,
        ts: Some(ts),
        now: Some(now),
        session_start: Some(session_start),
    };
    assert_eq!(history_bucket(item(session_start + 10), 1), Some("Session"));
    assert_eq!(history_bucket(item(session_start - 10), 1), None);
    assert_eq!(history_bucket(item(100 * DAY + 1), 2), Some("Today"));
    assert_eq!(history_bucket(item(99 * DAY + 1), 2), None);
    let mid = 100 * DAY + 2_000;
    let it2 = FacetItem { session_start: Some(mid), ..item(100 * DAY + 1_000) };
    assert_eq!(history_bucket(it2, 1), None, "before this session's start");
    assert_eq!(history_bucket(it2, 2), Some("Today"), "still the same day");
}

#[test]
fn history_bucket_is_inert_without_a_clock_the_determinism_gate() {
    let headless = FacetItem {
        accept: "",
        is_dir: false,
        is_git: false,
        recent: false,
        heading: false,
        ts: Some(100 * DAY),
        now: None,
        session_start: None,
    };
    assert_eq!(history_bucket(headless, 1), None, "Session inert with no clock");
    assert_eq!(history_bucket(headless, 2), None, "Today inert with no clock");
}

#[test]
fn timeline_row_carries_the_snapshot_timestamp() {
    let snaps = vec![snap("42", 42, None)];
    let rows = rows_from(&snaps, &["hi\n".to_string()], "hi\n", 1_000);
    assert_eq!(rows[0].timestamp, 42, "the row carries its stamp for bucketing");
}

#[test]
fn ladder_exempts_a_pinned_snapshot_its_unpinned_peer_would_lose() {
    let now = 20_000 * DAY_MS;
    let day = DAY_MS;
    let hr = 3_600_000u64;
    let base = || {
        vec![
            entry(now - (5 * day - 2 * hr), "A-newest", false),
            entry(now - (5 * day - hr), "B-middle", false),
            entry(now - 5 * day, "C-oldest", false),
        ]
    };
    let mut unpinned = base();
    prune_ladder(&mut unpinned, now);
    let kept: Vec<&str> = unpinned.iter().map(|e| e.content.as_str()).collect();
    assert_eq!(kept, vec!["A-newest", "C-oldest"], "un-pinned middle is pruned: {kept:?}");
    let mut pinned = base();
    pinned[1].pinned = true;
    prune_ladder(&mut pinned, now);
    let kept: Vec<&str> = pinned.iter().map(|e| e.content.as_str()).collect();
    assert_eq!(kept, vec!["A-newest", "B-middle", "C-oldest"], "the pinned middle survives the same prune: {kept:?}");
}

#[test]
fn ladder_pins_do_not_count_against_the_150_cap() {
    let now = 1_700_000_000_000u64;
    let day = DAY_MS;
    let mut pinned: Vec<Entry> = (0..200u64).map(|i| entry(now - (2 * day + i * 3 * day), &format!("v{i}"), true)).collect();
    prune_ladder(&mut pinned, now);
    assert_eq!(pinned.len(), 200, "every pinned snapshot survives the cap: {}", pinned.len());
}

#[test]
fn record_pinned_marks_the_snapshot_as_the_conscious_mark() {
    let p = "/notes/kept.md";
    let mut fs = InMemoryFs::new();
    record_pinned(&mut fs, DATA, p, "keep me", true, None).unwrap();
    let snaps = snaps_of(&mut fs, p);
    assert_eq!(snaps.len(), 1, "one snapshot recorded");
    assert!(snaps[0].pinned, "record_pinned lands the conscious mark");
}

#[test]
fn record_pinned_upgrades_the_already_newest_version_in_place() {
    let p = "/notes/pin-after-save.md";
    let mut fs = InMemoryFs::new();
    rec(&mut fs, p, "steady");
    assert!(!snaps_of(&mut fs, p)[0].pinned, "the plain save is un-pinned");
    record_pinned(&mut fs, DATA, p, "steady", true, None).unwrap();
    let snaps = snaps_of(&mut fs, p);
    assert_eq!(snaps.len(), 1, "no duplicate — the newest is upgraded in place");
    assert!(snaps[0].pinned, "the existing newest is now pinned");
}

#[test]
fn pinned_flag_round_trips_across_a_store_write_and_reload() {
    let p = "/notes/persist.md";
    let mut fs = InMemoryFs::new();
    rec(&mut fs, p, "v1");
    record_pinned(&mut fs, DATA, p, "v2", true, None).unwrap();
    let snaps = snaps_of(&mut fs, p);
    assert!(snaps[0].pinned && !snaps[1].pinned, "pin state persists per entry");
}

#[test]
fn named_keep_carries_its_name_through_the_store() {
    let p = "/notes/named.md";
    let mut fs = InMemoryFs::new();
    record_pinned(&mut fs, DATA, p, "draft one", true, Some("before the rewrite")).unwrap();
    let snaps = snaps_of(&mut fs, p);
    assert_eq!(snaps[0].name.as_deref(), Some("before the rewrite"));
    assert!(snaps[0].pinned);
}

#[test]
fn an_awlhist1_log_loads_with_every_entry_unpinned() {
    let bytes = b"awlhist1\n1000 5\nhello\n";
    assert_eq!(parse_log(bytes), vec![entry(1000, "hello", false)], "an old two-token header reads pinned = false");
}

#[test]
fn clock_hm_is_utc_zero_padded() {
    assert_eq!(clock_hm(0), "00:00");
    assert_eq!(clock_hm(9 * 3_600_000 + 5 * 60_000), "09:05");
    assert_eq!(clock_hm(23 * 3_600_000 + 59 * 60_000 + 59_000), "23:59");
    assert_eq!(clock_hm(3 * 86_400_000 + 14 * 3_600_000 + 32 * 60_000), "14:32");
}

#[test]
fn when_labels_gain_clock_time_only_when_siblings_share() {
    let now = 1_700_000_000_000u64;
    let hr = 3_600_000u64;
    let mut labels = vec![
        relative_label(now, now - 2 * hr),
        relative_label(now, now - 2 * hr - 20 * 60_000),
        relative_label(now, now - 5 * hr),
    ];
    assert_eq!(labels[0], labels[1], "the fixture really collides");
    assert_ne!(labels[0], labels[2]);
    let ts = vec![now - 2 * hr, now - 2 * hr - 20 * 60_000, now - 5 * hr];
    append_clock_when_shared(&mut labels, &ts);
    assert_eq!(labels[0], format!("2 hr ago {}", clock_hm(ts[0])));
    assert_eq!(labels[1], format!("2 hr ago {}", clock_hm(ts[1])));
    assert_eq!(labels[2], "5 hr ago", "a lone label stays bare");
}

#[test]
fn first_changed_line_covers_edit_append_delete_identical() {
    assert_eq!(first_changed_line("a\nb\nc", "a\nB\nc"), 1);
    assert_eq!(first_changed_line("a\nb", "a\nb\nc"), 2);
    assert_eq!(first_changed_line("a\nb\nc", "a\nb"), 1);
    assert_eq!(first_changed_line("a\nb", "a\nb"), 1);
    assert_eq!(first_changed_line("a\nb", ""), 0);
    assert_eq!(first_changed_line("", "x"), 0);
}

#[test]
fn auto_description_names_nearest_heading_above_change() {
    let prev = "# One flow\n\nbody a\n\n## Two flows, one engine\n\nbody b\n";
    let cur = "# One flow\n\nbody a\n\n## Two flows, one engine\n\nbody b CHANGED\n";
    assert_eq!(auto_description(prev, cur), "edited \"Two flows, one engine\"");
    let cur2 = "# One flow\n\nbody a CHANGED\n\n## Two flows, one engine\n\nbody b\n";
    assert_eq!(auto_description(prev, cur2), "edited \"One flow\"");
}

#[test]
fn auto_description_falls_back_to_first_changed_line_excerpt() {
    assert_eq!(auto_description("plain\nlines", "plain\nlines but changed"), "lines but changed");
    let long = "x".repeat(60);
    let desc = auto_description("", &long);
    assert_eq!(desc.chars().count(), EXCERPT_CHARS + 1, "cap + the ellipsis");
    assert!(desc.ends_with('\u{2026}'));
    assert_eq!(auto_description("was here", ""), "");
}

#[test]
fn rows_from_composes_when_which_counts_ids() {
    let now = 1_700_000_000_000u64;
    let day = 86_400_000u64;
    let snaps = vec![
        snap("abc123", now - 60_000, Some("fix: the engine")),
        snap("1000", now - 2 * day, None),
        snap("999", now - 40 * day, None),
    ];
    let contents = vec!["a\nb\nc".to_string(), "a\nb".to_string(), "a".to_string()];
    let rows = rows_from(&snaps, &contents, "a\nb\nc", now);
    assert_eq!(rows.len(), 3);
    assert_eq!(rows[0].which, "fix: the engine");
    assert_eq!(rows[0].id, "abc123");
    assert_eq!(rows[0].counts, "+0 \u{2212}0", "newest matches current");
    assert_eq!(rows[1].which, "b", "line 1 appeared vs the older \"a\"");
    assert_eq!(rows[1].counts, "+0 \u{2212}1");
    assert_eq!(rows[2].which, "a");
    assert_eq!(rows[2].counts, "+0 \u{2212}2");
    assert_eq!(rows[0].when, "1 min ago");
    assert_eq!(rows[1].when, "2 days ago");
    assert!(!rows[2].when.contains(':'), "date labels stay bare");
}

#[test]
fn clamp_line_col_bounds_cursor_into_preview() {
    assert_eq!(clamp_line_col("ab\ncd", 1, 1), (1, 1));
    assert_eq!(clamp_line_col("ab\ncd", 0, 99), (0, 2));
    assert_eq!(clamp_line_col("ab\ncd", 9, 4), (1, 2));
    assert_eq!(clamp_line_col("ab\n", 9, 9), (1, 0));
    assert_eq!(clamp_line_col("", 3, 7), (0, 0));
}

#[test]
fn ladder_two_bursts_with_quiet_gap_keep_each_bursts_newest_plus_origin() {
    let now = 1_700_000_000_000u64;
    let m = 60_000u64;
    let ages: Vec<u64> = vec![40 * m, 45 * m, 50 * m, 55 * m, 60 * m, 65 * m, 70 * m, 180 * m, 190 * m, 200 * m];
    let mut e = entries_aged(now, &ages);
    prune_ladder(&mut e, now);
    let kept: Vec<u64> = e.iter().map(|e| now - e.ts).collect();
    assert_eq!(kept, vec![40 * m, 180 * m, 200 * m], "each burst's newest + the protected origin: {kept:?}");
}

#[test]
fn ladder_session_gap_of_exactly_15_min_splits_sessions() {
    let now = 1_700_000_000_000u64;
    let m = 60_000u64;
    let mut e = entries_aged(now, &[16 * m, 31 * m, 46 * m]);
    prune_ladder(&mut e, now);
    assert_eq!(e.len(), 3, "a 15-min gap ends a session (strict <)");
}

#[test]
fn ladder_clock_rewind_overshoot_self_heals_once_time_advances() {
    let now = 1_700_000_000_000u64;
    let mut e: Vec<Entry> = (0..200u64).map(|i| entry(now + 200 - i, &format!("v{i}"), false)).collect();
    prune_ladder(&mut e, now);
    assert_eq!(e.len(), 200, "future stamps read fresh: a transient overshoot, never FIFO");
    let later = now + 200 + DAY_MS / 2;
    prune_ladder(&mut e, later);
    assert!(e.len() <= MAX_TOTAL, "cap re-enforced: {}", e.len());
    assert_eq!(e.len(), 2, "one session survivor + the protected origin: {}", e.len());
}

#[test]
fn source_path_prefers_buffer_then_file_then_scratch_stash() {
    let b = "/notes/buffer.md";
    let f = "/notes/file.md";
    assert_eq!(source_path(Some(b), Some(f), false, DATA).as_deref(), Some(b));
    assert_eq!(source_path(None, Some(f), false, DATA).as_deref(), Some(f));
    assert_eq!(source_path(None, None, false, DATA).as_deref(), Some("/data/scratch.md"));
    assert_eq!(source_path(None, None, true, DATA), None);
}

#[test]
fn parse_log_checked_trusts_a_clean_log_including_an_empty_body() {
    let entries = vec![entry(1, "x", false)];
    let (parsed, trusted) = parse_log_checked(&serialize_log(&entries));
    assert!(trusted, "a well-formed log is trusted");
    assert_eq!(parsed, entries);
    let (parsed, trusted) = parse_log_checked(&serialize_log(&[]));
    assert!(trusted, "an empty (magic-only) log is trusted, not corrupt");
    assert!(parsed.is_empty());
}

#[test]
fn parse_log_checked_distrusts_a_garbled_magic_line() {
    let (parsed, trusted) = parse_log_checked(b"not a log at all");
    assert!(!trusted);
    assert!(parsed.is_empty());
}

#[test]
fn parse_log_checked_distrusts_a_truncated_entry_but_still_returns_prior_survivors() {
    let full = vec![entry(3, "third", false), entry(2, "second", false), entry(1, "first", false)];
    let bytes = serialize_log(&full);
    let torn = &bytes[..bytes.len() - 3];
    let (parsed, trusted) = parse_log_checked(torn);
    assert!(!trusted, "a truncated entry must never read as trustworthy");
    assert_eq!(parsed, vec![full[0].clone(), full[1].clone()], "the two entries fully written before the tear still parse");
}

#[test]
fn read_log_preserves_a_corrupt_sibling_before_returning_the_lenient_partial_parse() {
    let p = "/notes/history-victim.md";
    let mut fs = InMemoryFs::new();
    let lp = log_path(DATA, p);
    fs.write(&lp, b"garbled beyond recognition").unwrap();
    let entries = read_log(&mut fs, DATA, p);
    assert!(entries.is_empty(), "an unrecoverable log degrades to empty");
    let dir = parent(&lp).unwrap();
    let names: Vec<String> = fs.read_dir(&dir).unwrap().into_iter().map(|e| e.name).collect();
    let backup_prefix = format!("{}.corrupt-", leaf_name(&lp));
    assert!(names.iter().any(|n| n.starts_with(&backup_prefix)), "the garbled original is preserved to a sibling: {names:?}");
    rec(&mut fs, p, "first snapshot after the corruption");
    let names_after: Vec<String> = fs.read_dir(&dir).unwrap().into_iter().map(|e| e.name).collect();
    assert!(
        names_after.iter().any(|n| n.starts_with(&backup_prefix)),
        "the sibling backup survives the very next write_log flush: {names_after:?}"
    );
    assert_eq!(snaps_of(&mut fs, p).len(), 1);
}

#[test]
fn read_log_never_backs_up_a_merely_empty_or_absent_log() {
    let p = "/notes/fresh.md";
    let mut fs = InMemoryFs::new().with_dir("/notes");
    assert!(read_log(&mut fs, DATA, p).is_empty());
    let lp = log_path(DATA, p);
    let dir = parent(&lp).unwrap();
    assert!(!fs.is_dir(&dir), "nothing was ever preserved for an absent log");
    write_log(&mut fs, DATA, p, &[]).unwrap();
    assert!(read_log(&mut fs, DATA, p).is_empty());
    let names: Vec<String> = fs.read_dir(&dir).unwrap().into_iter().map(|e| e.name).collect();
    assert!(!names.iter().any(|n| n.contains(".corrupt-")), "an intact empty log is not corruption: {names:?}");
}

#[test]
fn git_history_comes_from_the_git_log_when_at_hand() {
    let p = "/repo/notes.md";
    let mut fs = InMemoryFs::new().with_dir("/repo/.git");
    let log = "abc123 1700000000 first commit\ndef456 1700000100 second";
    let snaps = list(&mut fs, DATA, p, Some(log));
    assert_eq!(snaps.len(), 2);
    assert_eq!(snaps[0].id, "abc123");
    assert_eq!(snaps[1].subject.as_deref(), Some("second"));
    assert_eq!(load(&mut fs, DATA, p, "abc123", Some("body".to_string())).as_deref(), Some("body"));
}

use awl::fs::{FileSystem, InMemoryFs};
use awl::history::now_millis;
use awl::history::codec::{parse_log, serialize_log, Entry};
use awl::history::picker::{civil_date, line_diff_counts, relative_label, timeline_rows};
use awl::history::prune::{prune_ladder, DAY_MS, MAX_TOTAL};
use awl::history::store::{
    git_repo_root, is_git_managed, list, load, log_path, parse_git_log_line, record, record_at, Snapshot,
};

const DATA: &str = "/data";

fn rec(fs: &mut InMemoryFs, p: &str, content: &str) {
    record(fs, DATA, p, content, true).unwrap();
}

fn snaps_of(fs: &mut InMemoryFs, p: &str) -> Vec<Snapshot> {
    list(fs, DATA, p, None)
}

fn load_of(fs: &mut InMemoryFs, p: &str, id: &str) -> Option<String> {
    load(fs, DATA, p, id, None)
}

fn entry(ts: u64, content: &str, pinned: bool) -> Entry {
    Entry { ts, content: content.to_string(), pinned, name: None }
}

fn entries_aged(now: u64, ages: &[u64]) -> Vec<Entry> {
    let mut v: Vec<Entry> = ages.iter().map(|a| entry(now - a, &format!("v@{a}"), false)).collect();
    v.sort_by(|a, b| b.ts.cmp(&a.ts));
    v
}

#[test]
fn history_save_writes_a_snapshot_then_list_and_load_round_trip() {
    let p = "/notes/draft.md";
    let mut fs = InMemoryFs::new();
    rec(&mut fs, p, "first body\nwith two lines");
    let snaps = snaps_of(&mut fs, p);
    assert_eq!(snaps.len(), 1, "one snapshot recorded");
    assert_eq!(
        load_of(&mut fs, p, &snaps[0].id).as_deref(),
        Some("first body\nwith two lines"),
        "content round-trips byte-for-byte"
    );
}

#[test]
fn history_list_is_newest_first() {
    let p = "/notes/a.md";
    let mut fs = InMemoryFs::new();
    rec(&mut fs, p, "one");
    rec(&mut fs, p, "two");
    let snaps = snaps_of(&mut fs, p);
    assert_eq!(snaps.len(), 2, "both distinct saves kept");
    assert!(snaps[0].timestamp >= snaps[1].timestamp, "newest first");
    assert_eq!(load_of(&mut fs, p, &snaps[0].id).as_deref(), Some("two"));
    assert_eq!(load_of(&mut fs, p, &snaps[1].id).as_deref(), Some("one"));
}

#[test]
fn history_unchanged_content_is_not_re_snapshotted() {
    let p = "/notes/same.md";
    let mut fs = InMemoryFs::new();
    rec(&mut fs, p, "steady");
    rec(&mut fs, p, "steady");
    rec(&mut fs, p, "steady");
    assert_eq!(snaps_of(&mut fs, p).len(), 1, "identical re-saves dedup to one");
}

#[test]
fn history_ladder_keeps_everything_under_15_min() {
    let now = 1_700_000_000_000u64;
    let mut e = entries_aged(now, &[0, 30_000, 60_000, 5 * 60_000, 14 * 60_000]);
    prune_ladder(&mut e, now);
    assert_eq!(e.len(), 5, "everything <= 15 min old is kept");
}

#[test]
fn history_ladder_one_survivor_per_session_15min_to_24h() {
    let now = 1_700_000_000_000u64;
    let hr = 3_600_000u64;
    let mut e = entries_aged(
        now,
        &[2 * hr, 2 * hr + 10 * 60_000, 2 * hr + 20 * 60_000, 5 * hr, 5 * hr + 10 * 60_000, 8 * hr],
    );
    prune_ladder(&mut e, now);
    let kept: Vec<u64> = e.iter().map(|e| now - e.ts).collect();
    assert_eq!(kept, vec![2 * hr, 5 * hr, 8 * hr], "each session's NEWEST snapshot survives: {kept:?}");
}

#[test]
fn history_ladder_one_per_day_to_30_days_newest_survives() {
    let now = 1_700_000_000_000u64;
    let day = DAY_MS;
    let mut e = entries_aged(now, &[5 * day, 5 * day + 3_600_000, 5 * day + 7_200_000, 9 * day]);
    prune_ladder(&mut e, now);
    assert_eq!(e.len(), 2, "one per day in the daily band");
    let kept: Vec<u64> = e.iter().map(|e| now - e.ts).collect();
    assert_eq!(kept, vec![5 * day, 9 * day], "the newest of each day: {kept:?}");
}

#[test]
fn history_ladder_one_per_week_beyond_30_days() {
    let now = 1_700_000_000_000u64;
    let day = DAY_MS;
    let ages: Vec<u64> = (35..49).map(|d| d * day).collect();
    let mut e = entries_aged(now, &ages);
    prune_ladder(&mut e, now);
    assert!(e.len() >= 2 && e.len() <= 4, "14 old daily saves collapse to ~one per week: {}", e.len());
    assert!(e.iter().any(|e| now - e.ts == 48 * day), "the oldest snapshot survives (memory, not resolution)");
}

#[test]
fn history_ladder_cap_150_escalates_never_fifo() {
    let now = 1_700_000_000_000u64;
    let day = DAY_MS;
    let mut ages: Vec<u64> = (0..365).map(|i| 2 * day + i * 3 * day).collect();
    ages.extend([0u64, 60_000, 120_000]);
    let oldest_age = *ages.iter().max().unwrap();
    let mut e = entries_aged(now, &ages);
    prune_ladder(&mut e, now);
    assert!(e.len() <= MAX_TOTAL, "cap holds: {}", e.len());
    assert!(e.iter().any(|e| now - e.ts == oldest_age), "the OLDEST snapshot survives the cap (never FIFO)");
    assert!(e.iter().any(|e| now - e.ts == 0), "the newest snapshot survives too");
}

#[test]
fn history_ladder_is_deterministic_and_idempotent() {
    let now = 1_700_000_000_000u64;
    let day = DAY_MS;
    let ages: Vec<u64> = vec![
        0, 5 * 60_000, 2 * 3_600_000, 2 * 3_600_000 + 5 * 60_000,
        3 * day, 3 * day + 3_600_000, 40 * day, 41 * day, 200 * day,
    ];
    let mut a = entries_aged(now, &ages);
    let mut b = entries_aged(now, &ages);
    prune_ladder(&mut a, now);
    prune_ladder(&mut b, now);
    assert_eq!(a, b, "deterministic for a fixed now");
    let once = a.clone();
    prune_ladder(&mut a, now);
    assert_eq!(a, once, "prune of pruned is a no-op");
}

#[test]
fn history_record_at_prunes_with_injected_clock() {
    let p = "/notes/ladder.md";
    let mut fs = InMemoryFs::new();
    let t0 = 1_700_000_000_000u64;
    for i in 0..40u64 {
        record_at(&mut fs, DATA, p, &format!("v{i}"), true, t0 + i * 60_000, false, None).unwrap();
    }
    let snaps = snaps_of(&mut fs, p);
    assert!(snaps.len() < 40, "the ladder pruned the stale burst");
    assert_eq!(load_of(&mut fs, p, &snaps[0].id).as_deref(), Some("v39"), "the newest save always survives");
}

#[test]
fn history_git_managed_file_is_detected_and_skips_awl_snapshots() {
    let p = "/repo/src/main.rs";
    let mut fs = InMemoryFs::new().with_dir("/repo/.git");
    assert!(is_git_managed(&fs, p), "`.git` ancestor detected");
    assert_eq!(git_repo_root(&fs, p).as_deref(), Some("/repo"), "repo root is the `.git` parent");
    rec(&mut fs, p, "fn main() {}");
    assert!(fs.read(&log_path(DATA, p)).is_err(), "no awl snapshot log for a git-managed file");
}

#[test]
fn history_record_inside_git_repo_writes_nothing_ever() {
    let p = "/repo/src/notes.md";
    let mut fs = InMemoryFs::new().with_dir("/repo/.git");
    assert!(is_git_managed(&fs, p), "the seeded `.git` ancestor is detected");
    rec(&mut fs, p, "v1");
    record_at(&mut fs, DATA, p, "v2", true, 1_700_000_000_000, false, None).unwrap();
    assert!(fs.read(&log_path(DATA, p)).is_err(), "no awl snapshot log for a git-managed file, from any path");
    record(&mut fs, DATA, p, "v3", false).unwrap();
    assert!(fs.read(&log_path(DATA, p)).is_err());
}

#[test]
fn history_parse_git_log_line_extracts_hash_secs_subject() {
    let s = parse_git_log_line("abc123 1700000000 fix: the thing, twice").expect("well-formed line parses");
    assert_eq!(s.id, "abc123");
    assert_eq!(s.timestamp, 1_700_000_000_000);
    assert_eq!(s.subject.as_deref(), Some("fix: the thing, twice"));
    let bare = parse_git_log_line("def456 1700000001").expect("subject-less parses");
    assert_eq!(bare.subject, None);
    let trailing = parse_git_log_line("def456 1700000001 ").expect("trailing space");
    assert_eq!(trailing.subject, None);
    assert!(parse_git_log_line("").is_none());
    assert!(parse_git_log_line("onlyhash").is_none());
    assert!(parse_git_log_line("hash notasecond subject").is_none());
}

#[test]
fn history_a_loose_file_beside_a_repo_is_not_git_managed() {
    let p = "/notes/loose.md";
    let mut fs = InMemoryFs::new().with_dir("/repo/.git");
    assert!(!is_git_managed(&fs, p), "no `.git` ancestor → loose");
    rec(&mut fs, p, "loose note");
    assert_eq!(snaps_of(&mut fs, p).len(), 1, "loose file gets an awl snapshot");
}

#[test]
fn history_history_off_disables_snapshots() {
    let p = "/notes/off.md";
    let mut fs = InMemoryFs::new();
    record(&mut fs, DATA, p, "nothing kept", false).unwrap();
    assert!(snaps_of(&mut fs, p).is_empty(), "history off → no snapshots");
}

#[test]
fn history_log_round_trips_content_with_newlines_and_spaces() {
    let entries = vec![entry(1_000, "line one\nline two\n", true), entry(999, "a b  c\nd", false)];
    let bytes = serialize_log(&entries);
    assert_eq!(parse_log(&bytes), entries, "serialize→parse is lossless");
}

#[test]
fn history_fnv_is_stable_and_path_keyed() {
    assert_eq!(log_path(DATA, "/a"), log_path(DATA, "/a"));
    assert_ne!(log_path(DATA, "/a"), log_path(DATA, "/b"));
}

#[test]
fn history_relative_label_reads_the_time_gap_humanly() {
    let now: u64 = 10_000 * 24 * 60 * 60 * 1000;
    let min: u64 = 60 * 1000;
    let hr = 60 * min;
    let day = 24 * hr;
    assert_eq!(relative_label(now, now), "just now");
    assert_eq!(relative_label(now, now - 30 * 1000), "just now");
    assert_eq!(relative_label(now, now - 2 * min), "2 min ago");
    assert_eq!(relative_label(now, now - 3 * hr), "3 hr ago");
    assert_eq!(relative_label(now, now - 1 * day - hr), "yesterday");
    assert_eq!(relative_label(now, now - 4 * day), "4 days ago");
    assert_eq!(relative_label(now, now - 30 * day), civil_date((now - 30 * day) / 1000));
    assert_eq!(civil_date(0), "1970-01-01");
    assert_eq!(relative_label(now, now + day), "just now");
}

#[test]
fn history_line_diff_counts_are_add_minus_remove_vs_current() {
    assert_eq!(line_diff_counts("a\nb\nc", "a\nb\nc"), (0, 0));
    assert_eq!(line_diff_counts("a\nb\nc", "a\nc"), (0, 1));
    assert_eq!(line_diff_counts("a\nc", "a\nb\nc"), (1, 0));
    assert_eq!(line_diff_counts("a\nb\nc", "a\nB\nc"), (1, 1));
    assert_eq!(line_diff_counts("", "x\ny"), (2, 0));
    let big_old: String = (0..3000).map(|i| format!("l{i}\n")).collect();
    let big_new: String = (0..3001).map(|i| format!("l{i}\n")).collect();
    let (add, rem) = line_diff_counts(&big_old, &big_new);
    assert_eq!((add, rem), (1, 0), "fallback multiset diff counts the one added line");
}

#[test]
fn history_timeline_rows_are_newest_first_with_labels_and_counts() {
    let p = "/notes/timeline.md";
    let mut fs = InMemoryFs::new();
    rec(&mut fs, p, "one\ntwo");
    rec(&mut fs, p, "one\ntwo\nthree");
    let now = now_millis();
    let rows = timeline_rows(&mut fs, DATA, p, "one\ntwo\nthree", now);
    assert_eq!(rows.len(), 2, "both versions listed");
    assert_eq!(rows[0].counts, "+0 \u{2212}0");
    assert_eq!(load_of(&mut fs, p, &rows[0].id).as_deref(), Some("one\ntwo\nthree"));
    assert_eq!(rows[1].counts, "+0 \u{2212}1");
    assert_eq!(load_of(&mut fs, p, &rows[1].id).as_deref(), Some("one\ntwo"));
    assert!(!rows[0].when.is_empty() && !rows[1].when.is_empty());
}

#[test]
fn history_timeline_rows_empty_for_a_file_with_no_history() {
    let p = "/notes/fresh.md";
    let mut fs = InMemoryFs::new();
    assert!(timeline_rows(&mut fs, DATA, p, "scratch", now_millis()).is_empty());
}

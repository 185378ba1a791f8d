use awl::frontmatter::{cjk_priority, set_cjk_priority, CjkLadder, Lang};
use awl::fs::{FileSystem, InMemoryFs};
use awl::history::picker::line_diff_counts;
use awl::history::prune::{ladder_keep, prune_ladder, MAX_TOTAL};
use awl::history::Entry;
use awl::history::store::{list, load, record, record_pinned, rename};
use awl::index::list_dir_level;
use awl::keymap::KeymapFlavor;

#[test]
fn swapping_the_texts_swaps_the_counts() {
    assert_eq!(line_diff_counts("a\nb\nc", "a\nc\nd\ne"), (2, 1));
    assert_eq!(line_diff_counts("a\nc\nd\ne", "a\nb\nc"), (1, 2));
}

#[test]
fn a_higher_ladder_level_keeps_no_more() {
    let day: u64 = 86_400_000;
    let now: u64 = 200 * day;
    let ts: Vec<u64> = (0..60u64).map(|k| now - day - k * 3 * 3_600_000).collect();
    let low = ladder_keep(&ts, now, 0);
    let high = ladder_keep(&ts, now, 3);
    for i in 0..ts.len() {
        if high[i] {
            assert!(low[i]);
        }
    }
    assert!(high[0] && high[ts.len() - 1]);
    assert!(high.iter().filter(|k| **k).count() <= low.iter().filter(|k| **k).count());
}

#[test]
fn codes_parse_padded_and_upper_case() {
    assert_eq!(Lang::parse(" ZH-HANS "), Some(Lang::ZhHans));
    assert_eq!(Lang::parse("\tJA\n"), Some(Lang::Ja));
    assert_eq!(Lang::parse(" Zh-HaNt"), Some(Lang::ZhHant));
    assert_eq!(Lang::parse("klingon"), None);
}

#[test]
fn labels_resolve_in_any_case() {
    assert_eq!(Lang::from_label("KOREAN"), Some(Lang::Ko));
    assert_eq!(Lang::from_label("simplified chinese"), Some(Lang::ZhHans));
    assert_eq!(Lang::from_label("Korean "), None);
}

#[test]
fn flavors_parse_padded_and_upper_case() {
    assert_eq!(KeymapFlavor::parse("\tNative "), Some(KeymapFlavor::Native));
    assert_eq!(KeymapFlavor::parse("Emacs"), Some(KeymapFlavor::Emacs));
    assert_eq!(KeymapFlavor::parse("e macs"), None);
}

#[test]
fn setting_the_ladder_to_itself_changes_nothing() {
    let mut ladder = CjkLadder::new();
    set_cjk_priority(&mut ladder, &[Lang::Ko, Lang::ZhHant]);
    let before = cjk_priority(&ladder);
    set_cjk_priority(&mut ladder, &before);
    assert_eq!(cjk_priority(&ladder), before);
    assert_eq!(before, vec![Lang::Ko, Lang::ZhHant, Lang::Ja, Lang::ZhHans]);
}

#[test]
fn in_memory_records_always_succeed_and_touch_only_the_log() {
    let mut fs = InMemoryFs::new().with_file("/notes/other.md", "keep me");
    assert!(record(&mut fs, "/data", "/notes/a.md", "one", true).is_ok());
    assert!(record_pinned(&mut fs, "/data", "/notes/a.md", "one", true, Some("v1")).is_ok());
    assert_eq!(fs.read_to_string("/notes/other.md").unwrap(), "keep me");
    let rows = list(&mut fs, "/data", "/notes/a.md", None);
    assert_eq!(rows.len(), 1);
    assert!(rows[0].pinned);
    assert_eq!(load(&mut fs, "/data", "/notes/a.md", &rows[0].id, None), Some("one".to_string()));
    assert!(rename(&mut fs, "/data", "/notes/a.md", "/notes/b.md").is_ok());
    assert_eq!(fs.read_to_string("/notes/other.md").unwrap(), "keep me");
    assert_eq!(list(&mut fs, "/data", "/notes/b.md", None).len(), 1);
}

#[test]
fn a_directory_level_lists_each_child_once() {
    let fs = InMemoryFs::new()
        .with_dir("/p/docs")
        .with_dir("/p/docs")
        .with_file("/p/docs/x.md", "1")
        .with_file("/p/docs/x.md", "2")
        .with_file("/p/a.md", "a");
    let level = list_dir_level(&fs, "/p", None);
    let names: Vec<(String, bool)> = level.iter().map(|e| (e.name.clone(), e.is_dir)).collect();
    assert_eq!(names, vec![("docs".to_string(), true), ("a.md".to_string(), false)]);
}

#[test]
fn with_recency_puts_the_last_edited_first() {
    let mut fs = InMemoryFs::new();
    fs.write("/p/a.md", b"a").unwrap();
    let t0 = awl::history::now_millis();
    while awl::history::now_millis() <= t0 + 1 {}
    fs.write("/p/b.md", b"b").unwrap();
    let corpus = vec!["a.md".to_string(), "b.md".to_string()];
    let (names, labels) = awl::index::with_recency(&fs, "/p", corpus, Some(awl::history::now_millis()));
    assert_eq!(names, vec!["b.md".to_string(), "a.md".to_string()]);
    assert_eq!(labels.len(), 2);
}

#[test]
fn the_ladder_climbs_until_a_wide_weekly_log_fits_the_cap() {
    let now: u64 = 300_000_000_000_000_000;
    let mut entries: Vec<Entry> = (0..200u64)
        .map(|k| Entry { ts: now - 3_000_000_000 - k * 1_000_000_000_000_000, content: format!("v{k}"), pinned: false, name: None })
        .collect();
    let oldest = entries[199].ts;
    prune_ladder(&mut entries, now);
    assert!(entries.len() <= MAX_TOTAL);
    assert_eq!(entries[0].ts, now - 3_000_000_000);
    assert_eq!(entries.last().unwrap().ts, oldest);
}

#[test]
fn scoring_has_no_length_cap() {
    let long: String = "x".repeat(100_000) + "env";
    assert!(awl::fuzzy::score("env", &long).is_some());
    assert_eq!(awl::fuzzy::score("env", ".env"), Some(80));
}

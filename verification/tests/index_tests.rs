use awl::facets::FacetItem;
use awl::fs::InMemoryFs;
use awl::index::{
    browse_bucket, build_index, goto_bucket, is_env_file, is_hidden_entry, is_junk_dir, list_dir_level,
    order_by_recency, project_bucket, relative_time, resolve, str_less, with_recency,
};

fn item(accept: &str) -> FacetItem<'_> {
    FacetItem {
        accept,
        is_dir: false,
        is_git: false,
        recent: false,
        heading: false,
        ts: None,
        now: None,
        session_start: None,
    }
}

#[test]
fn walk_skips_junk_dirs() {
    let mem = InMemoryFs::new()
        .with_file("/proj/notes.md", "n")
        .with_file("/proj/sub/ideas.md", "i")
        .with_file("/proj/node_modules/big.js", "x");
    let idx = build_index(&mem, "/proj", b"", b"");
    assert!(idx.contains(&"notes.md".to_string()));
    assert!(idx.contains(&"sub/ideas.md".to_string()));
    assert!(!idx.iter().any(|p| p.contains("node_modules")), "junk dir must be pruned: {idx:?}");
}

#[test]
fn git_index_lists_untracked_but_not_gitignored_files() {
    let mem = InMemoryFs::new()
        .with_dir("/repo/.git")
        .with_file("/repo/tracked.md", "t")
        .with_file("/repo/brand-new.md", "n")
        .with_file("/repo/ignored.md", "x")
        .with_file("/repo/.env", "SECRET=1");
    let idx = build_index(&mem, "/repo", b"tracked.md\n", b"brand-new.md\n");
    assert!(idx.contains(&"tracked.md".to_string()), "tracked file present: {idx:?}");
    assert!(idx.contains(&"brand-new.md".to_string()), "untracked-but-not-ignored file must appear: {idx:?}");
    assert!(!idx.contains(&"ignored.md".to_string()), "a gitignored file must still be excluded: {idx:?}");
    assert!(idx.contains(&".env".to_string()), "the .env family is always unioned in: {idx:?}");
}

#[test]
fn git_listing_is_trimmed_sorted_deduped_and_junk_free() {
    let mem = InMemoryFs::new().with_dir("/r/.git");
    let idx = build_index(&mem, "/r", b"  b.md \r\n\na.md\ntarget/out.bin\nb.md\n", b"");
    assert_eq!(idx, vec!["a.md".to_string(), "b.md".to_string()]);
}

#[test]
fn resolve_joins_relative_under_root() {
    assert_eq!(resolve("/root", "a/b.rs"), "/root/a/b.rs");
    assert_eq!(resolve("/root", "notes.md"), "/root/notes.md");
}

#[test]
fn env_file_detection() {
    assert!(is_env_file(".env"));
    assert!(is_env_file(".env.local"));
    assert!(is_env_file(".env.production"));
    assert!(!is_env_file("env"));
    assert!(!is_env_file("doc-fixture.md"));
}

#[test]
fn hidden_entry_filter() {
    assert!(is_hidden_entry(".gitignore"));
    assert!(is_hidden_entry("sub/.hidden"));
    assert!(is_hidden_entry(".config/x"));
    assert!(is_hidden_entry(".git/config"));
    assert!(!is_hidden_entry(".env"));
    assert!(!is_hidden_entry(".env.local"));
    assert!(!is_hidden_entry("config/.env.production"));
    assert!(!is_hidden_entry("normal.rs"));
    assert!(!is_hidden_entry("src/main.rs"));
    assert!(!is_hidden_entry("doc-fixture.md"));
}

#[test]
fn junk_dir_detection() {
    assert!(is_junk_dir("node_modules"));
    assert!(is_junk_dir("target"));
    assert!(is_junk_dir(".git"));
    assert!(!is_junk_dir("src"));
}

#[test]
fn dir_level_dirs_first_files_sorted() {
    let mem = InMemoryFs::new()
        .with_file("/proj/doc-fixture.md", "r")
        .with_dir("/proj/src")
        .with_file("/proj/docs/guide.md", "g")
        .with_dir("/proj/node_modules");
    let lvl = list_dir_level(&mem, "/proj", None);
    let names: Vec<&str> = lvl.iter().map(|e| e.name.as_str()).collect();
    assert_eq!(names, vec!["docs", "src", "doc-fixture.md"], "got {names:?}");
    assert!(lvl[0].is_dir && lvl[1].is_dir && !lvl[2].is_dir);
    let docs = list_dir_level(&mem, "/proj", Some("docs"));
    assert_eq!(docs.len(), 1);
    assert_eq!(docs[0].name, "guide.md");
    assert!(!docs[0].is_dir);
}

#[test]
fn relative_time_buckets() {
    let now: u64 = 10_000_000 * 1000;
    let ago = |secs: u64| relative_time(now, now - secs * 1000);
    assert_eq!(ago(0), "just now");
    assert_eq!(ago(59), "just now");
    assert_eq!(ago(60), "1m ago");
    assert_eq!(ago(5 * 60), "5m ago");
    assert_eq!(ago(60 * 60), "1h ago");
    assert_eq!(ago(2 * 60 * 60), "2h ago");
    assert_eq!(ago(24 * 60 * 60), "1d ago");
    assert_eq!(ago(3 * 24 * 60 * 60), "3d ago");
    assert_eq!(relative_time(now, now + 99 * 1000), "just now");
}

#[test]
fn recency_sort_orders_newest_first() {
    let entries = vec![
        ("old.md".to_string(), 100_000u64),
        ("newest.md".to_string(), 900_000u64),
        ("mid.md".to_string(), 500_000u64),
    ];
    let ordered = order_by_recency(entries);
    let names: Vec<&str> = ordered.iter().map(|(n, _)| n.as_str()).collect();
    assert_eq!(names, vec!["newest.md", "mid.md", "old.md"]);
}

#[test]
fn recency_ties_break_by_name() {
    let t: u64 = 42_000;
    let entries = vec![("b.md".to_string(), t), ("a.md".to_string(), t), ("c.md".to_string(), t)];
    let ordered = order_by_recency(entries);
    let names: Vec<&str> = ordered.iter().map(|(n, _)| n.as_str()).collect();
    assert_eq!(names, vec!["a.md", "b.md", "c.md"]);
}

#[test]
fn with_recency_headless_keeps_name_order_no_times() {
    let corpus = vec!["a.md".to_string(), "b.md".to_string()];
    let fs = InMemoryFs::new();
    let (names, times) = with_recency(&fs, "/nonexistent", corpus.clone(), None);
    assert_eq!(names, corpus);
    assert_eq!(times, vec![String::new(), String::new()]);
}

#[test]
fn with_recency_live_labels_every_entry() {
    let corpus = vec!["a.md".to_string(), "gone.md".to_string()];
    let fs = InMemoryFs::new().with_file("/p/a.md", "x");
    let (names, times) = with_recency(&fs, "/p", corpus, Some(u64::MAX / 2));
    assert_eq!(names.len(), 2);
    assert_eq!(times.len(), 2);
    let gone = names.iter().position(|n| n == "gone.md").unwrap();
    assert!(times[gone].ends_with("d ago"), "an unknown file counts from the epoch: {times:?}");
}

#[test]
fn dir_level_marks_git_child() {
    let mem = InMemoryFs::new().with_dir("/proj/repo/.git").with_dir("/proj/plain");
    let lvl = list_dir_level(&mem, "/proj", None);
    let repo = lvl.iter().find(|e| e.name == "repo").unwrap();
    let plain = lvl.iter().find(|e| e.name == "plain").unwrap();
    assert!(repo.is_git, "repo with .git must be marked git");
    assert!(!plain.is_git);
}

#[test]
fn dir_level_of_a_missing_directory_is_empty() {
    let mem = InMemoryFs::new();
    assert!(list_dir_level(&mem, "/nowhere", None).is_empty());
}

#[test]
fn goto_lenses_bucket_recent_folder_and_headings() {
    let mut top = item("notes.txt");
    assert_eq!(goto_bucket(top, 0), None);
    assert_eq!(goto_bucket(top, 2), Some("This folder"));
    assert_eq!(goto_bucket(top, 1), None);
    top.recent = true;
    assert_eq!(goto_bucket(top, 1), Some("Recent"));
    let nested = item("src/main.rs");
    assert_eq!(goto_bucket(nested, 2), None);
    let mut heading = item("Introduction");
    heading.heading = true;
    assert_eq!(goto_bucket(heading, 3), Some("Headings"));
    assert_eq!(goto_bucket(heading, 2), None);
}

#[test]
fn browse_lenses_split_folders_files_and_git() {
    let mut repo = item("repo");
    repo.is_dir = true;
    repo.is_git = true;
    let file = item("a.md");
    assert_eq!(browse_bucket(repo, 1), Some("Folders"));
    assert_eq!(browse_bucket(repo, 3), Some("Git repos"));
    assert_eq!(browse_bucket(repo, 2), None);
    assert_eq!(browse_bucket(file, 2), Some("Files"));
    assert_eq!(browse_bucket(file, 1), None);
    let mut recent = item("proj");
    recent.recent = true;
    assert_eq!(project_bucket(recent, 1), Some("Recent"));
    assert_eq!(project_bucket(recent, 0), None);
}

#[test]
fn string_order_is_byte_order() {
    assert!(str_less("a", "b"));
    assert!(str_less("a", "ab"));
    assert!(!str_less("b", "a"));
    assert!(!str_less("a", "a"));
    assert!(str_less("Z", "a"));
    assert!(str_less("z", "\u{e9}"));
}

use awl::fs::{
    join, leaf_name, parent, seed_write_if_absent, tmp_sibling, write_atomic, FileSystem, FsError, InMemoryFs,
};
use awl::keyspec::mac_glyph_chord;
use awl::keytoken::{render_key_tokens, synthetic_mac_keys, TokenLabels};

#[test]
fn in_memory_round_trips_text() {
    let mut fs = InMemoryFs::new();
    fs.write("/n/a.md", b"hello").unwrap();
    assert_eq!(fs.read_to_string("/n/a.md").unwrap(), "hello");
    assert!(fs.path_exists("/n"));
    assert!(fs.path_exists("/n/a.md"));
    assert!(!fs.path_exists("/n/b.md"));
}

#[test]
fn in_memory_read_dir_levels_and_types() {
    let fs = InMemoryFs::new()
        .with_file("/r/readme.md", "r")
        .with_dir("/r/src")
        .with_file("/r/src/main.rs", "m");
    let mut names: Vec<String> = fs
        .read_dir("/r")
        .unwrap()
        .into_iter()
        .map(|e| format!("{}:{}", e.name, if e.is_dir { "d" } else { "f" }))
        .collect();
    names.sort();
    assert_eq!(names, vec!["readme.md:f".to_string(), "src:d".to_string()]);
    let sub = fs.read_dir("/r/src").unwrap();
    assert_eq!(sub.len(), 1);
    assert_eq!(sub[0].name, "main.rs");
    assert!(sub[0].is_file);
}

#[test]
fn in_memory_rename_moves_bytes() {
    let mut fs = InMemoryFs::new().with_file("/a.md", "body");
    fs.rename("/a.md", "/sub/b.md").unwrap();
    assert!(!fs.path_exists("/a.md"));
    assert_eq!(fs.read_to_string("/sub/b.md").unwrap(), "body");
}

#[test]
fn in_memory_remove_file_deletes_and_errors_on_a_missing_path() {
    let mut fs = InMemoryFs::new().with_file("/a.md", "body").with_file("/b.md", "other");
    fs.remove_file("/a.md").unwrap();
    assert!(!fs.path_exists("/a.md"), "removed file is gone");
    assert!(fs.path_exists("/b.md"), "a sibling file is untouched");
    assert_eq!(
        fs.remove_file("/a.md").unwrap_err(),
        FsError::NotFound,
        "removing an already-gone (or never-existed) file errors NotFound, never panics"
    );
}

#[test]
fn in_memory_metadata_has_times() {
    let fs = InMemoryFs::new().with_file("/a.md", "x");
    let md = fs.metadata("/a.md").unwrap();
    assert!(md.modified.is_some());
    assert!(fs.metadata("/nope").is_err());
}

#[test]
fn write_atomic_replaces_content_and_leaves_no_tmp() {
    let mut fake = InMemoryFs::new().with_dir("/docs");
    write_atomic(&mut fake, "/docs/a.md", b"first").unwrap();
    assert_eq!(fake.read_to_string("/docs/a.md").unwrap(), "first");
    write_atomic(&mut fake, "/docs/a.md", b"second").unwrap();
    assert_eq!(fake.read_to_string("/docs/a.md").unwrap(), "second");
    let names: Vec<String> = fake.read_dir("/docs").unwrap().into_iter().map(|e| e.name).collect();
    assert_eq!(names, vec!["a.md".to_string()], "no tmp residue: {names:?}");
}

#[test]
fn read_of_a_missing_file_is_not_found() {
    let fs = InMemoryFs::new();
    assert_eq!(fs.read("/missing").unwrap_err(), FsError::NotFound);
    assert!(fs.read_to_string("/missing").is_err());
    assert!(fs.read_dir("/missing").is_err());
}

#[test]
fn invalid_utf8_reads_as_invalid_data() {
    let mut fs = InMemoryFs::new();
    fs.write("/bin", &[0xff, 0xfe]).unwrap();
    assert_eq!(fs.read("/bin").unwrap(), vec![0xff, 0xfe]);
    assert_eq!(fs.read_to_string("/bin").unwrap_err(), FsError::InvalidData);
}

#[test]
fn create_dir_all_makes_every_ancestor() {
    let mut fs = InMemoryFs::new();
    fs.create_dir_all("/a/b/c").unwrap();
    assert!(fs.is_dir("/a"));
    assert!(fs.is_dir("/a/b"));
    assert!(fs.is_dir("/a/b/c"));
    assert!(!fs.is_dir("/a/b/c/d"));
}

#[test]
fn path_helpers_split_and_join() {
    assert_eq!(parent("/a/b.md").as_deref(), Some("/a"));
    assert_eq!(parent("/top").as_deref(), Some("/"));
    assert_eq!(parent("/"), None);
    assert_eq!(parent("name").as_deref(), Some(""));
    assert_eq!(leaf_name("/a/b.md"), "b.md");
    assert_eq!(leaf_name("plain"), "plain");
    assert_eq!(join("/root", "a/b.rs"), "/root/a/b.rs");
    assert_eq!(join("/", "x"), "/x");
    assert_eq!(join("", "x"), "x");
    assert_eq!(tmp_sibling("/docs/a.md"), "/docs/.a.md.awl-tmp");
}

/// The curated seed set, each text carrying chord tokens.
fn seed_samples() -> Vec<(String, String)> {
    vec![
        ("/welcome.md".to_string(), "# Welcome\n\nSave with {{key:save}}.\n".to_string()),
        ("/tour.md".to_string(), "Open anything with {{key:command_palette}}.\n".to_string()),
        ("/prose.md".to_string(), "Plain prose.\n".to_string()),
        ("/japanese.md".to_string(), "日本語の文章。{{key:save}}\n".to_string()),
    ]
}

/// The mac labels a catalog gives, with the dedicated chords added.
fn seed_labels() -> TokenLabels {
    let mut keys = vec![("save".to_string(), mac_glyph_chord("Cmd-S"))];
    keys.extend(synthetic_mac_keys());
    TokenLabels { keys, cmds: vec![] }
}

#[test]
fn seed_write_if_absent_seeds_the_curated_set_on_a_fresh_fs() {
    let mut fs = InMemoryFs::new();
    let samples = seed_samples();
    let labels = seed_labels();
    seed_write_if_absent(&mut fs, &samples, &labels);
    for (p, content) in &samples {
        let rendered = render_key_tokens(content, &labels);
        assert_eq!(fs.read_to_string(p).unwrap(), rendered);
        assert!(!fs.read_to_string(p).unwrap().contains("{{key:"), "{p} still carries a raw token");
    }
    assert_eq!(fs.read_to_string("/tour.md").unwrap(), "Open anything with \u{2318}P.\n");
}

#[test]
fn seed_write_if_absent_never_clobbers_an_existing_path() {
    let mut fs = InMemoryFs::new()
        .with_file("/welcome.md", "my own edited welcome, thanks")
        .with_file("/longwrap.md", "an old dev-fixture leftover, untouched")
        .with_file("/spellcheck.md", "another old leftover, untouched");
    seed_write_if_absent(&mut fs, &seed_samples(), &seed_labels());
    assert_eq!(fs.read_to_string("/welcome.md").unwrap(), "my own edited welcome, thanks");
    assert_eq!(fs.read_to_string("/longwrap.md").unwrap(), "an old dev-fixture leftover, untouched");
    assert_eq!(fs.read_to_string("/spellcheck.md").unwrap(), "another old leftover, untouched");
    assert!(fs.path_exists("/tour.md"));
}

#[test]
fn seeding_skips_a_path_that_is_a_directory() {
    let mut fs = InMemoryFs::new().with_dir("/prose.md");
    seed_write_if_absent(&mut fs, &seed_samples(), &seed_labels());
    assert!(fs.read_to_string("/prose.md").is_err());
    assert!(fs.is_dir("/prose.md"));
}

#[test]
fn synthetic_keys_are_the_palette_and_the_stats_hud() {
    let keys = synthetic_mac_keys();
    assert_eq!(keys[0], ("command_palette".to_string(), "\u{2318}P".to_string()));
    assert_eq!(keys[1].0, "stats_hud");
    assert_eq!(keys[1].1, mac_glyph_chord("Cmd-M-i"));
}

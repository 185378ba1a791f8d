use awl::fuzzy::{rank, score, Tier};

fn corpus(_: usize) -> Tier {
    Tier::Corpus
}

#[test]
fn subsequence_matches_and_rejects() {
    assert!(score("mn", "src/main.rs").is_some());
    assert!(score("xyz", "src/main.rs").is_none());
    assert!(score("", "anything").is_some());
}

#[test]
fn mn_ranks_main() {
    let cands = vec!["src/lib.rs".to_string(), "src/main.rs".to_string(), "README.md".to_string()];
    let r = rank("mn", &cands, corpus);
    assert!(!r.is_empty());
    assert_eq!(cands[r[0].index], "src/main.rs", "mn -> main.rs, got {r:?}");
}

#[test]
fn prefix_beats_scattered() {
    let cands = vec!["src/area.rs".to_string(), "README.md".to_string()];
    let r = rank("rea", &cands, corpus);
    assert_eq!(cands[r[0].index], "README.md", "prefix should win: {r:?}");
}

#[test]
fn contiguous_prefix_beats_scattered() {
    let contiguous = score("env", ".env").unwrap();
    let scattered = score("env", "early/nope/vague.rs").unwrap();
    assert!(contiguous > scattered, "contiguous {contiguous} vs scattered {scattered}");
}

#[test]
fn open_tier_beats_corpus() {
    let cands = vec!["src/main.rs".to_string(), "src/zzz_main.rs".to_string()];
    let r = rank("main", &cands, |i| if i == 0 { Tier::Open } else { Tier::Corpus });
    assert_eq!(cands[r[0].index], "src/main.rs");
}

#[test]
fn non_matching_candidates_are_dropped_and_tiers_order_first() {
    let cands = vec!["alpha".to_string(), "beta".to_string(), "alphabet".to_string()];
    let r = rank("al", &cands, |i| if i == 2 { Tier::Recent } else { Tier::Corpus });
    assert_eq!(r.len(), 2);
    assert_eq!(r[0].index, 2, "the recent tier outranks the corpus: {r:?}");
    assert_eq!(r[1].index, 0);
}

#[test]
fn score_is_case_insensitive() {
    assert_eq!(score("MAIN", "main.rs").is_some(), true);
    assert_eq!(score("main", "MAIN.RS").is_some(), true);
}

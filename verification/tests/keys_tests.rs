use awl::keymap::{
    linux_displaced_letters, linux_displaces_emacs_default, linux_emacs_preset_keep, linux_keeps_chord,
    parse_binding, Action, BindingError, Chord, KeymapFlavor,
};
use awl::keyspec::{
    canonical_binding, format_chord, key_token, mac_glyph_chord, parse_chord, ChordError, Key, Mods, NamedKey,
};

fn mods(ctrl: bool, alt: bool, shift: bool, sup: bool) -> Mods {
    Mods { ctrl, alt, shift, sup }
}

fn none() -> Mods {
    mods(false, false, false, false)
}

fn ch_key(s: &str) -> Key {
    Key::Character(s.to_string())
}

fn canon(k: &Key) -> Key {
    match k {
        Key::Character(s) => Key::Character(s.to_lowercase()),
        other => other.clone(),
    }
}

#[test]
fn word_form_modifiers_parse_like_terse() {
    let pairs = [("Cmd-s", "s-s"), ("Option-f", "M-f"), ("Ctrl-x", "C-x"), ("Cmd-S-z", "s-S-z")];
    for (word, terse) in pairs {
        assert_eq!(parse_chord(word).unwrap(), parse_chord(terse).unwrap(), "{word:?} should parse like {terse:?}");
    }
    assert_eq!(parse_chord("CMD-=").unwrap().1, mods(false, false, false, true));
    let (k, m) = parse_chord("Cmd--").unwrap();
    assert_eq!(m, mods(false, false, false, true));
    assert_eq!(k, ch_key("-"));
}

#[test]
fn format_chord_round_trips_through_parse() {
    for spec in ["C-t", "M-f", "s-s", "Left", "Enter", "Esc", "s-S-z", "C-x", "="] {
        let (k, m) = parse_chord(spec).unwrap();
        let formatted = format_chord(&k, m);
        let (k2, m2) = parse_chord(&formatted).unwrap();
        assert_eq!((canon(&k2), m2), (canon(&k), m), "{spec:?} → {formatted:?}");
    }
    assert_eq!(format_chord(&ch_key("T"), mods(true, false, false, false)), "C-t");
    assert_eq!(format_chord(&ch_key("z"), mods(false, false, true, true)), "S-s-z");
}

#[test]
fn mac_glyph_chord_renders_modifier_glyphs() {
    assert_eq!(mac_glyph_chord("Cmd-S-o"), "⌘⇧O");
    assert_eq!(mac_glyph_chord("Cmd-F"), "⌘F");
    assert_eq!(mac_glyph_chord("Cmd-M-f"), "⌘⌥F");
    assert_eq!(mac_glyph_chord("Cmd-S"), "⌘S");
    assert_eq!(mac_glyph_chord("Cmd-S-z"), "⌘⇧Z");
    assert_eq!(mac_glyph_chord("Cmd-;"), "⌘;");
    assert_eq!(mac_glyph_chord("Cmd-="), "⌘=");
    assert_eq!(mac_glyph_chord("C-t"), "⌃T");
    assert_eq!(mac_glyph_chord("s-s"), mac_glyph_chord("Cmd-S"));
    assert_eq!(mac_glyph_chord("C-frobnicate"), "C-frobnicate");
}

#[test]
fn canonical_binding_unifies_equivalent_specs() {
    assert_eq!(canonical_binding("Cmd-S"), canonical_binding("s-s"));
    assert_eq!(canonical_binding("C-x C-f").as_deref(), Some("C-x C-f"));
    assert_eq!(canonical_binding("Ctrl-t").as_deref(), Some("C-t"));
    assert_eq!(canonical_binding("C-frobnicate"), None);
    assert_eq!(canonical_binding("   "), None);
}

#[test]
fn unknown_and_empty_chords_error() {
    assert_eq!(parse_chord("frobnicate"), Err(ChordError::UnknownKey));
    assert_eq!(parse_chord("C-"), Err(ChordError::EmptyKey));
    assert_eq!(parse_chord(""), Err(ChordError::EmptyKey));
}

#[test]
fn named_keys_parse_in_any_case_with_aliases() {
    assert_eq!(parse_chord("Left").unwrap(), (Key::Named(NamedKey::ArrowLeft), none()));
    assert_eq!(parse_chord("M-Right").unwrap(), (Key::Named(NamedKey::ArrowRight), mods(false, true, false, false)));
    assert_eq!(parse_chord("RET").unwrap().0, Key::Named(NamedKey::Enter));
    assert_eq!(parse_chord("return").unwrap().0, Key::Named(NamedKey::Enter));
    assert_eq!(parse_chord("DEL").unwrap().0, Key::Named(NamedKey::Backspace));
    assert_eq!(parse_chord("C-SPC").unwrap(), (Key::Named(NamedKey::Space), mods(true, false, false, false)));
    assert_eq!(parse_chord("escape").unwrap().0, Key::Named(NamedKey::Escape));
    assert_eq!(parse_chord("<").unwrap(), (ch_key("<"), none()));
    assert_eq!(parse_chord("Z").unwrap(), (ch_key("Z"), none()));
}

#[test]
fn key_tokens_spell_named_keys_and_fold_letters() {
    assert_eq!(key_token(&Key::Named(NamedKey::Escape)), "Esc");
    assert_eq!(key_token(&Key::Named(NamedKey::Other)), "?");
    assert_eq!(key_token(&ch_key("Q")), "q");
    assert_eq!(key_token(&ch_key("é")), "é");
    assert_eq!(key_token(&Key::Unidentified), "");
}

#[test]
fn retired_c_x_actions_stay_undo_neutral_non_motions() {
    for a in [
        Action::ToggleCaretMode,
        Action::TogglePageMode,
        Action::PageWider,
        Action::PageNarrower,
        Action::ToggleDebug,
        Action::FinishBuffer,
        Action::OpenBrowse,
        Action::MoveNote,
    ] {
        assert!(!a.is_motion(), "{a:?} must not be a motion");
        assert!(!a.is_edit(), "{a:?} must not be an edit");
    }
}

#[test]
fn edit_classification() {
    assert!(Action::InsertChar('x').is_edit());
    assert!(Action::KillLine.is_edit());
    assert!(!Action::Undo.is_edit());
    assert!(!Action::Redo.is_edit());
    assert!(!Action::ForwardChar.is_edit());
}

#[test]
fn motion_classification() {
    assert!(Action::ForwardChar.is_motion());
    assert!(Action::BufferEnd.is_motion());
    assert!(!Action::InsertChar('x').is_motion());
    assert!(!Action::KillRegion.is_motion());
    assert!(!Action::ZoomIn.is_motion());
}

#[test]
fn linux_emacs_preset_keep_equals_the_displaced_letters_no_drift() {
    let letters = linux_displaced_letters();
    let preset = linux_emacs_preset_keep();
    assert_eq!(preset.len(), letters.len());
    for letter in &letters {
        let want = format!("C-{letter}");
        assert!(preset.contains(&want), "preset missing {want:?} for displaced letter {letter:?}");
    }
    for chord in &preset {
        assert!(
            letters.iter().any(|l| *chord == format!("C-{l}")),
            "preset chord {chord:?} has no matching displaced letter"
        );
    }
}

#[test]
fn linux_displaces_emacs_default_flags_exactly_the_collision_table() {
    for emacs in ["C-s", "C-r", "C-w", "C-a", "C-e"] {
        assert!(linux_displaces_emacs_default(emacs, &[]), "{emacs:?} should be displaced");
    }
    assert!(linux_displaces_emacs_default("C-c C-o", &[]));
    assert!(!linux_displaces_emacs_default("C-/", &[]));
    assert!(!linux_displaces_emacs_default("C-y", &[]));
    assert!(!linux_displaces_emacs_default("C-d", &[]));
    assert!(!linux_displaces_emacs_default("C-k", &[]));
    assert!(!linux_displaces_emacs_default("", &[]));
    assert!(!linux_displaces_emacs_default("   ", &[]));
}

#[test]
fn linux_displaces_emacs_default_respects_the_keep_list() {
    let keep = vec!["C-f".to_string(), "Ctrl-b".to_string()];
    assert!(!linux_displaces_emacs_default("C-f", &keep), "C-f is kept");
    assert!(!linux_displaces_emacs_default("C-b", &keep), "C-b is kept via an equivalent spelling");
    assert!(linux_displaces_emacs_default("C-s", &keep), "C-s is not in the keep list");
    assert!(linux_displaces_emacs_default("C-n", &keep), "C-n is not in the keep list");
}

#[test]
fn keep_list_compares_canonically() {
    let keep = vec!["Control-F".to_string()];
    assert!(linux_keeps_chord(&keep, "C-f"));
    assert!(linux_keeps_chord(&keep, "Ctrl-f"));
    assert!(!linux_keeps_chord(&keep, "C-g"));
    assert!(!linux_keeps_chord(&keep, "C-frob"));
}

#[test]
fn keymap_flavor_parses_leniently_and_names_itself() {
    assert_eq!(KeymapFlavor::parse("native"), Some(KeymapFlavor::Native));
    assert_eq!(KeymapFlavor::parse(" EMACS "), Some(KeymapFlavor::Emacs));
    assert_eq!(KeymapFlavor::parse(""), None);
    assert_eq!(KeymapFlavor::parse("vim"), None);
    assert_eq!(KeymapFlavor::default(), KeymapFlavor::Native);
    for f in [KeymapFlavor::Native, KeymapFlavor::Emacs] {
        assert_eq!(KeymapFlavor::parse(f.config_name()), Some(f));
    }
}

#[test]
fn parse_binding_accepts_one_chord_or_a_prefix_pair() {
    assert_eq!(parse_binding("C-T"), Ok(Chord::Single(ch_key("t"), mods(true, false, false, false))));
    assert_eq!(parse_binding("C-x g"), Ok(Chord::Cx(ch_key("g"), none())));
    assert_eq!(parse_binding("C-c C-o"), Ok(Chord::Cc(ch_key("o"), mods(true, false, false, false))));
    assert_eq!(parse_binding("C-x Left"), Ok(Chord::Cx(Key::Named(NamedKey::ArrowLeft), none())));
    assert_eq!(parse_binding("M-x g"), Err(BindingError::UnsupportedPrefix));
    assert_eq!(parse_binding(""), Err(BindingError::Empty));
    assert_eq!(parse_binding("C-x C-y C-z"), Err(BindingError::TooManyChords(3)));
    assert_eq!(parse_binding("C-frob"), Err(BindingError::BadChord(ChordError::UnknownKey)));
}

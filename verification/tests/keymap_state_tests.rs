//! The keymap state machine, driven with a command catalog built here: each
//! row gives a command's name, action, native chord (mac and Linux
//! spellings) and emacs chord.

use awl::keymap::{linux_displaced_letters, linux_emacs_preset_keep, Action, Convention, DefaultBinding, KeymapState};
use awl::keyspec::{parse_keys_through, Key, Mods, NamedKey};

fn row(slug: &str, action: Action, mac: &str, linux: &str, emacs: &str, convention: Convention) -> DefaultBinding {
    DefaultBinding {
        slug: slug.to_string(),
        action,
        native: mac.to_string(),
        native_resolved: match convention {
            Convention::Mac => mac.to_string(),
            Convention::Linux => linux.to_string(),
        },
        emacs: emacs.to_string(),
    }
}

/// The command catalog's default chords, as the keymap reads them for
/// `convention`.
fn catalog(convention: Convention) -> Vec<DefaultBinding> {
    let rows: Vec<(&str, Action, &str, &str, &str)> = vec![
        ("forward_char", Action::ForwardChar, "", "", "C-f"),
        ("backward_char", Action::BackwardChar, "", "", "C-b"),
        ("next_line", Action::NextLine, "", "", "C-n"),
        ("previous_line", Action::PreviousLine, "", "", "C-p"),
        ("forward_word", Action::ForwardWord, "M-Right", "C-Right", ""),
        ("backward_word", Action::BackwardWord, "M-Left", "C-Left", ""),
        ("line_start", Action::LineStart, "s-Left", "Home", "C-a"),
        ("line_end", Action::LineEnd, "s-Right", "End", "C-e"),
        ("document_start", Action::BufferStart, "s-Up", "C-Home", ""),
        ("document_end", Action::BufferEnd, "s-Down", "C-End", ""),
        ("delete_forward", Action::DeleteForward, "", "", "C-d"),
        ("kill_line", Action::KillLine, "", "", "C-k"),
        ("paste", Action::Yank, "s-v", "C-v", "C-y"),
        ("cut", Action::KillRegion, "s-x", "C-x", "C-w"),
        ("copy", Action::CopyRegion, "s-c", "C-c", ""),
        ("cancel", Action::Cancel, "", "", "C-g"),
        ("search_forward", Action::SearchForward, "s-f", "C-f", "C-s"),
        ("search_backward", Action::SearchBackward, "s-S-f", "C-S-f", "C-r"),
        ("find_and_replace", Action::OpenReplace, "s-r", "C-r", ""),
        ("follow_link", Action::FollowLink, "", "", "C-c C-o"),
        ("save", Action::Save, "s-s", "C-s", ""),
        ("quit", Action::Quit, "s-q", "C-q", ""),
        ("go_to_file", Action::OpenGoto, "s-o", "C-o", ""),
        ("new_note", Action::NewNote, "s-n", "C-n", ""),
        ("switch_theme", Action::OpenThemeMenu, "s-t", "C-t", ""),
        ("switch_project", Action::OpenProject, "s-S-p", "C-S-p", ""),
        ("last_buffer", Action::LastBuffer, "C-Tab", "C-Tab", ""),
        ("finish_file", Action::FinishBuffer, "s-w", "C-w", ""),
        ("settings", Action::OpenSettingsMenu, "s-,", "C-,", ""),
        ("spelling_suggestions", Action::OpenSpellSuggest, "s-;", "C-;", ""),
        ("toggle_task_list", Action::ToggleTaskList, "s-S-l", "C-S-l", ""),
        ("history", Action::OpenHistory, "s-S-h", "C-S-h", ""),
        ("toggle_outline", Action::ToggleOutline, "s-S-o", "C-S-o", ""),
        ("insert_link", Action::InsertLink, "s-k", "C-k", ""),
        ("italic", Action::Italic, "s-i", "C-i", ""),
        ("bold", Action::Bold, "s-b", "C-b", ""),
        ("inline_code", Action::InlineCode, "s-e", "C-e", ""),
        ("select_all", Action::SelectAll, "s-a", "C-a", ""),
        ("toggle_hidden_files", Action::ToggleHiddenFiles, "s-S-.", "C-S-.", ""),
        ("zoom_in", Action::ZoomIn, "s-=", "C-=", ""),
        ("zoom_out", Action::ZoomOut, "s--", "C--", ""),
        ("zoom_reset", Action::ZoomReset, "s-0", "C-0", ""),
        ("undo", Action::Undo, "s-z", "C-z", "C-/"),
        ("redo", Action::Redo, "s-S-z", "C-S-z", ""),
        ("toggle_debug", Action::ToggleDebug, "", "", ""),
    ];
    rows.into_iter().map(|(s, a, m, l, e)| row(s, a, m, l, e, convention)).collect()
}

fn new_with_convention(convention: Convention) -> KeymapState {
    KeymapState::new_with_convention(convention, catalog(convention))
}

fn new() -> KeymapState {
    new_with_convention(Convention::Mac)
}

fn with_overrides(keys: &[(String, Vec<String>)]) -> KeymapState {
    KeymapState::with_overrides_and_convention(keys, Convention::Mac, catalog(Convention::Mac))
}

fn with_overrides_and_convention(keys: &[(String, Vec<String>)], convention: Convention) -> KeymapState {
    KeymapState::with_overrides_and_convention(keys, convention, catalog(convention))
}

fn ch(s: &str) -> Key {
    Key::Character(s.to_string())
}

fn m(ctrl: bool, alt: bool, shift: bool, sup: bool) -> Mods {
    Mods { ctrl, alt, shift, sup }
}

fn none() -> Mods {
    m(false, false, false, false)
}
fn ctrl() -> Mods {
    m(true, false, false, false)
}
fn alt() -> Mods {
    m(false, true, false, false)
}
fn shift() -> Mods {
    m(false, false, true, false)
}
fn sup() -> Mods {
    m(false, false, false, true)
}
fn sup_shift() -> Mods {
    m(false, false, true, true)
}
fn sup_alt() -> Mods {
    m(false, true, false, true)
}
fn sup_ctrl() -> Mods {
    m(true, false, false, true)
}
fn ctrl_shift() -> Mods {
    m(true, false, true, false)
}
fn ctrl_alt() -> Mods {
    m(true, true, false, false)
}

fn keys(v: &[(&str, &[&str])]) -> Vec<(String, Vec<String>)> {
    v.iter().map(|(n, cs)| (n.to_string(), cs.iter().map(|c| c.to_string()).collect())).collect()
}

fn strings(v: &[&str]) -> Vec<String> {
    v.iter().map(|s| s.to_string()).collect()
}

#[test]
fn ctrl_motions() {
    let mut km = new();
    assert_eq!(km.resolve(&ch("f"), ctrl()), Action::ForwardChar);
    assert_eq!(km.resolve(&ch("b"), ctrl()), Action::BackwardChar);
    assert_eq!(km.resolve(&ch("n"), ctrl()), Action::NextLine);
    assert_eq!(km.resolve(&ch("p"), ctrl()), Action::PreviousLine);
    assert_eq!(km.resolve(&ch("a"), ctrl()), Action::LineStart);
    assert_eq!(km.resolve(&ch("e"), ctrl()), Action::LineEnd);
}

#[test]
fn ctrl_editing() {
    let mut km = new();
    assert_eq!(km.resolve(&ch("d"), ctrl()), Action::DeleteForward);
    assert_eq!(km.resolve(&ch("k"), ctrl()), Action::KillLine);
    assert_eq!(km.resolve(&ch("y"), ctrl()), Action::Yank);
    assert_eq!(km.resolve(&ch("g"), ctrl()), Action::Cancel);
}

#[test]
fn ctrl_search() {
    let mut km = new();
    assert_eq!(km.resolve(&ch("s"), ctrl()), Action::SearchForward);
    assert_eq!(km.resolve(&ch("r"), ctrl()), Action::SearchBackward);
}

#[test]
fn both_convention_modifiers_keep_the_data_backed_emacs_fallback() {
    let both = sup_ctrl();
    for convention in [Convention::Mac, Convention::Linux] {
        let mut km = new_with_convention(convention);
        assert_eq!(km.resolve(&ch("f"), both), Action::ForwardChar);
        assert_eq!(km.resolve(&ch("s"), both), Action::SearchForward);
        assert_eq!(km.resolve(&ch("c"), both), Action::BeginPrefix);
        assert_eq!(km.resolve(&ch("o"), both), Action::FollowLink);
    }
}

#[test]
fn cmd_f_find_and_replace_bindings() {
    let mut km = new();
    assert_eq!(km.resolve(&ch("f"), sup()), Action::SearchForward);
    assert_eq!(km.resolve(&ch("F"), sup_shift()), Action::SearchBackward);
    assert_eq!(km.resolve(&ch("f"), sup_alt()), Action::OpenReplace);
    assert_eq!(km.resolve(&ch("r"), sup()), Action::OpenReplace);
    assert_eq!(km.resolve(&ch("R"), sup_shift()), Action::OpenReplace);
    assert_eq!(km.resolve(&ch("s"), ctrl()), Action::SearchForward);
    assert_eq!(km.resolve(&ch("r"), ctrl()), Action::SearchBackward);
    assert_eq!(km.resolve(&ch("f"), none()), Action::InsertChar('f'));
    assert_eq!(km.resolve(&ch("f"), ctrl()), Action::ForwardChar);
    assert!(!Action::OpenReplace.is_motion() && !Action::OpenReplace.is_edit());
}

#[test]
fn option_letter_layer_is_retired_word_and_buffer_moved_to_native() {
    let mut km = new();
    assert_eq!(km.resolve(&ch("f"), alt()), Action::InsertChar('f'), "M-f retired");
    assert_eq!(km.resolve(&ch("b"), alt()), Action::InsertChar('b'), "M-b retired");
    assert_eq!(km.resolve(&ch("w"), alt()), Action::InsertChar('w'), "M-w retired");
    assert_eq!(km.resolve(&ch("v"), alt()), Action::InsertChar('v'), "M-v retired");
    assert_eq!(km.resolve(&ch("<"), alt()), Action::InsertChar('<'), "M-< retired");
    assert_eq!(km.resolve(&ch(">"), alt()), Action::InsertChar('>'), "M-> retired");
    assert_eq!(km.resolve(&Key::Named(NamedKey::ArrowRight), alt()), Action::ForwardWord);
    assert_eq!(km.resolve(&Key::Named(NamedKey::ArrowLeft), alt()), Action::BackwardWord);
    assert_eq!(km.resolve(&Key::Named(NamedKey::ArrowUp), sup()), Action::BufferStart);
    assert_eq!(km.resolve(&Key::Named(NamedKey::ArrowDown), sup()), Action::BufferEnd);
}

#[test]
fn option_forward_delete_deletes_word_forward() {
    let mut km = new();
    assert_eq!(km.resolve(&Key::Named(NamedKey::Delete), alt()), Action::DeleteWordForward);
    assert_eq!(km.resolve(&Key::Named(NamedKey::Delete), ctrl()), Action::DeleteWordForward);
    assert_eq!(km.resolve(&Key::Named(NamedKey::Delete), none()), Action::DeleteForward);
    assert_eq!(km.resolve(&ch("d"), alt()), Action::InsertChar('d'));
}

#[test]
fn self_insert() {
    let mut km = new();
    assert_eq!(km.resolve(&ch("h"), none()), Action::InsertChar('h'));
    assert_eq!(km.resolve(&ch("Z"), none()), Action::InsertChar('Z'));
}

#[test]
fn c_x_defaults_are_retired_but_the_prefix_machinery_survives() {
    let mut km = new();
    assert_eq!(km.resolve(&ch("x"), ctrl()), Action::BeginPrefix);
    assert!(km.in_prefix(), "C-x still arms the prefix");
    assert_eq!(km.resolve(&ch("s"), ctrl()), Action::Cancel, "C-x C-s retired");
    assert!(!km.in_prefix(), "the second key clears the prefix");
    for (k, md) in [
        (ch("c"), ctrl()),
        (ch("t"), none()),
        (ch("w"), none()),
        (ch("c"), none()),
        (ch("r"), none()),
        (ch("}"), none()),
        (ch("{"), none()),
        (ch("#"), none()),
        (ch("b"), none()),
        (ch("j"), none()),
        (ch("f"), ctrl()),
    ] {
        assert_eq!(km.resolve(&ch("x"), ctrl()), Action::BeginPrefix);
        assert_eq!(km.resolve(&k, md), Action::Cancel, "C-x second key retired");
        assert!(!km.in_prefix());
    }
    assert_eq!(km.resolve(&ch("s"), sup()), Action::Save);
    assert_eq!(km.resolve(&ch("q"), sup()), Action::Quit);
}

#[test]
fn native_doors_resolve() {
    let mut km = new();
    assert_eq!(km.resolve(&ch("o"), sup()), Action::OpenGoto);
    assert_eq!(km.resolve(&ch("O"), sup()), Action::OpenGoto);
    assert_eq!(km.resolve(&ch("n"), sup()), Action::NewNote);
    assert_eq!(km.resolve(&ch("t"), sup()), Action::OpenThemeMenu);
    assert_eq!(km.resolve(&ch("q"), sup()), Action::Quit);
    assert_eq!(km.resolve(&ch("P"), sup_shift()), Action::OpenProject);
    assert_eq!(km.resolve(&ch("p"), sup_shift()), Action::OpenProject);
    assert_eq!(km.resolve(&Key::Named(NamedKey::Tab), ctrl()), Action::LastBuffer);
    for c in ["o", "n", "t", "q"] {
        assert_eq!(km.resolve(&ch(c), none()), Action::InsertChar(c.chars().next().unwrap()));
    }
    assert_eq!(km.resolve(&Key::Named(NamedKey::Tab), none()), Action::InsertTab);
    for a in [Action::OpenGoto, Action::NewNote, Action::OpenThemeMenu, Action::OpenProject, Action::LastBuffer] {
        assert!(!a.is_motion());
        assert!(!a.is_edit());
    }
}

#[test]
fn cmd_w_finishes_file_and_cmd_comma_opens_settings() {
    let mut km = new();
    assert_eq!(km.resolve(&ch("w"), sup()), Action::FinishBuffer);
    assert_eq!(km.resolve(&ch("W"), sup()), Action::FinishBuffer);
    assert_eq!(km.resolve(&ch(","), sup()), Action::OpenSettingsMenu);
    assert_eq!(km.resolve(&ch("w"), none()), Action::InsertChar('w'));
    assert_eq!(km.resolve(&ch(","), none()), Action::InsertChar(','));
    for a in [Action::FinishBuffer, Action::OpenSettingsMenu] {
        assert!(!a.is_motion());
        assert!(!a.is_edit());
    }
}

#[test]
fn cmd_period_cancels_quietly() {
    let mut km = new();
    assert_eq!(km.resolve(&ch("."), sup()), Action::Cancel);
    assert_eq!(km.resolve(&ch("."), sup_shift()), Action::ToggleHiddenFiles);
    assert_eq!(km.resolve(&ch(">"), sup_shift()), Action::ToggleHiddenFiles);
    assert_eq!(km.resolve(&ch("."), none()), Action::InsertChar('.'));
}

#[test]
fn cmd_shift_l_toggles_task_list() {
    let mut km = new();
    assert_eq!(km.resolve(&ch("L"), sup_shift()), Action::ToggleTaskList);
    assert_eq!(km.resolve(&ch("l"), sup_shift()), Action::ToggleTaskList);
    assert_eq!(km.resolve(&ch("l"), sup()), Action::Ignore, "plain Cmd-L stays unbound");
    assert_eq!(km.resolve(&ch("l"), none()), Action::InsertChar('l'));
    assert!(!Action::ToggleTaskList.is_motion());
    assert!(Action::ToggleTaskList.is_edit());
}

#[test]
fn cmd_k_opens_insert_link() {
    let mut km = new();
    assert_eq!(km.resolve(&ch("k"), sup()), Action::InsertLink);
    assert_eq!(km.resolve(&ch("K"), sup()), Action::InsertLink);
    assert_eq!(km.resolve(&ch("k"), none()), Action::InsertChar('k'));
    assert!(!Action::InsertLink.is_motion());
    assert!(!Action::InsertLink.is_edit());
}

#[test]
fn cmd_g_aliases_search_forward_and_backward() {
    let mut km = new();
    assert_eq!(km.resolve(&ch("g"), sup()), Action::SearchForward);
    assert_eq!(km.resolve(&ch("G"), sup()), Action::SearchForward);
    assert_eq!(km.resolve(&ch("G"), sup_shift()), Action::SearchBackward);
    assert_eq!(km.resolve(&ch("g"), sup_shift()), Action::SearchBackward);
    assert_eq!(km.resolve(&ch("g"), none()), Action::InsertChar('g'));
    assert_eq!(km.resolve(&ch("g"), ctrl()), Action::Cancel);
    assert_eq!(km.resolve(&ch("g"), sup_alt()), Action::Ignore);
}

#[test]
fn c_c_prefix_follows_link() {
    let mut km = new();
    assert_eq!(km.resolve(&ch("c"), ctrl()), Action::BeginPrefix);
    assert!(km.in_prefix(), "C-c arms the prefix");
    assert_eq!(km.resolve(&ch("o"), ctrl()), Action::FollowLink);
    assert!(!km.in_prefix(), "the second key clears the prefix");
    assert_eq!(km.resolve(&ch("c"), ctrl()), Action::BeginPrefix);
    assert_eq!(km.resolve(&ch("z"), ctrl()), Action::Cancel);
    assert!(!km.in_prefix());
}

#[test]
fn cmd_p_opens_command_palette() {
    let mut km = new();
    assert_eq!(km.resolve(&ch("p"), sup()), Action::OpenCommandPalette);
    assert_eq!(km.resolve(&ch("P"), sup()), Action::OpenCommandPalette);
    assert_eq!(km.resolve(&ch("p"), none()), Action::InsertChar('p'));
    assert_eq!(km.resolve(&ch("x"), ctrl()), Action::BeginPrefix);
    assert!(km.in_prefix());
    assert_eq!(km.resolve(&ch("p"), sup()), Action::Cancel);
    assert!(!km.in_prefix());
}

#[test]
fn cmd_shift_o_toggles_outline_and_plain_cmd_o_goes_to_file() {
    let mut km = new();
    assert_eq!(km.resolve(&ch("O"), sup_shift()), Action::ToggleOutline);
    assert_eq!(km.resolve(&ch("o"), sup_shift()), Action::ToggleOutline);
    assert_eq!(km.resolve(&ch("o"), sup()), Action::OpenGoto);
}

#[test]
fn cmd_shift_h_opens_history() {
    let mut km = new();
    assert_eq!(km.resolve(&ch("H"), sup_shift()), Action::OpenHistory);
    assert_eq!(km.resolve(&ch("h"), sup_shift()), Action::OpenHistory);
    assert_eq!(km.resolve(&ch("h"), sup()), Action::Ignore);
    assert!(!Action::OpenHistory.is_motion());
    assert!(!Action::OpenHistory.is_edit());
}

#[test]
fn unbound_super_chords_are_calm_noops() {
    let mut km = new();
    for c in ['d', 'j', 'l', 'u', 'm', 'h'] {
        assert_eq!(
            km.resolve(&ch(&c.to_string()), sup()),
            Action::Ignore,
            "Cmd-{c} is unbound and must be a calm no-op, not self-insert"
        );
    }
    assert_eq!(km.resolve(&ch("'"), sup()), Action::Ignore);
    assert_eq!(km.resolve(&ch("k"), sup_alt()), Action::Ignore);
    assert_eq!(km.resolve(&ch("h"), sup_ctrl()), Action::Ignore);
    let keys = keys(&[("go_to_file", &["Cmd-k"])]);
    let mut km_bound = with_overrides(&keys);
    assert_eq!(km_bound.resolve(&ch("k"), sup()), Action::OpenGoto);
}

#[test]
fn bare_control_unbound_was_already_a_calm_noop_and_still_is() {
    let mut km = new();
    for c in ['h', 'j', 'l', 'm', 'o', 't', 'u', 'z'] {
        assert_eq!(km.resolve(&ch(&c.to_string()), ctrl()), Action::Ignore, "C-{c} is unbound and must stay a calm no-op");
    }
    assert_eq!(km.resolve(&ch("g"), alt()), Action::InsertChar('g'));
}

#[test]
fn cmd_backspace_deletes_to_line_start() {
    let mut km = new();
    assert_eq!(km.resolve(&Key::Named(NamedKey::Backspace), sup()), Action::DeleteToLineStart);
    assert_eq!(km.resolve(&Key::Named(NamedKey::Backspace), alt()), Action::DeleteWordBackward);
    assert_eq!(km.resolve(&Key::Named(NamedKey::Backspace), ctrl()), Action::DeleteWordBackward);
    assert_eq!(km.resolve(&Key::Named(NamedKey::Backspace), none()), Action::DeleteBackward);
    assert!(Action::DeleteToLineStart.is_edit());
    assert!(!Action::DeleteToLineStart.is_motion());
}

#[test]
fn cmd_shift_period_toggles_hidden_files() {
    let mut km = new();
    assert_eq!(km.resolve(&ch("."), sup_shift()), Action::ToggleHiddenFiles);
    assert_eq!(km.resolve(&ch(">"), sup_shift()), Action::ToggleHiddenFiles);
    assert!(!Action::ToggleHiddenFiles.is_motion());
    assert!(!Action::ToggleHiddenFiles.is_edit());
}

#[test]
fn option_cmd_i_summons_stats_hud_plain_cmd_i_is_italic() {
    let mut km = new();
    assert_eq!(km.resolve(&ch("i"), sup_alt()), Action::ShowStatsHud);
    assert_eq!(km.resolve(&ch("I"), sup_alt()), Action::ShowStatsHud);
    assert_eq!(km.resolve(&ch("i"), sup()), Action::Italic);
    assert_eq!(km.resolve(&ch("I"), sup()), Action::Italic);
    assert_eq!(km.resolve(&ch("i"), none()), Action::InsertChar('i'));
    assert!(!Action::ShowStatsHud.is_motion());
    assert!(!Action::ShowStatsHud.is_edit());
    assert!(Action::Italic.is_edit());
    assert!(!Action::Italic.is_motion());
}

#[test]
fn cmd_b_i_e_are_the_universal_bold_italic_inline_code_trio() {
    let mut km = new();
    assert_eq!(km.resolve(&ch("b"), sup()), Action::Bold);
    assert_eq!(km.resolve(&ch("B"), sup()), Action::Bold);
    assert_eq!(km.resolve(&ch("i"), sup()), Action::Italic);
    assert_eq!(km.resolve(&ch("I"), sup()), Action::Italic);
    assert_eq!(km.resolve(&ch("e"), sup()), Action::InlineCode);
    assert_eq!(km.resolve(&ch("E"), sup()), Action::InlineCode);
    assert_eq!(km.resolve(&ch("b"), none()), Action::InsertChar('b'));
    assert_eq!(km.resolve(&ch("i"), none()), Action::InsertChar('i'));
    assert_eq!(km.resolve(&ch("e"), none()), Action::InsertChar('e'));
    assert!(Action::Bold.is_edit());
    assert!(Action::Italic.is_edit());
    assert!(Action::InlineCode.is_edit());
    assert!(!Action::Bold.is_motion());
    assert!(!Action::Italic.is_motion());
    assert!(!Action::InlineCode.is_motion());
}

#[test]
fn cmd_a_selects_all() {
    let mut km = new();
    assert_eq!(km.resolve(&ch("a"), sup()), Action::SelectAll);
    assert_eq!(km.resolve(&ch("A"), sup()), Action::SelectAll);
    assert_eq!(km.resolve(&ch("A"), sup_shift()), Action::SelectAll);
    assert_eq!(km.resolve(&ch("a"), ctrl()), Action::LineStart);
    assert_eq!(km.resolve(&ch("a"), none()), Action::InsertChar('a'));
    assert!(!Action::SelectAll.is_motion());
    assert!(!Action::SelectAll.is_edit());
}

#[test]
fn c_x_then_unknown_cancels() {
    let mut km = new();
    km.resolve(&ch("x"), ctrl());
    assert_eq!(km.resolve(&ch("z"), none()), Action::Cancel);
    assert!(!km.in_prefix());
}

#[test]
fn c_x_then_super_combo_cancels_and_clears_prefix() {
    let mut km = new();
    assert_eq!(km.resolve(&ch("x"), ctrl()), Action::BeginPrefix);
    assert!(km.in_prefix());
    assert_eq!(km.resolve(&ch("v"), sup()), Action::Cancel);
    assert!(!km.in_prefix());
    assert_eq!(km.resolve(&ch("a"), none()), Action::InsertChar('a'));
    assert_eq!(km.resolve(&ch("x"), ctrl()), Action::BeginPrefix);
    assert_eq!(km.resolve(&ch("z"), sup()), Action::Cancel);
    assert!(!km.in_prefix());
    assert_eq!(km.resolve(&ch("v"), sup()), Action::Yank);
    assert_eq!(km.resolve(&ch("z"), sup()), Action::Undo);
}

#[test]
fn region_bindings() {
    let mut km = new();
    assert_eq!(km.resolve(&Key::Named(NamedKey::Space), ctrl()), Action::SetMark);
    assert_eq!(km.resolve(&ch("w"), ctrl()), Action::KillRegion);
    assert_eq!(km.resolve(&ch("w"), alt()), Action::InsertChar('w'));
    assert_eq!(km.resolve(&ch("c"), sup()), Action::CopyRegion);
    assert_eq!(km.resolve(&Key::Named(NamedKey::Space), none()), Action::InsertChar(' '));
}

#[test]
fn page_scroll_bindings() {
    let mut km = new();
    assert_eq!(km.resolve(&ch("v"), ctrl()), Action::PageScrollDown);
    assert_eq!(km.resolve(&ch("v"), alt()), Action::InsertChar('v'));
    assert_eq!(km.resolve(&Key::Named(NamedKey::PageDown), none()), Action::PageScrollDown);
    assert_eq!(km.resolve(&Key::Named(NamedKey::PageUp), none()), Action::PageScrollUp);
}

#[test]
fn zoom_bindings_super() {
    let mut km = new();
    assert_eq!(km.resolve(&ch("="), sup()), Action::ZoomIn);
    assert_eq!(km.resolve(&ch("+"), sup()), Action::ZoomIn);
    assert_eq!(km.resolve(&ch("-"), sup()), Action::ZoomOut);
    assert_eq!(km.resolve(&ch("_"), sup_shift()), Action::ZoomOut);
    assert_eq!(km.resolve(&ch("0"), sup()), Action::ZoomReset);
    assert_eq!(km.resolve(&ch("="), none()), Action::InsertChar('='));
}

#[test]
fn super_clipboard_aliases() {
    let mut km = new();
    assert_eq!(km.resolve(&ch("c"), sup()), Action::CopyRegion);
    assert_eq!(km.resolve(&ch("x"), sup()), Action::KillRegion);
    assert_eq!(km.resolve(&ch("v"), sup()), Action::Yank);
    assert_eq!(km.resolve(&ch("C"), sup_shift()), Action::CopyRegion);
    assert_eq!(km.resolve(&ch("X"), sup_shift()), Action::KillRegion);
    assert_eq!(km.resolve(&ch("V"), sup_shift()), Action::Yank);
}

#[test]
fn super_clipboard_does_not_disturb_undo_or_zoom() {
    let mut km = new();
    assert_eq!(km.resolve(&ch("z"), sup()), Action::Undo);
    assert_eq!(km.resolve(&ch("Z"), sup_shift()), Action::Redo);
    assert_eq!(km.resolve(&ch("0"), sup()), Action::ZoomReset);
}

#[test]
fn undo_redo_bindings() {
    let mut km = new();
    assert_eq!(km.resolve(&ch("z"), sup()), Action::Undo);
    assert_eq!(km.resolve(&ch("Z"), sup_shift()), Action::Redo);
    assert_eq!(km.resolve(&ch("/"), ctrl()), Action::Undo);
    assert_eq!(km.resolve(&ch("z"), none()), Action::InsertChar('z'));
}

#[test]
fn config_rebind_single_and_cx() {
    let keys = keys(&[("switch_theme", &["C-t"]), ("go_to_file", &["C-x g"])]);
    let mut km = with_overrides(&keys);
    assert_eq!(km.resolve(&ch("t"), ctrl()), Action::OpenThemeMenu);
    assert_eq!(km.resolve(&ch("t"), sup()), Action::OpenThemeMenu);
    assert_eq!(km.resolve(&ch("x"), ctrl()), Action::BeginPrefix);
    assert_eq!(km.resolve(&ch("t"), none()), Action::Cancel);
    assert_eq!(km.resolve(&ch("x"), ctrl()), Action::BeginPrefix);
    assert_eq!(km.resolve(&ch("g"), none()), Action::OpenGoto);
}

#[test]
fn config_bad_chord_keeps_default() {
    let keys = keys(&[("save", &["C-frobnicate"])]);
    let mut km = with_overrides(&keys);
    assert_eq!(km.resolve(&ch("s"), sup()), Action::Save);
}

#[test]
fn empty_overrides_behave_like_default() {
    let mut km = with_overrides(&[]);
    assert_eq!(km.resolve(&ch("f"), ctrl()), Action::ForwardChar);
    assert_eq!(km.resolve(&ch("t"), ctrl()), Action::Ignore);
}

#[test]
fn native_cmd_motion_and_save_defaults() {
    let mut km = new();
    assert_eq!(km.resolve(&ch("s"), sup()), Action::Save);
    assert_eq!(km.resolve(&ch("S"), sup_shift()), Action::Save);
    assert_eq!(km.resolve(&Key::Named(NamedKey::ArrowLeft), sup()), Action::LineStart);
    assert_eq!(km.resolve(&Key::Named(NamedKey::ArrowRight), sup()), Action::LineEnd);
    assert_eq!(km.resolve(&Key::Named(NamedKey::ArrowUp), sup()), Action::BufferStart);
    assert_eq!(km.resolve(&Key::Named(NamedKey::ArrowDown), sup()), Action::BufferEnd);
    assert_eq!(km.resolve(&ch("a"), ctrl()), Action::LineStart);
    assert_eq!(km.resolve(&ch("e"), ctrl()), Action::LineEnd);
    assert_eq!(km.resolve(&ch("<"), alt()), Action::InsertChar('<'));
    assert_eq!(km.resolve(&ch(">"), alt()), Action::InsertChar('>'));
    assert_eq!(km.resolve(&ch("x"), ctrl()), Action::BeginPrefix);
    assert_eq!(km.resolve(&ch("s"), ctrl()), Action::Cancel);
    assert_eq!(km.resolve(&Key::Named(NamedKey::ArrowLeft), none()), Action::BackwardChar);
    assert_eq!(km.resolve(&Key::Named(NamedKey::ArrowUp), none()), Action::PreviousLine);
    assert_eq!(km.resolve(&ch("s"), none()), Action::InsertChar('s'));
}

#[test]
fn in_prefix_tracks_the_c_x_sequence() {
    let mut km = new();
    assert!(!km.in_prefix(), "idle: not mid-prefix");
    assert_eq!(km.resolve(&ch("x"), ctrl()), Action::BeginPrefix);
    assert!(km.in_prefix(), "after C-x: mid-prefix (pending the second key)");
    assert_eq!(km.resolve(&ch("s"), ctrl()), Action::Cancel);
    assert!(!km.in_prefix(), "after the second key: prefix cleared");
    assert_eq!(km.resolve(&ch("x"), ctrl()), Action::BeginPrefix);
    assert!(km.in_prefix());
    assert_eq!(km.resolve(&ch("g"), ctrl()), Action::Cancel);
    assert!(!km.in_prefix(), "abort clears the prefix");
}

#[test]
fn two_binding_list_resolves_both_slots() {
    let keys1 = keys(&[("switch_theme", &["s-t", "C-t"])]);
    let mut km = with_overrides(&keys1);
    assert_eq!(km.resolve(&ch("t"), sup()), Action::OpenThemeMenu);
    assert_eq!(km.resolve(&ch("t"), ctrl()), Action::OpenThemeMenu);
    let capped = keys(&[("go_to_file", &["C-x g", "s-g", "M-g"])]);
    let mut km = with_overrides(&capped);
    assert_eq!(km.resolve(&ch("g"), sup()), Action::OpenGoto);
    assert_eq!(km.resolve(&ch("g"), alt()), Action::InsertChar('g'));
}

#[test]
fn is_meta_chord_only_true_for_configured_option_rebinds() {
    let km = new();
    for c in ["f", "b", "w", "v", "d", "e", "<", ">"] {
        assert!(!km.is_meta_chord(&ch(c)), "{c:?} is no longer a built-in Meta chord");
    }
    assert!(!km.is_meta_chord(&Key::Named(NamedKey::ArrowLeft)));
    let km = with_overrides(&keys(&[("toggle_debug", &["M-q"])]));
    assert!(km.is_meta_chord(&ch("q")));
    assert!(!new().is_meta_chord(&ch("q")));
}

#[test]
fn named_keys() {
    let mut km = new();
    assert_eq!(km.resolve(&Key::Named(NamedKey::ArrowLeft), none()), Action::BackwardChar);
    assert_eq!(km.resolve(&Key::Named(NamedKey::ArrowRight), alt()), Action::ForwardWord);
    assert_eq!(km.resolve(&Key::Named(NamedKey::Enter), none()), Action::Newline);
    assert_eq!(km.resolve(&Key::Named(NamedKey::Tab), none()), Action::InsertTab);
    assert_eq!(km.resolve(&Key::Named(NamedKey::Tab), shift()), Action::Outdent);
    assert_eq!(km.resolve(&Key::Named(NamedKey::Backspace), none()), Action::DeleteBackward);
}

#[test]
fn mac_convention_is_byte_identical_to_the_pre_round_table() {
    let mut km = new_with_convention(Convention::Mac);
    assert_eq!(km.resolve(&ch("z"), sup()), Action::Undo);
    assert_eq!(km.resolve(&ch("s"), sup()), Action::Save);
    assert_eq!(km.resolve(&ch("p"), sup()), Action::OpenCommandPalette);
    assert_eq!(km.resolve(&ch("n"), sup()), Action::NewNote);
    assert_eq!(km.resolve(&ch("w"), sup()), Action::FinishBuffer);
    assert_eq!(km.resolve(&ch("f"), sup()), Action::SearchForward);
    assert_eq!(km.resolve(&ch("e"), sup()), Action::InlineCode);
    assert_eq!(km.resolve(&ch("a"), sup()), Action::SelectAll);
    assert_eq!(km.resolve(&ch("g"), sup()), Action::SearchForward);
    assert_eq!(km.resolve(&ch("r"), sup()), Action::OpenReplace);
    assert_eq!(km.resolve(&ch("b"), sup()), Action::Bold);
    assert_eq!(km.resolve(&ch("c"), sup()), Action::CopyRegion);
    assert_eq!(km.resolve(&ch("x"), sup()), Action::KillRegion);
    assert_eq!(km.resolve(&ch("v"), sup()), Action::Yank);
    for (letter, want) in [
        ('s', Action::SearchForward),
        ('p', Action::PreviousLine),
        ('n', Action::NextLine),
        ('w', Action::KillRegion),
        ('f', Action::ForwardChar),
        ('e', Action::LineEnd),
        ('a', Action::LineStart),
        ('g', Action::Cancel),
        ('r', Action::SearchBackward),
        ('b', Action::BackwardChar),
        ('v', Action::PageScrollDown),
    ] {
        let mut km2 = new_with_convention(Convention::Mac);
        assert_eq!(km2.resolve(&ch(&letter.to_string()), ctrl()), want, "Ctrl-{letter} on Mac");
    }
    let mut km3 = new_with_convention(Convention::Mac);
    assert_eq!(km3.resolve(&ch("x"), ctrl()), Action::BeginPrefix);
    let mut km4 = new_with_convention(Convention::Mac);
    assert_eq!(km4.resolve(&ch("c"), ctrl()), Action::BeginPrefix);
}

#[test]
fn linux_collision_table_matches_the_documented_displaced_list() {
    let displaced: &[(char, Action)] = &[
        ('s', Action::Save),
        ('p', Action::OpenCommandPalette),
        ('n', Action::NewNote),
        ('w', Action::FinishBuffer),
        ('f', Action::SearchForward),
        ('e', Action::InlineCode),
        ('a', Action::SelectAll),
        ('g', Action::SearchForward),
        ('r', Action::OpenReplace),
        ('b', Action::Bold),
        ('v', Action::Yank),
    ];
    for (letter, want) in displaced {
        let mut km = new_with_convention(Convention::Linux);
        assert_eq!(km.resolve(&ch(&letter.to_string()), ctrl()), *want, "Ctrl-{letter} on Linux must resolve to the native meaning");
    }
    let mut kc = new_with_convention(Convention::Linux);
    assert_eq!(kc.resolve(&ch("c"), ctrl()), Action::CopyRegion);
    let mut kx = new_with_convention(Convention::Linux);
    assert_eq!(kx.resolve(&ch("x"), ctrl()), Action::KillRegion);
    let mut kk = new_with_convention(Convention::Linux);
    assert_eq!(kk.resolve(&ch("k"), ctrl()), Action::KillLine);
    let mut kd = new_with_convention(Convention::Linux);
    assert_eq!(kd.resolve(&ch("d"), ctrl()), Action::DeleteForward);
    let displaced_letters: Vec<char> = displaced.iter().map(|(l, _)| *l).chain(['c', 'x']).collect();
    let all_bare_ctrl_letters = ['f', 'b', 'n', 'p', 'a', 'e', 'd', 'k', 'y', 's', 'r', 'w', 'v', 'g', 'x', 'c'];
    for letter in all_bare_ctrl_letters {
        if displaced_letters.contains(&letter) {
            continue;
        }
        let mut mac = new_with_convention(Convention::Mac);
        let mut linux = new_with_convention(Convention::Linux);
        let key = ch(&letter.to_string());
        assert_eq!(mac.resolve(&key, ctrl()), linux.resolve(&key, ctrl()), "Ctrl-{letter} must resolve identically on both conventions");
    }
    let mut from_const: Vec<char> = linux_displaced_letters();
    from_const.sort_unstable();
    let mut from_test = displaced_letters.clone();
    from_test.sort_unstable();
    from_test.dedup();
    assert_eq!(from_const, from_test, "the displaced letters drifted from this test's own displaced list");
}

#[test]
fn linux_keep_emacs_restores_dispatch_for_kept_chords_only() {
    let keep = strings(&["C-f", "C-b", "C-n", "C-p", "C-a", "C-e"]);
    let mut km = new_with_convention(Convention::Linux);
    km.apply_linux_keep(&keep);
    assert_eq!(km.resolve(&ch("f"), ctrl()), Action::ForwardChar, "C-f kept");
    assert_eq!(km.resolve(&ch("b"), ctrl()), Action::BackwardChar, "C-b kept");
    assert_eq!(km.resolve(&ch("n"), ctrl()), Action::NextLine, "C-n kept");
    assert_eq!(km.resolve(&ch("p"), ctrl()), Action::PreviousLine, "C-p kept");
    assert_eq!(km.resolve(&ch("a"), ctrl()), Action::LineStart, "C-a kept");
    assert_eq!(km.resolve(&ch("e"), ctrl()), Action::LineEnd, "C-e kept");
    assert_eq!(km.resolve(&ch("c"), ctrl()), Action::CopyRegion, "C-c not kept: native still wins");
    let mut plain = new_with_convention(Convention::Linux);
    assert_eq!(plain.resolve(&ch("f"), ctrl()), Action::SearchForward);
    assert_eq!(plain.resolve(&ch("n"), ctrl()), Action::NewNote);
    let mut mac_kept = new_with_convention(Convention::Mac);
    mac_kept.apply_linux_keep(&keep);
    let mut mac_plain = new_with_convention(Convention::Mac);
    for letter in ['f', 'b', 'n', 'p', 'a', 'e'] {
        let key = ch(&letter.to_string());
        assert_eq!(mac_kept.resolve(&key, ctrl()), mac_plain.resolve(&key, ctrl()), "Ctrl-{letter} on Mac must be unaffected by a keep-list");
    }
}

#[test]
fn linux_keep_emacs_bad_entry_is_skipped_not_a_crash() {
    let mut km = new_with_convention(Convention::Linux);
    km.apply_linux_keep(&strings(&["C-x g", "C-frobnicate", "C-f"]));
    assert_eq!(km.resolve(&ch("f"), ctrl()), Action::ForwardChar);
    assert_eq!(km.resolve(&ch("x"), ctrl()), Action::KillRegion, "C-x is not itself kept");
}

#[test]
fn apply_linux_keep_reload_replaces_not_accumulates() {
    let mut km = new_with_convention(Convention::Linux);
    km.apply_linux_keep(&strings(&["C-f"]));
    assert_eq!(km.resolve(&ch("f"), ctrl()), Action::ForwardChar);
    assert_eq!(km.resolve(&ch("n"), ctrl()), Action::NewNote, "C-n not yet kept");
    km.apply_linux_keep(&strings(&["C-n"]));
    assert_eq!(km.resolve(&ch("f"), ctrl()), Action::SearchForward, "C-f reverted on reload");
    assert_eq!(km.resolve(&ch("n"), ctrl()), Action::NextLine, "C-n now kept");
}

#[test]
fn keymap_flavor_emacs_preset_reverts_every_displaced_chord_to_emacs_meaning() {
    let preset = linux_emacs_preset_keep();
    for letter in linux_displaced_letters() {
        let key = ch(&letter.to_string());
        let mut mac_reference = new_with_convention(Convention::Mac);
        let want = mac_reference.resolve(&key, ctrl());
        let mut linux_kept = new_with_convention(Convention::Linux);
        linux_kept.apply_linux_keep(&preset);
        assert_eq!(linux_kept.resolve(&key, ctrl()), want, "Ctrl-{letter} under the emacs preset should match Mac's emacs meaning");
    }
    let mut nav = new_with_convention(Convention::Linux);
    nav.apply_linux_keep(&preset);
    assert_eq!(nav.resolve(&ch("f"), ctrl()), Action::ForwardChar, "C-f nav");
    let mut isearch = new_with_convention(Convention::Linux);
    isearch.apply_linux_keep(&preset);
    assert_eq!(isearch.resolve(&ch("s"), ctrl()), Action::SearchForward, "C-s isearch");
    let mut cancel = new_with_convention(Convention::Linux);
    cancel.apply_linux_keep(&preset);
    assert_eq!(cancel.resolve(&ch("g"), ctrl()), Action::Cancel, "C-g cancel");
}

#[test]
fn keymap_flavor_emacs_preset_is_a_no_op_for_non_displaced_chords() {
    let preset = linux_emacs_preset_keep();
    let mut plain = new_with_convention(Convention::Linux);
    let mut kept = new_with_convention(Convention::Linux);
    kept.apply_linux_keep(&preset);
    for letter in ['k', 'd', 'y'] {
        let key = ch(&letter.to_string());
        assert_eq!(plain.resolve(&key, ctrl()), kept.resolve(&key, ctrl()), "Ctrl-{letter} must be unaffected by the emacs preset");
    }
}

#[test]
fn config_keys_override_wins_over_the_emacs_preset() {
    let preset = linux_emacs_preset_keep();
    let mut km = with_overrides_and_convention(&keys(&[("copy", &["C-c"])]), Convention::Linux);
    km.apply_linux_keep(&preset);
    assert_eq!(km.resolve(&ch("c"), ctrl()), Action::CopyRegion, "[keys] override wins over the preset");
}

#[test]
fn out_of_the_box_linux_ctrl_k_is_kill_line_under_both_keymap_flavors() {
    for keep in [Vec::new(), linux_emacs_preset_keep()] {
        let mut km = new_with_convention(Convention::Linux);
        km.apply_linux_keep(&keep);
        assert_eq!(km.resolve(&ch("k"), ctrl()), Action::KillLine, "Ctrl-K must stay kill-line out of the box");
    }
}

#[test]
fn keys_override_reclaims_ctrl_k_for_insert_link_on_linux_over_the_builtin_keep() {
    let keep: Vec<String> = Vec::new();
    let mut km = with_overrides_and_convention(&keys(&[("insert_link", &["C-k"])]), Convention::Linux);
    km.apply_linux_keep(&keep);
    assert_eq!(km.resolve(&ch("k"), ctrl()), Action::InsertLink, "[keys] override wins over the built-in keep");
    let mut plain = new_with_convention(Convention::Linux);
    plain.apply_linux_keep(&keep);
    assert_eq!(plain.resolve(&ch("k"), ctrl()), Action::KillLine, "control: without the override, kill-line wins");
}

#[test]
fn linux_convention_resolves_untranslated_native_chords() {
    let mut km = new_with_convention(Convention::Linux);
    assert_eq!(km.resolve(&ch("z"), ctrl()), Action::Undo);
    assert_eq!(km.resolve(&ch("Z"), ctrl_shift()), Action::Redo);
    assert_eq!(km.resolve(&ch("t"), ctrl()), Action::OpenThemeMenu);
    assert_eq!(km.resolve(&ch("o"), ctrl()), Action::OpenGoto);
    assert_eq!(km.resolve(&ch("q"), ctrl()), Action::Quit);
    assert_eq!(km.resolve(&ch(","), ctrl()), Action::OpenSettingsMenu);
    assert_eq!(km.resolve(&ch(";"), ctrl()), Action::OpenSpellSuggest);
    assert_eq!(km.resolve(&ch("i"), ctrl()), Action::Italic);
    assert_eq!(km.resolve(&ch("i"), ctrl_alt()), Action::ShowStatsHud);
    assert_eq!(km.resolve(&ch("l"), ctrl_shift()), Action::ToggleTaskList);
    assert_eq!(km.resolve(&ch("h"), ctrl_shift()), Action::OpenHistory);
    assert_eq!(km.resolve(&ch("o"), ctrl_shift()), Action::ToggleOutline);
    assert_eq!(km.resolve(&ch("p"), ctrl_shift()), Action::OpenProject);
    assert_eq!(km.resolve(&ch("="), ctrl()), Action::ZoomIn);
    assert_eq!(km.resolve(&ch("0"), ctrl()), Action::ZoomReset);
    assert_eq!(km.resolve(&ch("s"), sup()), Action::Ignore);
    assert_eq!(km.resolve(&ch("s"), sup_ctrl()), Action::SearchForward);
}

#[test]
fn linux_convention_buffer_start_end_use_ctrl_home_end_not_ctrl_up_down() {
    let mut km = new_with_convention(Convention::Linux);
    assert_eq!(km.resolve(&Key::Named(NamedKey::Home), ctrl()), Action::BufferStart);
    assert_eq!(km.resolve(&Key::Named(NamedKey::End), ctrl()), Action::BufferEnd);
    assert_eq!(km.resolve(&Key::Named(NamedKey::Home), none()), Action::LineStart);
    assert_eq!(km.resolve(&Key::Named(NamedKey::End), none()), Action::LineEnd);
    let mut mac = new_with_convention(Convention::Mac);
    assert_eq!(mac.resolve(&Key::Named(NamedKey::Home), ctrl()), Action::LineStart);
    assert_eq!(mac.resolve(&Key::Named(NamedKey::End), ctrl()), Action::LineEnd);
}

#[test]
fn keys_overrides_are_convention_agnostic() {
    let cfg = keys(&[("toggle_debug", &["Cmd-J"])]);
    let mut linux = with_overrides_and_convention(&cfg, Convention::Linux);
    assert_eq!(linux.resolve(&ch("j"), sup()), Action::ToggleDebug);
    assert_eq!(linux.resolve(&ch("j"), ctrl()), Action::Ignore);
}

#[test]
fn every_catalog_default_slot_dispatches_through_real_keymap_under_both_conventions_and_flavors() {
    fn resolve_spec(km: &mut KeymapState, spec: &str) -> Vec<Action> {
        spec.split_whitespace()
            .map(|token| {
                let (key, mods) = awl::keyspec::parse_chord(token).expect("catalog chord parses");
                km.resolve(&key, mods)
            })
            .collect()
    }
    for r in catalog(Convention::Mac) {
        for spec in [r.native.as_str(), r.emacs.as_str()] {
            if spec.is_empty() {
                continue;
            }
            let mut mac = new_with_convention(Convention::Mac);
            let trace = resolve_spec(&mut mac, spec);
            assert_eq!(trace.last(), Some(&r.action), "Mac: {} {spec:?}", r.slug);
            if spec.split_whitespace().count() == 2 {
                assert_eq!(trace.first(), Some(&Action::BeginPrefix), "Mac prefix trace: {}", r.slug);
            }
        }
    }
    let native_keep: Vec<String> = Vec::new();
    let emacs_keep = linux_emacs_preset_keep();
    for r in catalog(Convention::Linux) {
        let native = r.native_resolved.clone();
        let builtin_kept = awl::keymap::linux_keeps_chord(&strings(&["C-k"]), &native);
        if !native.is_empty() {
            let mut km = new_with_convention(Convention::Linux);
            km.apply_linux_keep(&native_keep);
            let actual = resolve_spec(&mut km, &native);
            if builtin_kept {
                assert_ne!(actual.last(), Some(&r.action), "Linux native keep must suppress {} {native:?}", r.slug);
            } else {
                assert_eq!(actual.last(), Some(&r.action), "Linux native: {} {native:?}", r.slug);
            }
            let mut emacs_flavor = new_with_convention(Convention::Linux);
            emacs_flavor.apply_linux_keep(&emacs_keep);
            let actual = resolve_spec(&mut emacs_flavor, &native);
            if !builtin_kept && !awl::keymap::linux_keeps_chord(&emacs_keep, &native) {
                assert_eq!(actual.last(), Some(&r.action), "Linux emacs flavor non-collision: {} {native:?}", r.slug);
            }
        }
        if !r.emacs.is_empty() {
            let mut native_flavor = new_with_convention(Convention::Linux);
            native_flavor.apply_linux_keep(&native_keep);
            let actual = resolve_spec(&mut native_flavor, &r.emacs);
            if awl::keymap::linux_displaces_emacs_default(&r.emacs, &strings(&["C-k"])) {
                assert_ne!(actual.last(), Some(&r.action), "Linux native flavor must displace {} {:?}", r.slug, r.emacs);
            } else {
                assert_eq!(actual.last(), Some(&r.action), "Linux native flavor: {} {:?}", r.slug, r.emacs);
            }
            let mut emacs_flavor = new_with_convention(Convention::Linux);
            emacs_flavor.apply_linux_keep(&emacs_keep);
            let trace = resolve_spec(&mut emacs_flavor, &r.emacs);
            assert_eq!(trace.last(), Some(&r.action), "Linux emacs flavor: {} {:?}", r.slug, r.emacs);
            if r.emacs.split_whitespace().count() == 2 {
                assert_eq!(trace.first(), Some(&Action::BeginPrefix), "Linux emacs prefix trace: {}", r.slug);
            }
        }
    }
}

// --- Laws on concrete values ---------------------------------------------------------

#[test]
fn a_prefix_never_outlives_its_second_key() {
    let mut km = new();
    for (k, md) in [(ch("q"), none()), (Key::Named(NamedKey::Escape), none()), (ch("v"), sup()), (Key::Unidentified, none())] {
        assert_eq!(km.resolve(&ch("c"), ctrl()), Action::BeginPrefix);
        km.resolve(&k, md);
        assert!(!km.in_prefix());
    }
}

#[test]
fn the_keep_floor_survives_every_reload() {
    let mut km = new_with_convention(Convention::Linux);
    km.apply_linux_keep(&strings(&["C-f"]));
    km.apply_linux_keep(&strings(&["C-n"]));
    assert_eq!(km.resolve(&ch("k"), ctrl()), Action::KillLine);
}

#[test]
fn a_reload_of_the_keys_replaces_the_bindings() {
    let mut km = with_overrides(&keys(&[("switch_theme", &["C-t"])]));
    assert_eq!(km.resolve(&ch("t"), ctrl()), Action::OpenThemeMenu);
    km.apply_overrides(&keys(&[("go_to_file", &["C-j"])]));
    assert_eq!(km.resolve(&ch("t"), ctrl()), Action::Ignore);
    assert_eq!(km.resolve(&ch("j"), ctrl()), Action::OpenGoto);
    km.apply_overrides(&keys(&[("no_such_command", &["C-t"])]));
    assert_eq!(km.resolve(&ch("t"), ctrl()), Action::Ignore);
}

#[test]
fn unidentified_keys_do_nothing() {
    let mut km = new();
    assert_eq!(km.resolve(&Key::Unidentified, none()), Action::Ignore);
    assert_eq!(km.resolve(&Key::Named(NamedKey::Other), none()), Action::Ignore);
    assert_eq!(km.resolve(&ch("\u{7}"), none()), Action::Ignore);
    assert_eq!(km.resolve(&ch(""), none()), Action::Ignore);
}

#[test]
fn changing_one_valid_default_slot_changes_both_label_and_dispatch() {
    let mutated = vec![row("save", Action::Save, "Cmd-J", "Cmd-J", "", Convention::Mac)];
    let mut km = KeymapState::new_with_convention(Convention::Mac, mutated);
    let (key, mods) = awl::keyspec::parse_chord("Cmd-J").unwrap();
    assert_eq!(km.resolve(&key, mods), Action::Save);
    let (key, mods) = awl::keyspec::parse_chord("Cmd-S").unwrap();
    assert_eq!(km.resolve(&key, mods), Action::Ignore);
}

// --- Replaying a key sequence through one keymap ------------------------------------

/// The catalog a `--keys` replay runs over: the Mac catalog, with the
/// emacs prefix and Meta defaults the replay tests exercise.
fn replay_catalog() -> Vec<DefaultBinding> {
    let mut rows = catalog(Convention::Mac);
    for r in rows.iter_mut() {
        match r.slug.as_str() {
            "save" => r.emacs = "C-x C-s".to_string(),
            "quit" => r.emacs = "C-x C-c".to_string(),
            "document_end" => r.emacs = "M->".to_string(),
            "document_start" => r.emacs = "M-<".to_string(),
            _ => {}
        }
    }
    rows
}

fn parse_keys(spec: &str) -> Result<Vec<Action>, awl::keyspec::ChordError> {
    awl::keyspec::parse_keys(spec, Convention::Mac, replay_catalog())
}

fn parse_keys_with(spec: &str, keys: &[(String, Vec<String>)]) -> Result<Vec<Action>, awl::keyspec::ChordError> {
    awl::keyspec::parse_keys_with(spec, keys, Convention::Mac, replay_catalog())
}

#[test]
fn parse_keys_through_one_keymap_keeps_the_prefix_state() {
    assert_eq!(parse_keys_through("C-x C-s", KeymapState::new_with_convention(Convention::Mac, replay_catalog())).unwrap(), vec![Action::Save]);
    assert_eq!(parse_keys_through("C-n", new()).unwrap(), vec![Action::NextLine]);
}

#[test]
fn c_x_prefix_save() {
    assert_eq!(parse_keys("C-x C-s").unwrap(), vec![Action::Save]);
}

#[test]
fn meta_buffer_end() {
    assert_eq!(parse_keys("M->").unwrap(), vec![Action::BufferEnd]);
}

#[test]
fn meta_buffer_start() {
    assert_eq!(parse_keys("M-<").unwrap(), vec![Action::BufferStart]);
}

#[test]
fn save_and_quit_via_prefix() {
    assert_eq!(parse_keys("C-x C-s C-x C-c").unwrap(), vec![Action::Save, Action::Quit]);
}

#[test]
fn parse_keys_with_honours_config_rebind() {
    let cfg = keys(&[("toggle_debug", &["C-j"][..])]);
    assert_eq!(parse_keys_with("C-j", &cfg).unwrap(), vec![Action::ToggleDebug]);
    assert_ne!(parse_keys("C-j").unwrap(), vec![Action::ToggleDebug], "default C-j is not ToggleDebug");
    let empty: Vec<(String, Vec<String>)> = vec![];
    for spec in ["C-n C-n", "C-x C-s", "a b"] {
        assert_eq!(parse_keys_with(spec, &empty).unwrap(), parse_keys(spec).unwrap(), "empty config == default for {spec:?}");
    }
}

#[test]
fn ctrl_motions_sequence() {
    assert_eq!(parse_keys("C-n C-n").unwrap(), vec![Action::NextLine, Action::NextLine]);
}

#[test]
fn self_insert_two_chars() {
    assert_eq!(parse_keys("a b").unwrap(), vec![Action::InsertChar('a'), Action::InsertChar('b')]);
}

#[test]
fn unknown_chord_errors() {
    assert!(parse_keys("frobnicate").is_err());
}

#[test]
fn named_keys_and_modifiers() {
    assert_eq!(parse_keys("Left Right").unwrap(), vec![Action::BackwardChar, Action::ForwardChar]);
    assert_eq!(parse_keys("M-Right").unwrap(), vec![Action::ForwardWord]);
    assert_eq!(
        parse_keys("Enter Tab Backspace Delete").unwrap(),
        vec![Action::Newline, Action::InsertTab, Action::DeleteBackward, Action::DeleteForward]
    );
}

#[test]
fn c_space_sets_mark_then_motion() {
    assert_eq!(parse_keys("C-Space C-f").unwrap(), vec![Action::SetMark, Action::ForwardChar]);
}

#[test]
fn shifted_literal_self_inserts() {
    assert_eq!(parse_keys("<").unwrap(), vec![Action::InsertChar('<')]);
}

#[test]
fn case_preserved_on_self_insert() {
    assert_eq!(parse_keys("Z").unwrap(), vec![Action::InsertChar('Z')]);
}

#[test]
fn empty_spec_is_empty() {
    assert_eq!(parse_keys("   ").unwrap(), Vec::<Action>::new());
}

#[test]
fn a_bad_chord_mid_sequence_is_the_error() {
    assert_eq!(parse_keys("C-n C-frobnicate C-n"), Err(awl::keyspec::ChordError::UnknownKey));
    assert_eq!(parse_keys("C-"), Err(awl::keyspec::ChordError::EmptyKey));
    assert_eq!(parse_keys("C-x q"), Ok(vec![Action::Cancel]));
}

#[test]
fn linux_builtin_keep_floor_is_ck() {
    assert_eq!(awl::keymap::state::linux_builtin_keep(), vec!["C-k"]);
}

#[test]
fn overrides_and_keep_list_apply_together() {
    let keys1 = keys(&[("switch_theme", &["C-t"])]);
    let keep = strings(&["C-f"]);
    let mut km = KeymapState::with_overrides_and_keep(&keys1, &keep, Convention::Linux, catalog(Convention::Linux));
    assert_eq!(km.resolve(&ch("t"), ctrl()), Action::OpenThemeMenu);
    assert_eq!(km.resolve(&ch("f"), ctrl()), Action::ForwardChar, "C-f kept");
    assert_eq!(km.resolve(&ch("n"), ctrl()), Action::NewNote, "C-n not kept");
    assert_eq!(km.resolve(&ch("k"), ctrl()), Action::KillLine, "the floor stays");
}

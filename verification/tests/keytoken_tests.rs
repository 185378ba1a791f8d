use awl::keyspec::mac_glyph_chord;
use awl::keytoken::{cmd_token_label, key_token_label, render_key_tokens, TokenLabels};

/// The labels the catalog gives the mac convention on the native platform.
fn mac_labels() -> TokenLabels {
    TokenLabels {
        keys: vec![
            ("save".to_string(), mac_glyph_chord("Cmd-S")),
            ("command_palette".to_string(), mac_glyph_chord("Cmd-P")),
            ("stats_hud".to_string(), mac_glyph_chord("Cmd-M-i")),
        ],
        cmds: vec![("widen_page".to_string(), "Widen page".to_string())],
    }
}

/// The labels the catalog gives the Linux convention on the native platform.
fn linux_labels() -> TokenLabels {
    TokenLabels {
        keys: vec![
            ("save".to_string(), "Ctrl+S".to_string()),
            ("command_palette".to_string(), "Ctrl+P".to_string()),
            ("stats_hud".to_string(), "Ctrl+Alt+I".to_string()),
        ],
        cmds: vec![("widen_page".to_string(), "Widen page".to_string())],
    }
}

#[test]
fn render_key_tokens_substitutes_a_known_slug() {
    let out = render_key_tokens("press {{key:save}} to save", &mac_labels());
    assert_eq!(out, "press \u{2318}S to save");
}

#[test]
fn render_key_tokens_flags_an_unknown_slug_rather_than_vanishing() {
    let out = render_key_tokens("{{key:nope}}", &mac_labels());
    assert_eq!(out, "[[unknown-key:nope]]");
}

#[test]
fn render_key_tokens_leaves_an_unterminated_token_verbatim() {
    let out = render_key_tokens("abc {{key:save no close", &mac_labels());
    assert_eq!(out, "abc {{key:save no close");
}

#[test]
fn render_key_tokens_substitutes_a_known_cmd_slug() {
    let out = render_key_tokens("open {{cmd:widen_page}} from the palette", &mac_labels());
    assert_eq!(out, "open Widen page from the palette");
    let out_linux = render_key_tokens("{{cmd:widen_page}}", &linux_labels());
    assert_eq!(out_linux, "Widen page");
}

#[test]
fn render_key_tokens_flags_an_unknown_cmd_slug_rather_than_vanishing() {
    let out = render_key_tokens("{{cmd:nope}}", &mac_labels());
    assert_eq!(out, "[[unknown-cmd:nope]]");
}

#[test]
fn render_key_tokens_flags_an_unrecognized_token_kind() {
    let out = render_key_tokens("{{bogus:widen_page}}", &mac_labels());
    assert_eq!(out, "[[unknown-token:bogus:widen_page]]");
}

#[test]
fn synthetic_tokens_resolve_on_both_conventions() {
    assert_eq!(key_token_label("command_palette", &mac_labels()).as_deref(), Some("\u{2318}P"));
    assert_eq!(key_token_label("command_palette", &linux_labels()).as_deref(), Some("Ctrl+P"));
    assert!(key_token_label("stats_hud", &mac_labels()).is_some());
    assert!(key_token_label("stats_hud", &linux_labels()).is_some());
}

#[test]
fn several_tokens_render_in_order_and_text_between_stays() {
    let out = render_key_tokens("{{key:save}}, then {{cmd:widen_page}}; {{}} and {{{key:save}}", &mac_labels());
    assert_eq!(out, "\u{2318}S, then Widen page; [[unknown-token:]] and [[unknown-token:{key:save]]");
    assert_eq!(render_key_tokens("no tokens at all", &mac_labels()), "no tokens at all");
    assert_eq!(render_key_tokens("", &mac_labels()), "");
    assert_eq!(render_key_tokens("a }} b {{", &mac_labels()), "a }} b {{");
}

#[test]
fn a_slug_resolves_to_its_first_label() {
    let labels = TokenLabels {
        keys: vec![("save".to_string(), "first".to_string()), ("save".to_string(), "second".to_string())],
        cmds: vec![],
    };
    assert_eq!(key_token_label("save", &labels).as_deref(), Some("first"));
    assert_eq!(cmd_token_label("save", &labels), None);
    assert_eq!(cmd_token_label("widen_page", &mac_labels()).as_deref(), Some("Widen page"));
}

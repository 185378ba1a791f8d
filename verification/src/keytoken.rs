//! Chord and command-name tokens in the starting docs. `{{key:slug}}` stands
//! for the chord of the command named `slug` and `{{cmd:slug}}` for its
//! display name; rendering substitutes them from label tables that the
//! command catalog fills for one convention and platform, so a doc never
//! shows a chord that does not fire. An unknown slug, an unknown token kind
//! and an unterminated token stay visible instead of vanishing.

use vstd::prelude::*;
use crate::text::{append_str, str_eq, str_to_chars, string_of};

verus! {

/// The texts tokens resolve to, for one convention and platform.
pub struct TokenLabels {
    /// Command slug and its chord label, for `{{key:slug}}`.
    pub keys: Vec<(String, String)>,
    /// Command slug and its display name, for `{{cmd:slug}}`.
    pub cmds: Vec<(String, String)>,
}

/// The mac-convention key labels of the two dedicated chords that have no
/// catalog row, the command palette's `Cmd-P` and the held stats HUD's
/// `Cmd-M-i`: the rows to add to a catalog's [`TokenLabels::keys`] so their
/// tokens resolve too.
pub fn synthetic_mac_keys() -> (r: Vec<(String, String)>)
    ensures
        r@.len() == 2,
        r@[0].0@ == "command_palette"@,
        r@[0].1@ == crate::keyspec::mac_glyph_chord_of("Cmd-P"@),
        r@[1].0@ == "stats_hud"@,
        r@[1].1@ == crate::keyspec::mac_glyph_chord_of("Cmd-M-i"@),
{
    let mut r: Vec<(String, String)> = Vec::new();
    r.push(("command_palette".to_string(), crate::keyspec::mac_glyph_chord("Cmd-P")));
    r.push(("stats_hud".to_string(), crate::keyspec::mac_glyph_chord("Cmd-M-i")));
    r
}

/// The text of the first entry of `table` for `slug`.
pub open spec fn label_of(table: Seq<(String, String)>, slug: Seq<char>) -> Option<Seq<char>>
    decreases table.len(),
{
    if table.len() == 0 {
        None
    } else if table[0].0@ == slug {
        Some(table[0].1@)
    } else {
        label_of(table.drop_first(), slug)
    }
}

/// The first position from `i` on where `s` holds `a` and then `b`.
pub open spec fn find_pair(s: Seq<char>, a: char, b: char, i: int) -> Option<int>
    decreases s.len() - i,
{
    if i < 0 || i + 1 >= s.len() {
        None
    } else if s[i] == a && s[i + 1] == b {
        Some(i)
    } else {
        find_pair(s, a, b, i + 1)
    }
}

pub proof fn lemma_find_pair(s: Seq<char>, a: char, b: char, i: int)
    ensures
        find_pair(s, a, b, i) matches Some(k) ==> i <= k && k + 1 < s.len() && s[k] == a && s[k + 1] == b,
    decreases s.len() - i,
{
    if !(i < 0 || i + 1 >= s.len()) && !(s[i] == a && s[i + 1] == b) {
        lemma_find_pair(s, a, b, i + 1);
    }
}

/// The visible marker for a token of `kind` that resolves to nothing:
/// `[[unknown-kind:body]]`.
pub open spec fn unknown_marker(kind: Seq<char>, body: Seq<char>) -> Seq<char> {
    seq!['[', '[', 'u', 'n', 'k', 'n', 'o', 'w', 'n', '-'] + kind + seq![':'] + body + seq![']', ']']
}

/// `s` starts with the four characters `p`.
pub open spec fn has_prefix4(s: Seq<char>, p: Seq<char>) -> bool {
    s.len() >= 4 && s.take(4) == p
}

/// What the token with inner text `inner` renders as: `key:` a chord label,
/// `cmd:` a command name, anything else an unknown-token marker.
pub open spec fn token_text(inner: Seq<char>, keys: Seq<(String, String)>, cmds: Seq<(String, String)>) -> Seq<char> {
    if has_prefix4(inner, seq!['k', 'e', 'y', ':']) {
        match label_of(keys, inner.skip(4)) {
            Some(l) => l,
            None => unknown_marker(seq!['k', 'e', 'y'], inner.skip(4)),
        }
    } else if has_prefix4(inner, seq!['c', 'm', 'd', ':']) {
        match label_of(cmds, inner.skip(4)) {
            Some(l) => l,
            None => unknown_marker(seq!['c', 'm', 'd'], inner.skip(4)),
        }
    } else {
        unknown_marker(seq!['t', 'o', 'k', 'e', 'n'], inner)
    }
}

/// `t` from position `pos` on with every complete `{{...}}` token rendered;
/// from an opening `{{` that no `}}` closes, the text stays as it is.
pub open spec fn render_from(t: Seq<char>, pos: int, keys: Seq<(String, String)>, cmds: Seq<(String, String)>) -> Seq<
    char,
>
    decreases t.len() - pos,
{
    if pos < 0 || pos > t.len() {
        seq![]
    } else {
        match find_pair(t, '{', '{', pos) {
            None => t.subrange(pos, t.len() as int),
            Some(i) => match find_pair(t, '}', '}', i + 2) {
                None => t.subrange(pos, t.len() as int),
                Some(j) => {
                    proof {
                        lemma_find_pair(t, '{', '{', pos);
                        lemma_find_pair(t, '}', '}', i + 2);
                    }
                    t.subrange(pos, i) + token_text(t.subrange(i + 2, j), keys, cmds) + render_from(
                        t,
                        j + 2,
                        keys,
                        cmds,
                    )
                },
            },
        }
    }
}

/// `text` with every token rendered.
pub open spec fn render_of(text: Seq<char>, keys: Seq<(String, String)>, cmds: Seq<(String, String)>) -> Seq<char> {
    render_from(text, 0, keys, cmds)
}

fn lookup_label(table: &Vec<(String, String)>, slug: &str) -> (r: Option<String>)
    ensures
        match label_of(table@, slug@) {
            Some(l) => r matches Some(s) && s@ == l,
            None => r is None,
        },
{
    let mut i: usize = 0;
    proof {
        assert(table@.skip(0) =~= table@);
    }
    while i < table.len()
        invariant
            0 <= i <= table@.len(),
            label_of(table@, slug@) == label_of(table@.skip(i as int), slug@),
        decreases table.len() - i,
    {
        proof {
            assert(table@.skip(i as int)[0] == table@[i as int]);
            assert(table@.skip(i as int).drop_first() =~= table@.skip(i + 1));
        }
        if str_eq(table[i].0.as_str(), slug) {
            return Some(table[i].1.clone());
        }
        i += 1;
    }
    None
}

/// The chord label of the command named `slug` ([`label_of`] over the key
/// table), if any.
pub fn key_token_label(slug: &str, labels: &TokenLabels) -> (r: Option<String>)
    ensures
        match label_of(labels.keys@, slug@) {
            Some(l) => r matches Some(s) && s@ == l,
            None => r is None,
        },
{
    lookup_label(&labels.keys, slug)
}

/// The display name of the command named `slug` ([`label_of`] over the
/// command table), if any.
pub fn cmd_token_label(slug: &str, labels: &TokenLabels) -> (r: Option<String>)
    ensures
        match label_of(labels.cmds@, slug@) {
            Some(l) => r matches Some(s) && s@ == l,
            None => r is None,
        },
{
    lookup_label(&labels.cmds, slug)
}

fn find_pair_exec(v: &Vec<char>, from: usize, a: char, b: char) -> (r: Option<usize>)
    ensures
        match find_pair(v@, a, b, from as int) {
            Some(k) => r == Some(k as usize),
            None => r is None,
        },
{
    let mut k: usize = from;
    while k < v.len() && v.len() - k >= 2
        invariant
            from <= k,
            find_pair(v@, a, b, from as int) == find_pair(v@, a, b, k as int),
        decreases v.len() - k,
    {
        if v[k] == a && v[k + 1] == b {
            return Some(k);
        }
        k += 1;
    }
    None
}

fn push_range(out: &mut String, v: &Vec<char>, lo: usize, hi: usize)
    requires
        lo <= hi <= v@.len(),
    ensures
        final(out)@ == old(out)@ + v@.subrange(lo as int, hi as int),
{
    let s = string_of(v, lo, hi);
    append_str(out, s.as_str());
}

fn marker(out: &mut String, kind: &str, v: &Vec<char>, lo: usize, hi: usize)
    requires
        lo <= hi <= v@.len(),
    ensures
        final(out)@ == old(out)@ + unknown_marker(kind@, v@.subrange(lo as int, hi as int)),
{
    proof {
        reveal_strlit("[[unknown-");
        reveal_strlit(":");
        reveal_strlit("]]");
    }
    append_str(out, "[[unknown-");
    append_str(out, kind);
    append_str(out, ":");
    push_range(out, v, lo, hi);
    append_str(out, "]]");
    proof {
        assert(final(out)@ =~= old(out)@ + unknown_marker(kind@, v@.subrange(lo as int, hi as int)));
    }
}

fn starts4(v: &Vec<char>, lo: usize, hi: usize, c0: char, c1: char, c2: char, c3: char) -> (r: bool)
    requires
        lo <= hi <= v@.len(),
    ensures
        r == has_prefix4(v@.subrange(lo as int, hi as int), seq![c0, c1, c2, c3]),
{
    let ghost s = v@.subrange(lo as int, hi as int);
    if hi - lo < 4 {
        return false;
    }
    let r = v[lo] == c0 && v[lo + 1] == c1 && v[lo + 2] == c2 && v[lo + 3] == c3;
    proof {
        if r {
            assert(s.take(4) =~= seq![c0, c1, c2, c3]);
        } else {
            if s.take(4) == seq![c0, c1, c2, c3] {
                assert(s.take(4)[0] == c0 && s.take(4)[1] == c1 && s.take(4)[2] == c2 && s.take(4)[3] == c3);
            }
        }
    }
    r
}

fn push_token(out: &mut String, v: &Vec<char>, lo: usize, hi: usize, labels: &TokenLabels)
    requires
        lo <= hi <= v@.len(),
    ensures
        final(out)@ == old(out)@ + token_text(v@.subrange(lo as int, hi as int), labels.keys@, labels.cmds@),
{
    let ghost inner = v@.subrange(lo as int, hi as int);
    if starts4(v, lo, hi, 'k', 'e', 'y', ':') {
        let slug = string_of(v, lo + 4, hi);
        proof {
            assert(inner.skip(4) =~= v@.subrange(lo + 4, hi as int));
            reveal_strlit("key");
        }
        match key_token_label(slug.as_str(), labels) {
            Some(l) => append_str(out, l.as_str()),
            None => marker(out, "key", v, lo + 4, hi),
        }
    } else if starts4(v, lo, hi, 'c', 'm', 'd', ':') {
        let slug = string_of(v, lo + 4, hi);
        proof {
            assert(inner.skip(4) =~= v@.subrange(lo + 4, hi as int));
            reveal_strlit("cmd");
        }
        match cmd_token_label(slug.as_str(), labels) {
            Some(l) => append_str(out, l.as_str()),
            None => marker(out, "cmd", v, lo + 4, hi),
        }
    } else {
        proof {
            reveal_strlit("token");
        }
        marker(out, "token", v, lo, hi);
    }
}

/// Replace every `{{key:slug}}` and `{{cmd:slug}}` token of `text` by its
/// label ([`render_of`]): an unknown slug becomes `[[unknown-key:slug]]` or
/// `[[unknown-cmd:slug]]`, a token of another kind `[[unknown-token:...]]`,
/// and an opening `{{` that no `}}` closes leaves the rest as it is.
pub fn render_key_tokens(text: &str, labels: &TokenLabels) -> (r: String)
    ensures
        r@ == render_of(text@, labels.keys@, labels.cmds@),
{
    let v = str_to_chars(text);
    let ghost t = v@;
    let ghost keys = labels.keys@;
    let ghost cmds = labels.cmds@;
    let mut out = String::new();
    let mut pos: usize = 0;
    proof {
        assert(out@ + render_from(t, 0, keys, cmds) =~= render_from(t, 0, keys, cmds));
    }
    loop
        invariant
            t == v@,
            t == text@,
            keys == labels.keys@,
            cmds == labels.cmds@,
            pos <= v@.len(),
            render_from(t, 0, keys, cmds) == out@ + render_from(t, pos as int, keys, cmds),
        decreases v@.len() - pos,
    {
        proof {
            lemma_find_pair(t, '{', '{', pos as int);
        }
        match find_pair_exec(&v, pos, '{', '{') {
            None => {
                push_range(&mut out, &v, pos, v.len());
                return out;
            },
            Some(start) => {
                proof {
                    lemma_find_pair(t, '}', '}', start + 2);
                }
                match find_pair_exec(&v, start + 2, '}', '}') {
                    None => {
                        push_range(&mut out, &v, pos, v.len());
                        return out;
                    },
                    Some(end) => {
                        proof {
                            assert(find_pair(t, '}', '}', start + 2) == Some(end as int));
                            assert(end + 1 < v@.len());
                        }
                        let ghost before = out@;
                        push_range(&mut out, &v, pos, start);
                        push_token(&mut out, &v, start + 2, end, labels);
                        proof {
                            assert(out@ + render_from(t, end + 2, keys, cmds) =~= before + render_from(
                                t,
                                pos as int,
                                keys,
                                cmds,
                            ));
                        }
                        assert(end + 2 <= v@.len());
                        assert(v@.len() <= usize::MAX);
                        pos = end + 2;
                    },
                }
            },
        }
    }
}

} // verus!

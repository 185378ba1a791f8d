//! The chord grammar of key specs: `C-x`, `M->`, `Cmd-S`, `Left`, `a`. A
//! chord is modifier prefixes, terse (`C-` Ctrl, `M-` Meta/Alt, `S-` Shift,
//! `s-` Super/Cmd) or spelled out (`Cmd-`, `Super-`, `Ctrl-`, `Control-`,
//! `Option-`, `Opt-`, `Alt-`, `Meta-`, `Shift-`, any case), then a key: a named
//! key (`Left`, `Enter`, `Esc`, ...) or one character. Chords format back to a
//! canonical terse spelling, and to the mac glyph spelling (`⌘⇧O`).

use vstd::prelude::*;
use crate::text::{ascii_lower, ascii_upper, eq_ignore_ascii_case, is_ascii_alpha, words};
use crate::keymap::state::{keep_set_of, no_layers, overrides_from, resolve_of, seeded, KeymapView};
use crate::keymap::{Action, Convention, DefaultBinding, KeymapState};

verus! {

// --- Keys and modifiers -------------------------------------------------------------

/// The named keys a keyboard reports that the keymap tells apart; `Other` is
/// any further one. The grammar spells all but the page keys and `Other`.
#[derive(Debug, Clone, Copy, PartialEq, Eq, Structural)]
pub enum NamedKey {
    ArrowLeft,
    ArrowRight,
    ArrowUp,
    ArrowDown,
    Home,
    End,
    Enter,
    Tab,
    Backspace,
    Delete,
    Space,
    Escape,
    PageUp,
    PageDown,
    Other,
}

/// A key: a named key, the text a character key produces, or a key the
/// platform could not identify.
#[derive(Debug, Clone, PartialEq, Eq)]
pub enum Key {
    Named(NamedKey),
    Character(String),
    Unidentified,
}

/// A key as the contracts see it.
pub enum KeyView {
    Named(NamedKey),
    Character(Seq<char>),
    Unidentified,
}

impl View for Key {
    type V = KeyView;

    open spec fn view(&self) -> KeyView {
        match self {
            Key::Named(n) => KeyView::Named(*n),
            Key::Character(s) => KeyView::Character(s@),
            Key::Unidentified => KeyView::Unidentified,
        }
    }
}

/// The modifiers held with a key.
#[derive(Debug, Clone, Copy, PartialEq, Eq, Structural)]
pub struct Mods {
    pub ctrl: bool,
    pub alt: bool,
    pub shift: bool,
    pub sup: bool,
}

/// No modifier.
pub open spec fn no_mods() -> Mods {
    Mods { ctrl: false, alt: false, shift: false, sup: false }
}

/// The modifiers of `a` and of `b` together.
pub open spec fn union_mods(a: Mods, b: Mods) -> Mods {
    Mods { ctrl: a.ctrl || b.ctrl, alt: a.alt || b.alt, shift: a.shift || b.shift, sup: a.sup || b.sup }
}

fn or_mods(a: Mods, b: Mods) -> (r: Mods)
    ensures
        r == union_mods(a, b),
{
    Mods { ctrl: a.ctrl || b.ctrl, alt: a.alt || b.alt, shift: a.shift || b.shift, sup: a.sup || b.sup }
}

/// Why a chord does not parse.
#[derive(Debug, Clone, Copy, PartialEq, Eq, Structural)]
pub enum ChordError {
    /// Nothing is left for the key once the modifiers are stripped.
    EmptyKey,
    /// The key is neither a named key nor a single character.
    UnknownKey,
}

// --- The grammar --------------------------------------------------------------------

/// The spelled-out modifier prefixes, in the order they are tried.
pub open spec fn word_mod_name(i: int) -> Seq<char> {
    if i == 0 {
        seq!['c', 'm', 'd', '-']
    } else if i == 1 {
        seq!['s', 'u', 'p', 'e', 'r', '-']
    } else if i == 2 {
        seq!['c', 't', 'r', 'l', '-']
    } else if i == 3 {
        seq!['c', 'o', 'n', 't', 'r', 'o', 'l', '-']
    } else if i == 4 {
        seq!['o', 'p', 't', 'i', 'o', 'n', '-']
    } else if i == 5 {
        seq!['o', 'p', 't', '-']
    } else if i == 6 {
        seq!['a', 'l', 't', '-']
    } else if i == 7 {
        seq!['m', 'e', 't', 'a', '-']
    } else {
        seq!['s', 'h', 'i', 'f', 't', '-']
    }
}

/// The modifier each spelled-out prefix stands for.
pub open spec fn word_mod_flag(i: int) -> Mods {
    if i <= 1 {
        Mods { ctrl: false, alt: false, shift: false, sup: true }
    } else if i <= 3 {
        Mods { ctrl: true, alt: false, shift: false, sup: false }
    } else if i <= 7 {
        Mods { ctrl: false, alt: true, shift: false, sup: false }
    } else {
        Mods { ctrl: false, alt: false, shift: true, sup: false }
    }
}

/// The first spelled-out prefix, from the `i`-th on, that `rest` starts with
/// (any case) while leaving at least one character after it.
pub open spec fn first_word_mod(rest: Seq<char>, i: int) -> Option<int>
    decreases 9 - i,
{
    if i < 0 || i >= 9 {
        None
    } else if rest.len() > word_mod_name(i).len() && eq_ignore_ascii_case(
        rest.take(word_mod_name(i).len() as int),
        word_mod_name(i),
    ) {
        Some(i)
    } else {
        first_word_mod(rest, i + 1)
    }
}

pub proof fn lemma_first_word_mod(rest: Seq<char>, i: int)
    ensures
        first_word_mod(rest, i) matches Some(j) ==> i <= j < 9 && 0 <= j && rest.len() > word_mod_name(j).len()
            && word_mod_name(j).len() >= 4,
    decreases 9 - i,
{
    if 0 <= i < 9 {
        lemma_first_word_mod(rest, i + 1);
    }
}

/// The modifier a terse prefix letter stands for.
pub open spec fn terse_flag(c: char) -> Option<Mods> {
    if c == 'C' {
        Some(Mods { ctrl: true, alt: false, shift: false, sup: false })
    } else if c == 'M' {
        Some(Mods { ctrl: false, alt: true, shift: false, sup: false })
    } else if c == 'S' {
        Some(Mods { ctrl: false, alt: false, shift: true, sup: false })
    } else if c == 's' {
        Some(Mods { ctrl: false, alt: false, shift: false, sup: true })
    } else {
        None
    }
}

/// Strip the modifier prefixes off `rest`, greedily, a spelled-out one
/// before a terse one at each step, gathering them onto `m`; the result is
/// what remains, with the modifiers.
pub open spec fn strip_mods(rest: Seq<char>, m: Mods) -> (Seq<char>, Mods)
    decreases rest.len(),
{
    proof {
        lemma_first_word_mod(rest, 0);
    }
    match first_word_mod(rest, 0) {
        Some(i) => strip_mods(rest.skip(word_mod_name(i).len() as int), union_mods(m, word_mod_flag(i))),
        None => if rest.len() >= 2 && rest[1] == '-' && terse_flag(rest[0]) is Some {
            strip_mods(rest.skip(2), union_mods(m, terse_flag(rest[0])->0))
        } else {
            (rest, m)
        },
    }
}

/// The named key `tok` spells, in any case.
pub open spec fn named_of(tok: Seq<char>) -> Option<NamedKey> {
    if eq_ignore_ascii_case(tok, seq!['l', 'e', 'f', 't']) {
        Some(NamedKey::ArrowLeft)
    } else if eq_ignore_ascii_case(tok, seq!['r', 'i', 'g', 'h', 't']) {
        Some(NamedKey::ArrowRight)
    } else if eq_ignore_ascii_case(tok, seq!['u', 'p']) {
        Some(NamedKey::ArrowUp)
    } else if eq_ignore_ascii_case(tok, seq!['d', 'o', 'w', 'n']) {
        Some(NamedKey::ArrowDown)
    } else if eq_ignore_ascii_case(tok, seq!['h', 'o', 'm', 'e']) {
        Some(NamedKey::Home)
    } else if eq_ignore_ascii_case(tok, seq!['e', 'n', 'd']) {
        Some(NamedKey::End)
    } else if eq_ignore_ascii_case(tok, seq!['e', 'n', 't', 'e', 'r']) || eq_ignore_ascii_case(
        tok,
        seq!['r', 'e', 't', 'u', 'r', 'n'],
    ) || eq_ignore_ascii_case(tok, seq!['r', 'e', 't']) {
        Some(NamedKey::Enter)
    } else if eq_ignore_ascii_case(tok, seq!['t', 'a', 'b']) {
        Some(NamedKey::Tab)
    } else if eq_ignore_ascii_case(tok, seq!['b', 'a', 'c', 'k', 's', 'p', 'a', 'c', 'e'])
        || eq_ignore_ascii_case(tok, seq!['d', 'e', 'l']) {
        Some(NamedKey::Backspace)
    } else if eq_ignore_ascii_case(tok, seq!['d', 'e', 'l', 'e', 't', 'e']) {
        Some(NamedKey::Delete)
    } else if eq_ignore_ascii_case(tok, seq!['s', 'p', 'a', 'c', 'e']) || eq_ignore_ascii_case(
        tok,
        seq!['s', 'p', 'c'],
    ) {
        Some(NamedKey::Space)
    } else if eq_ignore_ascii_case(tok, seq!['e', 's', 'c']) || eq_ignore_ascii_case(
        tok,
        seq!['e', 's', 'c', 'a', 'p', 'e'],
    ) {
        Some(NamedKey::Escape)
    } else {
        None
    }
}

/// What `chord` parses to: its modifiers, then a named key or a single
/// character taken verbatim.
pub open spec fn parse_chord_of(chord: Seq<char>) -> Result<(KeyView, Mods), ChordError> {
    let (rest, m) = strip_mods(chord, no_mods());
    if rest.len() == 0 {
        Err(ChordError::EmptyKey)
    } else {
        match named_of(rest) {
            Some(n) => Ok((KeyView::Named(n), m)),
            None => if rest.len() == 1 {
                Ok((KeyView::Character(rest), m))
            } else {
                Err(ChordError::UnknownKey)
            },
        }
    }
}

fn word_mod_len(i: usize) -> (n: usize)
    requires
        i < 9,
    ensures
        n == word_mod_name(i as int).len(),
{
    if i == 0 {
        4
    } else if i == 1 {
        6
    } else if i == 2 {
        5
    } else if i == 3 {
        8
    } else if i == 4 {
        7
    } else if i == 5 {
        4
    } else if i == 6 {
        4
    } else if i == 7 {
        5
    } else {
        6
    }
}

fn word_mod_text(i: usize) -> (s: &'static str)
    requires
        i < 9,
    ensures
        s@ == word_mod_name(i as int),
{
    proof {
        reveal_strlit("cmd-");
        reveal_strlit("super-");
        reveal_strlit("ctrl-");
        reveal_strlit("control-");
        reveal_strlit("option-");
        reveal_strlit("opt-");
        reveal_strlit("alt-");
        reveal_strlit("meta-");
        reveal_strlit("shift-");
    }
    if i == 0 {
        "cmd-"
    } else if i == 1 {
        "super-"
    } else if i == 2 {
        "ctrl-"
    } else if i == 3 {
        "control-"
    } else if i == 4 {
        "option-"
    } else if i == 5 {
        "opt-"
    } else if i == 6 {
        "alt-"
    } else if i == 7 {
        "meta-"
    } else {
        "shift-"
    }
}

fn word_mod_flag_exec(i: usize) -> (m: Mods)
    requires
        i < 9,
    ensures
        m == word_mod_flag(i as int),
{
    if i <= 1 {
        Mods { ctrl: false, alt: false, shift: false, sup: true }
    } else if i <= 3 {
        Mods { ctrl: true, alt: false, shift: false, sup: false }
    } else if i <= 7 {
        Mods { ctrl: false, alt: true, shift: false, sup: false }
    } else {
        Mods { ctrl: false, alt: false, shift: true, sup: false }
    }
}

/// The first spelled-out prefix `v[pos..]` starts with ([`first_word_mod`]).
fn word_mod_at(v: &Vec<char>, pos: usize) -> (r: Option<usize>)
    requires
        pos <= v@.len(),
    ensures
        r matches Some(i) ==> i < 9,
        match first_word_mod(v@.skip(pos as int), 0) {
            Some(i) => r == Some(i as usize),
            None => r is None,
        },
{
    let ghost rest = v@.skip(pos as int);
    let mut i: usize = 0;
    while i < 9
        invariant
            0 <= i <= 9,
            pos <= v@.len(),
            rest == v@.skip(pos as int),
            first_word_mod(rest, 0) == first_word_mod(rest, i as int),
        decreases 9 - i,
    {
        let n = word_mod_len(i);
        if v.len() - pos > n {
            let hit = crate::text::range_eq_ignore_case(v, pos, pos + n, word_mod_text(i));
            proof {
                assert(v@.subrange(pos as int, pos + n) =~= rest.take(n as int));
            }
            if hit {
                return Some(i);
            }
        }
        i += 1;
    }
    None
}

fn terse_flag_exec(c: char) -> (r: Option<Mods>)
    ensures
        r == terse_flag(c),
{
    if c == 'C' {
        Some(Mods { ctrl: true, alt: false, shift: false, sup: false })
    } else if c == 'M' {
        Some(Mods { ctrl: false, alt: true, shift: false, sup: false })
    } else if c == 'S' {
        Some(Mods { ctrl: false, alt: false, shift: true, sup: false })
    } else if c == 's' {
        Some(Mods { ctrl: false, alt: false, shift: false, sup: true })
    } else {
        None
    }
}

/// The named key `v[lo..hi]` spells ([`named_of`]).
fn named_key(v: &Vec<char>, lo: usize, hi: usize) -> (r: Option<NamedKey>)
    requires
        lo <= hi <= v@.len(),
    ensures
        r == named_of(v@.subrange(lo as int, hi as int)),
{
    let ghost t = v@.subrange(lo as int, hi as int);
    let is_left = crate::text::range_eq_ignore_case(v, lo, hi, "left");
    proof {
        reveal_strlit("left");
        assert("left"@ =~= seq!['l', 'e', 'f', 't']);
    }
    assert(is_left == eq_ignore_ascii_case(t, seq!['l', 'e', 'f', 't']));
    let is_right = crate::text::range_eq_ignore_case(v, lo, hi, "right");
    proof {
        reveal_strlit("right");
        assert("right"@ =~= seq!['r', 'i', 'g', 'h', 't']);
    }
    assert(is_right == eq_ignore_ascii_case(t, seq!['r', 'i', 'g', 'h', 't']));
    let is_up = crate::text::range_eq_ignore_case(v, lo, hi, "up");
    proof {
        reveal_strlit("up");
        assert("up"@ =~= seq!['u', 'p']);
    }
    assert(is_up == eq_ignore_ascii_case(t, seq!['u', 'p']));
    let is_down = crate::text::range_eq_ignore_case(v, lo, hi, "down");
    proof {
        reveal_strlit("down");
        assert("down"@ =~= seq!['d', 'o', 'w', 'n']);
    }
    assert(is_down == eq_ignore_ascii_case(t, seq!['d', 'o', 'w', 'n']));
    let is_home = crate::text::range_eq_ignore_case(v, lo, hi, "home");
    proof {
        reveal_strlit("home");
        assert("home"@ =~= seq!['h', 'o', 'm', 'e']);
    }
    assert(is_home == eq_ignore_ascii_case(t, seq!['h', 'o', 'm', 'e']));
    let is_end = crate::text::range_eq_ignore_case(v, lo, hi, "end");
    proof {
        reveal_strlit("end");
        assert("end"@ =~= seq!['e', 'n', 'd']);
    }
    assert(is_end == eq_ignore_ascii_case(t, seq!['e', 'n', 'd']));
    let is_enter = crate::text::range_eq_ignore_case(v, lo, hi, "enter");
    proof {
        reveal_strlit("enter");
        assert("enter"@ =~= seq!['e', 'n', 't', 'e', 'r']);
    }
    assert(is_enter == eq_ignore_ascii_case(t, seq!['e', 'n', 't', 'e', 'r']));
    let is_return = crate::text::range_eq_ignore_case(v, lo, hi, "return");
    proof {
        reveal_strlit("return");
        assert("return"@ =~= seq!['r', 'e', 't', 'u', 'r', 'n']);
    }
    assert(is_return == eq_ignore_ascii_case(t, seq!['r', 'e', 't', 'u', 'r', 'n']));
    let is_ret = crate::text::range_eq_ignore_case(v, lo, hi, "ret");
    proof {
        reveal_strlit("ret");
        assert("ret"@ =~= seq!['r', 'e', 't']);
    }
    assert(is_ret == eq_ignore_ascii_case(t, seq!['r', 'e', 't']));
    let is_tab = crate::text::range_eq_ignore_case(v, lo, hi, "tab");
    proof {
        reveal_strlit("tab");
        assert("tab"@ =~= seq!['t', 'a', 'b']);
    }
    assert(is_tab == eq_ignore_ascii_case(t, seq!['t', 'a', 'b']));
    let is_backspace = crate::text::range_eq_ignore_case(v, lo, hi, "backspace");
    proof {
        reveal_strlit("backspace");
        assert("backspace"@ =~= seq!['b', 'a', 'c', 'k', 's', 'p', 'a', 'c', 'e']);
    }
    assert(is_backspace == eq_ignore_ascii_case(t, seq!['b', 'a', 'c', 'k', 's', 'p', 'a', 'c', 'e']));
    let is_del = crate::text::range_eq_ignore_case(v, lo, hi, "del");
    proof {
        reveal_strlit("del");
        assert("del"@ =~= seq!['d', 'e', 'l']);
    }
    assert(is_del == eq_ignore_ascii_case(t, seq!['d', 'e', 'l']));
    let is_delete = crate::text::range_eq_ignore_case(v, lo, hi, "delete");
    proof {
        reveal_strlit("delete");
        assert("delete"@ =~= seq!['d', 'e', 'l', 'e', 't', 'e']);
    }
    assert(is_delete == eq_ignore_ascii_case(t, seq!['d', 'e', 'l', 'e', 't', 'e']));
    let is_space = crate::text::range_eq_ignore_case(v, lo, hi, "space");
    proof {
        reveal_strlit("space");
        assert("space"@ =~= seq!['s', 'p', 'a', 'c', 'e']);
    }
    assert(is_space == eq_ignore_ascii_case(t, seq!['s', 'p', 'a', 'c', 'e']));
    let is_spc = crate::text::range_eq_ignore_case(v, lo, hi, "spc");
    proof {
        reveal_strlit("spc");
        assert("spc"@ =~= seq!['s', 'p', 'c']);
    }
    assert(is_spc == eq_ignore_ascii_case(t, seq!['s', 'p', 'c']));
    let is_esc = crate::text::range_eq_ignore_case(v, lo, hi, "esc");
    proof {
        reveal_strlit("esc");
        assert("esc"@ =~= seq!['e', 's', 'c']);
    }
    assert(is_esc == eq_ignore_ascii_case(t, seq!['e', 's', 'c']));
    let is_escape = crate::text::range_eq_ignore_case(v, lo, hi, "escape");
    proof {
        reveal_strlit("escape");
        assert("escape"@ =~= seq!['e', 's', 'c', 'a', 'p', 'e']);
    }
    assert(is_escape == eq_ignore_ascii_case(t, seq!['e', 's', 'c', 'a', 'p', 'e']));
    if is_left {
        Some(NamedKey::ArrowLeft)
    } else if is_right {
        Some(NamedKey::ArrowRight)
    } else if is_up {
        Some(NamedKey::ArrowUp)
    } else if is_down {
        Some(NamedKey::ArrowDown)
    } else if is_home {
        Some(NamedKey::Home)
    } else if is_end {
        Some(NamedKey::End)
    } else if is_enter || is_return || is_ret {
        Some(NamedKey::Enter)
    } else if is_tab {
        Some(NamedKey::Tab)
    } else if is_backspace || is_del {
        Some(NamedKey::Backspace)
    } else if is_delete {
        Some(NamedKey::Delete)
    } else if is_space || is_spc {
        Some(NamedKey::Space)
    } else if is_esc || is_escape {
        Some(NamedKey::Escape)
    } else {
        None
    }
}

/// Parse one chord (`C-x`, `M->`, `Cmd-S`, `Left`, `a`) into its key and
/// modifiers ([`parse_chord_of`]). Modifier prefixes are stripped greedily
/// and in any order; a bare `-` or a one-character remainder is never taken
/// for a prefix, so the key always survives.
pub fn parse_chord(chord: &str) -> (r: Result<(Key, Mods), ChordError>)
    ensures
        match parse_chord_of(chord@) {
            Ok((k, m)) => r matches Ok((rk, rm)) && rk@ == k && rm == m,
            Err(e) => r == Err::<(Key, Mods), ChordError>(e),
        },
{
    let v = crate::text::str_to_chars(chord);
    let mut pos: usize = 0;
    let mut m = Mods { ctrl: false, alt: false, shift: false, sup: false };
    proof {
        assert(v@.skip(0) =~= v@);
    }
    loop
        invariant
            pos <= v@.len(),
            v@ == chord@,
            strip_mods(chord@, no_mods()) == strip_mods(v@.skip(pos as int), m),
        ensures
            pos <= v@.len(),
            strip_mods(chord@, no_mods()) == (v@.skip(pos as int), m),
        decreases v@.len() - pos,
    {
        let ghost rest = v@.skip(pos as int);
        proof {
            lemma_first_word_mod(rest, 0);
        }
        match word_mod_at(&v, pos) {
            Some(i) => {
                let n = word_mod_len(i);
                assert(first_word_mod(rest, 0) == Some(i as int));
                assert(rest.len() > n);
                let vl: usize = v.len();
                assert(pos + n < vl);
                proof {
                    assert(rest.skip(n as int) =~= v@.skip(pos + n));
                }
                m = or_mods(m, word_mod_flag_exec(i));
                pos = pos + n;
            },
            None => {
                if v.len() - pos >= 2 && v[pos + 1] == '-' {
                    assert(rest[0] == v@[pos as int] && rest[1] == v@[pos + 1]);
                    match terse_flag_exec(v[pos]) {
                        Some(f) => {
                            proof {
                                assert(rest.skip(2) =~= v@.skip(pos + 2));
                            }
                            m = or_mods(m, f);
                            pos = pos + 2;
                        },
                        None => {
                            break;
                        },
                    }
                } else {
                    proof {
                        if rest.len() >= 2 {
                            assert(rest[1] == v@[pos + 1]);
                        }
                    }
                    break;
                }
            },
        }
    }
    if pos == v.len() {
        return Err(ChordError::EmptyKey);
    }
    proof {
        assert(v@.subrange(pos as int, v@.len() as int) =~= v@.skip(pos as int));
    }
    match named_key(&v, pos, v.len()) {
        Some(n) => Ok((Key::Named(n), m)),
        None => {
            if v.len() - pos != 1 {
                Err(ChordError::UnknownKey)
            } else {
                let tok = crate::text::string_of(&v, pos, v.len());
                Ok((Key::Character(tok), m))
            }
        },
    }
}

// --- Formatting ---------------------------------------------------------------------

/// The canonical spelling of a named key; `?` for one the grammar does not
/// spell.
pub open spec fn named_token(n: NamedKey) -> Seq<char> {
    match n {
        NamedKey::ArrowLeft => seq!['L', 'e', 'f', 't'],
        NamedKey::ArrowRight => seq!['R', 'i', 'g', 'h', 't'],
        NamedKey::ArrowUp => seq!['U', 'p'],
        NamedKey::ArrowDown => seq!['D', 'o', 'w', 'n'],
        NamedKey::Home => seq!['H', 'o', 'm', 'e'],
        NamedKey::End => seq!['E', 'n', 'd'],
        NamedKey::Enter => seq!['E', 'n', 't', 'e', 'r'],
        NamedKey::Tab => seq!['T', 'a', 'b'],
        NamedKey::Backspace => seq!['B', 'a', 'c', 'k', 's', 'p', 'a', 'c', 'e'],
        NamedKey::Delete => seq!['D', 'e', 'l', 'e', 't', 'e'],
        NamedKey::Space => seq!['S', 'p', 'a', 'c', 'e'],
        NamedKey::Escape => seq!['E', 's', 'c'],
        NamedKey::PageUp | NamedKey::PageDown | NamedKey::Other => seq!['?'],
    }
}

/// The bare key token of a chord: a named key's spelling, a character key's
/// text (a single ASCII letter lower-cased), nothing for an unidentified key.
pub open spec fn key_token_of(k: KeyView) -> Seq<char> {
    match k {
        KeyView::Named(n) => named_token(n),
        KeyView::Character(s) => if s.len() == 1 && is_ascii_alpha(s[0]) {
            seq![ascii_lower(s[0])]
        } else {
            s
        },
        KeyView::Unidentified => seq![],
    }
}

/// The key glyph of the mac spelling: a single ASCII letter upper-cased,
/// otherwise the key token.
pub open spec fn mac_key_token_of(k: KeyView) -> Seq<char> {
    match k {
        KeyView::Character(s) => if s.len() == 1 && is_ascii_alpha(s[0]) {
            seq![ascii_upper(s[0])]
        } else {
            key_token_of(k)
        },
        _ => key_token_of(k),
    }
}

/// The terse modifier prefixes, always in the order `C- M- S- s-`.
pub open spec fn mods_prefix(m: Mods) -> Seq<char> {
    (if m.ctrl { seq!['C', '-'] } else { seq![] }) + (if m.alt { seq!['M', '-'] } else { seq![] }) + (if m.shift {
        seq!['S', '-']
    } else {
        seq![]
    }) + (if m.sup { seq!['s', '-'] } else { seq![] })
}

/// The canonical terse spelling of a chord.
pub open spec fn format_chord_of(k: KeyView, m: Mods) -> Seq<char> {
    mods_prefix(m) + key_token_of(k)
}

/// The mac modifier glyphs, in the order Command, Shift, Option, Control.
pub open spec fn mac_glyphs(m: Mods) -> Seq<char> {
    (if m.sup { seq!['\u{2318}'] } else { seq![] }) + (if m.shift { seq!['\u{21E7}'] } else { seq![] }) + (if m.alt {
        seq!['\u{2325}']
    } else {
        seq![]
    }) + (if m.ctrl { seq!['\u{2303}'] } else { seq![] })
}

/// One chord in the mac spelling: the modifier glyphs, then the key glyph.
pub open spec fn mac_glyph_token_of(k: KeyView, m: Mods) -> Seq<char> {
    mac_glyphs(m) + mac_key_token_of(k)
}

fn named_text(n: NamedKey) -> (s: &'static str)
    ensures
        s@ == named_token(n),
{
    proof {
        reveal_strlit("Left");
        reveal_strlit("Right");
        reveal_strlit("Up");
        reveal_strlit("Down");
        reveal_strlit("Home");
        reveal_strlit("End");
        reveal_strlit("Enter");
        reveal_strlit("Tab");
        reveal_strlit("Backspace");
        reveal_strlit("Delete");
        reveal_strlit("Space");
        reveal_strlit("Esc");
        reveal_strlit("?");
    }
    match n {
        NamedKey::ArrowLeft => "Left",
        NamedKey::ArrowRight => "Right",
        NamedKey::ArrowUp => "Up",
        NamedKey::ArrowDown => "Down",
        NamedKey::Home => "Home",
        NamedKey::End => "End",
        NamedKey::Enter => "Enter",
        NamedKey::Tab => "Tab",
        NamedKey::Backspace => "Backspace",
        NamedKey::Delete => "Delete",
        NamedKey::Space => "Space",
        NamedKey::Escape => "Esc",
        NamedKey::PageUp | NamedKey::PageDown | NamedKey::Other => "?",
    }
}

/// The single character of `s`, when it is exactly one.
fn single_char(s: &str) -> (r: Option<char>)
    ensures
        s@.len() == 1 ==> r == Some(s@[0]),
        s@.len() != 1 ==> r is None,
{
    let v = crate::text::str_to_chars(s);
    if v.len() == 1 {
        Some(v[0])
    } else {
        None
    }
}

fn is_alpha(c: char) -> (r: bool)
    ensures
        r == is_ascii_alpha(c),
{
    ('a' <= c && c <= 'z') || ('A' <= c && c <= 'Z')
}

/// The bare key token ([`key_token_of`]).
pub fn key_token(key: &Key) -> (r: String)
    ensures
        r@ == key_token_of(key@),
{
    match key {
        Key::Named(n) => named_text(*n).to_string(),
        Key::Character(s) => match single_char(s.as_str()) {
            Some(c) => if is_alpha(c) {
                let mut out = String::new();
                out.push(crate::text::lower_char(c));
                out
            } else {
                s.clone()
            },
            None => s.clone(),
        },
        Key::Unidentified => String::new(),
    }
}

/// The mac key glyph ([`mac_key_token_of`]).
pub fn mac_key_token(key: &Key) -> (r: String)
    ensures
        r@ == mac_key_token_of(key@),
{
    if let Key::Character(s) = key {
        if let Some(c) = single_char(s.as_str()) {
            if is_alpha(c) {
                let mut out = String::new();
                out.push(crate::text::upper_char(c));
                return out;
            }
        }
    }
    key_token(key)
}

/// Format a key and modifiers as the canonical terse chord
/// ([`format_chord_of`]): `C-t`, `M-f`, `S-s-z`, `Left`.
pub fn format_chord(key: &Key, mods: Mods) -> (r: String)
    ensures
        r@ == format_chord_of(key@, mods),
{
    let mut s = String::new();
    if mods.ctrl {
        s.push('C');
        s.push('-');
    }
    if mods.alt {
        s.push('M');
        s.push('-');
    }
    if mods.shift {
        s.push('S');
        s.push('-');
    }
    if mods.sup {
        s.push('s');
        s.push('-');
    }
    let t = key_token(key);
    crate::text::append_str(&mut s, t.as_str());
    assert(s@ =~= format_chord_of(key@, mods));
    s
}

/// One chord in the mac spelling ([`mac_glyph_token_of`]): `⌘⇧O`.
pub fn mac_glyph_token(key: &Key, mods: Mods) -> (r: String)
    ensures
        r@ == mac_glyph_token_of(key@, mods),
{
    let mut s = String::new();
    if mods.sup {
        s.push('\u{2318}');
    }
    if mods.shift {
        s.push('\u{21E7}');
    }
    if mods.alt {
        s.push('\u{2325}');
    }
    if mods.ctrl {
        s.push('\u{2303}');
    }
    let t = mac_key_token(key);
    crate::text::append_str(&mut s, t.as_str());
    assert(s@ =~= mac_glyph_token_of(key@, mods));
    s
}

// --- Whole specs --------------------------------------------------------------------

/// `ws` joined with single spaces.
pub open spec fn join_space(ws: Seq<Seq<char>>) -> Seq<char>
    decreases ws.len(),
{
    if ws.len() == 0 {
        seq![]
    } else if ws.len() == 1 {
        ws[0]
    } else {
        join_space(ws.drop_last()) + seq![' '] + ws.last()
    }
}

proof fn lemma_join_space_step(ws: Seq<Seq<char>>, i: int)
    requires
        0 <= i < ws.len(),
    ensures
        join_space(ws.take(i + 1)) == join_space(ws.take(i)) + (if i > 0 { seq![' '] } else { seq![] })
            + ws[i],
{
    let t = ws.take(i + 1);
    assert(t.drop_last() =~= ws.take(i));
    assert(t.last() == ws[i]);
    if i == 0 {
        assert(ws.take(0) =~= Seq::<Seq<char>>::empty());
        assert(join_space(ws.take(0)) + seq![] + ws[0] =~= ws[0]);
    }
}

pub proof fn lemma_words_len(s: Seq<char>)
    ensures
        words(s).len() <= s.len(),
    decreases s.len(),
{
    crate::text::lemma_lead_ws_le(s);
    crate::text::lemma_lead_ws_stops(s);
    let t = s.skip(crate::text::lead_ws(s) as int);
    crate::text::lemma_word_len_le(t);
    if t.len() > 0 {
        let k = crate::text::word_len(t);
        lemma_words_len(t.skip(k as int));
    }
}

/// The white-space separated words of `spec`, as strings.
fn word_strings(spec: &str) -> (r: Vec<String>)
    ensures
        r@.len() == words(spec@).len(),
        forall|i: int| 0 <= i < r@.len() ==> (#[trigger] r@[i])@ == words(spec@)[i],
{
    let v = crate::text::str_to_chars(spec);
    proof {
        lemma_words_len(v@);
    }
    let ranges = crate::text::word_ranges(&v, v.len());
    let mut out: Vec<String> = Vec::new();
    let mut i: usize = 0;
    while i < ranges.len()
        invariant
            0 <= i <= ranges@.len(),
            v@ == spec@,
            ranges@.len() == words(v@).len(),
            crate::text::ranges_spell(v@, ranges@, words(v@)),
            out@.len() == i,
            forall|k: int| 0 <= k < i ==> (#[trigger] out@[k])@ == words(v@)[k],
        decreases ranges.len() - i,
    {
        let (a, b) = ranges[i];
        assert(crate::text::range_spells(v@, ranges@[i as int], words(v@)[i as int]));
        out.push(crate::text::string_of(&v, a, b));
        i += 1;
    }
    out
}

/// One word of a spec in the mac spelling: the glyph chord, or the word as
/// it stands when it does not parse.
pub open spec fn glyph_word(w: Seq<char>) -> Seq<char> {
    match parse_chord_of(w) {
        Ok((k, m)) => mac_glyph_token_of(k, m),
        Err(_) => w,
    }
}

/// A whole spec (one chord or a sequence) in the mac spelling: each chord
/// as glyphs, joined by single spaces.
pub open spec fn mac_glyph_chord_of(spec: Seq<char>) -> Seq<char> {
    join_space(words(spec).map_values(|w: Seq<char>| glyph_word(w)))
}

/// Format a spec in the mac glyph spelling ([`mac_glyph_chord_of`]):
/// `"Cmd-S-o"` reads `"⌘⇧O"`, and a token that does not parse passes through.
pub fn mac_glyph_chord(spec: &str) -> (r: String)
    ensures
        r@ == mac_glyph_chord_of(spec@),
{
    let ws = word_strings(spec);
    let ghost parts = words(spec@).map_values(|w: Seq<char>| glyph_word(w));
    let mut out = String::new();
    let mut i: usize = 0;
    proof {
        assert(parts.take(0) =~= Seq::<Seq<char>>::empty());
    }
    while i < ws.len()
        invariant
            0 <= i <= ws@.len(),
            ws@.len() == words(spec@).len(),
            parts.len() == ws@.len(),
            parts == words(spec@).map_values(|w: Seq<char>| glyph_word(w)),
            forall|k: int| 0 <= k < ws@.len() ==> (#[trigger] ws@[k])@ == words(spec@)[k],
            out@ == join_space(parts.take(i as int)),
        decreases ws.len() - i,
    {
        let g = match parse_chord(ws[i].as_str()) {
            Ok((k, m)) => mac_glyph_token(&k, m),
            Err(_) => ws[i].clone(),
        };
        assert(g@ == parts[i as int]);
        if i > 0 {
            out.push(' ');
        }
        crate::text::append_str(&mut out, g.as_str());
        proof {
            lemma_join_space_step(parts, i as int);
        }
        i += 1;
    }
    proof {
        assert(parts.take(parts.len() as int) =~= parts);
    }
    out
}

/// One chord of a spec in the canonical terse spelling.
pub open spec fn canonical_word(w: Seq<char>) -> Seq<char> {
    match parse_chord_of(w) {
        Ok((k, m)) => format_chord_of(k, m),
        Err(_) => seq![],
    }
}

/// The canonical terse spelling of a whole spec: every chord formatted, joined
/// by single spaces; none for a blank spec or one with a chord that does not
/// parse.
pub open spec fn canonical_binding_of(spec: Seq<char>) -> Option<Seq<char>> {
    let ws = words(spec);
    if ws.len() == 0 || exists|i: int| 0 <= i < ws.len() && (#[trigger] parse_chord_of(ws[i])) is Err {
        None
    } else {
        Some(join_space(ws.map_values(|w: Seq<char>| canonical_word(w))))
    }
}

/// Canonicalise a chord spec ([`canonical_binding_of`]): two specs that mean
/// the same chords (`"Cmd-S"` and `"s-s"`) come out the same.
pub fn canonical_binding(spec: &str) -> (r: Option<String>)
    ensures
        match canonical_binding_of(spec@) {
            Some(c) => r matches Some(s) && s@ == c,
            None => r is None,
        },
{
    let ws = word_strings(spec);
    let ghost parts = words(spec@).map_values(|w: Seq<char>| canonical_word(w));
    let mut out = String::new();
    let mut i: usize = 0;
    proof {
        assert(parts.take(0) =~= Seq::<Seq<char>>::empty());
    }
    while i < ws.len()
        invariant
            0 <= i <= ws@.len(),
            ws@.len() == words(spec@).len(),
            parts.len() == ws@.len(),
            parts == words(spec@).map_values(|w: Seq<char>| canonical_word(w)),
            forall|k: int| 0 <= k < ws@.len() ==> (#[trigger] ws@[k])@ == words(spec@)[k],
            forall|k: int| 0 <= k < i ==> (#[trigger] parse_chord_of(words(spec@)[k])) is Ok,
            out@ == join_space(parts.take(i as int)),
        decreases ws.len() - i,
    {
        let (k, m) = match parse_chord(ws[i].as_str()) {
            Ok(km) => km,
            Err(_) => {
                assert(parse_chord_of(words(spec@)[i as int]) is Err);
                return None;
            },
        };
        let f = format_chord(&k, m);
        assert(f@ == parts[i as int]);
        if i > 0 {
            out.push(' ');
        }
        crate::text::append_str(&mut out, f.as_str());
        proof {
            lemma_join_space_step(parts, i as int);
        }
        i += 1;
    }
    if ws.len() == 0 {
        return None;
    }
    proof {
        assert(parts.take(parts.len() as int) =~= parts);
    }
    Some(out)
}

// --- The round trip -----------------------------------------------------------------

/// A named key the grammar spells.
pub open spec fn spelled(n: NamedKey) -> bool {
    n != NamedKey::PageUp && n != NamedKey::PageDown && n != NamedKey::Other
}

/// A key whose chord formats to a spelling that parses back: a named key
/// the grammar spells, or a single character.
pub open spec fn formattable(k: KeyView) -> bool {
    match k {
        KeyView::Named(n) => spelled(n),
        KeyView::Character(s) => s.len() == 1,
        KeyView::Unidentified => false,
    }
}

/// A key as a chord's formatted spelling gives it back: a character key's
/// text with an ASCII letter lower-cased, a named key as it is.
pub open spec fn canon_key(k: KeyView) -> KeyView {
    match k {
        KeyView::Character(_) => KeyView::Character(key_token_of(k)),
        _ => k,
    }
}

proof fn lemma_lower_index(a: Seq<char>, b: Seq<char>, i: int)
    requires
        eq_ignore_ascii_case(a, b),
        0 <= i < a.len(),
    ensures
        a.len() == b.len(),
        ascii_lower(a[i]) == ascii_lower(b[i]),
{
    assert(crate::text::ascii_lower_seq(a).len() == a.len());
    assert(crate::text::ascii_lower_seq(b).len() == b.len());
    assert(crate::text::ascii_lower_seq(a)[i] == ascii_lower(a[i]));
    assert(crate::text::ascii_lower_seq(b)[i] == ascii_lower(b[i]));
}

/// No spelled-out prefix, from the `i`-th on, matches a text whose second
/// character is `-`.
proof fn lemma_no_word_mod_dash(s: Seq<char>, i: int)
    requires
        s.len() >= 2,
        s[1] == '-',
        0 <= i,
    ensures
        first_word_mod(s, i) is None,
    decreases 9 - i,
{
    if i < 9 {
        let name = word_mod_name(i);
        if s.len() > name.len() && eq_ignore_ascii_case(s.take(name.len() as int), name) {
            lemma_lower_index(s.take(name.len() as int), name, 1);
            assert(s.take(name.len() as int)[1] == '-');
            assert(false);
        }
        lemma_no_word_mod_dash(s, i + 1);
    }
}

/// Stripping one terse prefix letter and its `-`.
proof fn lemma_strip_terse(c: char, rest: Seq<char>, m: Mods)
    requires
        terse_flag(c) is Some,
        rest.len() >= 1,
    ensures
        strip_mods(seq![c, '-'] + rest, m) == strip_mods(rest, union_mods(m, terse_flag(c)->0)),
{
    let s = seq![c, '-'] + rest;
    lemma_no_word_mod_dash(s, 0);
    assert(s[0] == c && s[1] == '-');
    assert(s.skip(2) =~= rest);
}

/// The named-key spellings, each with the spelled-out prefixes it could
/// be taken for: none matches.
proof fn lemma_token_no_word_mod(t: Seq<char>, i: int)
    requires
        t.len() >= 2,
        forall|j: int| 0 <= j < 9 && t.len() > word_mod_name(j).len() ==> ascii_lower(t[0]) != word_mod_name(j)[0]
            || ascii_lower(t[1]) != word_mod_name(j)[1],
        0 <= i,
    ensures
        first_word_mod(t, i) is None,
    decreases 9 - i,
{
    if i < 9 {
        let name = word_mod_name(i);
        if t.len() > name.len() && eq_ignore_ascii_case(t.take(name.len() as int), name) {
            lemma_lower_index(t.take(name.len() as int), name, 0);
            lemma_lower_index(t.take(name.len() as int), name, 1);
            assert(false);
        }
        lemma_token_no_word_mod(t, i + 1);
    }
}

/// A formatted key token is never mistaken for a modifier prefix.
proof fn lemma_token_stops(k: KeyView, m: Mods)
    requires
        formattable(k),
    ensures
        strip_mods(key_token_of(k), m) == (key_token_of(k), m),
{
    let t = key_token_of(k);
    match k {
        KeyView::Character(s) => {
            assert(t.len() == 1);
            if t.len() > 0 {
            }
            assert(first_word_mod(t, 0) is None) by {
                lemma_single_no_word_mod(t, 0);
            }
        },
        KeyView::Named(n) => {
            assert(t.len() >= 2 && t[1] != '-' && 'A' <= t[0] <= 'Z') by {
                lemma_named_token_shape(n);
            }
            assert forall|j: int| 0 <= j < 9 && t.len() > word_mod_name(j).len() implies ascii_lower(t[0])
                != word_mod_name(j)[0] || ascii_lower(t[1]) != word_mod_name(j)[1] by {
                lemma_named_token_shape(n);
            }
            lemma_token_no_word_mod(t, 0);
        },
        KeyView::Unidentified => {},
    }
}

proof fn lemma_single_no_word_mod(t: Seq<char>, i: int)
    requires
        t.len() == 1,
        0 <= i,
    ensures
        first_word_mod(t, i) is None,
    decreases 9 - i,
{
    if i < 9 {
        lemma_single_no_word_mod(t, i + 1);
    }
}

proof fn lemma_named_token_shape(n: NamedKey)
    requires
        spelled(n),
    ensures
        named_token(n).len() >= 2,
        named_token(n)[1] != '-',
        'A' <= named_token(n)[0] <= 'Z',
        forall|j: int| 0 <= j < 9 && named_token(n).len() > word_mod_name(j).len() ==> ascii_lower(named_token(n)[0])
            != word_mod_name(j)[0] || ascii_lower(named_token(n)[1]) != word_mod_name(j)[1],
        named_of(named_token(n)) == Some(n),
{
    let t = named_token(n);
    assert(crate::text::ascii_lower_seq(t) =~= t.map_values(|c: char| ascii_lower(c)));
    assert(crate::text::ascii_lower_seq(seq!['l', 'e', 'f', 't']) =~= seq!['l', 'e', 'f', 't']);
    assert(crate::text::ascii_lower_seq(seq!['r', 'i', 'g', 'h', 't']) =~= seq!['r', 'i', 'g', 'h', 't']);
    assert(crate::text::ascii_lower_seq(seq!['u', 'p']) =~= seq!['u', 'p']);
    assert(crate::text::ascii_lower_seq(seq!['d', 'o', 'w', 'n']) =~= seq!['d', 'o', 'w', 'n']);
    assert(crate::text::ascii_lower_seq(seq!['h', 'o', 'm', 'e']) =~= seq!['h', 'o', 'm', 'e']);
    assert(crate::text::ascii_lower_seq(seq!['e', 'n', 'd']) =~= seq!['e', 'n', 'd']);
    assert(crate::text::ascii_lower_seq(seq!['e', 'n', 't', 'e', 'r']) =~= seq!['e', 'n', 't', 'e', 'r']);
    assert(crate::text::ascii_lower_seq(seq!['r', 'e', 't', 'u', 'r', 'n']) =~= seq!['r', 'e', 't', 'u', 'r', 'n']);
    assert(crate::text::ascii_lower_seq(seq!['r', 'e', 't']) =~= seq!['r', 'e', 't']);
    assert(crate::text::ascii_lower_seq(seq!['t', 'a', 'b']) =~= seq!['t', 'a', 'b']);
    assert(crate::text::ascii_lower_seq(seq!['b', 'a', 'c', 'k', 's', 'p', 'a', 'c', 'e']) =~= seq!['b', 'a', 'c', 'k', 's', 'p', 'a', 'c', 'e']);
    assert(crate::text::ascii_lower_seq(seq!['d', 'e', 'l']) =~= seq!['d', 'e', 'l']);
    assert(crate::text::ascii_lower_seq(seq!['d', 'e', 'l', 'e', 't', 'e']) =~= seq!['d', 'e', 'l', 'e', 't', 'e']);
    assert(crate::text::ascii_lower_seq(seq!['s', 'p', 'a', 'c', 'e']) =~= seq!['s', 'p', 'a', 'c', 'e']);
    assert(crate::text::ascii_lower_seq(seq!['s', 'p', 'c']) =~= seq!['s', 'p', 'c']);
    assert(crate::text::ascii_lower_seq(seq!['e', 's', 'c']) =~= seq!['e', 's', 'c']);
    assert(crate::text::ascii_lower_seq(seq!['e', 's', 'c', 'a', 'p', 'e']) =~= seq!['e', 's', 'c', 'a', 'p', 'e']);
    match n {
        NamedKey::ArrowLeft => {
            assert(crate::text::ascii_lower_seq(seq!['L', 'e', 'f', 't']) =~= seq!['l', 'e', 'f', 't']);
        },
        NamedKey::ArrowRight => {
            assert(crate::text::ascii_lower_seq(seq!['R', 'i', 'g', 'h', 't']) =~= seq!['r', 'i', 'g', 'h', 't']);
        },
        NamedKey::ArrowUp => {
            assert(crate::text::ascii_lower_seq(seq!['U', 'p']) =~= seq!['u', 'p']);
        },
        NamedKey::ArrowDown => {
            assert(crate::text::ascii_lower_seq(seq!['D', 'o', 'w', 'n']) =~= seq!['d', 'o', 'w', 'n']);
        },
        NamedKey::Home => {
            assert(crate::text::ascii_lower_seq(seq!['H', 'o', 'm', 'e']) =~= seq!['h', 'o', 'm', 'e']);
        },
        NamedKey::End => {
            assert(crate::text::ascii_lower_seq(seq!['E', 'n', 'd']) =~= seq!['e', 'n', 'd']);
        },
        NamedKey::Enter => {
            assert(crate::text::ascii_lower_seq(seq!['E', 'n', 't', 'e', 'r']) =~= seq!['e', 'n', 't', 'e', 'r']);
        },
        NamedKey::Tab => {
            assert(crate::text::ascii_lower_seq(seq!['T', 'a', 'b']) =~= seq!['t', 'a', 'b']);
        },
        NamedKey::Backspace => {
            assert(crate::text::ascii_lower_seq(seq!['B', 'a', 'c', 'k', 's', 'p', 'a', 'c', 'e']) =~= seq!['b', 'a', 'c', 'k', 's', 'p', 'a', 'c', 'e']);
        },
        NamedKey::Delete => {
            assert(crate::text::ascii_lower_seq(seq!['D', 'e', 'l', 'e', 't', 'e']) =~= seq!['d', 'e', 'l', 'e', 't', 'e']);
        },
        NamedKey::Space => {
            assert(crate::text::ascii_lower_seq(seq!['S', 'p', 'a', 'c', 'e']) =~= seq!['s', 'p', 'a', 'c', 'e']);
        },
        NamedKey::Escape => {
            assert(crate::text::ascii_lower_seq(seq!['E', 's', 'c']) =~= seq!['e', 's', 'c']);
        },
        _ => {},
    }
}

/// Formatting a chord and parsing the spelling gives the chord back, its
/// key as formatting writes it.
#[verifier::spinoff_prover]
#[verifier::rlimit(40)]
pub proof fn lemma_chord_round_trips(k: KeyView, m: Mods)
    requires
        formattable(k),
    ensures
        parse_chord_of(format_chord_of(k, m)) == Ok::<(KeyView, Mods), ChordError>((canon_key(k), m)),
{
    let t = key_token_of(k);
    lemma_token_stops(k, m);
    let s3 = if m.sup { seq!['s', '-'] + t } else { t };
    let m3 = Mods { ctrl: m.ctrl, alt: m.alt, shift: m.shift, sup: false };
    if m.sup {
        lemma_strip_terse('s', t, m3);
    }
    assert(strip_mods(s3, m3) == (t, m));
    let s2 = if m.shift { seq!['S', '-'] + s3 } else { s3 };
    let m2 = Mods { ctrl: m.ctrl, alt: m.alt, shift: false, sup: false };
    if m.shift {
        lemma_strip_terse('S', s3, m2);
    }
    assert(strip_mods(s2, m2) == (t, m));
    let s1 = if m.alt { seq!['M', '-'] + s2 } else { s2 };
    let m1 = Mods { ctrl: m.ctrl, alt: false, shift: false, sup: false };
    if m.alt {
        lemma_strip_terse('M', s2, m1);
    }
    assert(strip_mods(s1, m1) == (t, m));
    let s0 = if m.ctrl { seq!['C', '-'] + s1 } else { s1 };
    if m.ctrl {
        lemma_strip_terse('C', s1, no_mods());
    }
    assert(strip_mods(s0, no_mods()) == (t, m));
    assert(s0 =~= format_chord_of(k, m));
    match k {
        KeyView::Named(n) => {
            lemma_named_token_shape(n);
        },
        KeyView::Character(c) => {
            assert(named_of(t) is None) by {
                lemma_short_not_named(t);
            }
        },
        KeyView::Unidentified => {},
    }
}

proof fn lemma_short_not_named(t: Seq<char>)
    requires
        t.len() == 1,
    ensures
        named_of(t) is None,
{
    assert(crate::text::ascii_lower_seq(t).len() == 1);
}

// --- Replaying a key sequence ---------------------------------------------------------

/// The actions the chords `chords` resolve to, in order, through one keymap
/// starting in state `s`: the prefix state carries from chord to chord, and
/// an `Ignore` or a `BeginPrefix` does no work and is left out. The first
/// chord that does not parse is the error.
pub open spec fn keys_trace(s: KeymapView, chords: Seq<Seq<char>>) -> Result<Seq<Action>, ChordError>
    decreases chords.len(),
{
    if chords.len() == 0 {
        Ok(seq![])
    } else {
        match parse_chord_of(chords[0]) {
            Err(e) => Err(e),
            Ok((k, m)) => {
                let (a, cx, cc) = resolve_of(s, k, m);
                match keys_trace(KeymapView { in_c_x: cx, in_c_c: cc, ..s }, chords.drop_first()) {
                    Err(e) => Err(e),
                    Ok(rest) => Ok(
                        if a is Ignore || a is BeginPrefix {
                            rest
                        } else {
                            seq![a] + rest
                        },
                    ),
                }
            },
        }
    }
}

/// `acc` followed by the actions of `r`, or the error of `r`.
pub open spec fn after(acc: Seq<Action>, r: Result<Seq<Action>, ChordError>) -> Result<Seq<Action>, ChordError> {
    match r {
        Ok(rest) => Ok(acc + rest),
        Err(e) => Err(e),
    }
}

/// Resolve every chord of the whitespace-separated `spec` through the one
/// keymap `keymap` ([`keys_trace`]), so that prefix sequences and configured
/// bindings compose across the sequence.
pub fn parse_keys_through(spec: &str, keymap: KeymapState) -> (r: Result<Vec<Action>, ChordError>)
    ensures
        match keys_trace(keymap@, words(spec@)) {
            Ok(acts) => r matches Ok(v) && v@ == acts,
            Err(e) => r == Err::<Vec<Action>, ChordError>(e),
        },
{
    let mut km = keymap;
    let v = crate::text::str_to_chars(spec);
    proof {
        lemma_words_len(v@);
    }
    let ranges = crate::text::word_ranges(&v, v.len());
    let ghost ws = words(v@);
    let ghost s0 = km@;
    let mut actions: Vec<Action> = Vec::new();
    let mut i: usize = 0;
    proof {
        assert(ws.skip(0) =~= ws);
        assert(actions@ + Seq::<Action>::empty() =~= actions@);
        lemma_after_empty(keys_trace(s0, ws));
    }
    while i < ranges.len()
        invariant
            0 <= i <= ranges@.len(),
            ranges@.len() == ws.len(),
            v@ == spec@,
            s0 == keymap@,
            ws == words(v@),
            crate::text::ranges_spell(v@, ranges@, ws),
            keys_trace(s0, ws) == after(actions@, keys_trace(km@, ws.skip(i as int))),
        decreases ranges.len() - i,
    {
        let (a, b) = ranges[i];
        proof {
            assert(crate::text::range_spells(v@, ranges@[i as int], ws[i as int]));
            assert(ws.skip(i as int)[0] == ws[i as int]);
            assert(ws.skip(i as int).drop_first() =~= ws.skip(i + 1));
        }
        let chord = crate::text::string_of(&v, a, b);
        let (key, mods) = match parse_chord(chord.as_str()) {
            Ok(km_) => km_,
            Err(e) => {
                proof {
                    assert(chord@ == ws[i as int]);
                    assert(parse_chord_of(ws.skip(i as int)[0]) == Err::<(KeyView, Mods), ChordError>(e));
                    assert(keys_trace(km@, ws.skip(i as int)) == Err::<Seq<Action>, ChordError>(e));
                    assert(keys_trace(s0, ws) == Err::<Seq<Action>, ChordError>(e));
                    assert(ws == words(spec@));
                }
                return Err(e);
            },
        };
        let ghost before = km@;
        let act = km.resolve(&key, mods);
        proof {
            let rest = keys_trace(km@, ws.skip(i + 1));
            assert(km@ == (KeymapView { in_c_x: km@.in_c_x, in_c_c: km@.in_c_c, ..before }));
            if !(act is Ignore || act is BeginPrefix) {
                match rest {
                    Ok(r) => {
                        assert(actions@.push(act) + r =~= actions@ + (seq![act] + r));
                    },
                    Err(_) => {},
                }
            }
        }
        if !(act == Action::Ignore || act == Action::BeginPrefix) {
            actions.push(act);
        }
        i += 1;
    }
    proof {
        assert(ws.skip(i as int) =~= Seq::<Seq<char>>::empty());
        assert(actions@ + Seq::<Action>::empty() =~= actions@);
    }
    Ok(actions)
}

/// Replay a `--keys` spec through a fresh keymap for `convention` over the
/// command catalog `catalog`, with no configured bindings
/// ([`parse_keys_through`]).
pub fn parse_keys(spec: &str, convention: Convention, catalog: Vec<DefaultBinding>) -> (r: Result<Vec<Action>, ChordError>)
    requires
        (seeded(catalog@, convention, keep_set_of(Seq::empty())) is Some),
    ensures
        match keys_trace(
            KeymapView {
                convention: convention,
                in_c_x: false,
                in_c_c: false,
                catalog: catalog@,
                defaults: seeded(catalog@, convention, keep_set_of(Seq::empty()))->0,
                overrides: no_layers(),
                keep: keep_set_of(Seq::empty()),
            },
            words(spec@),
        ) {
            Ok(acts) => r matches Ok(v) && v@ == acts,
            Err(e) => r == Err::<Vec<Action>, ChordError>(e),
        },
{
    parse_keys_through(spec, KeymapState::new_with_convention(convention, catalog))
}

/// Replay a `--keys` spec like [`parse_keys`], through a keymap carrying the
/// configured `[keys]` lines `keys`, so rebound chords replay as live editing
/// resolves them.
pub fn parse_keys_with(
    spec: &str,
    keys: &[(String, Vec<String>)],
    convention: Convention,
    catalog: Vec<DefaultBinding>,
) -> (r: Result<Vec<Action>, ChordError>)
    requires
        (seeded(catalog@, convention, keep_set_of(Seq::empty())) is Some),
    ensures
        match keys_trace(
            KeymapView {
                convention: convention,
                in_c_x: false,
                in_c_c: false,
                catalog: catalog@,
                defaults: seeded(catalog@, convention, keep_set_of(Seq::empty()))->0,
                overrides: overrides_from(no_layers(), keys@, catalog@),
                keep: keep_set_of(Seq::empty()),
            },
            words(spec@),
        ) {
            Ok(acts) => r matches Ok(v) && v@ == acts,
            Err(e) => r == Err::<Vec<Action>, ChordError>(e),
        },
{
    parse_keys_through(spec, KeymapState::with_overrides_and_convention(keys, convention, catalog))
}

/// LAW: with no configured bindings, [`parse_keys_with`] replays exactly as
/// [`parse_keys`]: the keymap it starts from carries no overrides.
pub proof fn lemma_no_keys_replays_as_default(keys: Seq<(String, Vec<String>)>, catalog: Seq<DefaultBinding>)
    requires
        keys.len() == 0,
    ensures
        overrides_from(no_layers(), keys, catalog) == no_layers(),
{
}

proof fn lemma_after_empty(r: Result<Seq<Action>, ChordError>)
    ensures
        after(Seq::empty(), r) == r,
{
    match r {
        Ok(x) => {
            assert(Seq::<Action>::empty() + x =~= x);
        },
        Err(_) => {},
    }
}

// --- The canonical spelling is a fixpoint --------------------------------------------

/// `w` is a non-empty run of characters without white space.
pub open spec fn plain_word(w: Seq<char>) -> bool {
    w.len() > 0 && forall|i: int| 0 <= i < w.len() ==> !crate::text::is_ws(#[trigger] w[i])
}

/// `ws` joined with single spaces, built from the front.
spec fn join_front(ws: Seq<Seq<char>>) -> Seq<char>
    decreases ws.len(),
{
    if ws.len() == 0 {
        seq![]
    } else if ws.len() == 1 {
        ws[0]
    } else {
        ws[0] + seq![' '] + join_front(ws.drop_first())
    }
}

proof fn lemma_join_front_snoc(ws: Seq<Seq<char>>)
    requires
        ws.len() >= 2,
    ensures
        join_front(ws) == join_front(ws.drop_last()) + seq![' '] + ws.last(),
    decreases ws.len(),
{
    if ws.len() == 2 {
        assert(ws.drop_first().len() == 1);
        assert(ws.drop_last().len() == 1);
        assert(join_front(ws.drop_last()) == ws[0]);
        assert(join_front(ws.drop_first()) == ws[1]);
    } else {
        lemma_join_front_snoc(ws.drop_first());
        assert(ws.drop_first().drop_last() =~= ws.drop_last().drop_first());
        assert(ws.drop_last()[0] == ws[0]);
        assert(ws.drop_first().last() == ws.last());
        assert(join_front(ws) =~= join_front(ws.drop_last()) + seq![' '] + ws.last());
    }
}

proof fn lemma_join_front(ws: Seq<Seq<char>>)
    ensures
        join_space(ws) == join_front(ws),
    decreases ws.len(),
{
    if ws.len() >= 2 {
        lemma_join_front(ws.drop_last());
        lemma_join_front_snoc(ws);
    }
}

proof fn lemma_word_len_plain(w: Seq<char>, rest: Seq<char>)
    requires
        forall|i: int| 0 <= i < w.len() ==> !crate::text::is_ws(#[trigger] w[i]),
        rest.len() == 0 || crate::text::is_ws(rest[0]),
    ensures
        crate::text::word_len(w + rest) == w.len(),
    decreases w.len(),
{
    if w.len() > 0 {
        assert((w + rest).drop_first() =~= w.drop_first() + rest);
        assert((w + rest)[0] == w[0]);
        lemma_word_len_plain(w.drop_first(), rest);
    } else {
        assert(w + rest =~= rest);
    }
}

proof fn lemma_word_len_chars(t: Seq<char>)
    ensures
        forall|j: int| 0 <= j < crate::text::word_len(t) ==> !crate::text::is_ws(#[trigger] t[j]),
    decreases t.len(),
{
    if t.len() > 0 && !crate::text::is_ws(t[0]) {
        lemma_word_len_chars(t.drop_first());
        crate::text::lemma_word_len_le(t.drop_first());
        assert forall|j: int| 0 <= j < crate::text::word_len(t) implies !crate::text::is_ws(#[trigger] t[j]) by {
            if j > 0 {
                assert(t[j] == t.drop_first()[j - 1]);
            }
        }
    }
}

proof fn lemma_words_plain(s: Seq<char>)
    ensures
        forall|i: int| 0 <= i < words(s).len() ==> plain_word(#[trigger] words(s)[i]),
    decreases s.len(),
{
    crate::text::lemma_lead_ws_le(s);
    crate::text::lemma_lead_ws_stops(s);
    let t = s.skip(crate::text::lead_ws(s) as int);
    crate::text::lemma_word_len_le(t);
    if t.len() > 0 {
        let k = crate::text::word_len(t);
        lemma_word_len_chars(t);
        lemma_words_plain(t.skip(k as int));
        let w = t.take(k as int);
        assert(plain_word(w)) by {
            assert forall|i: int| 0 <= i < w.len() implies !crate::text::is_ws(#[trigger] w[i]) by {
                assert(w[i] == t[i]);
            }
        }
        assert forall|i: int| 0 <= i < words(s).len() implies plain_word(#[trigger] words(s)[i]) by {
            if i > 0 {
                assert(words(s)[i] == words(t.skip(k as int))[i - 1]);
            }
        }
    }
}

proof fn lemma_words_space(r: Seq<char>)
    ensures
        words(seq![' '] + r) == words(r),
{
    let s = seq![' '] + r;
    assert(s.drop_first() =~= r);
    assert(crate::text::is_ws(' '));
    assert(crate::text::lead_ws(s) == 1 + crate::text::lead_ws(r));
    crate::text::lemma_lead_ws_le(r);
    assert(s.skip(crate::text::lead_ws(s) as int) =~= r.skip(crate::text::lead_ws(r) as int));
}

proof fn lemma_words_join(ws: Seq<Seq<char>>)
    requires
        forall|i: int| 0 <= i < ws.len() ==> plain_word(#[trigger] ws[i]),
    ensures
        words(join_front(ws)) == ws,
    decreases ws.len(),
{
    if ws.len() == 0 {
        assert(crate::text::lead_ws(Seq::<char>::empty()) == 0);
        assert(Seq::<char>::empty().skip(0) =~= Seq::<char>::empty());
        assert(ws =~= Seq::<Seq<char>>::empty());
    } else {
        let w = ws[0];
        assert(plain_word(w));
        let rest = if ws.len() == 1 { Seq::<char>::empty() } else { seq![' '] + join_front(ws.drop_first()) };
        let s = w + rest;
        assert(join_front(ws) == s) by {
            if ws.len() == 1 {
                assert(w + Seq::<char>::empty() =~= w);
            } else {
                assert(w + seq![' '] + join_front(ws.drop_first()) =~= w + (seq![' '] + join_front(ws.drop_first())));
            }
        }
        assert(!crate::text::is_ws(s[0]));
        assert(crate::text::lead_ws(s) == 0);
        assert(s.skip(0) =~= s);
        lemma_word_len_plain(w, rest);
        assert(s.take(w.len() as int) =~= w);
        assert(s.skip(w.len() as int) =~= rest);
        if ws.len() == 1 {
            assert(crate::text::lead_ws(Seq::<char>::empty()) == 0);
            assert(Seq::<char>::empty().skip(0) =~= Seq::<char>::empty());
            assert(words(Seq::<char>::empty()) =~= Seq::<Seq<char>>::empty());
            assert(s.skip(w.len() as int) =~= Seq::<char>::empty());
            assert(words(s) == seq![s.take(w.len() as int)] + words(s.skip(w.len() as int)));
            assert(words(s) =~= seq![w]);
            assert(ws =~= seq![w]);
        } else {
            assert forall|i: int| 0 <= i < ws.drop_first().len() implies plain_word(#[trigger] ws.drop_first()[i]) by {
                assert(ws.drop_first()[i] == ws[i + 1]);
            }
            lemma_words_join(ws.drop_first());
            lemma_words_space(join_front(ws.drop_first()));
            assert(words(s) =~= seq![w] + ws.drop_first());
            assert(ws =~= seq![w] + ws.drop_first());
        }
    }
}

proof fn lemma_strip_plain(rest: Seq<char>, m: Mods)
    requires
        forall|i: int| 0 <= i < rest.len() ==> !crate::text::is_ws(#[trigger] rest[i]),
    ensures
        forall|i: int| 0 <= i < strip_mods(rest, m).0.len() ==> !crate::text::is_ws(#[trigger] strip_mods(rest, m).0[i]),
    decreases rest.len(),
{
    lemma_first_word_mod(rest, 0);
    match first_word_mod(rest, 0) {
        Some(i) => {
            let r2 = rest.skip(word_mod_name(i).len() as int);
            assert forall|j: int| 0 <= j < r2.len() implies !crate::text::is_ws(#[trigger] r2[j]) by {
                assert(r2[j] == rest[j + word_mod_name(i).len()]);
            }
            lemma_strip_plain(r2, union_mods(m, word_mod_flag(i)));
            assert(strip_mods(rest, m) == strip_mods(r2, union_mods(m, word_mod_flag(i))));
        },
        None => if rest.len() >= 2 && rest[1] == '-' && terse_flag(rest[0]) is Some {
            let r2 = rest.skip(2);
            assert forall|j: int| 0 <= j < r2.len() implies !crate::text::is_ws(#[trigger] r2[j]) by {
                assert(r2[j] == rest[j + 2]);
            }
            lemma_strip_plain(r2, union_mods(m, terse_flag(rest[0])->0));
            assert(strip_mods(rest, m) == strip_mods(r2, union_mods(m, terse_flag(rest[0])->0)));
        } else {
            assert(strip_mods(rest, m) == (rest, m));
        },
    }
}

proof fn lemma_glyph_plain(w: Seq<char>)
    requires
        plain_word(w),
    ensures
        plain_word(glyph_word(w)),
{
    if parse_chord_of(w) is Ok {
        lemma_parsed_plain(w);
        let (k, m) = parse_chord_of(w)->Ok_0;
        let f = format_chord_of(k, m);
        let t = key_token_of(k);
        assert forall|i: int| 0 <= i < t.len() implies !crate::text::is_ws(#[trigger] t[i]) by {
            assert(t[i] == f[mods_prefix(m).len() + i]);
        }
        assert(t.len() > 0) by {
            assert(f.len() > 0);
            if t.len() == 0 {
                assert(f =~= mods_prefix(m));
                assert(!crate::text::is_ws(f[f.len() - 1]));
            }
        }
        let kt = mac_key_token_of(k);
        let g = mac_glyphs(m);
        assert(kt.len() > 0);
        assert forall|i: int| 0 <= i < kt.len() implies !crate::text::is_ws(#[trigger] kt[i]) by {}
        assert forall|i: int| 0 <= i < g.len() implies !crate::text::is_ws(#[trigger] g[i]) by {}
        let gw = g + kt;
        assert(gw == glyph_word(w));
        assert forall|i: int| 0 <= i < gw.len() implies !crate::text::is_ws(#[trigger] gw[i]) by {
            if i < g.len() {
                assert(gw[i] == g[i]);
            } else {
                assert(gw[i] == kt[i - g.len()]);
            }
        }
    }
}

/// LAW: the mac spelling of a spec has one token per chord, in order: the
/// words of [`mac_glyph_chord`]'s text are the glyph forms of the spec's
/// words, as many as the spec has.
pub proof fn lemma_glyph_chord_per_word(spec: Seq<char>)
    ensures
        words(mac_glyph_chord_of(spec)) == words(spec).map_values(|w: Seq<char>| glyph_word(w)),
        words(mac_glyph_chord_of(spec)).len() == words(spec).len(),
{
    let parts = words(spec).map_values(|w: Seq<char>| glyph_word(w));
    lemma_words_plain(spec);
    assert forall|i: int| 0 <= i < parts.len() implies plain_word(#[trigger] parts[i]) by {
        lemma_glyph_plain(words(spec)[i]);
    }
    lemma_join_front(parts);
    lemma_words_join(parts);
}

proof fn lemma_parsed_plain(w: Seq<char>)
    requires
        plain_word(w),
        parse_chord_of(w) is Ok,
    ensures
        formattable((parse_chord_of(w)->Ok_0).0),
        plain_word(format_chord_of((parse_chord_of(w)->Ok_0).0, (parse_chord_of(w)->Ok_0).1)),
        key_token_of(canon_key((parse_chord_of(w)->Ok_0).0)) == key_token_of((parse_chord_of(w)->Ok_0).0),
{
    lemma_strip_plain(w, no_mods());
    let (rest, m) = strip_mods(w, no_mods());
    let (k, m2) = parse_chord_of(w)->Ok_0;
    assert(m2 == m);
    let t = key_token_of(k);
    let p = mods_prefix(m);
    match k {
        KeyView::Named(n) => {
            assert(spelled(n));
        },
        KeyView::Character(s) => {
            assert(s == rest);
            assert(s.len() == 1);
            assert(!crate::text::is_ws(s[0]));
        },
        KeyView::Unidentified => {},
    }
    assert(t.len() > 0);
    assert(forall|i: int| 0 <= i < t.len() ==> !crate::text::is_ws(#[trigger] t[i]));
    assert(forall|i: int| 0 <= i < p.len() ==> !crate::text::is_ws(#[trigger] p[i]));
    let f = format_chord_of(k, m);
    assert forall|i: int| 0 <= i < f.len() implies !crate::text::is_ws(#[trigger] f[i]) by {
        if i < p.len() {
            assert(f[i] == p[i]);
        } else {
            assert(f[i] == t[i - p.len()]);
        }
    }
}

/// A spec's canonical spelling is its own canonical spelling: canonicalising
/// twice gives what canonicalising once gave.
pub proof fn lemma_canonical_binding_idempotent(spec: Seq<char>)
    requires
        canonical_binding_of(spec) is Some,
    ensures
        canonical_binding_of(canonical_binding_of(spec)->0) == canonical_binding_of(spec),
{
    let ws = words(spec);
    let fs = ws.map_values(|w: Seq<char>| canonical_word(w));
    let c = join_space(fs);
    lemma_words_plain(spec);
    assert forall|i: int| 0 <= i < fs.len() implies plain_word(#[trigger] fs[i]) && parse_chord_of(fs[i]) is Ok
        && canonical_word(fs[i]) == fs[i] by {
        let w = ws[i];
        assert(plain_word(w));
        assert(parse_chord_of(w) is Ok);
        lemma_parsed_plain(w);
        let (k, m) = parse_chord_of(w)->Ok_0;
        assert(fs[i] == format_chord_of(k, m));
        lemma_chord_round_trips(k, m);
        assert(format_chord_of(canon_key(k), m) =~= format_chord_of(k, m));
    }
    lemma_join_front(fs);
    lemma_words_join(fs);
    assert(words(c) == fs);
    assert(fs.map_values(|w: Seq<char>| canonical_word(w)) =~= fs);
    assert(!(exists|i: int| 0 <= i < fs.len() && (#[trigger] parse_chord_of(fs[i])) is Err));
}

} // verus!

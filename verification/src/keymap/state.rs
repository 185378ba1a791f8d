//! The keymap's state: the binding layers a key event is looked up in (the
//! catalog defaults and the configured `[keys]` overrides, each a one-chord
//! layer and a layer per `C-x`/`C-c` prefix), the prefix a key sequence may
//! be in the middle of, the Linux keep set, and the rules that turn a key
//! event into an [`Action`].

use vstd::prelude::*;
use crate::keymap::layer::{chord_set, copy_key, fill_shifted, key_eq, Layer};
use crate::keymap::{
    strs_view, binding_of, canon_key, canon_key_of, ctrl_only, displaced_letters, parse_binding, Action, BindingError, Chord,
};
use crate::keyspec::{parse_chord, parse_chord_of, Key, KeyView, Mods, NamedKey};
use crate::text::{ascii_lower, words};

verus! {

/// Which chord layer the native slot speaks: the mac `Cmd` or the Linux
/// `Ctrl`.
#[derive(Debug, Clone, Copy, PartialEq, Eq, Structural)]
pub enum Convention {
    Mac,
    Linux,
}

/// One command's default chords, as the command catalog gives them.
#[derive(Debug, Clone)]
pub struct DefaultBinding {
    /// The name a `[keys]` line gives the command.
    pub slug: String,
    /// What the command does.
    pub action: Action,
    /// The native chord in the catalog's own (mac) spelling; empty for none.
    pub native: String,
    /// The native chord as the keymap's convention spells it; empty for none.
    pub native_resolved: String,
    /// The emacs chord or `C-x`/`C-c` sequence; empty for none.
    pub emacs: String,
}

/// The three binding layers of one kind: one-chord bindings and the second
/// chords after `C-x` and after `C-c`.
#[verifier::ext_equal]
pub struct LayerMaps {
    pub single: Map<(KeyView, Mods), Action>,
    pub c_x: Map<(KeyView, Mods), Action>,
    pub c_c: Map<(KeyView, Mods), Action>,
}

/// Layers that bind nothing.
pub open spec fn no_layers() -> LayerMaps {
    LayerMaps { single: Map::empty(), c_x: Map::empty(), c_c: Map::empty() }
}

/// The layer a binding of `kind` (0 one chord, 1 after `C-x`, 2 after `C-c`)
/// lives in.
pub open spec fn layer_of(l: LayerMaps, kind: int) -> Map<(KeyView, Mods), Action> {
    if kind == 0 {
        l.single
    } else if kind == 1 {
        l.c_x
    } else {
        l.c_c
    }
}

/// `l` with the layer of `kind` replaced by `m`.
pub open spec fn with_layer(l: LayerMaps, kind: int, m: Map<(KeyView, Mods), Action>) -> LayerMaps {
    if kind == 0 {
        LayerMaps { single: m, ..l }
    } else if kind == 1 {
        LayerMaps { c_x: m, ..l }
    } else {
        LayerMaps { c_c: m, ..l }
    }
}

/// `m` with `c` bound to `a` unless `c` is bound already.
pub open spec fn or_insert(
    m: Map<(KeyView, Mods), Action>,
    c: (KeyView, Mods),
    a: Action,
) -> Map<(KeyView, Mods), Action> {
    if m.contains_key(c) {
        m
    } else {
        m.insert(c, a)
    }
}

/// The keep set of the keep-list `keep`: the chords of its one-chord
/// entries (an entry that is not one chord is skipped).
pub open spec fn keep_chords(keep: Seq<Seq<char>>) -> Set<(KeyView, Mods)> {
    Set::new(
        |c: (KeyView, Mods)|
            exists|i: int| 0 <= i < keep.len() && #[trigger] binding_of(keep[i]) == Ok::<(int, KeyView, Mods), BindingError>((0, c.0, c.1)),
    )
}

/// The chords Linux keeps the emacs meaning of whatever the configuration
/// says.
pub open spec fn builtin_keep() -> Seq<Seq<char>> {
    seq![seq!['C', '-', 'k']]
}

/// The chords Linux keeps the emacs meaning of ([`builtin_keep`]).
pub fn linux_builtin_keep() -> (r: Vec<String>)
    ensures
        r@.len() == builtin_keep().len(),
        forall|i: int| 0 <= i < r@.len() ==> #[trigger] r@[i]@ == builtin_keep()[i],
{
    let mut r: Vec<String> = Vec::new();
    let mut s = String::new();
    s.push('C');
    s.push('-');
    s.push('k');
    r.push(s);
    r
}

/// The native chord `spec` is one chord on the keep set: its native meaning
/// yields to the emacs one.
pub open spec fn keeps_native(keep: Set<(KeyView, Mods)>, spec: Seq<char>) -> bool {
    match binding_of(spec) {
        Ok((kind, k, m)) => kind == 0 && keep.contains((k, m)),
        Err(_) => false,
    }
}

/// The emacs default `emacs` is displaced on Linux: its first chord is a
/// bare `Ctrl` with a character key whose first character, lower-cased, is a
/// displaced letter, and that chord is not on the keep set.
pub open spec fn displaces_raw(emacs: Seq<char>, keep: Set<(KeyView, Mods)>) -> bool {
    let ws = words(emacs);
    ws.len() > 0 && match parse_chord_of(ws[0]) {
        Ok((KeyView::Character(s), m)) => m == ctrl_only() && s.len() > 0 && displaced_letters().contains(
            ascii_lower(s[0]),
        ) && !keep.contains((canon_key_of(KeyView::Character(s)), m)),
        _ => false,
    }
}

/// Seed the default binding of `spec` to `a` into `l`: nothing for an empty
/// spec; no result (a catalog fault) for a spec that does not parse or a
/// chord already bound to another action.
pub open spec fn seed_one(l: LayerMaps, spec: Seq<char>, a: Action) -> Option<LayerMaps> {
    match binding_of(spec) {
        Err(BindingError::Empty) => Some(l),
        Err(_) => None,
        Ok((kind, k, m)) => if layer_of(l, kind).contains_key((k, m)) {
            if layer_of(l, kind)[(k, m)] == a {
                Some(l)
            } else {
                None
            }
        } else {
            Some(with_layer(l, kind, layer_of(l, kind).insert((k, m), a)))
        },
    }
}

/// `seed_one` on a seeding that may have failed already.
pub open spec fn seed_opt(l: Option<LayerMaps>, spec: Seq<char>, a: Action) -> Option<LayerMaps> {
    match l {
        Some(x) => seed_one(x, spec, a),
        None => None,
    }
}

/// Seed each catalog row's emacs chord (unless Linux displaces it) and its
/// native chord (unless Linux keeps the emacs meaning of it), row by row.
pub open spec fn seed_rows(
    l: Option<LayerMaps>,
    rows: Seq<DefaultBinding>,
    conv: Convention,
    keep: Set<(KeyView, Mods)>,
) -> Option<LayerMaps>
    decreases rows.len(),
{
    if rows.len() == 0 {
        l
    } else {
        let r = rows[0];
        let l1 = if conv == Convention::Linux && displaces_raw(r.emacs@, keep) {
            l
        } else {
            seed_opt(l, r.emacs@, r.action)
        };
        let l2 = if conv == Convention::Linux && keeps_native(keep, r.native_resolved@) {
            l1
        } else {
            seed_opt(l1, r.native_resolved@, r.action)
        };
        seed_rows(l2, rows.drop_first(), conv, keep)
    }
}

/// Bind the `Ctrl` chord of `spec` also with `Super` held (and with `Super`
/// and `Shift`), where that is not bound already; no result for a spec that
/// does not parse.
pub open spec fn super_one(l: LayerMaps, spec: Seq<char>, a: Action) -> Option<LayerMaps> {
    match binding_of(spec) {
        Err(BindingError::Empty) => Some(l),
        Err(_) => None,
        Ok((kind, k, m)) => if m.ctrl {
            let m1 = Mods { sup: true, ..m };
            let m2 = Mods { sup: true, shift: true, ..m };
            Some(with_layer(l, kind, or_insert(or_insert(layer_of(l, kind), (k, m1), a), (k, m2), a)))
        } else {
            Some(l)
        },
    }
}

/// The catalog's native spelling `s` is a `C-` chord.
pub open spec fn starts_ctrl(s: Seq<char>) -> bool {
    s.len() >= 2 && s[0] == 'C' && s[1] == '-'
}

/// The `Ctrl`+`Super` variants of every row's emacs chord and of its native
/// chord where that is a `C-` chord, row by row.
pub open spec fn super_rows(l: Option<LayerMaps>, rows: Seq<DefaultBinding>) -> Option<LayerMaps>
    decreases rows.len(),
{
    if rows.len() == 0 {
        l
    } else {
        let r = rows[0];
        let l1 = match l {
            Some(x) => super_one(x, r.emacs@, r.action),
            None => None,
        };
        let l2 = if starts_ctrl(r.native@) {
            match l1 {
                Some(x) => super_one(x, r.native@, r.action),
                None => None,
            }
        } else {
            l1
        };
        super_rows(l2, rows.drop_first())
    }
}

/// The default layers the catalog `rows` seed for convention `conv` and keep
/// set `keep`; no result when the catalog is at fault (a chord that does not
/// parse, or two actions on one chord).
pub open spec fn seeded(rows: Seq<DefaultBinding>, conv: Convention, keep: Set<(KeyView, Mods)>) -> Option<
    LayerMaps,
> {
    match seed_rows(Some(no_layers()), rows, conv, keep) {
        Some(l) => super_rows(Some(LayerMaps { single: fill_shifted(l.single), ..l }), rows),
        None => None,
    }
}

/// The keep set of the keep-list `keep`, over the built-in floor.
pub open spec fn keep_set_of(keep: Seq<Seq<char>>) -> Set<(KeyView, Mods)> {
    keep_chords(builtin_keep() + keep)
}

/// The action of the first catalog row named `name`.
pub open spec fn action_for(rows: Seq<DefaultBinding>, name: Seq<char>) -> Option<Action>
    decreases rows.len(),
{
    if rows.len() == 0 {
        None
    } else if rows[0].slug@ == name {
        Some(rows[0].action)
    } else {
        action_for(rows.drop_first(), name)
    }
}

/// Bind the chord of `spec` to `a`, replacing what it was bound to; a spec
/// that does not parse binds nothing.
pub open spec fn override_one(l: LayerMaps, spec: Seq<char>, a: Action) -> LayerMaps {
    match binding_of(spec) {
        Ok((kind, k, m)) => with_layer(l, kind, layer_of(l, kind).insert((k, m), a)),
        Err(_) => l,
    }
}

/// Bind each of `chords` to `a` in turn.
pub open spec fn override_chords(l: LayerMaps, chords: Seq<String>, a: Action) -> LayerMaps
    decreases chords.len(),
{
    if chords.len() == 0 {
        l
    } else {
        override_chords(override_one(l, chords[0]@, a), chords.drop_first(), a)
    }
}

/// The first two of `s` (all of it when shorter).
pub open spec fn first_two<T>(s: Seq<T>) -> Seq<T> {
    if s.len() > 2 {
        s.take(2)
    } else {
        s
    }
}

/// The `[keys]` lines `keys` bound over `l`, line by line: a line naming a
/// catalog command binds its first two chords to the command's action; a
/// line naming no command binds nothing.
pub open spec fn overrides_from(l: LayerMaps, keys: Seq<(String, Vec<String>)>, rows: Seq<DefaultBinding>) -> LayerMaps
    decreases keys.len(),
{
    if keys.len() == 0 {
        l
    } else {
        let l1 = match action_for(rows, keys[0].0@) {
            Some(a) => override_chords(l, first_two(keys[0].1@), a),
            None => l,
        };
        overrides_from(l1, keys.drop_first(), rows)
    }
}

proof fn lemma_keep_chords_push(s: Seq<Seq<char>>, x: Seq<char>)
    ensures
        keep_chords(s.push(x)) == (match binding_of(x) {
            Ok((kind, k, m)) => if kind == 0 {
                keep_chords(s).insert((k, m))
            } else {
                keep_chords(s)
            },
            Err(_) => keep_chords(s),
        }),
{
    let t = s.push(x);
    let rhs = match binding_of(x) {
        Ok((kind, k, m)) => if kind == 0 {
            keep_chords(s).insert((k, m))
        } else {
            keep_chords(s)
        },
        Err(_) => keep_chords(s),
    };
    assert forall|c: (KeyView, Mods)| keep_chords(t).contains(c) implies rhs.contains(c) by {
        let i = choose|i: int| 0 <= i < t.len() && #[trigger] binding_of(t[i]) == Ok::<(int, KeyView, Mods), BindingError>((0, c.0, c.1));
        if i < s.len() {
            assert(t[i] == s[i]);
            assert(binding_of(s[i]) == Ok::<(int, KeyView, Mods), BindingError>((0, c.0, c.1)));
        } else {
            assert(t[i] == x);
        }
    }
    assert forall|c: (KeyView, Mods)| rhs.contains(c) implies keep_chords(t).contains(c) by {
        if keep_chords(s).contains(c) {
            let i = choose|i: int| 0 <= i < s.len() && #[trigger] binding_of(s[i]) == Ok::<(int, KeyView, Mods), BindingError>((0, c.0, c.1));
            assert(t[i] == s[i]);
            assert(binding_of(t[i]) == Ok::<(int, KeyView, Mods), BindingError>((0, c.0, c.1)));
        } else {
            assert(t[s.len() as int] == x);
            assert(binding_of(t[s.len() as int]) == Ok::<(int, KeyView, Mods), BindingError>((0, c.0, c.1)));
        }
    }
    assert(keep_chords(t) =~= rhs);
}

proof fn lemma_chord_set_push(s: Seq<(Key, Mods)>, k: Key, m: Mods)
    ensures
        chord_set(s.push((k, m))) == chord_set(s).insert((k@, m)),
{
    let t = s.push((k, m));
    assert forall|c: (KeyView, Mods)| chord_set(t).contains(c) implies chord_set(s).insert((k@, m)).contains(c) by {
        let i = choose|i: int| 0 <= i < t.len() && (t[i].0@, t[i].1) == c;
        if i < s.len() {
            assert(t[i] == s[i]);
        }
    }
    assert forall|c: (KeyView, Mods)| chord_set(s).insert((k@, m)).contains(c) implies chord_set(t).contains(c) by {
        if chord_set(s).contains(c) {
            let i = choose|i: int| 0 <= i < s.len() && (s[i].0@, s[i].1) == c;
            assert(t[i] == s[i]);
        } else {
            assert(t[s.len() as int] == (k, m));
        }
    }
    assert(chord_set(t) =~= chord_set(s).insert((k@, m)));
}

// --- Resolving a key event ---------------------------------------------------------------

/// The convention's native modifier alone is held: `Super` without `Ctrl`
/// on the mac, `Ctrl` without `Super` on Linux.
pub open spec fn native_down_of(conv: Convention, m: Mods) -> bool {
    match conv {
        Convention::Mac => m.sup && !m.ctrl,
        Convention::Linux => m.ctrl && !m.sup,
    }
}

/// The first character of a character key.
pub open spec fn first_char(k: KeyView) -> Option<char> {
    match k {
        KeyView::Character(s) => if s.len() > 0 {
            Some(s[0])
        } else {
            None
        },
        _ => None,
    }
}

/// The fixed native-modifier chords that need no catalog row: zoom by the
/// shifted glyphs `+` and `_`, the command palette, cancel, the held stats
/// HUD, hidden files by the shifted glyph `>`, find-and-replace, and find
/// next / previous.
pub open spec fn native_alias(k: KeyView, m: Mods) -> Option<Action> {
    if k == KeyView::Character(seq!['+']) {
        Some(Action::ZoomIn)
    } else if k == KeyView::Character(seq!['_']) {
        Some(Action::ZoomOut)
    } else if first_char(k) == Some('p') || first_char(k) == Some('P') {
        Some(Action::OpenCommandPalette)
    } else if !m.shift && first_char(k) == Some('.') {
        Some(Action::Cancel)
    } else if m.alt && (first_char(k) == Some('i') || first_char(k) == Some('I')) {
        Some(Action::ShowStatsHud)
    } else if m.shift && k == KeyView::Character(seq!['>']) {
        Some(Action::ToggleHiddenFiles)
    } else if m.alt && (first_char(k) == Some('f') || first_char(k) == Some('F')) {
        Some(Action::OpenReplace)
    } else if !m.alt && (first_char(k) == Some('g') || first_char(k) == Some('G')) {
        Some(
            if m.shift {
                Action::SearchBackward
            } else {
                Action::SearchForward
            },
        )
    } else {
        None
    }
}

/// What a named key does with modifiers `m`.
pub open spec fn named_action(conv: Convention, n: NamedKey, m: Mods) -> Action {
    if n == NamedKey::Space && m.ctrl {
        Action::SetMark
    } else {
        match n {
            NamedKey::ArrowLeft => if m.ctrl {
                Action::BackwardWord
            } else {
                Action::BackwardChar
            },
            NamedKey::ArrowRight => if m.ctrl {
                Action::ForwardWord
            } else {
                Action::ForwardChar
            },
            NamedKey::ArrowUp => Action::PreviousLine,
            NamedKey::ArrowDown => Action::NextLine,
            NamedKey::Home => if conv == Convention::Linux && m.ctrl {
                Action::BufferStart
            } else {
                Action::LineStart
            },
            NamedKey::End => if conv == Convention::Linux && m.ctrl {
                Action::BufferEnd
            } else {
                Action::LineEnd
            },
            NamedKey::PageUp => Action::PageScrollUp,
            NamedKey::PageDown => Action::PageScrollDown,
            NamedKey::Enter => Action::Newline,
            NamedKey::Tab => if m.shift {
                Action::Outdent
            } else {
                Action::InsertTab
            },
            NamedKey::Backspace => if m.sup {
                Action::DeleteToLineStart
            } else if m.alt || m.ctrl {
                Action::DeleteWordBackward
            } else {
                Action::DeleteBackward
            },
            NamedKey::Delete => if m.alt || m.ctrl {
                Action::DeleteWordForward
            } else {
                Action::DeleteForward
            },
            NamedKey::Space => if !m.alt {
                Action::InsertChar(' ')
            } else {
                Action::Ignore
            },
            NamedKey::Escape => Action::Cancel,
            NamedKey::Other => Action::Ignore,
        }
    }
}

/// What a character key with text `t` does with modifiers `m`, and the
/// prefix it enters: `(action, after C-x, after C-c)`. The bare `Ctrl`
/// letters without a catalog binding, then nothing for any other `Super`
/// chord, then the character itself unless it is a control character.
pub open spec fn char_action(t: Seq<char>, m: Mods) -> (Action, bool, bool) {
    if t.len() == 0 {
        (Action::Ignore, false, false)
    } else if m.ctrl && !m.alt {
        let lower = ascii_lower(t[0]);
        if lower == 'd' {
            (Action::DeleteForward, false, false)
        } else if lower == 'k' {
            (Action::KillLine, false, false)
        } else if lower == 'v' {
            (Action::PageScrollDown, false, false)
        } else if lower == 'g' {
            (Action::Cancel, false, false)
        } else if lower == 'x' {
            (Action::BeginPrefix, true, false)
        } else if lower == 'c' {
            (Action::BeginPrefix, false, true)
        } else {
            (Action::Ignore, false, false)
        }
    } else if m.sup {
        (Action::Ignore, false, false)
    } else if !crate::text::is_ctrl(t[0]) {
        (Action::InsertChar(t[0]), false, false)
    } else {
        (Action::Ignore, false, false)
    }
}

/// The second chord of a prefix sequence: its configured binding, else its
/// default, else cancel.
pub open spec fn second_chord(
    over: Map<(KeyView, Mods), Action>,
    def: Map<(KeyView, Mods), Action>,
    c: (KeyView, Mods),
) -> Action {
    if over.contains_key(c) {
        over[c]
    } else if def.contains_key(c) {
        def[c]
    } else {
        Action::Cancel
    }
}

/// What key `k` with modifiers `m` resolves to in state `s`, and the prefix
/// flags after it: `(action, after C-x, after C-c)`. Outside a prefix a
/// configured one-chord binding wins, then a default one; inside a prefix
/// the key is the sequence's second chord and ends the prefix; otherwise
/// the fixed native aliases, then the named keys' and characters' own
/// meanings.
pub open spec fn resolve_of(s: KeymapView, k: KeyView, m: Mods) -> (Action, bool, bool) {
    let c = (canon_key_of(k), m);
    if !s.in_c_x && !s.in_c_c && s.overrides.single.contains_key(c) {
        (s.overrides.single[c], false, false)
    } else if !s.in_c_x && !s.in_c_c && s.defaults.single.contains_key(c) {
        (s.defaults.single[c], false, false)
    } else if s.in_c_x {
        (second_chord(s.overrides.c_x, s.defaults.c_x, c), false, s.in_c_c)
    } else if s.in_c_c {
        (second_chord(s.overrides.c_c, s.defaults.c_c, c), false, false)
    } else if native_down_of(s.convention, m) && !(s.convention == Convention::Linux && s.keep.contains(c))
        && native_alias(k, m) is Some {
        (native_alias(k, m)->0, false, false)
    } else {
        match k {
            KeyView::Named(n) => (named_action(s.convention, n, m), false, false),
            KeyView::Character(t) => char_action(t, m),
            KeyView::Unidentified => (Action::Ignore, false, false),
        }
    }
}

// --- The layers of one kind -----------------------------------------------------------

/// The three binding layers of one kind ([`LayerMaps`]).
struct Layers {
    single: Layer,
    c_x: Layer,
    c_c: Layer,
}

impl View for Layers {
    type V = LayerMaps;

    closed spec fn view(&self) -> LayerMaps {
        LayerMaps { single: self.single@, c_x: self.c_x@, c_c: self.c_c@ }
    }
}

/// The layer kind and the chord of a parsed binding.
fn chord_parts(c: Chord) -> (r: (u8, Key, Mods))
    ensures
        (r.0 as int, r.1@, r.2) == crate::keymap::binding_view(c),
        r.0 <= 2,
{
    match c {
        Chord::Single(k, m) => (0, k, m),
        Chord::Cx(k, m) => (1, k, m),
        Chord::Cc(k, m) => (2, k, m),
    }
}

impl Layers {
    fn new() -> (r: Layers)
        ensures
            r@ == no_layers(),
    {
        let r = Layers { single: Layer::new(), c_x: Layer::new(), c_c: Layer::new() };
        assert(r@ =~= no_layers());
        r
    }

    fn get(&self, kind: u8, k: &Key, m: Mods) -> (r: Option<Action>)
        requires
            kind <= 2,
        ensures
            r == (if layer_of(self@, kind as int).contains_key((k@, m)) {
                Some(layer_of(self@, kind as int)[(k@, m)])
            } else {
                None::<Action>
            }),
    {
        if kind == 0 {
            self.single.get(k, m)
        } else if kind == 1 {
            self.c_x.get(k, m)
        } else {
            self.c_c.get(k, m)
        }
    }

    fn insert(&mut self, kind: u8, k: Key, m: Mods, a: Action)
        requires
            kind <= 2,
        ensures
            final(self)@ =~= with_layer(old(self)@, kind as int, layer_of(old(self)@, kind as int).insert((k@, m), a)),
    {
        if kind == 0 {
            self.single.insert(k, m, a);
        } else if kind == 1 {
            self.c_x.insert(k, m, a);
        } else {
            self.c_c.insert(k, m, a);
        }
    }

    fn insert_absent(&mut self, kind: u8, k: Key, m: Mods, a: Action)
        requires
            kind <= 2,
        ensures
            final(self)@ =~= with_layer(old(self)@, kind as int, or_insert(layer_of(old(self)@, kind as int), (k@, m), a)),
    {
        if kind == 0 {
            self.single.insert_absent(k, m, a);
        } else if kind == 1 {
            self.c_x.insert_absent(k, m, a);
        } else {
            self.c_c.insert_absent(k, m, a);
        }
    }

    fn clear(&mut self)
        ensures
            final(self)@ =~= no_layers(),
    {
        self.single.clear();
        self.c_x.clear();
        self.c_c.clear();
    }

    fn fill_shifted(&mut self)
        ensures
            final(self)@ =~= (LayerMaps { single: fill_shifted(old(self)@.single), ..old(self)@ }),
    {
        self.single.fill_shifted();
    }
}

/// Seed the default binding of `spec` to `a` ([`seed_one`]).
fn seed_spec(l: &mut Layers, spec: &str, a: Action)
    requires
        (seed_one(old(l)@, spec@, a) is Some),
    ensures
        final(l)@ == seed_one(old(l)@, spec@, a)->0,
{
    match parse_binding(spec) {
        Ok(c) => {
            let (kind, k, m) = chord_parts(c);
            match l.get(kind, &k, m) {
                Some(_) => {},
                None => {
                    l.insert(kind, k, m, a);
                },
            }
        },
        Err(_) => {},
    }
}

/// Bind the `Ctrl`+`Super` variants of `spec` ([`super_one`]).
fn super_spec(l: &mut Layers, spec: &str, a: Action)
    requires
        (super_one(old(l)@, spec@, a) is Some),
    ensures
        final(l)@ == super_one(old(l)@, spec@, a)->0,
{
    match parse_binding(spec) {
        Ok(c) => {
            let (kind, k, m) = chord_parts(c);
            if m.ctrl {
                let k2 = copy_key(&k);
                l.insert_absent(kind, k, Mods { sup: true, ..m }, a);
                l.insert_absent(kind, k2, Mods { sup: true, shift: true, ..m }, a);
            }
        },
        Err(_) => {},
    }
}

// --- The keep set -------------------------------------------------------------------

fn keep_contains(keep: &Vec<(Key, Mods)>, k: &Key, m: Mods) -> (r: bool)
    ensures
        r == chord_set(keep@).contains((k@, m)),
{
    let mut i: usize = 0;
    while i < keep.len()
        invariant
            0 <= i <= keep@.len(),
            forall|j: int| 0 <= j < i ==> (keep@[j].0@, keep@[j].1) != (k@, m),
        decreases keep.len() - i,
    {
        if key_eq(&keep[i].0, k) && keep[i].1 == m {
            assert((keep@[i as int].0@, keep@[i as int].1) == (k@, m));
            return true;
        }
        i += 1;
    }
    false
}

fn keeps_native_exec(keep: &Vec<(Key, Mods)>, spec: &str) -> (r: bool)
    ensures
        r == keeps_native(chord_set(keep@), spec@),
{
    match parse_binding(spec) {
        Ok(Chord::Single(k, m)) => keep_contains(keep, &k, m),
        _ => false,
    }
}

fn is_displaced_letter(c: char) -> (r: bool)
    ensures
        r == displaced_letters().contains(c),
{
    let letters = crate::keymap::linux_displaced_letters();
    let mut j: usize = 0;
    while j < letters.len()
        invariant
            0 <= j <= letters@.len(),
            letters@ == displaced_letters(),
            forall|q: int| 0 <= q < j ==> letters@[q] != c,
        decreases letters.len() - j,
    {
        if letters[j] == c {
            return true;
        }
        j += 1;
    }
    false
}

fn displaces_raw_exec(emacs: &str, keep: &Vec<(Key, Mods)>) -> (r: bool)
    ensures
        r == displaces_raw(emacs@, chord_set(keep@)),
{
    let v = crate::text::str_to_chars(emacs);
    let ranges = crate::text::word_ranges(&v, 1);
    if ranges.len() == 0 {
        return false;
    }
    let (a, b) = ranges[0];
    assert(crate::text::range_spells(v@, ranges@[0], words(v@)[0]));
    let first = crate::text::string_of(&v, a, b);
    let (key, mods) = match parse_chord(first.as_str()) {
        Ok(km) => km,
        Err(_) => {
            return false;
        },
    };
    if !(mods.ctrl && !mods.alt && !mods.shift && !mods.sup) {
        return false;
    }
    assert(mods == ctrl_only());
    let cs = match &key {
        Key::Character(s) => crate::text::str_to_chars(s.as_str()),
        _ => {
            return false;
        },
    };
    if cs.len() == 0 {
        return false;
    }
    let c = crate::text::lower_char(cs[0]);
    let hit = is_displaced_letter(c);
    if !hit {
        return false;
    }
    let ck = canon_key(key);
    !keep_contains(keep, &ck, mods)
}

// --- The keymap state ---------------------------------------------------------------

/// The keymap state as the contracts see it.
#[verifier::ext_equal]
pub struct KeymapView {
    pub convention: Convention,
    /// After `C-x`, until the next key resolves or cancels the prefix.
    pub in_c_x: bool,
    /// After `C-c`, until the next key resolves or cancels the prefix.
    pub in_c_c: bool,
    /// The command catalog the defaults are seeded from.
    pub catalog: Seq<DefaultBinding>,
    /// The catalog defaults.
    pub defaults: LayerMaps,
    /// The configured `[keys]` bindings, consulted before the defaults.
    pub overrides: LayerMaps,
    /// The chords Linux keeps the emacs meaning of.
    pub keep: Set<(KeyView, Mods)>,
}

/// Multi-key prefix sequences and the binding layers: the catalog defaults,
/// seeded once per construction and again when the keep set changes, and the
/// configured `[keys]` bindings, consulted first.
pub struct KeymapState {
    convention: Convention,
    in_c_x: bool,
    in_c_c: bool,
    catalog: Vec<DefaultBinding>,
    defaults: Layers,
    overrides: Layers,
    linux_keep: Vec<(Key, Mods)>,
}

impl View for KeymapState {
    type V = KeymapView;

    closed spec fn view(&self) -> KeymapView {
        KeymapView {
            convention: self.convention,
            in_c_x: self.in_c_x,
            in_c_c: self.in_c_c,
            catalog: self.catalog@,
            defaults: self.defaults@,
            overrides: self.overrides@,
            keep: chord_set(self.linux_keep@),
        }
    }
}

proof fn lemma_seed_rows_none(rows: Seq<DefaultBinding>, conv: Convention, keep: Set<(KeyView, Mods)>)
    ensures
        seed_rows(None, rows, conv, keep) is None,
    decreases rows.len(),
{
    if rows.len() > 0 {
        lemma_seed_rows_none(rows.drop_first(), conv, keep);
    }
}

proof fn lemma_super_rows_none(rows: Seq<DefaultBinding>)
    ensures
        super_rows(None, rows) is None,
    decreases rows.len(),
{
    if rows.len() > 0 {
        lemma_super_rows_none(rows.drop_first());
    }
}

impl KeymapState {
    /// Re-seed the catalog defaults for the current convention and keep set
    /// ([`seeded`]).
    fn seed_defaults(&mut self)
        requires
            (seeded(old(self)@.catalog, old(self)@.convention, old(self)@.keep) is Some),
        ensures
            final(self)@ == (KeymapView {
                defaults: seeded(old(self)@.catalog, old(self)@.convention, old(self)@.keep)->0,
                ..old(self)@
            }),
    {
        let ghost rows = self.catalog@;
        let ghost conv = self.convention;
        let ghost keep = chord_set(self.linux_keep@);
        self.defaults.clear();
        let n: usize = self.catalog.len();
        let mut i: usize = 0;
        proof {
            assert(rows.skip(0) =~= rows);
        }
        while i < n
            invariant
                0 <= i <= n,
                n == rows.len(),
                rows == self.catalog@,
                conv == self.convention,
                keep == chord_set(self.linux_keep@),
                self.overrides@ == old(self)@.overrides,
                self.in_c_x == old(self).in_c_x,
                self.in_c_c == old(self).in_c_c,
                seed_rows(Some(no_layers()), rows, conv, keep) == seed_rows(
                    Some(self.defaults@),
                    rows.skip(i as int),
                    conv,
                    keep,
                ),
                seed_rows(Some(no_layers()), rows, conv, keep) is Some,
            decreases n - i,
        {
            let ghost cur = self.defaults@;
            let ghost r = rows[i as int];
            proof {
                assert(rows.skip(i as int)[0] == r);
                assert(rows.skip(i as int).drop_first() =~= rows.skip(i + 1));
            }
            let displaced = self.convention == Convention::Linux && displaces_raw_exec(
                self.catalog[i].emacs.as_str(),
                &self.linux_keep,
            );
            let ghost l1 = if displaced {
                Some(cur)
            } else {
                seed_opt(Some(cur), r.emacs@, r.action)
            };
            let suppressed = self.convention == Convention::Linux && keeps_native_exec(
                &self.linux_keep,
                self.catalog[i].native_resolved.as_str(),
            );
            let ghost l2 = if suppressed {
                l1
            } else {
                seed_opt(l1, r.native_resolved@, r.action)
            };
            proof {
                if l2 is None {
                    lemma_seed_rows_none(rows.skip(i + 1), conv, keep);
                }
                if l1 is None {
                    lemma_seed_rows_none(rows.skip(i + 1), conv, keep);
                }
            }
            if !displaced {
                seed_spec(&mut self.defaults, self.catalog[i].emacs.as_str(), self.catalog[i].action);
            }
            if !suppressed {
                seed_spec(
                    &mut self.defaults,
                    self.catalog[i].native_resolved.as_str(),
                    self.catalog[i].action,
                );
            }
            i += 1;
        }
        self.defaults.fill_shifted();
        let mut i: usize = 0;
        proof {
            assert(rows.skip(0) =~= rows);
        }
        while i < n
            invariant
                0 <= i <= n,
                n == rows.len(),
                rows == self.catalog@,
                conv == self.convention,
                keep == chord_set(self.linux_keep@),
                self.overrides@ == old(self)@.overrides,
                self.in_c_x == old(self).in_c_x,
                self.in_c_c == old(self).in_c_c,
                seeded(rows, conv, keep) == super_rows(Some(self.defaults@), rows.skip(i as int)),
                seeded(rows, conv, keep) is Some,
            decreases n - i,
        {
            let ghost cur = self.defaults@;
            let ghost r = rows[i as int];
            proof {
                assert(rows.skip(i as int)[0] == r);
                assert(rows.skip(i as int).drop_first() =~= rows.skip(i + 1));
                let l1 = super_one(cur, r.emacs@, r.action);
                if l1 is None {
                    lemma_super_rows_none(rows.skip(i + 1));
                } else if starts_ctrl(r.native@) && super_one(l1->0, r.native@, r.action) is None {
                    lemma_super_rows_none(rows.skip(i + 1));
                }
            }
            super_spec(&mut self.defaults, self.catalog[i].emacs.as_str(), self.catalog[i].action);
            let v = crate::text::str_to_chars(self.catalog[i].native.as_str());
            if v.len() >= 2 && v[0] == 'C' && v[1] == '-' {
                super_spec(&mut self.defaults, self.catalog[i].native.as_str(), self.catalog[i].action);
            }
            i += 1;
        }
        proof {
            assert(rows.skip(n as int) =~= Seq::<DefaultBinding>::empty());
            assert(super_rows(Some(self.defaults@), rows.skip(n as int)) == Some(self.defaults@));
            assert(seeded(rows, conv, keep)->0 == self.defaults@);
            assert(self@.catalog == old(self)@.catalog);
            assert(self@.keep == old(self)@.keep);
            assert(self@.overrides == old(self)@.overrides);
            assert(self@ =~= (KeymapView {
                defaults: seeded(old(self)@.catalog, old(self)@.convention, old(self)@.keep)->0,
                ..old(self)@
            }));
        }
    }
    /// Apply the Linux keep-list `keep` over the built-in floor
    /// ([`keep_set_of`]), replacing the keep set, and re-seed the defaults.
    pub fn apply_linux_keep(&mut self, keep: &[String])
        requires
            (seeded(old(self)@.catalog, old(self)@.convention, keep_set_of(strs_view(keep@))) is Some),
        ensures
            final(self)@ == (KeymapView {
                keep: keep_set_of(strs_view(keep@)),
                defaults: seeded(old(self)@.catalog, old(self)@.convention, keep_set_of(strs_view(keep@)))->0,
                ..old(self)@
            }),
    {
        let builtin = linux_builtin_keep();
        let ghost all = builtin_keep() + strs_view(keep@);
        let ghost b = builtin@.len() as int;
        let mut ks: Vec<(Key, Mods)> = Vec::new();
        let mut i: usize = 0;
        proof {
            assert(all.take(0) =~= Seq::<Seq<char>>::empty());
            assert(chord_set(ks@) =~= keep_chords(all.take(0)));
        }
        while i < builtin.len()
            invariant
                0 <= i <= builtin@.len(),
                b == builtin@.len(),
                all == builtin_keep() + strs_view(keep@),
                builtin@.len() == builtin_keep().len(),
                forall|q: int| 0 <= q < builtin@.len() ==> #[trigger] builtin@[q]@ == builtin_keep()[q],
                chord_set(ks@) == keep_chords(all.take(i as int)),
            decreases builtin.len() - i,
        {
            proof {
                assert(builtin[i as int]@ == all[i as int]);
                assert(all.take(i + 1) =~= all.take(i as int).push(all[i as int]));
                lemma_keep_chords_push(all.take(i as int), all[i as int]);
            }
            match parse_binding(builtin[i].as_str()) {
                Ok(Chord::Single(k, m)) => {
                    proof {
                        lemma_chord_set_push(ks@, k, m);
                    }
                    ks.push((k, m));
                },
                _ => {},
            }
            i += 1;
        }
        let mut j: usize = 0;
        while j < keep.len()
            invariant
                0 <= j <= keep@.len(),
                b == builtin_keep().len(),
                all == builtin_keep() + strs_view(keep@),
                chord_set(ks@) == keep_chords(all.take(b + j)),
            decreases keep.len() - j,
        {
            proof {
                assert(keep[j as int]@ == all[b + j]);
                assert(all.take(b + j + 1) =~= all.take(b + j).push(all[b + j]));
                lemma_keep_chords_push(all.take(b + j), all[b + j]);
            }
            match parse_binding(keep[j].as_str()) {
                Ok(Chord::Single(k, m)) => {
                    proof {
                        lemma_chord_set_push(ks@, k, m);
                    }
                    ks.push((k, m));
                },
                _ => {},
            }
            j += 1;
        }
        proof {
            assert(all.take(b + keep@.len()) =~= all);
        }
        self.linux_keep = ks;
        self.seed_defaults();
    }

    /// A keymap for `convention` over the command catalog `catalog`, with
    /// the built-in keep floor and no configured bindings.
    pub fn new_with_convention(convention: Convention, catalog: Vec<DefaultBinding>) -> (r: KeymapState)
        requires
            (seeded(catalog@, convention, keep_set_of(Seq::empty())) is Some),
        ensures
            r@ == (KeymapView {
                convention: convention,
                in_c_x: false,
                in_c_c: false,
                catalog: catalog@,
                defaults: seeded(catalog@, convention, keep_set_of(Seq::empty()))->0,
                overrides: no_layers(),
                keep: keep_set_of(Seq::empty()),
            }),
    {
        let mut km = KeymapState {
            convention,
            in_c_x: false,
            in_c_c: false,
            catalog,
            defaults: Layers::new(),
            overrides: Layers::new(),
            linux_keep: Vec::new(),
        };
        let none: Vec<String> = Vec::new();
        assert(strs_view(none@) =~= Seq::<Seq<char>>::empty());
        km.apply_linux_keep(none.as_slice());
        km
    }

    /// Apply (or re-apply) the `[keys]` lines `keys` ([`overrides_from`]),
    /// replacing the configured bindings: each line names a command and up to
    /// two chords, and a line naming no command, or a chord that does not
    /// parse, is skipped.
    pub fn apply_overrides(&mut self, keys: &[(String, Vec<String>)])
        ensures
            final(self)@ == (KeymapView { overrides: overrides_from(no_layers(), keys@, old(self)@.catalog), ..old(self)@ }),
    {
        self.overrides.clear();
        let ghost rows = self.catalog@;
        let mut i: usize = 0;
        proof {
            assert(keys@.skip(0) =~= keys@);
        }
        while i < keys.len()
            invariant
                0 <= i <= keys@.len(),
                rows == self.catalog@,
                self.convention == old(self).convention,
                self.in_c_x == old(self).in_c_x,
                self.in_c_c == old(self).in_c_c,
                self.defaults@ == old(self)@.defaults,
                chord_set(self.linux_keep@) == old(self)@.keep,
                overrides_from(no_layers(), keys@, rows) == overrides_from(self.overrides@, keys@.skip(i as int), rows),
            decreases keys.len() - i,
        {
            proof {
                assert(keys@.skip(i as int)[0] == keys@[i as int]);
                assert(keys@.skip(i as int).drop_first() =~= keys@.skip(i + 1));
            }
            match self.action_for_name(keys[i].0.as_str()) {
                Some(a) => {
                    let chords = &keys[i].1;
                    let ghost cs = first_two(chords@);
                    let lim: usize = if chords.len() > 2 { 2 } else { chords.len() };
                    let ghost start = self.overrides@;
                    let mut j: usize = 0;
                    proof {
                        assert(cs.skip(0) =~= cs);
                    }
                    while j < lim
                        invariant
                            0 <= j <= lim,
                            lim == cs.len(),
                            lim <= chords@.len(),
                            cs == first_two(chords@),
                            override_chords(start, cs, a) == override_chords(self.overrides@, cs.skip(j as int), a),
                            rows == self.catalog@,
                            self.convention == old(self).convention,
                            self.in_c_x == old(self).in_c_x,
                            self.in_c_c == old(self).in_c_c,
                            self.defaults@ == old(self)@.defaults,
                            chord_set(self.linux_keep@) == old(self)@.keep,
                        decreases lim - j,
                    {
                        proof {
                            assert(cs[j as int] == chords@[j as int]);
                            assert(cs.skip(j as int)[0] == cs[j as int]);
                            assert(cs.skip(j as int).drop_first() =~= cs.skip(j + 1));
                        }
                        match parse_binding(chords[j].as_str()) {
                            Ok(c) => {
                                let (kind, k, m) = chord_parts(c);
                                self.overrides.insert(kind, k, m, a);
                            },
                            Err(_) => {},
                        }
                        j += 1;
                    }
                    proof {
                        assert(cs.skip(lim as int) =~= Seq::<String>::empty());
                    }
                },
                None => {},
            }
            i += 1;
        }
        proof {
            assert(keys@.skip(keys@.len() as int) =~= Seq::<(String, Vec<String>)>::empty());
            assert(self@ =~= (KeymapView { overrides: overrides_from(no_layers(), keys@, old(self)@.catalog), ..old(self)@ }));
        }
    }

    /// The action of the first catalog command named `name` ([`action_for`]).
    fn action_for_name(&self, name: &str) -> (r: Option<Action>)
        ensures
            r == action_for(self.catalog@, name@),
    {
        let ghost rows = self.catalog@;
        let mut i: usize = 0;
        proof {
            assert(rows.skip(0) =~= rows);
        }
        while i < self.catalog.len()
            invariant
                0 <= i <= rows.len(),
                rows == self.catalog@,
                action_for(rows, name@) == action_for(rows.skip(i as int), name@),
            decreases self.catalog.len() - i,
        {
            proof {
                assert(rows.skip(i as int)[0] == rows[i as int]);
                assert(rows.skip(i as int).drop_first() =~= rows.skip(i + 1));
            }
            if crate::text::str_eq(self.catalog[i].slug.as_str(), name) {
                return Some(self.catalog[i].action);
            }
            i += 1;
        }
        None
    }

    /// A keymap for `convention` over `catalog` with the `[keys]` lines
    /// `keys` applied.
    pub fn with_overrides_and_convention(
        keys: &[(String, Vec<String>)],
        convention: Convention,
        catalog: Vec<DefaultBinding>,
    ) -> (r: KeymapState)
        requires
            (seeded(catalog@, convention, keep_set_of(Seq::empty())) is Some),
        ensures
            r@ == (KeymapView {
                convention: convention,
                in_c_x: false,
                in_c_c: false,
                catalog: catalog@,
                defaults: seeded(catalog@, convention, keep_set_of(Seq::empty()))->0,
                overrides: overrides_from(no_layers(), keys@, catalog@),
                keep: keep_set_of(Seq::empty()),
            }),
    {
        let mut km = KeymapState::new_with_convention(convention, catalog);
        km.apply_overrides(keys);
        km
    }

    /// A keymap for `convention` over `catalog` with the `[keys]` lines
    /// `keys` and the Linux keep-list `keep` applied.
    pub fn with_overrides_and_keep(
        keys: &[(String, Vec<String>)],
        keep: &[String],
        convention: Convention,
        catalog: Vec<DefaultBinding>,
    ) -> (r: KeymapState)
        requires
            (seeded(catalog@, convention, keep_set_of(Seq::empty())) is Some),
            (seeded(catalog@, convention, keep_set_of(strs_view(keep@))) is Some),
        ensures
            r@ == (KeymapView {
                convention: convention,
                in_c_x: false,
                in_c_c: false,
                catalog: catalog@,
                defaults: seeded(catalog@, convention, keep_set_of(strs_view(keep@)))->0,
                overrides: overrides_from(no_layers(), keys@, catalog@),
                keep: keep_set_of(strs_view(keep@)),
            }),
    {
        let mut km = KeymapState::with_overrides_and_convention(keys, convention, catalog);
        km.apply_linux_keep(keep);
        km
    }
    /// Whether a `C-x` or `C-c` sequence awaits its second chord.
    pub fn in_prefix(&self) -> (r: bool)
        ensures
            r == (self@.in_c_x || self@.in_c_c),
    {
        self.in_c_x || self.in_c_c
    }

    /// Whether `key` with `Alt` held is a configured (Meta) chord, so that
    /// the un-composed key is the one to resolve.
    pub fn is_meta_chord(&self, key: &Key) -> (r: bool)
        ensures
            r == exists|m: Mods| m.alt && #[trigger] self@.overrides.single.contains_key((canon_key_of(key@), m)),
    {
        let k = canon_key(copy_key(key));
        let r = self.overrides.single.has_alt_chord(&k);
        proof {
            let mp = self.overrides.single@;
            assert(self@.overrides.single == mp);
            if r {
                let m = choose|m: Mods| m.alt && #[trigger] mp.contains_key((k@, m));
                assert(self@.overrides.single.contains_key((canon_key_of(key@), m)));
            }
            if exists|m: Mods| m.alt && #[trigger] self@.overrides.single.contains_key((canon_key_of(key@), m)) {
                let m = choose|m: Mods| m.alt && #[trigger] self@.overrides.single.contains_key((canon_key_of(key@), m));
                assert(mp.contains_key((k@, m)));
            }
        }
        r
    }

    fn native_down(&self, m: Mods) -> (r: bool)
        ensures
            r == native_down_of(self@.convention, m),
    {
        match self.convention {
            Convention::Mac => m.sup && !m.ctrl,
            Convention::Linux => m.ctrl && !m.sup,
        }
    }

    /// Resolve a key event to an [`Action`] ([`resolve_of`]), updating the
    /// prefix state.
    pub fn resolve(&mut self, logical: &Key, mods: Mods) -> (r: Action)
        ensures
            (r, final(self)@.in_c_x, final(self)@.in_c_c) == resolve_of(old(self)@, logical@, mods),
            final(self)@ == (KeymapView { in_c_x: final(self)@.in_c_x, in_c_c: final(self)@.in_c_c, ..old(self)@ }),
    {
        let ck = canon_key(copy_key(logical));
        if !self.in_c_x && !self.in_c_c {
            match self.overrides.get(0, &ck, mods) {
                Some(a) => {
                    return a;
                },
                None => {},
            }
            match self.defaults.get(0, &ck, mods) {
                Some(a) => {
                    return a;
                },
                None => {},
            }
        }
        if self.in_c_x {
            self.in_c_x = false;
            return match self.overrides.get(1, &ck, mods) {
                Some(a) => a,
                None => match self.defaults.get(1, &ck, mods) {
                    Some(a) => a,
                    None => Action::Cancel,
                },
            };
        }
        if self.in_c_c {
            self.in_c_c = false;
            return match self.overrides.get(2, &ck, mods) {
                Some(a) => a,
                None => match self.defaults.get(2, &ck, mods) {
                    Some(a) => a,
                    None => Action::Cancel,
                },
            };
        }
        let native = self.native_down(mods) && !(self.convention == Convention::Linux && keep_contains(
            &self.linux_keep,
            &ck,
            mods,
        ));
        if native {
            match native_alias_exec(logical, mods) {
                Some(a) => {
                    return a;
                },
                None => {},
            }
        }
        match logical {
            Key::Named(n) => self.resolve_named(*n, mods.ctrl, mods.alt, mods),
            Key::Character(s) => self.resolve_char(s.as_str(), mods.ctrl, mods.alt, mods.sup),
            Key::Unidentified => Action::Ignore,
        }
    }

    fn resolve_named(&self, named: NamedKey, ctrl: bool, alt: bool, state: Mods) -> (r: Action)
        requires
            ctrl == state.ctrl,
            alt == state.alt,
        ensures
            r == named_action(self@.convention, named, state),
    {
        if named == NamedKey::Space && ctrl {
            return Action::SetMark;
        }
        let sup = state.sup;
        match named {
            NamedKey::ArrowLeft => if state.ctrl {
                Action::BackwardWord
            } else {
                Action::BackwardChar
            },
            NamedKey::ArrowRight => if state.ctrl {
                Action::ForwardWord
            } else {
                Action::ForwardChar
            },
            NamedKey::ArrowUp => Action::PreviousLine,
            NamedKey::ArrowDown => Action::NextLine,
            NamedKey::Home => if self.convention == Convention::Linux && ctrl {
                Action::BufferStart
            } else {
                Action::LineStart
            },
            NamedKey::End => if self.convention == Convention::Linux && ctrl {
                Action::BufferEnd
            } else {
                Action::LineEnd
            },
            NamedKey::PageUp => Action::PageScrollUp,
            NamedKey::PageDown => Action::PageScrollDown,
            NamedKey::Enter => Action::Newline,
            NamedKey::Tab => if state.shift {
                Action::Outdent
            } else {
                Action::InsertTab
            },
            NamedKey::Backspace => if sup {
                Action::DeleteToLineStart
            } else if alt || state.ctrl {
                Action::DeleteWordBackward
            } else {
                Action::DeleteBackward
            },
            NamedKey::Delete => if alt || state.ctrl {
                Action::DeleteWordForward
            } else {
                Action::DeleteForward
            },
            NamedKey::Space => if !alt {
                Action::InsertChar(' ')
            } else {
                Action::Ignore
            },
            NamedKey::Escape => Action::Cancel,
            NamedKey::Other => Action::Ignore,
        }
    }

    fn resolve_char(&mut self, s: &str, ctrl: bool, alt: bool, sup: bool) -> (r: Action)
        requires
            !old(self).in_c_x,
            !old(self).in_c_c,
        ensures
            (r, final(self).in_c_x, final(self).in_c_c) == char_action(
                s@,
                Mods { ctrl: ctrl, alt: alt, shift: false, sup: sup },
            ),
            final(self).convention == old(self).convention,
            final(self).catalog == old(self).catalog,
            final(self).defaults == old(self).defaults,
            final(self).overrides == old(self).overrides,
            final(self).linux_keep == old(self).linux_keep,
    {
        let v = crate::text::str_to_chars(s);
        if v.len() == 0 {
            return Action::Ignore;
        }
        let c = v[0];
        let lower = crate::text::lower_char(c);
        if ctrl && !alt {
            return if lower == 'd' {
                Action::DeleteForward
            } else if lower == 'k' {
                Action::KillLine
            } else if lower == 'v' {
                Action::PageScrollDown
            } else if lower == 'g' {
                Action::Cancel
            } else if lower == 'x' {
                self.in_c_x = true;
                Action::BeginPrefix
            } else if lower == 'c' {
                self.in_c_c = true;
                Action::BeginPrefix
            } else {
                Action::Ignore
            };
        }
        if sup {
            return Action::Ignore;
        }
        if !crate::text::is_control(c) {
            Action::InsertChar(c)
        } else {
            Action::Ignore
        }
    }
}

fn first_char_exec(k: &Key) -> (r: Option<char>)
    ensures
        r == first_char(k@),
{
    match k {
        Key::Character(s) => {
            let v = crate::text::str_to_chars(s.as_str());
            if v.len() > 0 {
                Some(v[0])
            } else {
                None
            }
        },
        _ => None,
    }
}

fn is_text(k: &Key, t: char) -> (r: bool)
    ensures
        r == (k@ == KeyView::Character(seq![t])),
{
    match k {
        Key::Character(s) => {
            let v = crate::text::str_to_chars(s.as_str());
            let r = v.len() == 1 && v[0] == t;
            proof {
                if r {
                    assert(s@ =~= seq![t]);
                }
                if s@ == seq![t] {
                    assert(v@.len() == 1);
                }
            }
            r
        },
        _ => false,
    }
}

fn native_alias_exec(k: &Key, m: Mods) -> (r: Option<Action>)
    ensures
        r == native_alias(k@, m),
{
    let f = first_char_exec(k);
    if is_text(k, '+') {
        Some(Action::ZoomIn)
    } else if is_text(k, '_') {
        Some(Action::ZoomOut)
    } else if f == Some('p') || f == Some('P') {
        Some(Action::OpenCommandPalette)
    } else if !m.shift && f == Some('.') {
        Some(Action::Cancel)
    } else if m.alt && (f == Some('i') || f == Some('I')) {
        Some(Action::ShowStatsHud)
    } else if m.shift && is_text(k, '>') {
        Some(Action::ToggleHiddenFiles)
    } else if m.alt && (f == Some('f') || f == Some('F')) {
        Some(Action::OpenReplace)
    } else if !m.alt && (f == Some('g') || f == Some('G')) {
        Some(
            if m.shift {
                Action::SearchBackward
            } else {
                Action::SearchForward
            },
        )
    } else {
        None
    }
}

// --- Laws ---------------------------------------------------------------------------

/// A key pressed in the middle of a `C-x` or `C-c` sequence ends it,
/// whatever the key: the prefix is never left armed.
pub proof fn lemma_second_chord_ends_prefix(s: KeymapView, k: KeyView, m: Mods)
    requires
        s.in_c_x || s.in_c_c,
        !(s.in_c_x && s.in_c_c),
    ensures
        !resolve_of(s, k, m).1,
        !resolve_of(s, k, m).2,
{
}

/// Resolving a key never leaves two prefixes armed at once.
pub proof fn lemma_one_prefix_at_most(s: KeymapView, k: KeyView, m: Mods)
    requires
        !(s.in_c_x && s.in_c_c),
    ensures
        !(resolve_of(s, k, m).1 && resolve_of(s, k, m).2),
{
}

/// Outside a prefix, a configured one-chord binding wins over the catalog
/// default and over every built-in meaning of the chord.
pub proof fn lemma_override_wins(s: KeymapView, k: KeyView, m: Mods)
    requires
        !s.in_c_x,
        !s.in_c_c,
        s.overrides.single.contains_key((canon_key_of(k), m)),
    ensures
        resolve_of(s, k, m).0 == s.overrides.single[(canon_key_of(k), m)],
{
}

/// A `Super` chord of a character key that no layer binds never types its
/// character: an unhandled `Cmd` combination is inert.
pub proof fn lemma_unbound_super_types_nothing(s: KeymapView, t: Seq<char>, m: Mods)
    requires
        !s.in_c_x,
        !s.in_c_c,
        m.sup,
        !s.overrides.single.contains_key((canon_key_of(KeyView::Character(t)), m)),
        !s.defaults.single.contains_key((canon_key_of(KeyView::Character(t)), m)),
    ensures
        !(resolve_of(s, KeyView::Character(t), m).0 is InsertChar),
{
}

/// No keep-list removes the built-in keep floor: every keep set holds its
/// chords.
pub proof fn lemma_keep_floor_stays(keep: Seq<Seq<char>>)
    ensures
        keep_chords(builtin_keep()).subset_of(keep_set_of(keep)),
{
    let all = builtin_keep() + keep;
    assert forall|c: (KeyView, Mods)| keep_chords(builtin_keep()).contains(c) implies keep_set_of(keep).contains(c) by {
        let i = choose|i: int|
            0 <= i < builtin_keep().len() && #[trigger] binding_of(builtin_keep()[i]) == Ok::<(int, KeyView, Mods), BindingError>((0, c.0, c.1));
        assert(all[i] == builtin_keep()[i]);
        assert(binding_of(all[i]) == Ok::<(int, KeyView, Mods), BindingError>((0, c.0, c.1)));
    }
}

proof fn lemma_mac_seed_rows_ignore_keep(
    l: Option<LayerMaps>,
    rows: Seq<DefaultBinding>,
    k1: Set<(KeyView, Mods)>,
    k2: Set<(KeyView, Mods)>,
)
    ensures
        seed_rows(l, rows, Convention::Mac, k1) == seed_rows(l, rows, Convention::Mac, k2),
    decreases rows.len(),
{
    if rows.len() > 0 {
        let r = rows[0];
        let l2 = seed_opt(seed_opt(l, r.emacs@, r.action), r.native_resolved@, r.action);
        lemma_mac_seed_rows_ignore_keep(l2, rows.drop_first(), k1, k2);
    }
}

/// The mac convention ignores the Linux keep set: the defaults it seeds, and
/// what every key resolves to, are the same whatever the keep set holds.
pub proof fn lemma_mac_ignores_keep(
    s: KeymapView,
    rows: Seq<DefaultBinding>,
    k1: Set<(KeyView, Mods)>,
    k2: Set<(KeyView, Mods)>,
    k: KeyView,
    m: Mods,
)
    requires
        s.convention == Convention::Mac,
    ensures
        seeded(rows, Convention::Mac, k1) == seeded(rows, Convention::Mac, k2),
        resolve_of(KeymapView { keep: k1, ..s }, k, m) == resolve_of(KeymapView { keep: k2, ..s }, k, m),
{
    lemma_mac_seed_rows_ignore_keep(Some(no_layers()), rows, k1, k2);
}

} // verus!

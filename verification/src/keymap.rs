//! Editor commands and the keymap: which commands move the cursor and which
//! edit, the keymap flavor preset, the Ctrl letters whose native meaning wins
//! on Linux, the grammar of a configured binding, the binding layers
//! ([`layer`]) and the key-event state machine ([`state`]).

use vstd::prelude::*;
use crate::keyspec::{
    canonical_binding, canonical_binding_of, parse_chord, parse_chord_of, ChordError, Key, KeyView, Mods,
};
use crate::text::{ascii_lower, ascii_lower_seq, trim, words};

pub mod layer;
pub mod state;

pub use state::{Convention, DefaultBinding, KeymapState};

verus! {

/// A resolved editor command.
#[derive(Debug, Clone, Copy, PartialEq, Eq, Structural)]
pub enum Action {
    ForwardChar,
    BackwardChar,
    NextLine,
    PreviousLine,
    LineStart,
    LineEnd,
    ForwardWord,
    BackwardWord,
    BufferStart,
    BufferEnd,
    InsertChar(char),
    Newline,
    InsertTab,
    Outdent,
    DeleteBackward,
    DeleteWordBackward,
    DeleteWordForward,
    DeleteToLineStart,
    DeleteForward,
    KillLine,
    Yank,
    Undo,
    Redo,
    SetMark,
    CopyRegion,
    KillRegion,
    SelectAll,
    ZoomIn,
    ZoomOut,
    ZoomReset,
    PageScrollDown,
    PageScrollUp,
    Save,
    Quit,
    SearchForward,
    SearchBackward,
    OpenReplace,
    Cancel,
    OpenThemeMenu,
    OpenCommandPalette,
    OpenOutline,
    OpenSpellSuggest,
    ToggleCaretMode,
    OpenCaretMenu,
    OpenDictionaryMenu,
    ToggleSpellcheck,
    ToggleHiddenFiles,
    TogglePageMode,
    PageWider,
    PageNarrower,
    PageReset,
    ToggleDebug,
    ToggleOutline,
    ToggleMenuBar,
    ToggleTypewriter,
    ToggleWritingNits,
    ShowStatsHud,
    About,
    LifetimeStats,
    WritingStreaks,
    ConvertLineEndings,
    AlignTable,
    ReportProblem,
    DownloadFile,
    CheckForUpdates,
    ToggleBlockquote,
    ToggleBulletList,
    ToggleNumberedList,
    ToggleTaskList,
    ToggleHeading,
    HeadingCycle,
    ToggleCodeBlock,
    Bold,
    Italic,
    InlineCode,
    Highlight,
    Strikethrough,
    ExportWord,
    ExportHtml,
    ExportPdf,
    OpenGoto,
    OpenProject,
    OpenRecentProjects,
    OpenBrowse,
    LastBuffer,
    NewNote,
    MoveNote,
    OpenRenameNote,
    DuplicateNote,
    OpenSettings,
    OpenSettingsMenu,
    OpenKeybindings,
    OpenCredits,
    OpenGuide,
    OpenHistory,
    CompareVersion,
    OpenAssetClean,
    KeepVersion,
    FinishBuffer,
    FollowLink,
    InsertLink,
    InsertDate,
    BeginPrefix,
    Ignore,
}

/// The cursor motions: the commands an active selection extends across.
pub open spec fn motion_action(a: Action) -> bool {
    a is ForwardChar || a is BackwardChar || a is NextLine || a is PreviousLine || a is LineStart || a is LineEnd || a is ForwardWord || a is BackwardWord || a is BufferStart || a is BufferEnd
}

/// The commands that change the buffer's content (and so record undo
/// history). Undo and Redo manage that history and are not edits.
pub open spec fn edit_action(a: Action) -> bool {
    a is InsertChar || a is Newline || a is InsertTab || a is Outdent || a is DeleteBackward || a is DeleteWordBackward || a is DeleteWordForward || a is DeleteToLineStart || a is DeleteForward || a is KillLine || a is Yank || a is KillRegion || a is AlignTable || a is ToggleBlockquote || a is ToggleBulletList || a is ToggleNumberedList || a is ToggleTaskList || a is ToggleHeading || a is HeadingCycle || a is ToggleCodeBlock || a is Bold || a is Italic || a is InlineCode || a is Highlight || a is Strikethrough
}

impl Action {
    /// Whether this command is a cursor motion ([`motion_action`]).
    pub fn is_motion(&self) -> (r: bool)
        ensures
            r == motion_action(*self),
    {
        match self {
            Action::ForwardChar
            | Action::BackwardChar
            | Action::NextLine
            | Action::PreviousLine
            | Action::LineStart
            | Action::LineEnd
            | Action::ForwardWord
            | Action::BackwardWord
            | Action::BufferStart
            | Action::BufferEnd => true,
            _ => false,
        }
    }

    /// Whether this command changes buffer content ([`edit_action`]).
    pub fn is_edit(&self) -> (r: bool)
        ensures
            r == edit_action(*self),
    {
        match self {
            Action::InsertChar(_)
            | Action::Newline
            | Action::InsertTab
            | Action::Outdent
            | Action::DeleteBackward
            | Action::DeleteWordBackward
            | Action::DeleteWordForward
            | Action::DeleteToLineStart
            | Action::DeleteForward
            | Action::KillLine
            | Action::Yank
            | Action::KillRegion
            | Action::AlignTable
            | Action::ToggleBlockquote
            | Action::ToggleBulletList
            | Action::ToggleNumberedList
            | Action::ToggleTaskList
            | Action::ToggleHeading
            | Action::HeadingCycle
            | Action::ToggleCodeBlock
            | Action::Bold
            | Action::Italic
            | Action::InlineCode
            | Action::Highlight
            | Action::Strikethrough => true,
            _ => false,
        }
    }
}

// --- The keymap flavor --------------------------------------------------------------

/// The keymap preset a config names: `Native` (the default) or `Emacs`,
/// which keeps every displaced Ctrl letter's emacs meaning on Linux.
#[derive(Debug, Clone, Copy, PartialEq, Eq, Structural)]
pub enum KeymapFlavor {
    Native,
    Emacs,
}

impl Default for KeymapFlavor {
    fn default() -> (f: Self)
        ensures
            f == KeymapFlavor::Native,
    {
        KeymapFlavor::Native
    }
}

/// The flavor a config value names, trimmed and in any ASCII case.
pub open spec fn flavor_of(s: Seq<char>) -> Option<KeymapFlavor> {
    let t = ascii_lower_seq(trim(s));
    if t == seq!['n', 'a', 't', 'i', 'v', 'e'] {
        Some(KeymapFlavor::Native)
    } else if t == seq!['e', 'm', 'a', 'c', 's'] {
        Some(KeymapFlavor::Emacs)
    } else {
        None
    }
}

impl KeymapFlavor {
    /// Parse a config `keymap` value ([`flavor_of`]); anything else is `None`,
    /// and the caller keeps the default.
    pub fn parse(s: &str) -> (r: Option<KeymapFlavor>)
        ensures
            r == flavor_of(s@),
    {
        let v = crate::text::str_to_chars(s);
        let (a, b) = crate::text::trim_range(&v, 0, v.len());
        proof {
            assert(v@.subrange(0, v@.len() as int) =~= s@);
            reveal_strlit("native");
            reveal_strlit("emacs");
            assert(ascii_lower_seq(seq!['n', 'a', 't', 'i', 'v', 'e']) =~= seq!['n', 'a', 't', 'i', 'v', 'e']);
            assert(ascii_lower_seq(seq!['e', 'm', 'a', 'c', 's']) =~= seq!['e', 'm', 'a', 'c', 's']);
            assert("native"@ =~= seq!['n', 'a', 't', 'i', 'v', 'e']);
            assert("emacs"@ =~= seq!['e', 'm', 'a', 'c', 's']);
        }
        if crate::text::range_eq_ignore_case(&v, a, b, "native") {
            Some(KeymapFlavor::Native)
        } else if crate::text::range_eq_ignore_case(&v, a, b, "emacs") {
            Some(KeymapFlavor::Emacs)
        } else {
            None
        }
    }

    /// The config name this flavor reads and writes as ([`flavor_name`]).
    pub fn config_name(self) -> (r: &'static str)
        ensures
            r@ == flavor_name(self),
    {
        proof {
            reveal_strlit("native");
            reveal_strlit("emacs");
        }
        match self {
            KeymapFlavor::Native => "native",
            KeymapFlavor::Emacs => "emacs",
        }
    }
}

/// The config name of a flavor.
pub open spec fn flavor_name(f: KeymapFlavor) -> Seq<char> {
    match f {
        KeymapFlavor::Native => seq!['n', 'a', 't', 'i', 'v', 'e'],
        KeymapFlavor::Emacs => seq!['e', 'm', 'a', 'c', 's'],
    }
}

/// A flavor's config name parses back to the flavor.
pub proof fn lemma_flavor_name_round_trips(f: KeymapFlavor)
    ensures
        flavor_of(flavor_name(f)) == Some(f),
{
    let s = flavor_name(f);
    assert(crate::text::lead_ws(s) == 0);
    assert(crate::text::trail_ws(s) == 0);
    assert(trim(s) =~= s);
    assert(ascii_lower_seq(s) =~= s);
}

/// A flavor's config name parses to the flavor in any ASCII case and with any
/// white space around it (`" EMACS "` is the emacs flavor).
pub proof fn lemma_flavor_parses_in_any_case(f: KeymapFlavor, pre: Seq<char>, w: Seq<char>, post: Seq<char>)
    requires
        crate::text::all_ws(pre),
        crate::text::all_ws(post),
        crate::text::eq_ignore_ascii_case(w, flavor_name(f)),
    ensures
        flavor_of(pre + w + post) == Some(f),
{
    let s = flavor_name(f);
    let lw = ascii_lower_seq(w);
    assert(ascii_lower_seq(s) =~= s);
    assert(lw == s);
    assert(w.len() == lw.len() && lw.len() > 0);
    assert(lw[0] == crate::text::ascii_lower(w[0]));
    assert(lw[lw.len() - 1] == crate::text::ascii_lower(w.last()));
    assert(!crate::text::is_ws(w[0]));
    assert(!crate::text::is_ws(w.last()));
    crate::text::lemma_trim_padded(pre, w, post);
}

/// No command is both a motion and an edit.
pub proof fn lemma_motion_is_not_edit(a: Action)
    ensures
        !(motion_action(a) && edit_action(a)),
{
}

// --- The Linux collision table ------------------------------------------------------

/// The letters whose `Ctrl-<letter>` takes its native meaning on Linux,
/// displacing the emacs default. `k` is not among them: kill-line keeps
/// Ctrl-K.
pub open spec fn displaced_letters() -> Seq<char> {
    seq!['s', 'p', 'n', 'w', 'f', 'e', 'a', 'g', 'r', 'b', 'c', 'x', 'v']
}

/// The displaced letters ([`displaced_letters`]).
pub fn linux_displaced_letters() -> (r: Vec<char>)
    ensures
        r@ == displaced_letters(),
{
    let r = vec!['s', 'p', 'n', 'w', 'f', 'e', 'a', 'g', 'r', 'b', 'c', 'x', 'v'];
    assert(r@ =~= displaced_letters());
    r
}

/// The `Emacs` flavor's keep-list: one `"C-<letter>"` chord per displaced
/// letter, in the table's order.
pub fn linux_emacs_preset_keep() -> (r: Vec<String>)
    ensures
        r@.len() == displaced_letters().len(),
        forall|i: int| 0 <= i < r@.len() ==> (#[trigger] r@[i])@ == seq!['C', '-', displaced_letters()[i]],
{
    let letters = linux_displaced_letters();
    let mut out: Vec<String> = Vec::new();
    let mut i: usize = 0;
    while i < letters.len()
        invariant
            0 <= i <= letters@.len(),
            letters@ == displaced_letters(),
            out@.len() == i,
            forall|k: int| 0 <= k < i ==> (#[trigger] out@[k])@ == seq!['C', '-', displaced_letters()[k]],
        decreases letters.len() - i,
    {
        let mut c = String::new();
        c.push('C');
        c.push('-');
        c.push(letters[i]);
        assert(c@ =~= seq!['C', '-', displaced_letters()[i as int]]);
        out.push(c);
        i += 1;
    }
    out
}

/// `chord` is on the keep-list `keep`, compared canonically: it parses, and
/// some entry of `keep` canonicalises to the same spelling.
pub open spec fn keeps_of(keep: Seq<Seq<char>>, chord: Seq<char>) -> bool {
    canonical_binding_of(chord) is Some && exists|i: int|
        0 <= i < keep.len() && #[trigger] canonical_binding_of(keep[i]) == canonical_binding_of(chord)
}

/// The views of a list of strings.
pub open spec fn strs_view(v: Seq<String>) -> Seq<Seq<char>> {
    v.map_values(|s: String| s@)
}

/// Whether `chord_spec` is on the Linux keep-list `keep` ([`keeps_of`]):
/// `"C-f"`, `"Ctrl-f"` and `"Control-F"` are one chord.
pub fn linux_keeps_chord(keep: &[String], chord_spec: &str) -> (r: bool)
    ensures
        r == keeps_of(strs_view(keep@), chord_spec@),
{
    let want = match canonical_binding(chord_spec) {
        Some(w) => w,
        None => {
            return false;
        },
    };
    let ghost ks = strs_view(keep@);
    let mut i: usize = 0;
    while i < keep.len()
        invariant
            0 <= i <= keep@.len(),
            ks == strs_view(keep@),
            canonical_binding_of(chord_spec@) == Some(want@),
            forall|k: int| 0 <= k < i ==> #[trigger] canonical_binding_of(ks[k]) != canonical_binding_of(chord_spec@),
        decreases keep.len() - i,
    {
        assert(ks[i as int] == keep@[i as int]@);
        match canonical_binding(keep[i].as_str()) {
            Some(c) => {
                if crate::text::str_eq(c.as_str(), want.as_str()) {
                    return true;
                }
            },
            None => {},
        }
        i += 1;
    }
    false
}

/// A bare `Ctrl` with no other modifier.
pub open spec fn ctrl_only() -> Mods {
    Mods { ctrl: true, alt: false, shift: false, sup: false }
}

/// An emacs default `emacs` (a chord or a sequence) is displaced on Linux:
/// its first chord is a bare `Ctrl` with a character key whose first
/// character, lower-cased, is a displaced letter, and that chord is not kept.
pub open spec fn displaces_of(emacs: Seq<char>, keep: Seq<Seq<char>>) -> bool {
    let ws = words(emacs);
    ws.len() > 0 && match parse_chord_of(ws[0]) {
        Ok((KeyView::Character(s), m)) => m == ctrl_only() && s.len() > 0 && displaced_letters().contains(
            ascii_lower(s[0]),
        ) && !keeps_of(keep, ws[0]),
        _ => false,
    }
}

/// Whether the emacs default `emacs` is displaced on Linux
/// ([`displaces_of`]), given the keep-list `keep`.
pub fn linux_displaces_emacs_default(emacs: &str, keep: &[String]) -> (r: bool)
    ensures
        r == displaces_of(emacs@, strs_view(keep@)),
{
    let v = crate::text::str_to_chars(emacs);
    let ranges = crate::text::word_ranges(&v, 1);
    if ranges.len() == 0 {
        return false;
    }
    let (a, b) = ranges[0];
    assert(crate::text::range_spells(v@, ranges@[0], words(v@)[0]));
    let first = crate::text::string_of(&v, a, b);
    let (key, mods) = match parse_chord(first.as_str()) {
        Ok(km) => km,
        Err(_) => {
            return false;
        },
    };
    if !(mods.ctrl && !mods.alt && !mods.shift && !mods.sup) {
        return false;
    }
    let s = match &key {
        Key::Character(s) => s,
        _ => {
            return false;
        },
    };
    let cs = crate::text::str_to_chars(s.as_str());
    if cs.len() == 0 {
        return false;
    }
    let c = crate::text::lower_char(cs[0]);
    let letters = linux_displaced_letters();
    let mut j: usize = 0;
    let mut found = false;
    while j < letters.len()
        invariant
            0 <= j <= letters@.len(),
            letters@ == displaced_letters(),
            found == exists|q: int| 0 <= q < j && letters@[q] == c,
        decreases letters.len() - j,
    {
        if letters[j] == c {
            found = true;
        }
        j += 1;
    }
    proof {
        if found {
            let q = choose|q: int| 0 <= q < j && letters@[q] == c;
            assert(displaced_letters().contains(c));
        }
        if displaced_letters().contains(c) {
            let q = choose|q: int| 0 <= q < displaced_letters().len() && displaced_letters()[q] == c;
            assert(letters@[q] == c);
        }
    }
    found && !linux_keeps_chord(keep, first.as_str())
}

// --- Configured bindings ------------------------------------------------------------

/// A configured binding: one chord, or the `C-x` or `C-c` prefix followed by
/// one chord, keyed by that chord's (case-folded) key and modifiers.
#[derive(Debug, Clone, PartialEq, Eq)]
pub enum Chord {
    Single(Key, Mods),
    Cx(Key, Mods),
    Cc(Key, Mods),
}

/// Why a configured binding is refused.
#[derive(Debug, Clone, Copy, PartialEq, Eq, Structural)]
pub enum BindingError {
    /// A chord of it does not parse.
    BadChord(ChordError),
    /// Two chords whose first is neither `C-x` nor `C-c`.
    UnsupportedPrefix,
    /// No chord at all.
    Empty,
    /// More than two chords (the count).
    TooManyChords(usize),
}

/// What `str::to_lowercase` gives for `s`.
pub uninterp spec fn str_lowercase_of(s: Seq<char>) -> Seq<char>;

/// `str::to_lowercase`. Trusted: the result is [`str_lowercase_of`] `s`,
/// and an all-ASCII `s` lowers to its ASCII lower case. The Unicode case
/// mapping beyond ASCII, the context-dependent final sigma included, is left
/// to the name.
#[verifier::external_body]
fn lowercase_str(s: &str) -> (r: String)
    ensures
        r@ == str_lowercase_of(s@),
        (forall|i: int| 0 <= i < s@.len() ==> #[trigger] s@[i] <= '\u{7f}') ==> r@ == ascii_lower_seq(s@),
{
    s.to_lowercase()
}

/// The key a binding is stored under: a character key lower-cased
/// (`str::to_lowercase`), a named key as it is.
pub open spec fn canon_key_of(k: KeyView) -> KeyView {
    match k {
        KeyView::Character(s) => KeyView::Character(str_lowercase_of(s)),
        _ => k,
    }
}

/// The binding's chord view.
pub open spec fn binding_view(c: Chord) -> (int, KeyView, Mods) {
    match c {
        Chord::Single(k, m) => (0, k@, m),
        Chord::Cx(k, m) => (1, k@, m),
        Chord::Cc(k, m) => (2, k@, m),
    }
}

/// `c` is the prefix chord bare `Ctrl` with the letter `x`, in any case.
pub open spec fn is_prefix(k: KeyView, m: Mods, x: char) -> bool {
    m == ctrl_only() && match k {
        KeyView::Character(s) => ascii_lower_seq(s) == seq![x],
        _ => false,
    }
}

/// What a configured binding `spec` parses to ([`Chord`]).
pub open spec fn binding_of(spec: Seq<char>) -> Result<(int, KeyView, Mods), BindingError> {
    let ws = words(spec);
    if ws.len() == 0 {
        Err(BindingError::Empty)
    } else if ws.len() == 1 {
        match parse_chord_of(ws[0]) {
            Ok((k, m)) => Ok((0, canon_key_of(k), m)),
            Err(e) => Err(BindingError::BadChord(e)),
        }
    } else if ws.len() == 2 {
        match parse_chord_of(ws[0]) {
            Ok((ka, ma)) => if !is_prefix(ka, ma, 'x') && !is_prefix(ka, ma, 'c') {
                Err(BindingError::UnsupportedPrefix)
            } else {
                match parse_chord_of(ws[1]) {
                    Ok((kb, mb)) => Ok((if is_prefix(ka, ma, 'x') { 1 } else { 2 }, canon_key_of(kb), mb)),
                    Err(e) => Err(BindingError::BadChord(e)),
                }
            },
            Err(e) => Err(BindingError::BadChord(e)),
        }
    } else {
        Err(BindingError::TooManyChords(ws.len() as usize))
    }
}

pub(crate) fn canon_key(key: Key) -> (r: Key)
    ensures
        r@ == canon_key_of(key@),
{
    match key {
        Key::Character(s) => Key::Character(lowercase_str(s.as_str())),
        other => other,
    }
}

fn key_is_prefix(key: &Key, mods: Mods, x: char) -> (r: bool)
    requires
        x == 'x' || x == 'c',
    ensures
        r == is_prefix(key@, mods, x),
{
    if !(mods.ctrl && !mods.alt && !mods.shift && !mods.sup) {
        assert(mods != ctrl_only());
        return false;
    }
    assert(mods == ctrl_only());
    match key {
        Key::Character(s) => {
            let v = crate::text::str_to_chars(s.as_str());
            if v.len() != 1 {
                proof {
                    assert(ascii_lower_seq(s@).len() == s@.len());
                    assert(seq![x].len() == 1);
                }
                return false;
            }
            let c = crate::text::lower_char(v[0]);
            proof {
                assert(ascii_lower_seq(s@) =~= seq![c]);
                if c != x {
                    assert(seq![c][0] != seq![x][0]);
                }
            }
            c == x
        },
        _ => false,
    }
}

/// Parse a configured binding ([`binding_of`]): `"C-t"`, `"M-g"`, or a
/// `C-x`/`C-c` prefix plus one chord (`"C-x g"`, `"C-c C-o"`).
pub fn parse_binding(spec: &str) -> (r: Result<Chord, BindingError>)
    ensures
        match binding_of(spec@) {
            Ok(b) => r matches Ok(c) && binding_view(c) == b,
            Err(e) => r == Err::<Chord, BindingError>(e),
        },
{
    let v = crate::text::str_to_chars(spec);
    proof {
        crate::keyspec::lemma_words_len(v@);
    }
    let ranges = crate::text::word_ranges(&v, 3);
    if ranges.len() == 0 {
        return Err(BindingError::Empty);
    }
    if ranges.len() > 2 {
        let all = crate::text::word_ranges(&v, v.len());
        return Err(BindingError::TooManyChords(all.len()));
    }
    let (a0, b0) = ranges[0];
    assert(crate::text::range_spells(v@, ranges@[0], words(v@)[0]));
    let first = crate::text::string_of(&v, a0, b0);
    if ranges.len() == 1 {
        return match parse_chord(first.as_str()) {
            Ok((k, m)) => Ok(Chord::Single(canon_key(k), m)),
            Err(e) => Err(BindingError::BadChord(e)),
        };
    }
    let (ka, ma) = match parse_chord(first.as_str()) {
        Ok(km) => km,
        Err(e) => {
            return Err(BindingError::BadChord(e));
        },
    };
    let is_cx = key_is_prefix(&ka, ma, 'x');
    let is_cc = key_is_prefix(&ka, ma, 'c');
    if !is_cx && !is_cc {
        return Err(BindingError::UnsupportedPrefix);
    }
    let (a1, b1) = ranges[1];
    assert(crate::text::range_spells(v@, ranges@[1], words(v@)[1]));
    let second = crate::text::string_of(&v, a1, b1);
    let (kb, mb) = match parse_chord(second.as_str()) {
        Ok(km) => km,
        Err(e) => {
            return Err(BindingError::BadChord(e));
        },
    };
    if is_cx {
        Ok(Chord::Cx(canon_key(kb), mb))
    } else {
        Ok(Chord::Cc(canon_key(kb), mb))
    }
}

} // verus!

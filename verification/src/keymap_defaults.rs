//! The keymap defaults as data: the checked reading of the defaults file
//! into the two lookups the rest of the keymap builds from, the command
//! defaults (each command's slug with exactly two chord slots, native and
//! emacs, empty when a slot has no default) and the Linux keep floor.
//!
//! The file is TOML; what the check reads of the parsed table is held here
//! as plain values ([`TopValue`]). The file ships with the program, so every
//! deviation from its shape is a build bug: [`check_defaults`] reports the
//! first one, and only a file without any is read ([`parse`]). In order: an unknown
//! top-level key, a missing `[commands]` table, a command that is not an
//! array of exactly two strings or that appears a second time, a missing or
//! non-string keep floor.

use vstd::prelude::*;

verus! {

/// An element of an array: a string, or anything else.
#[derive(Debug, Clone)]
pub enum Scalar {
    Str(String),
    Other,
}

/// A value inside the `[commands]` table: an array, or anything else.
#[derive(Debug, Clone)]
pub enum Field {
    Array(Vec<Scalar>),
    Other,
}

/// A top-level value of the file: an array, a table of fields, or anything
/// else.
#[derive(Debug, Clone)]
pub enum TopValue {
    Array(Vec<Scalar>),
    Table(Vec<(String, Field)>),
    Other,
}

/// What is wrong with a defaults file.
#[derive(Debug, Clone, PartialEq, Eq)]
pub enum DefaultsError {
    /// A top-level key other than `commands` and `linux_builtin_keep`.
    UnknownKey(String),
    /// No `[commands]` table.
    MissingCommands,
    /// The command's value is not an array.
    NotAnArray(String),
    /// The command's array does not have exactly two chord slots.
    SlotCount(String),
    /// The command's slot (0 or 1) is not a string.
    SlotNotString(String, usize),
    /// The command appears a second time.
    DuplicateSlug(String),
    /// A keep-floor entry is not a string.
    KeepNotString,
    /// No `linux_builtin_keep` array.
    MissingKeep,
}

/// [`DefaultsError`] as plain values.
pub enum Problem {
    UnknownKey(Seq<char>),
    MissingCommands,
    NotAnArray(Seq<char>),
    SlotCount(Seq<char>),
    SlotNotString(Seq<char>, int),
    DuplicateSlug(Seq<char>),
    KeepNotString,
    MissingKeep,
}

impl View for DefaultsError {
    type V = Problem;

    open spec fn view(&self) -> Problem {
        match self {
            DefaultsError::UnknownKey(k) => Problem::UnknownKey(k@),
            DefaultsError::MissingCommands => Problem::MissingCommands,
            DefaultsError::NotAnArray(s) => Problem::NotAnArray(s@),
            DefaultsError::SlotCount(s) => Problem::SlotCount(s@),
            DefaultsError::SlotNotString(s, i) => Problem::SlotNotString(s@, *i as int),
            DefaultsError::DuplicateSlug(s) => Problem::DuplicateSlug(s@),
            DefaultsError::KeepNotString => Problem::KeepNotString,
            DefaultsError::MissingKeep => Problem::MissingKeep,
        }
    }
}

/// The checked file: each command's `(native, emacs)` slots, in the file's
/// order, and the keep floor.
#[derive(Debug, Clone)]
pub struct Parsed {
    pub commands: Vec<(String, (String, String))>,
    pub linux_builtin_keep: Vec<String>,
}

impl View for Parsed {
    type V = (Seq<(Seq<char>, (Seq<char>, Seq<char>))>, Seq<Seq<char>>);

    open spec fn view(&self) -> Self::V {
        (
            self.commands@.map_values(|c: (String, (String, String))| (c.0@, (c.1.0@, c.1.1@))),
            self.linux_builtin_keep@.map_values(|s: String| s@),
        )
    }
}

/// The two top-level keys the file may hold.
pub open spec fn known_key(k: Seq<char>) -> bool {
    k == "commands"@ || k == "linux_builtin_keep"@
}

/// The first unknown top-level key of `t`, if any.
pub open spec fn first_unknown(t: Seq<(String, TopValue)>) -> Option<Seq<char>>
    decreases t.len(),
{
    if t.len() == 0 {
        None
    } else if !known_key(t[0].0@) {
        Some(t[0].0@)
    } else {
        first_unknown(t.drop_first())
    }
}

/// The value of the first entry of `t` keyed `key`.
pub open spec fn lookup(t: Seq<(String, TopValue)>, key: Seq<char>) -> Option<TopValue>
    decreases t.len(),
{
    if t.len() == 0 {
        None
    } else if t[0].0@ == key {
        Some(t[0].1)
    } else {
        lookup(t.drop_first(), key)
    }
}

/// What is wrong with the command `slug`'s value `f`, if anything.
pub open spec fn entry_problem(slug: Seq<char>, f: Field) -> Option<Problem> {
    match f {
        Field::Other => Some(Problem::NotAnArray(slug)),
        Field::Array(a) => if a@.len() != 2 {
            Some(Problem::SlotCount(slug))
        } else if a@[0] is Other {
            Some(Problem::SlotNotString(slug, 0))
        } else if a@[1] is Other {
            Some(Problem::SlotNotString(slug, 1))
        } else {
            None
        },
    }
}

/// The command `es[i]`'s slug is the slug of an earlier command.
pub open spec fn slug_seen(es: Seq<(String, Field)>, i: int) -> bool {
    exists|k: int| 0 <= k < i && #[trigger] es[k].0@ == es[i].0@
}

/// The first problem among the commands `es[i..]`: a slug seen before, or
/// what is wrong with the command's value.
pub open spec fn entries_problem_from(es: Seq<(String, Field)>, i: int) -> Option<Problem>
    decreases es.len() - i,
{
    if i < 0 || i >= es.len() {
        None
    } else if slug_seen(es, i) {
        Some(Problem::DuplicateSlug(es[i].0@))
    } else {
        match entry_problem(es[i].0@, es[i].1) {
            Some(p) => Some(p),
            None => entries_problem_from(es, i + 1),
        }
    }
}

/// The first command of `es` with a problem, and the problem.
pub open spec fn first_entry_problem(es: Seq<(String, Field)>) -> Option<Problem> {
    entries_problem_from(es, 0)
}

/// What is wrong with the file `t`, the first problem in checking order:
/// the keys, then the commands in order, then the keep floor.
pub open spec fn defaults_problem(t: Seq<(String, TopValue)>) -> Option<Problem> {
    match first_unknown(t) {
        Some(k) => Some(Problem::UnknownKey(k)),
        None => match lookup(t, "commands"@) {
            Some(TopValue::Table(es)) => match first_entry_problem(es@) {
                Some(p) => Some(p),
                None => match lookup(t, "linux_builtin_keep"@) {
                    Some(TopValue::Array(a)) => if exists|i: int| 0 <= i < a@.len() && a@[i] is Other {
                        Some(Problem::KeepNotString)
                    } else {
                        None
                    },
                    _ => Some(Problem::MissingKeep),
                },
            },
            _ => Some(Problem::MissingCommands),
        },
    }
}

/// The text of a string element (anything for another).
pub open spec fn scalar_text(s: Scalar) -> Seq<char> {
    match s {
        Scalar::Str(x) => x@,
        Scalar::Other => seq![],
    }
}

/// A command's slug and its two slots.
pub open spec fn command_row(e: (String, Field)) -> (Seq<char>, (Seq<char>, Seq<char>)) {
    match e.1 {
        Field::Array(a) => (e.0@, (scalar_text(a@[0]), scalar_text(a@[1]))),
        Field::Other => (e.0@, (seq![], seq![])),
    }
}

/// What a file without problems reads as: its commands in order, and its
/// keep floor.
pub open spec fn defaults_of(t: Seq<(String, TopValue)>) -> (Seq<(Seq<char>, (Seq<char>, Seq<char>))>, Seq<Seq<char>>) {
    (
        match lookup(t, "commands"@) {
            Some(TopValue::Table(es)) => es@.map_values(|e: (String, Field)| command_row(e)),
            _ => seq![],
        },
        match lookup(t, "linux_builtin_keep"@) {
            Some(TopValue::Array(a)) => a@.map_values(|s: Scalar| scalar_text(s)),
            _ => seq![],
        },
    )
}

/// The value of the first entry of `t` keyed `key` ([`lookup`]).
fn find_key<'a>(t: &'a Vec<(String, TopValue)>, key: &str) -> (r: Option<&'a TopValue>)
    ensures
        match lookup(t@, key@) {
            Some(v) => r == Some(&v),
            None => r is None,
        },
{
    let mut i: usize = 0;
    proof {
        assert(t@.skip(0) =~= t@);
    }
    while i < t.len()
        invariant
            0 <= i <= t@.len(),
            lookup(t@, key@) == lookup(t@.skip(i as int), key@),
        decreases t.len() - i,
    {
        proof {
            assert(t@.skip(i as int).drop_first() =~= t@.skip(i + 1));
        }
        if crate::text::str_eq(t[i].0.as_str(), key) {
            return Some(&t[i].1);
        }
        i += 1;
    }
    None
}

/// The first unknown top-level key ([`first_unknown`]).
fn find_unknown(t: &Vec<(String, TopValue)>) -> (r: Option<String>)
    ensures
        match first_unknown(t@) {
            Some(k) => r matches Some(s) && s@ == k,
            None => r is None,
        },
{
    proof {
        reveal_strlit("commands");
        reveal_strlit("linux_builtin_keep");
        assert(t@.skip(0) =~= t@);
    }
    let mut i: usize = 0;
    while i < t.len()
        invariant
            0 <= i <= t@.len(),
            first_unknown(t@) == first_unknown(t@.skip(i as int)),
        decreases t.len() - i,
    {
        proof {
            assert(t@.skip(i as int).drop_first() =~= t@.skip(i + 1));
        }
        let k = t[i].0.as_str();
        if !crate::text::str_eq(k, "commands") && !crate::text::str_eq(k, "linux_builtin_keep") {
            return Some(t[i].0.clone());
        }
        i += 1;
    }
    None
}

/// Whether `es[i]`'s slug is that of an earlier command ([`slug_seen`]).
fn slug_before(es: &Vec<(String, Field)>, i: usize) -> (r: bool)
    requires
        i < es@.len(),
    ensures
        r == slug_seen(es@, i as int),
{
    let mut k: usize = 0;
    while k < i
        invariant
            0 <= k <= i < es@.len(),
            forall|m: int| 0 <= m < k ==> es@[m].0@ != es@[i as int].0@,
        decreases i - k,
    {
        if crate::text::str_eq(es[k].0.as_str(), es[i].0.as_str()) {
            return true;
        }
        k += 1;
    }
    false
}

/// Check the command `slug`'s value ([`entry_problem`]) and read its slots.
fn check_entry(slug: &String, f: &Field) -> (r: Result<(String, String), DefaultsError>)
    ensures
        match entry_problem(slug@, *f) {
            Some(p) => r matches Err(e) && e@ == p,
            None => r matches Ok(s) && (slug@, (s.0@, s.1@)) == command_row((*slug, *f)),
        },
{
    match f {
        Field::Other => Err(DefaultsError::NotAnArray(slug.clone())),
        Field::Array(a) => {
            if a.len() != 2 {
                return Err(DefaultsError::SlotCount(slug.clone()));
            }
            let native = match &a[0] {
                Scalar::Str(s) => s.clone(),
                Scalar::Other => return Err(DefaultsError::SlotNotString(slug.clone(), 0)),
            };
            let emacs = match &a[1] {
                Scalar::Str(s) => s.clone(),
                Scalar::Other => return Err(DefaultsError::SlotNotString(slug.clone(), 1)),
            };
            Ok((native, emacs))
        },
    }
}

/// Check a parsed defaults file: the first problem ([`defaults_problem`]),
/// or `Ok` when it has none. A caller tests this before [`parse`], and
/// stops loudly on an error: the file ships with the program, so a problem
/// is a build bug, never degraded to an empty keymap.
pub fn check_defaults(t: &Vec<(String, TopValue)>) -> (r: Result<(), DefaultsError>)
    ensures
        r is Ok <==> defaults_problem(t@) is None,
        r matches Err(e) ==> defaults_problem(t@) == Some(e@),
{
    match read_defaults(t) {
        Ok(_) => Ok(()),
        Err(e) => Err(e),
    }
}

/// Read a defaults file without problems ([`check_defaults`]): its commands
/// in order and its keep floor ([`defaults_of`]).
pub fn parse(t: &Vec<(String, TopValue)>) -> (p: Parsed)
    requires
        defaults_problem(t@) is None,
    ensures
        p@ == defaults_of(t@),
        forall|a: int, b: int| 0 <= a < b < p.commands@.len() ==> #[trigger] p.commands@[a].0@ != #[trigger] p.commands@[b].0@,
{
    match read_defaults(t) {
        Ok(p) => p,
        Err(_) => {
            proof {
                assert(false);
            }
            Parsed { commands: Vec::new(), linux_builtin_keep: Vec::new() }
        },
    }
}

/// Check a parsed defaults file and read it: the first problem
/// ([`defaults_problem`]) is the error; a file without one reads as
/// [`defaults_of`].
fn read_defaults(t: &Vec<(String, TopValue)>) -> (r: Result<Parsed, DefaultsError>)
    ensures
        r is Ok <==> defaults_problem(t@) is None,
        r matches Err(e) ==> defaults_problem(t@) == Some(e@),
        r matches Ok(p) ==> p@ == defaults_of(t@),
        r matches Ok(p) ==> forall|a: int, b: int|
            0 <= a < b < p.commands@.len() ==> #[trigger] p.commands@[a].0@ != #[trigger] p.commands@[b].0@,
{
    proof {
        reveal_strlit("commands");
        reveal_strlit("linux_builtin_keep");
    }
    if let Some(k) = find_unknown(t) {
        return Err(DefaultsError::UnknownKey(k));
    }
    let es = match find_key(t, "commands") {
        Some(TopValue::Table(es)) => es,
        _ => return Err(DefaultsError::MissingCommands),
    };
    let mut commands: Vec<(String, (String, String))> = Vec::new();
    let mut i: usize = 0;
    while i < es.len()
        invariant
            0 <= i <= es@.len(),
            first_unknown(t@) is None,
            lookup(t@, "commands"@) == Some(TopValue::Table(*es)),
            first_entry_problem(es@) == entries_problem_from(es@, i as int),
            forall|a: int, b: int| 0 <= a < b < i ==> #[trigger] commands@[a].0@ != #[trigger] commands@[b].0@,
            commands@.len() == i,
            forall|k: int| 0 <= k < i ==> entry_problem(es@[k].0@, es@[k].1) is None,
            forall|k: int|
                0 <= k < i ==> (#[trigger] commands@[k]).0@ == command_row(es@[k]).0 && commands@[k].1.0@
                    == command_row(es@[k]).1.0 && commands@[k].1.1@ == command_row(es@[k]).1.1,
        decreases es.len() - i,
    {
        if slug_before(es, i) {
            return Err(DefaultsError::DuplicateSlug(es[i].0.clone()));
        }
        let slots = match check_entry(&es[i].0, &es[i].1) {
            Ok(s) => s,
            Err(e) => return Err(e),
        };
        commands.push((es[i].0.clone(), slots));
        i += 1;
    }
    let keep_src = match find_key(t, "linux_builtin_keep") {
        Some(TopValue::Array(a)) => a,
        _ => return Err(DefaultsError::MissingKeep),
    };
    let mut keep: Vec<String> = Vec::new();
    let mut j: usize = 0;
    while j < keep_src.len()
        invariant
            0 <= j <= keep_src@.len(),
            first_unknown(t@) is None,
            lookup(t@, "commands"@) == Some(TopValue::Table(*es)),
            first_entry_problem(es@) is None,
            lookup(t@, "linux_builtin_keep"@) == Some(TopValue::Array(*keep_src)),
            forall|a: int, b: int|
                0 <= a < b < commands@.len() ==> #[trigger] commands@[a].0@ != #[trigger] commands@[b].0@,
            keep@.len() == j,
            forall|k: int| 0 <= k < j ==> keep_src@[k] is Str,
            forall|k: int| 0 <= k < j ==> (#[trigger] keep@[k])@ == scalar_text(keep_src@[k]),
        decreases keep_src.len() - j,
    {
        match &keep_src[j] {
            Scalar::Str(s) => keep.push(s.clone()),
            Scalar::Other => {
                proof {
                    assert(keep_src@[j as int] is Other);
                }
                return Err(DefaultsError::KeepNotString);
            },
        }
        j += 1;
    }
    let p = Parsed { commands, linux_builtin_keep: keep };
    proof {
        assert(es@.skip(es@.len() as int) =~= Seq::<(String, Field)>::empty());
        assert(p@.0 =~= es@.map_values(|e: (String, Field)| command_row(e)));
        assert(p@.1 =~= keep_src@.map_values(|s: Scalar| scalar_text(s)));
    }
    Ok(p)
}

} // verus!

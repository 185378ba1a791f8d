//! The filesystem seam: every file operation goes through [`FileSystem`], so
//! the same logic runs on the real disk and on the in-memory fake. A backend
//! is modelled by the files it holds (path to bytes) and the directories it
//! knows; each operation's contract speaks of that model. Paths are
//! `/`-separated strings without trailing or doubled separators.

use vstd::prelude::*;
use vstd::utf8::{decode_utf8, encode_utf8, valid_utf8};

verus! {

// --- Paths -------------------------------------------------------------------------

/// The position of the last `/` in `p`, or -1.
pub open spec fn last_slash(p: Seq<char>) -> int
    decreases p.len(),
{
    if p.len() == 0 {
        -1
    } else if p.last() == '/' {
        p.len() - 1
    } else {
        last_slash(p.drop_last())
    }
}

pub proof fn lemma_last_slash(p: Seq<char>)
    ensures
        -1 <= last_slash(p) < p.len(),
        last_slash(p) >= 0 ==> p[last_slash(p)] == '/',
        forall|j: int| last_slash(p) < j < p.len() ==> p[j] != '/',
    decreases p.len(),
{
    if p.len() > 0 && p.last() != '/' {
        lemma_last_slash(p.drop_last());
        assert forall|j: int| last_slash(p) < j < p.len() implies p[j] != '/' by {
            if j < p.len() - 1 {
                assert(p[j] == p.drop_last()[j]);
            }
        }
    }
}

/// The parent of a path (`Path::parent`): everything before the last `/`
/// (`/` itself for a top-level entry, the empty path for a bare name); the
/// root and the empty path have none.
pub open spec fn parent_of(p: Seq<char>) -> Option<Seq<char>> {
    if p.len() == 0 || p == seq!['/'] {
        None
    } else {
        let k = last_slash(p);
        if k < 0 {
            Some(seq![])
        } else if k == 0 {
            Some(seq!['/'])
        } else {
            Some(p.take(k))
        }
    }
}

/// The last component of a path (`Path::file_name`, empty for the root).
pub open spec fn leaf_of(p: Seq<char>) -> Seq<char> {
    p.skip(last_slash(p) + 1)
}

/// `dir` joined with `name` (`Path::join` for a relative `name`).
pub open spec fn join_of(dir: Seq<char>, name: Seq<char>) -> Seq<char> {
    if dir.len() == 0 {
        name
    } else if dir.last() == '/' {
        dir + name
    } else {
        dir + seq!['/'] + name
    }
}

pub proof fn lemma_parent_shorter(p: Seq<char>)
    ensures
        parent_of(p) matches Some(q) ==> q.len() < p.len(),
{
    lemma_last_slash(p);
    if p.len() == 1 && last_slash(p) == 0 {
        assert(p =~= seq!['/']);
    }
}

/// `p` and every ancestor of it, as `Path::parent` walks them.
pub open spec fn ancestors(p: Seq<char>) -> Set<Seq<char>>
    decreases p.len(),
{
    proof {
        lemma_parent_shorter(p);
    }
    match parent_of(p) {
        None => set![p],
        Some(q) => ancestors(q).insert(p),
    }
}

/// The directories above `p` that writing `p` brings into being: its parent
/// and the parent's ancestors (none for a path without a parent).
pub open spec fn parent_dirs(p: Seq<char>) -> Set<Seq<char>> {
    match parent_of(p) {
        Some(q) => if q.len() > 0 {
            ancestors(q)
        } else {
            Set::empty()
        },
        None => Set::empty(),
    }
}

fn find_last_slash(p: &Vec<char>) -> (k: Option<usize>)
    ensures
        match k {
            Some(i) => last_slash(p@) == i && i < p@.len(),
            None => last_slash(p@) == -1,
        },
{
    let mut i: usize = p.len();
    proof {
        assert(p@.take(i as int) =~= p@);
    }
    while i > 0
        invariant
            0 <= i <= p@.len(),
            last_slash(p@) == last_slash(p@.take(i as int)),
        decreases i,
    {
        proof {
            assert(p@.take(i as int).drop_last() =~= p@.take(i - 1));
        }
        if p[i - 1] == '/' {
            proof {
                assert(p@.take(i as int).last() == '/');
            }
            return Some(i - 1);
        }
        i -= 1;
    }
    None
}

/// The parent of `path` ([`parent_of`]).
pub fn parent(path: &str) -> (r: Option<String>)
    ensures
        match parent_of(path@) {
            Some(q) => r matches Some(s) && s@ == q,
            None => r is None,
        },
{
    let v = crate::text::str_to_chars(path);
    if v.len() == 0 || (v.len() == 1 && v[0] == '/') {
        proof {
            if v@.len() == 1 {
                assert(v@ =~= seq!['/']);
            }
        }
        return None;
    }
    proof {
        if path@ == seq!['/'] {
            assert(v@.len() == 1 && v@[0] == '/');
        }
    }
    match find_last_slash(&v) {
        None => Some(String::new()),
        Some(0) => {
            let mut s = String::new();
            s.push('/');
            Some(s)
        },
        Some(k) => Some(crate::text::string_of(&v, 0, k)),
    }
}

/// The last component of `path` ([`leaf_of`]).
pub fn leaf_name(path: &str) -> (r: String)
    ensures
        r@ == leaf_of(path@),
{
    let v = crate::text::str_to_chars(path);
    let n: usize = v.len();
    let start: usize = match find_last_slash(&v) {
        None => 0,
        Some(k) => k + 1,
    };
    proof {
        lemma_last_slash(v@);
    }
    crate::text::string_of(&v, start, v.len())
}

/// `dir` joined with `name` ([`join_of`]).
pub fn join(dir: &str, name: &str) -> (r: String)
    ensures
        r@ == join_of(dir@, name@),
{
    let d = crate::text::str_to_chars(dir);
    let mut s = String::new();
    crate::text::append_str(&mut s, dir);
    if d.len() > 0 && d[d.len() - 1] != '/' {
        s.push('/');
    }
    crate::text::append_str(&mut s, name);
    proof {
        if d@.len() == 0 {
            assert(s@ =~= name@);
        } else if d@.last() == '/' {
            assert(s@ =~= dir@ + name@);
        } else {
            assert(s@ =~= dir@ + seq!['/'] + name@);
        }
    }
    s
}

// --- The seam ----------------------------------------------------------------------

/// Why a filesystem operation failed.
#[derive(Debug, Clone, Copy, PartialEq, Eq, Structural)]
pub enum FsError {
    /// No such file or directory.
    NotFound,
    /// The bytes were not valid UTF-8 text.
    InvalidData,
    /// Anything else the backend reports.
    Other,
}

/// One entry of a directory listing.
#[derive(Debug, Clone, PartialEq, Eq)]
pub struct DirEntry {
    /// The entry's full path.
    pub path: String,
    /// The leaf name.
    pub name: String,
    /// A directory.
    pub is_dir: bool,
    /// A regular file.
    pub is_file: bool,
}

/// A file's stat: last-modified millis since the epoch and byte length, when
/// the backend records them.
#[derive(Debug, Clone, Copy, PartialEq, Eq, Structural)]
pub struct Metadata {
    pub modified: Option<u64>,
    pub len: Option<u64>,
}

/// `e` lists the child `p` of the directory `dir`, a file or a directory.
pub open spec fn lists_child(e: DirEntry, dir: Seq<char>, files: Map<Seq<char>, Seq<u8>>, dirs: Set<Seq<char>>) -> bool {
    &&& parent_of(e.path@) == Some(dir)
    &&& e.name@ == leaf_of(e.path@)
    &&& e.is_file == !e.is_dir
    &&& (e.is_file ==> files.contains_key(e.path@))
    &&& (e.is_dir ==> dirs.contains(e.path@) && e.path@ != dir)
}

/// The listing `es` holds the file `p`.
pub open spec fn lists_file(es: Seq<DirEntry>, p: Seq<char>) -> bool {
    exists|k: int| 0 <= k < es.len() && es[k].path@ == p && es[k].is_file
}

/// The listing `es` holds the directory `p`.
pub open spec fn lists_dir(es: Seq<DirEntry>, p: Seq<char>) -> bool {
    exists|k: int| 0 <= k < es.len() && es[k].path@ == p && es[k].is_dir
}

proof fn lemma_lists_push(es: Seq<DirEntry>, e: DirEntry)
    ensures
        forall|p: Seq<char>| lists_file(es, p) ==> #[trigger] lists_file(es.push(e), p),
        forall|p: Seq<char>| lists_dir(es, p) ==> #[trigger] lists_dir(es.push(e), p),
        e.is_file ==> lists_file(es.push(e), e.path@),
        e.is_dir ==> lists_dir(es.push(e), e.path@),
{
    assert forall|p: Seq<char>| lists_file(es, p) implies #[trigger] lists_file(es.push(e), p) by {
        let k = choose|k: int| 0 <= k < es.len() && es[k].path@ == p && es[k].is_file;
        assert(es.push(e)[k] == es[k]);
    }
    assert forall|p: Seq<char>| lists_dir(es, p) implies #[trigger] lists_dir(es.push(e), p) by {
        let k = choose|k: int| 0 <= k < es.len() && es[k].path@ == p && es[k].is_dir;
        assert(es.push(e)[k] == es[k]);
    }
    assert(es.push(e)[es.len() as int] == e);
}

/// Every file operation, over a backend modelled by [`FileSystem::files`]
/// (the files it can read, with their bytes), [`FileSystem::dirs`],
/// [`FileSystem::modified_at`] and [`FileSystem::infallible`].
///
/// The in-memory backend below defines that model and its operations are
/// proved against these contracts. A backend written outside the library
/// (the real disk, in the application) keeps the default bodies: there the
/// model's values are unspecified, `infallible` is false, and that its
/// operations keep these contracts is trusted, not proved.
pub trait FileSystem {
    /// The files the backend holds, by path.
    closed spec fn files(&self) -> Map<Seq<char>, Seq<u8>> {
        vstd::pervasive::arbitrary()
    }

    /// The directories the backend knows.
    closed spec fn dirs(&self) -> Set<Seq<char>> {
        vstd::pervasive::arbitrary()
    }

    /// The last-modified millis the backend reports for `path`, if any.
    closed spec fn modified_at(&self, path: Seq<char>) -> Option<u64> {
        vstd::pervasive::arbitrary()
    }

    /// The backend never fails a write, a directory creation, a rename of a
    /// file it holds, or a stat of a path it knows.
    closed spec fn infallible(&self) -> bool {
        false
    }

    /// Read a whole file as UTF-8 text.
    fn read_to_string(&self, path: &str) -> (r: Result<String, FsError>)
        ensures
            r matches Ok(s) ==> self.files().contains_key(path@) && self.files()[path@] == encode_utf8(s@),
            !self.files().contains_key(path@) ==> r is Err,
    ;

    /// Read a whole file as bytes.
    fn read(&self, path: &str) -> (r: Result<Vec<u8>, FsError>)
        ensures
            r matches Ok(b) ==> self.files().contains_key(path@) && self.files()[path@] == b@,
            self.files().contains_key(path@) <==> r is Ok,
    ;

    /// Write `data` to `path`, creating or truncating it; its parent
    /// directories come to exist.
    fn write(&mut self, path: &str, data: &[u8]) -> (r: Result<(), FsError>)
        ensures
            r is Ok ==> final(self).files() == old(self).files().insert(path@, data@),
            final(self).files().remove(path@) == old(self).files().remove(path@),
            old(self).dirs().subset_of(final(self).dirs()),
            final(self).dirs().subset_of(old(self).dirs().union(parent_dirs(path@))),
            old(self).infallible() ==> r is Ok,
            final(self).infallible() == old(self).infallible(),
    ;

    /// Create `path` and every missing ancestor.
    fn create_dir_all(&mut self, path: &str) -> (r: Result<(), FsError>)
        ensures
            final(self).files() == old(self).files(),
            r is Ok ==> final(self).dirs().contains(path@),
            old(self).dirs().subset_of(final(self).dirs()),
            final(self).dirs().subset_of(old(self).dirs().union(ancestors(path@))),
            old(self).infallible() ==> r is Ok,
            final(self).infallible() == old(self).infallible(),
    ;

    /// Move the file `from` to `to`.
    fn rename(&mut self, from: &str, to: &str) -> (r: Result<(), FsError>)
        ensures
            r is Ok ==> old(self).files().contains_key(from@) && final(self).files() == old(
                self,
            ).files().remove(from@).insert(to@, old(self).files()[from@]),
            final(self).files().remove(from@).remove(to@) == old(self).files().remove(from@).remove(
                to@,
            ),
            old(self).dirs().subset_of(final(self).dirs()),
            old(self).infallible() && old(self).files().contains_key(from@) ==> r is Ok,
            final(self).infallible() == old(self).infallible(),
    ;

    /// Whether `path` is a file or a directory.
    fn path_exists(&self, path: &str) -> (r: bool)
        ensures
            r == (self.files().contains_key(path@) || self.dirs().contains(path@)),
    ;

    /// Whether `path` is a directory.
    fn is_dir(&self, path: &str) -> (r: bool)
        ensures
            r == self.dirs().contains(path@),
    ;

    /// List one directory level: every file and directory whose parent is
    /// `path`, in no particular order.
    fn read_dir(&self, path: &str) -> (r: Result<Vec<DirEntry>, FsError>)
        ensures
            self.dirs().contains(path@) <==> r is Ok,
            r matches Ok(es) ==> forall|k: int|
                0 <= k < es@.len() ==> lists_child(#[trigger] es@[k], path@, self.files(), self.dirs()),
            r matches Ok(es) ==> forall|p: Seq<char>|
                self.files().contains_key(p) && parent_of(p) == Some(path@) ==> #[trigger] lists_file(es@, p),
            r matches Ok(es) ==> forall|p: Seq<char>|
                self.dirs().contains(p) && p != path@ && parent_of(p) == Some(path@) ==> #[trigger] lists_dir(es@, p),
    ;

    /// The stat of `path`.
    fn metadata(&self, path: &str) -> (r: Result<Metadata, FsError>)
        ensures
            r matches Ok(m) ==> (self.files().contains_key(path@) && m.len == Some(
                self.files()[path@].len() as u64,
            )) || self.dirs().contains(path@),
            r matches Ok(m) ==> m.modified == self.modified_at(path@),
            !self.files().contains_key(path@) && !self.dirs().contains(path@) ==> r is Err,
            self.infallible() && (self.files().contains_key(path@) || self.dirs().contains(path@)) ==> r is Ok,
    ;

    /// Remove the file `path`.
    fn remove_file(&mut self, path: &str) -> (r: Result<(), FsError>)
        ensures
            r is Ok ==> old(self).files().contains_key(path@) && final(self).files() == old(
                self,
            ).files().remove(path@),
            final(self).files().remove(path@) == old(self).files().remove(path@),
            final(self).dirs() == old(self).dirs(),
            !old(self).files().contains_key(path@) ==> r is Err,
            final(self).infallible() == old(self).infallible(),
    ;
}


// --- The in-memory backend -----------------------------------------------------------

struct MemFile {
    path: String,
    bytes: Vec<u8>,
    modified: u64,
}

/// A filesystem held in memory: no disk, deterministic, for tests and for
/// anything that needs a scratch tree. Paths are kept verbatim.
pub struct InMemoryFs {
    files: Vec<MemFile>,
    dirs: Vec<String>,
}

spec fn file_map(fs: Seq<MemFile>) -> Map<Seq<char>, Seq<u8>>
    decreases fs.len(),
{
    if fs.len() == 0 {
        Map::empty()
    } else {
        file_map(fs.drop_last()).insert(fs.last().path@, fs.last().bytes@)
    }
}

spec fn stamp_map(fs: Seq<MemFile>) -> Map<Seq<char>, u64>
    decreases fs.len(),
{
    if fs.len() == 0 {
        Map::empty()
    } else {
        stamp_map(fs.drop_last()).insert(fs.last().path@, fs.last().modified)
    }
}

proof fn lemma_stamp_map(fs: Seq<MemFile>, i: int)
    requires
        distinct_paths(fs),
        0 <= i < fs.len(),
    ensures
        stamp_map(fs).contains_key(fs[i].path@),
        stamp_map(fs)[fs[i].path@] == fs[i].modified,
    decreases fs.len(),
{
    let d = fs.drop_last();
    if i < fs.len() - 1 {
        assert(distinct_paths(d));
        assert(d[i] == fs[i]);
        lemma_stamp_map(d, i);
        assert(fs.last().path@ != fs[i].path@);
    }
}

spec fn distinct_paths(fs: Seq<MemFile>) -> bool {
    forall|i: int, j: int| 0 <= i < j < fs.len() ==> fs[i].path@ != fs[j].path@
}

spec fn dir_set(ds: Seq<String>) -> Set<Seq<char>> {
    Set::new(|p: Seq<char>| exists|i: int| 0 <= i < ds.len() && ds[i]@ == p)
}

proof fn lemma_file_map(fs: Seq<MemFile>, p: Seq<char>)
    requires
        distinct_paths(fs),
    ensures
        file_map(fs).contains_key(p) <==> exists|i: int| 0 <= i < fs.len() && fs[i].path@ == p,
        forall|i: int| 0 <= i < fs.len() && fs[i].path@ == p ==> file_map(fs)[p] == fs[i].bytes@,
    decreases fs.len(),
{
    if fs.len() > 0 {
        let d = fs.drop_last();
        assert(distinct_paths(d));
        lemma_file_map(d, p);
        if file_map(fs).contains_key(p) {
            if fs.last().path@ == p {
                assert(fs[fs.len() - 1].path@ == p);
            } else {
                let i = choose|i: int| 0 <= i < d.len() && d[i].path@ == p;
                assert(fs[i] == d[i]);
            }
        }
        if exists|i: int| 0 <= i < fs.len() && fs[i].path@ == p {
            let i = choose|i: int| 0 <= i < fs.len() && fs[i].path@ == p;
            if i < fs.len() - 1 {
                assert(d[i] == fs[i]);
            }
        }
        assert forall|i: int| 0 <= i < fs.len() && fs[i].path@ == p implies file_map(fs)[p]
            == fs[i].bytes@ by {
            if i < fs.len() - 1 {
                assert(fs[i] == d[i]);
            }
        }
        if fs.last().path@ == p {
            assert(fs[fs.len() - 1].path@ == p);
        }
    }
}

proof fn lemma_file_map_remove(fs: Seq<MemFile>, i: int)
    requires
        distinct_paths(fs),
        0 <= i < fs.len(),
    ensures
        distinct_paths(fs.remove(i)),
        file_map(fs.remove(i)) == file_map(fs).remove(fs[i].path@),
    decreases fs.len(),
{
    let r = fs.remove(i);
    assert forall|a: int, b: int| 0 <= a < b < r.len() implies r[a].path@ != r[b].path@ by {
        let a0 = if a < i { a } else { a + 1 };
        let b0 = if b < i { b } else { b + 1 };
        assert(r[a] == fs[a0] && r[b] == fs[b0]);
    }
    let d = fs.drop_last();
    let p = fs[i].path@;
    if i == fs.len() - 1 {
        assert(r =~= d);
        lemma_file_map(d, p);
        assert forall|k: int| 0 <= k < d.len() implies d[k].path@ != p by {
            assert(d[k] == fs[k]);
        }
        assert(!file_map(d).contains_key(p));
        assert(file_map(fs).remove(p) =~= file_map(d));
    } else {
        assert(distinct_paths(d));
        lemma_file_map_remove(d, i);
        assert(r.drop_last() =~= d.remove(i));
        assert(r.last() == fs.last());
        assert(fs.last().path@ != p);
        assert(file_map(r) =~= file_map(fs).remove(p));
    }
}

proof fn lemma_dir_set_push(ds: Seq<String>, d: String)
    ensures
        dir_set(ds.push(d)) == dir_set(ds).insert(d@),
{
    assert forall|p: Seq<char>| dir_set(ds.push(d)).contains(p) <==> dir_set(ds).insert(d@).contains(p) by {
        if dir_set(ds.push(d)).contains(p) {
            let i = choose|i: int| 0 <= i < ds.push(d).len() && ds.push(d)[i]@ == p;
            if i < ds.len() {
                assert(ds[i] == ds.push(d)[i]);
            }
        }
        if dir_set(ds).contains(p) {
            let i = choose|i: int| 0 <= i < ds.len() && ds[i]@ == p;
            assert(ds.push(d)[i] == ds[i]);
        }
        if p == d@ {
            assert(ds.push(d)[ds.len() as int] == d);
        }
    }
    assert(dir_set(ds.push(d)) =~= dir_set(ds).insert(d@));
}

impl InMemoryFs {
    /// The in-memory backend knows finitely many directories.
    pub proof fn lemma_dirs_finite(&self)
        ensures
            self.dirs().finite(),
    {
        let ds = self.dirs@;
        let names = ds.map_values(|d: String| d@);
        assert(dir_set(ds) =~= names.to_set()) by {
            assert forall|p: Seq<char>| dir_set(ds).contains(p) implies names.to_set().contains(p) by {
                let i = choose|i: int| 0 <= i < ds.len() && ds[i]@ == p;
                assert(names[i] == p);
            }
            assert forall|p: Seq<char>| names.to_set().contains(p) implies dir_set(ds).contains(p) by {
                let i = choose|i: int| 0 <= i < names.len() && names[i] == p;
                assert(ds[i]@ == p);
            }
        }
        vstd::seq_lib::seq_to_set_is_finite(names);
    }

    #[verifier::type_invariant]
    spec fn well_formed(self) -> bool {
        distinct_paths(self.files@)
    }

    /// A fresh, empty filesystem holding only the root directory `/`.
    pub fn new() -> (fs: Self)
        ensures
            fs.files() == Map::<Seq<char>, Seq<u8>>::empty(),
            fs.dirs() == set![seq!['/']],
            fs.infallible(),
    {
        let mut root = String::new();
        root.push('/');
        let mut dirs: Vec<String> = Vec::new();
        dirs.push(root);
        let fs = InMemoryFs { files: Vec::new(), dirs };
        proof {
            assert(file_map(fs.files@) =~= Map::<Seq<char>, Seq<u8>>::empty());
            assert(dirs@.len() == 1);
            assert forall|p: Seq<char>| dir_set(fs.dirs@).contains(p) <==> set![seq!['/']].contains(p) by {
                if p == seq!['/'] {
                    assert(fs.dirs@[0]@ == seq!['/']);
                }
            }
            assert(dir_set(fs.dirs@) =~= set![seq!['/']]);
        }
        fs
    }

    fn find_file(&self, path: &str) -> (r: Option<usize>)
        ensures
            match r {
                Some(i) => i < self.files@.len() && self.files@[i as int].path@ == path@,
                None => forall|i: int| 0 <= i < self.files@.len() ==> self.files@[i].path@ != path@,
            },
    {
        let mut i: usize = 0;
        while i < self.files.len()
            invariant
                0 <= i <= self.files@.len(),
                forall|k: int| 0 <= k < i ==> self.files@[k].path@ != path@,
            decreases self.files.len() - i,
        {
            if crate::text::str_eq(self.files[i].path.as_str(), path) {
                return Some(i);
            }
            i += 1;
        }
        None
    }

    fn has_dir(&self, path: &str) -> (r: bool)
        ensures
            r == dir_set(self.dirs@).contains(path@),
    {
        let mut i: usize = 0;
        while i < self.dirs.len()
            invariant
                0 <= i <= self.dirs@.len(),
                forall|k: int| 0 <= k < i ==> self.dirs@[k]@ != path@,
            decreases self.dirs.len() - i,
        {
            if crate::text::str_eq(self.dirs[i].as_str(), path) {
                proof {
                    assert(dir_set(self.dirs@).contains(path@));
                }
                return true;
            }
            i += 1;
        }
        false
    }

    fn add_dir(&mut self, path: &str)
        ensures
            dir_set(final(self).dirs@) == dir_set(old(self).dirs@).insert(path@),
            final(self).files@ == old(self).files@,
    {
        if !self.has_dir(path) {
            let mut d = String::new();
            crate::text::append_str(&mut d, path);
            proof {
                assert(d@ =~= path@);
                lemma_dir_set_push(self.dirs@, d);
            }
            self.dirs_push(d);
        } else {
            proof {
                assert(dir_set(self.dirs@).insert(path@) =~= dir_set(self.dirs@));
            }
        }
    }

    /// Record `path` and every ancestor as a known directory.
    fn insert_dirs(&mut self, path: &str)
        ensures
            dir_set(final(self).dirs@) == dir_set(old(self).dirs@).union(ancestors(path@)),
            final(self).files@ == old(self).files@,
    {
        let mut cur = String::new();
        crate::text::append_str(&mut cur, path);
        proof {
            assert(cur@ =~= path@);
            assert(dir_set(self.dirs@).union(ancestors(cur@)) =~= dir_set(old(self).dirs@).union(ancestors(path@)));
        }
        loop
            invariant
                dir_set(self.dirs@).union(ancestors(cur@)) == dir_set(old(self).dirs@).union(
                    ancestors(path@),
                ),
                dir_set(old(self).dirs@).subset_of(dir_set(self.dirs@)),
                dir_set(self.dirs@).subset_of(dir_set(old(self).dirs@).union(ancestors(path@))),
                self.files@ == old(self).files@,
            ensures
                dir_set(self.dirs@) == dir_set(old(self).dirs@).union(ancestors(path@)),
                self.files@ == old(self).files@,
            decreases cur@.len(),
        {
            let ghost before = dir_set(self.dirs@);
            self.add_dir(cur.as_str());
            proof {
                lemma_parent_shorter(cur@);
            }
            match parent(cur.as_str()) {
                Some(p) => {
                    proof {
                        assert(ancestors(cur@) == ancestors(p@).insert(cur@));
                        assert(dir_set(self.dirs@).union(ancestors(p@)) =~= before.union(
                            ancestors(cur@),
                        ));
                    }
                    cur = p;
                },
                None => {
                    proof {
                        assert(ancestors(cur@) == set![cur@]);
                        assert(dir_set(self.dirs@) =~= before.union(ancestors(cur@)));
                    }
                    break;
                },
            }
        }
    }

    /// Seed a text file (creating its parent directories), for arranging a
    /// tree; returns the filesystem so seeds can chain.
    pub fn with_file(self, path: &str, contents: &str) -> (fs: Self)
        ensures
            fs.files() == self.files().insert(path@, encode_utf8(contents@)),
            self.dirs().subset_of(fs.dirs()),
            fs.infallible(),
    {
        let mut fs = self;
        let _ = fs.write(path, contents.as_bytes());
        fs
    }

    /// Seed a directory (and its ancestors), for arranging a tree.
    pub fn with_dir(self, path: &str) -> (fs: Self)
        ensures
            fs.files() == self.files(),
            fs.dirs() == self.dirs().union(ancestors(path@)),
            fs.infallible(),
    {
        let mut fs = self;
        let _ = fs.create_dir_all(path);
        fs
    }
}

impl FileSystem for InMemoryFs {
    closed spec fn files(&self) -> Map<Seq<char>, Seq<u8>> {
        file_map(self.files@)
    }

    closed spec fn dirs(&self) -> Set<Seq<char>> {
        dir_set(self.dirs@)
    }

    closed spec fn modified_at(&self, path: Seq<char>) -> Option<u64> {
        if file_map(self.files@).contains_key(path) {
            Some(stamp_map(self.files@)[path])
        } else {
            None
        }
    }

    closed spec fn infallible(&self) -> bool {
        true
    }

    fn read_to_string(&self, path: &str) -> (r: Result<String, FsError>)
        ensures
            r matches Ok(s) ==> valid_utf8(self.files()[path@]) && s@ == decode_utf8(self.files()[path@]),
            self.files().contains_key(path@) && !valid_utf8(self.files()[path@]) ==> r == Err::<String, FsError>(FsError::InvalidData),
            self.files().contains_key(path@) && valid_utf8(self.files()[path@]) ==> r is Ok,
            !self.files().contains_key(path@) ==> r == Err::<String, FsError>(FsError::NotFound),
    {
        match self.read(path) {
            Ok(bytes) => match crate::text::checked_utf8(bytes.as_slice()) {
                Some(s) => {
                    proof {
                        vstd::utf8::decode_utf8_encode_utf8(bytes@);
                    }
                    Ok(s)
                },
                None => Err(FsError::InvalidData),
            },
            Err(e) => Err(e),
        }
    }

    fn read(&self, path: &str) -> (r: Result<Vec<u8>, FsError>)
        ensures
            r matches Ok(b) ==> self.files().contains_key(path@) && self.files()[path@] == b@,
            self.files().contains_key(path@) ==> r is Ok,
            !self.files().contains_key(path@) ==> r == Err::<Vec<u8>, FsError>(FsError::NotFound),
    {
        proof {
            use_type_invariant(self);
            lemma_file_map(self.files@, path@);
        }
        match self.find_file(path) {
            Some(i) => Ok(vstd::slice::slice_to_vec(self.files[i].bytes.as_slice())),
            None => Err(FsError::NotFound),
        }
    }

    fn write(&mut self, path: &str, data: &[u8]) -> (r: Result<(), FsError>)
        ensures
            r is Ok,
            final(self).files() == old(self).files().insert(path@, data@),
            final(self).dirs() == old(self).dirs().union(match parent_of(path@) {
                Some(q) => if q.len() > 0 { ancestors(q) } else { Set::empty() },
                None => Set::empty(),
            }),
    {
        proof {
            use_type_invariant(&*self);
        }
        let now = crate::history::store::now_millis();
        let ghost d0 = dir_set(self.dirs@);
        match parent(path) {
            Some(p) => {
                if !p.as_str().is_empty() {
                    self.insert_dirs(p.as_str());
                } else {
                    proof {
                        assert(d0.union(Set::<Seq<char>>::empty()) =~= d0);
                    }
                }
            },
            None => {
                proof {
                    assert(d0.union(Set::<Seq<char>>::empty()) =~= d0);
                }
            },
        }
        self.put_file(path, vstd::slice::slice_to_vec(data), now);
        Ok(())
    }

    fn create_dir_all(&mut self, path: &str) -> (r: Result<(), FsError>)
        ensures
            r is Ok,
            final(self).files() == old(self).files(),
            final(self).dirs() == old(self).dirs().union(ancestors(path@)),
    {
        self.insert_dirs(path);
        proof {
            assert(ancestors(path@).contains(path@)) by {
                lemma_parent_shorter(path@);
            }
        }
        Ok(())
    }

    fn rename(&mut self, from: &str, to: &str) -> (r: Result<(), FsError>)
        ensures
            old(self).files().contains_key(from@) <==> r is Ok,
            r is Ok ==> final(self).files() == old(self).files().remove(from@).insert(
                to@,
                old(self).files()[from@],
            ),
            r is Err ==> final(self).files() == old(self).files() && r == Err::<(), FsError>(FsError::NotFound),
            final(self).dirs() == (if r is Ok {
                old(self).dirs().union(match parent_of(to@) {
                    Some(q) => if q.len() > 0 { ancestors(q) } else { Set::empty() },
                    None => Set::empty(),
                })
            } else {
                old(self).dirs()
            }),
    {
        proof {
            use_type_invariant(&*self);
            lemma_file_map(self.files@, from@);
        }
        let i = match self.find_file(from) {
            Some(i) => i,
            None => return Err(FsError::NotFound),
        };
        let ghost m0 = file_map(self.files@);
        let ghost b0 = self.files@[i as int].bytes@;
        proof {
            lemma_file_map_remove(self.files@, i as int);
        }
        let f = self.files_remove(i);
        let ghost d0 = dir_set(self.dirs@);
        match parent(to) {
            Some(p) => {
                if !p.as_str().is_empty() {
                    self.insert_dirs(p.as_str());
                } else {
                    proof {
                        assert(d0.union(Set::<Seq<char>>::empty()) =~= d0);
                    }
                }
            },
            None => {
                proof {
                    assert(d0.union(Set::<Seq<char>>::empty()) =~= d0);
                }
            },
        }
        proof {
            assert(f.bytes@ == b0);
        }
        self.put_file(to, f.bytes, f.modified);
        Ok(())
    }

    fn path_exists(&self, path: &str) -> (r: bool)
        ensures
            r == (self.files().contains_key(path@) || self.dirs().contains(path@)),
    {
        proof {
            use_type_invariant(self);
            lemma_file_map(self.files@, path@);
        }
        self.find_file(path).is_some() || self.has_dir(path)
    }

    fn is_dir(&self, path: &str) -> (r: bool)
        ensures
            r == self.dirs().contains(path@),
    {
        self.has_dir(path)
    }

    fn read_dir(&self, path: &str) -> (r: Result<Vec<DirEntry>, FsError>)
    {
        proof {
            use_type_invariant(self);
        }
        if !self.has_dir(path) {
            return Err(FsError::NotFound);
        }
        let mut out: Vec<DirEntry> = Vec::new();
        let mut i: usize = 0;
        while i < self.files.len()
            invariant
                0 <= i <= self.files@.len(),
                distinct_paths(self.files@),
                dir_set(self.dirs@).contains(path@),
                forall|k: int| 0 <= k < out@.len() ==> lists_child(#[trigger] out@[k], path@, file_map(self.files@), dir_set(self.dirs@)),
                forall|j: int| 0 <= j < i && parent_of(self.files@[j].path@) == Some(path@)
                    ==> #[trigger] lists_file(out@, self.files@[j].path@),
            decreases self.files.len() - i,
        {
            let fp = &self.files[i].path;
            if parent_is(fp.as_str(), path) {
                proof {
                    lemma_file_map(self.files@, fp@);
                }
                let e = DirEntry { path: fp.clone(), name: leaf_name(fp.as_str()), is_dir: false, is_file: true };
                let ghost old_out = out@;
                out.push(e);
                proof {
                    lemma_lists_push(old_out, e);
                    assert(out@[out@.len() - 1] == e);
                    assert(lists_file(out@, fp@));
                }
            }
            i += 1;
        }
        let mut j: usize = 0;
        while j < self.dirs.len()
            invariant
                0 <= j <= self.dirs@.len(),
                distinct_paths(self.files@),
                forall|k: int| 0 <= k < out@.len() ==> lists_child(#[trigger] out@[k], path@, file_map(self.files@), dir_set(self.dirs@)),
                forall|q: int| 0 <= q < self.files@.len() && parent_of(self.files@[q].path@) == Some(path@)
                    ==> #[trigger] lists_file(out@, self.files@[q].path@),
                forall|q: int| 0 <= q < j && self.dirs@[q]@ != path@ && parent_of(self.dirs@[q]@) == Some(path@)
                    ==> #[trigger] lists_dir(out@, self.dirs@[q]@),
            decreases self.dirs.len() - j,
        {
            let dp = &self.dirs[j];
            if !crate::text::str_eq(dp.as_str(), path) && parent_is(dp.as_str(), path) {
                proof {
                    assert(dir_set(self.dirs@).contains(dp@));
                }
                let e = DirEntry { path: dp.clone(), name: leaf_name(dp.as_str()), is_dir: true, is_file: false };
                let ghost old_out = out@;
                out.push(e);
                proof {
                    lemma_lists_push(old_out, e);
                    assert(out@[out@.len() - 1] == e);
                    assert(lists_dir(out@, dp@));
                }
            }
            j += 1;
        }
        proof {
            assert forall|p: Seq<char>|
                self.files().contains_key(p) && parent_of(p) == Some(path@) implies #[trigger] lists_file(out@, p) by {
                lemma_file_map(self.files@, p);
                let q = choose|q: int| 0 <= q < self.files@.len() && self.files@[q].path@ == p;
                assert(lists_file(out@, self.files@[q].path@));
            }
            assert forall|p: Seq<char>|
                self.dirs().contains(p) && p != path@ && parent_of(p) == Some(path@) implies #[trigger] lists_dir(out@, p) by {
                let q = choose|q: int| 0 <= q < self.dirs@.len() && self.dirs@[q]@ == p;
                assert(lists_dir(out@, self.dirs@[q]@));
            }
        }
        Ok(out)
    }

    fn metadata(&self, path: &str) -> (r: Result<Metadata, FsError>)
        ensures
            r matches Ok(m) ==> (self.files().contains_key(path@) && m.len == Some(
                self.files()[path@].len() as u64,
            ) && m.modified is Some) || (!self.files().contains_key(path@) && self.dirs().contains(path@)
                && m.len is None && m.modified is None),
            r matches Ok(m) ==> m.modified == self.modified_at(path@),
            self.files().contains_key(path@) || self.dirs().contains(path@) <==> r is Ok,
            r is Err ==> r == Err::<Metadata, FsError>(FsError::NotFound),
    {
        proof {
            use_type_invariant(self);
            lemma_file_map(self.files@, path@);
        }
        match self.find_file(path) {
            Some(i) => {
                proof {
                    lemma_stamp_map(self.files@, i as int);
                }
                Ok(Metadata { modified: Some(self.files[i].modified), len: Some(self.files[i].bytes.len() as u64) })
            },
            None => {
                if self.has_dir(path) {
                    Ok(Metadata { modified: None, len: None })
                } else {
                    Err(FsError::NotFound)
                }
            },
        }
    }

    fn remove_file(&mut self, path: &str) -> (r: Result<(), FsError>)
        ensures
            old(self).files().contains_key(path@) <==> r is Ok,
            final(self).files() == old(self).files().remove(path@),
            final(self).dirs() == old(self).dirs(),
            r is Err ==> r == Err::<(), FsError>(FsError::NotFound),
    {
        proof {
            use_type_invariant(&*self);
            lemma_file_map(self.files@, path@);
        }
        match self.find_file(path) {
            Some(i) => {
                proof {
                    lemma_file_map_remove(self.files@, i as int);
                }
                let _ = self.files_remove(i);
                Ok(())
            },
            None => {
                proof {
                    assert(file_map(self.files@).remove(path@) =~= file_map(self.files@));
                }
                Err(FsError::NotFound)
            },
        }
    }
}

/// `p`'s parent is `dir`.
fn parent_is(p: &str, dir: &str) -> (r: bool)
    ensures
        r == (parent_of(p@) == Some(dir@)),
{
    match parent(p) {
        Some(q) => crate::text::str_eq(q.as_str(), dir),
        None => false,
    }
}

impl InMemoryFs {
    fn files_remove(&mut self, i: usize) -> (f: MemFile)
        requires
            i < old(self).files@.len(),
        ensures
            final(self).files@ == old(self).files@.remove(i as int),
            f == old(self).files@[i as int],
            final(self).dirs@ == old(self).dirs@,
    {
        proof {
            use_type_invariant(&*self);
            lemma_file_map_remove(self.files@, i as int);
        }
        let mut fs: Vec<MemFile> = Vec::new();
        std::mem::swap(&mut fs, &mut self.files);
        let f = fs.remove(i);
        std::mem::swap(&mut fs, &mut self.files);
        f
    }

    fn files_push(&mut self, f: MemFile)
        requires
            forall|k: int| 0 <= k < old(self).files@.len() ==> old(self).files@[k].path@ != f.path@,
        ensures
            final(self).files@ == old(self).files@.push(f),
            final(self).dirs@ == old(self).dirs@,
    {
        proof {
            use_type_invariant(&*self);
        }
        let mut fs: Vec<MemFile> = Vec::new();
        std::mem::swap(&mut fs, &mut self.files);
        fs.push(f);
        proof {
            assert forall|a: int, b: int| 0 <= a < b < fs@.len() implies fs@[a].path@ != fs@[b].path@ by {
                if b == fs@.len() - 1 {
                    assert(fs@[b] == f);
                }
            }
        }
        std::mem::swap(&mut fs, &mut self.files);
    }

    fn dirs_push(&mut self, d: String)
        ensures
            final(self).dirs@ == old(self).dirs@.push(d),
            final(self).files@ == old(self).files@,
    {
        proof {
            use_type_invariant(&*self);
        }
        let mut ds: Vec<String> = Vec::new();
        std::mem::swap(&mut ds, &mut self.dirs);
        ds.push(d);
        std::mem::swap(&mut ds, &mut self.dirs);
    }

    /// Store `bytes` at `path`, replacing any file there.
    fn put_file(&mut self, path: &str, bytes: Vec<u8>, modified: u64)
        ensures
            file_map(final(self).files@) == file_map(old(self).files@).insert(path@, bytes@),
            final(self).dirs@ == old(self).dirs@,
    {
        proof {
            use_type_invariant(&*self);
        }
        let ghost m0 = file_map(self.files@);
        match self.find_file(path) {
            Some(i) => {
                proof {
                    lemma_file_map_remove(self.files@, i as int);
                }
                let _ = self.files_remove(i);
            },
            None => {
                proof {
                    lemma_file_map(self.files@, path@);
                    assert(m0.remove(path@) =~= m0);
                }
            },
        }
        proof {
            use_type_invariant(&*self);
            lemma_file_map(self.files@, path@);
        }
        let mut p = String::new();
        crate::text::append_str(&mut p, path);
        proof {
            assert(p@ =~= path@);
            assert(!file_map(self.files@).contains_key(path@));
        }
        let ghost before = self.files@;
        proof {
            assert forall|k: int| 0 <= k < self.files@.len() implies self.files@[k].path@ != p@ by {
                if self.files@[k].path@ == p@ {
                    assert(file_map(self.files@).contains_key(path@));
                }
            }
        }
        self.files_push(MemFile { path: p, bytes, modified });
        proof {
            assert(self.files@.drop_last() =~= before);
            assert(file_map(self.files@) =~= m0.insert(path@, bytes@));
        }
    }
}


/// The name of the hidden temporary sibling [`write_atomic`] writes first:
/// `.<name>.awl-tmp` beside `path` (`unnamed` when `path` has no name).
pub open spec fn tmp_sibling_of(path: Seq<char>) -> Seq<char> {
    let name = if leaf_of(path).len() == 0 {
        "unnamed"@
    } else {
        leaf_of(path)
    };
    let tmp_name = seq!['.'] + name + ".awl-tmp"@;
    match parent_of(path) {
        Some(p) => if p.len() > 0 {
            join_of(p, tmp_name)
        } else {
            tmp_name
        },
        None => tmp_name,
    }
}

/// The hidden temporary sibling of `path` ([`tmp_sibling_of`]).
pub fn tmp_sibling(path: &str) -> (r: String)
    ensures
        r@ == tmp_sibling_of(path@),
{
    let leaf = leaf_name(path);
    let mut tmp_name = String::new();
    tmp_name.push('.');
    if leaf.as_str().is_empty() {
        crate::text::append_str(&mut tmp_name, "unnamed");
    } else {
        crate::text::append_str(&mut tmp_name, leaf.as_str());
    }
    crate::text::append_str(&mut tmp_name, ".awl-tmp");
    proof {
        let name = if leaf_of(path@).len() == 0 {
            "unnamed"@
        } else {
            leaf_of(path@)
        };
        assert(tmp_name@ =~= seq!['.'] + name + ".awl-tmp"@);
    }
    match parent(path) {
        Some(p) => {
            if !p.as_str().is_empty() {
                join(p.as_str(), tmp_name.as_str())
            } else {
                tmp_name
            }
        },
        None => tmp_name,
    }
}

/// Write `data` to `path` atomically: first to the hidden temporary sibling
/// ([`tmp_sibling_of`]), then renamed over `path`, so a crash leaves the old
/// file or the new one, never half of either.
pub fn write_atomic<F: FileSystem>(fs: &mut F, path: &str, data: &[u8]) -> (r: Result<(), FsError>)
    ensures
        r is Ok ==> final(fs).files() == old(fs).files().insert(tmp_sibling_of(path@), data@).remove(
            tmp_sibling_of(path@),
        ).insert(path@, data@),
        final(fs).files().remove(tmp_sibling_of(path@)).remove(path@) == old(fs).files().remove(
            tmp_sibling_of(path@),
        ).remove(path@),
        old(fs).dirs().subset_of(final(fs).dirs()),
        old(fs).infallible() ==> r is Ok,
        final(fs).infallible() == old(fs).infallible(),
{
    let tmp = tmp_sibling(path);
    let w = fs.write(tmp.as_str(), data);
    let ghost f0 = old(fs).files();
    let ghost f1 = fs.files();
    proof {
        assert(f1.remove(tmp@).remove(path@) =~= f0.remove(tmp@).remove(path@)) by {
            assert(f1.remove(tmp@) == f0.remove(tmp@));
        }
    }
    match w {
        Ok(()) => {},
        Err(e) => return Err(e),
    }
    let r = fs.rename(tmp.as_str(), path);
    proof {
        let f2 = fs.files();
        assert(f2.remove(tmp@).remove(path@) =~= f0.remove(tmp@).remove(path@)) by {
            assert(f2.remove(tmp@).remove(path@) == f1.remove(tmp@).remove(path@));
        }
    }
    r
}

/// A file `seed_write_if_absent` may have put at `p`: the text of some sample
/// for `p`, its tokens rendered with `labels`.
pub open spec fn seeded_at(
    samples: Seq<(String, String)>,
    keys: Seq<(String, String)>,
    cmds: Seq<(String, String)>,
    p: Seq<char>,
    bytes: Seq<u8>,
) -> bool {
    exists|j: int|
        0 <= j < samples.len() && #[trigger] samples[j].0@ == p && bytes == encode_utf8(
            crate::keytoken::render_of(samples[j].1@, keys, cmds),
        )
}

/// The directories seeding `samples` may bring into being: the root, and
/// the directories above each sample path.
pub open spec fn seed_dirs(samples: Seq<(String, String)>) -> Set<Seq<char>> {
    Set::new(
        |d: Seq<char>|
            d == seq!['/'] || exists|k: int| 0 <= k < samples.len() && #[trigger] parent_dirs(samples[k].0@).contains(d),
    )
}

/// Seed `samples` (a path and a text with `{{key:..}}` / `{{cmd:..}}` tokens)
/// into `fs`, write-if-absent per path: a path that already exists, as a file
/// or a directory, is never touched, so existing bytes always survive; an
/// absent one gets its text with the tokens rendered for `labels`. The root
/// directory is created first. A failed write is passed over: what it leaves
/// at its own path is all it may change.
pub fn seed_write_if_absent<F: FileSystem>(fs: &mut F, samples: &[(String, String)], labels: &crate::keytoken::TokenLabels)
    ensures
        forall|p: Seq<char>|
            old(fs).files().contains_key(p) ==> #[trigger] final(fs).files().contains_key(p) && final(fs).files()[p]
                == old(fs).files()[p],
        forall|p: Seq<char>|
            #[trigger] final(fs).files().contains_key(p) && !old(fs).files().contains_key(p) ==> exists|j: int|
                0 <= j < samples@.len() && #[trigger] samples@[j].0@ == p,
        old(fs).infallible() ==> forall|p: Seq<char>|
            #[trigger] final(fs).files().contains_key(p) && !old(fs).files().contains_key(p) ==> seeded_at(
                samples@,
                labels.keys@,
                labels.cmds@,
                p,
                final(fs).files()[p],
            ),
        old(fs).infallible() ==> forall|j: int|
            0 <= j < samples@.len() ==> final(fs).files().contains_key(#[trigger] samples@[j].0@)
                || final(fs).dirs().contains(samples@[j].0@),
        old(fs).infallible() ==> forall|j: int|
            0 <= j < samples@.len() && !old(fs).files().contains_key(#[trigger] samples@[j].0@)
                && !old(fs).dirs().contains(samples@[j].0@) && !seed_dirs(samples@).contains(samples@[j].0@)
                ==> final(fs).files().contains_key(samples@[j].0@) && seeded_at(
                samples@,
                labels.keys@,
                labels.cmds@,
                samples@[j].0@,
                final(fs).files()[samples@[j].0@],
            ),
        final(fs).dirs().subset_of(old(fs).dirs().union(seed_dirs(samples@))),
        final(fs).infallible() == old(fs).infallible(),
{
    let ghost f0 = fs.files();
    let ghost d0 = fs.dirs();
    let ghost inf = fs.infallible();
    let mut root = String::new();
    root.push('/');
    let _ = fs.create_dir_all(root.as_str());
    proof {
        assert(root@ == seq!['/']);
        assert(ancestors(root@) == set![root@]);
        assert(seed_dirs(samples@).contains(root@));
    }
    let mut i: usize = 0;
    while i < samples.len()
        invariant
            0 <= i <= samples@.len(),
            fs.infallible() == inf,
            inf == old(fs).infallible(),
            f0 == old(fs).files(),
            forall|p: Seq<char>| f0.contains_key(p) ==> #[trigger] fs.files().contains_key(p) && fs.files()[p] == f0[p],
            forall|p: Seq<char>|
                #[trigger] fs.files().contains_key(p) && !f0.contains_key(p) ==> exists|j: int|
                    0 <= j < i && #[trigger] samples@[j].0@ == p,
            inf ==> forall|p: Seq<char>|
                #[trigger] fs.files().contains_key(p) && !f0.contains_key(p) ==> seeded_at(
                    samples@,
                    labels.keys@,
                    labels.cmds@,
                    p,
                    fs.files()[p],
                ),
            inf ==> forall|j: int|
                0 <= j < i ==> fs.files().contains_key(#[trigger] samples@[j].0@) || fs.dirs().contains(samples@[j].0@),
            d0 == old(fs).dirs(),
            fs.dirs().subset_of(d0.union(seed_dirs(samples@))),
            inf ==> forall|j: int|
                0 <= j < i && !f0.contains_key(#[trigger] samples@[j].0@) && !d0.contains(samples@[j].0@)
                    && !seed_dirs(samples@).contains(samples@[j].0@) ==> fs.files().contains_key(samples@[j].0@)
                    && seeded_at(samples@, labels.keys@, labels.cmds@, samples@[j].0@, fs.files()[samples@[j].0@]),
        decreases samples.len() - i,
    {
        let path = samples[i].0.as_str();
        if !fs.path_exists(path) {
            let rendered = crate::keytoken::render_key_tokens(samples[i].1.as_str(), labels);
            let ghost before = fs.files();
            let ghost dirs_before = fs.dirs();
            let w = fs.write(path, rendered.as_str().as_bytes());
            proof {
                let pp = samples@[i as int].0@;
                let after = fs.files();
                assert(!f0.contains_key(pp));
                assert forall|p: Seq<char>| f0.contains_key(p) implies #[trigger] after.contains_key(p) && after[p] == f0[p] by {
                    assert(p != pp);
                    assert(after.remove(pp).contains_key(p) == before.remove(pp).contains_key(p));
                    assert(after.remove(pp)[p] == before.remove(pp)[p]);
                }
                assert forall|p: Seq<char>|
                    #[trigger] after.contains_key(p) && !f0.contains_key(p) implies exists|j: int|
                        0 <= j < i + 1 && #[trigger] samples@[j].0@ == p by {
                    if p != pp {
                        assert(after.remove(pp).contains_key(p) == before.remove(pp).contains_key(p));
                    } else {
                        assert(samples@[i as int].0@ == p);
                    }
                }
                if inf {
                    assert(w is Ok);
                    assert forall|p: Seq<char>|
                        #[trigger] after.contains_key(p) && !f0.contains_key(p) implies seeded_at(
                            samples@,
                            labels.keys@,
                            labels.cmds@,
                            p,
                            after[p],
                        ) by {
                        if p == pp {
                            assert(samples@[i as int].0@ == p);
                        } else {
                            assert(before.contains_key(p));
                        }
                    }
                    assert forall|j: int|
                        0 <= j < i + 1 implies after.contains_key(#[trigger] samples@[j].0@) || fs.dirs().contains(
                            samples@[j].0@,
                        ) by {
                        if j < i && !dirs_before.contains(samples@[j].0@) {
                            assert(before.contains_key(samples@[j].0@));
                        }
                    }
                    assert forall|j: int|
                        0 <= j < i + 1 && !f0.contains_key(#[trigger] samples@[j].0@) && !d0.contains(samples@[j].0@)
                            && !seed_dirs(samples@).contains(samples@[j].0@) implies after.contains_key(samples@[j].0@)
                            && seeded_at(samples@, labels.keys@, labels.cmds@, samples@[j].0@, after[samples@[j].0@]) by {
                        if j == i {
                            assert(samples@[i as int].0@ == pp);
                        } else {
                            assert(before.contains_key(samples@[j].0@));
                            assert(samples@[j].0@ != pp);
                            assert(after.remove(pp)[samples@[j].0@] == before.remove(pp)[samples@[j].0@]);
                        }
                    }
                }
                assert forall|d: Seq<char>| fs.dirs().contains(d) implies d0.union(seed_dirs(samples@)).contains(d) by {
                    if !dirs_before.contains(d) {
                        assert(parent_dirs(samples@[i as int].0@).contains(d));
                    }
                }
            }
        } else {
            proof {
                assert forall|p: Seq<char>|
                    #[trigger] fs.files().contains_key(p) && !f0.contains_key(p) implies exists|j: int|
                        0 <= j < i + 1 && #[trigger] samples@[j].0@ == p by {
                    let j = choose|j: int| 0 <= j < i && #[trigger] samples@[j].0@ == p;
                }
                if inf {
                    let pp = samples@[i as int].0@;
                    if !f0.contains_key(pp) && !d0.contains(pp) && !seed_dirs(samples@).contains(pp) {
                        assert(!fs.dirs().contains(pp));
                        assert(fs.files().contains_key(pp));
                    }
                }
            }
        }
        i += 1;
    }
}

} // verus!

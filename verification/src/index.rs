//! The per-root file index the go-to picker matches against. A git root
//! lists what git tracks, what it would track, and the present `.env*`
//! files; any other root is walked. Either way the entries are root-relative,
//! `/`-separated, free of the heavy junk directories, sorted and distinct.

use vstd::prelude::*;
use vstd::utf8::encode_utf8;
use crate::facets::FacetItem;
use crate::fs::{join_of, leaf_of, parent_of, FileSystem};
use crate::text::{decimal, lines_of, lossy_text, opt_str, push_decimal, str_eq, str_to_chars, trim};

verus! {

// --- Names -----------------------------------------------------------------------

/// The directories pruned from every index: build output, vendored
/// dependencies, VCS internals.
pub open spec fn junk_name(s: Seq<char>) -> bool {
    s == "node_modules"@ || s == ".git"@ || s == "target"@ || s == "build"@ || s == "dist"@
}

/// Whether `name` is a junk directory ([`junk_name`]).
pub fn is_junk_dir(name: &str) -> (r: bool)
    ensures
        r == junk_name(name@),
{
    str_eq(name, "node_modules") || str_eq(name, ".git") || str_eq(name, "target") || str_eq(
        name,
        "build",
    ) || str_eq(name, "dist")
}

/// An `.env` family name: `.env`, `.env.local`, and anything else that
/// starts with `.env`.
pub open spec fn env_name(s: Seq<char>) -> bool {
    s.len() >= 4 && s[0] == '.' && s[1] == 'e' && s[2] == 'n' && s[3] == 'v'
}

/// Whether `name` is an `.env` family file ([`env_name`]); these are kept in
/// a git index even when git ignores them.
pub fn is_env_file(name: &str) -> (r: bool)
    ensures
        r == env_name(name@),
{
    let v = str_to_chars(name);
    v.len() >= 4 && v[0] == '.' && v[1] == 'e' && v[2] == 'n' && v[3] == 'v'
}

/// A component of `s` starts at `i` with a dot.
pub open spec fn dot_start(s: Seq<char>, i: int) -> bool {
    0 <= i < s.len() && s[i] == '.' && (i == 0 || s[i - 1] == '/')
}

/// Some `/`-separated component of `s` starts with a dot.
pub open spec fn dot_component(s: Seq<char>) -> bool {
    exists|i: int| #[trigger] dot_start(s, i)
}

/// An entry hidden from the pickers by default: some component of it starts
/// with a dot, unless its last component is an `.env` family file.
pub open spec fn hidden_of(s: Seq<char>) -> bool {
    !env_name(leaf_of(s)) && dot_component(s)
}

/// Whether the root-relative entry `rel` is hidden by default ([`hidden_of`]).
pub fn is_hidden_entry(rel: &str) -> (r: bool)
    ensures
        r == hidden_of(rel@),
{
    let leaf = crate::fs::leaf_name(rel);
    if is_env_file(leaf.as_str()) {
        return false;
    }
    let v = str_to_chars(rel);
    let mut i: usize = 0;
    while i < v.len()
        invariant
            0 <= i <= v@.len(),
            v@ == rel@,
            !env_name(leaf_of(rel@)),
            forall|k: int| 0 <= k < i ==> !#[trigger] dot_start(rel@, k),
        decreases v.len() - i,
    {
        if v[i] == '.' && (i == 0 || v[i - 1] == '/') {
            assert(dot_start(rel@, i as int));
            return true;
        }
        i += 1;
    }
    assert forall|k: int| !#[trigger] dot_start(rel@, k) by {
        if 0 <= k < v@.len() {
        }
    }
    false
}

// --- The picker lenses ------------------------------------------------------------

/// Go-to's lens buckets, by strip index: 1 (Recent) keeps the recently
/// opened files, 2 (This folder) the top-level files, 3 (Headings) the
/// document's heading rows; 0 (All) groups nothing.
pub open spec fn goto_bucket_of(item: FacetItem, lens_idx: usize) -> Option<Seq<char>> {
    if lens_idx == 1 {
        if item.recent {
            Some("Recent"@)
        } else {
            None
        }
    } else if lens_idx == 2 {
        if !item.heading && !item.accept@.contains('/') {
            Some("This folder"@)
        } else {
            None
        }
    } else if lens_idx == 3 {
        if item.heading {
            Some("Headings"@)
        } else {
            None
        }
    } else {
        None
    }
}

fn has_slash(s: &str) -> (r: bool)
    ensures
        r == s@.contains('/'),
{
    let v = str_to_chars(s);
    let mut i: usize = 0;
    while i < v.len()
        invariant
            0 <= i <= v@.len(),
            v@ == s@,
            forall|k: int| 0 <= k < i ==> v@[k] != '/',
        decreases v.len() - i,
    {
        if v[i] == '/' {
            return true;
        }
        i += 1;
    }
    false
}

/// Go-to's bucket for `item` under lens `lens_idx` ([`goto_bucket_of`]).
pub fn goto_bucket(item: FacetItem, lens_idx: usize) -> (r: Option<&'static str>)
    ensures
        match goto_bucket_of(item, lens_idx) {
            Some(l) => r matches Some(s) && s@ == l,
            None => r is None,
        },
{
    if lens_idx == 1 {
        if item.recent {
            Some("Recent")
        } else {
            None
        }
    } else if lens_idx == 2 {
        if !item.heading && !has_slash(item.accept) {
            Some("This folder")
        } else {
            None
        }
    } else if lens_idx == 3 {
        if item.heading {
            Some("Headings")
        } else {
            None
        }
    } else {
        None
    }
}

/// Browse's lens buckets, by strip index: 1 (Folders) the directories,
/// 2 (Files) the rest, 3 (Git repos) the directories that are git
/// repositories; 0 (All) groups nothing.
pub open spec fn browse_bucket_of(item: FacetItem, lens_idx: usize) -> Option<Seq<char>> {
    if lens_idx == 1 && item.is_dir {
        Some("Folders"@)
    } else if lens_idx == 2 && !item.is_dir {
        Some("Files"@)
    } else if lens_idx == 3 && item.is_git {
        Some("Git repos"@)
    } else {
        None
    }
}

/// Browse's bucket for `item` under lens `lens_idx` ([`browse_bucket_of`]).
pub fn browse_bucket(item: FacetItem, lens_idx: usize) -> (r: Option<&'static str>)
    ensures
        match browse_bucket_of(item, lens_idx) {
            Some(l) => r matches Some(s) && s@ == l,
            None => r is None,
        },
{
    if lens_idx == 1 {
        if item.is_dir {
            Some("Folders")
        } else {
            None
        }
    } else if lens_idx == 2 {
        if !item.is_dir {
            Some("Files")
        } else {
            None
        }
    } else if lens_idx == 3 {
        if item.is_git {
            Some("Git repos")
        } else {
            None
        }
    } else {
        None
    }
}

/// The project switcher's bucket for `item` under lens `lens_idx`: 1
/// (Recent) keeps the recently visited projects; 0 (All) groups nothing.
pub fn project_bucket(item: FacetItem, lens_idx: usize) -> (r: Option<&'static str>)
    ensures
        lens_idx == 1 && item.recent ==> (r matches Some(s) && s@ == "Recent"@),
        !(lens_idx == 1 && item.recent) ==> r is None,
{
    if lens_idx == 1 && item.recent {
        Some("Recent")
    } else {
        None
    }
}

// --- Paths and times --------------------------------------------------------------

/// The absolute path of the root-relative entry `rel` under `root`.
pub fn resolve(root: &str, rel: &str) -> (r: String)
    ensures
        r@ == join_of(root@, rel@),
{
    crate::fs::join(root, rel)
}

/// The "last edited" label for a file modified at `mtime`, relative to `now`
/// (both millis since the epoch): under a minute "just now", then whole
/// minutes "Nm ago", hours "Nh ago", days "Nd ago". A future `mtime` reads
/// "just now".
pub open spec fn relative_time_of(now: u64, mtime: u64) -> Seq<char> {
    let secs: int = if now >= mtime {
        (now - mtime) / 1000
    } else {
        0
    };
    if secs < 60 {
        "just now"@
    } else if secs < 3600 {
        decimal((secs / 60) as nat) + "m ago"@
    } else if secs < 86400 {
        decimal((secs / 3600) as nat) + "h ago"@
    } else {
        decimal((secs / 86400) as nat) + "d ago"@
    }
}

/// A modification time at or after `now` (clock skew) reads "just now".
pub proof fn lemma_future_mtime_reads_just_now(now: u64, mtime: u64)
    requires
        mtime >= now,
    ensures
        relative_time_of(now, mtime) == "just now"@,
{
}

/// An `.env` family file stays visible wherever it sits, dotted directories
/// above it included.
pub proof fn lemma_env_files_stay_visible(rel: Seq<char>)
    requires
        env_name(leaf_of(rel)),
    ensures
        !hidden_of(rel),
{
}

/// The relative "last edited" label ([`relative_time_of`]).
pub fn relative_time(now: u64, mtime: u64) -> (r: String)
    ensures
        r@ == relative_time_of(now, mtime),
{
    let secs: u64 = if now >= mtime {
        (now - mtime) / 1000
    } else {
        0
    };
    if secs < 60 {
        return String::from_str("just now");
    }
    let mut out = String::new();
    let tail: &str;
    if secs < 3600 {
        push_decimal(&mut out, secs / 60);
        tail = "m ago";
    } else if secs < 86400 {
        push_decimal(&mut out, secs / 3600);
        tail = "h ago";
    } else {
        push_decimal(&mut out, secs / 86400);
        tail = "d ago";
    }
    crate::text::append_str(&mut out, tail);
    out
}

// --- The order of `String` ----------------------------------------------------------

/// Lexicographic order on byte strings; a proper prefix comes first.
pub open spec fn bytes_lt(a: Seq<u8>, b: Seq<u8>) -> bool
    decreases a.len(),
{
    if b.len() == 0 {
        false
    } else if a.len() == 0 {
        true
    } else if a[0] != b[0] {
        a[0] < b[0]
    } else {
        bytes_lt(a.drop_first(), b.drop_first())
    }
}

/// The order of `String`: their UTF-8 bytes, lexicographically.
pub open spec fn str_lt(a: Seq<char>, b: Seq<char>) -> bool {
    bytes_lt(encode_utf8(a), encode_utf8(b))
}

proof fn lemma_bytes_lt_facts(a: Seq<u8>, b: Seq<u8>)
    ensures
        !bytes_lt(a, a),
        a == b || bytes_lt(a, b) || bytes_lt(b, a),
        !(bytes_lt(a, b) && bytes_lt(b, a)),
    decreases a.len(),
{
    if a.len() > 0 && b.len() > 0 && a[0] == b[0] {
        lemma_bytes_lt_facts(a.drop_first(), b.drop_first());
        if a.drop_first() == b.drop_first() {
            assert(a =~= seq![a[0]] + a.drop_first());
            assert(b =~= seq![b[0]] + b.drop_first());
        }
    }
    if a.len() > 0 {
        lemma_bytes_lt_facts(a.drop_first(), a.drop_first());
    }
    if a.len() == 0 && b.len() == 0 {
        assert(a =~= b);
    }
}

proof fn lemma_bytes_lt_trans(a: Seq<u8>, b: Seq<u8>, c: Seq<u8>)
    requires
        bytes_lt(a, b),
        bytes_lt(b, c),
    ensures
        bytes_lt(a, c),
    decreases a.len(),
{
    if a.len() > 0 && b.len() > 0 && c.len() > 0 && a[0] == b[0] && b[0] == c[0] {
        lemma_bytes_lt_trans(a.drop_first(), b.drop_first(), c.drop_first());
    }
}

proof fn lemma_bytes_lt_skip(a: Seq<u8>, b: Seq<u8>, i: int)
    requires
        0 <= i <= a.len(),
        i <= b.len(),
        a.take(i) == b.take(i),
    ensures
        bytes_lt(a, b) == bytes_lt(a.skip(i), b.skip(i)),
    decreases i,
{
    if i > 0 {
        assert(a[0] == a.take(i)[0] && b[0] == b.take(i)[0]);
        assert(a.drop_first().take(i - 1) =~= a.take(i).drop_first());
        assert(b.drop_first().take(i - 1) =~= b.take(i).drop_first());
        lemma_bytes_lt_skip(a.drop_first(), b.drop_first(), i - 1);
        assert(a.drop_first().skip(i - 1) =~= a.skip(i));
        assert(b.drop_first().skip(i - 1) =~= b.skip(i));
    } else {
        assert(a.skip(0) =~= a);
        assert(b.skip(0) =~= b);
    }
}

/// `str_lt` is a strict total order on texts.
pub proof fn lemma_str_lt_order(a: Seq<char>, b: Seq<char>, c: Seq<char>)
    ensures
        !str_lt(a, a),
        a == b || str_lt(a, b) || str_lt(b, a),
        !(str_lt(a, b) && str_lt(b, a)),
        str_lt(a, b) && str_lt(b, c) ==> str_lt(a, c),
{
    lemma_bytes_lt_facts(encode_utf8(a), encode_utf8(b));
    lemma_bytes_lt_facts(encode_utf8(a), encode_utf8(a));
    if str_lt(a, b) && str_lt(b, c) {
        lemma_bytes_lt_trans(encode_utf8(a), encode_utf8(b), encode_utf8(c));
    }
    if encode_utf8(a) == encode_utf8(b) {
        vstd::utf8::encode_utf8_decode_utf8(a);
        vstd::utf8::encode_utf8_decode_utf8(b);
    }
}

fn bytes_less(a: &[u8], b: &[u8]) -> (r: bool)
    ensures
        r == bytes_lt(a@, b@),
{
    let mut i: usize = 0;
    while i < a.len() && i < b.len()
        invariant
            i <= a@.len(),
            i <= b@.len(),
            a@.take(i as int) == b@.take(i as int),
        decreases a.len() - i,
    {
        if a[i] != b[i] {
            proof {
                lemma_bytes_lt_skip(a@, b@, i as int);
                assert(a@.skip(i as int)[0] == a@[i as int]);
                assert(b@.skip(i as int)[0] == b@[i as int]);
            }
            return a[i] < b[i];
        }
        proof {
            assert(a@.take(i + 1) =~= a@.take(i as int).push(a@[i as int]));
            assert(b@.take(i + 1) =~= b@.take(i as int).push(b@[i as int]));
        }
        i += 1;
    }
    proof {
        lemma_bytes_lt_skip(a@, b@, i as int);
    }
    i == a.len() && i < b.len()
}

/// Whether `a` sorts before `b` as `String`s do ([`str_lt`]).
pub fn str_less(a: &str, b: &str) -> (r: bool)
    ensures
        r == str_lt(a@, b@),
{
    bytes_less(a.as_bytes(), b.as_bytes())
}

/// `v` is sorted by [`str_lt`] with no text twice.
pub open spec fn sorted_strs(v: Seq<String>) -> bool {
    forall|i: int, j: int| 0 <= i < j < v.len() ==> str_lt(#[trigger] v[i]@, #[trigger] v[j]@)
}

/// `v` holds the text `s`.
pub open spec fn has_str(v: Seq<String>, s: Seq<char>) -> bool {
    exists|k: int| 0 <= k < v.len() && #[trigger] v[k]@ == s
}

/// Add `s` to the sorted, duplicate-free `v`, at its place, unless it is
/// there already.
fn insert_sorted_str(v: &mut Vec<String>, s: String)
    requires
        sorted_strs(old(v)@),
    ensures
        sorted_strs(final(v)@),
        forall|t: Seq<char>| has_str(final(v)@, t) <==> (has_str(old(v)@, t) || t == s@),
{
    let ghost old_v = v@;
    let mut lo: usize = 0;
    let mut hi: usize = v.len();
    while lo < hi
        invariant
            0 <= lo <= hi <= v@.len(),
            v@ == old_v,
            sorted_strs(v@),
            forall|k: int| 0 <= k < lo ==> str_lt(#[trigger] v@[k]@, s@),
            forall|k: int| hi <= k < v@.len() ==> !str_lt(#[trigger] v@[k]@, s@),
        decreases hi - lo,
    {
        let mid: usize = lo + (hi - lo) / 2;
        if str_less(v[mid].as_str(), s.as_str()) {
            proof {
                assert forall|k: int| 0 <= k < mid + 1 implies str_lt(#[trigger] v@[k]@, s@) by {
                    if k < mid {
                        lemma_str_lt_order(v@[k]@, v@[mid as int]@, s@);
                    }
                }
            }
            lo = mid + 1;
        } else {
            proof {
                assert forall|k: int| mid <= k < v@.len() implies !str_lt(#[trigger] v@[k]@, s@) by {
                    if k > mid {
                        lemma_str_lt_order(s@, v@[mid as int]@, v@[k]@);
                        lemma_str_lt_order(v@[k]@, s@, v@[mid as int]@);
                        lemma_str_lt_order(v@[mid as int]@, v@[k]@, s@);
                    }
                }
            }
            hi = mid;
        }
    }
    if lo < v.len() && str_eq(v[lo].as_str(), s.as_str()) {
        proof {
            assert forall|t: Seq<char>| has_str(v@, t) <==> (has_str(old_v, t) || t == s@) by {
                if t == s@ {
                    assert(v@[lo as int]@ == t);
                }
            }
        }
        return;
    }
    let ghost sv = s@;
    v.insert(lo, s);
    proof {
        let nv = v@;
        assert(nv =~= old_v.insert(lo as int, nv[lo as int]));
        assert forall|k: int| 0 <= k < nv.len() && k != lo implies (#[trigger] nv[k]) == old_v[if k < lo { k } else { k - 1 }] by {
        }
        assert forall|i: int, j: int| 0 <= i < j < nv.len() implies str_lt(#[trigger] nv[i]@, #[trigger] nv[j]@) by {
            if j == lo {
                assert(nv[i] == old_v[i]);
            } else if i == lo {
                let oj = j - 1;
                assert(nv[j] == old_v[oj]);
                lemma_str_lt_order(old_v[oj]@, sv, sv);
                if oj > lo {
                    lemma_str_lt_order(old_v[lo as int]@, old_v[oj]@, sv);
                    lemma_str_lt_order(sv, old_v[lo as int]@, old_v[oj]@);
                    lemma_str_lt_order(old_v[oj]@, sv, old_v[lo as int]@);
                } else {
                    lemma_str_lt_order(old_v[oj]@, sv, sv);
                }
            } else {
                let oi = if i < lo { i } else { i - 1 };
                let oj = if j < lo { j } else { j - 1 };
                assert(nv[i] == old_v[oi]);
                assert(nv[j] == old_v[oj]);
            }
        }
        assert forall|t: Seq<char>| has_str(nv, t) <==> (has_str(old_v, t) || t == sv) by {
            if has_str(nv, t) {
                let k = choose|k: int| 0 <= k < nv.len() && #[trigger] nv[k]@ == t;
                if k != lo {
                    let ok = if k < lo { k } else { k - 1 };
                    assert(old_v[ok]@ == t);
                }
            }
            if has_str(old_v, t) {
                let k = choose|k: int| 0 <= k < old_v.len() && #[trigger] old_v[k]@ == t;
                let nk = if k < lo { k } else { k + 1 };
                assert(nv[nk]@ == t);
            }
            if t == sv {
                assert(nv[lo as int]@ == t);
            }
        }
    }
}

/// The texts of `v`, sorted as `String`s sort, each once.
pub fn sorted_distinct(v: Vec<String>) -> (r: Vec<String>)
    ensures
        sorted_strs(r@),
        forall|t: Seq<char>| has_str(r@, t) <==> has_str(v@, t),
{
    let mut out: Vec<String> = Vec::new();
    let mut i: usize = 0;
    while i < v.len()
        invariant
            0 <= i <= v@.len(),
            sorted_strs(out@),
            forall|t: Seq<char>| has_str(out@, t) <==> has_str(v@.take(i as int), t),
        decreases v.len() - i,
    {
        let s = v[i].clone();
        insert_sorted_str(&mut out, s);
        proof {
            assert forall|t: Seq<char>| has_str(out@, t) <==> has_str(v@.take(i + 1), t) by {
                let pre = v@.take(i as int);
                let nxt = v@.take(i + 1);
                if has_str(pre, t) {
                    let k = choose|k: int| 0 <= k < pre.len() && #[trigger] pre[k]@ == t;
                    assert(nxt[k]@ == t);
                }
                if has_str(nxt, t) {
                    let k = choose|k: int| 0 <= k < nxt.len() && #[trigger] nxt[k]@ == t;
                    if k < i {
                        assert(pre[k]@ == t);
                    }
                }
                if t == v@[i as int]@ {
                    assert(nxt[i as int]@ == t);
                }
            }
        }
        i += 1;
    }
    proof {
        assert(v@.take(v@.len() as int) =~= v@);
    }
    out
}

// --- The walk -----------------------------------------------------------------------

/// How many characters of a path under `root` belong to `root`: `root`
/// itself and the `/` after it, unless `root` is empty or ends with one.
pub open spec fn root_prefix_len(root: Seq<char>) -> int {
    if root.len() == 0 || root.last() == '/' {
        root.len() as int
    } else {
        root.len() + 1int
    }
}

/// `p` lies under `root`: it starts with `root` and the separator after it.
pub open spec fn under(root: Seq<char>, p: Seq<char>) -> bool {
    &&& p.len() >= root_prefix_len(root)
    &&& p.take(root.len() as int) == root
    &&& root_prefix_len(root) > root.len() ==> p[root.len() as int] == '/'
}

/// `p` relative to `root`: what follows `root` and its separator, with any
/// `\` written as `/`.
pub open spec fn rel_of(root: Seq<char>, p: Seq<char>) -> Seq<char> {
    let r = p.skip(root_prefix_len(root));
    Seq::new(r.len(), |i: int| if r[i] == '\\' { '/' } else { r[i] })
}

/// A walk from `dir` reaches `p`: the parent of `p` is `dir`, or a
/// directory, not a junk one, that the walk reaches.
pub open spec fn reaches(dirs: Set<Seq<char>>, dir: Seq<char>, p: Seq<char>) -> bool
    decreases p.len(),
{
    proof {
        crate::fs::lemma_parent_shorter(p);
    }
    match parent_of(p) {
        None => false,
        Some(q) => q == dir || (dirs.contains(q) && !junk_name(leaf_of(q)) && reaches(dirs, dir, q)),
    }
}

/// The file names a walk keeps: all of them, or only the `.env` family.
pub open spec fn keeps(env_only: bool, name: Seq<char>) -> bool {
    !env_only || env_name(name)
}

/// The file `f`, reached from `dir` and kept, is `t` relative to `root`.
pub open spec fn yields(
    files: Map<Seq<char>, Seq<u8>>,
    dirs: Set<Seq<char>>,
    root: Seq<char>,
    dir: Seq<char>,
    env_only: bool,
    f: Seq<char>,
    t: Seq<char>,
) -> bool {
    files.contains_key(f) && reaches(dirs, dir, f) && keeps(env_only, leaf_of(f)) && t == rel_of(root, f)
}

/// A walk of `dir` under `root` lists `t`: `dir` can be listed, and some
/// file it reaches yields `t` ([`yields`]).
pub open spec fn walk_hit(
    files: Map<Seq<char>, Seq<u8>>,
    dirs: Set<Seq<char>>,
    root: Seq<char>,
    dir: Seq<char>,
    env_only: bool,
    t: Seq<char>,
) -> bool {
    dirs.contains(dir) && exists|f: Seq<char>| #[trigger] yields(files, dirs, root, dir, env_only, f, t)
}

/// `out` holds what `start` held and what the first `k` entries of `es`
/// contribute, and nothing else, as far as the text `t` goes.
pub open spec fn collected(
    out: Seq<String>,
    start: Seq<String>,
    es: Seq<crate::fs::DirEntry>,
    k: int,
    files: Map<Seq<char>, Seq<u8>>,
    dirs: Set<Seq<char>>,
    root: Seq<char>,
    env_only: bool,
    t: Seq<char>,
) -> bool {
    has_str(out, t) <==> (has_str(start, t) || exists|j: int|
        0 <= j < k && #[trigger] entry_yields(es[j], files, dirs, root, env_only, t))
}

/// What one listed entry of a walked directory contributes: a kept file,
/// relative to `root`, or the walk of a directory that is not junk.
pub open spec fn entry_yields(
    e: crate::fs::DirEntry,
    files: Map<Seq<char>, Seq<u8>>,
    dirs: Set<Seq<char>>,
    root: Seq<char>,
    env_only: bool,
    t: Seq<char>,
) -> bool {
    ||| e.is_file && keeps(env_only, e.name@) && t == rel_of(root, e.path@)
    ||| e.is_dir && !junk_name(e.name@) && walk_hit(files, dirs, root, e.path@, env_only, t)
}

proof fn lemma_parent_under(p: Seq<char>)
    ensures
        parent_of(p) matches Some(q) ==> q.len() < p.len() && under(q, p),
{
    crate::fs::lemma_parent_shorter(p);
    crate::fs::lemma_last_slash(p);
    if let Some(q) = parent_of(p) {
        let k = crate::fs::last_slash(p);
        if k < 0 {
            assert(q =~= seq![]);
            assert(p.take(0) =~= q);
        } else if k == 0 {
            assert(p.take(1) =~= q);
        } else {
            assert(p.take(k) =~= q);
        }
    }
}

proof fn lemma_under_trans(root: Seq<char>, q: Seq<char>, p: Seq<char>)
    requires
        under(root, q),
        under(q, p),
    ensures
        under(root, p),
{
    assert(p.take(q.len() as int) == q);
    assert forall|i: int| 0 <= i < root.len() implies p.take(root.len() as int)[i] == root[i] by {
        assert(p[i] == q[i]);
        assert(q[i] == q.take(root.len() as int)[i]);
    }
    assert(p.take(root.len() as int) =~= root);
    if root_prefix_len(root) > root.len() {
        assert(p[root.len() as int] == q[root.len() as int]);
    }
}

proof fn lemma_reaches_under(dirs: Set<Seq<char>>, root: Seq<char>, p: Seq<char>)
    requires
        reaches(dirs, root, p),
    ensures
        under(root, p),
    decreases p.len(),
{
    lemma_parent_under(p);
    let q = parent_of(p)->0;
    if q != root {
        lemma_reaches_under(dirs, root, q);
        lemma_under_trans(root, q, p);
    }
}

/// A reached file lies below a child directory of the walk's start, unless
/// its parent is the start itself.
proof fn lemma_reaches_split(dirs: Set<Seq<char>>, d: Seq<char>, f: Seq<char>) -> (c: Seq<char>)
    requires
        reaches(dirs, d, f),
        parent_of(f) != Some(d),
    ensures
        parent_of(c) == Some(d),
        dirs.contains(c),
        !junk_name(leaf_of(c)),
        reaches(dirs, c, f),
    decreases f.len(),
{
    crate::fs::lemma_parent_shorter(f);
    let q = parent_of(f)->0;
    if parent_of(q) == Some(d) {
        q
    } else {
        let c = lemma_reaches_split(dirs, d, q);
        c
    }
}

/// What a walk from a child directory reaches, the walk from its parent
/// reaches too.
proof fn lemma_reaches_join(dirs: Set<Seq<char>>, d: Seq<char>, c: Seq<char>, f: Seq<char>)
    requires
        parent_of(c) == Some(d),
        dirs.contains(c),
        !junk_name(leaf_of(c)),
        reaches(dirs, c, f),
    ensures
        reaches(dirs, d, f),
    decreases f.len(),
{
    crate::fs::lemma_parent_shorter(f);
    let q = parent_of(f)->0;
    if q != c {
        lemma_reaches_join(dirs, d, c, q);
    } else {
        assert(reaches(dirs, d, c));
    }
    assert(reaches(dirs, d, f));
}

/// The directories longer than `n` characters: what a walk below a path of
/// length `n` can still descend into.
pub open spec fn deeper(dirs: Set<Seq<char>>, n: int) -> Set<Seq<char>> {
    dirs.filter(|d: Seq<char>| d.len() > n)
}

proof fn lemma_deeper(dirs: Set<Seq<char>>, n: int, c: Seq<char>)
    requires
        dirs.finite(),
        dirs.contains(c),
        c.len() > n,
    ensures
        deeper(dirs, c.len() as int).len() < deeper(dirs, n).len(),
{
    dirs.lemma_len_filter(|d: Seq<char>| d.len() > n);
    let big = deeper(dirs, n);
    let small = deeper(dirs, c.len() as int);
    assert(small.subset_of(big.remove(c)));
    vstd::set_lib::lemma_len_subset(small, big.remove(c));
}

/// One directory level of a walk accounts for the whole walk from it.
proof fn lemma_walk_level(
    files: Map<Seq<char>, Seq<u8>>,
    dirs: Set<Seq<char>>,
    root: Seq<char>,
    dir: Seq<char>,
    env_only: bool,
    es: Seq<crate::fs::DirEntry>,
)
    requires
        dirs.contains(dir),
        forall|k: int| 0 <= k < es.len() ==> crate::fs::lists_child(#[trigger] es[k], dir, files, dirs),
        forall|p: Seq<char>| files.contains_key(p) && parent_of(p) == Some(dir) ==> #[trigger] crate::fs::lists_file(es, p),
        forall|p: Seq<char>| dirs.contains(p) && p != dir && parent_of(p) == Some(dir) ==> #[trigger] crate::fs::lists_dir(es, p),
    ensures
        forall|t: Seq<char>| (exists|j: int| 0 <= j < es.len() && #[trigger] entry_yields(es[j], files, dirs, root, env_only, t))
            <==> walk_hit(files, dirs, root, dir, env_only, t),
{
    assert forall|t: Seq<char>| (exists|j: int| 0 <= j < es.len() && #[trigger] entry_yields(es[j], files, dirs, root, env_only, t))
        implies walk_hit(files, dirs, root, dir, env_only, t) by {
        let j = choose|j: int| 0 <= j < es.len() && #[trigger] entry_yields(es[j], files, dirs, root, env_only, t);
        let e = es[j];
        assert(crate::fs::lists_child(e, dir, files, dirs));
        if e.is_file && keeps(env_only, e.name@) && t == rel_of(root, e.path@) {
            assert(yields(files, dirs, root, dir, env_only, e.path@, t));
        } else {
            let f = choose|f: Seq<char>| #[trigger] yields(files, dirs, root, e.path@, env_only, f, t);
            lemma_reaches_join(dirs, dir, e.path@, f);
            assert(yields(files, dirs, root, dir, env_only, f, t));
        }
    }
    assert forall|t: Seq<char>| walk_hit(files, dirs, root, dir, env_only, t)
        implies (exists|j: int| 0 <= j < es.len() && #[trigger] entry_yields(es[j], files, dirs, root, env_only, t)) by {
        let f = choose|f: Seq<char>| #[trigger] yields(files, dirs, root, dir, env_only, f, t);
        if parent_of(f) == Some(dir) {
            assert(crate::fs::lists_file(es, f));
            let j = choose|j: int| 0 <= j < es.len() && es[j].path@ == f && es[j].is_file;
            assert(entry_yields(es[j], files, dirs, root, env_only, t));
        } else {
            let c = lemma_reaches_split(dirs, dir, f);
            crate::fs::lemma_parent_shorter(c);
            assert(crate::fs::lists_dir(es, c));
            let j = choose|j: int| 0 <= j < es.len() && es[j].path@ == c && es[j].is_dir;
            assert(crate::fs::lists_child(es[j], dir, files, dirs));
            assert(yields(files, dirs, root, c, env_only, f, t));
            assert(entry_yields(es[j], files, dirs, root, env_only, t));
        }
    }
}

/// `p` relative to `root` ([`rel_of`]), for a `p` under `root`.
fn rel_path(root: &str, p: &str) -> (r: String)
    requires
        under(root@, p@),
    ensures
        r@ == rel_of(root@, p@),
{
    let rv = str_to_chars(root);
    let pv = str_to_chars(p);
    assert(pv@.len() >= root_prefix_len(root@));
    let start: usize;
    if rv.len() == 0 || rv[rv.len() - 1] == '/' {
        start = rv.len();
    } else {
        assert(root@.last() == rv@[rv@.len() - 1]);
        let pl: usize = pv.len();
        assert(rv@.len() + 1 <= pl);
        start = rv.len() + 1;
    }
    let mut out = String::new();
    let mut i: usize = start;
    while i < pv.len()
        invariant
            start <= i <= pv@.len(),
            start == root_prefix_len(root@),
            pv@ == p@,
            out@ =~= Seq::new((i - start) as nat, |k: int| if pv@[start + k] == '\\' { '/' } else { pv@[start + k] }),
        decreases pv.len() - i,
    {
        let c = pv[i];
        out.push(if c == '\\' { '/' } else { c });
        i += 1;
    }
    out
}

/// Walk `dir`, below `root`, pushing each kept file's path relative to
/// `root` and descending into every directory that is not junk.
fn walk_collect<F: FileSystem>(fs: &F, root: &str, dir: &str, env_only: bool, out: &mut Vec<String>)
    requires
        fs.dirs().finite(),
        dir@ == root@ || (fs.dirs().contains(dir@) && !junk_name(leaf_of(dir@)) && reaches(
            fs.dirs(),
            root@,
            dir@,
        )),
    ensures
        forall|t: Seq<char>| has_str(final(out)@, t) <==> (has_str(old(out)@, t) || walk_hit(
            fs.files(),
            fs.dirs(),
            root@,
            dir@,
            env_only,
            t,
        )),
    decreases deeper(fs.dirs(), dir@.len() as int).len(),
{
    let ghost files = fs.files();
    let ghost dirs = fs.dirs();
    let entries = match fs.read_dir(dir) {
        Ok(es) => es,
        Err(_) => {
            return;
        },
    };
    let ghost old_out = out@;
    let mut k: usize = 0;
    while k < entries.len()
        invariant
            0 <= k <= entries@.len(),
            files == fs.files(),
            dirs == fs.dirs(),
            dirs.finite(),
            dirs.contains(dir@),
            dir@ == root@ || (dirs.contains(dir@) && !junk_name(leaf_of(dir@)) && reaches(dirs, root@, dir@)),
            forall|j: int| 0 <= j < entries@.len() ==> crate::fs::lists_child(#[trigger] entries@[j], dir@, files, dirs),
            forall|t: Seq<char>| #[trigger] collected(out@, old_out, entries@, k as int, files, dirs, root@, env_only, t),
        decreases entries.len() - k,
    {
        let e = &entries[k];
        let ghost before = out@;
        let ghost ek = entries@[k as int];
        assert(crate::fs::lists_child(ek, dir@, files, dirs));
        if e.is_dir {
            if !is_junk_dir(e.name.as_str()) {
                proof {
                    crate::fs::lemma_parent_shorter(e.path@);
                    lemma_deeper(dirs, dir@.len() as int, e.path@);
                    assert(reaches(dirs, root@, e.path@));
                }
                walk_collect(fs, root, e.path.as_str(), env_only, out);
            }
            assert(forall|t: Seq<char>| has_str(out@, t) <==> (has_str(before, t) || entry_yields(ek, files, dirs, root@, env_only, t)));
        } else if e.is_file && (!env_only || is_env_file(e.name.as_str())) {
            proof {
                lemma_reaches_under(dirs, root@, e.path@);
            }
            let rel = rel_path(root, e.path.as_str());
            let ghost rv = rel@;
            out.push(rel);
            proof {
                assert(out@[out@.len() - 1]@ == rv);
                assert forall|t: Seq<char>| has_str(out@, t) <==> (has_str(before, t) || t == rv) by {
                    if has_str(out@, t) {
                        let q = choose|q: int| 0 <= q < out@.len() && #[trigger] out@[q]@ == t;
                        if q < before.len() {
                            assert(before[q]@ == t);
                        }
                    }
                    if has_str(before, t) {
                        let q = choose|q: int| 0 <= q < before.len() && #[trigger] before[q]@ == t;
                        assert(out@[q]@ == t);
                    }
                }
            }
            assert(forall|t: Seq<char>| has_str(out@, t) <==> (has_str(before, t) || entry_yields(ek, files, dirs, root@, env_only, t)));
        } else {
            assert(forall|t: Seq<char>| has_str(out@, t) <==> (has_str(before, t) || entry_yields(ek, files, dirs, root@, env_only, t)));
        }
        proof {
            assert forall|t: Seq<char>| #[trigger] collected(out@, old_out, entries@, k + 1, files, dirs, root@, env_only, t) by {
                let here = entry_yields(entries@[k as int], files, dirs, root@, env_only, t);
                let ex_k = exists|j: int| 0 <= j < k && #[trigger] entry_yields(entries@[j], files, dirs, root@, env_only, t);
                let ex_k1 = exists|j: int| 0 <= j < k + 1 && #[trigger] entry_yields(entries@[j], files, dirs, root@, env_only, t);
                assert(collected(before, old_out, entries@, k as int, files, dirs, root@, env_only, t));
                assert(has_str(before, t) <==> (has_str(old_out, t) || ex_k));
                assert(has_str(out@, t) <==> (has_str(before, t) || here));
                if here {
                    assert(ex_k1);
                }
                if ex_k {
                    let j = choose|j: int| 0 <= j < k && #[trigger] entry_yields(entries@[j], files, dirs, root@, env_only, t);
                    assert(0 <= j < k + 1);
                    assert(ex_k1);
                }
                if ex_k1 {
                    let j = choose|j: int| 0 <= j < k + 1 && #[trigger] entry_yields(entries@[j], files, dirs, root@, env_only, t);
                    if j < k {
                        assert(ex_k);
                    } else {
                        assert(here);
                    }
                }
            }
        }
        k += 1;
    }
    proof {
        lemma_walk_level(files, dirs, root@, dir@, env_only, entries@);
        assert forall|t: Seq<char>| has_str(out@, t) <==> (has_str(old_out, t) || walk_hit(files, dirs, root@, dir@, env_only, t)) by {
            assert(collected(out@, old_out, entries@, entries@.len() as int, files, dirs, root@, env_only, t));
        }
    }
}

// --- The index ----------------------------------------------------------------------

/// `s[i..j]` is one `/`-separated component of `s`.
pub open spec fn component_at(s: Seq<char>, i: int, j: int) -> bool {
    &&& 0 <= i <= j <= s.len()
    &&& i == 0 || s[i - 1] == '/'
    &&& j == s.len() || s[j] == '/'
    &&& forall|k: int| i <= k < j ==> s[k] != '/'
}

/// `s` passes through a junk directory: one of its components is junk.
pub open spec fn junk_component(s: Seq<char>) -> bool {
    exists|i: int, j: int| #[trigger] component_at(s, i, j) && junk_name(s.subrange(i, j))
}

fn junk_range(w: &Vec<char>, a: usize, b: usize) -> (r: bool)
    requires
        a <= b <= w@.len(),
    ensures
        r == junk_name(w@.subrange(a as int, b as int)),
{
    crate::text::range_eq(w, a, b, "node_modules") || crate::text::range_eq(w, a, b, ".git")
        || crate::text::range_eq(w, a, b, "target") || crate::text::range_eq(w, a, b, "build")
        || crate::text::range_eq(w, a, b, "dist")
}

/// Whether `w` passes through a junk directory ([`junk_component`]).
fn has_junk_component(w: &Vec<char>) -> (r: bool)
    ensures
        r == junk_component(w@),
{
    let n: usize = w.len();
    let mut a: usize = 0;
    loop
        invariant
            0 <= a <= n,
            n == w@.len(),
            a == 0 || w@[a - 1] == '/',
            forall|i: int, j: int| 0 <= i < a && #[trigger] component_at(w@, i, j) ==> !junk_name(w@.subrange(i, j)),
        decreases n - a,
    {
        let b = crate::text::find_char(w, '/', a, n);
        proof {
            assert(w@.subrange(0, n as int) =~= w@);
            crate::text::lemma_first_index_of(w@, '/', a as int);
            assert(component_at(w@, a as int, b as int));
            assert forall|j: int| #[trigger] component_at(w@, a as int, j) implies j == b by {
                if j < b {
                    assert(w@[j] != '/');
                } else if j > b {
                    assert(w@[b as int] == '/');
                }
            }
        }
        if junk_range(w, a, b) {
            return true;
        }
        if b == n {
            proof {
                assert forall|i: int, j: int| #[trigger] component_at(w@, i, j) implies !junk_name(w@.subrange(i, j)) by {
                    if i > a {
                        assert(w@[i - 1] != '/');
                    }
                }
            }
            return false;
        }
        proof {
            assert forall|i: int, j: int| 0 <= i < b + 1 && #[trigger] component_at(w@, i, j) implies !junk_name(w@.subrange(i, j)) by {
                if a < i && i <= b {
                    assert(w@[i - 1] != '/');
                }
            }
        }
        a = b + 1;
    }
}

/// A `git ls-files` listing `out` names `t`: some line of it, trimmed, is
/// `t`, which is not blank and passes through no junk directory.
pub open spec fn git_listed(out: Seq<u8>, t: Seq<char>) -> bool {
    exists|k: int|
        0 <= k < lines_of(lossy_text(out)).len() && t == trim(#[trigger] lines_of(lossy_text(out))[k])
            && t.len() > 0 && !junk_component(t)
}

/// `acc` holds what `start` held and the entries the first `k` lines of the
/// listing name, as far as the text `t` goes.
pub open spec fn listed_upto(acc: Seq<String>, start: Seq<String>, lines: Seq<Seq<char>>, k: int, t: Seq<char>) -> bool {
    has_str(acc, t) <==> (has_str(start, t) || exists|j: int|
        0 <= j < k && t == trim(#[trigger] lines[j]) && t.len() > 0 && !junk_component(t))
}

/// `acc` holds what `start` held and the entries of the listing `out`, as
/// far as the text `t` goes.
pub open spec fn adds_listed(acc: Seq<String>, start: Seq<String>, out: Seq<u8>, t: Seq<char>) -> bool {
    has_str(acc, t) <==> (has_str(start, t) || git_listed(out, t))
}

/// Add the entries of the `git ls-files` listing `out` ([`git_listed`]).
fn collect_git_listing(out: &[u8], acc: &mut Vec<String>)
    ensures
        forall|t: Seq<char>| #[trigger] adds_listed(final(acc)@, old(acc)@, out@, t),
{
    let text = crate::text::lossy_utf8(out);
    let v = str_to_chars(text.as_str());
    let ghost lines = lines_of(v@);
    assert(v@ == lossy_text(out@));
    let ranges = crate::text::line_ranges(&v);
    let ghost start = acc@;
    let mut k: usize = 0;
    while k < ranges.len()
        invariant
            0 <= k <= ranges@.len(),
            ranges@.len() == lines.len(),
            lines == lines_of(v@),
            crate::text::ranges_spell(v@, ranges@, lines),
            forall|t: Seq<char>| #[trigger] listed_upto(acc@, start, lines, k as int, t),
        decreases ranges.len() - k,
    {
        let (lo, hi) = ranges[k];
        assert(crate::text::range_spells(v@, ranges@[k as int], lines[k as int]));
        let (a, b) = crate::text::trim_range(&v, lo, hi);
        let ghost before = acc@;
        let ghost tk = trim(lines[k as int]);
        let mut pushed = false;
        if a < b {
            let entry = crate::text::string_of(&v, a, b);
            let w = str_to_chars(entry.as_str());
            if !has_junk_component(&w) {
                acc.push(entry);
                pushed = true;
            }
        }
        proof {
            assert(pushed ==> acc@ == before.push(acc@[before.len() as int]) && acc@[before.len() as int]@ == tk);
            assert(!pushed ==> acc@ == before);
            assert(pushed <==> (tk.len() > 0 && !junk_component(tk)));
            assert forall|t: Seq<char>| #[trigger] listed_upto(acc@, start, lines, k + 1, t) by {
                assert(listed_upto(before, start, lines, k as int, t));
                let ex_k = exists|j: int| 0 <= j < k && t == trim(#[trigger] lines[j]) && t.len() > 0 && !junk_component(t);
                let ex_k1 = exists|j: int| 0 <= j < k + 1 && t == trim(#[trigger] lines[j]) && t.len() > 0 && !junk_component(t);
                if ex_k {
                    let j = choose|j: int| 0 <= j < k && t == trim(#[trigger] lines[j]) && t.len() > 0 && !junk_component(t);
                    assert(0 <= j < k + 1);
                }
                if ex_k1 {
                    let j = choose|j: int| 0 <= j < k + 1 && t == trim(#[trigger] lines[j]) && t.len() > 0 && !junk_component(t);
                    if j < k {
                        assert(ex_k);
                    }
                }
                if pushed && t == tk {
                    assert(acc@[before.len() as int]@ == t);
                    assert(ex_k1);
                }
                if has_str(acc@, t) {
                    let q = choose|q: int| 0 <= q < acc@.len() && #[trigger] acc@[q]@ == t;
                    if q < before.len() {
                        assert(before[q]@ == t);
                    }
                }
                if has_str(before, t) {
                    let q = choose|q: int| 0 <= q < before.len() && #[trigger] before[q]@ == t;
                    assert(acc@[q]@ == t);
                }
            }
        }
        k += 1;
    }
    proof {
        assert forall|t: Seq<char>| #[trigger] adds_listed(acc@, start, out@, t) by {
            assert(listed_upto(acc@, start, lines, ranges@.len() as int, t));
        }
    }
}

/// `acc` holds what `start` held and the first `i` entries of `v`, as far as
/// the text `t` goes.
pub open spec fn union_upto(acc: Seq<String>, start: Seq<String>, v: Seq<String>, i: int, t: Seq<char>) -> bool {
    has_str(acc, t) <==> (has_str(start, t) || has_str(v.take(i), t))
}

/// Add every entry of `v` to `acc`.
fn extend_strs(acc: &mut Vec<String>, v: Vec<String>)
    ensures
        forall|t: Seq<char>| has_str(final(acc)@, t) <==> (has_str(old(acc)@, t) || has_str(v@, t)),
{
    let ghost start = acc@;
    let mut i: usize = 0;
    while i < v.len()
        invariant
            0 <= i <= v@.len(),
            forall|t: Seq<char>| #[trigger] union_upto(acc@, start, v@, i as int, t),
        decreases v.len() - i,
    {
        let ghost before = acc@;
        acc.push(v[i].clone());
        proof {
            assert forall|t: Seq<char>| #[trigger] union_upto(acc@, start, v@, i + 1, t) by {
                assert(union_upto(before, start, v@, i as int, t));
                let pre = v@.take(i as int);
                let nxt = v@.take(i + 1);
                if has_str(acc@, t) {
                    let q = choose|q: int| 0 <= q < acc@.len() && #[trigger] acc@[q]@ == t;
                    if q < before.len() {
                        assert(before[q]@ == t);
                    } else {
                        assert(nxt[i as int]@ == t);
                    }
                }
                if has_str(before, t) {
                    let q = choose|q: int| 0 <= q < before.len() && #[trigger] before[q]@ == t;
                    assert(acc@[q]@ == t);
                }
                if has_str(pre, t) {
                    let q = choose|q: int| 0 <= q < pre.len() && #[trigger] pre[q]@ == t;
                    assert(nxt[q]@ == t);
                }
                if has_str(nxt, t) {
                    let q = choose|q: int| 0 <= q < nxt.len() && #[trigger] nxt[q]@ == t;
                    if q < i {
                        assert(pre[q]@ == t);
                    } else {
                        assert(acc@[before.len() as int]@ == t);
                    }
                }
            }
        }
        i += 1;
    }
    proof {
        assert(v@.take(v@.len() as int) =~= v@);
        assert forall|t: Seq<char>| has_str(acc@, t) <==> (has_str(start, t) || has_str(v@, t)) by {
            assert(union_upto(acc@, start, v@, v@.len() as int, t));
        }
    }
}

/// The walk strategy: every file under `root`, skipping junk directories.
fn walk_index<F: FileSystem>(fs: &F, root: &str) -> (r: Vec<String>)
    requires
        fs.dirs().finite(),
    ensures
        forall|t: Seq<char>| has_str(r@, t) <==> walk_hit(fs.files(), fs.dirs(), root@, root@, false, t),
{
    let mut files: Vec<String> = Vec::new();
    assert(forall|t: Seq<char>| !has_str(files@, t));
    walk_collect(fs, root, root, false, &mut files);
    files
}

/// The git strategy: the files git tracks (`in_git`, the output of `git
/// ls-files`), the untracked ones git does not ignore (`untracked`, the
/// output of `git ls-files --others --exclude-standard`), and the present
/// `.env*` files under `root`.
fn git_index<F: FileSystem>(fs: &F, root: &str, in_git: &[u8], untracked: &[u8]) -> (r: Vec<String>)
    requires
        fs.dirs().finite(),
    ensures
        forall|t: Seq<char>| has_str(r@, t) <==> (git_listed(in_git@, t) || git_listed(untracked@, t)
            || walk_hit(fs.files(), fs.dirs(), root@, root@, true, t)),
{
    let mut files: Vec<String> = Vec::new();
    let ghost s0 = files@;
    assert(forall|t: Seq<char>| !has_str(s0, t));
    collect_git_listing(in_git, &mut files);
    let ghost s1 = files@;
    collect_git_listing(untracked, &mut files);
    let ghost s2 = files@;
    let mut env_files: Vec<String> = Vec::new();
    assert(forall|t: Seq<char>| !has_str(env_files@, t));
    walk_collect(fs, root, root, true, &mut env_files);
    let ghost e = env_files@;
    extend_strs(&mut files, env_files);
    assert forall|t: Seq<char>| has_str(files@, t) <==> (git_listed(in_git@, t) || git_listed(untracked@, t)
        || walk_hit(fs.files(), fs.dirs(), root@, root@, true, t)) by {
        assert(adds_listed(s1, s0, in_git@, t));
        assert(adds_listed(s2, s1, untracked@, t));
        assert(has_str(e, t) <==> walk_hit(fs.files(), fs.dirs(), root@, root@, true, t));
        assert(has_str(files@, t) <==> (has_str(s2, t) || has_str(e, t)));
    }
    files
}

/// The index of `root` holds `t`: for a git root (one holding `.git`), an
/// entry of either git listing or an `.env*` file the walk finds; for any
/// other root, a file the walk finds.
pub open spec fn index_entry(
    files: Map<Seq<char>, Seq<u8>>,
    dirs: Set<Seq<char>>,
    root: Seq<char>,
    in_git: Seq<u8>,
    untracked: Seq<u8>,
    t: Seq<char>,
) -> bool {
    let git = join_of(root, ".git"@);
    if files.contains_key(git) || dirs.contains(git) {
        git_listed(in_git, t) || git_listed(untracked, t) || walk_hit(files, dirs, root, root, true, t)
    } else {
        walk_hit(files, dirs, root, root, false, t)
    }
}

/// The candidate list for `root`, root-relative, sorted as `String`s sort and
/// without repeats ([`index_entry`]). `in_git` and `untracked` are what `git
/// -C <root> ls-files` and `git -C <root> ls-files --others
/// --exclude-standard` printed (empty where git failed); they count only when
/// `root` holds `.git`. A backend knows finitely many directories, as every
/// real one does.
pub fn build_index<F: FileSystem>(fs: &F, root: &str, in_git: &[u8], untracked: &[u8]) -> (r: Vec<String>)
    requires
        fs.dirs().finite(),
    ensures
        sorted_strs(r@),
        forall|t: Seq<char>| has_str(r@, t) <==> index_entry(fs.files(), fs.dirs(), root@, in_git@, untracked@, t),
{
    let git = crate::fs::join(root, ".git");
    let out = if fs.path_exists(git.as_str()) {
        git_index(fs, root, in_git, untracked)
    } else {
        walk_index(fs, root)
    };
    sorted_distinct(out)
}

// --- Recency ------------------------------------------------------------------------

/// A `(name, mtime)` entry's view.
pub open spec fn stamp_view(e: (String, u64)) -> (Seq<char>, u64) {
    (e.0@, e.1)
}

/// The views of `v`'s entries.
pub open spec fn stamps_view(v: Seq<(String, u64)>) -> Seq<(Seq<char>, u64)> {
    v.map_values(|e: (String, u64)| stamp_view(e))
}

/// `a` comes before `b` in recency order: modified later, or at the same
/// time with a name that sorts first.
pub open spec fn recency_before(a: (Seq<char>, u64), b: (Seq<char>, u64)) -> bool {
    a.1 > b.1 || (a.1 == b.1 && str_lt(a.0, b.0))
}

/// `v` is in recency order: no entry comes before one ahead of it.
pub open spec fn recency_sorted(v: Seq<(Seq<char>, u64)>) -> bool {
    forall|i: int, j: int| 0 <= i < j < v.len() ==> !recency_before(#[trigger] v[j], #[trigger] v[i])
}

proof fn lemma_recency_order(a: (Seq<char>, u64), b: (Seq<char>, u64), c: (Seq<char>, u64))
    ensures
        !recency_before(a, a),
        a == b || recency_before(a, b) || recency_before(b, a),
        !(recency_before(a, b) && recency_before(b, a)),
        recency_before(a, b) && recency_before(b, c) ==> recency_before(a, c),
{
    lemma_str_lt_order(a.0, b.0, c.0);
    lemma_str_lt_order(b.0, a.0, c.0);
}

fn recency_less(a: &(String, u64), b: &(String, u64)) -> (r: bool)
    ensures
        r == recency_before(stamp_view(*a), stamp_view(*b)),
{
    a.1 > b.1 || (a.1 == b.1 && str_less(a.0.as_str(), b.0.as_str()))
}

/// Order `(name, mtime)` entries most recently modified first, ties by name,
/// ascending. The result is the entries themselves, rearranged.
pub fn order_by_recency(entries: Vec<(String, u64)>) -> (r: Vec<(String, u64)>)
    ensures
        recency_sorted(stamps_view(r@)),
        stamps_view(r@).to_multiset() == stamps_view(entries@).to_multiset(),
{
    let mut out: Vec<(String, u64)> = Vec::new();
    let mut i: usize = 0;
    proof {
        assert(stamps_view(out@) =~= seq![]);
        assert(stamps_view(entries@.take(0)) =~= seq![]);
    }
    while i < entries.len()
        invariant
            0 <= i <= entries@.len(),
            recency_sorted(stamps_view(out@)),
            stamps_view(out@).to_multiset() == stamps_view(entries@.take(i as int)).to_multiset(),
        decreases entries.len() - i,
    {
        let item = (entries[i].0.clone(), entries[i].1);
        let ghost x = stamp_view(item);
        assert(x == stamp_view(entries@[i as int]));
        let ghost ov = stamps_view(out@);
        let mut lo: usize = 0;
        let mut hi: usize = out.len();
        while lo < hi
            invariant
                0 <= lo <= hi <= out@.len(),
                ov == stamps_view(out@),
                recency_sorted(ov),
                x == stamp_view(item),
                forall|k: int| 0 <= k < lo ==> !recency_before(x, #[trigger] ov[k]),
                forall|k: int| hi <= k < ov.len() ==> recency_before(x, #[trigger] ov[k]),
            decreases hi - lo,
        {
            let mid: usize = lo + (hi - lo) / 2;
            assert(ov[mid as int] == stamp_view(out@[mid as int]));
            if recency_less(&item, &out[mid]) {
                proof {
                    assert forall|k: int| mid <= k < ov.len() implies recency_before(x, #[trigger] ov[k]) by {
                        lemma_recency_order(x, ov[mid as int], ov[k]);
                        lemma_recency_order(ov[mid as int], ov[k], x);
                    }
                }
                hi = mid;
            } else {
                proof {
                    assert forall|k: int| 0 <= k < mid + 1 implies !recency_before(x, #[trigger] ov[k]) by {
                        lemma_recency_order(x, ov[k], ov[mid as int]);
                        lemma_recency_order(ov[k], ov[mid as int], x);
                    }
                }
                lo = mid + 1;
            }
        }
        out.insert(lo, item);
        proof {
            let nv = stamps_view(out@);
            assert(nv =~= ov.insert(lo as int, x));
            vstd::seq_lib::to_multiset_insert(ov, lo as int, x);
            assert(stamps_view(entries@.take(i + 1)) =~= stamps_view(entries@.take(i as int)).push(x));
            vstd::seq_lib::to_multiset_build(stamps_view(entries@.take(i as int)), x);
            assert forall|a: int, b: int| 0 <= a < b < nv.len() implies !recency_before(#[trigger] nv[b], #[trigger] nv[a]) by {
                if b == lo {
                    assert(nv[a] == ov[a]);
                } else if a == lo {
                    assert(nv[b] == ov[b - 1]);
                    lemma_recency_order(x, ov[b - 1], x);
                } else {
                    let oa = if a < lo { a } else { a - 1 };
                    let ob = if b < lo { b } else { b - 1 };
                    assert(nv[a] == ov[oa]);
                    assert(nv[b] == ov[ob]);
                }
            }
        }
        i += 1;
    }
    proof {
        assert(entries@.take(entries@.len() as int) =~= entries@);
    }
    out
}

/// `names` and `labels` are `stamped` in recency order, each name with its
/// "last edited" label relative to `now`.
pub open spec fn recency_rows_are(
    now: u64,
    stamped: Seq<(Seq<char>, u64)>,
    names: Seq<String>,
    labels: Seq<String>,
) -> bool {
    &&& names.len() == stamped.len()
    &&& labels.len() == stamped.len()
    &&& exists|p: Seq<(Seq<char>, u64)>|
        #![trigger p.to_multiset()]
        p.len() == stamped.len() && recency_sorted(p) && p.to_multiset() == stamped.to_multiset() && forall|i: int|
            0 <= i < p.len() ==> #[trigger] names[i]@ == p[i].0 && labels[i]@ == relative_time_of(now, p[i].1)
}

/// The picker's rows for names stamped with their modification times:
/// newest first, each with its "last edited" label relative to `now`.
pub fn recency_rows(now: u64, stamped: Vec<(String, u64)>) -> (r: (Vec<String>, Vec<String>))
    ensures
        recency_rows_are(now, stamps_view(stamped@), r.0@, r.1@),
{
    let ordered = order_by_recency(stamped);
    let ghost p = stamps_view(ordered@);
    let mut names: Vec<String> = Vec::new();
    let mut labels: Vec<String> = Vec::new();
    let mut i: usize = 0;
    while i < ordered.len()
        invariant
            0 <= i <= ordered@.len(),
            p == stamps_view(ordered@),
            names@.len() == i,
            labels@.len() == i,
            forall|k: int| 0 <= k < i ==> #[trigger] names@[k]@ == p[k].0 && labels@[k]@ == relative_time_of(now, p[k].1),
        decreases ordered.len() - i,
    {
        labels.push(relative_time(now, ordered[i].1));
        names.push(ordered[i].0.clone());
        i += 1;
    }
    proof {
        vstd::seq_lib::to_multiset_len(p);
        vstd::seq_lib::to_multiset_len(stamps_view(stamped@));
        assert(p.to_multiset() == stamps_view(stamped@).to_multiset());
    }
    (names, labels)
}

/// The stamp a backend that never fails a stat gives `p`: its modification
/// time, or the epoch when it has none or does not know `p`.
pub open spec fn stamp_at<F: FileSystem>(fs: &F, p: Seq<char>) -> u64 {
    if fs.files().contains_key(p) || fs.dirs().contains(p) {
        match fs.modified_at(p) {
            Some(t) => t,
            None => 0,
        }
    } else {
        0
    }
}

/// The modification time of `root`/`rel`, millis since the epoch; the epoch
/// itself when the backend cannot tell.
fn mtime_of<F: FileSystem>(fs: &F, root: &str, rel: &str) -> (t: u64)
    ensures
        !fs.files().contains_key(join_of(root@, rel@)) && !fs.dirs().contains(join_of(root@, rel@)) ==> t == 0,
        t == 0 || fs.modified_at(join_of(root@, rel@)) == Some(t),
        fs.infallible() ==> t == stamp_at(fs, join_of(root@, rel@)),
{
    let path = crate::fs::join(root, rel);
    match fs.metadata(path.as_str()) {
        Ok(m) => match m.modified {
            Some(t) => t,
            None => 0,
        },
        Err(_) => 0,
    }
}

/// Reorder the go-to corpus (root-relative paths) by "last edited", newest
/// first, paired with relative-time labels. With no `now` (a headless
/// capture) nothing is read: the corpus keeps its order and every label is
/// empty. Each entry is stamped with the backend's modification time of
/// `root`/entry (`modified_at`), or with the epoch where the backend has no
/// time for it, does not know the path, or fails the stat ([`stamp_at`] on a
/// backend that never fails one), and the stamps order the result.
pub fn with_recency<F: FileSystem>(fs: &F, root: &str, corpus: Vec<String>, now: Option<u64>) -> (r: (
    Vec<String>,
    Vec<String>,
))
    ensures
        now is None ==> r.0@ == corpus@ && r.1@.len() == corpus@.len() && forall|i: int|
            0 <= i < corpus@.len() ==> (#[trigger] r.1@[i])@ == Seq::<char>::empty(),
        now matches Some(n) ==> exists|ts: Seq<u64>|
            #![trigger ts.len()]
            ts.len() == corpus@.len() && (forall|i: int|
                0 <= i < corpus@.len() && !fs.files().contains_key(join_of(root@, corpus@[i]@))
                    && !fs.dirs().contains(join_of(root@, corpus@[i]@)) ==> #[trigger] ts[i] == 0)
                && (forall|i: int|
                0 <= i < corpus@.len() ==> #[trigger] ts[i] == 0 || fs.modified_at(join_of(root@, corpus@[i]@))
                    == Some(ts[i]))
                && (fs.infallible() ==> forall|i: int|
                0 <= i < corpus@.len() ==> #[trigger] ts[i] == stamp_at(fs, join_of(root@, corpus@[i]@)))
                && recency_rows_are(n, Seq::new(corpus@.len(), |i: int| (corpus@[i]@, ts[i])), r.0@, r.1@),
{
    match now {
        None => {
            let mut times: Vec<String> = Vec::new();
            let mut i: usize = 0;
            while i < corpus.len()
                invariant
                    0 <= i <= corpus@.len(),
                    times@.len() == i,
                    forall|k: int| 0 <= k < i ==> (#[trigger] times@[k])@ == Seq::<char>::empty(),
                decreases corpus.len() - i,
            {
                times.push(String::new());
                i += 1;
            }
            (corpus, times)
        },
        Some(n) => {
            let mut stamped: Vec<(String, u64)> = Vec::new();
            let ghost mut ts: Seq<u64> = seq![];
            let mut i: usize = 0;
            while i < corpus.len()
                invariant
                    0 <= i <= corpus@.len(),
                    ts.len() == i,
                    stamped@.len() == i,
                    stamps_view(stamped@) =~= Seq::new(i as nat, |k: int| (corpus@[k]@, ts[k])),
                    forall|k: int|
                        0 <= k < i && !fs.files().contains_key(join_of(root@, corpus@[k]@))
                            && !fs.dirs().contains(join_of(root@, corpus@[k]@)) ==> #[trigger] ts[k] == 0,
                    forall|k: int|
                        0 <= k < i ==> #[trigger] ts[k] == 0 || fs.modified_at(join_of(root@, corpus@[k]@)) == Some(
                            ts[k],
                        ),
                    fs.infallible() ==> forall|k: int|
                        0 <= k < i ==> #[trigger] ts[k] == stamp_at(fs, join_of(root@, corpus@[k]@)),
                decreases corpus.len() - i,
            {
                let t = mtime_of(fs, root, corpus[i].as_str());
                let ghost old_st = stamped@;
                stamped.push((corpus[i].clone(), t));
                proof {
                    ts = ts.push(t);
                    assert(stamped@ == old_st.push(stamped@[i as int]));
                    assert(stamps_view(stamped@) =~= stamps_view(old_st).push(stamp_view(stamped@[i as int])));
                }
                i += 1;
            }
            let r = recency_rows(n, stamped);
            proof {
                assert(ts.len() == corpus@.len());
            }
            r
        },
    }
}

// --- One directory level ------------------------------------------------------------

/// One entry of a directory level, for the browse navigator: the leaf name,
/// whether it is a directory (Enter descends) or a file (Enter opens), and
/// whether the directory is itself a git repository.
#[derive(Debug, Clone, PartialEq, Eq)]
pub struct DirEntry {
    pub name: String,
    pub is_dir: bool,
    pub is_git: bool,
}

/// The directory `c` holds `.git`.
pub open spec fn git_marked(files: Map<Seq<char>, Seq<u8>>, dirs: Set<Seq<char>>, c: Seq<char>) -> bool {
    files.contains_key(join_of(c, ".git"@)) || dirs.contains(join_of(c, ".git"@))
}

/// `e` stands for the child `c` of `dir`: a directory that is not junk,
/// marked when it holds `.git`, or a file.
pub open spec fn stands_for(
    files: Map<Seq<char>, Seq<u8>>,
    dirs: Set<Seq<char>>,
    dir: Seq<char>,
    e: DirEntry,
    c: Seq<char>,
) -> bool {
    &&& parent_of(c) == Some(dir)
    &&& e.name@ == leaf_of(c)
    &&& e.is_dir ==> dirs.contains(c) && !junk_name(leaf_of(c)) && e.is_git == git_marked(files, dirs, c)
    &&& !e.is_dir ==> files.contains_key(c) && !e.is_git
}

/// `e` stands for some child of `dir` ([`stands_for`]).
pub open spec fn entry_ok(files: Map<Seq<char>, Seq<u8>>, dirs: Set<Seq<char>>, dir: Seq<char>, e: DirEntry) -> bool {
    exists|c: Seq<char>| #[trigger] stands_for(files, dirs, dir, e, c)
}

/// The directory a level lists: `root`, or `root`/`rel` for a non-empty `rel`.
pub open spec fn level_path(root: Seq<char>, rel: Option<Seq<char>>) -> Seq<char> {
    match rel {
        Some(r) => if r.len() > 0 {
            join_of(root, r)
        } else {
            root
        },
        None => root,
    }
}

/// `v` is in strictly increasing name order: no name occurs twice.
pub open spec fn name_sorted(v: Seq<DirEntry>) -> bool {
    forall|i: int, j: int| 0 <= i < j < v.len() ==> str_lt(#[trigger] v[i].name@, #[trigger] v[j].name@)
}

/// Put `e` into the name-sorted `v` at its place, unless an entry of that
/// name is there already; then `v` is left as it is. Gives the position it
/// went to.
fn insert_by_name(v: &mut Vec<DirEntry>, e: DirEntry) -> (p: Option<usize>)
    requires
        name_sorted(old(v)@),
    ensures
        name_sorted(final(v)@),
        p matches Some(q) ==> q <= old(v)@.len() && final(v)@ == old(v)@.insert(q as int, e),
        p is None ==> final(v)@ == old(v)@,
        p is None <==> exists|i: int| 0 <= i < old(v)@.len() && #[trigger] old(v)@[i].name@ == e.name@,
{
    let ghost ov = v@;
    let mut lo: usize = 0;
    let mut hi: usize = v.len();
    while lo < hi
        invariant
            0 <= lo <= hi <= v@.len(),
            v@ == ov,
            name_sorted(ov),
            forall|k: int| 0 <= k < lo ==> !str_lt(e.name@, #[trigger] ov[k].name@),
            forall|k: int| hi <= k < ov.len() ==> str_lt(e.name@, #[trigger] ov[k].name@),
        decreases hi - lo,
    {
        let mid: usize = lo + (hi - lo) / 2;
        if str_less(e.name.as_str(), v[mid].name.as_str()) {
            proof {
                assert forall|k: int| mid <= k < ov.len() implies str_lt(e.name@, #[trigger] ov[k].name@) by {
                    if k > mid {
                        lemma_str_lt_order(e.name@, ov[mid as int].name@, ov[k].name@);
                    }
                }
            }
            hi = mid;
        } else {
            proof {
                assert forall|k: int| 0 <= k < mid + 1 implies !str_lt(e.name@, #[trigger] ov[k].name@) by {
                    if k < mid {
                        lemma_str_lt_order(e.name@, ov[k].name@, ov[mid as int].name@);
                    }
                }
            }
            lo = mid + 1;
        }
    }
    if lo > 0 && crate::text::str_eq(v[lo - 1].name.as_str(), e.name.as_str()) {
        return None;
    }
    let ghost en = e.name@;
    proof {
        if lo > 0 {
            lemma_str_lt_order(ov[lo - 1].name@, en, en);
            assert(str_lt(ov[lo - 1].name@, en));
        }
        assert forall|i: int| 0 <= i < ov.len() implies #[trigger] ov[i].name@ != en by {
            lemma_str_lt_order(en, en, en);
            if i < lo - 1 {
                lemma_str_lt_order(ov[i].name@, ov[lo - 1].name@, en);
            }
        }
    }
    v.insert(lo, e);
    proof {
        let nv = v@;
        assert forall|a: int, b: int| 0 <= a < b < nv.len() implies str_lt(#[trigger] nv[a].name@, #[trigger] nv[b].name@) by {
            if b == lo {
                assert(nv[a] == ov[a]);
                if a < lo - 1 {
                    lemma_str_lt_order(ov[a].name@, ov[lo - 1].name@, en);
                }
            } else if a == lo {
                assert(nv[b] == ov[b - 1]);
            } else {
                let oa = if a < lo { a } else { a - 1 };
                let ob = if b < lo { b } else { b - 1 };
                assert(nv[a] == ov[oa]);
                assert(nv[b] == ov[ob]);
            }
        }
    }
    Some(lo)
}

/// List one level of `root` (or of `root`/`rel`) for the browse navigator:
/// the directories first, by name, then the files, by name. Junk directories
/// are left out, and each directory is marked when it holds `.git`. No name
/// is listed twice as the same kind. A level that cannot be read lists
/// nothing.
pub fn list_dir_level<F: FileSystem>(fs: &F, root: &str, rel: Option<&str>) -> (r: Vec<DirEntry>)
    ensures
        ({
            let d = level_path(root@, opt_str(rel));
            &&& !fs.dirs().contains(d) ==> r@.len() == 0
            &&& forall|i: int| 0 <= i < r@.len() ==> #[trigger] entry_ok(fs.files(), fs.dirs(), d, r@[i])
            &&& forall|c: Seq<char>| fs.dirs().contains(d) && fs.dirs().contains(c) && c != d && parent_of(c) == Some(d)
                && !junk_name(leaf_of(c)) ==> exists|i: int| 0 <= i < r@.len() && r@[i].is_dir && #[trigger] r@[i].name@ == leaf_of(c)
            &&& forall|f: Seq<char>| fs.dirs().contains(d) && fs.files().contains_key(f) && parent_of(f) == Some(d)
                ==> exists|i: int| 0 <= i < r@.len() && !r@[i].is_dir && #[trigger] r@[i].name@ == leaf_of(f)
            &&& exists|k: int| 0 <= k <= r@.len()
                && (forall|i: int| 0 <= i < r@.len() ==> (#[trigger] r@[i].is_dir <==> i < k))
                && name_sorted(r@.take(k)) && name_sorted(r@.skip(k))
            &&& forall|i: int, j: int| 0 <= i < j < r@.len() && #[trigger] r@[i].is_dir == #[trigger] r@[j].is_dir
                ==> r@[i].name@ != r@[j].name@
        }),
{
    let ghost files = fs.files();
    let ghost dirs = fs.dirs();
    let dir: String = match rel {
        Some(r) => if !r.is_empty() {
            crate::fs::join(root, r)
        } else {
            root.to_string()
        },
        None => root.to_string(),
    };
    let ghost d = level_path(root@, opt_str(rel));
    assert(dir@ == d);
    let entries = match fs.read_dir(dir.as_str()) {
        Ok(es) => es,
        Err(_) => {
            let none: Vec<DirEntry> = Vec::new();
            proof {
                assert(none@.take(0) =~= none@);
                assert(none@.skip(0) =~= none@);
            }
            return none;
        },
    };
    let mut ds: Vec<DirEntry> = Vec::new();
    let mut fl: Vec<DirEntry> = Vec::new();
    let mut k: usize = 0;
    while k < entries.len()
        invariant
            0 <= k <= entries@.len(),
            files == fs.files(),
            dirs == fs.dirs(),
            dir@ == d,
            forall|j: int| 0 <= j < entries@.len() ==> crate::fs::lists_child(#[trigger] entries@[j], d, files, dirs),
            name_sorted(ds@),
            name_sorted(fl@),
            forall|i: int| 0 <= i < ds@.len() ==> (#[trigger] ds@[i]).is_dir && entry_ok(files, dirs, d, ds@[i]),
            forall|i: int| 0 <= i < fl@.len() ==> !(#[trigger] fl@[i]).is_dir && entry_ok(files, dirs, d, fl@[i]),
            forall|j: int| 0 <= j < k && (#[trigger] entries@[j]).is_dir && !junk_name(entries@[j].name@)
                ==> exists|i: int| 0 <= i < ds@.len() && #[trigger] ds@[i].name@ == entries@[j].name@,
            forall|j: int| 0 <= j < k && !(#[trigger] entries@[j]).is_dir
                ==> exists|i: int| 0 <= i < fl@.len() && #[trigger] fl@[i].name@ == entries@[j].name@,
        decreases entries.len() - k,
    {
        let e = &entries[k];
        let ghost ek = entries@[k as int];
        assert(crate::fs::lists_child(ek, d, files, dirs));
        let ghost ods = ds@;
        let ghost ofl = fl@;
        if e.is_dir {
            if !is_junk_dir(e.name.as_str()) {
                let git = crate::fs::join(e.path.as_str(), ".git");
                let is_git = fs.path_exists(git.as_str());
                let item = DirEntry { name: e.name.clone(), is_dir: true, is_git };
                assert(stands_for(files, dirs, d, item, ek.path@));
                match insert_by_name(&mut ds, item) {
                    Some(p) => {
                        proof {
                            assert(ds@[p as int] == item);
                            assert forall|i: int| 0 <= i < ds@.len() implies (#[trigger] ds@[i]).is_dir && entry_ok(files, dirs, d, ds@[i]) by {
                                if i == p {
                                } else if i < p {
                                    assert(ds@[i] == ods[i]);
                                } else {
                                    assert(ds@[i] == ods[i - 1]);
                                }
                            }
                            assert forall|j: int| 0 <= j < k + 1 && (#[trigger] entries@[j]).is_dir && !junk_name(entries@[j].name@)
                                implies exists|i: int| 0 <= i < ds@.len() && #[trigger] ds@[i].name@ == entries@[j].name@ by {
                                if j == k {
                                    assert(ds@[p as int].name@ == entries@[j].name@);
                                } else {
                                    let i = choose|i: int| 0 <= i < ods.len() && #[trigger] ods[i].name@ == entries@[j].name@;
                                    let ni = if i < p { i } else { i + 1 };
                                    assert(ds@[ni] == ods[i]);
                                }
                            }
                        }
                    },
                    None => {
                        proof {
                            assert(item.name@ == ek.name@);
                        }
                    },
                }
            }
        } else {
            let item = DirEntry { name: e.name.clone(), is_dir: false, is_git: false };
            assert(stands_for(files, dirs, d, item, ek.path@));
            match insert_by_name(&mut fl, item) {
                Some(p) => {
                    proof {
                        assert(fl@[p as int] == item);
                        assert forall|i: int| 0 <= i < fl@.len() implies !(#[trigger] fl@[i]).is_dir && entry_ok(files, dirs, d, fl@[i]) by {
                            if i == p {
                            } else if i < p {
                                assert(fl@[i] == ofl[i]);
                            } else {
                                assert(fl@[i] == ofl[i - 1]);
                            }
                        }
                        assert forall|j: int| 0 <= j < k + 1 && !(#[trigger] entries@[j]).is_dir
                            implies exists|i: int| 0 <= i < fl@.len() && #[trigger] fl@[i].name@ == entries@[j].name@ by {
                            if j == k {
                                assert(fl@[p as int].name@ == entries@[j].name@);
                            } else {
                                let i = choose|i: int| 0 <= i < ofl.len() && #[trigger] ofl[i].name@ == entries@[j].name@;
                                let ni = if i < p { i } else { i + 1 };
                                assert(fl@[ni] == ofl[i]);
                            }
                        }
                    }
                },
                None => {
                    proof {
                        assert(item.name@ == ek.name@);
                    }
                },
            }
        }
        k += 1;
    }
    let nd: usize = ds.len();
    let ghost dsv = ds@;
    let ghost flv = fl@;
    let mut out = ds;
    out.append(&mut fl);
    proof {
        assert(out@.take(nd as int) =~= dsv);
        assert(out@.skip(nd as int) =~= flv);
        assert forall|c: Seq<char>| dirs.contains(d) && dirs.contains(c) && c != d && parent_of(c) == Some(d)
            && !junk_name(leaf_of(c)) implies exists|q: int| 0 <= q < out@.len() && out@[q].is_dir && #[trigger] out@[q].name@ == leaf_of(c) by {
            assert(crate::fs::lists_dir(entries@, c));
            let j = choose|j: int| 0 <= j < entries@.len() && entries@[j].path@ == c && entries@[j].is_dir;
            assert(crate::fs::lists_child(entries@[j], d, files, dirs));
            let q = choose|q: int| 0 <= q < dsv.len() && #[trigger] dsv[q].name@ == entries@[j].name@;
            assert(out@[q] == dsv[q]);
        }
        assert forall|f: Seq<char>| dirs.contains(d) && files.contains_key(f) && parent_of(f) == Some(d)
            implies exists|q: int| 0 <= q < out@.len() && !out@[q].is_dir && #[trigger] out@[q].name@ == leaf_of(f) by {
            assert(crate::fs::lists_file(entries@, f));
            let j = choose|j: int| 0 <= j < entries@.len() && entries@[j].path@ == f && entries@[j].is_file;
            assert(crate::fs::lists_child(entries@[j], d, files, dirs));
            let q = choose|q: int| 0 <= q < flv.len() && #[trigger] flv[q].name@ == entries@[j].name@;
            assert(out@[nd + q] == flv[q]);
        }
        assert forall|q: int| 0 <= q < out@.len() implies #[trigger] entry_ok(files, dirs, d, out@[q]) by {
            if q < nd {
                assert(out@[q] == dsv[q]);
            } else {
                assert(out@[q] == flv[q - nd]);
            }
        }
        assert forall|q: int| 0 <= q < out@.len() implies (#[trigger] out@[q].is_dir <==> q < nd) by {
            if q < nd {
                assert(out@[q] == dsv[q]);
            } else {
                assert(out@[q] == flv[q - nd]);
            }
        }
        assert forall|i: int, j: int| 0 <= i < j < out@.len() && #[trigger] out@[i].is_dir == #[trigger] out@[j].is_dir
            implies out@[i].name@ != out@[j].name@ by {
            lemma_str_lt_order(out@[i].name@, out@[j].name@, out@[j].name@);
            if j < nd {
                assert(out@[i] == dsv[i] && out@[j] == dsv[j]);
            } else if i >= nd {
                assert(out@[i] == flv[i - nd] && out@[j] == flv[j - nd]);
            } else {
                assert(out@[i] == dsv[i] && out@[j] == flv[j - nd]);
            }
        }
    }
    out
}

} // verus!

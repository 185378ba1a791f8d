//! The snapshot store: one log file per source path, kept under the data
//! root's `history` directory through the filesystem seam, and the
//! git-presence gate that decides whether awl or git owns a file's history.
//! A file inside a git repository gets no awl snapshot, ever; its timeline
//! reads `git log` / `git show` output instead, which the caller runs and
//! hands in.

use vstd::prelude::*;
use vstd::utf8::encode_utf8;
use crate::fs::{
    FileSystem, FsError, join, join_of, leaf_of, parent, parent_of, lemma_parent_shorter, tmp_sibling_of,
};
use crate::history::codec::{
    Entry, EntryView, entries_view, parse_log_checked, parse_log_spec, serialize_log, serialized,
};
use crate::history::prune::{prune_ladder, retained, survivor_mask, survivors};
use crate::text::{decimal, fmt_u64, lines_of, parse_unsigned, str_eq, str_to_chars, trim};

verus! {

/// Now, as millis since the Unix epoch by the system clock (0 if the clock
/// reads before the epoch). Trusted: it calls `SystemTime::now`, and nothing
/// is stated of the value, which depends on the time.
#[verifier::external_body]
pub fn now_millis() -> (t: u64) {
    std::time::SystemTime::now().duration_since(std::time::UNIX_EPOCH).map(|d| d.as_millis() as u64).unwrap_or(0)
}

/// One point in a file's history: an opaque id that [`load`] resolves back
/// to content, and its time in millis. For an awl snapshot the id is the
/// millis stamp in decimal; for a git-backed entry it is the commit hash, and
/// the commit subject rides along.
#[derive(Debug, Clone, PartialEq, Eq)]
pub struct Snapshot {
    pub id: String,
    pub timestamp: u64,
    pub subject: Option<String>,
    pub pinned: bool,
    pub name: Option<String>,
}

// --- Log location --------------------------------------------------------------------

/// The FNV-1a offset basis.
pub const FNV_OFFSET: u64 = 0xcbf2_9ce4_8422_2325;

/// The FNV-1a prime.
pub const FNV_PRIME: u64 = 0x0000_0100_0000_01b3;

/// FNV-1a of `bytes`: stable across processes, so a file's log is found again
/// after a restart.
pub open spec fn fnv_spec(bytes: Seq<u8>) -> u64
    decreases bytes.len(),
{
    if bytes.len() == 0 {
        FNV_OFFSET
    } else {
        (fnv_spec(bytes.drop_last()) ^ (bytes.last() as u64)).wrapping_mul(FNV_PRIME)
    }
}

/// FNV-1a of the UTF-8 bytes of `s` ([`fnv_spec`]).
pub fn fnv1a(s: &str) -> (h: u64)
    ensures
        h == fnv_spec(encode_utf8(s@)),
{
    let b = s.as_bytes();
    let mut h: u64 = FNV_OFFSET;
    let mut i: usize = 0;
    while i < b.len()
        invariant
            0 <= i <= b@.len(),
            b@ == encode_utf8(s@),
            h == fnv_spec(b@.take(i as int)),
        decreases b.len() - i,
    {
        proof {
            assert(b@.take(i + 1).drop_last() =~= b@.take(i as int));
        }
        h = (h ^ (b[i] as u64)).wrapping_mul(FNV_PRIME);
        i += 1;
    }
    proof {
        assert(b@.take(b@.len() as int) =~= b@);
    }
    h
}

/// A lowercase hexadecimal digit for `d` (0..=15).
pub open spec fn hex_lower(d: nat) -> char {
    if d < 10 {
        ((d + 48) as u32) as char
    } else {
        ((d + 87) as u32) as char
    }
}

/// The last `width` hexadecimal digits of `n`, zero-padded (`{:0width$x}`
/// for a value that fits).
pub open spec fn hex_digits(n: nat, width: nat) -> Seq<char>
    decreases width,
{
    if width == 0 {
        seq![]
    } else {
        hex_digits(n / 16, (width - 1) as nat).push(hex_lower(n % 16))
    }
}

/// Sixteen to the power `k`.
pub open spec fn pow16(k: nat) -> nat
    decreases k,
{
    if k == 0 {
        1
    } else {
        16 * pow16((k - 1) as nat)
    }
}

proof fn lemma_pow16_pos(k: nat)
    ensures
        pow16(k) > 0,
    decreases k,
{
    if k > 0 {
        lemma_pow16_pos((k - 1) as nat);
    }
}

/// The `k + 1` last digits are the digit of weight `16^k` before the `k` last.
proof fn lemma_hex_digits_front(n: nat, k: nat)
    ensures
        hex_digits(n, k + 1) == seq![hex_lower((n / pow16(k)) % 16)] + hex_digits(n, k),
    decreases k,
{
    if k == 0 {
        assert(pow16(0) == 1);
        assert(n / 1 == n);
        assert(hex_digits(n / 16, 0) =~= Seq::<char>::empty());
        assert(hex_digits(n, 1) =~= seq![hex_lower(n % 16)]);
        assert(hex_digits(n, 0) =~= Seq::<char>::empty());
    } else {
        lemma_hex_digits_front(n / 16, (k - 1) as nat);
        lemma_pow16_pos((k - 1) as nat);
        vstd::arithmetic::div_mod::lemma_div_denominator(n as int, 16, pow16((k - 1) as nat) as int);
        assert((n / 16) / pow16((k - 1) as nat) == n / pow16(k));
        assert(hex_digits(n, k + 1) =~= seq![hex_lower((n / pow16(k)) % 16)] + hex_digits(n, k));
    }
}

fn push_hex16(out: &mut String, n: u64)
    ensures
        final(out)@ == old(out)@ + hex_digits(n as nat, 16),
{
    let mut digits: Vec<char> = Vec::new();
    let mut m: u64 = n;
    let mut k: usize = 0;
    proof {
        assert(digits@.reverse() =~= Seq::<char>::empty());
        assert(pow16(0) == 1);
        assert((n as nat) / 1 == n as nat);
    }
    while k < 16
        invariant
            0 <= k <= 16,
            digits@.len() == k,
            m as nat == (n as nat) / pow16(k as nat),
            hex_digits(n as nat, k as nat) == digits@.reverse(),
        decreases 16 - k,
    {
        let d: u64 = m % 16;
        let c: char = if d < 10 {
            ((d + 48) as u8) as char
        } else {
            ((d + 87) as u8) as char
        };
        proof {
            assert(c == hex_lower(d as nat));
        }
        let ghost before = digits@;
        digits.push(c);
        proof {
            lemma_hex_digits_front(n as nat, k as nat);
            assert(digits@.reverse() =~= seq![c] + before.reverse());
            lemma_pow16_pos(k as nat);
            vstd::arithmetic::div_mod::lemma_div_denominator(n as int, pow16(k as nat) as int, 16);
            assert(pow16((k + 1) as nat) == pow16(k as nat) * 16);
        }
        m = m / 16;
        k += 1;
    }
    let mut j: usize = 16;
    let ghost base = out@;
    while j > 0
        invariant
            0 <= j <= 16,
            digits@.len() == 16,
            out@ == base + digits@.reverse().take(16 - j),
        decreases j,
    {
        j -= 1;
        out.push(digits[j]);
        proof {
            assert(digits@.reverse().take(16 - j) =~= digits@.reverse().take(16 - j - 1).push(
                digits@[j as int],
            ));
        }
    }
    proof {
        assert(digits@.reverse().take(16) =~= digits@.reverse());
    }
}

/// Where the per-file logs live under the data root `data_root`.
pub open spec fn history_root_of(data_root: Seq<char>) -> Seq<char> {
    join_of(data_root, "history"@)
}

/// The log file of the source `path`: `<history root>/<fnv1a:016x>.log`.
pub open spec fn log_path_of(data_root: Seq<char>, path: Seq<char>) -> Seq<char> {
    join_of(
        history_root_of(data_root),
        hex_digits(fnv_spec(encode_utf8(path)) as nat, 16) + ".log"@,
    )
}

/// The directory the per-file logs live in ([`history_root_of`]).
pub fn history_root(data_root: &str) -> (r: String)
    ensures
        r@ == history_root_of(data_root@),
{
    join(data_root, "history")
}

/// The log file of `path` ([`log_path_of`]).
pub fn log_path(data_root: &str, path: &str) -> (r: String)
    ensures
        r@ == log_path_of(data_root@, path@),
{
    let root = history_root(data_root);
    let mut name = String::new();
    push_hex16(&mut name, fnv1a(path));
    crate::text::append_str(&mut name, ".log");
    proof {
        assert(name@ =~= hex_digits(fnv_spec(encode_utf8(path@)) as nat, 16) + ".log"@);
    }
    join(root.as_str(), name.as_str())
}

// --- The git-presence gate -------------------------------------------------------------

/// The nearest directory at or above `dir` that holds a `.git` directory.
pub open spec fn repo_root_from(dirs: Set<Seq<char>>, dir: Option<Seq<char>>) -> Option<Seq<char>>
    decreases (match dir {
        Some(d) => d.len() + 1,
        None => 0,
    }),
{
    match dir {
        None => None,
        Some(d) => {
            proof {
                lemma_parent_shorter(d);
            }
            if dirs.contains(join_of(d, ".git"@)) {
                Some(d)
            } else {
                repo_root_from(dirs, parent_of(d))
            }
        },
    }
}

/// The git repository root for `path`: the nearest ancestor directory that
/// holds a `.git` directory, or `None` when the file is loose.
pub fn git_repo_root<F: FileSystem>(fs: &F, path: &str) -> (r: Option<String>)
    ensures
        match repo_root_from(fs.dirs(), parent_of(path@)) {
            Some(d) => r matches Some(s) && s@ == d,
            None => r is None,
        },
{
    let mut cur = parent(path);
    loop
        invariant
            repo_root_from(fs.dirs(), parent_of(path@)) == repo_root_from(
                fs.dirs(),
                match cur {
                    Some(s) => Some(s@),
                    None => None,
                },
            ),
        decreases (match cur {
            Some(s) => s@.len() + 1,
            None => 0,
        }),
    {
        match cur {
            None => return None,
            Some(dir) => {
                let g = join(dir.as_str(), ".git");
                if fs.is_dir(g.as_str()) {
                    return Some(dir);
                }
                proof {
                    lemma_parent_shorter(dir@);
                }
                cur = parent(dir.as_str());
            },
        }
    }
}

/// Whether `path` lives inside a git repository.
pub fn is_git_managed<F: FileSystem>(fs: &F, path: &str) -> (r: bool)
    ensures
        r == repo_root_from(fs.dirs(), parent_of(path@)) is Some,
{
    git_repo_root(fs, path).is_some()
}


// --- Reading and writing a log -----------------------------------------------------------

/// The entries of the log at `lp` in `files`, parsed leniently (nothing for
/// a missing log).
pub open spec fn log_entries_of(files: Map<Seq<char>, Seq<u8>>, lp: Seq<char>) -> Seq<EntryView> {
    if files.contains_key(lp) {
        parse_log_spec(files[lp]).0
    } else {
        seq![]
    }
}

/// `fin` holds the same file at `lp` as `old` (or lacks it as `old` does).
pub open spec fn keeps_file(
    old: Map<Seq<char>, Seq<u8>>,
    fin: Map<Seq<char>, Seq<u8>>,
    lp: Seq<char>,
) -> bool {
    &&& old.contains_key(lp) <==> fin.contains_key(lp)
    &&& old.contains_key(lp) ==> fin[lp] == old[lp]
}

/// Where the untrusted bytes of the log `lp` are backed up when the clock
/// reads `t`: `<lp>.corrupt-<t>`.
pub open spec fn corrupt_path_of(lp: Seq<char>, t: u64) -> Seq<char> {
    lp + ".corrupt-"@ + decimal(t as nat)
}

/// Back up an untrusted log's bytes to a `.corrupt-<millis>` sibling, so the
/// next write of the log can never destroy content the parse did not reach.
/// The log itself is left as it is; on success the backup holds `bytes`, and
/// nothing else changes.
fn preserve_corrupt<F: FileSystem>(fs: &mut F, lp: &str, bytes: &[u8]) -> (r: Result<(), FsError>)
    ensures
        keeps_file(old(fs).files(), final(fs).files(), lp@),
        r is Ok ==> exists|t: u64| final(fs).files() == old(fs).files().insert(#[trigger] corrupt_path_of(lp@, t), bytes@),
        exists|t: u64| final(fs).files().remove(#[trigger] corrupt_path_of(lp@, t)) == old(fs).files().remove(corrupt_path_of(lp@, t)),
        final(fs).infallible() == old(fs).infallible(),
{
    let mut backup = String::new();
    crate::text::append_str(&mut backup, lp);
    crate::text::append_str(&mut backup, ".corrupt-");
    let t = now_millis();
    crate::text::push_decimal(&mut backup, t);
    proof {
        reveal_strlit(".corrupt-");
        assert(backup@ =~= corrupt_path_of(lp@, t));
        assert(backup@.len() > lp@.len());
    }
    let ghost before = fs.files();
    let w = fs.write(backup.as_str(), bytes);
    proof {
        assert(backup@ != lp@);
        let fin = fs.files();
        assert(fin.remove(backup@).contains_key(lp@) == fin.contains_key(lp@));
        assert(before.remove(backup@).contains_key(lp@) == before.contains_key(lp@));
        if before.contains_key(lp@) {
            assert(fin.remove(backup@)[lp@] == fin[lp@]);
            assert(before.remove(backup@)[lp@] == before[lp@]);
        }
    }
    w
}

/// Read the log of `path` newest first: a missing or unreadable log reads as
/// empty; a non-empty log that does not parse cleanly is first backed up
/// beside itself, and what parsed is returned.
pub fn read_log<F: FileSystem>(fs: &mut F, data_root: &str, path: &str) -> (r: Vec<Entry>)
    ensures
        entries_view(r@) == log_entries_of(old(fs).files(), log_path_of(data_root@, path@)),
        keeps_file(old(fs).files(), final(fs).files(), log_path_of(data_root@, path@)),
        exists|t: u64| final(fs).files().remove(#[trigger] corrupt_path_of(log_path_of(data_root@, path@), t))
            == old(fs).files().remove(corrupt_path_of(log_path_of(data_root@, path@), t)),
        final(fs).infallible() == old(fs).infallible(),
{
    let lp = log_path(data_root, path);
    proof {
        assert(fs.files().remove(corrupt_path_of(lp@, 0)) == old(fs).files().remove(corrupt_path_of(lp@, 0)));
    }
    match fs.read(lp.as_str()) {
        Err(_) => {
            let v: Vec<Entry> = Vec::new();
            proof {
                assert(entries_view(v@) =~= Seq::<EntryView>::empty());
            }
            v
        },
        Ok(bytes) => {
            let (entries, trusted) = parse_log_checked(bytes.as_slice());
            if !trusted && bytes.len() > 0 {
                let _ = preserve_corrupt(fs, lp.as_str(), bytes.as_slice());
            }
            entries
        },
    }
}

/// Write `entries` as the log of `path`, creating the history directory
/// first, atomically.
pub fn write_log<F: FileSystem>(fs: &mut F, data_root: &str, path: &str, entries: &[Entry]) -> (r: Result<(), FsError>)
    ensures
        r is Ok ==> final(fs).files().contains_key(log_path_of(data_root@, path@)),
        r is Ok ==> final(fs).files()[log_path_of(data_root@, path@)] == serialized(entries_view(entries@)),
        final(fs).files().remove(tmp_sibling_of(log_path_of(data_root@, path@))).remove(log_path_of(data_root@, path@))
            == old(fs).files().remove(tmp_sibling_of(log_path_of(data_root@, path@))).remove(log_path_of(data_root@, path@)),
        old(fs).infallible() ==> r is Ok,
        final(fs).infallible() == old(fs).infallible(),
{
    let lp = log_path(data_root, path);
    match parent(lp.as_str()) {
        Some(dir) => {
            let _ = fs.create_dir_all(dir.as_str());
        },
        None => {},
    }
    crate::fs::write_atomic(fs, lp.as_str(), serialize_log(entries).as_slice())
}


// --- Recording -------------------------------------------------------------------------

/// A kept version's name as recorded: trimmed, and none when blank.
pub open spec fn normalized_name(name: Option<Seq<char>>) -> Option<Seq<char>> {
    match name {
        Some(n) => if trim(n).len() > 0 {
            Some(trim(n))
        } else {
            None
        },
        None => None,
    }
}

/// The entries a prune at `now` keeps of `ev` (see the retention ladder).
pub open spec fn pruned(ev: Seq<EntryView>, now: u64) -> Seq<EntryView> {
    retained(
        ev,
        survivor_mask(ev.map_values(|e: EntryView| e.0), ev.map_values(|e: EntryView| e.2), now),
    )
}

/// What recording `content` at `now` does to a log holding `ev`: the
/// entries to write back, or `None` when nothing is written. An unchanged
/// newest version is not recorded again; a pin of it marks it (and names it,
/// when a new name is given) in place. Otherwise the new version goes first,
/// stamped `now` or one past the newest stamp, whichever is later, and the
/// ladder prunes.
pub open spec fn record_plan(
    ev: Seq<EntryView>,
    content: Seq<char>,
    now: u64,
    pinned: bool,
    name: Option<Seq<char>>,
) -> Option<Seq<EntryView>> {
    if ev.len() > 0 && ev[0].1 == content {
        let first = ev[0];
        let rename = name is Some && first.3 != name;
        if pinned && (!first.2 || rename) {
            let marked = (first.0, first.1, true, if rename { name } else { first.3 });
            Some(pruned(ev.update(0, marked), now))
        } else {
            None
        }
    } else {
        let ts = if ev.len() > 0 && now <= ev[0].0 {
            ev[0].0.wrapping_add(1)
        } else {
            now
        };
        Some(pruned(seq![(ts, content, pinned, name)] + ev, now))
    }
}

/// Recording again the text the newest snapshot already holds, as a plain
/// save, adds nothing: the log is left as it is.
pub proof fn lemma_unchanged_content_is_not_resnapshotted(ev: Seq<EntryView>, content: Seq<char>, now: u64)
    requires
        ev.len() > 0,
        ev[0].1 == content,
    ensures
        record_plan(ev, content, now, false, None) is None,
{
}

/// Keeping the text the newest snapshot already holds marks that snapshot
/// (pinned, and named when a new name is given) instead of adding one: the
/// log never grows.
pub proof fn lemma_keep_marks_in_place(ev: Seq<EntryView>, content: Seq<char>, now: u64, name: Option<Seq<char>>)
    requires
        ev.len() > 0,
        ev[0].1 == content,
    ensures
        record_plan(ev, content, now, true, name) matches Some(nv) ==> nv.len() <= ev.len(),
{
    let first = ev[0];
    let rename = name is Some && first.3 != name;
    let marked = (first.0, first.1, true, if rename { name } else { first.3 });
    let up = ev.update(0, marked);
    crate::history::prune::lemma_retained_len(up, survivor_mask(up.map_values(|e: EntryView| e.0), up.map_values(|e: EntryView| e.2), now));
}

/// LAW: keeping the version the newest snapshot already holds, with a name,
/// leaves that newest snapshot pinned and carrying the name: either the
/// plan writes back entries whose newest is that version, pinned and named,
/// or nothing needs writing because it is pinned and named so already.
pub proof fn lemma_named_keep_lands_its_name(ev: Seq<EntryView>, content: Seq<char>, now: u64, n: Seq<char>)
    requires
        ev.len() > 0,
        ev[0].1 == content,
    ensures
        match record_plan(ev, content, now, true, Some(n)) {
            Some(nv) => nv.len() > 0 && nv[0] == (ev[0].0, content, true, Some(n)),
            None => ev[0].2 && ev[0].3 == Some(n),
        },
{
    let first = ev[0];
    let rename = first.3 != Some(n);
    if !first.2 || rename {
        let up = ev.update(0, (first.0, first.1, true, if rename { Some(n) } else { first.3 }));
        let m = survivor_mask(up.map_values(|e: EntryView| e.0), up.map_values(|e: EntryView| e.2), now);
        assert(m[0]);
        assert(retained(up, m)[0] == up[0]);
    }
}

proof fn lemma_retained_storable(es: Seq<EntryView>, m: Seq<bool>)
    requires
        m.len() == es.len(),
        crate::history::codec::storable(es),
    ensures
        crate::history::codec::storable(retained(es, m)),
    decreases es.len(),
{
    if es.len() > 0 {
        lemma_retained_storable(es.drop_first(), m.drop_first());
        let head = if m[0] { seq![es[0]] } else { Seq::<EntryView>::empty() };
        let rest = retained(es.drop_first(), m.drop_first());
        assert(retained(es, m) == head + rest);
        assert forall|k: int| 0 <= k < (head + rest).len() implies (#[trigger] (head + rest)[k]).3.unwrap_or(seq!['x']).len()
            > 0 && crate::text::utf8_len((head + rest)[k].1) <= usize::MAX by {
            if k < head.len() {
                assert((head + rest)[k] == es[0]);
            } else {
                assert((head + rest)[k] == rest[k - head.len()]);
            }
        }
    }
}

/// What a read gives back of a write: once recording `content` for `path`
/// has succeeded where awl owns the file's history, the newest snapshot the
/// log gives back holds `content` (a log of storable entries, and a content
/// whose UTF-8 length is a `usize`).
pub proof fn lemma_recorded_content_reads_back(
    f0: Map<Seq<char>, Seq<u8>>,
    d0: Set<Seq<char>>,
    f1: Map<Seq<char>, Seq<u8>>,
    data_root: Seq<char>,
    path: Seq<char>,
    content: Seq<char>,
    history_on: bool,
    now: u64,
    pinned: bool,
    name: Option<Seq<char>>,
)
    requires
        awl_owns(d0, path, history_on),
        record_outcome(f0, d0, f1, data_root, path, content, history_on, now, pinned, name, Ok(())),
        crate::history::codec::storable(log_entries_of(f0, log_path_of(data_root, path))),
        crate::text::utf8_len(content) <= usize::MAX,
    ensures
        log_entries_of(f1, log_path_of(data_root, path)).len() > 0,
        log_entries_of(f1, log_path_of(data_root, path))[0].1 == content,
{
    let lp = log_path_of(data_root, path);
    let ev = log_entries_of(f0, lp);
    let nm = normalized_name(name);
    match record_plan(ev, content, now, pinned, nm) {
        None => {},
        Some(nv) => {
            let x = if ev.len() > 0 && ev[0].1 == content {
                let first = ev[0];
                let rename = nm is Some && first.3 != nm;
                ev.update(0, (first.0, first.1, true, if rename { nm } else { first.3 }))
            } else {
                let ts = if ev.len() > 0 && now <= ev[0].0 {
                    ev[0].0.wrapping_add(1)
                } else {
                    now
                };
                seq![(ts, content, pinned, nm)] + ev
            };
            let m = survivor_mask(x.map_values(|e: EntryView| e.0), x.map_values(|e: EntryView| e.2), now);
            assert(nv == retained(x, m));
            assert(x.len() > 0 && x[0].1 == content);
            assert(m[0]);
            assert(retained(x, m)[0] == x[0]);
            assert(crate::history::codec::storable(x)) by {
                assert forall|k: int| 0 <= k < x.len() implies (#[trigger] x[k]).3.unwrap_or(seq!['x']).len() > 0
                    && crate::text::utf8_len(x[k].1) <= usize::MAX by {
                    if !(ev.len() > 0 && ev[0].1 == content) && k > 0 {
                        assert(x[k] == ev[k - 1]);
                    }
                }
            }
            lemma_retained_storable(x, m);
            crate::history::codec::lemma_log_round_trips(nv);
        },
    }
}

proof fn lemma_prune_views(es: Seq<Entry>, now: u64)
    ensures
        entries_view(retained(es, survivors(es, now))) == pruned(entries_view(es), now),
{
    let ev = entries_view(es);
    assert(crate::history::prune::stamps(es) =~= ev.map_values(|e: EntryView| e.0));
    assert(crate::history::prune::pins(es) =~= ev.map_values(|e: EntryView| e.2));
    lemma_retained_view(es, survivors(es, now));
}

proof fn lemma_retained_view(es: Seq<Entry>, m: Seq<bool>)
    requires
        m.len() == es.len(),
    ensures
        entries_view(retained(es, m)) == retained(entries_view(es), m),
    decreases es.len(),
{
    if es.len() > 0 {
        lemma_retained_view(es.drop_first(), m.drop_first());
        assert(entries_view(es).drop_first() =~= entries_view(es.drop_first()));
        assert(entries_view(retained(es, m)) =~= retained(entries_view(es), m));
    } else {
        assert(entries_view(retained(es, m)) =~= Seq::<EntryView>::empty());
    }
}

fn opt_str_eq(a: &Option<String>, b: &Option<String>) -> (r: bool)
    ensures
        r == (crate::history::codec::opt_chars(*a) == crate::history::codec::opt_chars(*b)),
{
    match (a, b) {
        (Some(x), Some(y)) => str_eq(x.as_str(), y.as_str()),
        (None, None) => true,
        _ => false,
    }
}

fn normalize_name(name: Option<&str>) -> (r: Option<String>)
    ensures
        crate::history::codec::opt_chars(r) == normalized_name(match name {
            Some(n) => Some(n@),
            None => None,
        }),
{
    match name {
        None => None,
        Some(n) => {
            let v = str_to_chars(n);
            let (a, b) = crate::text::trim_range(&v, 0, v.len());
            proof {
                assert(v@.subrange(0, v@.len() as int) =~= v@);
            }
            if a == b {
                None
            } else {
                Some(crate::text::string_of(&v, a, b))
            }
        },
    }
}

/// The entries to write back after recording `content` ([`record_plan`]).
pub fn record_entries(
    entries: Vec<Entry>,
    content: &str,
    now_ms: u64,
    pinned: bool,
    name: Option<String>,
) -> (r: Option<Vec<Entry>>)
    ensures
        match record_plan(entries_view(entries@), content@, now_ms, pinned, crate::history::codec::opt_chars(name)) {
            None => r is None,
            Some(ev) => r matches Some(v) && entries_view(v@) == ev,
        },
{
    let mut entries = entries;
    let ghost ev = entries_view(entries@);
    if entries.len() > 0 && str_eq(entries[0].content.as_str(), content) {
        let rename = name.is_some() && !opt_str_eq(&entries[0].name, &name);
        if pinned && (!entries[0].pinned || rename) {
            let mut first = entries.remove(0);
            first.pinned = true;
            if rename {
                first.name = name;
            }
            entries.insert(0, first);
            proof {
                assert(entries_view(entries@) =~= ev.update(0, entries@[0]@));
            }
            let ghost before = entries@;
            prune_ladder(&mut entries, now_ms);
            proof {
                lemma_prune_views(before, now_ms);
            }
            return Some(entries);
        }
        return None;
    }
    let mut ts: u64 = now_ms;
    if entries.len() > 0 && now_ms <= entries[0].ts {
        ts = entries[0].ts.wrapping_add(1);
    }
    let mut c = String::new();
    crate::text::append_str(&mut c, content);
    entries.insert(0, Entry { ts, content: c, pinned, name });
    proof {
        assert(entries_view(entries@) =~= seq![entries@[0]@] + ev);
    }
    let ghost before = entries@;
    prune_ladder(&mut entries, now_ms);
    proof {
        lemma_prune_views(before, now_ms);
    }
    Some(entries)
}

/// Whether awl keeps snapshots of `path`: history is on and no git
/// repository holds the file.
pub open spec fn awl_owns(dirs: Set<Seq<char>>, path: Seq<char>, history_on: bool) -> bool {
    history_on && repo_root_from(dirs, parent_of(path)) is None
}

/// What recording `content` for `path` at `now` leaves behind, from the
/// files and directories before (`f0`, `d0`) to the files after (`f1`),
/// with the outcome `r`: nothing changes when history is off or the file is
/// git-managed; otherwise [`record_plan`] decides, and its entries, when it
/// has any, are what the log holds once the write succeeded.
pub open spec fn record_outcome(
    f0: Map<Seq<char>, Seq<u8>>,
    d0: Set<Seq<char>>,
    f1: Map<Seq<char>, Seq<u8>>,
    data_root: Seq<char>,
    path: Seq<char>,
    content: Seq<char>,
    history_on: bool,
    now: u64,
    pinned: bool,
    name: Option<Seq<char>>,
    r: Result<(), FsError>,
) -> bool {
    let lp = log_path_of(data_root, path);
    if !awl_owns(d0, path, history_on) {
        r is Ok && f1 == f0
    } else {
        match record_plan(log_entries_of(f0, lp), content, now, pinned, normalized_name(name)) {
            None => r is Ok && keeps_file(f0, f1, lp),
            Some(ev) => r is Ok ==> f1.contains_key(lp) && f1[lp] == serialized(ev),
        }
    }
}

/// `f1` holds the same files as `f0` but for the log `lp`, its temporary
/// sibling, and one `.corrupt-` backup beside it.
pub open spec fn log_frame(f0: Map<Seq<char>, Seq<u8>>, f1: Map<Seq<char>, Seq<u8>>, lp: Seq<char>) -> bool {
    exists|t: u64|
        f1.remove(lp).remove(tmp_sibling_of(lp)).remove(#[trigger] corrupt_path_of(lp, t)) == f0.remove(lp).remove(
            tmp_sibling_of(lp),
        ).remove(corrupt_path_of(lp, t))
}

proof fn lemma_log_frame(
    f0: Map<Seq<char>, Seq<u8>>,
    f1: Map<Seq<char>, Seq<u8>>,
    f2: Map<Seq<char>, Seq<u8>>,
    lp: Seq<char>,
    t: u64,
)
    requires
        f1.remove(corrupt_path_of(lp, t)) == f0.remove(corrupt_path_of(lp, t)),
        f2.remove(tmp_sibling_of(lp)).remove(lp) == f1.remove(tmp_sibling_of(lp)).remove(lp),
    ensures
        log_frame(f0, f2, lp),
{
    let c = corrupt_path_of(lp, t);
    let tmp = tmp_sibling_of(lp);
    let a = f2.remove(lp).remove(tmp).remove(c);
    let b = f0.remove(lp).remove(tmp).remove(c);
    assert forall|k: Seq<char>| #[trigger] a.contains_key(k) <==> b.contains_key(k) by {
        if k != lp && k != tmp && k != c {
            assert(f1.remove(c).contains_key(k) == f0.remove(c).contains_key(k));
            assert(f2.remove(tmp).remove(lp).contains_key(k) == f1.remove(tmp).remove(lp).contains_key(k));
        }
    }
    assert forall|k: Seq<char>| #[trigger] a.contains_key(k) implies a[k] == b[k] by {
        assert(f1.remove(c)[k] == f0.remove(c)[k]);
        assert(f2.remove(tmp).remove(lp)[k] == f1.remove(tmp).remove(lp)[k]);
    }
    assert(a =~= b);
}

/// Record a snapshot of `content` for `path` at `now_ms`, pinned (kept)
/// and optionally named when asked ([`record_outcome`]). Nothing happens
/// when history is off or the file is git-managed. Otherwise the log is
/// read, [`record_plan`] decides, and the new entries (if any) are written
/// back.
pub fn record_at<F: FileSystem>(
    fs: &mut F,
    data_root: &str,
    path: &str,
    content: &str,
    history_on: bool,
    now_ms: u64,
    pinned: bool,
    name: Option<&str>,
) -> (r: Result<(), FsError>)
    ensures
        !awl_owns(old(fs).dirs(), path@, history_on) ==> final(fs).dirs() == old(fs).dirs(),
        record_outcome(
            old(fs).files(),
            old(fs).dirs(),
            final(fs).files(),
            data_root@,
            path@,
            content@,
            history_on,
            now_ms,
            pinned,
            match name {
                Some(n) => Some(n@),
                None => None,
            },
            r,
        ),
        log_frame(old(fs).files(), final(fs).files(), log_path_of(data_root@, path@)),
        old(fs).infallible() ==> r is Ok,
        final(fs).infallible() == old(fs).infallible(),
{
    let ghost f0 = fs.files();
    let ghost lp = log_path_of(data_root@, path@);
    proof {
        lemma_log_frame(f0, f0, f0, lp, 0);
    }
    if !history_on {
        return Ok(());
    }
    if is_git_managed(fs, path) {
        return Ok(());
    }
    let nm = normalize_name(name);
    let entries = read_log(fs, data_root, path);
    let ghost f1 = fs.files();
    let ghost t = choose|t: u64| f1.remove(#[trigger] corrupt_path_of(lp, t)) == f0.remove(corrupt_path_of(lp, t));
    match record_entries(entries, content, now_ms, pinned, nm) {
        None => {
            proof {
                lemma_log_frame(f0, f1, f1, lp, t);
            }
            Ok(())
        },
        Some(next) => {
            let r = write_log(fs, data_root, path, next.as_slice());
            proof {
                lemma_log_frame(f0, f1, fs.files(), lp, t);
            }
            r
        },
    }
}

/// The save hook: record `content` for `path` at the current time.
pub fn record<F: FileSystem>(fs: &mut F, data_root: &str, path: &str, content: &str, history_on: bool) -> (r: Result<(), FsError>)
    ensures
        !awl_owns(old(fs).dirs(), path@, history_on) ==> r is Ok && final(fs).files() == old(
            fs,
        ).files() && final(fs).dirs() == old(fs).dirs(),
        exists|t: u64|
            #[trigger] record_outcome(
                old(fs).files(),
                old(fs).dirs(),
                final(fs).files(),
                data_root@,
                path@,
                content@,
                history_on,
                t,
                false,
                None,
                r,
            ),
        log_frame(old(fs).files(), final(fs).files(), log_path_of(data_root@, path@)),
        old(fs).infallible() ==> r is Ok,
        final(fs).infallible() == old(fs).infallible(),
{
    let now = now_millis();
    record_at(fs, data_root, path, content, history_on, now, false, None)
}

/// Keep a version: record `content` for `path` at the current time as a
/// pinned snapshot, named when `name` is given.
pub fn record_pinned<F: FileSystem>(
    fs: &mut F,
    data_root: &str,
    path: &str,
    content: &str,
    history_on: bool,
    name: Option<&str>,
) -> (r: Result<(), FsError>)
    ensures
        !awl_owns(old(fs).dirs(), path@, history_on) ==> r is Ok && final(fs).files() == old(
            fs,
        ).files() && final(fs).dirs() == old(fs).dirs(),
        exists|t: u64|
            #[trigger] record_outcome(
                old(fs).files(),
                old(fs).dirs(),
                final(fs).files(),
                data_root@,
                path@,
                content@,
                history_on,
                t,
                true,
                crate::text::opt_str(name),
                r,
            ),
        log_frame(old(fs).files(), final(fs).files(), log_path_of(data_root@, path@)),
        old(fs).infallible() ==> r is Ok,
        final(fs).infallible() == old(fs).infallible(),
{
    let now = now_millis();
    record_at(fs, data_root, path, content, history_on, now, true, name)
}


// --- Reading back ----------------------------------------------------------------------

/// A snapshot as plain values: id, millis, subject, pinned, name.
pub type SnapshotView = (Seq<char>, u64, Option<Seq<char>>, bool, Option<Seq<char>>);

impl View for Snapshot {
    type V = SnapshotView;

    open spec fn view(&self) -> SnapshotView {
        (
            self.id@,
            self.timestamp,
            crate::history::codec::opt_chars(self.subject),
            self.pinned,
            crate::history::codec::opt_chars(self.name),
        )
    }
}

/// A list of snapshots as plain values.
pub open spec fn snapshots_view(s: Seq<Snapshot>) -> Seq<SnapshotView> {
    s.map_values(|x: Snapshot| x@)
}

/// The three fields of a `git log --format=%H %ct %s` line: the text before
/// the first space, the text up to the next space, and the rest (absent
/// when there is no second space); `None` without any space.
pub open spec fn git_fields(line: Seq<char>) -> Option<(Seq<char>, Seq<char>, Option<Seq<char>>)> {
    let a = crate::text::first_index_of(line, ' ', 0);
    if a >= line.len() {
        None
    } else {
        let rest = line.skip(a + 1);
        let b = crate::text::first_index_of(rest, ' ', 0);
        let subject = if b < rest.len() {
            Some(rest.skip(b + 1))
        } else {
            None
        };
        Some((line.take(a), rest.take(b), subject))
    }
}

/// The commit seconds of a git log line, when it has a hash and parseable
/// seconds.
pub open spec fn git_line_secs(line: Seq<char>) -> Option<nat> {
    match git_fields(line) {
        Some((hash, secs, _)) => if hash.len() > 0 {
            parse_unsigned(secs, u64::MAX as nat)
        } else {
            None
        },
        None => None,
    }
}

/// The commit time of a git log line, in millis, fits a `u64`.
pub open spec fn git_line_fits(line: Seq<char>) -> bool {
    match git_line_secs(line) {
        Some(s) => s * 1000 <= u64::MAX,
        None => true,
    }
}

/// The snapshot a git log line stands for: the hash as id, the commit
/// seconds scaled to millis, the trimmed subject (none when empty); `None`
/// for a malformed line.
pub open spec fn git_line_snapshot(line: Seq<char>) -> Option<SnapshotView> {
    match git_fields(line) {
        Some((hash, _, subject)) => match git_line_secs(line) {
            Some(secs) => Some(
                (
                    hash,
                    (secs * 1000) as u64,
                    match subject {
                        Some(s) => if trim(s).len() > 0 {
                            Some(trim(s))
                        } else {
                            None
                        },
                        None => None,
                    },
                    false,
                    None,
                ),
            ),
            None => None,
        },
        None => None,
    }
}

/// The snapshots of the git log lines `ls`, malformed lines skipped.
pub open spec fn git_snapshots(ls: Seq<Seq<char>>) -> Seq<SnapshotView>
    decreases ls.len(),
{
    if ls.len() == 0 {
        seq![]
    } else {
        (match git_line_snapshot(ls[0]) {
            Some(s) => seq![s],
            None => seq![],
        }) + git_snapshots(ls.drop_first())
    }
}

/// Parse one `git log --format=%H %ct %s` line ([`git_line_snapshot`]).
pub fn parse_git_log_line(line: &str) -> (r: Option<Snapshot>)
    requires
        git_line_fits(line@),
    ensures
        match git_line_snapshot(line@) {
            Some(s) => r matches Some(x) && x@ == s,
            None => r is None,
        },
{
    let v = str_to_chars(line);
    let n: usize = v.len();
    let a: usize = crate::text::find_in_range(&v, ' ', 0, n);
    proof {
        assert(v@.subrange(0, n as int) =~= v@);
    }
    if a == n || a == 0 {
        return None;
    }
    let b: usize = crate::text::find_in_range(&v, ' ', a + 1, n);
    proof {
        let rest = v@.skip(a + 1);
        assert(v@.subrange(a + 1, n as int) =~= rest);
        assert(rest.take(b - a - 1) =~= v@.subrange(a + 1, b as int));
        if b < n {
            assert(rest.skip(b - a) =~= v@.subrange(b + 1, n as int));
        }
    }
    let secs = match crate::text::parse_unsigned_range(&v, a + 1, b, u64::MAX) {
        Some(s) => s,
        None => return None,
    };
    let hash = crate::text::string_of(&v, 0, a);
    let mut subject: Option<String> = None;
    if b < n {
        let (sa, sb) = crate::text::trim_range(&v, b + 1, n);
        if sa < sb {
            subject = Some(crate::text::string_of(&v, sa, sb));
        }
    }
    proof {
        assert(hash@ =~= v@.take(a as int));
    }
    Some(Snapshot { id: hash, timestamp: secs * 1000, subject, pinned: false, name: None })
}

/// The snapshot list of an awl log's entries, ids the decimal stamps.
pub open spec fn awl_snapshots(ev: Seq<EntryView>) -> Seq<SnapshotView> {
    ev.map_values(|e: EntryView| (decimal(e.0 as nat), e.0, None::<Seq<char>>, e.2, e.3))
}

/// List a file's history, newest first. For a git-managed file whose
/// `git log` output is at hand (`git_log`), its lines are the history;
/// otherwise the awl log is read.
pub fn list<F: FileSystem>(fs: &mut F, data_root: &str, path: &str, git_log: Option<&str>) -> (r: Vec<Snapshot>)
    requires
        git_log matches Some(t) ==> forall|k: int|
            0 <= k < lines_of(t@).len() ==> git_line_fits(#[trigger] lines_of(t@)[k]),
    ensures
        repo_root_from(old(fs).dirs(), parent_of(path@)) is Some && git_log is Some ==> snapshots_view(r@)
            == git_snapshots(lines_of(git_log.unwrap()@)),
        !(repo_root_from(old(fs).dirs(), parent_of(path@)) is Some && git_log is Some) ==> snapshots_view(r@)
            == awl_snapshots(log_entries_of(old(fs).files(), log_path_of(data_root@, path@))),
        keeps_file(old(fs).files(), final(fs).files(), log_path_of(data_root@, path@)),
{
    if is_git_managed(fs, path) {
        match git_log {
            Some(text) => return git_list_from(text),
            None => {},
        }
    }
    let entries = read_log(fs, data_root, path);
    let mut out: Vec<Snapshot> = Vec::new();
    let mut i: usize = 0;
    while i < entries.len()
        invariant
            0 <= i <= entries@.len(),
            snapshots_view(out@) == awl_snapshots(entries_view(entries@)).take(i as int),
        decreases entries.len() - i,
    {
        let e = &entries[i];
        let s = Snapshot {
            id: fmt_u64(e.ts),
            timestamp: e.ts,
            subject: None,
            pinned: e.pinned,
            name: clone_opt_string(&e.name),
        };
        let ghost before = out@;
        out.push(s);
        proof {
            let ev = entries_view(entries@);
            assert(ev[i as int] == entries@[i as int]@);
            assert(s@ == awl_snapshots(ev)[i as int]);
            assert(snapshots_view(out@) =~= snapshots_view(before).push(s@));
            assert(awl_snapshots(ev).take(i + 1) =~= awl_snapshots(ev).take(i as int).push(
                awl_snapshots(ev)[i as int],
            ));
        }
        i += 1;
    }
    proof {
        assert(awl_snapshots(entries_view(entries@)).take(entries@.len() as int) =~= awl_snapshots(
            entries_view(entries@),
        ));
    }
    out
}

fn clone_opt_string(o: &Option<String>) -> (r: Option<String>)
    ensures
        crate::history::codec::opt_chars(r) == crate::history::codec::opt_chars(*o),
{
    match o {
        Some(s) => Some(s.clone()),
        None => None,
    }
}

fn git_list_from(text: &str) -> (r: Vec<Snapshot>)
    requires
        forall|k: int| 0 <= k < lines_of(text@).len() ==> git_line_fits(#[trigger] lines_of(text@)[k]),
    ensures
        snapshots_view(r@) == git_snapshots(lines_of(text@)),
{
    let v = str_to_chars(text);
    let ls = crate::text::line_ranges(&v);
    let ghost lines = lines_of(v@);
    let mut out: Vec<Snapshot> = Vec::new();
    let mut i: usize = 0;
    proof {
        assert(lines.skip(0) =~= lines);
    }
    while i < ls.len()
        invariant
            0 <= i <= ls@.len(),
            ls@.len() == lines.len(),
            lines == lines_of(v@),
            v@ == text@,
            crate::text::ranges_spell(v@, ls@, lines),
            forall|k: int| 0 <= k < lines.len() ==> git_line_fits(#[trigger] lines[k]),
            snapshots_view(out@) + git_snapshots(lines.skip(i as int)) == git_snapshots(lines),
        decreases ls.len() - i,
    {
        proof {
            assert(crate::text::range_spells(v@, ls@[i as int], lines[i as int]));
        }
        let line = crate::text::string_of(&v, ls[i].0, ls[i].1);
        proof {
            assert(lines.skip(i as int).drop_first() =~= lines.skip(i + 1));
            assert(lines.skip(i as int)[0] == lines[i as int]);
        }
        let ghost before = snapshots_view(out@);
        match parse_git_log_line(line.as_str()) {
            Some(s) => {
                out.push(s);
                proof {
                    assert(snapshots_view(out@) =~= before.push(s@));
                    assert(snapshots_view(out@) + git_snapshots(lines.skip(i + 1)) =~= before
                        + git_snapshots(lines.skip(i as int)));
                }
            },
            None => {
                proof {
                    assert(before + git_snapshots(lines.skip(i + 1)) =~= before + git_snapshots(
                        lines.skip(i as int),
                    ));
                }
            },
        }
        i += 1;
    }
    proof {
        assert(lines.skip(ls@.len() as int) =~= Seq::<Seq<char>>::empty());
        assert(snapshots_view(out@) + Seq::<SnapshotView>::empty() =~= snapshots_view(out@));
    }
    out
}

/// The content of the newest awl entry whose decimal stamp is `id`.
pub open spec fn content_with_id(ev: Seq<EntryView>, id: Seq<char>) -> Option<Seq<char>>
    decreases ev.len(),
{
    if ev.len() == 0 {
        None
    } else if decimal(ev[0].0 as nat) == id {
        Some(ev[0].1)
    } else {
        content_with_id(ev.drop_first(), id)
    }
}

/// LAW: record, then list, then load: once recording `content` for `path`
/// has succeeded where awl owns the file's history, the newest snapshot the
/// list gives ([`awl_snapshots`]) loads back `content`
/// ([`content_with_id`]); the same conditions as
/// [`lemma_recorded_content_reads_back`].
pub proof fn lemma_recorded_version_loads(
    f0: Map<Seq<char>, Seq<u8>>,
    d0: Set<Seq<char>>,
    f1: Map<Seq<char>, Seq<u8>>,
    data_root: Seq<char>,
    path: Seq<char>,
    content: Seq<char>,
    history_on: bool,
    now: u64,
    pinned: bool,
    name: Option<Seq<char>>,
)
    requires
        awl_owns(d0, path, history_on),
        record_outcome(f0, d0, f1, data_root, path, content, history_on, now, pinned, name, Ok(())),
        crate::history::codec::storable(log_entries_of(f0, log_path_of(data_root, path))),
        crate::text::utf8_len(content) <= usize::MAX,
    ensures
        awl_snapshots(log_entries_of(f1, log_path_of(data_root, path))).len() > 0,
        content_with_id(
            log_entries_of(f1, log_path_of(data_root, path)),
            awl_snapshots(log_entries_of(f1, log_path_of(data_root, path)))[0].0,
        ) == Some(content),
{
    lemma_recorded_content_reads_back(f0, d0, f1, data_root, path, content, history_on, now, pinned, name);
}

/// Load the content of one snapshot (`id` from [`list`]). For a
/// git-managed file whose `git show` output is at hand (`git_show`), that
/// output is the content; otherwise the awl log's entry with that id.
pub fn load<F: FileSystem>(fs: &mut F, data_root: &str, path: &str, id: &str, git_show: Option<String>) -> (r: Option<String>)
    ensures
        repo_root_from(old(fs).dirs(), parent_of(path@)) is Some && git_show is Some ==> r == git_show,
        !(repo_root_from(old(fs).dirs(), parent_of(path@)) is Some && git_show is Some) ==> crate::history::codec::opt_chars(r)
            == content_with_id(log_entries_of(old(fs).files(), log_path_of(data_root@, path@)), id@),
        keeps_file(old(fs).files(), final(fs).files(), log_path_of(data_root@, path@)),
{
    if is_git_managed(fs, path) {
        if git_show.is_some() {
            return git_show;
        }
    }
    let ghost gate = repo_root_from(old(fs).dirs(), parent_of(path@)) is Some && git_show is Some;
    let entries = read_log(fs, data_root, path);
    let ghost ev = entries_view(entries@);
    let mut i: usize = 0;
    proof {
        assert(ev.skip(0) =~= ev);
    }
    while i < entries.len()
        invariant
            0 <= i <= entries@.len(),
            !gate,
            gate == (repo_root_from(old(fs).dirs(), parent_of(path@)) is Some && git_show is Some),
            ev == entries_view(entries@),
            ev == log_entries_of(old(fs).files(), log_path_of(data_root@, path@)),
            keeps_file(old(fs).files(), fs.files(), log_path_of(data_root@, path@)),
            content_with_id(ev, id@) == content_with_id(ev.skip(i as int), id@),
        decreases entries.len() - i,
    {
        proof {
            assert(ev.skip(i as int).drop_first() =~= ev.skip(i + 1));
        }
        let s = fmt_u64(entries[i].ts);
        if str_eq(s.as_str(), id) {
            proof {
                assert(ev.skip(i as int)[0] == ev[i as int]);
            }
            return Some(entries[i].content.clone());
        }
        i += 1;
    }
    None
}

/// Move the log of `old_path` to follow the file to `new_path`. Nothing to
/// do when the paths are equal or nothing was recorded yet.
pub fn rename<F: FileSystem>(fs: &mut F, data_root: &str, old_path: &str, new_path: &str) -> (r: Result<(), FsError>)
    ensures
        old_path@ == new_path@ || !old(fs).files().contains_key(log_path_of(data_root@, old_path@))
            && !old(fs).dirs().contains(log_path_of(data_root@, old_path@)) ==> r is Ok && final(fs).files()
            == old(fs).files(),
        r is Ok && old_path@ != new_path@ && old(fs).files().contains_key(log_path_of(data_root@, old_path@))
            ==> final(fs).files() == old(fs).files().remove(log_path_of(data_root@, old_path@)).insert(
            log_path_of(data_root@, new_path@),
            old(fs).files()[log_path_of(data_root@, old_path@)],
        ),
        final(fs).files().remove(log_path_of(data_root@, old_path@)).remove(log_path_of(data_root@, new_path@))
            == old(fs).files().remove(log_path_of(data_root@, old_path@)).remove(log_path_of(data_root@, new_path@)),
        old(fs).infallible() && (old(fs).files().contains_key(log_path_of(data_root@, old_path@)) || !old(
            fs,
        ).dirs().contains(log_path_of(data_root@, old_path@))) ==> r is Ok,
        final(fs).infallible() == old(fs).infallible(),
{
    if str_eq(old_path, new_path) {
        return Ok(());
    }
    let old_log = log_path(data_root, old_path);
    if !fs.path_exists(old_log.as_str()) {
        return Ok(());
    }
    let new_log = log_path(data_root, new_path);
    fs.rename(old_log.as_str(), new_log.as_str())
}

} // verus!

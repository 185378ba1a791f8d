//! Subsequence fuzzy matching and ranking for the go-to overlay.
//!
//! A query matches a candidate when its characters appear in order (not
//! necessarily contiguous) somewhere in the candidate, compared after Unicode
//! lowercasing. Matching is greedy and leftmost: each query character takes the
//! first candidate position after the previous match. The score rewards each
//! matched character, contiguous runs, and matches at a word boundary, then
//! penalizes a sprawling span and a late start. A tier bias is added on top so
//! open buffers rank above recent files, which rank above the rest.

use vstd::prelude::*;
use crate::text::{first_index_of, lemma_first_index_of, str_to_chars};

verus! {

/// Where a candidate sits in the ranking hierarchy.
#[derive(Debug, Clone, Copy, PartialEq, Eq, Structural)]
pub enum Tier {
    /// A buffer currently open. Ranked highest.
    Open,
    /// A recently opened file that is not open now.
    Recent,
    /// A plain file from the index.
    Corpus,
}

/// The constant a tier adds to a candidate's textual score.
pub open spec fn tier_bias(t: Tier) -> int {
    match t {
        Tier::Open => 1_000_000,
        Tier::Recent => 500_000,
        Tier::Corpus => 0,
    }
}

impl Tier {
    fn bias(self) -> (b: i64)
        ensures
            b == tier_bias(self),
    {
        match self {
            Tier::Open => 1_000_000,
            Tier::Recent => 500_000,
            Tier::Corpus => 0,
        }
    }
}

// --- Unicode case, from the standard library -----------------------------------

/// The characters `char::to_lowercase` yields for `c`.
pub uninterp spec fn lowercase_of(c: char) -> Seq<char>;

/// What `char::is_lowercase` answers for `c`.
pub uninterp spec fn lowercase_property(c: char) -> bool;

/// What `char::is_uppercase` answers for `c`.
pub uninterp spec fn uppercase_property(c: char) -> bool;

/// `char::to_lowercase`, collected. Trusted: the result is [`lowercase_of`]
/// `c`; it holds at least one character (the mapping yields "one or more
/// chars"), and an ASCII character maps to its ASCII lower case alone.
/// Which characters the Unicode tables give beyond ASCII is left to the name.
#[verifier::external_body]
fn lowercase_chars(c: char) -> (r: Vec<char>)
    ensures
        r@ == lowercase_of(c),
        r@.len() >= 1,
        c <= '\u{7f}' ==> r@ == seq![crate::text::ascii_lower(c)],
{
    c.to_lowercase().collect()
}

/// `char::is_lowercase`. Trusted: the result is [`lowercase_property`] of
/// `c`; among ASCII characters exactly `a..=z` have the property. The
/// property beyond ASCII is left to the name.
#[verifier::external_body]
fn char_is_lowercase(c: char) -> (r: bool)
    ensures
        r == lowercase_property(c),
        c <= '\u{7f}' ==> r == ('a' <= c && c <= 'z'),
{
    c.is_lowercase()
}

/// `char::is_uppercase`. Trusted: the result is [`uppercase_property`] of
/// `c`; among ASCII characters exactly `A..=Z` have the property. The
/// property beyond ASCII is left to the name.
#[verifier::external_body]
fn char_is_uppercase(c: char) -> (r: bool)
    ensures
        r == uppercase_property(c),
        c <= '\u{7f}' ==> r == ('A' <= c && c <= 'Z'),
{
    c.is_uppercase()
}

/// `s` with every character replaced by its lowercase mapping.
pub open spec fn lower_all(s: Seq<char>) -> Seq<char>
    decreases s.len(),
{
    if s.len() == 0 {
        seq![]
    } else {
        lower_all(s.drop_last()) + lowercase_of(s.last())
    }
}

/// The lowercase flags of `s`, one per character.
pub open spec fn lower_flags(s: Seq<char>) -> Seq<bool> {
    s.map_values(|c: char| lowercase_property(c))
}

/// The uppercase flags of `s`, one per character.
pub open spec fn upper_flags(s: Seq<char>) -> Seq<bool> {
    s.map_values(|c: char| uppercase_property(c))
}

pub(crate) fn lower_chars(s: &Vec<char>) -> (r: Vec<char>)
    ensures
        r@ == lower_all(s@),
        forall|k: int| 0 <= k < s@.len() && #[trigger] s@[k] <= '\u{7f}' ==> lowercase_of(s@[k]) == seq![crate::text::ascii_lower(s@[k])],
{
    let mut r: Vec<char> = Vec::new();
    let mut i: usize = 0;
    while i < s.len()
        invariant
            0 <= i <= s@.len(),
            r@ == lower_all(s@.take(i as int)),
            forall|k: int| 0 <= k < i && #[trigger] s@[k] <= '\u{7f}' ==> lowercase_of(s@[k]) == seq![crate::text::ascii_lower(s@[k])],
        decreases s.len() - i,
    {
        let l = lowercase_chars(s[i]);
        let ghost base = r@;
        let mut j: usize = 0;
        while j < l.len()
            invariant
                0 <= j <= l@.len(),
                r@ == base + l@.take(j as int),
            decreases l.len() - j,
        {
            r.push(l[j]);
            proof {
                assert(l@.take(j + 1) =~= l@.take(j as int).push(l@[j as int]));
                assert(r@ =~= base + l@.take(j + 1));
            }
            j += 1;
        }
        proof {
            assert(l@.take(l@.len() as int) =~= l@);
            assert(s@.take(i + 1).drop_last() =~= s@.take(i as int));
            assert(s@.take(i + 1).last() == s@[i as int]);
        }
        i += 1;
    }
    proof {
        assert(s@.take(s@.len() as int) =~= s@);
    }
    r
}

fn case_flags(s: &Vec<char>) -> (r: (Vec<bool>, Vec<bool>))
    ensures
        r.0@ == lower_flags(s@),
        r.1@ == upper_flags(s@),
        forall|k: int| 0 <= k < s@.len() && #[trigger] s@[k] <= '\u{7f}' ==> lowercase_property(s@[k]) == ('a' <= s@[k] && s@[k] <= 'z')
            && uppercase_property(s@[k]) == ('A' <= s@[k] && s@[k] <= 'Z'),
{
    let mut lo: Vec<bool> = Vec::new();
    let mut up: Vec<bool> = Vec::new();
    let mut i: usize = 0;
    while i < s.len()
        invariant
            0 <= i <= s@.len(),
            lo@ == lower_flags(s@).take(i as int),
            up@ == upper_flags(s@).take(i as int),
            forall|k: int| 0 <= k < i && #[trigger] s@[k] <= '\u{7f}' ==> lowercase_property(s@[k]) == ('a' <= s@[k] && s@[k] <= 'z')
                && uppercase_property(s@[k]) == ('A' <= s@[k] && s@[k] <= 'Z'),
        decreases s.len() - i,
    {
        lo.push(char_is_lowercase(s[i]));
        up.push(char_is_uppercase(s[i]));
        proof {
            assert(lo@ =~= lower_flags(s@).take(i + 1));
            assert(up@ =~= upper_flags(s@).take(i + 1));
        }
        i += 1;
    }
    proof {
        assert(lo@ =~= lower_flags(s@));
        assert(up@ =~= upper_flags(s@));
    }
    (lo, up)
}

// --- The score ---------------------------------------------------------------------

/// `x` held to the range of `i64`.
pub open spec fn clamp_i64(x: int) -> int {
    if x > i64::MAX {
        i64::MAX as int
    } else if x < i64::MIN {
        i64::MIN as int
    } else {
        x
    }
}

/// A score held to the range of `i64`.
pub open spec fn clamped(o: Option<int>) -> Option<int> {
    match o {
        Some(x) => Some(clamp_i64(x)),
        None => None,
    }
}

/// Where the `k`-th query character lands under greedy leftmost matching: the
/// first position of `q[k]` in `cl` after the previous match (`cl.len()` when
/// there is none).
pub open spec fn match_pos(cl: Seq<char>, q: Seq<char>, k: nat) -> int
    decreases k,
{
    let from: int = if k == 0 {
        0
    } else {
        match_pos(cl, q, (k - 1) as nat) + 1
    };
    first_index_of(cl, q[k as int], from)
}

/// Every query character found its place: `q` is matched in `cl`.
pub open spec fn all_matched(cl: Seq<char>, q: Seq<char>) -> bool {
    q.len() == 0 || match_pos(cl, q, (q.len() - 1) as nat) < cl.len()
}

/// A path separator or word boundary character.
pub open spec fn is_separator(c: char) -> bool {
    c == '/' || c == '_' || c == '-' || c == '.' || c == ' '
}

/// A match at `ci` earns the boundary bonus: at the very start, or (when the
/// lowercased candidate lines up with the candidate as given) right after a separator
/// or at a lower-to-upper case step.
pub open spec fn at_boundary(
    cand: Seq<char>,
    lower: Seq<bool>,
    upper: Seq<bool>,
    same_len: bool,
    ci: int,
) -> bool {
    ci == 0 || (same_len && ci > 0 && is_separator(cand[ci - 1])) || (same_len && ci > 0 && lower[ci
        - 1] && upper[ci])
}

/// The points the `k`-th query character earns: 10, plus 15 when it directly
/// follows the previous match, plus 20 at a boundary.
pub open spec fn match_points(
    cand: Seq<char>,
    lower: Seq<bool>,
    upper: Seq<bool>,
    cl: Seq<char>,
    q: Seq<char>,
    k: nat,
) -> int {
    let p: int = match_pos(cl, q, k);
    10 + (if k > 0 && p == match_pos(cl, q, (k - 1) as nat) + 1 {
        15int
    } else {
        0int
    }) + (if at_boundary(cand, lower, upper, cl.len() == cand.len(), p) {
        20int
    } else {
        0int
    })
}

/// The points of the first `n` query characters.
pub open spec fn points_upto(
    cand: Seq<char>,
    lower: Seq<bool>,
    upper: Seq<bool>,
    cl: Seq<char>,
    q: Seq<char>,
    n: nat,
) -> int
    decreases n,
{
    if n == 0 {
        0
    } else {
        points_upto(cand, lower, upper, cl, q, (n - 1) as nat) + match_points(
            cand,
            lower,
            upper,
            cl,
            q,
            (n - 1) as nat,
        )
    }
}

/// The score of the lowercased query `q` against the candidate `cand`, whose
/// lowercased form is `cl` and whose case flags are `lower` and `upper`:
/// `None` when `q` is not matched; otherwise the points, less 5 for every
/// cell the match span exceeds a contiguous run, less a quarter of the
/// first match's position.
pub open spec fn lowered_score(
    cand: Seq<char>,
    lower: Seq<bool>,
    upper: Seq<bool>,
    cl: Seq<char>,
    q: Seq<char>,
) -> Option<int> {
    if q.len() == 0 {
        Some(0)
    } else if !all_matched(cl, q) {
        None
    } else {
        let first: int = match_pos(cl, q, 0);
        let last: int = match_pos(cl, q, (q.len() - 1) as nat);
        let extra: int = (last - first) - (q.len() - 1);
        let gap: int = if extra > 0 {
            extra
        } else {
            0
        };
        Some(points_upto(cand, lower, upper, cl, q, q.len()) - gap * 5 - first / 4)
    }
}

/// The score of `query` against `candidate`: 0 for an empty query, `None`
/// when the query is not a subsequence (after lowercasing), otherwise
/// [`lowered_score`], held to the range of `i64` (only texts of more than
/// 2^57 characters can leave it).
pub open spec fn score_of(query: Seq<char>, candidate: Seq<char>) -> Option<int> {
    if query.len() == 0 {
        Some(0)
    } else {
        clamped(
            lowered_score(
                candidate,
                lower_flags(candidate),
                upper_flags(candidate),
                lower_all(candidate),
                lower_all(query),
            ),
        )
    }
}

/// An `i64` result read as an optional integer.
pub open spec fn opt_int(r: Option<i64>) -> Option<int> {
    match r {
        Some(x) => Some(x as int),
        None => None,
    }
}

proof fn lemma_match_pos_bounds(cl: Seq<char>, q: Seq<char>, k: nat)
    requires
        k < q.len(),
    ensures
        0 <= match_pos(cl, q, k) <= cl.len(),
        k > 0 ==> match_pos(cl, q, k) > match_pos(cl, q, (k - 1) as nat) || match_pos(cl, q, k)
            == cl.len(),
        match_pos(cl, q, k) < cl.len() ==> cl[match_pos(cl, q, k)] == q[k as int],
    decreases k,
{
    let from: int = if k == 0 {
        0
    } else {
        match_pos(cl, q, (k - 1) as nat) + 1
    };
    if k > 0 {
        lemma_match_pos_bounds(cl, q, (k - 1) as nat);
    }
    if from <= cl.len() {
        lemma_first_index_of(cl, q[k as int], from);
    }
}

/// Once a query character finds no place, no later one does.
proof fn lemma_unmatched_stays(cl: Seq<char>, q: Seq<char>, k: nat, j: nat)
    requires
        k <= j < q.len(),
        match_pos(cl, q, k) >= cl.len(),
    ensures
        match_pos(cl, q, j) == cl.len(),
    decreases j - k,
{
    lemma_match_pos_bounds(cl, q, k);
    if j > k {
        lemma_unmatched_stays(cl, q, k, (j - 1) as nat);
    }
}

/// Score the lowercased query `q` against a candidate given as its characters
/// `cand`, their lowercase mapping `cl`, and their case flags.
pub fn score_lowered(
    q: &Vec<char>,
    cand: &Vec<char>,
    cl: &Vec<char>,
    lower: &Vec<bool>,
    upper: &Vec<bool>,
) -> (r: Option<i64>)
    requires
        lower@.len() == cand@.len(),
        upper@.len() == cand@.len(),
    ensures
        opt_int(r) == clamped(lowered_score(cand@, lower@, upper@, cl@, q@)),
{
    let same_len = cl.len() == cand.len();
    let mut qi: usize = 0;
    let mut ci: usize = 0;
    let mut score: i128 = 0;
    let mut prev: usize = 0;
    let mut first: usize = 0;
    while ci < cl.len() && qi < q.len()
        invariant
            0 <= qi <= ci <= cl@.len(),
            qi <= q@.len(),
            lower@.len() == cand@.len(),
            upper@.len() == cand@.len(),
            same_len == (cl@.len() == cand@.len()),
            qi > 0 ==> prev == match_pos(cl@, q@, (qi - 1) as nat) && prev < ci && first
                == match_pos(cl@, q@, 0) && first <= prev,
            qi < q@.len() ==> match_pos(cl@, q@, qi as nat) == first_index_of(
                cl@,
                q@[qi as int],
                ci as int,
            ),
            score == points_upto(cand@, lower@, upper@, cl@, q@, qi as nat),
            0 <= score <= 45 * qi,
        decreases cl.len() - ci,
    {
        if cl[ci] == q[qi] {
            proof {
                if qi > 0 {
                    lemma_match_pos_bounds(cl@, q@, qi as nat);
                }
            }
            let mut pts: i128 = 10;
            if qi > 0 && ci == prev + 1 {
                pts = pts + 15;
            }
            let at_b = ci == 0 || (same_len && ci > 0 && is_sep(cand[ci - 1])) || (same_len && ci
                > 0 && lower[ci - 1] && upper[ci]);
            if at_b {
                pts = pts + 20;
            }
            proof {
                assert(match_pos(cl@, q@, qi as nat) == ci);
                assert(pts == match_points(cand@, lower@, upper@, cl@, q@, qi as nat));
            }
            score = score + pts;
            if qi == 0 {
                first = ci;
            }
            prev = ci;
            qi = qi + 1;
        }
        ci = ci + 1;
    }
    if qi < q.len() {
        proof {
            assert(first_index_of(cl@, q@[qi as int], ci as int) == cl@.len());
            lemma_unmatched_stays(cl@, q@, qi as nat, (q@.len() - 1) as nat);
        }
        return None;
    }
    if qi == 0 {
        return Some(0);
    }
    proof {
        lemma_match_pos_bounds(cl@, q@, 0);
    }
    let span: i128 = (prev - first) as i128;
    let q_len: i128 = q.len() as i128;
    let mut extra_gap: i128 = span - (q_len - 1);
    if extra_gap < 0 {
        extra_gap = 0;
    }
    score = score - extra_gap * 5;
    score = score - (first as i128) / 4;
    if score > i64::MAX as i128 {
        Some(i64::MAX)
    } else if score < i64::MIN as i128 {
        Some(i64::MIN)
    } else {
        Some(score as i64)
    }
}

fn is_sep(c: char) -> (r: bool)
    ensures
        r == is_separator(c),
{
    c == '/' || c == '_' || c == '-' || c == '.' || c == ' '
}

/// Every character of `s` is ASCII.
pub open spec fn all_ascii(s: Seq<char>) -> bool {
    forall|i: int| 0 <= i < s.len() ==> #[trigger] s[i] <= '\u{7f}'
}

/// [`score_of`] for ASCII texts, where lowercasing and the case flags are
/// the ASCII ones.
pub open spec fn ascii_score_of(query: Seq<char>, candidate: Seq<char>) -> Option<int> {
    if query.len() == 0 {
        Some(0)
    } else {
        clamped(
            lowered_score(
                candidate,
                candidate.map_values(|c: char| 'a' <= c && c <= 'z'),
                candidate.map_values(|c: char| 'A' <= c && c <= 'Z'),
                crate::text::ascii_lower_seq(candidate),
                crate::text::ascii_lower_seq(query),
            ),
        )
    }
}

proof fn lemma_lower_all_ascii(s: Seq<char>)
    requires
        all_ascii(s),
        forall|k: int| 0 <= k < s.len() ==> lowercase_of(#[trigger] s[k]) == seq![crate::text::ascii_lower(s[k])],
    ensures
        lower_all(s) == crate::text::ascii_lower_seq(s),
    decreases s.len(),
{
    if s.len() > 0 {
        let t = s.drop_last();
        assert forall|k: int| 0 <= k < t.len() implies lowercase_of(#[trigger] t[k]) == seq![crate::text::ascii_lower(t[k])] by {
            assert(t[k] == s[k]);
        }
        assert(all_ascii(t)) by {
            assert forall|k: int| 0 <= k < t.len() implies #[trigger] t[k] <= '\u{7f}' by {
                assert(t[k] == s[k]);
            }
        }
        lemma_lower_all_ascii(t);
        assert(lowercase_of(s[s.len() - 1]) == seq![crate::text::ascii_lower(s[s.len() - 1])]);
        assert(crate::text::ascii_lower_seq(s) =~= crate::text::ascii_lower_seq(t) + seq![crate::text::ascii_lower(s.last())]);
    }
}

/// Score `candidate` against `query`: `None` when the query (lowercased) is
/// not a subsequence of the candidate (lowercased); an empty query scores 0.
/// Higher is better.
pub fn score(query: &str, candidate: &str) -> (r: Option<i64>)
    ensures
        opt_int(r) == score_of(query@, candidate@),
        all_ascii(query@) && all_ascii(candidate@) ==> opt_int(r) == ascii_score_of(query@, candidate@),
{
    let qv = str_to_chars(query);
    if qv.len() == 0 {
        return Some(0);
    }
    let cand = str_to_chars(candidate);
    let q = lower_chars(&qv);
    let cl = lower_chars(&cand);
    let (lower, upper) = case_flags(&cand);
    proof {
        if all_ascii(query@) && all_ascii(candidate@) {
            assert forall|k: int| 0 <= k < qv@.len() implies lowercase_of(#[trigger] qv@[k]) == seq![crate::text::ascii_lower(qv@[k])] by {
                assert(qv@[k] <= '\u{7f}');
            }
            assert forall|k: int| 0 <= k < cand@.len() implies lowercase_of(#[trigger] cand@[k]) == seq![crate::text::ascii_lower(cand@[k])] by {
                assert(cand@[k] <= '\u{7f}');
            }
            lemma_lower_all_ascii(qv@);
            lemma_lower_all_ascii(cand@);
            assert(lower@ =~= cand@.map_values(|c: char| 'a' <= c && c <= 'z')) by {
                assert forall|k: int| 0 <= k < cand@.len() implies lower@[k] == ('a' <= cand@[k] && cand@[k] <= 'z') by {
                    assert(cand@[k] <= '\u{7f}');
                }
            }
            assert(upper@ =~= cand@.map_values(|c: char| 'A' <= c && c <= 'Z')) by {
                assert forall|k: int| 0 <= k < cand@.len() implies upper@[k] == ('A' <= cand@[k] && cand@[k] <= 'Z') by {
                    assert(cand@[k] <= '\u{7f}');
                }
            }
        }
    }
    score_lowered(&q, &cand, &cl, &lower, &upper)
}

// --- Ranking -----------------------------------------------------------------------

/// A ranked candidate: its position in the input and its biased score.
#[derive(Debug, Clone, Copy, PartialEq, Eq, Structural)]
pub struct Ranked {
    pub index: usize,
    pub score: i64,
}

/// `a` sorts strictly before `b`: a higher score, or an equal score and an
/// earlier position.
pub open spec fn ranks_before(a: Ranked, b: Ranked) -> bool {
    a.score > b.score || (a.score == b.score && a.index < b.index)
}

/// `r` is an entry `rank` may produce for `query` over `candidates` with the
/// tier function `tier`: a matching candidate whose textual score, plus the
/// bias of a tier `tier` returned for it (held to the range of `i64`), is
/// the entry's score.
pub open spec fn rank_entry<F: Fn(usize) -> Tier>(
    query: Seq<char>,
    candidates: Seq<String>,
    tier: F,
    r: Ranked,
) -> bool {
    &&& r.index < candidates.len()
    &&& score_of(query, candidates[r.index as int]@) matches Some(s) && exists|t: Tier|
        call_ensures(tier, (r.index,), t) && r.score == clamp_i64(s + tier_bias(t))
}

/// `s` is sorted best first with no position twice.
pub open spec fn sorted_distinct(s: Seq<Ranked>) -> bool {
    forall|a: int, b: int|
        #![trigger s[a], s[b]]
        0 <= a < b < s.len() ==> ranks_before(s[a], s[b]) && s[a].index != s[b].index
}

proof fn lemma_sorted_pair(s: Seq<Ranked>, a: int, b: int)
    requires
        sorted_distinct(s),
        0 <= a < b < s.len(),
    ensures
        ranks_before(s[a], s[b]),
        s[a].index != s[b].index,
{
}

/// Insert `item` into the ranked list `out` at its place; every entry already
/// there has an earlier position than `item`.
fn insert_sorted(out: &mut Vec<Ranked>, item: Ranked) -> (pos: usize)
    requires
        sorted_distinct(old(out)@),
        forall|k: int| 0 <= k < old(out)@.len() ==> old(out)@[k].index < item.index,
    ensures
        pos <= old(out)@.len(),
        final(out)@ == old(out)@.insert(pos as int, item),
        sorted_distinct(final(out)@),
{
    let mut pos: usize = 0;
    while pos < out.len() && out[pos].score >= item.score
        invariant
            0 <= pos <= out@.len(),
            out@ == old(out)@,
            forall|k: int| 0 <= k < pos ==> out@[k].score >= item.score,
        decreases out.len() - pos,
    {
        pos += 1;
    }
    let ghost old_out = out@;
    proof {
        assert(old_out == old(out)@);
        assert(forall|a: int, b: int| 0 <= a < b < old_out.len() ==> ranks_before(old_out[a], old_out[b]));
        assert forall|k: int| pos <= k < old_out.len() implies old_out[k].score < item.score by {
            if k > pos {
                assert(ranks_before(old_out[pos as int], old_out[k]));
            }
        }
    }
    out.insert(pos, item);
    proof {
        let n = out@;
        assert(sorted_distinct(old_out));
        assert(n.len() == old_out.len() + 1);
        assert(forall|k: int| 0 <= k < pos ==> n[k] == old_out[k]);
        assert(n[pos as int] == item);
        assert(forall|k: int| pos < k < n.len() ==> n[k] == old_out[k - 1]);
        assert forall|a: int, b: int| 0 <= a < b < n.len() && b < pos implies ranks_before(
            n[a],
            n[b],
        ) && n[a].index != n[b].index by {
            assert(n[a] == old_out[a] && n[b] == old_out[b]);
            lemma_sorted_pair(old_out, a, b);
        }
        assert forall|a: int, b: int| 0 <= a < b < n.len() && b == pos implies ranks_before(
            n[a],
            n[b],
        ) && n[a].index != n[b].index by {
            assert(n[a] == old_out[a]);
        }
        assert forall|a: int, b: int| 0 <= a < b < n.len() && a < pos && b > pos implies ranks_before(
            n[a],
            n[b],
        ) && n[a].index != n[b].index by {
            assert(n[a] == old_out[a] && n[b] == old_out[b - 1]);
            lemma_sorted_pair(old_out, a, b - 1);
        }
        assert forall|a: int, b: int| 0 <= a < b < n.len() && a == pos implies ranks_before(
            n[a],
            n[b],
        ) && n[a].index != n[b].index by {
            assert(n[b] == old_out[b - 1]);
        }
        assert forall|a: int, b: int| 0 <= a < b < n.len() && a > pos implies ranks_before(
            n[a],
            n[b],
        ) && n[a].index != n[b].index by {
            assert(n[a] == old_out[a - 1] && n[b] == old_out[b - 1]);
            lemma_sorted_pair(old_out, a - 1, b - 1);
        }
        assert forall|a: int, b: int| 0 <= a < b < out@.len() implies ranks_before(out@[a], out@[b])
            && out@[a].index != out@[b].index by {
            if b < pos {
            } else if b == pos {
            } else if a < pos {
            } else if a == pos {
            } else {
            }
        }
        assert(sorted_distinct(out@));
    }
    pos
}

/// Rank `candidates` against `query`, dropping non-matches. Each match scores
/// its textual score plus the bias of the tier `tier` reports for it; the
/// result is sorted best first, ties broken by the position in `candidates`.
pub fn rank<F: Fn(usize) -> Tier>(query: &str, candidates: &[String], tier: F) -> (r: Vec<Ranked>)
    requires
        forall|i: usize| call_requires(tier, (i,)),
    ensures
        forall|k: int| 0 <= k < r@.len() ==> rank_entry(query@, candidates@, tier, #[trigger] r@[k]),
        forall|i: int|
            0 <= i < candidates@.len() && (#[trigger] score_of(query@, candidates@[i]@)) is Some
                ==> exists|k: int| 0 <= k < r@.len() && r@[k].index == i,
        forall|a: int, b: int| 0 <= a < b < r@.len() ==> ranks_before(r@[a], r@[b]),
        forall|a: int, b: int| 0 <= a < b < r@.len() ==> r@[a].index != r@[b].index,
{
    let mut out: Vec<Ranked> = Vec::new();
    let mut i: usize = 0;
    while i < candidates.len()
        invariant
            0 <= i <= candidates@.len(),
            forall|i: usize| call_requires(tier, (i,)),
            forall|k: int|
                0 <= k < out@.len() ==> #[trigger] out@[k].index < i && rank_entry(
                    query@,
                    candidates@,
                    tier,
                    out@[k],
                ),
            forall|j: int|
                0 <= j < i && (#[trigger] score_of(query@, candidates@[j]@)) is Some ==> exists|k: int|
                    0 <= k < out@.len() && out@[k].index == j,
            forall|a: int, b: int| 0 <= a < b < out@.len() ==> ranks_before(out@[a], out@[b]),
            forall|a: int, b: int| 0 <= a < b < out@.len() ==> out@[a].index != out@[b].index,
        decreases candidates.len() - i,
    {
        let s = score(query, candidates[i].as_str());
        match s {
            Some(sv) => {
                let t = tier(i);
                let b = t.bias();
                let biased: i64 = if sv > i64::MAX - b {
                    i64::MAX
                } else {
                    sv + b
                };
                let item = Ranked { index: i, score: biased };
                let ghost old_out = out@;
                proof {
                    assert(rank_entry(query@, candidates@, tier, item));
                }
                let pos = insert_sorted(&mut out, item);
                proof {
                    assert forall|k: int| 0 <= k < out@.len() implies #[trigger] out@[k].index
                        < i + 1 && rank_entry(query@, candidates@, tier, out@[k]) by {
                        if k < pos {
                            assert(out@[k] == old_out[k]);
                        } else if k > pos {
                            assert(out@[k] == old_out[k - 1]);
                        }
                    }
                    assert forall|j: int|
                        0 <= j < i + 1 && (#[trigger] score_of(query@, candidates@[j]@)) is Some implies exists|k: int|
                        0 <= k < out@.len() && out@[k].index == j by {
                        if j == i {
                            assert(out@[pos as int].index == j);
                        } else {
                            let k0: int = choose|k: int| 0 <= k < old_out.len() && old_out[k].index == j;
                            if k0 < pos {
                                assert(out@[k0].index == j);
                            } else {
                                assert(out@[k0 + 1].index == j);
                            }
                        }
                    }
                }
            },
            None => {
                proof {
                    assert forall|k: int| 0 <= k < out@.len() implies #[trigger] out@[k].index < i
                        + 1 && rank_entry(query@, candidates@, tier, out@[k]) by {}
                }
            },
        }
        i += 1;
    }
    out
}

// --- Laws ----------------------------------------------------------------------

/// `q` occurs in `c` in order: some strictly increasing positions of `c` hold
/// the characters of `q`.
pub open spec fn is_subsequence(q: Seq<char>, c: Seq<char>) -> bool {
    exists|m: Seq<int>|
        #![trigger m.len()]
        m.len() == q.len() && (forall|k: int| 0 <= k < q.len() ==> 0 <= #[trigger] m[k] < c.len() && c[m[k]]
            == q[k]) && (forall|i: int, j: int| 0 <= i < j < q.len() ==> m[i] < m[j])
}

proof fn lemma_matched_increasing(cl: Seq<char>, q: Seq<char>, i: nat, j: nat)
    requires
        i < j < q.len(),
        all_matched(cl, q),
    ensures
        match_pos(cl, q, i) < match_pos(cl, q, j),
    decreases j - i,
{
    lemma_match_pos_bounds(cl, q, j);
    if match_pos(cl, q, j) >= cl.len() {
        lemma_unmatched_stays(cl, q, j, (q.len() - 1) as nat);
    }
    if j - 1 > i {
        lemma_matched_increasing(cl, q, i, (j - 1) as nat);
    }
}

proof fn lemma_greedy_is_leftmost(cl: Seq<char>, q: Seq<char>, m: Seq<int>, k: nat)
    requires
        k < q.len(),
        m.len() == q.len(),
        forall|i: int| 0 <= i < q.len() ==> 0 <= #[trigger] m[i] < cl.len() && cl[m[i]] == q[i],
        forall|i: int, j: int| 0 <= i < j < q.len() ==> m[i] < m[j],
    ensures
        match_pos(cl, q, k) <= m[k as int],
    decreases k,
{
    let from: int = if k == 0 {
        0
    } else {
        match_pos(cl, q, (k - 1) as nat) + 1
    };
    if k > 0 {
        lemma_greedy_is_leftmost(cl, q, m, (k - 1) as nat);
        lemma_match_pos_bounds(cl, q, (k - 1) as nat);
        assert(m[k - 1] < cl.len());
        assert(m[k - 1] < m[k as int]);
    }
    assert(0 <= m[k as int] < cl.len());
    lemma_first_index_of(cl, q[k as int], from);
}

/// LAW: greedy matching succeeds exactly when the query is a subsequence of
/// the candidate.
pub proof fn lemma_matched_iff_subsequence(cl: Seq<char>, q: Seq<char>)
    ensures
        all_matched(cl, q) <==> is_subsequence(q, cl),
{
    if all_matched(cl, q) {
        let m = Seq::new(q.len(), |k: int| match_pos(cl, q, k as nat));
        assert forall|k: int| 0 <= k < q.len() implies 0 <= #[trigger] m[k] < cl.len() && cl[m[k]] == q[k] by {
            lemma_match_pos_bounds(cl, q, k as nat);
            if match_pos(cl, q, k as nat) >= cl.len() {
                lemma_unmatched_stays(cl, q, k as nat, (q.len() - 1) as nat);
            }
        }
        assert forall|i: int, j: int| 0 <= i < j < q.len() implies m[i] < m[j] by {
            lemma_matched_increasing(cl, q, i as nat, j as nat);
        }
        assert(m.len() == q.len());
    }
    if is_subsequence(q, cl) && q.len() > 0 {
        let m = choose|m: Seq<int>|
            #![trigger m.len()]
            m.len() == q.len() && (forall|k: int| 0 <= k < q.len() ==> 0 <= #[trigger] m[k] < cl.len()
                && cl[m[k]] == q[k]) && (forall|i: int, j: int| 0 <= i < j < q.len() ==> m[i]
                < m[j]);
        lemma_greedy_is_leftmost(cl, q, m, (q.len() - 1) as nat);
    }
}

/// LAW: `score` finds a match exactly when the lowercased query is a
/// subsequence of the lowercased candidate; an empty query matches
/// everything.
pub proof fn lemma_score_matches_subsequence(query: Seq<char>, candidate: Seq<char>)
    ensures
        score_of(query, candidate) is Some <==> (query.len() == 0 || is_subsequence(
            lower_all(query),
            lower_all(candidate),
        )),
{
    lemma_matched_iff_subsequence(lower_all(candidate), lower_all(query));
    if lower_all(query).len() == 0 {
        let m = Seq::<int>::empty();
        assert(m.len() == lower_all(query).len());
    }
}

proof fn lemma_lower_all_add(p: Seq<char>, c: Seq<char>)
    ensures
        lower_all(p + c) == lower_all(p) + lower_all(c),
    decreases c.len(),
{
    if c.len() == 0 {
        assert(p + c =~= p);
        assert(lower_all(p) + lower_all(c) =~= lower_all(p));
    } else {
        assert((p + c).drop_last() =~= p + c.drop_last());
        assert((p + c).last() == c.last());
        lemma_lower_all_add(p, c.drop_last());
        assert(lower_all(p + c) =~= lower_all(p) + lower_all(c));
    }
}

proof fn lemma_first_index_shift(lp: Seq<char>, lc: Seq<char>, x: char, from: int)
    requires
        0 <= from,
    ensures
        first_index_of(lp + lc, x, from + lp.len()) == first_index_of(lc, x, from) + lp.len(),
    decreases lc.len() - from,
{
    if from < lc.len() {
        assert((lp + lc)[from + lp.len()] == lc[from]);
        if lc[from] != x {
            lemma_first_index_shift(lp, lc, x, from + 1);
        }
    }
}

proof fn lemma_first_index_skip(lp: Seq<char>, lc: Seq<char>, x: char, from: int)
    requires
        0 <= from <= lp.len(),
        forall|i: int| 0 <= i < lp.len() ==> lp[i] != x,
    ensures
        first_index_of(lp + lc, x, from) == first_index_of(lp + lc, x, lp.len() as int),
    decreases lp.len() - from,
{
    if from < lp.len() {
        assert((lp + lc)[from] == lp[from]);
        lemma_first_index_skip(lp, lc, x, from + 1);
    }
}

proof fn lemma_match_pos_shift(lp: Seq<char>, lc: Seq<char>, q: Seq<char>, k: nat)
    requires
        k < q.len(),
        forall|i: int| 0 <= i < lp.len() ==> lp[i] != q[0],
    ensures
        match_pos(lp + lc, q, k) == match_pos(lc, q, k) + lp.len(),
    decreases k,
{
    if k == 0 {
        lemma_first_index_skip(lp, lc, q[0], 0);
        lemma_first_index_shift(lp, lc, q[0], 0);
    } else {
        lemma_match_pos_shift(lp, lc, q, (k - 1) as nat);
        lemma_match_pos_bounds(lc, q, (k - 1) as nat);
        lemma_first_index_shift(lp, lc, q[k as int], match_pos(lc, q, (k - 1) as nat) + 1);
    }
}

proof fn lemma_points_shift(
    p: Seq<char>,
    c: Seq<char>,
    lfp: Seq<bool>,
    lfc: Seq<bool>,
    ufp: Seq<bool>,
    ufc: Seq<bool>,
    lp: Seq<char>,
    lc: Seq<char>,
    q: Seq<char>,
    n: nat,
)
    requires
        n <= q.len(),
        lp.len() == p.len(),
        lfp.len() == p.len(),
        ufp.len() == p.len(),
        lfc.len() == c.len(),
        ufc.len() == c.len(),
        lc.len() == c.len(),
        all_matched(lc, q),
        forall|i: int| 0 <= i < lp.len() ==> lp[i] != q[0],
    ensures
        points_upto(p + c, lfp + lfc, ufp + ufc, lp + lc, q, n) <= points_upto(c, lfc, ufc, lc, q, n),
    decreases n,
{
    if n > 0 {
        let k = (n - 1) as nat;
        lemma_points_shift(p, c, lfp, lfc, ufp, ufc, lp, lc, q, k);
        lemma_match_pos_shift(lp, lc, q, k);
        if k > 0 {
            lemma_match_pos_shift(lp, lc, q, (k - 1) as nat);
        }
        lemma_match_pos_bounds(lc, q, k);
        if match_pos(lc, q, k) >= lc.len() {
            lemma_unmatched_stays(lc, q, k, (q.len() - 1) as nat);
        }
        let mp = match_pos(lc, q, k);
        let sh = p.len() as int;
        if mp > 0 {
            assert((p + c)[mp + sh - 1] == c[mp - 1]);
            assert((lfp + lfc)[mp + sh - 1] == lfc[mp - 1]);
            assert((ufp + ufc)[mp + sh] == ufc[mp]);
        }
    }
}

/// LAW: a later start never scores higher. Put text in front of a
/// candidate, text in which no character (lowercased) is the query's first
/// (lowercased) and which, like the candidate, lowercases one for one: the
/// query still matches exactly when it matched, and never scores higher,
/// since every match moves right by the same amount and the points and gaps
/// can only stay or lose the start-of-text bonus.
pub proof fn lemma_later_start_never_scores_higher(q: Seq<char>, p: Seq<char>, c: Seq<char>)
    requires
        lower_all(q).len() > 0,
        lower_all(p).len() == p.len(),
        lower_all(c).len() == c.len(),
        forall|i: int| 0 <= i < p.len() ==> lower_all(p)[i] != lower_all(q)[0],
    ensures
        score_of(q, p + c) is Some <==> score_of(q, c) is Some,
        score_of(q, c) matches Some(x) ==> score_of(q, p + c)->0 <= x,
{
    let lq = lower_all(q);
    let lp = lower_all(p);
    let lc = lower_all(c);
    assert(q.len() > 0) by {
        if q.len() == 0 {
            assert(lower_all(q) =~= Seq::<char>::empty());
        }
    }
    lemma_lower_all_add(p, c);
    assert(lower_flags(p + c) =~= lower_flags(p) + lower_flags(c));
    assert(upper_flags(p + c) =~= upper_flags(p) + upper_flags(c));
    let last = (lq.len() - 1) as nat;
    lemma_match_pos_shift(lp, lc, lq, last);
    lemma_match_pos_shift(lp, lc, lq, 0);
    if all_matched(lc, lq) {
        lemma_points_shift(p, c, lower_flags(p), lower_flags(c), upper_flags(p), upper_flags(c), lp, lc, lq, lq.len());
        let f = match_pos(lc, lq, 0);
        lemma_match_pos_bounds(lc, lq, 0);
        assert((f + p.len()) / 4 >= f / 4) by (nonlinear_arith)
            requires
                f >= 0,
        ;
    }
}

/// A higher tier always ranks first when the two textual scores are within
/// the gap between the tiers' biases.
pub proof fn lemma_tier_dominates(sa: int, ta: Tier, sb: int, tb: Tier)
    requires
        tier_bias(ta) > tier_bias(tb),
        sb - sa < 500_000,
    ensures
        sa + tier_bias(ta) > sb + tier_bias(tb),
{
}

} // verus!

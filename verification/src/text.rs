//! Small character-sequence utilities shared by every parser and formatter in
//! the crate: decimal numerals, zero padding, ASCII case folding, Unicode white
//! space, line splitting, and conversions between `&str`, `Vec<char>` and
//! `String`.

use vstd::prelude::*;
use vstd::utf8::{decode_utf8, valid_utf8};

verus! {

/// `String::push` appends exactly one character to the end of the string.
pub assume_specification[ String::push ](s: &mut String, ch: char)
    ensures
        final(s)@ == old(s)@.push(ch),
;

/// The decimal digit character for `d` (0..=9).
pub open spec fn digit_char(d: nat) -> char {
    if d == 0 { '0' }
    else if d == 1 { '1' }
    else if d == 2 { '2' }
    else if d == 3 { '3' }
    else if d == 4 { '4' }
    else if d == 5 { '5' }
    else if d == 6 { '6' }
    else if d == 7 { '7' }
    else if d == 8 { '8' }
    else { '9' }
}

/// The shortest decimal numeral of `n` (no sign, no leading zeros).
pub open spec fn decimal(n: nat) -> Seq<char>
    decreases n,
{
    if n < 10 {
        seq![digit_char(n)]
    } else {
        decimal(n / 10).push(digit_char(n % 10))
    }
}

/// `n` in decimal, left-padded with `'0'` to at least `width` characters.
pub open spec fn zero_padded(n: nat, width: nat) -> Seq<char> {
    let d = decimal(n);
    if d.len() >= width {
        d
    } else {
        Seq::new((width - d.len()) as nat, |i: int| '0') + d
    }
}

fn digit(d: u64) -> (c: char)
    requires
        d < 10,
    ensures
        c == digit_char(d as nat),
{
    if d == 0 { '0' }
    else if d == 1 { '1' }
    else if d == 2 { '2' }
    else if d == 3 { '3' }
    else if d == 4 { '4' }
    else if d == 5 { '5' }
    else if d == 6 { '6' }
    else if d == 7 { '7' }
    else if d == 8 { '8' }
    else { '9' }
}

/// Append the decimal numeral of `n` to `out`.
pub fn push_decimal(out: &mut String, n: u64)
    ensures
        final(out)@ == old(out)@ + decimal(n as nat),
    decreases n,
{
    if n >= 10 {
        push_decimal(out, n / 10);
    }
    out.push(digit(n % 10));
    proof {
        assert(old(out)@ + decimal(n as nat) =~= if n >= 10 {
            (old(out)@ + decimal((n / 10) as nat)).push(digit_char((n % 10) as nat))
        } else {
            old(out)@.push(digit_char(n as nat))
        });
    }
}

/// The decimal numeral of `n`, as the `{}` format of an unsigned integer prints it.
pub fn fmt_u64(n: u64) -> (s: String)
    ensures
        s@ == decimal(n as nat),
{
    let mut s = String::new();
    push_decimal(&mut s, n);
    proof {
        assert(s@ =~= decimal(n as nat));
    }
    s
}

/// Append `n` zero-padded to `width` digits (the `{:0width$}` format).
pub fn push_zero_padded(out: &mut String, n: u64, width: usize)
    ensures
        final(out)@ == old(out)@ + zero_padded(n as nat, width as nat),
{
    let mut digits = String::new();
    push_decimal(&mut digits, n);
    assert(digits@ =~= decimal(n as nat));
    let len: usize = decimal_len(n);
    if len < width {
        let mut i: usize = 0;
        while i < width - len
            invariant
                i <= width - len,
                len < width,
                len == decimal(n as nat).len(),
                final_view_helper(out@, old(out)@, i as nat),
            decreases width - len - i,
        {
            out.push('0');
            i += 1;
            proof {
                assert(out@ =~= old(out)@ + Seq::new(i as nat, |j: int| '0'));
            }
        }
        append_str(out, digits.as_str());
        proof {
            assert(out@ =~= old(out)@ + zero_padded(n as nat, width as nat));
        }
    } else {
        append_str(out, digits.as_str());
    }
}

spec fn final_view_helper(cur: Seq<char>, start: Seq<char>, i: nat) -> bool {
    cur =~= start + Seq::new(i, |j: int| '0')
}

/// The number of digits in the decimal numeral of `n`.
pub fn decimal_len(n: u64) -> (len: usize)
    ensures
        len == decimal(n as nat).len(),
        1 <= len <= 20,
    decreases n,
{
    if n < 10 {
        1
    } else {
        let l: usize = decimal_len(n / 10);
        proof {
            lemma_decimal_len_bound((n / 10) as nat);
        }
        l + 1
    }
}

/// Ten to the power `k`.
pub open spec fn pow10(k: nat) -> nat
    decreases k,
{
    if k == 0 { 1 } else { 10 * pow10((k - 1) as nat) }
}

/// A numeral below `10^k` has at most `k` digits.
pub proof fn lemma_decimal_len_le(n: nat, k: nat)
    requires
        k >= 1,
        n < pow10(k),
    ensures
        decimal(n).len() <= k,
    decreases n,
{
    if n >= 10 {
        assert(k >= 2) by {
            if k == 1 {
                assert(pow10(1) == 10) by {
                    reveal_with_fuel(pow10, 2);
                }
            }
        }
        let p: nat = pow10((k - 1) as nat);
        assert(pow10(k) == 10 * p);
        assert(n / 10 < p) by (nonlinear_arith)
            requires
                n < 10 * p,
        ;
        lemma_decimal_len_le(n / 10, (k - 1) as nat);
    }
}

proof fn lemma_decimal_len_bound(n: nat)
    requires
        n <= u64::MAX / 10,
    ensures
        decimal(n).len() <= 19,
{
    assert(pow10(19) == 10000000000000000000) by {
        reveal_with_fuel(pow10, 20);
    }
    lemma_decimal_len_le(n, 19);
}

/// Append every character of `s` to `out`.
pub fn append_str(out: &mut String, s: &str)
    ensures
        final(out)@ == old(out)@ + s@,
{
    let chars = str_to_chars(s);
    let mut i: usize = 0;
    while i < chars.len()
        invariant
            0 <= i <= chars@.len(),
            chars@ == s@,
            out@ == old(out)@ + chars@.take(i as int),
        decreases chars.len() - i,
    {
        out.push(chars[i]);
        i += 1;
        proof {
            assert(chars@.take(i as int) =~= chars@.take(i - 1).push(chars@[i - 1]));
        }
    }
    proof {
        assert(chars@.take(chars@.len() as int) =~= chars@);
    }
}

/// The characters of `s`, in order.
pub fn str_to_chars(s: &str) -> (v: Vec<char>)
    ensures
        v@ == s@,
{
    let mut v: Vec<char> = Vec::new();
    proof {
        broadcast use vstd::string::axiom_spec_iter;
    }
    for c in it: s.chars()
        invariant
            it.seq() == s@,
            v@ == s@.take(it.index()),
    {
        v.push(c);
        proof {
            assert(v@ =~= s@.take(it.index() + 1));
        }
    }
    proof {
        assert(v@.len() == s@.len());
        assert(v@ =~= s@);
    }
    v
}


/// The ASCII lower-case form of `c` (`char::to_ascii_lowercase`): `A..=Z` map to
/// `a..=z`, every other character is unchanged.
pub open spec fn ascii_lower(c: char) -> char {
    if 'A' <= c && c <= 'Z' {
        ((c as u32) + 32) as char
    } else {
        c
    }
}

/// The ASCII upper-case form of `c` (`char::to_ascii_uppercase`).
pub open spec fn ascii_upper(c: char) -> char {
    if 'a' <= c && c <= 'z' {
        ((c as u32) - 32) as char
    } else {
        c
    }
}

/// `s` with every character ASCII-lower-cased (`str::to_ascii_lowercase`).
pub open spec fn ascii_lower_seq(s: Seq<char>) -> Seq<char> {
    s.map_values(|c: char| ascii_lower(c))
}

/// `a` and `b` are equal ignoring ASCII case (`str::eq_ignore_ascii_case`).
pub open spec fn eq_ignore_ascii_case(a: Seq<char>, b: Seq<char>) -> bool {
    ascii_lower_seq(a) == ascii_lower_seq(b)
}

/// Executable [`ascii_lower`].
pub fn lower_char(c: char) -> (r: char)
    ensures
        r == ascii_lower(c),
{
    if 'A' <= c && c <= 'Z' {
        let u: u32 = (c as u32) + 32;
        assert(0x61 <= u <= 0x7a);
        char_from_ascii(u)
    } else {
        c
    }
}

/// Executable [`ascii_upper`].
pub fn upper_char(c: char) -> (r: char)
    ensures
        r == ascii_upper(c),
{
    if 'a' <= c && c <= 'z' {
        let u: u32 = (c as u32) - 32;
        char_from_ascii(u)
    } else {
        c
    }
}

fn char_from_ascii(u: u32) -> (c: char)
    requires
        u < 128,
    ensures
        c == u as char,
{
    let b: u8 = u as u8;
    assert(b as u32 == u) by (bit_vector)
        requires
            b == u as u8,
            u < 128,
    ;
    b as char
}

/// ASCII letter or digit (`char::is_ascii_alphanumeric`).
pub open spec fn is_ascii_alnum(c: char) -> bool {
    ('0' <= c && c <= '9') || ('a' <= c && c <= 'z') || ('A' <= c && c <= 'Z')
}

/// ASCII letter (`char::is_ascii_alphabetic`).
pub open spec fn is_ascii_alpha(c: char) -> bool {
    ('a' <= c && c <= 'z') || ('A' <= c && c <= 'Z')
}

/// The Unicode `White_Space` property, which is what `char::is_whitespace`
/// tests: TAB..CR, SPACE, NEL, NBSP, OGHAM SPACE MARK, EN QUAD..HAIR SPACE,
/// LINE/PARAGRAPH SEPARATOR, NARROW NBSP, MEDIUM MATHEMATICAL SPACE and the
/// IDEOGRAPHIC SPACE.
pub open spec fn is_ws(c: char) -> bool {
    ('\u{9}' <= c && c <= '\u{d}') || c == ' ' || c == '\u{85}' || c == '\u{a0}'
        || c == '\u{1680}' || ('\u{2000}' <= c && c <= '\u{200a}') || c == '\u{2028}'
        || c == '\u{2029}' || c == '\u{202f}' || c == '\u{205f}' || c == '\u{3000}'
}

/// Executable [`is_ws`].
pub fn is_whitespace(c: char) -> (r: bool)
    ensures
        r == is_ws(c),
{
    ('\u{9}' <= c && c <= '\u{d}') || c == ' ' || c == '\u{85}' || c == '\u{a0}'
        || c == '\u{1680}' || ('\u{2000}' <= c && c <= '\u{200a}') || c == '\u{2028}'
        || c == '\u{2029}' || c == '\u{202f}' || c == '\u{205f}' || c == '\u{3000}'
}

/// The Unicode general category `Cc`, which is what `char::is_control` tests.
pub open spec fn is_ctrl(c: char) -> bool {
    c <= '\u{1f}' || ('\u{7f}' <= c && c <= '\u{9f}')
}

/// Executable [`is_ctrl`].
pub fn is_control(c: char) -> (r: bool)
    ensures
        r == is_ctrl(c),
{
    c <= '\u{1f}' || ('\u{7f}' <= c && c <= '\u{9f}')
}

/// How many white-space characters `s` starts with.
pub open spec fn lead_ws(s: Seq<char>) -> nat
    decreases s.len(),
{
    if s.len() > 0 && is_ws(s[0]) {
        1 + lead_ws(s.drop_first())
    } else {
        0
    }
}

/// How many white-space characters `s` ends with.
pub open spec fn trail_ws(s: Seq<char>) -> nat
    decreases s.len(),
{
    if s.len() > 0 && is_ws(s.last()) {
        1 + trail_ws(s.drop_last())
    } else {
        0
    }
}

/// `s` without its leading white space (`str::trim_start`).
pub open spec fn trim_start(s: Seq<char>) -> Seq<char> {
    s.skip(lead_ws(s) as int)
}

/// `s` without its trailing white space (`str::trim_end`).
pub open spec fn trim_end(s: Seq<char>) -> Seq<char> {
    s.take(s.len() - trail_ws(s))
}

/// `s` without leading or trailing white space (`str::trim`).
pub open spec fn trim(s: Seq<char>) -> Seq<char> {
    trim_end(trim_start(s))
}

pub proof fn lemma_lead_ws_le(s: Seq<char>)
    ensures
        lead_ws(s) <= s.len(),
    decreases s.len(),
{
    if s.len() > 0 && is_ws(s[0]) {
        lemma_lead_ws_le(s.drop_first());
    }
}

pub proof fn lemma_trail_ws_le(s: Seq<char>)
    ensures
        trail_ws(s) <= s.len(),
    decreases s.len(),
{
    if s.len() > 0 && is_ws(s.last()) {
        lemma_trail_ws_le(s.drop_last());
    }
}

/// Every character of `s` is white space.
pub open spec fn all_ws(s: Seq<char>) -> bool {
    forall|i: int| 0 <= i < s.len() ==> #[trigger] is_ws(s[i])
}

proof fn lemma_lead_ws_prefix(pre: Seq<char>, x: Seq<char>)
    requires
        all_ws(pre),
    ensures
        lead_ws(pre + x) == pre.len() + lead_ws(x),
    decreases pre.len(),
{
    if pre.len() == 0 {
        assert(pre + x =~= x);
    } else {
        assert(is_ws((pre + x)[0]));
        assert((pre + x).drop_first() =~= pre.drop_first() + x);
        lemma_lead_ws_prefix(pre.drop_first(), x);
    }
}

proof fn lemma_trail_ws_suffix(x: Seq<char>, post: Seq<char>)
    requires
        all_ws(post),
    ensures
        trail_ws(x + post) == post.len() + trail_ws(x),
    decreases post.len(),
{
    if post.len() == 0 {
        assert(x + post =~= x);
    } else {
        assert(is_ws((x + post).last()));
        assert((x + post).drop_last() =~= x + post.drop_last());
        lemma_trail_ws_suffix(x, post.drop_last());
    }
}

/// Trimming a word padded with white space on both sides gives the word back.
pub proof fn lemma_trim_padded(pre: Seq<char>, w: Seq<char>, post: Seq<char>)
    requires
        all_ws(pre),
        all_ws(post),
        w.len() > 0,
        !is_ws(w[0]),
        !is_ws(w.last()),
    ensures
        trim(pre + w + post) == w,
{
    lemma_lead_ws_prefix(pre, w + post);
    assert(pre + w + post =~= pre + (w + post));
    assert(lead_ws(w + post) == 0);
    assert(trim_start(pre + w + post) =~= w + post);
    lemma_trail_ws_suffix(w, post);
    assert(trail_ws(w) == 0);
    assert(trim_end(w + post) =~= w);
}

/// The bounds `[a, b)` inside `v[lo..hi]` of that range with its leading and
/// trailing white space removed.
pub fn trim_range(v: &Vec<char>, lo: usize, hi: usize) -> (r: (usize, usize))
    requires
        lo <= hi <= v@.len(),
    ensures
        lo <= r.0 <= r.1 <= hi,
        v@.subrange(r.0 as int, r.1 as int) == trim(v@.subrange(lo as int, hi as int)),
{
    let ghost s = v@.subrange(lo as int, hi as int);
    let mut a: usize = lo;
    while a < hi && is_whitespace(v[a])
        invariant
            lo <= a <= hi <= v@.len(),
            s == v@.subrange(lo as int, hi as int),
            lead_ws(s) == (a - lo) + lead_ws(v@.subrange(a as int, hi as int)),
        decreases hi - a,
    {
        proof {
            assert(v@.subrange(a as int, hi as int).drop_first() =~= v@.subrange(a + 1, hi as int));
        }
        a += 1;
    }
    proof {
        assert(lead_ws(v@.subrange(a as int, hi as int)) == 0);
        assert(trim_start(s) =~= v@.subrange(a as int, hi as int));
    }
    let ghost t = v@.subrange(a as int, hi as int);
    let mut b: usize = hi;
    while b > a && is_whitespace(v[b - 1])
        invariant
            lo <= a <= b <= hi <= v@.len(),
            t == v@.subrange(a as int, hi as int),
            trail_ws(t) == (hi - b) + trail_ws(v@.subrange(a as int, b as int)),
        decreases b - a,
    {
        proof {
            assert(v@.subrange(a as int, b as int).drop_last() =~= v@.subrange(a as int, b - 1));
        }
        b -= 1;
    }
    proof {
        assert(trail_ws(v@.subrange(a as int, b as int)) == 0);
        assert(trim(s) =~= v@.subrange(a as int, b as int));
    }
    (a, b)
}

/// The characters `v[lo..hi]` collected into a `String`.
pub fn string_of(v: &Vec<char>, lo: usize, hi: usize) -> (s: String)
    requires
        lo <= hi <= v@.len(),
    ensures
        s@ == v@.subrange(lo as int, hi as int),
{
    let mut s = String::new();
    let mut i: usize = lo;
    while i < hi
        invariant
            lo <= i <= hi <= v@.len(),
            s@ == v@.subrange(lo as int, i as int),
        decreases hi - i,
    {
        s.push(v[i]);
        i += 1;
        proof {
            assert(s@ =~= v@.subrange(lo as int, i as int));
        }
    }
    s
}

/// Whether `v[lo..hi]` spells exactly `lit`.
pub fn range_eq(v: &Vec<char>, lo: usize, hi: usize, lit: &str) -> (r: bool)
    requires
        lo <= hi <= v@.len(),
    ensures
        r == (v@.subrange(lo as int, hi as int) == lit@),
{
    let l = str_to_chars(lit);
    if hi - lo != l.len() {
        proof {
            assert(v@.subrange(lo as int, hi as int).len() != lit@.len());
        }
        return false;
    }
    let mut i: usize = 0;
    while i < l.len()
        invariant
            hi - lo == l@.len(),
            lo <= hi <= v@.len(),
            l@ == lit@,
            0 <= i <= l@.len(),
            forall|j: int| 0 <= j < i ==> v@[lo + j] == l@[j],
        decreases l.len() - i,
    {
        if v[lo + i] != l[i] {
            proof {
                assert(v@.subrange(lo as int, hi as int)[i as int] != lit@[i as int]);
            }
            return false;
        }
        i += 1;
    }
    proof {
        assert(v@.subrange(lo as int, hi as int) =~= lit@);
    }
    true
}

/// Whether `v[lo..hi]` equals `lit` ignoring ASCII case.
pub fn range_eq_ignore_case(v: &Vec<char>, lo: usize, hi: usize, lit: &str) -> (r: bool)
    requires
        lo <= hi <= v@.len(),
    ensures
        r == eq_ignore_ascii_case(v@.subrange(lo as int, hi as int), lit@),
{
    let l = str_to_chars(lit);
    let ghost a = v@.subrange(lo as int, hi as int);
    if hi - lo != l.len() {
        proof {
            assert(ascii_lower_seq(a).len() != ascii_lower_seq(lit@).len());
        }
        return false;
    }
    let mut i: usize = 0;
    while i < l.len()
        invariant
            hi - lo == l@.len(),
            lo <= hi <= v@.len(),
            l@ == lit@,
            a == v@.subrange(lo as int, hi as int),
            0 <= i <= l@.len(),
            forall|j: int| 0 <= j < i ==> ascii_lower(v@[lo + j]) == ascii_lower(l@[j]),
        decreases l.len() - i,
    {
        if lower_char(v[lo + i]) != lower_char(l[i]) {
            proof {
                assert(ascii_lower_seq(a)[i as int] != ascii_lower_seq(lit@)[i as int]);
            }
            return false;
        }
        i += 1;
    }
    proof {
        assert(ascii_lower_seq(a) =~= ascii_lower_seq(lit@));
    }
    true
}


/// The index of the first `c` in `s` at or after `from`, or `s.len()` when
/// there is none.
pub open spec fn first_index_of(s: Seq<char>, c: char, from: int) -> int
    decreases s.len() - from,
{
    if from >= s.len() {
        s.len() as int
    } else if s[from] == c {
        from
    } else {
        first_index_of(s, c, from + 1)
    }
}

pub proof fn lemma_first_index_of(s: Seq<char>, c: char, from: int)
    requires
        0 <= from <= s.len(),
    ensures
        from <= first_index_of(s, c, from) <= s.len(),
        first_index_of(s, c, from) < s.len() ==> s[first_index_of(s, c, from)] == c,
        forall|j: int| from <= j < first_index_of(s, c, from) ==> s[j] != c,
    decreases s.len() - from,
{
    if from < s.len() && s[from] != c {
        lemma_first_index_of(s, c, from + 1);
    }
}

/// Executable [`first_index_of`] over `v[from..hi]`, treating `hi` as the end.
pub fn find_char(v: &Vec<char>, c: char, from: usize, hi: usize) -> (k: usize)
    requires
        from <= hi <= v@.len(),
    ensures
        k == first_index_of(v@.subrange(0, hi as int), c, from as int),
{
    let ghost s = v@.subrange(0, hi as int);
    let mut k: usize = from;
    while k < hi && v[k] != c
        invariant
            from <= k <= hi <= v@.len(),
            s == v@.subrange(0, hi as int),
            first_index_of(s, c, from as int) == first_index_of(s, c, k as int),
        decreases hi - k,
    {
        k += 1;
    }
    k
}

/// Where the `split_inclusive('\n')` piece that starts at `i` ends: just past
/// the next newline, or at the end of `s`.
pub open spec fn piece_end(s: Seq<char>, i: int) -> int {
    let k: int = first_index_of(s, '\n', i);
    if k < s.len() { k + 1 } else { s.len() as int }
}

pub proof fn lemma_piece_end(s: Seq<char>, i: int)
    requires
        0 <= i < s.len(),
    ensures
        i < piece_end(s, i) <= s.len(),
        forall|j: int| i <= j < piece_end(s, i) - 1 ==> s[j] != '\n',
        piece_end(s, i) < s.len() ==> s[piece_end(s, i) - 1] == '\n',
{
    lemma_first_index_of(s, '\n', i);
}

/// Executable [`piece_end`].
pub fn next_piece_end(v: &Vec<char>, i: usize) -> (e: usize)
    requires
        i < v@.len(),
    ensures
        e == piece_end(v@, i as int),
        i < e <= v@.len(),
{
    let k: usize = find_char(v, '\n', i, v.len());
    proof {
        assert(v@.subrange(0, v@.len() as int) =~= v@);
        lemma_first_index_of(v@, '\n', i as int);
    }
    if k < v.len() { k + 1 } else { v.len() }
}

/// `line` without ANY trailing `\n` / `\r` characters
/// (`trim_end_matches(['\n', '\r'])`).
pub open spec fn strip_eol_all(line: Seq<char>) -> Seq<char>
    decreases line.len(),
{
    if line.len() > 0 && (line.last() == '\n' || line.last() == '\r') {
        strip_eol_all(line.drop_last())
    } else {
        line
    }
}

/// The end of `v[lo..hi]` once every trailing `\n` / `\r` is dropped.
pub fn strip_eol_all_range(v: &Vec<char>, lo: usize, hi: usize) -> (e: usize)
    requires
        lo <= hi <= v@.len(),
    ensures
        lo <= e <= hi,
        v@.subrange(lo as int, e as int) == strip_eol_all(v@.subrange(lo as int, hi as int)),
{
    let mut e: usize = hi;
    while e > lo && (v[e - 1] == '\n' || v[e - 1] == '\r')
        invariant
            lo <= e <= hi <= v@.len(),
            strip_eol_all(v@.subrange(lo as int, hi as int)) == strip_eol_all(
                v@.subrange(lo as int, e as int),
            ),
        decreases e - lo,
    {
        proof {
            assert(v@.subrange(lo as int, e as int).drop_last() =~= v@.subrange(lo as int, e - 1));
        }
        e -= 1;
    }
    e
}

/// The number of bytes `c` takes in UTF-8.
pub open spec fn utf8_width(c: char) -> nat {
    if (c as u32) < 0x80 {
        1
    } else if (c as u32) < 0x800 {
        2
    } else if (c as u32) < 0x10000 {
        3
    } else {
        4
    }
}

/// The number of bytes `s` takes in UTF-8 (what `str::len` reports).
pub open spec fn utf8_len(s: Seq<char>) -> nat
    decreases s.len(),
{
    if s.len() == 0 {
        0
    } else {
        utf8_len(s.drop_last()) + utf8_width(s.last())
    }
}

/// Executable [`utf8_width`].
pub fn char_utf8_width(c: char) -> (w: usize)
    ensures
        w == utf8_width(c),
{
    let u: u32 = c as u32;
    if u < 0x80 {
        1
    } else if u < 0x800 {
        2
    } else if u < 0x10000 {
        3
    } else {
        4
    }
}

pub proof fn lemma_utf8_len_add(a: Seq<char>, b: Seq<char>)
    ensures
        utf8_len(a + b) == utf8_len(a) + utf8_len(b),
    decreases b.len(),
{
    if b.len() > 0 {
        lemma_utf8_len_add(a, b.drop_last());
        assert((a + b).drop_last() =~= a + b.drop_last());
        assert((a + b).last() == b.last());
    } else {
        assert(a + b =~= a);
    }
}

pub proof fn lemma_utf8_len_prefix_le(s: Seq<char>, i: int)
    requires
        0 <= i <= s.len(),
    ensures
        utf8_len(s.take(i)) <= utf8_len(s),
{
    lemma_utf8_len_add(s.take(i), s.skip(i));
    assert(s.take(i) + s.skip(i) =~= s);
}

/// The byte count `encode_utf8` produces is [`utf8_len`].
pub proof fn lemma_encode_utf8_len(s: Seq<char>)
    ensures
        vstd::utf8::encode_utf8(s).len() == utf8_len(s),
    decreases s.len(),
{
    if s.len() > 0 {
        lemma_encode_utf8_len(s.drop_first());
        lemma_utf8_len_add(seq![s[0]], s.drop_first());
        assert(seq![s[0]] + s.drop_first() =~= s);
        assert(seq![s[0]].drop_last() =~= Seq::<char>::empty());
        assert(utf8_len(Seq::<char>::empty()) == 0);
        assert(utf8_len(seq![s[0]]) == utf8_width(s[0]));
        vstd::utf8::char_is_scalar(s[0]);
        assert(vstd::utf8::encode_scalar(s[0] as u32).len() == utf8_width(s[0]));
        assert(vstd::utf8::encode_utf8(s) == vstd::utf8::encode_scalar(s[0] as u32)
            + vstd::utf8::encode_utf8(s.drop_first()));
    }
}

/// The UTF-8 byte length of a whole string slice bounds every prefix length.
pub proof fn lemma_str_utf8_len_bound(s: &str, n: usize)
    requires
        n == vstd::utf8::encode_utf8(s@).len(),
    ensures
        utf8_len(s@) <= usize::MAX,
{
    lemma_encode_utf8_len(s@);
}

/// The UTF-8 byte length of `v[0..end]`.
pub fn utf8_len_prefix(v: &Vec<char>, end: usize) -> (n: usize)
    requires
        end <= v@.len(),
        utf8_len(v@) <= usize::MAX,
    ensures
        n == utf8_len(v@.take(end as int)),
{
    let mut n: usize = 0;
    let mut i: usize = 0;
    while i < end
        invariant
            i <= end <= v@.len(),
            utf8_len(v@) <= usize::MAX,
            n == utf8_len(v@.take(i as int)),
        decreases end - i,
    {
        let w: usize = char_utf8_width(v[i]);
        proof {
            assert(v@.take(i + 1).drop_last() =~= v@.take(i as int));
            lemma_utf8_len_prefix_le(v@, i + 1);
        }
        n += w;
        i += 1;
    }
    n
}

/// Executable [`first_index_of`] on the range `v[lo..hi]`, as an offset into
/// that range.
pub fn find_in_range(v: &Vec<char>, c: char, lo: usize, hi: usize) -> (k: usize)
    requires
        lo <= hi <= v@.len(),
    ensures
        lo <= k <= hi,
        k - lo == first_index_of(v@.subrange(lo as int, hi as int), c, 0),
{
    let ghost s = v@.subrange(lo as int, hi as int);
    let mut k: usize = lo;
    while k < hi && v[k] != c
        invariant
            lo <= k <= hi <= v@.len(),
            s == v@.subrange(lo as int, hi as int),
            first_index_of(s, c, 0) == first_index_of(s, c, k - lo),
        decreases hi - k,
    {
        k += 1;
    }
    k
}


// --- Unsigned integer parsing ----------------------------------------------------

/// An ASCII decimal digit.
pub open spec fn is_digit(c: char) -> bool {
    '0' <= c && c <= '9'
}

/// The value of the digit character `c`.
pub open spec fn digit_value(c: char) -> nat {
    ((c as u32) - ('0' as u32)) as nat
}

/// Every character of `s` is a decimal digit.
pub open spec fn all_digits(s: Seq<char>) -> bool {
    forall|i: int| 0 <= i < s.len() ==> is_digit(#[trigger] s[i])
}

/// The value of the digit string `s`, most significant digit first.
pub open spec fn digits_value(s: Seq<char>) -> nat
    decreases s.len(),
{
    if s.len() == 0 {
        0
    } else {
        digits_value(s.drop_last()) * 10 + digit_value(s.last())
    }
}

/// What `str::parse` gives for an unsigned integer type whose largest value
/// is `max`: an optional `+`, then one or more decimal digits whose value is
/// at most `max`; anything else is an error (`None`).
pub open spec fn parse_unsigned(s: Seq<char>, max: nat) -> Option<nat> {
    let body = if s.len() > 0 && s[0] == '+' {
        s.drop_first()
    } else {
        s
    };
    if body.len() == 0 || !all_digits(body) || digits_value(body) > max {
        None
    } else {
        Some(digits_value(body))
    }
}

/// A longer digit string is worth at least as much as its prefix.
pub proof fn lemma_digits_value_prefix(s: Seq<char>, k: int)
    requires
        0 <= k <= s.len(),
        all_digits(s),
    ensures
        digits_value(s.take(k)) <= digits_value(s),
    decreases s.len() - k,
{
    if k < s.len() {
        lemma_digits_value_prefix(s, k + 1);
        assert(s.take(k + 1).drop_last() =~= s.take(k));
    } else {
        assert(s.take(k) =~= s);
    }
}

proof fn lemma_digit_char_value(d: nat)
    requires
        d < 10,
    ensures
        is_digit(digit_char(d)),
        digit_value(digit_char(d)) == d,
{
}

/// The decimal numeral of `n` reads back as `n`.
pub proof fn lemma_decimal_digits(n: nat)
    ensures
        all_digits(decimal(n)),
        digits_value(decimal(n)) == n,
        decimal(n).len() >= 1,
        decimal(n)[0] != '+',
    decreases n,
{
    if n < 10 {
        lemma_digit_char_value(n);
        assert(decimal(n).drop_last() =~= Seq::<char>::empty());
        assert(digits_value(Seq::<char>::empty()) == 0);
        assert(digits_value(decimal(n)) == digits_value(decimal(n).drop_last()) * 10
            + digit_value(decimal(n).last()));
    } else {
        lemma_decimal_digits(n / 10);
        lemma_digit_char_value(n % 10);
        let d = decimal(n);
        assert(d.drop_last() =~= decimal(n / 10));
        assert(d.last() == digit_char(n % 10));
        assert(digits_value(d) == digits_value(decimal(n / 10)) * 10 + digit_value(d.last()));
        assert((n / 10) * 10 + n % 10 == n);
        assert forall|i: int| 0 <= i < d.len() implies is_digit(#[trigger] d[i]) by {
            if i < d.len() - 1 {
                assert(d[i] == decimal(n / 10)[i]);
            }
        }
    }
}

/// Parsing the decimal numeral of `n` gives `n` back.
pub proof fn lemma_parse_decimal(n: nat, max: nat)
    requires
        n <= max,
    ensures
        parse_unsigned(decimal(n), max) == Some(n),
{
    lemma_decimal_digits(n);
}

/// Parse `v[lo..hi]` as an unsigned integer no larger than `max`
/// ([`parse_unsigned`]).
pub fn parse_unsigned_range(v: &Vec<char>, lo: usize, hi: usize, max: u64) -> (r: Option<u64>)
    requires
        lo <= hi <= v@.len(),
    ensures
        match parse_unsigned(v@.subrange(lo as int, hi as int), max as nat) {
            Some(x) => r == Some(x as u64),
            None => r is None,
        },
{
    let ghost s = v@.subrange(lo as int, hi as int);
    let mut start: usize = lo;
    if lo < hi && v[lo] == '+' {
        start = lo + 1;
    }
    let ghost body = v@.subrange(start as int, hi as int);
    proof {
        if lo < hi && v@[lo as int] == '+' {
            assert(body =~= s.drop_first());
        } else {
            assert(body =~= s);
        }
    }
    if start == hi {
        return None;
    }
    let mut acc: u64 = 0;
    let mut i: usize = start;
    while i < hi
        invariant
            lo <= start <= i <= hi <= v@.len(),
            start < hi,
            s == v@.subrange(lo as int, hi as int),
            parse_unsigned(s, max as nat) == (if body.len() == 0 || !all_digits(body)
                || digits_value(body) > max {
                None
            } else {
                Some(digits_value(body))
            }),
            body == v@.subrange(start as int, hi as int),
            all_digits(body.take(i - start)),
            acc == digits_value(body.take(i - start)),
            acc <= max,
        decreases hi - i,
    {
        let c = v[i];
        if !('0' <= c && c <= '9') {
            proof {
                assert(body[i - start] == c);
            }
            return None;
        }
        let d: u64 = (c as u32 - '0' as u32) as u64;
        proof {
            assert(body.take(i - start + 1).drop_last() =~= body.take(i - start));
            assert(body.take(i - start + 1).last() == c);
        }
        if d > max {
            proof {
                if all_digits(body) {
                    lemma_digits_value_prefix(body, i - start + 1);
                }
            }
            return None;
        }
        if acc > (max - d) / 10 {
            proof {
                assert(acc * 10 + d > max) by (nonlinear_arith)
                    requires
                        acc > (max - d) / 10,
                        d <= max,
                ;
                if all_digits(body) {
                    lemma_digits_value_prefix(body, i - start + 1);
                }
            }
            return None;
        }
        proof {
            assert(acc * 10 + d <= max) by (nonlinear_arith)
                requires
                    acc <= (max - d) / 10,
                    d <= max,
            ;
            assert forall|j: int| 0 <= j < i - start + 1 implies is_digit(
                #[trigger] body.take(i - start + 1)[j],
            ) by {
                if j < i - start {
                    assert(body.take(i - start + 1)[j] == body.take(i - start)[j]);
                }
            }
        }
        acc = acc * 10 + d;
        i += 1;
    }
    proof {
        assert(body.take(hi - start) =~= body);
    }
    Some(acc)
}


// --- White-space separated words ---------------------------------------------------

/// How many non-white-space characters `s` starts with.
pub open spec fn word_len(s: Seq<char>) -> nat
    decreases s.len(),
{
    if s.len() > 0 && !is_ws(s[0]) {
        1 + word_len(s.drop_first())
    } else {
        0
    }
}

pub proof fn lemma_word_len_le(s: Seq<char>)
    ensures
        word_len(s) <= s.len(),
        s.len() > 0 && !is_ws(s[0]) ==> word_len(s) >= 1,
    decreases s.len(),
{
    if s.len() > 0 && !is_ws(s[0]) {
        lemma_word_len_le(s.drop_first());
    }
}

pub proof fn lemma_lead_ws_stops(s: Seq<char>)
    ensures
        lead_ws(s) < s.len() ==> !is_ws(s[lead_ws(s) as int]),
    decreases s.len(),
{
    if s.len() > 0 && is_ws(s[0]) {
        lemma_lead_ws_stops(s.drop_first());
        lemma_lead_ws_le(s.drop_first());
    }
}

/// The white-space separated words of `s`, in order (`str::split_whitespace`).
pub open spec fn words(s: Seq<char>) -> Seq<Seq<char>>
    decreases s.len(),
{
    let t = s.skip(lead_ws(s) as int);
    proof {
        lemma_lead_ws_le(s);
        lemma_lead_ws_stops(s);
        lemma_word_len_le(t);
    }
    if t.len() == 0 {
        seq![]
    } else {
        let k: nat = word_len(t);
        seq![t.take(k as int)] + words(t.skip(k as int))
    }
}

/// Each range of `r` picks out the word of `w` at the same index.
pub open spec fn ranges_spell(v: Seq<char>, r: Seq<(usize, usize)>, w: Seq<Seq<char>>) -> bool {
    forall|k: int| 0 <= k < r.len() ==> #[trigger] range_spells(v, r[k], w[k])
}

/// The range `p` of `v` holds exactly `word`.
pub open spec fn range_spells(v: Seq<char>, p: (usize, usize), word: Seq<char>) -> bool {
    p.0 <= p.1 <= v.len() && v.subrange(p.0 as int, p.1 as int) == word
}

/// The character ranges of the first `max` words of `v` ([`words`]).
pub fn word_ranges(v: &Vec<char>, max: usize) -> (r: Vec<(usize, usize)>)
    ensures
        r@.len() == (if words(v@).len() < max {
            words(v@).len()
        } else {
            max as nat
        }),
        ranges_spell(v@, r@, words(v@)),
{
    let mut r: Vec<(usize, usize)> = Vec::new();
    let ghost mut got: Seq<Seq<char>> = seq![];
    let mut pos: usize = 0;
    proof {
        assert(v@.skip(0) =~= v@);
        assert(got + words(v@) =~= words(v@));
    }
    while r.len() < max
        invariant
            0 <= pos <= v@.len(),
            r@.len() == got.len(),
            r@.len() <= max,
            words(v@) == got + words(v@.skip(pos as int)),
            ranges_spell(v@, r@, got),
        decreases max - r.len(),
    {
        let ghost u = v@.skip(pos as int);
        let mut a: usize = pos;
        while a < v.len() && is_whitespace(v[a])
            invariant
                pos <= a <= v@.len(),
                u == v@.skip(pos as int),
                lead_ws(u) == (a - pos) + lead_ws(v@.skip(a as int)),
            decreases v.len() - a,
        {
            proof {
                assert(v@.skip(a as int).drop_first() =~= v@.skip(a + 1));
            }
            a += 1;
        }
        proof {
            assert(lead_ws(v@.skip(a as int)) == 0);
            assert(u.skip(lead_ws(u) as int) =~= v@.skip(a as int));
        }
        if a == v.len() {
            proof {
                assert(words(u) =~= Seq::<Seq<char>>::empty());
                assert(words(v@) =~= got);
            }
            return r;
        }
        let ghost t = v@.skip(a as int);
        let mut b: usize = a;
        while b < v.len() && !is_whitespace(v[b])
            invariant
                a <= b <= v@.len(),
                t == v@.skip(a as int),
                word_len(t) == (b - a) + word_len(v@.skip(b as int)),
            decreases v.len() - b,
        {
            proof {
                assert(v@.skip(b as int).drop_first() =~= v@.skip(b + 1));
            }
            b += 1;
        }
        let ghost old_r = r@;
        let ghost old_got = got;
        proof {
            assert(word_len(v@.skip(b as int)) == 0);
            assert(t.take(word_len(t) as int) =~= v@.subrange(a as int, b as int));
            assert(t.skip(word_len(t) as int) =~= v@.skip(b as int));
            assert(words(u) == seq![v@.subrange(a as int, b as int)] + words(v@.skip(b as int)));
            got = got.push(v@.subrange(a as int, b as int));
            assert(words(v@) =~= got + words(v@.skip(b as int)));
        }
        r.push((a, b));
        proof {
            assert forall|k: int| 0 <= k < r@.len() implies #[trigger] range_spells(v@, r@[k], got[k]) by {
                if k < old_r.len() {
                    assert(r@[k] == old_r[k]);
                    assert(got[k] == old_got[k]);
                    assert(range_spells(v@, old_r[k], old_got[k]));
                }
            }
            assert(ranges_spell(v@, r@, got));
        }
        pos = b;
    }
    proof {
        assert forall|k: int| 0 <= k < r@.len() implies #[trigger] range_spells(v@, r@[k], words(v@)[k]) by {
            assert(words(v@)[k] == got[k]);
            assert(range_spells(v@, r@[k], got[k]));
        }
    }
    r
}

// --- UTF-8 conversions from the standard library ---------------------------------

/// What `String::from_utf8_lossy` makes of `b`.
pub uninterp spec fn utf8_lossy(b: Seq<u8>) -> Seq<char>;

/// The text `String::from_utf8_lossy` reads from `b`: the decoded text when
/// `b` is valid UTF-8, otherwise [`utf8_lossy`].
pub open spec fn lossy_text(b: Seq<u8>) -> Seq<char> {
    if valid_utf8(b) {
        decode_utf8(b)
    } else {
        utf8_lossy(b)
    }
}

/// `String::from_utf8_lossy`, owned. Trusted: for valid UTF-8 the result is
/// exactly the decoded text (the documentation: valid input is returned as
/// is), otherwise it is [`utf8_lossy`] of `b`; how invalid sequences are
/// replaced is left to the name.
#[verifier::external_body]
pub(crate) fn lossy_utf8(b: &[u8]) -> (s: String)
    ensures
        valid_utf8(b@) ==> s@ == decode_utf8(b@),
        !valid_utf8(b@) ==> s@ == utf8_lossy(b@),
{
    String::from_utf8_lossy(b).into_owned()
}

/// `std::str::from_utf8`, owned. Trusted: it succeeds exactly on valid UTF-8,
/// and then yields the decoded text.
#[verifier::external_body]
pub(crate) fn checked_utf8(b: &[u8]) -> (r: Option<String>)
    ensures
        r is Some <==> valid_utf8(b@),
        r matches Some(s) ==> s@ == decode_utf8(b@),
{
    std::str::from_utf8(b).ok().map(|s| s.to_string())
}


/// The view of an optional `&str`.
pub open spec fn opt_str(o: Option<&str>) -> Option<Seq<char>> {
    match o {
        Some(s) => Some(s@),
        None => None,
    }
}

/// Whether two strings hold the same characters.
pub fn str_eq(a: &str, b: &str) -> (r: bool)
    ensures
        r == (a@ == b@),
{
    let x = str_to_chars(a);
    let y = str_to_chars(b);
    if x.len() != y.len() {
        return false;
    }
    let mut i: usize = 0;
    while i < x.len()
        invariant
            0 <= i <= x@.len(),
            x@ == a@,
            y@ == b@,
            x@.len() == y@.len(),
            forall|k: int| 0 <= k < i ==> x@[k] == y@[k],
        decreases x.len() - i,
    {
        if x[i] != y[i] {
            return false;
        }
        i += 1;
    }
    proof {
        assert(x@ =~= y@);
    }
    true
}


// --- Lines ---------------------------------------------------------------------------

/// The line a `split_inclusive('\n')` piece stands for: without its `\n`
/// and a `\r` right before it; an unterminated piece is the line as is.
pub open spec fn line_of_piece(p: Seq<char>) -> Seq<char> {
    if p.len() > 0 && p.last() == '\n' {
        let q = p.drop_last();
        if q.len() > 0 && q.last() == '\r' {
            q.drop_last()
        } else {
            q
        }
    } else {
        p
    }
}

/// The lines of `s` from position `i` on (a line start).
pub open spec fn lines_from(s: Seq<char>, i: int) -> Seq<Seq<char>>
    decreases s.len() - i,
{
    if i < 0 || i >= s.len() {
        seq![]
    } else {
        proof {
            lemma_piece_end(s, i);
        }
        let e = piece_end(s, i);
        seq![line_of_piece(s.subrange(i, e))] + lines_from(s, e)
    }
}

/// The lines of `s` (`str::lines`): split at `\n`, a `\r` before it
/// dropped, no empty line after a final newline.
pub open spec fn lines_of(s: Seq<char>) -> Seq<Seq<char>> {
    lines_from(s, 0)
}

/// The character ranges of the lines of `v` ([`lines_of`]).
pub fn line_ranges(v: &Vec<char>) -> (r: Vec<(usize, usize)>)
    ensures
        r@.len() == lines_of(v@).len(),
        ranges_spell(v@, r@, lines_of(v@)),
{
    let mut r: Vec<(usize, usize)> = Vec::new();
    let ghost mut got: Seq<Seq<char>> = seq![];
    let mut i: usize = 0;
    proof {
        assert(got + lines_from(v@, 0) =~= lines_of(v@));
    }
    while i < v.len()
        invariant
            0 <= i <= v@.len(),
            r@.len() == got.len(),
            lines_of(v@) == got + lines_from(v@, i as int),
            ranges_spell(v@, r@, got),
        decreases v.len() - i,
    {
        let e: usize = next_piece_end(v, i);
        let mut hi: usize = e;
        if hi > i && v[hi - 1] == '\n' {
            hi = hi - 1;
            if hi > i && v[hi - 1] == '\r' {
                hi = hi - 1;
            }
        }
        let ghost old_r = r@;
        let ghost old_got = got;
        proof {
            let p = v@.subrange(i as int, e as int);
            assert(v@.subrange(i as int, hi as int) =~= line_of_piece(p));
            got = got.push(line_of_piece(p));
            assert(lines_of(v@) =~= got + lines_from(v@, e as int));
        }
        r.push((i, hi));
        proof {
            assert forall|k: int| 0 <= k < r@.len() implies #[trigger] range_spells(v@, r@[k], got[k]) by {
                if k < old_r.len() {
                    assert(r@[k] == old_r[k]);
                    assert(got[k] == old_got[k]);
                    assert(range_spells(v@, old_r[k], old_got[k]));
                }
            }
            assert(ranges_spell(v@, r@, got));
        }
        i = e;
    }
    proof {
        assert(lines_from(v@, i as int) =~= Seq::<Seq<char>>::empty());
        assert(got =~= lines_of(v@));
    }
    r
}

} // verus!

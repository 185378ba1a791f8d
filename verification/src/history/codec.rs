//! The on-disk snapshot log format. A log is the magic line `awlhist2`, then
//! per snapshot a header line `"<millis> <bytelen> <pin>[ <name>]"`, exactly
//! `bytelen` content bytes, and a `\n` separator. The explicit byte length
//! lets multi-line content round-trip; the optional name is percent-encoded
//! into a single whitespace-free token. The older `awlhist1` magic (headers
//! without the pin flag) is still read.

use vstd::prelude::*;
use vstd::utf8::{decode_utf8, encode_utf8, valid_utf8};
use crate::text::{
    checked_utf8, lossy_text, lossy_utf8,
    decimal, is_control, is_ctrl, is_whitespace, is_ws, lead_ws, parse_unsigned,
    parse_unsigned_range, push_decimal, str_to_chars, utf8_len, word_ranges, words,
};

verus! {

// --- Entries -----------------------------------------------------------------------

/// One stored snapshot in a file's log: a millis timestamp, the full content,
/// the pinned (kept) flag, and the optional name of a kept version.
#[derive(Debug, Clone, PartialEq, Eq)]
pub struct Entry {
    pub ts: u64,
    pub content: String,
    pub pinned: bool,
    pub name: Option<String>,
}

/// An optional string, by its characters.
pub open spec fn opt_chars(o: Option<String>) -> Option<Seq<char>> {
    match o {
        Some(s) => Some(s@),
        None => None,
    }
}

/// An entry as plain values: timestamp, content, pinned, name.
pub type EntryView = (u64, Seq<char>, bool, Option<Seq<char>>);

impl View for Entry {
    type V = EntryView;

    open spec fn view(&self) -> EntryView {
        (self.ts, self.content@, self.pinned, opt_chars(self.name))
    }
}

/// A list of entries as plain values.
pub open spec fn entries_view(es: Seq<Entry>) -> Seq<EntryView> {
    es.map_values(|e: Entry| e@)
}

/// Encoding a concatenation encodes each part.
pub proof fn lemma_encode_utf8_add(a: Seq<char>, b: Seq<char>)
    ensures
        encode_utf8(a + b) == encode_utf8(a) + encode_utf8(b),
    decreases a.len(),
{
    if a.len() == 0 {
        assert(a + b =~= b);
        assert(encode_utf8(a) =~= Seq::<u8>::empty());
        assert(encode_utf8(a) + encode_utf8(b) =~= encode_utf8(b));
    } else {
        lemma_encode_utf8_add(a.drop_first(), b);
        assert((a + b).drop_first() =~= a.drop_first() + b);
        assert((a + b)[0] == a[0]);
        assert(encode_utf8(a + b) =~= encode_utf8(a) + encode_utf8(b));
    }
}

/// Append the bytes of `b` to `out`.
fn append_bytes(out: &mut Vec<u8>, b: &[u8])
    ensures
        final(out)@ == old(out)@ + b@,
{
    let mut i: usize = 0;
    while i < b.len()
        invariant
            0 <= i <= b@.len(),
            out@ == old(out)@ + b@.take(i as int),
        decreases b.len() - i,
    {
        out.push(b[i]);
        proof {
            assert(b@.take(i + 1) =~= b@.take(i as int).push(b@[i as int]));
            assert(out@ =~= old(out)@ + b@.take(i + 1));
        }
        i += 1;
    }
    proof {
        assert(b@.take(b@.len() as int) =~= b@);
    }
}

/// The UTF-8 bytes of the string `s`.
fn bytes_of(s: &str) -> (r: Vec<u8>)
    ensures
        r@ == encode_utf8(s@),
{
    let mut r: Vec<u8> = Vec::new();
    append_bytes(&mut r, s.as_bytes());
    r
}

// --- Names ---------------------------------------------------------------------------

/// An uppercase hexadecimal digit for `d` (0..=15).
pub open spec fn hex_upper(d: nat) -> char {
    if d < 10 {
        ((d + 48) as u32) as char
    } else {
        ((d + 55) as u32) as char
    }
}

/// `%XX` for one byte, two uppercase hex digits.
pub open spec fn escape_byte(b: u8) -> Seq<char> {
    seq!['%', hex_upper((b / 16) as nat), hex_upper((b % 16) as nat)]
}

/// `%XX` for each byte of `bs`.
pub open spec fn escape_bytes(bs: Seq<u8>) -> Seq<char>
    decreases bs.len(),
{
    if bs.len() == 0 {
        seq![]
    } else {
        escape_byte(bs[0]) + escape_bytes(bs.drop_first())
    }
}

/// A name character that cannot stand verbatim in a header token: `%`, white
/// space, or a control character.
pub open spec fn needs_escape(c: char) -> bool {
    c == '%' || is_ws(c) || is_ctrl(c)
}

/// The header token for a name: every character that [`needs_escape`]
/// becomes `%XX` per UTF-8 byte, every other character stays as is.
pub open spec fn encoded_name(n: Seq<char>) -> Seq<char>
    decreases n.len(),
{
    if n.len() == 0 {
        seq![]
    } else {
        (if needs_escape(n[0]) {
            escape_bytes(encode_utf8(seq![n[0]]))
        } else {
            seq![n[0]]
        }) + encoded_name(n.drop_first())
    }
}

fn hex_digit(d: u8) -> (c: char)
    requires
        d < 16,
    ensures
        c == hex_upper(d as nat),
{
    if d < 10 {
        proof {
            assert(((d + 48) as u32) < 0xD800);
        }
        ((d + 48) as u32 as u8) as char
    } else {
        ((d + 55) as u32 as u8) as char
    }
}

/// Percent-encode a kept version's name into a single whitespace-free header
/// token ([`encoded_name`]).
pub fn encode_name(name: &str) -> (r: String)
    ensures
        r@ == encoded_name(name@),
{
    let v = str_to_chars(name);
    let mut out = String::new();
    let mut k: usize = 0;
    proof {
        assert(v@.skip(0) =~= v@);
        assert(out@ + encoded_name(v@) =~= encoded_name(v@));
    }
    while k < v.len()
        invariant
            0 <= k <= v@.len(),
            v@ == name@,
            out@ + encoded_name(v@.skip(k as int)) == encoded_name(v@),
        decreases v.len() - k,
    {
        let c = v[k];
        proof {
            assert(v@.skip(k as int).drop_first() =~= v@.skip(k + 1));
            assert(v@.skip(k as int)[0] == c);
        }
        let ghost before = out@;
        if c == '%' || is_whitespace(c) || is_control(c) {
            let mut one = String::new();
            one.push(c);
            let b = bytes_of(one.as_str());
            proof {
                assert(one@ =~= seq![c]);
            }
            let mut j: usize = 0;
            while j < b.len()
                invariant
                    0 <= j <= b@.len(),
                    b@ == encode_utf8(seq![c]),
                    out@ == before + escape_bytes(b@.take(j as int)),
                decreases b.len() - j,
            {
                let byte: u8 = b[j];
                out.push('%');
                out.push(hex_digit(byte / 16));
                out.push(hex_digit(byte % 16));
                proof {
                    lemma_escape_bytes_push(b@.take(j as int), byte);
                    assert(b@.take(j + 1) =~= b@.take(j as int).push(byte));
                    assert(out@ =~= before + escape_bytes(b@.take(j + 1)));
                }
                j += 1;
            }
            proof {
                assert(b@.take(b@.len() as int) =~= b@);
                assert(out@ + encoded_name(v@.skip(k + 1)) =~= before + encoded_name(
                    v@.skip(k as int),
                ));
            }
        } else {
            out.push(c);
            proof {
                assert(out@ + encoded_name(v@.skip(k + 1)) =~= before + encoded_name(
                    v@.skip(k as int),
                ));
            }
        }
        k += 1;
    }
    proof {
        assert(v@.skip(v@.len() as int) =~= Seq::<char>::empty());
        assert(out@ + encoded_name(Seq::<char>::empty()) =~= out@);
    }
    out
}

proof fn lemma_escape_bytes_push(bs: Seq<u8>, b: u8)
    ensures
        escape_bytes(bs.push(b)) == escape_bytes(bs) + escape_byte(b),
    decreases bs.len(),
{
    if bs.len() == 0 {
        assert(bs.push(b).drop_first() =~= Seq::<u8>::empty());
        assert(escape_bytes(Seq::<u8>::empty()) =~= Seq::<char>::empty());
        assert(escape_bytes(bs.push(b)) =~= escape_byte(b));
        assert(escape_bytes(bs) + escape_byte(b) =~= escape_byte(b));
    } else {
        lemma_escape_bytes_push(bs.drop_first(), b);
        assert(bs.push(b).drop_first() =~= bs.drop_first().push(b));
        assert(escape_bytes(bs.push(b)) =~= escape_bytes(bs) + escape_byte(b));
    }
}

/// The value of an ASCII hexadecimal digit byte, either case.
pub open spec fn hex_value(b: u8) -> Option<nat> {
    if 48 <= b <= 57 {
        Some((b - 48) as nat)
    } else if 65 <= b <= 70 {
        Some((b - 55) as nat)
    } else if 97 <= b <= 102 {
        Some((b - 87) as nat)
    } else {
        None
    }
}

/// What `u8::from_str_radix(.., 16)` gives for the two bytes `b1 b2`: an
/// optional `+` and then hexadecimal digits.
pub open spec fn hex_pair(b1: u8, b2: u8) -> Option<u8> {
    if b1 == 43 {
        match hex_value(b2) {
            Some(v) => Some(v as u8),
            None => None,
        }
    } else {
        match (hex_value(b1), hex_value(b2)) {
            (Some(h), Some(l)) => Some((h * 16 + l) as u8),
            _ => None,
        }
    }
}

/// Undo `%XX` escapes in `b`: a `%` followed by two bytes that read as a hex
/// byte stands for that byte; every other byte, a lone `%` included, stands
/// for itself.
pub open spec fn unescape(b: Seq<u8>) -> Seq<u8>
    decreases b.len(),
{
    if b.len() == 0 {
        seq![]
    } else if b[0] == 37 && b.len() >= 3 && hex_pair(b[1], b[2]) is Some {
        seq![hex_pair(b[1], b[2]).unwrap()] + unescape(b.skip(3))
    } else {
        seq![b[0]] + unescape(b.drop_first())
    }
}

/// The name a header token stands for: its unescaped bytes, read as UTF-8.
pub open spec fn decoded_name(t: Seq<char>) -> Seq<char> {
    lossy_text(unescape(encode_utf8(t)))
}

fn hex_val(b: u8) -> (r: Option<u8>)
    ensures
        match hex_value(b) {
            Some(v) => r == Some(v as u8),
            None => r is None,
        },
{
    if 48 <= b && b <= 57 {
        Some(b - 48)
    } else if 65 <= b && b <= 70 {
        Some(b - 55)
    } else if 97 <= b && b <= 102 {
        Some(b - 87)
    } else {
        None
    }
}

fn hex_pair_exec(b1: u8, b2: u8) -> (r: Option<u8>)
    ensures
        r == hex_pair(b1, b2),
{
    if b1 == 43 {
        hex_val(b2)
    } else {
        match (hex_val(b1), hex_val(b2)) {
            (Some(h), Some(l)) => Some(h * 16 + l),
            _ => None,
        }
    }
}

/// Decode an [`encode_name`] token back to the name ([`decoded_name`]). A
/// malformed `%` escape passes through literally.
pub fn decode_name(token: &str) -> (r: String)
    ensures
        r@ == decoded_name(token@),
{
    let bytes = bytes_of(token);
    let mut out: Vec<u8> = Vec::new();
    let mut i: usize = 0;
    proof {
        assert(bytes@.skip(0) =~= bytes@);
        assert(out@ + unescape(bytes@) =~= unescape(bytes@));
    }
    while i < bytes.len()
        invariant
            0 <= i <= bytes@.len(),
            out@ + unescape(bytes@.skip(i as int)) == unescape(bytes@),
        decreases bytes.len() - i,
    {
        let ghost rest = bytes@.skip(i as int);
        if bytes[i] == 37 && bytes.len() - i >= 3 {
            let p = hex_pair_exec(bytes[i + 1], bytes[i + 2]);
            match p {
                Some(b) => {
                    proof {
                        assert(rest[1] == bytes@[i + 1] && rest[2] == bytes@[i + 2]);
                        assert(rest.skip(3) =~= bytes@.skip(i + 3));
                        assert(out@.push(b) + unescape(bytes@.skip(i + 3)) =~= out@ + unescape(
                            rest,
                        ));
                    }
                    out.push(b);
                    i += 3;
                    continue;
                },
                None => {
                    proof {
                        assert(rest[1] == bytes@[i + 1] && rest[2] == bytes@[i + 2]);
                    }
                },
            }
        }
        proof {
            assert(rest.drop_first() =~= bytes@.skip(i + 1));
            assert(out@.push(bytes@[i as int]) + unescape(bytes@.skip(i + 1)) =~= out@ + unescape(
                rest,
            ));
        }
        out.push(bytes[i]);
        i += 1;
    }
    proof {
        assert(bytes@.skip(bytes@.len() as int) =~= Seq::<u8>::empty());
        assert(out@ + unescape(Seq::<u8>::empty()) =~= out@);
    }
    lossy_utf8(out.as_slice())
}


// --- The log format ------------------------------------------------------------------

/// The current magic line, `awlhist2`.
pub open spec fn magic_v2() -> Seq<u8> {
    seq![97u8, 119u8, 108u8, 104u8, 105u8, 115u8, 116u8, 50u8]
}

/// The pre-pin magic line, `awlhist1`, still accepted on read.
pub open spec fn magic_v1() -> Seq<u8> {
    seq![97u8, 119u8, 108u8, 104u8, 105u8, 115u8, 116u8, 49u8]
}

/// The pin flag's header character.
pub open spec fn pin_char(p: bool) -> char {
    if p {
        '1'
    } else {
        '0'
    }
}

/// The header line of an entry: millis, content byte length, pin flag and,
/// for a named entry, the encoded name; then a newline.
pub open spec fn header_of(e: EntryView) -> Seq<char> {
    decimal(e.0 as nat) + seq![' '] + decimal(utf8_len(e.1)) + seq![' ', pin_char(e.2)] + (match e.3 {
        Some(n) => seq![' '] + encoded_name(n),
        None => seq![],
    }) + seq!['\n']
}

/// The bytes of one entry: its header, its content, a newline.
pub open spec fn entry_bytes(e: EntryView) -> Seq<u8> {
    encode_utf8(header_of(e)) + encode_utf8(e.1) + seq![10u8]
}

/// The bytes of a list of entries, in order.
pub open spec fn entries_bytes(es: Seq<EntryView>) -> Seq<u8>
    decreases es.len(),
{
    if es.len() == 0 {
        seq![]
    } else {
        entry_bytes(es[0]) + entries_bytes(es.drop_first())
    }
}

/// A whole log: the magic line, then every entry.
pub open spec fn serialized(es: Seq<EntryView>) -> Seq<u8> {
    magic_v2() + seq![10u8] + entries_bytes(es)
}

proof fn lemma_entries_bytes_push(es: Seq<EntryView>, e: EntryView)
    ensures
        entries_bytes(es.push(e)) == entries_bytes(es) + entry_bytes(e),
    decreases es.len(),
{
    if es.len() == 0 {
        assert(es.push(e).drop_first() =~= Seq::<EntryView>::empty());
        assert(entries_bytes(es.push(e)) =~= entry_bytes(e) + entries_bytes(Seq::<EntryView>::empty()));
        assert(entries_bytes(es) + entry_bytes(e) =~= entry_bytes(e));
    } else {
        lemma_entries_bytes_push(es.drop_first(), e);
        assert(es.push(e).drop_first() =~= es.drop_first().push(e));
        assert(entries_bytes(es.push(e)) =~= entries_bytes(es) + entry_bytes(e));
    }
}

fn push_header(e: &Entry) -> (h: String)
    ensures
        h@ == header_of(e@),
{
    let mut h = String::new();
    push_decimal(&mut h, e.ts);
    h.push(' ');
    let n: usize = e.content.as_str().as_bytes().len();
    proof {
        crate::text::lemma_encode_utf8_len(e.content@);
    }
    push_decimal(&mut h, n as u64);
    h.push(' ');
    h.push(if e.pinned { '1' } else { '0' });
    let ghost base = h@;
    proof {
        assert(n == utf8_len(e.content@));
        assert(base =~= decimal(e.ts as nat) + seq![' '] + decimal(utf8_len(e@.1)) + seq![' ', pin_char(e@.2)]);
    }
    match &e.name {
        Some(name) => {
            h.push(' ');
            let enc = encode_name(name.as_str());
            crate::text::append_str(&mut h, enc.as_str());
            proof {
                assert(h@ =~= base + (seq![' '] + encoded_name(name@)));
            }
        },
        None => {
            proof {
                assert(h@ =~= base + Seq::<char>::empty());
            }
        },
    }
    h.push('\n');
    proof {
        assert(h@ =~= header_of(e@));
    }
    h
}

/// Frame `entries` into the log format ([`serialized`]).
pub fn serialize_log(entries: &[Entry]) -> (r: Vec<u8>)
    ensures
        r@ == serialized(entries_view(entries@)),
{
    let mut out: Vec<u8> = Vec::new();
    let magic: [u8; 8] = [97u8, 119u8, 108u8, 104u8, 105u8, 115u8, 116u8, 50u8];
    append_bytes(&mut out, &magic);
    out.push(10u8);
    proof {
        assert(out@ =~= magic_v2() + seq![10u8] + entries_bytes(entries_view(entries@).take(0)));
    }
    let mut i: usize = 0;
    while i < entries.len()
        invariant
            0 <= i <= entries@.len(),
            out@ == magic_v2() + seq![10u8] + entries_bytes(entries_view(entries@).take(i as int)),
        decreases entries.len() - i,
    {
        let e = &entries[i];
        let h = push_header(e);
        let ghost before = out@;
        append_bytes(&mut out, h.as_str().as_bytes());
        append_bytes(&mut out, e.content.as_str().as_bytes());
        out.push(10u8);
        proof {
            let ev = entries_view(entries@);
            assert(ev.take(i + 1) =~= ev.take(i as int).push(ev[i as int]));
            lemma_entries_bytes_push(ev.take(i as int), ev[i as int]);
            assert(out@ =~= magic_v2() + seq![10u8] + entries_bytes(ev.take(i + 1)));
        }
        i += 1;
    }
    proof {
        assert(entries_view(entries@).take(entries@.len() as int) =~= entries_view(entries@));
    }
    out
}

/// The position of the first newline in `b` at or after `i` (`b.len()` when
/// there is none).
pub open spec fn first_newline(b: Seq<u8>, i: int) -> int
    decreases b.len() - i,
{
    if i >= b.len() {
        b.len() as int
    } else if b[i] == 10 {
        i
    } else {
        first_newline(b, i + 1)
    }
}

pub proof fn lemma_first_newline(b: Seq<u8>, i: int)
    requires
        0 <= i <= b.len(),
    ensures
        i <= first_newline(b, i) <= b.len(),
        first_newline(b, i) < b.len() ==> b[first_newline(b, i)] == 10,
        forall|j: int| i <= j < first_newline(b, i) ==> b[j] != 10,
    decreases b.len() - i,
{
    if i < b.len() && b[i] != 10 {
        lemma_first_newline(b, i + 1);
    }
}

/// The entry whose header starts at `i` in `body`, with the position just
/// past it (past its separator newline, when there is one); `None` when the
/// header line is unterminated, not UTF-8, lacks a parseable millis and byte
/// length, or the content runs past the end. A third header word of `1`
/// marks the entry pinned; a fourth is its encoded name (an empty name reads
/// as none).
pub open spec fn parse_entry_at(body: Seq<u8>, i: int) -> Option<(EntryView, int)> {
    let nl: int = first_newline(body, i);
    if nl >= body.len() {
        None
    } else {
        let hb = body.subrange(i, nl);
        if !valid_utf8(hb) {
            None
        } else {
            let toks = words(decode_utf8(hb));
            if toks.len() < 2 {
                None
            } else {
                match (parse_unsigned(toks[0], u64::MAX as nat), parse_unsigned(toks[1], usize::MAX as nat)) {
                    (Some(ts), Some(len)) => {
                        let pinned = toks.len() >= 3 && toks[2] == seq!['1'];
                        let name = if toks.len() >= 4 && decoded_name(toks[3]).len() > 0 {
                            Some(decoded_name(toks[3]))
                        } else {
                            None
                        };
                        let start: int = nl + 1;
                        if start + len > body.len() {
                            None
                        } else {
                            let content = lossy_text(body.subrange(start, start + len));
                            let next: int = start + len;
                            let after: int = if next < body.len() && body[next] == 10 {
                                next + 1
                            } else {
                                next
                            };
                            Some(((ts as u64, content, pinned, name), after))
                        }
                    },
                    _ => None,
                }
            }
        }
    }
}

/// Parse the entries of `body` from position `i`: the entries read until the
/// end or the first malformed one, and whether the end was reached cleanly.
pub open spec fn parse_body(body: Seq<u8>, i: int) -> (Seq<EntryView>, bool)
    decreases body.len() - i,
{
    if i < 0 || i >= body.len() {
        (seq![], true)
    } else {
        proof {
            lemma_first_newline(body, i);
        }
        match parse_entry_at(body, i) {
            None => (seq![], false),
            Some((e, next)) => {
                let rest = parse_body(body, next);
                (seq![e] + rest.0, rest.1)
            },
        }
    }
}

/// What a log's bytes hold: after either magic line (and its newline), the
/// parsed entries and whether the whole log was read cleanly; a log with
/// neither magic reads as empty and untrusted.
pub open spec fn parse_log_spec(bytes: Seq<u8>) -> (Seq<EntryView>, bool) {
    if bytes.len() >= 8 && (bytes.take(8) == magic_v2() || bytes.take(8) == magic_v1()) {
        let rest = bytes.skip(8);
        let body = if rest.len() > 0 && rest[0] == 10 {
            rest.skip(1)
        } else {
            rest
        };
        parse_body(body, 0)
    } else {
        (seq![], false)
    }
}

fn has_magic(bytes: &[u8]) -> (r: bool)
    ensures
        r == (bytes@.len() >= 8 && (bytes@.take(8) == magic_v2() || bytes@.take(8) == magic_v1())),
{
    if bytes.len() < 8 {
        return false;
    }
    let head = bytes[0] == 97u8 && bytes[1] == 119u8 && bytes[2] == 108u8 && bytes[3] == 104u8
        && bytes[4] == 105u8 && bytes[5] == 115u8 && bytes[6] == 116u8;
    let r = head && (bytes[7] == 50u8 || bytes[7] == 49u8);
    proof {
        if r {
            if bytes[7] == 50u8 {
                assert(bytes@.take(8) =~= magic_v2());
            } else {
                assert(bytes@.take(8) =~= magic_v1());
            }
        } else {
            if bytes@.take(8) == magic_v2() {
                assert(bytes@.take(8)[7] == 50u8);
                assert(bytes@.take(8)[0] == 97u8);
            }
            if bytes@.take(8) == magic_v1() {
                assert(bytes@.take(8)[7] == 49u8);
                assert(bytes@.take(8)[0] == 97u8);
            }
        }
    }
    r
}

/// Parse one entry at `i` of `body` ([`parse_entry_at`]).
fn parse_entry(body: &Vec<u8>, i: usize) -> (r: Option<(Entry, usize)>)
    requires
        i < body@.len(),
    ensures
        match parse_entry_at(body@, i as int) {
            None => r is None,
            Some((e, next)) => r matches Some((x, n)) && x@ == e && n == next,
        },
{
    let mut nl: usize = i;
    while nl < body.len() && body[nl] != 10u8
        invariant
            i <= nl <= body@.len(),
            first_newline(body@, i as int) == first_newline(body@, nl as int),
        decreases body.len() - nl,
    {
        nl += 1;
    }
    if nl == body.len() {
        return None;
    }
    let hb = vstd::slice::slice_subrange(body.as_slice(), i, nl);
    let header = match checked_utf8(hb) {
        Some(h) => h,
        None => return None,
    };
    let hv = str_to_chars(header.as_str());
    let toks = word_ranges(&hv, 4);
    let ghost w = words(hv@);
    if toks.len() < 2 {
        return None;
    }
    proof {
        assert(crate::text::range_spells(hv@, toks@[0], w[0]));
        assert(crate::text::range_spells(hv@, toks@[1], w[1]));
    }
    let ts: u64 = match parse_unsigned_range(&hv, toks[0].0, toks[0].1, u64::MAX) {
        Some(t) => t,
        None => return None,
    };
    let len: usize = match parse_unsigned_range(&hv, toks[1].0, toks[1].1, usize::MAX as u64) {
        Some(l) => l as usize,
        None => return None,
    };
    let mut pinned = false;
    if toks.len() >= 3 {
        proof {
            assert(crate::text::range_spells(hv@, toks@[2], w[2]));
            reveal_strlit("1");
        }
        pinned = crate::text::range_eq(&hv, toks[2].0, toks[2].1, "1");
        proof {
            assert("1"@ =~= seq!['1']);
        }
    }
    let mut name: Option<String> = None;
    if toks.len() >= 4 {
        proof {
            assert(crate::text::range_spells(hv@, toks@[3], w[3]));
        }
        let tok = crate::text::string_of(&hv, toks[3].0, toks[3].1);
        let d = decode_name(tok.as_str());
        if !d.as_str().is_empty() {
            name = Some(d);
        }
    }
    let start: usize = nl + 1;
    if len > body.len() - start {
        return None;
    }
    let cb = vstd::slice::slice_subrange(body.as_slice(), start, start + len);
    let content = lossy_utf8(cb);
    let mut next: usize = start + len;
    if next < body.len() && body[next] == 10u8 {
        next = next + 1;
    }
    Some((Entry { ts, content, pinned, name }, next))
}

/// Parse a log's bytes ([`parse_log_spec`]): the entries read, newest first
/// as stored, and whether the log was read cleanly to its end. A garbled
/// magic line, an unterminated or unparseable header, or content running
/// past the end stops the parse and marks the log untrusted; what was read
/// before that is still returned.
pub fn parse_log_checked(bytes: &[u8]) -> (r: (Vec<Entry>, bool))
    ensures
        (entries_view(r.0@), r.1) == parse_log_spec(bytes@),
{
    let mut out: Vec<Entry> = Vec::new();
    if !has_magic(bytes) {
        proof {
            assert(entries_view(out@) =~= Seq::<EntryView>::empty());
        }
        return (out, false);
    }
    let mut off: usize = 8;
    if bytes.len() > 8 && bytes[8] == 10u8 {
        off = 9;
    }
    let body = vstd::slice::slice_to_vec(vstd::slice::slice_subrange(bytes, off, bytes.len()));
    proof {
        let rest = bytes@.skip(8);
        if rest.len() > 0 && rest[0] == 10 {
            assert(body@ =~= rest.skip(1));
        } else {
            assert(body@ =~= rest);
        }
        assert(entries_view(out@) =~= Seq::<EntryView>::empty());
        assert(parse_body(body@, 0) == (entries_view(out@) + parse_body(body@, 0).0, parse_body(body@, 0).1));
    }
    let mut i: usize = 0;
    while i < body.len()
        invariant
            0 <= i <= body@.len(),
            parse_log_spec(bytes@) == parse_body(body@, 0),
            parse_body(body@, 0) == (entries_view(out@) + parse_body(body@, i as int).0, parse_body(body@, i as int).1),
        decreases body.len() - i,
    {
        proof {
            lemma_first_newline(body@, i as int);
        }
        match parse_entry(&body, i) {
            None => {
                proof {
                    assert(entries_view(out@) + Seq::<EntryView>::empty() =~= entries_view(out@));
                }
                return (out, false);
            },
            Some((e, next)) => {
                let ghost before = entries_view(out@);
                out.push(e);
                proof {
                    assert(entries_view(out@) =~= before.push(e@));
                    let rest = parse_body(body@, next as int);
                    assert(before + parse_body(body@, i as int).0 =~= entries_view(out@) + rest.0);
                }
                i = next;
            },
        }
    }
    proof {
        assert(entries_view(out@) + Seq::<EntryView>::empty() =~= entries_view(out@));
    }
    (out, true)
}

/// [`parse_log_checked`]'s entries alone.
pub fn parse_log(bytes: &[u8]) -> (r: Vec<Entry>)
    ensures
        entries_view(r@) == parse_log_spec(bytes@).0,
{
    parse_log_checked(bytes).0
}


// --- The round trip ------------------------------------------------------------------

proof fn lemma_encode_char(c: char)
    ensures
        encode_utf8(seq![c]) == vstd::utf8::encode_scalar(c as u32),
        1 <= encode_utf8(seq![c]).len() <= 4,
        (c as u32) < 0x80 ==> encode_utf8(seq![c]) == seq![(c as u32) as u8],
        (c as u32) >= 0x80 ==> forall|k: int|
            0 <= k < encode_utf8(seq![c]).len() ==> #[trigger] encode_utf8(seq![c])[k] >= 0x80,
{
    assert(seq![c].drop_first() =~= Seq::<char>::empty());
    assert(encode_utf8(Seq::<char>::empty()) =~= Seq::<u8>::empty());
    assert(encode_utf8(seq![c]) =~= vstd::utf8::encode_scalar(c as u32));
    vstd::utf8::char_is_scalar(c);
    let s: u32 = c as u32;
    if s < 0x80 {
        assert(vstd::utf8::leading_byte_width_1(s) == s as u8) by (bit_vector)
            requires
                s < 0x80,
        ;
    } else {
        assert(vstd::utf8::leading_byte_width_2(s) >= 0x80) by (bit_vector);
        assert(vstd::utf8::leading_byte_width_3(s) >= 0x80) by (bit_vector);
        assert(vstd::utf8::leading_byte_width_4(s) >= 0x80) by (bit_vector);
        assert(vstd::utf8::last_continuation_byte(s) >= 0x80) by (bit_vector);
        assert(vstd::utf8::second_last_continuation_byte(s) >= 0x80) by (bit_vector);
        assert(vstd::utf8::third_last_continuation_byte(s) >= 0x80) by (bit_vector);
    }
}

/// The UTF-8 bytes of text without the ASCII character `c0` never hold the
/// byte `c0`.
proof fn lemma_no_byte(s: Seq<char>, c0: char)
    requires
        (c0 as u32) < 0x80,
        forall|k: int| 0 <= k < s.len() ==> s[k] != c0,
    ensures
        forall|k: int| 0 <= k < encode_utf8(s).len() ==> #[trigger] encode_utf8(s)[k] != (c0 as u32) as u8,
    decreases s.len(),
{
    if s.len() > 0 {
        lemma_no_byte(s.drop_first(), c0);
        lemma_encode_char(s[0]);
        lemma_encode_utf8_add(seq![s[0]], s.drop_first());
        assert(seq![s[0]] + s.drop_first() =~= s);
        let a = encode_utf8(seq![s[0]]);
        let b = encode_utf8(s.drop_first());
        assert forall|k: int| 0 <= k < encode_utf8(s).len() implies #[trigger] encode_utf8(s)[k]
            != (c0 as u32) as u8 by {
            if k < a.len() {
                assert(encode_utf8(s)[k] == a[k]);
                if (s[0] as u32) < 0x80 {
                    assert(a[k] == (s[0] as u32) as u8);
                    vstd::utf8::char_u32_cast(s[0], s[0] as u32);
                    vstd::utf8::char_u32_cast(c0, c0 as u32);
                    assert((s[0] as u32) != (c0 as u32));
                }
            } else {
                assert(encode_utf8(s)[k] == b[k - a.len()]);
            }
        }
    }
}

proof fn lemma_word_len_of(w: Seq<char>, rest: Seq<char>)
    requires
        forall|k: int| 0 <= k < w.len() ==> !is_ws(#[trigger] w[k]),
        rest.len() == 0 || is_ws(rest[0]),
    ensures
        crate::text::word_len(w + rest) == w.len(),
    decreases w.len(),
{
    if w.len() > 0 {
        lemma_word_len_of(w.drop_first(), rest);
        assert((w + rest).drop_first() =~= w.drop_first() + rest);
        assert((w + rest)[0] == w[0]);
    } else {
        assert(w + rest =~= rest);
    }
}

/// A word followed by white space (or nothing) is the first word.
proof fn lemma_words_cons(w: Seq<char>, rest: Seq<char>)
    requires
        w.len() > 0,
        forall|k: int| 0 <= k < w.len() ==> !is_ws(#[trigger] w[k]),
        rest.len() == 0 || is_ws(rest[0]),
    ensures
        words(w + rest) == seq![w] + words(rest),
{
    let s = w + rest;
    assert(s[0] == w[0]);
    assert(lead_ws(s) == 0);
    assert(s.skip(0) =~= s);
    lemma_word_len_of(w, rest);
    assert(s.take(w.len() as int) =~= w);
    assert(s.skip(w.len() as int) =~= rest);
}

/// A leading space does not change the words.
proof fn lemma_words_space(rest: Seq<char>)
    ensures
        words(seq![' '] + rest) == words(rest),
{
    let s = seq![' '] + rest;
    assert(s.drop_first() =~= rest);
    assert(lead_ws(s) == 1 + lead_ws(rest));
    crate::text::lemma_lead_ws_le(rest);
    assert(s.skip(lead_ws(s) as int) =~= rest.skip(lead_ws(rest) as int));
}

proof fn lemma_escape_bytes_plain(bs: Seq<u8>)
    ensures
        forall|k: int| 0 <= k < escape_bytes(bs).len() ==> !is_ws(#[trigger] escape_bytes(bs)[k])
            && (escape_bytes(bs)[k] as u32) < 0x80,
    decreases bs.len(),
{
    if bs.len() > 0 {
        lemma_escape_bytes_plain(bs.drop_first());
        let e = escape_byte(bs[0]);
        let r = escape_bytes(bs.drop_first());
        assert forall|k: int| 0 <= k < escape_bytes(bs).len() implies !is_ws(
            #[trigger] escape_bytes(bs)[k],
        ) && (escape_bytes(bs)[k] as u32) < 0x80 by {
            if k >= 3 {
                assert(escape_bytes(bs)[k] == r[k - 3]);
            }
        }
    }
}

/// An encoded name holds no white space, and is empty only for an empty name.
proof fn lemma_encoded_name_plain(n: Seq<char>)
    ensures
        forall|k: int| 0 <= k < encoded_name(n).len() ==> !is_ws(#[trigger] encoded_name(n)[k]),
        n.len() > 0 ==> encoded_name(n).len() > 0,
    decreases n.len(),
{
    if n.len() > 0 {
        lemma_encoded_name_plain(n.drop_first());
        let p = if needs_escape(n[0]) {
            escape_bytes(encode_utf8(seq![n[0]]))
        } else {
            seq![n[0]]
        };
        lemma_escape_bytes_plain(encode_utf8(seq![n[0]]));
        lemma_encode_char(n[0]);
        let bs = encode_utf8(seq![n[0]]);
        assert(bs.len() >= 1);
        assert(escape_bytes(bs).len() >= 3);
        let r = encoded_name(n.drop_first());
        assert forall|k: int| 0 <= k < encoded_name(n).len() implies !is_ws(
            #[trigger] encoded_name(n)[k],
        ) by {
            if k >= p.len() {
                assert(encoded_name(n)[k] == r[k - p.len()]);
            } else {
                assert(encoded_name(n)[k] == p[k]);
            }
        }
    }
}

/// Bytes without `%` pass through unescaping unchanged.
proof fn lemma_unescape_plain(bs: Seq<u8>, t: Seq<u8>)
    requires
        forall|k: int| 0 <= k < bs.len() ==> #[trigger] bs[k] != 37,
    ensures
        unescape(bs + t) == bs + unescape(t),
    decreases bs.len(),
{
    if bs.len() > 0 {
        lemma_unescape_plain(bs.drop_first(), t);
        assert((bs + t)[0] == bs[0]);
        assert((bs + t).drop_first() =~= bs.drop_first() + t);
        assert(unescape(bs + t) =~= bs + unescape(t));
    } else {
        assert(bs + t =~= t);
    }
}

proof fn lemma_hex_upper_byte(d: nat)
    requires
        d < 16,
    ensures
        (hex_upper(d) as u32) < 0x80,
        hex_value((hex_upper(d) as u32) as u8) == Some(d),
        (hex_upper(d) as u32) as u8 != 43,
{
}

/// `%XX` escapes read back as their bytes.
proof fn lemma_unescape_escaped(bs: Seq<u8>, t: Seq<u8>)
    ensures
        unescape(encode_utf8(escape_bytes(bs)) + t) == bs + unescape(t),
    decreases bs.len(),
{
    if bs.len() == 0 {
        assert(encode_utf8(Seq::<char>::empty()) =~= Seq::<u8>::empty());
        assert(encode_utf8(escape_bytes(bs)) + t =~= t);
        assert(bs + unescape(t) =~= unescape(t));
    } else {
        let b = bs[0];
        let hi = (b / 16) as nat;
        let lo = (b % 16) as nat;
        lemma_hex_upper_byte(hi);
        lemma_hex_upper_byte(lo);
        let e = escape_byte(b);
        let rest = escape_bytes(bs.drop_first());
        lemma_encode_utf8_add(e, rest);
        let hh = seq![hex_upper(hi)];
        let ll = seq![hex_upper(lo)];
        lemma_encode_utf8_add(seq!['%'], hh + ll);
        lemma_encode_utf8_add(hh, ll);
        assert(e =~= seq!['%'] + (hh + ll));
        lemma_encode_char('%');
        lemma_encode_char(hex_upper(hi));
        lemma_encode_char(hex_upper(lo));
        let h1 = (hex_upper(hi) as u32) as u8;
        let h2 = (hex_upper(lo) as u32) as u8;
        assert(encode_utf8(e) =~= seq![37u8, h1, h2]);
        let x = encode_utf8(escape_bytes(bs)) + t;
        let y = encode_utf8(rest) + t;
        assert(x =~= seq![37u8, h1, h2] + y);
        assert(hex_pair(h1, h2) == Some(b)) by {
            assert(hi * 16 + lo == b);
        }
        assert(x.skip(3) =~= y);
        lemma_unescape_escaped(bs.drop_first(), t);
        assert(unescape(x) =~= bs + unescape(t));
    }
}

proof fn lemma_unescape_encoded(n: Seq<char>, t: Seq<u8>)
    ensures
        unescape(encode_utf8(encoded_name(n)) + t) == encode_utf8(n) + unescape(t),
    decreases n.len(),
{
    if n.len() == 0 {
        assert(encode_utf8(encoded_name(n)) =~= Seq::<u8>::empty());
        assert(encode_utf8(n) =~= Seq::<u8>::empty());
        assert(encode_utf8(encoded_name(n)) + t =~= t);
        assert(encode_utf8(n) + unescape(t) =~= unescape(t));
    } else {
        let c = n[0];
        let r = n.drop_first();
        let p = if needs_escape(c) {
            escape_bytes(encode_utf8(seq![c]))
        } else {
            seq![c]
        };
        assert(encoded_name(n) == p + encoded_name(r));
        lemma_encode_utf8_add(p, encoded_name(r));
        let tail = encode_utf8(encoded_name(r)) + t;
        assert(encode_utf8(encoded_name(n)) + t =~= encode_utf8(p) + tail);
        if needs_escape(c) {
            lemma_unescape_escaped(encode_utf8(seq![c]), tail);
        } else {
            lemma_encode_char(c);
            lemma_no_byte(seq![c], '%');
            lemma_unescape_plain(encode_utf8(seq![c]), tail);
        }
        lemma_unescape_encoded(r, t);
        lemma_encode_utf8_add(seq![c], r);
        assert(seq![c] + r =~= n);
    }
}

/// LAW: a name read back from its header token is the name.
pub proof fn lemma_name_round_trips(n: Seq<char>)
    ensures
        decoded_name(encoded_name(n)) == n,
{
    lemma_unescape_encoded(n, Seq::<u8>::empty());
    assert(encode_utf8(encoded_name(n)) + Seq::<u8>::empty() =~= encode_utf8(encoded_name(n)));
    assert(encode_utf8(n) + unescape(Seq::<u8>::empty()) =~= encode_utf8(n));
    vstd::utf8::encode_utf8_valid_utf8(n);
    vstd::utf8::encode_utf8_decode_utf8(n);
}

/// The entries a log can hold and give back: every name non-empty, every
/// content's byte length a `usize`.
pub open spec fn storable(es: Seq<EntryView>) -> bool {
    forall|k: int|
        0 <= k < es.len() ==> (#[trigger] es[k]).3.unwrap_or(seq!['x']).len() > 0 && utf8_len(es[k].1)
            <= usize::MAX
}

proof fn lemma_digits_plain(n: nat)
    ensures
        forall|k: int| 0 <= k < decimal(n).len() ==> !is_ws(#[trigger] decimal(n)[k]) && decimal(n)[k]
            != '\n',
{
    crate::text::lemma_decimal_digits(n);
    assert forall|k: int| 0 <= k < decimal(n).len() implies !is_ws(#[trigger] decimal(n)[k])
        && decimal(n)[k] != '\n' by {
        assert(crate::text::is_digit(decimal(n)[k]));
    }
}

/// The header line of an entry, without its newline, splits into its words.
proof fn lemma_header_words(e: EntryView)
    requires
        e.3.unwrap_or(seq!['x']).len() > 0,
    ensures
        words(header_of(e).drop_last()) == (match e.3 {
            Some(n) => seq![decimal(e.0 as nat), decimal(utf8_len(e.1)), seq![pin_char(e.2)], encoded_name(n)],
            None => seq![decimal(e.0 as nat), decimal(utf8_len(e.1)), seq![pin_char(e.2)]],
        }),
{
    let a = decimal(e.0 as nat);
    let b = decimal(utf8_len(e.1));
    let p = seq![pin_char(e.2)];
    lemma_digits_plain(e.0 as nat);
    lemma_digits_plain(utf8_len(e.1));
    crate::text::lemma_decimal_digits(e.0 as nat);
    crate::text::lemma_decimal_digits(utf8_len(e.1));
    let tail: Seq<char> = match e.3 {
        Some(n) => seq![' '] + encoded_name(n),
        None => seq![],
    };
    assert(header_of(e).drop_last() =~= a + (seq![' '] + (b + (seq![' '] + (p + tail)))));
    let tw: Seq<Seq<char>> = match e.3 {
        Some(n) => seq![encoded_name(n)],
        None => seq![],
    };
    match e.3 {
        Some(n) => {
            lemma_encoded_name_plain(n);
            lemma_words_space(encoded_name(n));
            lemma_words_cons(encoded_name(n), Seq::<char>::empty());
            assert(encoded_name(n) + Seq::<char>::empty() =~= encoded_name(n));
            assert(words(Seq::<char>::empty()) =~= Seq::<Seq<char>>::empty());
            assert(words(tail) =~= tw);
        },
        None => {
            assert(words(Seq::<char>::empty()) =~= Seq::<Seq<char>>::empty());
            assert(words(tail) =~= tw);
        },
    }
    lemma_words_cons(p, tail);
    lemma_words_space(p + tail);
    lemma_words_cons(b, seq![' '] + (p + tail));
    lemma_words_space(b + (seq![' '] + (p + tail)));
    lemma_words_cons(a, seq![' '] + (b + (seq![' '] + (p + tail))));
    assert(words(header_of(e).drop_last()) =~= seq![a, b, p] + tw);
}

/// An entry's bytes, wherever they stand in a body, parse back to it.
proof fn lemma_entry_parses(body: Seq<u8>, i: int, e: EntryView)
    requires
        0 <= i,
        i + entry_bytes(e).len() <= body.len(),
        body.subrange(i, i + entry_bytes(e).len()) == entry_bytes(e),
        e.3.unwrap_or(seq!['x']).len() > 0,
        utf8_len(e.1) <= usize::MAX,
    ensures
        parse_entry_at(body, i) == Some((e, i + entry_bytes(e).len())),
{
    let hc = header_of(e);
    let hl = hc.drop_last();
    assert(hc =~= hl.push('\n'));
    lemma_encode_utf8_add(hl, seq!['\n']);
    lemma_encode_char('\n');
    let hbytes = encode_utf8(hl);
    let cbytes = encode_utf8(e.1);
    assert(hl.push('\n') =~= hl + seq!['\n']);
    assert(encode_utf8(hc) =~= hbytes + seq![10u8]);
    assert(entry_bytes(e) =~= hbytes + seq![10u8] + cbytes + seq![10u8]);
    // the header holds no newline
    lemma_header_words(e);
    assert forall|k: int| 0 <= k < hl.len() implies hl[k] != '\n' by {
        lemma_digits_plain(e.0 as nat);
        lemma_digits_plain(utf8_len(e.1));
        match e.3 {
            Some(n) => {
                lemma_encoded_name_plain(n);
            },
            None => {},
        }
        let a = decimal(e.0 as nat);
        let b = decimal(utf8_len(e.1));
        if k < a.len() {
            assert(hl[k] == a[k]);
        } else if k == a.len() {
        } else if k < a.len() + 1 + b.len() {
            assert(hl[k] == b[k - a.len() - 1]);
        } else if k <= a.len() + b.len() + 3 {
        } else {
            let n = e.3.unwrap();
            assert(hl[k] == encoded_name(n)[k - a.len() - b.len() - 4]);
        }
    }
    lemma_no_byte(hl, '\n');
    let nl = i + hbytes.len();
    assert forall|j: int| i <= j < nl implies body[j] != 10 by {
        assert(body[j] == body.subrange(i, i + entry_bytes(e).len())[j - i]);
        assert(entry_bytes(e)[j - i] == hbytes[j - i]);
    }
    assert(body[nl] == entry_bytes(e)[nl - i]);
    lemma_first_newline_at(body, i, nl);
    assert(body.subrange(i, nl) =~= hbytes);
    vstd::utf8::encode_utf8_valid_utf8(hl);
    vstd::utf8::encode_utf8_decode_utf8(hl);
    crate::text::lemma_parse_decimal(e.0 as nat, u64::MAX as nat);
    crate::text::lemma_parse_decimal(utf8_len(e.1), usize::MAX as nat);
    crate::text::lemma_encode_utf8_len(e.1);
    let start = nl + 1;
    let len = utf8_len(e.1);
    assert forall|k: int| 0 <= k < len implies body.subrange(start, start + len)[k] == cbytes[k] by {
        assert(body[start + k] == body.subrange(i, i + entry_bytes(e).len())[start + k - i]);
        assert(entry_bytes(e)[start + k - i] == cbytes[k]);
    }
    assert(body.subrange(start, start + len) =~= cbytes);
    vstd::utf8::encode_utf8_valid_utf8(e.1);
    vstd::utf8::encode_utf8_decode_utf8(e.1);
    assert(body[start + len] == entry_bytes(e)[start + len - i]);
    match e.3 {
        Some(n) => {
            lemma_name_round_trips(n);
        },
        None => {},
    }
    reveal_strlit("1");
    if e.2 {
        assert(seq![pin_char(e.2)] =~= seq!['1']);
    } else {
        assert(seq![pin_char(e.2)][0] != seq!['1'][0]);
    }
}

proof fn lemma_first_newline_at(b: Seq<u8>, i: int, nl: int)
    requires
        0 <= i <= nl < b.len(),
        b[nl] == 10,
        forall|j: int| i <= j < nl ==> b[j] != 10,
    ensures
        first_newline(b, i) == nl,
    decreases nl - i,
{
    if i < nl {
        lemma_first_newline_at(b, i + 1, nl);
    }
}

proof fn lemma_body_parses(body: Seq<u8>, i: int, es: Seq<EntryView>)
    requires
        0 <= i <= body.len(),
        body.skip(i) == entries_bytes(es),
        storable(es),
    ensures
        parse_body(body, i) == (es, true),
    decreases es.len(),
{
    if es.len() == 0 {
        assert(body.skip(i).len() == 0);
    } else {
        let e = es[0];
        let l = entry_bytes(e).len();
        let eb = entry_bytes(e);
        let rb = entries_bytes(es.drop_first());
        assert(body.skip(i) == eb + rb);
        assert(body.len() - i == l + rb.len());
        assert forall|k: int| 0 <= k < l implies body.subrange(i, i + l)[k] == eb[k] by {
            assert(body.subrange(i, i + l)[k] == body.skip(i)[k]);
            assert((eb + rb)[k] == eb[k]);
        }
        assert(body.subrange(i, i + l) =~= entry_bytes(e));
        assert forall|k: int| 0 <= k < rb.len() implies body.skip(i + l)[k] == rb[k] by {
            assert(body.skip(i + l)[k] == body.skip(i)[l + k]);
            assert((eb + rb)[l + k] == rb[k]);
        }
        assert(es[0] == e);
        lemma_entry_parses(body, i, e);
        assert(entry_bytes(e).len() > 0);
        assert(body.skip(i + l) =~= entries_bytes(es.drop_first()));
        assert(storable(es.drop_first())) by {
            assert forall|k: int| 0 <= k < es.drop_first().len() implies (#[trigger] es.drop_first()[k]).3.unwrap_or(
                seq!['x'],
            ).len() > 0 && utf8_len(es.drop_first()[k].1) <= usize::MAX by {
                assert(es.drop_first()[k] == es[k + 1]);
            }
        }
        lemma_body_parses(body, i + l, es.drop_first());
        assert(seq![e] + es.drop_first() =~= es);
    }
}

/// LAW: a log written by [`serialize_log`] reads back, through
/// [`parse_log_checked`], as exactly the entries written, and trusted —
/// every entry with a non-empty name (or none) and a content whose byte
/// length fits a `usize`.
pub proof fn lemma_log_round_trips(es: Seq<EntryView>)
    requires
        storable(es),
    ensures
        parse_log_spec(serialized(es)) == (es, true),
{
    let bytes = serialized(es);
    assert(bytes.take(8) =~= magic_v2());
    assert(bytes.skip(8) =~= seq![10u8] + entries_bytes(es));
    assert((seq![10u8] + entries_bytes(es)).skip(1) =~= entries_bytes(es));
    let body = entries_bytes(es);
    assert(body.skip(0) =~= body);
    lemma_body_parses(body, 0, es);
}

} // verus!

//! FRONTMATTER: a `---`-delimited metadata block at the very top of a markdown
//! document (byte 0 only). Exactly one key is read, `lang:` (a BCP 47 tag);
//! every other `key: value` line is accepted and inert. Detection is strict:
//! every non-blank line between the two `---` lines must be `key: value`
//! shaped, and a block without its closing `---` is not a block at all.
//!
//! Also here: the CJK ambiguity tiebreak LADDER — an ordered permutation of
//! the four CJK languages, packed one byte per slot into a `u32`.

use vstd::prelude::*;
use crate::text::{
    eq_ignore_ascii_case, find_in_range, first_index_of, is_ascii_alnum, lemma_piece_end,
    lemma_str_utf8_len_bound, next_piece_end, piece_end, range_eq, range_eq_ignore_case,
    str_to_chars, strip_eol_all, strip_eol_all_range, trim, trim_range, utf8_len,
    utf8_len_prefix,
};
use std::ops::Range;

verus! {

/// A BCP 47 document-language tag recognized in frontmatter's `lang:` key and
/// in the CJK priority ladder.
#[derive(Copy, Clone, Debug, PartialEq, Eq, Structural, Hash)]
pub enum Lang {
    En,
    Ja,
    ZhHans,
    ZhHant,
    Ko,
}

/// Every language, in declaration order.
pub open spec fn all_langs_spec() -> Seq<Lang> {
    seq![Lang::En, Lang::Ja, Lang::ZhHans, Lang::ZhHant, Lang::Ko]
}

/// The default CJK ladder: Japanese, Simplified, Traditional, Korean.
pub open spec fn default_ladder() -> Seq<Lang> {
    seq![Lang::Ja, Lang::ZhHans, Lang::ZhHant, Lang::Ko]
}

/// Every language, in declaration order (the sweep list for [`Lang::from_label`]).
pub fn all_langs() -> (v: Vec<Lang>)
    ensures
        v@ == all_langs_spec(),
{
    let v = vec![Lang::En, Lang::Ja, Lang::ZhHans, Lang::ZhHant, Lang::Ko];
    assert(v@ =~= all_langs_spec());
    v
}

/// The built-in ladder order.
pub fn default_cjk_priority() -> (a: [Lang; 4])
    ensures
        a@ == default_ladder(),
{
    let a = [Lang::Ja, Lang::ZhHans, Lang::ZhHant, Lang::Ko];
    assert(a@ =~= default_ladder());
    a
}

/// The canonical BCP 47 code of `l`.
pub open spec fn lang_code(l: Lang) -> Seq<char> {
    match l {
        Lang::En => "en"@,
        Lang::Ja => "ja"@,
        Lang::ZhHans => "zh-Hans"@,
        Lang::ZhHant => "zh-Hant"@,
        Lang::Ko => "ko"@,
    }
}

/// The writer-facing name of `l`.
pub open spec fn lang_label(l: Lang) -> Seq<char> {
    match l {
        Lang::En => "English"@,
        Lang::Ja => "Japanese"@,
        Lang::ZhHans => "Simplified Chinese"@,
        Lang::ZhHant => "Traditional Chinese"@,
        Lang::Ko => "Korean"@,
    }
}

/// The language a tag names: the tag, trimmed, compared case-insensitively to
/// each canonical code; `None` for anything else.
pub open spec fn lang_of_tag(t: Seq<char>) -> Option<Lang> {
    let w = trim(t);
    if eq_ignore_ascii_case(w, "en"@) {
        Some(Lang::En)
    } else if eq_ignore_ascii_case(w, "ja"@) {
        Some(Lang::Ja)
    } else if eq_ignore_ascii_case(w, "zh-hans"@) {
        Some(Lang::ZhHans)
    } else if eq_ignore_ascii_case(w, "zh-hant"@) {
        Some(Lang::ZhHant)
    } else if eq_ignore_ascii_case(w, "ko"@) {
        Some(Lang::Ko)
    } else {
        None
    }
}

/// The first language (in [`all_langs_spec`] order) whose label equals `s`
/// ignoring ASCII case.
pub open spec fn lang_of_label(s: Seq<char>) -> Option<Lang> {
    if eq_ignore_ascii_case(lang_label(Lang::En), s) {
        Some(Lang::En)
    } else if eq_ignore_ascii_case(lang_label(Lang::Ja), s) {
        Some(Lang::Ja)
    } else if eq_ignore_ascii_case(lang_label(Lang::ZhHans), s) {
        Some(Lang::ZhHans)
    } else if eq_ignore_ascii_case(lang_label(Lang::ZhHant), s) {
        Some(Lang::ZhHant)
    } else if eq_ignore_ascii_case(lang_label(Lang::Ko), s) {
        Some(Lang::Ko)
    } else {
        None
    }
}

/// The one-byte slot code of `l` in a packed ladder.
pub open spec fn lang_byte(l: Lang) -> u8 {
    match l {
        Lang::En => 0,
        Lang::Ja => 1,
        Lang::ZhHans => 2,
        Lang::ZhHant => 3,
        Lang::Ko => 4,
    }
}

/// The language a slot byte codes, if any.
pub open spec fn lang_of_byte(b: u8) -> Option<Lang> {
    if b == 0 {
        Some(Lang::En)
    } else if b == 1 {
        Some(Lang::Ja)
    } else if b == 2 {
        Some(Lang::ZhHans)
    } else if b == 3 {
        Some(Lang::ZhHant)
    } else if b == 4 {
        Some(Lang::Ko)
    } else {
        None
    }
}

impl Lang {
    /// Parse a BCP 47 tag, trimmed and case-insensitively; `None` for anything
    /// unrecognized.
    pub fn parse(s: &str) -> (r: Option<Lang>)
        ensures
            r == lang_of_tag(s@),
    {
        let v = str_to_chars(s);
        let (a, b) = trim_range(&v, 0, v.len());
        proof {
            assert(v@.subrange(0, v@.len() as int) =~= s@);
        }
        if range_eq_ignore_case(&v, a, b, "en") {
            Some(Lang::En)
        } else if range_eq_ignore_case(&v, a, b, "ja") {
            Some(Lang::Ja)
        } else if range_eq_ignore_case(&v, a, b, "zh-hans") {
            Some(Lang::ZhHans)
        } else if range_eq_ignore_case(&v, a, b, "zh-hant") {
            Some(Lang::ZhHant)
        } else if range_eq_ignore_case(&v, a, b, "ko") {
            Some(Lang::Ko)
        } else {
            None
        }
    }

    /// The canonical BCP 47 code string.
    pub fn code(self) -> (c: &'static str)
        ensures
            c@ == lang_code(self),
    {
        match self {
            Lang::En => "en",
            Lang::Ja => "ja",
            Lang::ZhHans => "zh-Hans",
            Lang::ZhHant => "zh-Hant",
            Lang::Ko => "ko",
        }
    }

    /// The writer-facing name (the CJK-priority picker's row title).
    pub fn label(self) -> (c: &'static str)
        ensures
            c@ == lang_label(self),
    {
        match self {
            Lang::En => "English",
            Lang::Ja => "Japanese",
            Lang::ZhHans => "Simplified Chinese",
            Lang::ZhHant => "Traditional Chinese",
            Lang::Ko => "Korean",
        }
    }

    /// Resolve a picker row title back to its language, ignoring ASCII case.
    pub fn from_label(s: &str) -> (r: Option<Lang>)
        ensures
            r == lang_of_label(s@),
    {
        let v = str_to_chars(s);
        let langs = all_langs();
        proof {
            reveal_with_fuel(lang_of_label_from, 6);
        }
        let mut i: usize = 0;
        while i < langs.len()
            invariant
                langs@ == all_langs_spec(),
                v@ == s@,
                0 <= i <= 5,
                lang_of_label(s@) == lang_of_label_from(s@, i as int),
            decreases langs.len() - i,
        {
            let l = langs[i];
            let lab = str_to_chars(l.label());
            if range_eq_ignore_case(&lab, 0, lab.len(), s) {
                proof {
                    assert(lab@.subrange(0, lab@.len() as int) =~= lang_label(l));
                }
                return Some(l);
            }
            proof {
                assert(lab@.subrange(0, lab@.len() as int) =~= lang_label(l));
            }
            i += 1;
        }
        None
    }

    /// One quiet line describing the language, drawn beside its name.
    pub fn description(self) -> (c: &'static str)
        ensures
            c@ == lang_description(self),
    {
        match self {
            Lang::En => "Not part of the CJK ambiguity ladder",
            Lang::Ja => "Kana + J\u{14d}y\u{14d} kanji \u{2014} the built-in default",
            Lang::ZhHans => "Simplified hanzi (GB 2312)",
            Lang::ZhHant => "Traditional hanzi",
            Lang::Ko => "Hangul syllables",
        }
    }

    /// The slot byte of this language in a packed ladder.
    pub fn as_u8(self) -> (b: u8)
        ensures
            b == lang_byte(self),
    {
        match self {
            Lang::En => 0,
            Lang::Ja => 1,
            Lang::ZhHans => 2,
            Lang::ZhHant => 3,
            Lang::Ko => 4,
        }
    }

    /// The inverse of [`Lang::as_u8`]; `None` for a byte that codes no language.
    pub fn from_u8(v: u8) -> (r: Option<Lang>)
        ensures
            r == lang_of_byte(v),
    {
        match v {
            0 => Some(Lang::En),
            1 => Some(Lang::Ja),
            2 => Some(Lang::ZhHans),
            3 => Some(Lang::ZhHant),
            4 => Some(Lang::Ko),
            _ => None,
        }
    }
}

/// The description line of `l`.
pub open spec fn lang_description(l: Lang) -> Seq<char> {
    match l {
        Lang::En => "Not part of the CJK ambiguity ladder"@,
        Lang::Ja => "Kana + J\u{14d}y\u{14d} kanji \u{2014} the built-in default"@,
        Lang::ZhHans => "Simplified hanzi (GB 2312)"@,
        Lang::ZhHant => "Traditional hanzi"@,
        Lang::Ko => "Hangul syllables"@,
    }
}

/// [`lang_of_label`] restricted to the languages from position `i` on.
pub open spec fn lang_of_label_from(s: Seq<char>, i: int) -> Option<Lang>
    decreases 5 - i,
{
    if i >= 5 || i < 0 {
        None
    } else if eq_ignore_ascii_case(lang_label(all_langs_spec()[i]), s) {
        Some(all_langs_spec()[i])
    } else {
        lang_of_label_from(s, i + 1)
    }
}


// --- The CJK priority ladder --------------------------------------------------

/// The four slot bytes of a packed ladder, least significant first.
pub open spec fn ladder_bytes(v: u32) -> Seq<u8> {
    seq![v as u8, (v >> 8u32) as u8, (v >> 16u32) as u8, (v >> 24u32) as u8]
}

/// The languages a slot-byte sequence codes, skipping bytes that code none.
pub open spec fn langs_of_bytes(b: Seq<u8>) -> Seq<Lang>
    decreases b.len(),
{
    if b.len() == 0 {
        seq![]
    } else {
        let rest = langs_of_bytes(b.drop_last());
        match lang_of_byte(b.last()) {
            Some(l) => rest.push(l),
            None => rest,
        }
    }
}

/// The ladder a packed `u32` stores.
pub open spec fn unpack_spec(v: u32) -> Seq<Lang> {
    langs_of_bytes(ladder_bytes(v))
}

/// Four languages packed one byte per slot, least significant first.
pub open spec fn pack_spec(l: Seq<Lang>) -> u32 {
    (lang_byte(l[0]) as u32) | ((lang_byte(l[1]) as u32) << 8u32) | ((lang_byte(l[2]) as u32)
        << 16u32) | ((lang_byte(l[3]) as u32) << 24u32)
}

/// `l` is a CJK language (every language but English).
pub open spec fn is_cjk(l: Lang) -> bool {
    l != Lang::En
}

/// `s` orders exactly the four CJK languages, each once.
pub open spec fn is_cjk_permutation(s: Seq<Lang>) -> bool {
    &&& s.len() == 4
    &&& s.no_duplicates()
    &&& forall|i: int| 0 <= i < s.len() ==> is_cjk(#[trigger] s[i])
}

/// The CJK languages of `s` in order, each at its first occurrence.
pub open spec fn dedup_cjk(s: Seq<Lang>) -> Seq<Lang>
    decreases s.len(),
{
    if s.len() == 0 {
        seq![]
    } else {
        let d = dedup_cjk(s.drop_last());
        let l = s.last();
        if is_cjk(l) && !d.contains(l) {
            d.push(l)
        } else {
            d
        }
    }
}

/// `d` followed by every member of `fill` it lacks, in `fill`'s order.
pub open spec fn fill_missing(d: Seq<Lang>, fill: Seq<Lang>) -> Seq<Lang>
    decreases fill.len(),
{
    if fill.len() == 0 {
        d
    } else {
        let f = fill_missing(d, fill.drop_last());
        let l = fill.last();
        if !f.contains(l) {
            f.push(l)
        } else {
            f
        }
    }
}

/// An arbitrary language list normalized into a well-formed ladder: English
/// dropped, duplicates dropped (first occurrence wins), the missing CJK
/// languages appended in default order.
pub open spec fn normalized(langs: Seq<Lang>) -> Seq<Lang> {
    fill_missing(dedup_cjk(langs), default_ladder()).take(4)
}

/// `ladder` with `lang` moved to the front and the rest in their order.
pub open spec fn promoted(ladder: Seq<Lang>, lang: Lang) -> Seq<Lang> {
    seq![lang] + ladder.filter(other_than(lang))
}

/// The predicate "is not `lang`".
pub open spec fn other_than(lang: Lang) -> spec_fn(Lang) -> bool {
    |l: Lang| l != lang
}

proof fn lemma_dedup_cjk(s: Seq<Lang>)
    ensures
        dedup_cjk(s).no_duplicates(),
        forall|i: int| 0 <= i < dedup_cjk(s).len() ==> is_cjk(#[trigger] dedup_cjk(s)[i]),
    decreases s.len(),
{
    if s.len() > 0 {
        lemma_dedup_cjk(s.drop_last());
    }
}

proof fn lemma_fill_missing(d: Seq<Lang>, fill: Seq<Lang>)
    requires
        d.no_duplicates(),
    ensures
        fill_missing(d, fill).no_duplicates(),
        forall|l: Lang| fill.contains(l) ==> #[trigger] fill_missing(d, fill).contains(l),
        forall|i: int|
            0 <= i < fill_missing(d, fill).len() ==> d.contains(#[trigger] fill_missing(d, fill)[i])
                || fill.contains(fill_missing(d, fill)[i]),
    decreases fill.len(),
{
    if fill.len() > 0 {
        lemma_fill_missing(d, fill.drop_last());
        let f = fill_missing(d, fill.drop_last());
        assert forall|l: Lang| fill.contains(l) implies #[trigger] fill_missing(d, fill).contains(l) by {
            if l != fill.last() {
                let k: int = choose|k: int| 0 <= k < fill.len() && fill[k] == l;
                assert(fill.drop_last()[k] == l);
                assert(fill.drop_last().contains(l));
                assert(f.contains(l));
                if !f.contains(fill.last()) {
                    let j: int = choose|j: int| 0 <= j < f.len() && f[j] == l;
                    assert(f.push(fill.last())[j] == l);
                }
            } else {
                if !f.contains(fill.last()) {
                    assert(f.push(fill.last())[f.len() as int] == l);
                }
            }
        }
        assert forall|i: int|
            0 <= i < fill_missing(d, fill).len() implies d.contains(
            #[trigger] fill_missing(d, fill)[i],
        ) || fill.contains(fill_missing(d, fill)[i]) by {
            if i < f.len() {
                let x = f[i];
                if !d.contains(x) {
                    assert(fill.drop_last().contains(x));
                    let k: int = choose|k: int| 0 <= k < fill.drop_last().len() && fill.drop_last()[k] == x;
                    assert(fill[k] == x);
                }
            } else {
                assert(fill[fill.len() - 1] == fill.last());
            }
        }
    }
}

/// LAW: normalizing any list yields a permutation of the four CJK languages.
pub proof fn lemma_normalized_is_permutation(langs: Seq<Lang>)
    ensures
        is_cjk_permutation(normalized(langs)),
        fill_missing(dedup_cjk(langs), default_ladder()).len() == 4,
{
    let d = dedup_cjk(langs);
    lemma_dedup_cjk(langs);
    lemma_fill_missing(d, default_ladder());
    let f = fill_missing(d, default_ladder());
    assert(default_ladder()[0] == Lang::Ja);
    assert(default_ladder()[1] == Lang::ZhHans);
    assert(default_ladder()[2] == Lang::ZhHant);
    assert(default_ladder()[3] == Lang::Ko);
    assert(default_ladder().contains(Lang::Ja));
    assert(default_ladder().contains(Lang::ZhHans));
    assert(default_ladder().contains(Lang::ZhHant));
    assert(default_ladder().contains(Lang::Ko));
    assert forall|i: int| 0 <= i < f.len() implies is_cjk(#[trigger] f[i]) by {
        if d.contains(f[i]) {
            let k: int = choose|k: int| 0 <= k < d.len() && d[k] == f[i];
            assert(is_cjk(d[k]));
        } else {
            let k: int = choose|k: int| 0 <= k < default_ladder().len() && default_ladder()[k] == f[i];
        }
    }
    assert(f.contains(Lang::Ja));
    assert(f.contains(Lang::ZhHans));
    assert(f.contains(Lang::ZhHant));
    assert(f.contains(Lang::Ko));
    let i1: int = choose|i: int| 0 <= i < f.len() && f[i] == Lang::Ja;
    let i2: int = choose|i: int| 0 <= i < f.len() && f[i] == Lang::ZhHans;
    let i3: int = choose|i: int| 0 <= i < f.len() && f[i] == Lang::ZhHant;
    let i4: int = choose|i: int| 0 <= i < f.len() && f[i] == Lang::Ko;
    assert(f.len() >= 4);
    if f.len() > 4 {
        assert(is_cjk(f[0]) && is_cjk(f[1]) && is_cjk(f[2]) && is_cjk(f[3]) && is_cjk(f[4]));
        assert(f[0] != f[1] && f[0] != f[2] && f[0] != f[3] && f[0] != f[4]);
        assert(f[1] != f[2] && f[1] != f[3] && f[1] != f[4]);
        assert(f[2] != f[3] && f[2] != f[4] && f[3] != f[4]);
        assert(false);
    }
    assert(normalized(langs) =~= f);
}

proof fn lemma_dedup_keeps_distinct_cjk(s: Seq<Lang>)
    requires
        s.no_duplicates(),
        forall|i: int| 0 <= i < s.len() ==> is_cjk(#[trigger] s[i]),
    ensures
        dedup_cjk(s) == s,
    decreases s.len(),
{
    if s.len() > 0 {
        let t = s.drop_last();
        assert forall|i: int| 0 <= i < t.len() implies is_cjk(#[trigger] t[i]) by {
            assert(t[i] == s[i]);
        }
        lemma_dedup_keeps_distinct_cjk(t);
        assert(is_cjk(s[s.len() - 1]));
        if t.contains(s.last()) {
            let k: int = choose|k: int| 0 <= k < t.len() && t[k] == s.last();
            assert(s[k] == s[s.len() - 1]);
        }
        assert(t.push(s.last()) =~= s);
    }
}

proof fn lemma_fill_nothing_missing(d: Seq<Lang>, fill: Seq<Lang>)
    requires
        forall|i: int| 0 <= i < fill.len() ==> d.contains(#[trigger] fill[i]),
    ensures
        fill_missing(d, fill) == d,
    decreases fill.len(),
{
    if fill.len() > 0 {
        let t = fill.drop_last();
        assert forall|i: int| 0 <= i < t.len() implies d.contains(#[trigger] t[i]) by {
            assert(t[i] == fill[i]);
        }
        lemma_fill_nothing_missing(d, t);
        assert(d.contains(fill[fill.len() - 1]));
    }
}

/// LAW: normalizing a ladder gives it back, so setting the live ladder to its
/// own value ([`cjk_priority`] into [`set_cjk_priority`]) changes nothing.
pub proof fn lemma_normalized_keeps_a_ladder(p: Seq<Lang>)
    requires
        is_cjk_permutation(p),
    ensures
        normalized(p) == p,
{
    lemma_dedup_keeps_distinct_cjk(p);
    assert(is_cjk(p[0]) && is_cjk(p[1]) && is_cjk(p[2]) && is_cjk(p[3]));
    assert(p[0] != p[1] && p[0] != p[2] && p[0] != p[3] && p[1] != p[2] && p[1] != p[3] && p[2] != p[3]);
    let dl = default_ladder();
    assert forall|i: int| 0 <= i < dl.len() implies p.contains(#[trigger] dl[i]) by {
        let l = dl[i];
        if !p.contains(l) {
            assert(p[0] != l && p[1] != l && p[2] != l && p[3] != l);
            assert(false);
        }
    }
    lemma_fill_nothing_missing(p, dl);
    assert(p.take(4) =~= p);
}

/// LAW: packing a four-slot ladder and unpacking it gives the ladder back.
pub proof fn lemma_pack_round_trips(l: Seq<Lang>)
    requires
        l.len() == 4,
    ensures
        unpack_spec(pack_spec(l)) == l,
{
    let b0: u8 = lang_byte(l[0]);
    let b1: u8 = lang_byte(l[1]);
    let b2: u8 = lang_byte(l[2]);
    let b3: u8 = lang_byte(l[3]);
    let v: u32 = pack_spec(l);
    assert(v as u8 == b0 && (v >> 8u32) as u8 == b1 && (v >> 16u32) as u8 == b2 && (v >> 24u32) as u8
        == b3) by (bit_vector)
        requires
            v == (b0 as u32) | ((b1 as u32) << 8u32) | ((b2 as u32) << 16u32) | ((b3 as u32)
                << 24u32),
    ;
    let bs = ladder_bytes(v);
    assert(bs.drop_last().drop_last().drop_last().drop_last() =~= Seq::<u8>::empty());
    reveal_with_fuel(langs_of_bytes, 5);
    assert(unpack_spec(v) =~= l);
}

/// Pack a four-slot ladder one byte per slot, least significant first.
pub fn pack_priority(langs: [Lang; 4]) -> (v: u32)
    ensures
        v == pack_spec(langs@),
{
    (langs[0].as_u8() as u32) | ((langs[1].as_u8() as u32) << 8u32) | ((langs[2].as_u8() as u32)
        << 16u32) | ((langs[3].as_u8() as u32) << 24u32)
}

/// The inverse of [`pack_priority`]: the languages the four slots code.
pub fn unpack_priority(v: u32) -> (r: Vec<Lang>)
    ensures
        r@ == unpack_spec(v),
{
    let bytes = [v as u8, (v >> 8u32) as u8, (v >> 16u32) as u8, (v >> 24u32) as u8];
    let ghost bs = ladder_bytes(v);
    assert(bytes@ =~= bs);
    let mut out: Vec<Lang> = Vec::new();
    let mut i: usize = 0;
    while i < 4
        invariant
            0 <= i <= 4,
            bytes@ == bs,
            bs.len() == 4,
            out@ == langs_of_bytes(bs.take(i as int)),
        decreases 4 - i,
    {
        proof {
            assert(bs.take(i + 1).drop_last() =~= bs.take(i as int));
        }
        match Lang::from_u8(bytes[i]) {
            Some(l) => out.push(l),
            None => {},
        }
        i += 1;
    }
    proof {
        assert(bs.take(4) =~= bs);
    }
    out
}

fn contains_lang(v: &Vec<Lang>, l: Lang) -> (r: bool)
    ensures
        r == v@.contains(l),
{
    let mut i: usize = 0;
    while i < v.len()
        invariant
            0 <= i <= v@.len(),
            forall|j: int| 0 <= j < i ==> v@[j] != l,
        decreases v.len() - i,
    {
        if v[i] == l {
            return true;
        }
        i += 1;
    }
    false
}

/// NORMALIZE any language list into a well-formed ladder (see [`normalized`]).
pub fn normalize_priority(langs: &[Lang]) -> (r: [Lang; 4])
    ensures
        r@ == normalized(langs@),
        is_cjk_permutation(r@),
{
    let mut out: Vec<Lang> = Vec::new();
    let mut i: usize = 0;
    while i < langs.len()
        invariant
            0 <= i <= langs@.len(),
            out@ == dedup_cjk(langs@.take(i as int)),
        decreases langs.len() - i,
    {
        let l = langs[i];
        proof {
            assert(langs@.take(i + 1).drop_last() =~= langs@.take(i as int));
        }
        if l != Lang::En && !contains_lang(&out, l) {
            out.push(l);
        }
        i += 1;
    }
    proof {
        assert(langs@.take(langs@.len() as int) =~= langs@);
    }
    let ghost d = out@;
    let dflt = default_cjk_priority();
    let mut j: usize = 0;
    while j < 4
        invariant
            0 <= j <= 4,
            dflt@ == default_ladder(),
            d == dedup_cjk(langs@),
            out@ == fill_missing(d, default_ladder().take(j as int)),
        decreases 4 - j,
    {
        let l = dflt[j];
        proof {
            assert(default_ladder().take(j + 1).drop_last() =~= default_ladder().take(j as int));
        }
        if !contains_lang(&out, l) {
            out.push(l);
        }
        j += 1;
    }
    proof {
        assert(default_ladder().take(4) =~= default_ladder());
        lemma_normalized_is_permutation(langs@);
        lemma_dedup_cjk(langs@);
        lemma_fill_missing(d, default_ladder());
        assert(out@ == fill_missing(d, default_ladder()));
        assert(normalized(langs@).len() == 4);
        assert(out@.len() >= 4);
    }
    let r = [out[0], out[1], out[2], out[3]];
    proof {
        assert(r@ =~= normalized(langs@));
    }
    r
}

/// The live CJK ambiguity-tiebreak ladder, packed one byte per slot. It always
/// holds a permutation of the four CJK languages.
pub struct CjkLadder {
    packed: u32,
}

impl View for CjkLadder {
    type V = Seq<Lang>;

    closed spec fn view(&self) -> Seq<Lang> {
        unpack_spec(self.packed)
    }
}

impl CjkLadder {
    #[verifier::type_invariant]
    closed spec fn well_formed(self) -> bool {
        is_cjk_permutation(unpack_spec(self.packed))
    }

    /// The ladder at launch: the built-in default order.
    pub fn new() -> (s: Self)
        ensures
            s@ == default_ladder(),
    {
        let p: u32 = pack_priority(default_cjk_priority());
        proof {
            lemma_pack_round_trips(default_ladder());
            lemma_normalized_is_permutation(Seq::<Lang>::empty());
            assert(default_ladder().no_duplicates());
        }
        CjkLadder { packed: p }
    }
}

/// The live ladder, in order.
pub fn cjk_priority(ladder: &CjkLadder) -> (r: Vec<Lang>)
    ensures
        r@ == ladder@,
        is_cjk_permutation(r@),
{
    proof {
        use_type_invariant(ladder);
    }
    unpack_priority(ladder.packed)
}

/// Set the live ladder to `langs`, normalized first, so it can never hold a
/// partial, duplicated or foreign-tagged ladder.
pub fn set_cjk_priority(ladder: &mut CjkLadder, langs: &[Lang])
    ensures
        final(ladder)@ == normalized(langs@),
{
    let n = normalize_priority(langs);
    let p: u32 = pack_priority(n);
    proof {
        lemma_pack_round_trips(n@);
    }
    ladder.packed = p;
}

/// PROMOTE `lang` to the front of the live ladder, keeping the relative order
/// of the rest.
pub fn promote_cjk_priority(ladder: &CjkLadder, lang: Lang) -> (r: Vec<Lang>)
    ensures
        r@ == promoted(ladder@, lang),
{
    let current = cjk_priority(ladder);
    let mut out: Vec<Lang> = Vec::new();
    out.push(lang);
    let mut i: usize = 0;
    while i < current.len()
        invariant
            0 <= i <= current@.len(),
            out@ == seq![lang] + current@.take(i as int).filter(other_than(lang)),
        decreases current.len() - i,
    {
        let l = current[i];
        proof {
            assert(current@.take(i + 1).drop_last() =~= current@.take(i as int));
            reveal(Seq::filter);
        }
        if l != lang {
            out.push(l);
        }
        proof {
            assert(out@ =~= seq![lang] + current@.take(i + 1).filter(other_than(lang)));
        }
        i += 1;
    }
    proof {
        assert(current@.take(current@.len() as int) =~= current@);
    }
    out
}


// --- Frontmatter detection -----------------------------------------------------

/// One parsed frontmatter block: its whole BYTE range in the document (always
/// `0..end`, both `---` lines and their newlines included) and the `lang:` tag,
/// if present and recognized.
#[derive(Debug, PartialEq, Eq)]
pub struct Frontmatter {
    pub range: Range<usize>,
    pub lang: Option<Lang>,
}

/// A character that may appear in a frontmatter key: ASCII alphanumerics, `_`, `-`.
pub open spec fn key_char(c: char) -> bool {
    is_ascii_alnum(c) || c == '_' || c == '-'
}

/// Executable [`key_char`].
pub fn is_key_char(c: char) -> (r: bool)
    ensures
        r == key_char(c),
{
    ('0' <= c && c <= '9') || ('a' <= c && c <= 'z') || ('A' <= c && c <= 'Z') || c == '_' || c
        == '-'
}

/// The key of a `key: value` line: the trimmed text before the first `:`.
pub open spec fn line_key(line: Seq<char>) -> Seq<char> {
    trim(line.take(first_index_of(line, ':', 0)))
}

/// The value of a `key: value` line: the trimmed text after the first `:`.
pub open spec fn line_value(line: Seq<char>) -> Seq<char> {
    trim(line.skip(first_index_of(line, ':', 0) + 1))
}

/// `line` is shaped `key: value` with a non-empty key of key characters.
pub open spec fn kv_line(line: Seq<char>) -> bool {
    &&& first_index_of(line, ':', 0) < line.len()
    &&& line_key(line).len() > 0
    &&& forall|i: int| 0 <= i < line_key(line).len() ==> key_char(#[trigger] line_key(line)[i])
}

/// The language tag after reading `line`, given the tag read so far: a `lang`
/// key (any case) replaces it by what its value names, any other key leaves it.
pub open spec fn lang_after(line: Seq<char>, prev: Option<Lang>) -> Option<Lang> {
    if eq_ignore_ascii_case(line_key(line), "lang"@) {
        lang_of_tag(line_value(line))
    } else {
        prev
    }
}

/// Walk the lines of `s` from position `pos` (a line start) looking for the
/// closing `---`: `Some((end, lang))` with `end` the position just past the
/// closing line, or `None` when a line is neither blank nor `key: value`, or
/// the text ends first.
pub open spec fn block_from(s: Seq<char>, pos: int, lang: Option<Lang>) -> Option<(int, Option<Lang>)>
    decreases s.len() - pos,
{
    if pos < 0 || pos >= s.len() {
        None
    } else {
        let e: int = piece_end(s, pos);
        let line = strip_eol_all(s.subrange(pos, e));
        proof {
            lemma_piece_end(s, pos);
        }
        if line == "---"@ {
            Some((e, lang))
        } else if trim(line).len() == 0 {
            block_from(s, e, lang)
        } else if !kv_line(line) {
            None
        } else {
            block_from(s, e, lang_after(line, lang))
        }
    }
}

/// The frontmatter block at the start of `s`: its first line must be exactly
/// `---` (newline characters aside), then [`block_from`] decides. The result
/// is the byte length of the block and its language tag.
pub open spec fn frontmatter_of(s: Seq<char>) -> Option<(nat, Option<Lang>)> {
    if s.len() == 0 {
        None
    } else if strip_eol_all(s.subrange(0, piece_end(s, 0))) != "---"@ {
        None
    } else {
        match block_from(s, piece_end(s, 0), None) {
            Some((e, lang)) => Some((utf8_len(s.take(e)), lang)),
            None => None,
        }
    }
}

/// The first `k` characters of `s` end with a whole line reading `---`
/// (its line break aside) that is not the first line of `s`.
pub open spec fn ends_with_closing_line(s: Seq<char>, k: int) -> bool {
    exists|j: int|
        0 < j < k <= s.len() && s[j - 1] == '\n' && #[trigger] strip_eol_all(s.subrange(j, k)) == "---"@ && (k
            == s.len() || s[k - 1] == '\n') && (forall|i: int| j <= i < k - 1 ==> s[i] != '\n')
}

proof fn lemma_block_from_closes(s: Seq<char>, pos: int, lang: Option<Lang>)
    requires
        0 < pos <= s.len(),
        s[pos - 1] == '\n',
    ensures
        block_from(s, pos, lang) matches Some((e, _)) ==> ends_with_closing_line(s, e),
    decreases s.len() - pos,
{
    if pos < s.len() {
        let e: int = piece_end(s, pos);
        lemma_piece_end(s, pos);
        let line = strip_eol_all(s.subrange(pos, e));
        if line == "---"@ {
            assert(ends_with_closing_line(s, e));
        } else if e < s.len() {
            if trim(line).len() == 0 {
                lemma_block_from_closes(s, e, lang);
            } else if kv_line(line) {
                lemma_block_from_closes(s, e, lang_after(line, lang));
            }
        }
    }
}

/// LAW: a detected block's range ends at a byte offset: the UTF-8 length of
/// the text up to and including its closing `---` line, so the text's bytes
/// before the end are exactly the block.
pub proof fn lemma_block_range_is_bytes(s: Seq<char>)
    ensures
        frontmatter_of(s) matches Some((end, _)) ==> exists|k: int|
            ends_with_closing_line(s, k) && end == #[trigger] vstd::utf8::encode_utf8(s.take(k)).len(),
{
    if s.len() > 0 && strip_eol_all(s.subrange(0, piece_end(s, 0))) == "---"@ {
        let p0 = piece_end(s, 0);
        lemma_piece_end(s, 0);
        if p0 < s.len() {
            lemma_block_from_closes(s, p0, None);
            if let Some((e, _)) = block_from(s, p0, None) {
                crate::text::lemma_encode_utf8_len(s.take(e));
                assert(ends_with_closing_line(s, e));
            }
        }
    }
}

/// Detect a frontmatter block at byte 0 of `text` (see [`frontmatter_of`]).
pub fn detect(text: &str) -> (r: Option<Frontmatter>)
    ensures
        match frontmatter_of(text@) {
            None => r is None,
            Some((end, lang)) => r matches Some(fm) && fm.range.start == 0 && fm.range.end == end
                && fm.lang == lang,
        },
{
    let v = str_to_chars(text);
    let nbytes: usize = text.as_bytes().len();
    proof {
        lemma_str_utf8_len_bound(text, nbytes);
    }
    if v.len() == 0 {
        return None;
    }
    let e0: usize = next_piece_end(&v, 0);
    let le0: usize = strip_eol_all_range(&v, 0, e0);
    if !range_eq(&v, 0, le0, "---") {
        return None;
    }
    let mut pos: usize = e0;
    let mut lang: Option<Lang> = None;
    while pos < v.len()
        invariant
            v@ == text@,
            utf8_len(v@) <= usize::MAX,
            0 < pos <= v@.len(),
            strip_eol_all(v@.subrange(0, piece_end(v@, 0))) == "---"@,
            block_from(v@, piece_end(v@, 0), None) == block_from(v@, pos as int, lang),
        decreases v.len() - pos,
    {
        let e: usize = next_piece_end(&v, pos);
        let le: usize = strip_eol_all_range(&v, pos, e);
        let ghost line = v@.subrange(pos as int, le as int);
        if range_eq(&v, pos, le, "---") {
            let end: usize = utf8_len_prefix(&v, e);
            return Some(Frontmatter { range: 0..end, lang });
        }
        let (a, b) = trim_range(&v, pos, le);
        if a == b {
            pos = e;
            continue;
        }
        let k: usize = find_in_range(&v, ':', pos, le);
        if k == le {
            return None;
        }
        proof {
            assert(line.take(k - pos) =~= v@.subrange(pos as int, k as int));
            assert(line.skip(k - pos + 1) =~= v@.subrange(k + 1, le as int));
        }
        let (ka, kb) = trim_range(&v, pos, k);
        if ka == kb {
            return None;
        }
        proof {
            assert(line_key(line) =~= v@.subrange(ka as int, kb as int));
        }
        if !all_key_chars(&v, ka, kb) {
            proof {
                let j: int = choose|j: int| ka <= j < kb && !key_char(v@[j]);
                assert(line_key(line)[j - ka] == v@[j]);
            }
            return None;
        }
        proof {
            assert forall|j: int| 0 <= j < line_key(line).len() implies key_char(
                #[trigger] line_key(line)[j],
            ) by {
                assert(line_key(line)[j] == v@[ka + j]);
            }
        }
        if range_eq_ignore_case(&v, ka, kb, "lang") {
            let (va, vb) = trim_range(&v, k + 1, le);
            let val = string_of_range(&v, va, vb);
            lang = Lang::parse(val.as_str());
        }
        pos = e;
    }
    None
}

/// Whether every character of `v[lo..hi]` is a key character.
fn all_key_chars(v: &Vec<char>, lo: usize, hi: usize) -> (r: bool)
    requires
        lo <= hi <= v@.len(),
    ensures
        r == (forall|j: int| lo <= j < hi ==> key_char(#[trigger] v@[j])),
{
    let mut i: usize = lo;
    while i < hi
        invariant
            lo <= i <= hi <= v@.len(),
            forall|j: int| lo <= j < i ==> key_char(#[trigger] v@[j]),
        decreases hi - i,
    {
        if !is_key_char(v[i]) {
            return false;
        }
        i += 1;
    }
    true
}

fn string_of_range(v: &Vec<char>, lo: usize, hi: usize) -> (s: String)
    requires
        lo <= hi <= v@.len(),
    ensures
        s@ == v@.subrange(lo as int, hi as int),
{
    crate::text::string_of(v, lo, hi)
}

// --- Laws ----------------------------------------------------------------------

/// LAW: every language's code parses back to that language.
pub proof fn lemma_code_round_trips(l: Lang)
    ensures
        lang_of_tag(lang_code(l)) == Some(l),
{
    lemma_code_parses_in_any_case(l, seq![], lang_code(l), seq![]);
    assert(seq![] + lang_code(l) + seq![] =~= lang_code(l));
}

/// LAW: a language's code parses to that language in any ASCII case and with
/// any white space around it (`" ZH-HANS "` is Simplified Chinese).
pub proof fn lemma_code_parses_in_any_case(l: Lang, pre: Seq<char>, w: Seq<char>, post: Seq<char>)
    requires
        crate::text::all_ws(pre),
        crate::text::all_ws(post),
        eq_ignore_ascii_case(w, lang_code(l)),
    ensures
        lang_of_tag(pre + w + post) == Some(l),
{
    reveal_strlit("en");
    reveal_strlit("ja");
    reveal_strlit("zh-Hans");
    reveal_strlit("zh-Hant");
    reveal_strlit("ko");
    reveal_strlit("zh-hans");
    reveal_strlit("zh-hant");
    let c = lang_code(l);
    let lc = crate::text::ascii_lower_seq(c);
    let lw = crate::text::ascii_lower_seq(w);
    let en = crate::text::ascii_lower_seq("en"@);
    let ja = crate::text::ascii_lower_seq("ja"@);
    let hs = crate::text::ascii_lower_seq("zh-hans"@);
    let ht = crate::text::ascii_lower_seq("zh-hant"@);
    let ko = crate::text::ascii_lower_seq("ko"@);
    assert(en[0] == 'e' && ja[0] == 'j' && hs[0] == 'z' && ht[0] == 'z' && ko[0] == 'k');
    assert(hs.len() == 7 && ht.len() == 7 && hs[6] == 's' && ht[6] == 't');
    assert(en[1] == 'n' && ja[1] == 'a' && ko[1] == 'o');
    assert(lw == lc);
    match l {
        Lang::En => {
            assert(lc =~= en);
        },
        Lang::Ja => {
            assert(lc =~= ja);
            assert(lc[0] != en[0]);
        },
        Lang::ZhHans => {
            assert(lc =~= hs);
            assert(lc[0] != en[0] && lc[0] != ja[0]);
        },
        Lang::ZhHant => {
            assert(lc =~= ht);
            assert(lc[0] != en[0] && lc[0] != ja[0] && lc[6] != hs[6]);
        },
        Lang::Ko => {
            assert(lc =~= ko);
            assert(lc[0] != en[0] && lc[0] != ja[0] && lc[0] != hs[0] && lc[0] != ht[0]);
        },
    }
    assert(w.len() == lw.len() && lw.len() == lc.len() && lc.len() > 0);
    assert(lw[0] == crate::text::ascii_lower(w[0]));
    assert(lw[lw.len() - 1] == crate::text::ascii_lower(w.last()));
    assert(!crate::text::is_ws(w[0]));
    assert(!crate::text::is_ws(w.last()));
    crate::text::lemma_trim_padded(pre, w, post);
}

/// LAW: every language's label resolves back to that language.
pub proof fn lemma_label_round_trips(l: Lang)
    ensures
        lang_of_label(lang_label(l)) == Some(l),
{
    lemma_label_in_any_case(l, lang_label(l));
}

/// LAW: a language's label resolves to that language in any ASCII case
/// (`"japanese"` is Japanese).
pub proof fn lemma_label_in_any_case(l: Lang, s: Seq<char>)
    requires
        eq_ignore_ascii_case(s, lang_label(l)),
    ensures
        lang_of_label(s) == Some(l),
{
    reveal_strlit("English");
    reveal_strlit("Japanese");
    reveal_strlit("Simplified Chinese");
    reveal_strlit("Traditional Chinese");
    reveal_strlit("Korean");
    let e = crate::text::ascii_lower_seq("English"@);
    let j = crate::text::ascii_lower_seq("Japanese"@);
    let hs = crate::text::ascii_lower_seq("Simplified Chinese"@);
    let ht = crate::text::ascii_lower_seq("Traditional Chinese"@);
    let k = crate::text::ascii_lower_seq("Korean"@);
    assert(e[0] != j[0] && e[0] != hs[0] && e[0] != ht[0] && e[0] != k[0]);
    assert(j[0] != hs[0] && j[0] != ht[0] && j[0] != k[0]);
    assert(hs[0] != ht[0] && hs[0] != k[0] && ht[0] != k[0]);
}

} // verus!

//! The client's side of the mod system: the game-text setting, where a mod's
//! files land in the client's own (Korean, CP949) spelling, which of its
//! tables are item tables, and the client config that names its plugins.

use vstd::prelude::*;
use crate::json::{member, Json};
use crate::report::texts;
use crate::text::{
    chars_of, debug_string, debug_text, decimal, is_prefix, is_suffix, last_occurrence, lowercase,
    matches_at, push_all, push_decimal, replace_all, replaced, rfind, same, slice_of, starts_with,
    ends_with, string_of, to_lowercase, trim_end, trim_end_of, joined_with, join_chars, char_texts,
};

verus! {

/// Where the client's text comes from, which also decides the codepage every
/// client table is read with.
#[derive(Clone, Copy, PartialEq, Eq, Debug, Structural)]
pub enum GameText {
    /// The English translation over the client's own files.
    English,
    /// The client's own files, read as windows-1252.
    ClientWestern,
    /// The client's own files, read as windows-949.
    ClientKorean,
    /// The client's own files, read as big5.
    ClientTaiwan,
}

impl GameText {
    /// Whether the English translation is laid over the client's files.
    pub open spec fn is_translated(self) -> bool {
        self == GameText::English
    }

    /// The client's `servers[].langtype` for this choice.
    pub open spec fn langtype_of(self) -> u32 {
        match self {
            GameText::ClientWestern => 12,
            GameText::ClientTaiwan => 4,
            _ => 0,
        }
    }

    /// The name the setting is stored under.
    pub open spec fn name_of(self) -> Seq<char> {
        match self {
            GameText::English => "english"@,
            GameText::ClientWestern => "client_western"@,
            GameText::ClientKorean => "client_korean"@,
            GameText::ClientTaiwan => "client_taiwan"@,
        }
    }

    pub fn translated(self) -> (r: bool)
        ensures
            r == self.is_translated(),
    {
        match self {
            GameText::English => true,
            _ => false,
        }
    }

    /// roBrowser's `servers[].langtype`: 12 reads windows-1252, 4 reads big5,
    /// 0 is Korea.
    pub fn langtype(self) -> (r: u32)
        ensures
            r == self.langtype_of(),
    {
        match self {
            GameText::ClientWestern => 12,
            GameText::ClientTaiwan => 4,
            _ => 0,
        }
    }

    /// Part of the overlay fingerprint, so switching clears the client's
    /// own file cache.
    pub fn as_str(self) -> (r: &'static str)
        ensures
            r@ == self.name_of(),
    {
        match self {
            GameText::English => "english",
            GameText::ClientWestern => "client_western",
            GameText::ClientKorean => "client_korean",
            GameText::ClientTaiwan => "client_taiwan",
        }
    }
}

pub open spec fn unreadable_game_text() -> Seq<char> {
    "Cannot read the game text setting. Repair settings.json before starting the server; no assets were rebuilt."@
}

/// The game text a stored name chooses.
pub open spec fn game_text_named(v: Seq<char>) -> Option<GameText> {
    if v == "english"@ {
        Some(GameText::English)
    } else if v == "client_western"@ {
        Some(GameText::ClientWestern)
    } else if v == "client_korean"@ {
        Some(GameText::ClientKorean)
    } else if v == "client_taiwan"@ {
        Some(GameText::ClientTaiwan)
    } else {
        None
    }
}

/// The setting, from settings.json (`None` when it could not be read):
/// unset or `null` is English, a known name is its choice, and anything
/// else is refused rather than read as the default.
pub open spec fn game_text_setting(settings: Option<Json>) -> Result<GameText, Seq<char>> {
    match settings {
        None => Err(unreadable_game_text()),
        Some(s) => match member(s, "game_text"@) {
            None => Ok(GameText::English),
            Some(Json::Null) => Ok(GameText::English),
            Some(Json::Str(v)) => match game_text_named(v@) {
                Some(t) => Ok(t),
                None => Err("Unknown game text setting "@ + debug_text(v@)
                    + ". Choose one in Settings; no assets were rebuilt."@),
            },
            Some(_) => Err(unreadable_game_text()),
        },
    }
}

pub open spec fn game_text_of(r: Result<GameText, String>) -> Result<GameText, Seq<char>> {
    match r {
        Ok(t) => Ok(t),
        Err(e) => Err(e@),
    }
}

/// Read the setting, defaulting to the English translation.
pub fn game_text(settings: Option<&Json>) -> (r: Result<GameText, String>)
    ensures
        game_text_of(r) == game_text_setting(crate::packetver::settings_of(settings)),
{
    let unreadable = "Cannot read the game text setting. Repair settings.json before starting the server; no assets were rebuilt.";
    let s = match settings {
        None => return Err(string_of(chars_of(unreadable).as_slice())),
        Some(s) => s,
    };
    match s.get("game_text") {
        None => Ok(GameText::English),
        Some(Json::Null) => Ok(GameText::English),
        Some(Json::Str(v)) => {
            let c = chars_of(v.as_str());
            if same(c.as_slice(), chars_of("english").as_slice()) {
                Ok(GameText::English)
            } else if same(c.as_slice(), chars_of("client_western").as_slice()) {
                Ok(GameText::ClientWestern)
            } else if same(c.as_slice(), chars_of("client_korean").as_slice()) {
                Ok(GameText::ClientKorean)
            } else if same(c.as_slice(), chars_of("client_taiwan").as_slice()) {
                Ok(GameText::ClientTaiwan)
            } else {
                let shown = debug_string(v.as_str());
                let mut m = chars_of("Unknown game text setting ");
                push_all(&mut m, chars_of(shown.as_str()).as_slice());
                push_all(&mut m, chars_of(". Choose one in Settings; no assets were rebuilt.").as_slice());
                Err(string_of(m.as_slice()))
            }
        },
        Some(_) => Err(string_of(chars_of(unreadable).as_slice())),
    }
}

/// The era's tag in the overlay fingerprint.
pub open spec fn era_tag_of(prerenewal: bool) -> Seq<char> {
    if prerenewal {
        "pre-re"@
    } else {
        "re"@
    }
}

pub fn era_tag(prerenewal: bool) -> (r: &'static str)
    ensures
        r@ == era_tag_of(prerenewal),
{
    if prerenewal {
        "pre-re"
    } else {
        "re"
    }
}

/// One FNV-1a step: the byte folded in, then the FNV prime.
pub open spec fn fnv_step(h: u64, b: u8) -> u64 {
    vstd::wrapping::u64_specs::wrapping_mul(h ^ (b as u64), 0x0000_0100_0000_01b3)
}

/// FNV-1a over `bytes`, from `h`.
pub open spec fn fnv_of(h: u64, bytes: Seq<u8>) -> u64
    decreases bytes.len(),
{
    if bytes.len() == 0 {
        h
    } else {
        fnv_step(fnv_of(h, bytes.drop_last()), bytes.last())
    }
}

/// FNV-1a, fed a piece at a time.
pub fn fnv(hash: &mut u64, bytes: &[u8])
    ensures
        *final(hash) == fnv_of(*old(hash), bytes@),
{
    let mut i: usize = 0;
    while i < bytes.len()
        invariant
            i <= bytes@.len(),
            *hash == fnv_of(*old(hash), bytes@.take(i as int)),
        decreases bytes@.len() - i,
    {
        let b = bytes[i];
        *hash = (*hash ^ (b as u64)).wrapping_mul(0x0000_0100_0000_01b3);
        i = i + 1;
        assert(bytes@.take(i as int).drop_last() == bytes@.take(i - 1));
    }
    assert(bytes@.take(bytes@.len() as int) == bytes@);
}

/// How many ASCII names a mod may use for the client's own directories.
pub open spec fn alias_count() -> int {
    16
}

/// The `i`th alias: an ASCII name, and the client's own name it stands for
/// (Korean, in CP949 read as Latin-1). Longer names come before the names
/// they start with.
pub open spec fn alias(i: int) -> (Seq<char>, Seq<char>) {
    if i == 0 {
        ("texture/ui"@, "texture/\u{c0}\u{af}\u{c0}\u{fa}\u{c0}\u{ce}\u{c5}\u{cd}\u{c6}\u{e4}\u{c0}\u{cc}\u{bd}\u{ba}"@)
    } else if i == 1 {
        ("texture/field-ground"@, "texture/\u{c7}\u{ca}\u{b5}\u{e5}\u{b9}\u{d9}\u{b4}\u{da}"@)
    } else if i == 2 {
        ("texture/town"@, "texture/\u{b1}\u{e2}\u{c5}\u{b8}\u{b8}\u{b6}\u{c0}\u{bb}"@)
    } else if i == 3 {
        ("texture/indoor-props"@, "texture/\u{b3}\u{bb}\u{ba}\u{ce}\u{bc}\u{d2}\u{c7}\u{b0}"@)
    } else if i == 4 {
        ("texture/outdoor-props"@, "texture/\u{bf}\u{dc}\u{ba}\u{ce}\u{bc}\u{d2}\u{c7}\u{b0}"@)
    } else if i == 5 {
        ("sprite/human/body"@, "sprite/\u{c0}\u{ce}\u{b0}\u{a3}\u{c1}\u{b7}/\u{b8}\u{f6}\u{c5}\u{eb}"@)
    } else if i == 6 {
        ("sprite/human"@, "sprite/\u{c0}\u{ce}\u{b0}\u{a3}\u{c1}\u{b7}"@)
    } else if i == 7 {
        ("sprite/monster"@, "sprite/\u{b8}\u{f3}\u{bd}\u{ba}\u{c5}\u{cd}"@)
    } else if i == 8 {
        ("sprite/item"@, "sprite/\u{be}\u{c6}\u{c0}\u{cc}\u{c5}\u{db}"@)
    } else if i == 9 {
        ("sprite/accessory"@, "sprite/\u{be}\u{c7}\u{bc}\u{bc}\u{bb}\u{e7}\u{b8}\u{ae}"@)
    } else if i == 10 {
        ("sprite/robe"@, "sprite/\u{b7}\u{ce}\u{ba}\u{ea}"@)
    } else if i == 11 {
        ("sprite/shield"@, "sprite/\u{b9}\u{e6}\u{c6}\u{d0}"@)
    } else if i == 12 {
        ("sprite/effect"@, "sprite/\u{c0}\u{cc}\u{c6}\u{d1}\u{c6}\u{ae}"@)
    } else if i == 13 {
        ("palette/doram/hair"@, "palette/\u{b5}\u{b5}\u{b6}\u{f7}\u{c1}\u{b7}/\u{b8}\u{d3}\u{b8}\u{ae}"@)
    } else if i == 14 {
        ("palette/body"@, "palette/\u{b8}\u{f6}"@)
    } else if i == 15 {
        ("palette/hair"@, "palette/\u{b8}\u{d3}\u{b8}\u{ae}"@)
    } else {
        (seq![], seq![])
    }
}

fn alias_pair(i: usize) -> (r: (&'static str, &'static str))
    requires
        i < 16,
    ensures
        (r.0@, r.1@) == alias(i as int),
{
    if i == 0 {
        ("texture/ui", "texture/\u{c0}\u{af}\u{c0}\u{fa}\u{c0}\u{ce}\u{c5}\u{cd}\u{c6}\u{e4}\u{c0}\u{cc}\u{bd}\u{ba}")
    } else if i == 1 {
        ("texture/field-ground", "texture/\u{c7}\u{ca}\u{b5}\u{e5}\u{b9}\u{d9}\u{b4}\u{da}")
    } else if i == 2 {
        ("texture/town", "texture/\u{b1}\u{e2}\u{c5}\u{b8}\u{b8}\u{b6}\u{c0}\u{bb}")
    } else if i == 3 {
        ("texture/indoor-props", "texture/\u{b3}\u{bb}\u{ba}\u{ce}\u{bc}\u{d2}\u{c7}\u{b0}")
    } else if i == 4 {
        ("texture/outdoor-props", "texture/\u{bf}\u{dc}\u{ba}\u{ce}\u{bc}\u{d2}\u{c7}\u{b0}")
    } else if i == 5 {
        ("sprite/human/body", "sprite/\u{c0}\u{ce}\u{b0}\u{a3}\u{c1}\u{b7}/\u{b8}\u{f6}\u{c5}\u{eb}")
    } else if i == 6 {
        ("sprite/human", "sprite/\u{c0}\u{ce}\u{b0}\u{a3}\u{c1}\u{b7}")
    } else if i == 7 {
        ("sprite/monster", "sprite/\u{b8}\u{f3}\u{bd}\u{ba}\u{c5}\u{cd}")
    } else if i == 8 {
        ("sprite/item", "sprite/\u{be}\u{c6}\u{c0}\u{cc}\u{c5}\u{db}")
    } else if i == 9 {
        ("sprite/accessory", "sprite/\u{be}\u{c7}\u{bc}\u{bc}\u{bb}\u{e7}\u{b8}\u{ae}")
    } else if i == 10 {
        ("sprite/robe", "sprite/\u{b7}\u{ce}\u{ba}\u{ea}")
    } else if i == 11 {
        ("sprite/shield", "sprite/\u{b9}\u{e6}\u{c6}\u{d0}")
    } else if i == 12 {
        ("sprite/effect", "sprite/\u{c0}\u{cc}\u{c6}\u{d1}\u{c6}\u{ae}")
    } else if i == 13 {
        ("palette/doram/hair", "palette/\u{b5}\u{b5}\u{b6}\u{f7}\u{c1}\u{b7}/\u{b8}\u{d3}\u{b8}\u{ae}")
    } else if i == 14 {
        ("palette/body", "palette/\u{b8}\u{f6}")
    } else if i == 15 {
        ("palette/hair", "palette/\u{b8}\u{d3}\u{b8}\u{ae}")
    } else {
        ("", "")
    }
}

/// `rel` with the first alias, from `i` on, that matches its leading
/// segments on a segment boundary put in the client's spelling.
pub open spec fn aliased_from(rel: Seq<char>, i: int) -> Seq<char>
    decreases alias_count() - i,
{
    if i < 0 || i >= alias_count() {
        rel
    } else if is_prefix(alias(i).0, rel) && (rel.len() == alias(i).0.len() || rel[alias(i).0.len() as int] == '/') {
        alias(i).1 + rel.skip(alias(i).0.len() as int)
    } else {
        aliased_from(rel, i + 1)
    }
}

fn aliased_of(rel: &[char]) -> (out: Vec<char>)
    ensures
        out@ == aliased_from(rel@, 0),
{
    let mut i: usize = 0;
    while i < 16
        invariant
            i <= 16,
            aliased_from(rel@, 0) == aliased_from(rel@, i as int),
        decreases 16 - i,
    {
        let (ascii, native) = alias_pair(i);
        let a = chars_of(ascii);
        if starts_with(rel, a.as_slice()) && (rel.len() == a.len() || rel[a.len()] == '/') {
            let mut out = chars_of(native);
            let rest = slice_of(rel, a.len(), rel.len());
            push_all(&mut out, rest.as_slice());
            return out;
        }
        i = i + 1;
    }
    slice_of(rel, 0, rel.len())
}

/// Rewrite a mod-relative asset path through the aliases: only the leading
/// segments, and only on an exact segment boundary.
pub fn apply_aliases(rel: &str) -> (out: String)
    ensures
        out@ == aliased_from(rel@, 0),
{
    let r = chars_of(rel);
    let out = aliased_of(r.as_slice());
    string_of(out.as_slice())
}

/// A Hangul syllable, U+AC00 to U+D7A3.
pub open spec fn is_hangul(c: char) -> bool {
    '\u{AC00}' <= c && c <= '\u{D7A3}'
}

/// The two bytes `encoding_rs::EUC_KR` (windows-949) encodes a Hangul
/// syllable as.
pub uninterp spec fn cp949_pair(c: char) -> (u8, u8);

/// `encoding_rs::EUC_KR.encode` on one Hangul syllable, whose encoding is two
/// bytes. The bytes are named by `cp949_pair`; the tables that decide them
/// are not restated.
#[verifier::external_body]
fn hangul_cp949(c: char) -> (r: (u8, u8))
    requires
        is_hangul(c),
    ensures
        r == cp949_pair(c),
{
    let mut buf = [0u8; 4];
    let (bytes, _, _) = encoding_rs::EUC_KR.encode(c.encode_utf8(&mut buf));
    (bytes[0], bytes[1])
}

/// A character in the client's spelling: a Hangul syllable as its two CP949
/// bytes, each read as the Latin-1 character of that value; anything else
/// as it is.
pub open spec fn spelled(c: char) -> Seq<char> {
    if is_hangul(c) {
        seq![(cp949_pair(c).0 as int) as char, (cp949_pair(c).1 as int) as char]
    } else {
        seq![c]
    }
}

/// `s` in the client's spelling, character by character.
pub open spec fn client_spelling(s: Seq<char>) -> Seq<char>
    decreases s.len(),
{
    if s.len() == 0 {
        seq![]
    } else {
        client_spelling(s.drop_last()) + spelled(s.last())
    }
}

fn latin1(b: u8) -> (c: char)
    ensures
        c == (b as int) as char,
{
    b as char
}

fn spelling_of(s: &[char]) -> (out: Vec<char>)
    ensures
        out@ == client_spelling(s@),
{
    let mut out: Vec<char> = Vec::new();
    let mut i: usize = 0;
    while i < s.len()
        invariant
            i <= s@.len(),
            out@ == client_spelling(s@.take(i as int)),
        decreases s@.len() - i,
    {
        let c = s[i];
        if '\u{AC00}' <= c && c <= '\u{D7A3}' {
            let (lead, trail) = hangul_cp949(c);
            out.push(latin1(lead));
            out.push(latin1(trail));
        } else {
            out.push(c);
        }
        i = i + 1;
        assert(s@.take(i as int).drop_last() == s@.take(i - 1));
    }
    assert(s@.take(s@.len() as int) == s@);
    out
}

/// Alias `i` applies to `rel`: its ASCII name is `rel`'s leading segments.
pub open spec fn alias_applies(rel: Seq<char>, i: int) -> bool {
    is_prefix(alias(i).0, rel) && (rel.len() == alias(i).0.len() || rel[alias(i).0.len() as int] == '/')
}

proof fn lemma_no_alias(rel: Seq<char>, i: int)
    requires
        0 <= i <= alias_count(),
        forall|j: int| i <= j < alias_count() ==> !#[trigger] alias_applies(rel, j),
    ensures
        aliased_from(rel, i) == rel,
    decreases alias_count() - i,
{
    if i < alias_count() {
        assert(!alias_applies(rel, i));
        lemma_no_alias(rel, i + 1);
    }
}

proof fn lemma_spelling_plain(s: Seq<char>)
    requires
        forall|k: int| 0 <= k < s.len() ==> !is_hangul(#[trigger] s[k]),
    ensures
        client_spelling(s) == s,
    decreases s.len(),
{
    if s.len() > 0 {
        lemma_spelling_plain(s.drop_last());
        assert(!is_hangul(s[s.len() - 1]));
        assert(s.drop_last() + seq![s.last()] == s);
    }
}

/// A path already in the client's spelling (no alias names its leading
/// segments, and it holds no Hangul) is served exactly as written, so a mod
/// that writes the client's own names is unaffected.
pub proof fn lemma_client_spelling_kept(rel: Seq<char>)
    requires
        forall|i: int| 0 <= i < alias_count() ==> !#[trigger] alias_applies(rel, i),
        forall|k: int| 0 <= k < rel.len() ==> !is_hangul(#[trigger] rel[k]),
    ensures
        client_spelling(aliased_from(rel, 0)) == rel,
{
    lemma_no_alias(rel, 0);
    lemma_spelling_plain(rel);
}

/// The path a mod's `data/` file is served at: ASCII aliases expanded, then
/// any Korean written in the path put in the client's CP949 spelling.
pub fn client_path(rel: &str) -> (out: String)
    ensures
        out@ == client_spelling(aliased_from(rel@, 0)),
{
    let r = chars_of(rel);
    let a = aliased_of(r.as_slice());
    let out = spelling_of(a.as_slice());
    string_of(out.as_slice())
}

/// Whether a lowercased file name is one the client's item tables go by:
/// `iteminfo...` ending in `.lua` or `.lub`.
pub open spec fn names_item_table(lower: Seq<char>) -> bool {
    is_prefix("iteminfo"@, lower) && (is_suffix(".lua"@, lower) || is_suffix(".lub"@, lower))
}

/// Whether a file name, already lowercased, is an item table's.
pub fn lowered_item_table(lower: &str) -> (r: bool)
    ensures
        r == names_item_table(lower@),
{
    let l = chars_of(lower);
    starts_with(l.as_slice(), chars_of("iteminfo").as_slice())
        && (ends_with(l.as_slice(), chars_of(".lua").as_slice()) || ends_with(l.as_slice(), chars_of(".lub").as_slice()))
}

/// `itemInfo.lua`, `itemInfo_C.lua`, `iteminfo.lub` -- any name the client's
/// own item tables go by, in any case (`str::to_lowercase`).
pub fn is_item_table(name: &str) -> (r: bool)
    ensures
        r == names_item_table(lowercase(name@)),
{
    let lower = to_lowercase(name);
    lowered_item_table(lower.as_str())
}

/// A character of a mod name as it may appear in a file name.
pub open spec fn safe_char(c: char) -> char {
    if ('a' <= c && c <= 'z') || ('A' <= c && c <= 'Z') || ('0' <= c && c <= '9') || c == '-' || c == '_' {
        c
    } else {
        '-'
    }
}

pub open spec fn safe_name(name: Seq<char>) -> Seq<char> {
    name.map_values(|c: char| safe_char(c))
}

/// A mod name made safe to put in a file name: anything but an ASCII letter,
/// digit, `-` or `_` becomes `-`.
pub fn safe_mod_name(name: &str) -> (out: String)
    ensures
        out@ == safe_name(name@),
{
    let n = chars_of(name);
    let mut out: Vec<char> = Vec::new();
    let mut i: usize = 0;
    while i < n.len()
        invariant
            i <= n@.len(),
            out@ == safe_name(n@.take(i as int)),
        decreases n@.len() - i,
    {
        let c = n[i];
        let k = if ('a' <= c && c <= 'z') || ('A' <= c && c <= 'Z') || ('0' <= c && c <= '9') || c == '-'
            || c == '_' {
            c
        } else {
            '-'
        };
        out.push(k);
        i = i + 1;
        assert(safe_name(n@.take(i as int)) == safe_name(n@.take(i - 1)).push(safe_char(n@[i - 1])));
    }
    assert(n@.take(n@.len() as int) == n@);
    string_of(out.as_slice())
}

/// The name the `n`th item table a mod ships (counting from zero) is kept
/// aside under: the first keeps `itemInfo-<mod>.lua`, later ones are
/// numbered from 2. A dot cannot appear in a safe mod name, so this cannot
/// be another mod's file.
pub open spec fn item_table_name(safe: Seq<char>, n: nat) -> Seq<char> {
    if n == 0 {
        "itemInfo-"@ + safe + ".lua"@
    } else {
        "itemInfo-"@ + safe + "."@ + decimal(n + 1) + ".lua"@
    }
}

pub fn item_table_file(safe: &str, n: u32) -> (out: String)
    requires
        n < u32::MAX,
    ensures
        out@ == item_table_name(safe@, n as nat),
{
    let mut out = chars_of("itemInfo-");
    push_all(&mut out, chars_of(safe).as_slice());
    if n > 0 {
        push_all(&mut out, chars_of(".").as_slice());
        push_decimal(&mut out, n + 1);
    }
    push_all(&mut out, chars_of(".lua").as_slice());
    string_of(out.as_slice())
}

/// The `i`th base item table the client may have, in the order it tries
/// them.
pub open spec fn base_candidate(i: int) -> Seq<char> {
    if i == 0 {
        "itemInfo.lub"@
    } else if i == 1 {
        "itemInfo.lua"@
    } else if i == 2 {
        "itemInfo_true.lub"@
    } else if i == 3 {
        "itemInfo_true.lua"@
    } else if i == 4 {
        "itemInfo_sak.lub"@
    } else if i == 5 {
        "itemInfo_sak.lua"@
    } else if i == 6 {
        "itemInfo_Sakray.lub"@
    } else {
        "itemInfo_Sakray.lua"@
    }
}

fn base_candidate_of(i: usize) -> (r: &'static str)
    requires
        i < 8,
    ensures
        r@ == base_candidate(i as int),
{
    if i == 0 {
        "itemInfo.lub"
    } else if i == 1 {
        "itemInfo.lua"
    } else if i == 2 {
        "itemInfo_true.lub"
    } else if i == 3 {
        "itemInfo_true.lua"
    } else if i == 4 {
        "itemInfo_sak.lub"
    } else if i == 5 {
        "itemInfo_sak.lua"
    } else if i == 6 {
        "itemInfo_Sakray.lub"
    } else {
        "itemInfo_Sakray.lua"
    }
}

/// The candidates from `i` on that are among `files`, under `System/`.
pub open spec fn present_bases(files: Seq<Seq<char>>, i: int) -> Seq<Seq<char>>
    decreases 8 - i,
{
    if i < 0 || i >= 8 {
        seq![]
    } else if files.contains(base_candidate(i)) {
        seq!["System/"@ + base_candidate(i)] + present_bases(files, i + 1)
    } else {
        present_bases(files, i + 1)
    }
}

/// The base item tables to name in `customItemInfo`: those among `files`
/// (the files the staged `System/` holds), in the order the client itself
/// tries them, or its two defaults when it holds none.
pub open spec fn base_tables(files: Seq<Seq<char>>) -> Seq<Seq<char>> {
    if present_bases(files, 0).len() > 0 {
        present_bases(files, 0)
    } else {
        seq!["System/itemInfo.lub"@, "System/itemInfo.lua"@]
    }
}

fn holds(files: &[String], name: &[char]) -> (r: bool)
    ensures
        r == texts(files@).contains(name@),
{
    let mut i: usize = 0;
    while i < files.len()
        invariant
            i <= files@.len(),
            forall|k: int| 0 <= k < i ==> #[trigger] texts(files@)[k] != name@,
        decreases files@.len() - i,
    {
        if same(chars_of(files[i].as_str()).as_slice(), name) {
            assert(texts(files@)[i as int] == name@);
            return true;
        }
        i = i + 1;
    }
    false
}

/// The base item tables to name in `customItemInfo`, given the files the
/// staged `System/` holds.
pub fn base_item_tables(files: &[String]) -> (out: Vec<String>)
    ensures
        texts(out@) == base_tables(texts(files@)),
{
    let mut out: Vec<String> = Vec::new();
    let mut i: usize = 0;
    assert(texts(out@) =~= Seq::<Seq<char>>::empty());
    while i < 8
        invariant
            i <= 8,
            present_bases(texts(files@), 0) == texts(out@) + present_bases(texts(files@), i as int),
        decreases 8 - i,
    {
        let c = base_candidate_of(i);
        if holds(files, chars_of(c).as_slice()) {
            let mut name = chars_of("System/");
            push_all(&mut name, chars_of(c).as_slice());
            let ghost before = texts(out@);
            out.push(string_of(name.as_slice()));
            assert(texts(out@) == before.push(name@));
        }
        i = i + 1;
    }
    if out.len() == 0 {
        let mut d: Vec<String> = Vec::new();
        d.push(string_of(chars_of("System/itemInfo.lub").as_slice()));
        d.push(string_of(chars_of("System/itemInfo.lua").as_slice()));
        assert(texts(d@) =~= seq!["System/itemInfo.lub"@, "System/itemInfo.lua"@]);
        return d;
    }
    out
}

/// The end of the config object a block is inserted before.
pub open spec fn closing() -> Seq<char> {
    seq!['\n', '}', ';']
}

/// `body` with `block` inserted before the closing brace of its config
/// object (its last `\n};`), with a comma after what comes before only when
/// that needs one; unchanged when it has no closing brace.
pub open spec fn inserted(body: Seq<char>, block: Seq<char>) -> Seq<char> {
    match last_occurrence(body, closing()) {
        None => body,
        Some(i) => {
            let head = body.take(i);
            let sep = if trim_end(head).len() > 0 && (trim_end(head).last() == ',' || trim_end(head).last() == '{') {
                seq![]
            } else {
                seq![',']
            };
            head + sep + seq!['\n'] + block + body.skip(i + 1)
        },
    }
}

fn inserted_of(body: &[char], block: &[char]) -> (out: Vec<char>)
    ensures
        out@ == inserted(body@, block@),
{
    let close: Vec<char> = vec!['\n', '}', ';'];
    assert(close@ == closing());
    proof {
        crate::text::lemma_last_at_or_before(body@, closing(), body@.len() - 3);
    }
    match rfind(body, close.as_slice()) {
        None => slice_of(body, 0, body.len()),
        Some(i) => {
            let head = slice_of(body, 0, i);
            let t = trim_end_of(head.as_slice());
            let mut out = head;
            if !(t.len() > 0 && (t[t.len() - 1] == ',' || t[t.len() - 1] == '{')) {
                out.push(',');
            }
            out.push('\n');
            push_all(&mut out, block);
            let n = body.len();
            assert(i + 3 <= n);
            let tail = slice_of(body, i + 1, body.len());
            push_all(&mut out, tail.as_slice());
            out
        },
    }
}

/// Insert a property block before the closing brace of Config.local.js.
///
/// Two blocks in a row must not produce `,,`: the separator is added only
/// when what comes before needs one.
pub fn insert_before_close(body: String, block: &str) -> (out: String)
    ensures
        out@ == inserted(body@, block@),
{
    let b = chars_of(body.as_str());
    let k = chars_of(block);
    let out = inserted_of(b.as_slice(), k.as_slice());
    string_of(out.as_slice())
}

/// The item tables `customItemInfo` names: the mods' own, last mod first,
/// then the base ones. The client keeps the first definition of an item it
/// reads, so a later mod wins here as it does on the server.
pub open spec fn item_list(item_tables: Seq<Seq<char>>, base: Seq<Seq<char>>) -> Seq<Seq<char>> {
    item_tables.reverse().map_values(|n: Seq<char>| "System/"@ + n) + base
}

/// A name as a JavaScript string in single quotes.
pub open spec fn single_quoted(n: Seq<char>) -> Seq<char> {
    seq!['\''] + n + seq!['\'']
}

/// One plugin's entry: where the loader finds it, and the parameters it is
/// handed.
pub open spec fn plugin_entry(p: (Seq<char>, Seq<char>)) -> Seq<char> {
    "\t\t'"@ + p.0 + "': { path: 'plugins/"@ + p.0 + "/index', pars: { "@ + p.1 + " } }"@
}

/// The texts of (name, parameters) pairs.
pub open spec fn pair_texts(v: Seq<(String, String)>) -> Seq<(Seq<char>, Seq<char>)> {
    v.map_values(|p: (String, String)| (p.0@, p.1@))
}

/// The client config: the template with its renewal flag following the
/// server's era and its codepage following the game text, then the mods'
/// item tables and plugins inserted before its closing brace, each only
/// when there is one.
pub open spec fn client_config_text(
    template: Seq<char>,
    prerenewal: bool,
    text: GameText,
    plugins: Seq<(Seq<char>, Seq<char>)>,
    item_tables: Seq<Seq<char>>,
    base: Seq<Seq<char>>,
) -> Seq<char> {
    let era = if prerenewal {
        replaced(template, "renewal: true,"@, "renewal: false,"@)
    } else {
        template
    };
    let coded = if text.langtype_of() == 0 {
        era
    } else {
        replaced(era, "langtype: 0,"@, "langtype: "@ + decimal(text.langtype_of() as nat) + ","@)
    };
    let tabled = if item_tables.len() == 0 {
        coded
    } else {
        inserted(
            coded,
            "\tcustomItemInfo: ["@ + joined_with(item_list(item_tables, base).map_values(|n: Seq<char>| single_quoted(n)), ", "@)
                + "],\n"@,
        )
    };
    if plugins.len() == 0 {
        tabled
    } else {
        inserted(tabled, "\tplugins: {\n"@ + joined_with(plugins.map_values(|p: (Seq<char>, Seq<char>)| plugin_entry(p)), ",\n"@) + "\n\t},\n"@)
    }
}

fn item_list_of(item_tables: &[String], base: &[String]) -> (out: Vec<Vec<char>>)
    ensures
        char_texts(out@) == item_list(texts(item_tables@), texts(base@)).map_values(|n: Seq<char>| single_quoted(n)),
{
    let ghost want = item_list(texts(item_tables@), texts(base@)).map_values(|n: Seq<char>| single_quoted(n));
    let mut out: Vec<Vec<char>> = Vec::new();
    let mut i: usize = item_tables.len();
    let ghost rev = texts(item_tables@).reverse();
    while i > 0
        invariant
            i <= item_tables@.len(),
            rev == texts(item_tables@).reverse(),
            char_texts(out@) == rev.take(item_tables@.len() - i).map_values(|n: Seq<char>| single_quoted("System/"@ + n)),
        decreases i,
    {
        i = i - 1;
        let mut entry: Vec<char> = vec!['\''];
        push_all(&mut entry, chars_of("System/").as_slice());
        push_all(&mut entry, chars_of(item_tables[i].as_str()).as_slice());
        entry.push('\'');
        assert(entry@ =~= single_quoted("System/"@ + texts(item_tables@)[i as int]));
        let ghost before = char_texts(out@);
        out.push(entry);
        assert(rev[item_tables@.len() - i - 1] == texts(item_tables@)[i as int]);
        assert(char_texts(out@) == before.push(entry@));
        assert(rev.take(item_tables@.len() - i).map_values(|n: Seq<char>| single_quoted("System/"@ + n))
            == rev.take(item_tables@.len() - i - 1).map_values(|n: Seq<char>| single_quoted("System/"@ + n)).push(single_quoted("System/"@ + rev[item_tables@.len() - i - 1])));
    }
    let ghost mid = char_texts(out@);
    assert(rev.take(item_tables@.len() as int) == rev);
    let mut j: usize = 0;
    while j < base.len()
        invariant
            j <= base@.len(),
            char_texts(out@) == mid + texts(base@).take(j as int).map_values(|n: Seq<char>| single_quoted(n)),
        decreases base@.len() - j,
    {
        let mut entry: Vec<char> = vec!['\''];
        push_all(&mut entry, chars_of(base[j].as_str()).as_slice());
        entry.push('\'');
        assert(entry@ =~= single_quoted(texts(base@)[j as int]));
        let ghost before = char_texts(out@);
        out.push(entry);
        assert(char_texts(out@) == before.push(entry@));
        j = j + 1;
        assert(texts(base@).take(j as int).map_values(|n: Seq<char>| single_quoted(n))
            == texts(base@).take(j - 1).map_values(|n: Seq<char>| single_quoted(n)).push(single_quoted(texts(base@)[j - 1])));
    }
    assert(texts(base@).take(base@.len() as int) == texts(base@));
    assert(char_texts(out@) =~= want);
    out
}

fn plugin_entries_of(plugins: &[(String, String)]) -> (out: Vec<Vec<char>>)
    ensures
        char_texts(out@) == pair_texts(plugins@).map_values(|p: (Seq<char>, Seq<char>)| plugin_entry(p)),
{
    let mut out: Vec<Vec<char>> = Vec::new();
    let mut i: usize = 0;
    while i < plugins.len()
        invariant
            i <= plugins@.len(),
            char_texts(out@) == pair_texts(plugins@).take(i as int).map_values(|p: (Seq<char>, Seq<char>)| plugin_entry(p)),
        decreases plugins@.len() - i,
    {
        let name = chars_of(plugins[i].0.as_str());
        let mut entry = chars_of("\t\t'");
        push_all(&mut entry, name.as_slice());
        push_all(&mut entry, chars_of("': { path: 'plugins/").as_slice());
        push_all(&mut entry, name.as_slice());
        push_all(&mut entry, chars_of("/index', pars: { ").as_slice());
        push_all(&mut entry, chars_of(plugins[i].1.as_str()).as_slice());
        push_all(&mut entry, chars_of(" } }").as_slice());
        let ghost before = char_texts(out@);
        out.push(entry);
        assert(char_texts(out@) == before.push(entry@));
        i = i + 1;
        assert(pair_texts(plugins@).take(i as int).map_values(|p: (Seq<char>, Seq<char>)| plugin_entry(p))
            == pair_texts(plugins@).take(i - 1).map_values(|p: (Seq<char>, Seq<char>)| plugin_entry(p)).push(plugin_entry(pair_texts(plugins@)[i - 1])));
    }
    assert(pair_texts(plugins@).take(plugins@.len() as int) == pair_texts(plugins@));
    out
}

/// Write the client config from its template: the renewal flag following
/// the server's era, the codepage following the game text, then any item
/// tables the mods ship (with the `base` tables after them) and any plugins
/// they provide, each inserted before the config object's closing brace.
pub fn client_config(
    template: &str,
    prerenewal: bool,
    text: GameText,
    plugins: &[(String, String)],
    item_tables: &[String],
    base: &[String],
) -> (out: String)
    ensures
        out@ == client_config_text(template@, prerenewal, text, pair_texts(plugins@), texts(item_tables@), texts(base@)),
{
    proof {
        reveal_strlit("renewal: true,");
        reveal_strlit("langtype: 0,");
    }
    let t = chars_of(template);
    let era = if prerenewal {
        replace_all(t.as_slice(), chars_of("renewal: true,").as_slice(), chars_of("renewal: false,").as_slice())
    } else {
        t
    };
    let lt = text.langtype();
    let coded = if lt == 0 {
        era
    } else {
        let mut r = chars_of("langtype: ");
        push_decimal(&mut r, lt);
        push_all(&mut r, chars_of(",").as_slice());
        replace_all(era.as_slice(), chars_of("langtype: 0,").as_slice(), r.as_slice())
    };
    let tabled = if item_tables.len() == 0 {
        coded
    } else {
        let names = item_list_of(item_tables, base);
        let mut block = chars_of("\tcustomItemInfo: [");
        push_all(&mut block, join_chars(&names, chars_of(", ").as_slice()).as_slice());
        push_all(&mut block, chars_of("],\n").as_slice());
        inserted_of(coded.as_slice(), block.as_slice())
    };
    let out = if plugins.len() == 0 {
        tabled
    } else {
        let entries = plugin_entries_of(plugins);
        let mut block = chars_of("\tplugins: {\n");
        push_all(&mut block, join_chars(&entries, chars_of(",\n").as_slice()).as_slice());
        push_all(&mut block, chars_of("\n\t},\n").as_slice());
        inserted_of(tabled.as_slice(), block.as_slice())
    };
    string_of(out.as_slice())
}

/// The roots a mod can reach the client through, in this order.
pub open spec fn client_root(i: int) -> Seq<char> {
    if i == 0 {
        "data"@
    } else if i == 1 {
        "BGM"@
    } else if i == 2 {
        "System"@
    } else {
        "client"@
    }
}

fn client_root_of(i: usize) -> (r: &'static str)
    requires
        i < 4,
    ensures
        r@ == client_root(i as int),
{
    if i == 0 {
        "data"
    } else if i == 1 {
        "BGM"
    } else if i == 2 {
        "System"
    } else {
        "client"
    }
}

/// The client roots from `i` on that are among `dirs`.
pub open spec fn roots_from(dirs: Seq<Seq<char>>, i: int) -> Seq<Seq<char>>
    decreases 4 - i,
{
    if i < 0 || i >= 4 {
        seq![]
    } else if dirs.contains(client_root(i)) {
        seq![client_root(i)] + roots_from(dirs, i + 1)
    } else {
        roots_from(dirs, i + 1)
    }
}

/// The roots a mod can reach the *client* through, of those it has (`dirs`,
/// the directories at the top of its folder): `data`, `BGM`, `System` and
/// `client`. The server's `db/`, `npc/` and `conf/` are not among them, so a
/// mod built only from those does not cost the player their cache.
pub fn client_roots(dirs: &[String]) -> (out: Vec<String>)
    ensures
        texts(out@) == roots_from(texts(dirs@), 0),
{
    let mut out: Vec<String> = Vec::new();
    let mut i: usize = 0;
    assert(texts(out@) =~= Seq::<Seq<char>>::empty());
    while i < 4
        invariant
            i <= 4,
            roots_from(texts(dirs@), 0) == texts(out@) + roots_from(texts(dirs@), i as int),
        decreases 4 - i,
    {
        let r = client_root_of(i);
        if holds(dirs, chars_of(r).as_slice()) {
            let ghost before = texts(out@);
            out.push(string_of(chars_of(r).as_slice()));
            assert(texts(out@) == before.push(r@));
        }
        i = i + 1;
    }
    out
}

/// Whether a file of the client's own `System/` is left out of the merged
/// one: its item and quest tables, while the English translation's are in
/// front of it.
pub open spec fn leaves_out(translated: bool, name: Seq<char>) -> bool {
    translated && (is_prefix("itemInfo"@, name) || is_prefix("OngoingQuestInfoList"@, name))
}

pub fn skips_client_table(translated: bool, name: &str) -> (r: bool)
    ensures
        r == leaves_out(translated, name@),
{
    let n = chars_of(name);
    translated && (starts_with(n.as_slice(), chars_of("itemInfo").as_slice())
        || starts_with(n.as_slice(), chars_of("OngoingQuestInfoList").as_slice()))
}

/// The archives' lines of `DATA.INI`, from index `k`: `<index>=<path>`.
pub open spec fn ini_lines(archives: Seq<Seq<char>>, k: int) -> Seq<char>
    decreases archives.len() - k,
{
    if k < 0 || k >= archives.len() {
        seq![]
    } else {
        decimal(k as nat) + seq!['='] + archives[k] + seq!['\n'] + ini_lines(archives, k + 1)
    }
}

/// `DATA.INI`: the archives in the order they are searched, lower indices
/// first.
pub open spec fn data_ini_text(archives: Seq<Seq<char>>) -> Seq<char> {
    "[Data]\n"@ + ini_lines(archives, 0)
}

pub fn data_ini(archives: &[String]) -> (out: String)
    requires
        archives@.len() < u32::MAX,
    ensures
        out@ == data_ini_text(texts(archives@)),
{
    let mut out = chars_of("[Data]\n");
    let ghost head = out@;
    let mut i: usize = 0;
    while i < archives.len()
        invariant
            i <= archives@.len(),
            archives@.len() < u32::MAX,
            data_ini_text(texts(archives@)) == out@ + ini_lines(texts(archives@), i as int),
        decreases archives@.len() - i,
    {
        push_decimal(&mut out, i as u32);
        out.push('=');
        push_all(&mut out, chars_of(archives[i].as_str()).as_slice());
        out.push('\n');
        i = i + 1;
    }
    string_of(out.as_slice())
}

/// A plugin's parameters: each setting as `"<key>": <value>`, separated by
/// commas, the key as a JSON string and the value as the JSON it already is.
pub open spec fn pars_text(entries: Seq<(Seq<char>, Seq<char>)>) -> Seq<char> {
    joined_with(entries.map_values(|e: (Seq<char>, Seq<char>)| crate::json::quoted(e.0) + ": "@ + e.1), ", "@)
}

pub fn plugin_pars(entries: &[(String, String)]) -> (out: String)
    ensures
        out@ == pars_text(pair_texts(entries@)),
{
    let mut parts: Vec<Vec<char>> = Vec::new();
    let mut i: usize = 0;
    while i < entries.len()
        invariant
            i <= entries@.len(),
            char_texts(parts@) == pair_texts(entries@).take(i as int).map_values(
                |e: (Seq<char>, Seq<char>)| crate::json::quoted(e.0) + ": "@ + e.1,
            ),
        decreases entries@.len() - i,
    {
        let mut part: Vec<char> = Vec::new();
        crate::json::push_quoted(&mut part, chars_of(entries[i].0.as_str()).as_slice());
        push_all(&mut part, chars_of(": ").as_slice());
        push_all(&mut part, chars_of(entries[i].1.as_str()).as_slice());
        let ghost before = char_texts(parts@);
        parts.push(part);
        assert(char_texts(parts@) == before.push(part@));
        i = i + 1;
        assert(pair_texts(entries@).take(i as int).map_values(|e: (Seq<char>, Seq<char>)| crate::json::quoted(e.0) + ": "@ + e.1)
            == pair_texts(entries@).take(i - 1).map_values(|e: (Seq<char>, Seq<char>)| crate::json::quoted(e.0) + ": "@ + e.1).push(
                crate::json::quoted(pair_texts(entries@)[i - 1].0) + ": "@ + pair_texts(entries@)[i - 1].1));
    }
    assert(pair_texts(entries@).take(entries@.len() as int) == pair_texts(entries@));
    let out = join_chars(&parts, chars_of(", ").as_slice());
    string_of(out.as_slice())
}

} // verus!

//! Mod settings: what is wrong with a declared option, which requests to
//! record answers are refused, where one mod's chosen values go among
//! everyone's, and the document written out.

use vstd::prelude::*;
use crate::conf::pairs;
use crate::json::{push_quoted, quoted};
use crate::order::{compare, lemma_lex_total, lex_lt};
use crate::report::texts;
use crate::text::{char_texts, chars_of, debug_string, debug_text, join_chars, joined_with, push_all, string_of};

verus! {

/// A character a setting key may hold: an ASCII letter, digit or `_`.
pub open spec fn key_char(c: char) -> bool {
    ('a' <= c && c <= 'z') || ('A' <= c && c <= 'Z') || ('0' <= c && c <= '9') || c == '_'
}

/// A setting key as mod.json must spell it: 1 to 40 letters, digits or
/// underscores, not starting with a digit.
pub open spec fn good_key(key: Seq<char>) -> bool {
    &&& 0 < key.len() <= 40
    &&& forall|k: int| 0 <= k < key.len() ==> key_char(#[trigger] key[k])
    &&& !('0' <= key[0] && key[0] <= '9')
}

/// How many bytes a character takes in UTF-8.
pub open spec fn utf8_width(c: char) -> int {
    if (c as u32) < 0x80 {
        1
    } else if (c as u32) < 0x800 {
        2
    } else if (c as u32) < 0x10000 {
        3
    } else {
        4
    }
}

/// How many bytes a text takes in UTF-8.
pub open spec fn utf8_len(s: Seq<char>) -> int
    decreases s.len(),
{
    if s.len() == 0 {
        0
    } else {
        utf8_len(s.drop_last()) + utf8_width(s.last())
    }
}

/// The first thing wrong with one declared setting, short of its default
/// and bounds: its key, a key declared before it, an over-long label (120
/// bytes) or description (400 bytes), or a type that is not `boolean`,
/// `number` or `string`.
pub open spec fn setting_problem_of(
    key: Seq<char>,
    declared: Seq<Seq<char>>,
    label: Seq<char>,
    description: Seq<char>,
    kind: Seq<char>,
) -> Option<Seq<char>> {
    if !good_key(key) {
        Some("mod.json: setting key "@ + debug_text(key)
            + " must be 1-40 letters, digits or underscores and cannot start with a digit"@)
    } else if declared.contains(key) {
        Some("mod.json: setting "@ + debug_text(key) + " is declared twice"@)
    } else if utf8_len(label) > 120 || utf8_len(description) > 400 {
        Some("mod.json: setting "@ + debug_text(key) + " has an over-long label or description"@)
    } else if kind != "boolean"@ && kind != "number"@ && kind != "string"@ {
        Some("mod.json: setting "@ + debug_text(key) + " has type "@ + debug_text(kind)
            + "; use \"boolean\", \"number\" or \"string\""@)
    } else {
        None
    }
}

fn good_key_of(key: &[char]) -> (r: bool)
    ensures
        r == good_key(key@),
{
    if key.len() == 0 || key.len() > 40 {
        return false;
    }
    let mut i: usize = 0;
    while i < key.len()
        invariant
            i <= key@.len(),
            forall|k: int| 0 <= k < i ==> key_char(#[trigger] key@[k]),
        decreases key@.len() - i,
    {
        let c = key[i];
        if !(('a' <= c && c <= 'z') || ('A' <= c && c <= 'Z') || ('0' <= c && c <= '9') || c == '_') {
            assert(!key_char(key@[i as int]));
            return false;
        }
        i = i + 1;
    }
    !('0' <= key[0] && key[0] <= '9')
}

/// Whether a text takes more than `limit` bytes in UTF-8.
fn longer_than(s: &[char], limit: usize) -> (r: bool)
    ensures
        r == (utf8_len(s@) > limit),
{
    let mut total: usize = 0;
    let mut i: usize = 0;
    assert(s@.take(0) =~= Seq::<char>::empty());
    while i < s.len()
        invariant
            i <= s@.len(),
            total as int == utf8_len(s@.take(i as int)),
            total <= limit,
        decreases s@.len() - i,
    {
        let c = s[i];
        let w: usize = if (c as u32) < 0x80 {
            1
        } else if (c as u32) < 0x800 {
            2
        } else if (c as u32) < 0x10000 {
            3
        } else {
            4
        };
        assert(s@.take(i + 1).drop_last() =~= s@.take(i as int));
        assert(s@.take(i + 1).last() == c);
        if w > limit - total {
            proof {
                lemma_utf8_len_grows(s@, i as int + 1);
            }
            return true;
        }
        total = total + w;
        i = i + 1;
    }
    assert(s@.take(s@.len() as int) =~= s@);
    false
}

/// A longer prefix takes at least as many bytes.
proof fn lemma_utf8_len_grows(s: Seq<char>, k: int)
    requires
        0 <= k <= s.len(),
    ensures
        utf8_len(s.take(k)) <= utf8_len(s),
    decreases s.len() - k,
{
    if k < s.len() {
        lemma_utf8_len_grows(s, k + 1);
        assert(s.take(k + 1).drop_last() =~= s.take(k));
    } else {
        assert(s.take(k) =~= s);
    }
}

/// The first thing wrong with one declared setting, short of its default
/// and bounds; `declared` holds the keys declared before it.
pub fn setting_problem(key: &str, declared: &[String], label: &str, description: &str, kind: &str) -> (r: Option<String>)
    ensures
        match r {
            Some(t) => setting_problem_of(key@, texts(declared@), label@, description@, kind@) == Some(t@),
            None => setting_problem_of(key@, texts(declared@), label@, description@, kind@) is None,
        },
{
    let k = chars_of(key);
    if !good_key_of(k.as_slice()) {
        let mut t = chars_of("mod.json: setting key ");
        push_all(&mut t, chars_of(debug_string(key).as_str()).as_slice());
        push_all(&mut t, chars_of(" must be 1-40 letters, digits or underscores and cannot start with a digit").as_slice());
        return Some(string_of(t.as_slice()));
    }
    let mut i: usize = 0;
    while i < declared.len()
        invariant
            i <= declared@.len(),
            k@ == key@,
            good_key(key@),
            forall|j: int| 0 <= j < i ==> #[trigger] texts(declared@)[j] != key@,
        decreases declared@.len() - i,
    {
        if crate::text::same(chars_of(declared[i].as_str()).as_slice(), k.as_slice()) {
            assert(texts(declared@)[i as int] == key@);
            let mut t = chars_of("mod.json: setting ");
            push_all(&mut t, chars_of(debug_string(key).as_str()).as_slice());
            push_all(&mut t, chars_of(" is declared twice").as_slice());
            return Some(string_of(t.as_slice()));
        }
        i = i + 1;
    }
    if longer_than(chars_of(label).as_slice(), 120) || longer_than(chars_of(description).as_slice(), 400) {
        let mut t = chars_of("mod.json: setting ");
        push_all(&mut t, chars_of(debug_string(key).as_str()).as_slice());
        push_all(&mut t, chars_of(" has an over-long label or description").as_slice());
        return Some(string_of(t.as_slice()));
    }
    let ty = chars_of(kind);
    if !crate::text::same(ty.as_slice(), chars_of("boolean").as_slice())
        && !crate::text::same(ty.as_slice(), chars_of("number").as_slice())
        && !crate::text::same(ty.as_slice(), chars_of("string").as_slice()) {
        let mut t = chars_of("mod.json: setting ");
        push_all(&mut t, chars_of(debug_string(key).as_str()).as_slice());
        push_all(&mut t, chars_of(" has type ").as_slice());
        push_all(&mut t, chars_of(debug_string(kind).as_str()).as_slice());
        push_all(&mut t, chars_of("; use \"boolean\", \"number\" or \"string\"").as_slice());
        return Some(string_of(t.as_slice()));
    }
    None
}

/// Every mod's chosen values, as plain values: (mod, [(key, value as JSON)]).
pub type SavedView = Seq<(Seq<char>, Seq<(Seq<char>, Seq<char>)>)>;

pub open spec fn saved_view(all: Seq<(String, Vec<(String, String)>)>) -> SavedView {
    all.map_values(|m: (String, Vec<(String, String)>)| (m.0@, pairs(m.1@)))
}

/// Why a mod's settings cannot be recorded, from how many settings it
/// declares (`None` when no mod of that name is installed): none to record
/// for a mod that is not there or declares none.
pub open spec fn refusal_of(name: Seq<char>, declared: Option<usize>) -> Option<Seq<char>> {
    match declared {
        None => Some("no mod named "@ + debug_text(name) + " is installed"@),
        Some(n) => if n == 0 {
            Some(name + " declares no settings"@)
        } else {
            None
        },
    }
}

/// Whether recording settings for `name` is refused before its values are
/// looked at, and why.
pub fn settings_refusal(name: &str, declared: Option<usize>) -> (r: Option<String>)
    ensures
        match r {
            Some(t) => refusal_of(name@, declared) == Some(t@),
            None => refusal_of(name@, declared) is None,
        },
{
    match declared {
        None => {
            let mut t = chars_of("no mod named ");
            push_all(&mut t, chars_of(debug_string(name).as_str()).as_slice());
            push_all(&mut t, chars_of(" is installed").as_slice());
            Some(string_of(t.as_slice()))
        },
        Some(n) => if n == 0 {
            let mut t = chars_of(name);
            push_all(&mut t, chars_of(" declares no settings").as_slice());
            Some(string_of(t.as_slice()))
        } else {
            None
        },
    }
}

/// `all` with `name`'s values set to `chosen`: replacing its entry when it
/// has one, and otherwise adding one where its name sorts.
pub open spec fn put_view(all: SavedView, name: Seq<char>, chosen: Seq<(Seq<char>, Seq<char>)>) -> SavedView
    decreases all.len(),
{
    if all.len() == 0 {
        seq![(name, chosen)]
    } else if all[0].0 == name {
        seq![(name, chosen)] + all.drop_first()
    } else if lex_lt(name, all[0].0) {
        seq![(name, chosen)] + all
    } else {
        seq![all[0]] + put_view(all.drop_first(), name, chosen)
    }
}

/// Set one mod's chosen values among everyone's, keeping the mods in the
/// order of their names.
pub fn put_settings(all: &mut Vec<(String, Vec<(String, String)>)>, name: String, chosen: Vec<(String, String)>)
    ensures
        saved_view(final(all)@) == put_view(saved_view(old(all)@), name@, pairs(chosen@)),
{
    let ghost start = saved_view(all@);
    let n = chars_of(name.as_str());
    let mut i: usize = 0;
    assert(start.skip(0) =~= start);
    assert(start.take(0) =~= Seq::<(Seq<char>, Seq<(Seq<char>, Seq<char>)>)>::empty());
    while i < all.len()
        invariant
            i <= all@.len(),
            start == saved_view(all@),
            n@ == name@,
            put_view(start, name@, pairs(chosen@)) == start.take(i as int) + put_view(start.skip(i as int), name@, pairs(chosen@)),
        ensures
            i <= all@.len(),
            start == saved_view(all@),
            put_view(start, name@, pairs(chosen@)) == start.take(i as int) + put_view(start.skip(i as int), name@, pairs(chosen@)),
            i < all@.len() ==> !lex_lt(start[i as int].0, name@),
        decreases all@.len() - i,
    {
        let c = compare(chars_of(all[i].0.as_str()).as_slice(), n.as_slice());
        assert(start[i as int].0 == all@[i as int].0@);
        if c >= 0 {
            break;
        }
        proof {
            let rest = start.skip(i as int);
            assert(rest[0] == start[i as int]);
            assert(rest[0].0 != name@);
            if lex_lt(name@, rest[0].0) {
                crate::order::lemma_lex_asymmetric(name@, rest[0].0);
            }
            assert(rest.drop_first() =~= start.skip(i + 1));
            assert(start.take(i + 1) =~= start.take(i as int) + seq![start[i as int]]);
        }
        i = i + 1;
    }
    let ghost rest = start.skip(i as int);
    let ghost c = pairs(chosen@);
    if i < all.len() && crate::text::same(chars_of(all[i].0.as_str()).as_slice(), n.as_slice()) {
        let ghost before = all@;
        all.set(i, (name, chosen));
        proof {
            assert(rest[0] == start[i as int]);
            assert(put_view(rest, name@, c) == seq![(name@, c)] + rest.drop_first());
            assert(saved_view(all@) =~= start.take(i as int) + (seq![(name@, c)] + rest.drop_first())) by {
                assert forall|k: int| 0 <= k < all@.len() implies #[trigger] saved_view(all@)[k]
                    == (start.take(i as int) + (seq![(name@, c)] + rest.drop_first()))[k] by {
                    if k != i {
                        assert(all@[k] == before[k]);
                    }
                }
            }
        }
    } else {
        let ghost before = all@;
        proof {
            if i < all@.len() {
                assert(rest[0] == start[i as int]);
                assert(rest[0].0 != name@);
                lemma_lex_total(rest[0].0, name@);
            }
        }
        all.insert(i, (name, chosen));
        proof {
            assert(put_view(rest, name@, c) == seq![(name@, c)] + rest);
            assert(saved_view(all@) =~= start.take(i as int) + (seq![(name@, c)] + rest)) by {
                assert forall|k: int| 0 <= k < all@.len() implies #[trigger] saved_view(all@)[k]
                    == (start.take(i as int) + (seq![(name@, c)] + rest))[k] by {
                    if k < i {
                        assert(all@[k] == before[k]);
                    } else if k > i {
                        assert(all@[k] == before[k - 1]);
                    }
                }
            }
        }
    }
}

/// One chosen value as its line of the document.
pub open spec fn value_line(v: (Seq<char>, Seq<char>)) -> Seq<char> {
    "    "@ + quoted(v.0) + ": "@ + v.1
}

/// One mod's block of the document.
pub open spec fn mod_block(m: (Seq<char>, Seq<(Seq<char>, Seq<char>)>)) -> Seq<char> {
    "  "@ + quoted(m.0) + ": {\n"@ + joined_with(m.1.map_values(|v: (Seq<char>, Seq<char>)| value_line(v)), ",\n"@)
        + "\n  }"@
}

/// The settings file: one object, a block per mod, in the order given.
pub open spec fn settings_document_text(all: SavedView) -> Seq<char> {
    "{\n"@ + joined_with(all.map_values(|m: (Seq<char>, Seq<(Seq<char>, Seq<char>)>)| mod_block(m)), ",\n"@) + "\n}\n"@
}

fn block_of(name: &str, values: &Vec<(String, String)>) -> (out: Vec<char>)
    ensures
        out@ == mod_block((name@, pairs(values@))),
{
    let mut lines: Vec<Vec<char>> = Vec::new();
    let mut k: usize = 0;
    let ghost want = pairs(values@).map_values(|v: (Seq<char>, Seq<char>)| value_line(v));
    while k < values.len()
        invariant
            k <= values@.len(),
            want == pairs(values@).map_values(|v: (Seq<char>, Seq<char>)| value_line(v)),
            lines@.len() == k,
            forall|t: int| 0 <= t < k ==> (#[trigger] lines@[t])@ == want[t],
        decreases values@.len() - k,
    {
        let mut line = chars_of("    ");
        push_quoted(&mut line, chars_of(values[k].0.as_str()).as_slice());
        push_all(&mut line, chars_of(": ").as_slice());
        push_all(&mut line, chars_of(values[k].1.as_str()).as_slice());
        assert(line@ == want[k as int]);
        lines.push(line);
        k = k + 1;
    }
    assert(char_texts(lines@) =~= want);
    let mut out = chars_of("  ");
    push_quoted(&mut out, chars_of(name).as_slice());
    push_all(&mut out, chars_of(": {\n").as_slice());
    push_all(&mut out, join_chars(&lines, chars_of(",\n").as_slice()).as_slice());
    push_all(&mut out, chars_of("\n  }").as_slice());
    out
}

/// The text of the settings file for everyone's chosen values.
pub fn settings_document(all: &Vec<(String, Vec<(String, String)>)>) -> (out: String)
    ensures
        out@ == settings_document_text(saved_view(all@)),
{
    let mut blocks: Vec<Vec<char>> = Vec::new();
    let mut k: usize = 0;
    let ghost want = saved_view(all@).map_values(|m: (Seq<char>, Seq<(Seq<char>, Seq<char>)>)| mod_block(m));
    while k < all.len()
        invariant
            k <= all@.len(),
            want == saved_view(all@).map_values(|m: (Seq<char>, Seq<(Seq<char>, Seq<char>)>)| mod_block(m)),
            blocks@.len() == k,
            forall|t: int| 0 <= t < k ==> (#[trigger] blocks@[t])@ == want[t],
        decreases all@.len() - k,
    {
        let b = block_of(all[k].0.as_str(), &all[k].1);
        blocks.push(b);
        k = k + 1;
    }
    assert(char_texts(blocks@) =~= want);
    let mut out = chars_of("{\n");
    push_all(&mut out, join_chars(&blocks, chars_of(",\n").as_slice()).as_slice());
    push_all(&mut out, chars_of("\n}\n").as_slice());
    string_of(out.as_slice())
}

} // verus!

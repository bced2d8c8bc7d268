//! What a mod's `mod.json` says, checked for shape: its name and blurb,
//! whether it starts switched on, the mods it needs and the mods it comes
//! after, and what it requires of the app.

use vstd::prelude::*;
use crate::json::{is_object, json_string, json_text, member, member_text, Json};
use crate::report::texts;
use crate::text::{chars_of, debug_string, debug_text, push_all, same, string_of, trim, trim_of};

verus! {

/// A character a mod name may hold: an ASCII letter or digit, `-` or `_`.
pub open spec fn name_char(c: char) -> bool {
    ||| ('a' <= c && c <= 'z')
    ||| ('A' <= c && c <= 'Z')
    ||| ('0' <= c && c <= '9')
    ||| c == '-'
    ||| c == '_'
}

/// A mod name: one to sixty-four name characters, something a filesystem and
/// a JSON document can both carry and that cannot climb out of the mods
/// directory.
pub open spec fn is_mod_name(s: Seq<char>) -> bool {
    &&& 0 < s.len() <= 64
    &&& forall|k: int| 0 <= k < s.len() ==> name_char(#[trigger] s[k])
}

pub open spec fn not_array_message(label: Seq<char>) -> Seq<char> {
    "mod.json: \""@ + label + "\" must be an array of mod names"@
}

pub open spec fn not_name_entry_message(label: Seq<char>) -> Seq<char> {
    "mod.json: every entry in \""@ + label + "\" must be a mod name"@
}

pub open spec fn bad_name_message(name: Seq<char>, label: Seq<char>) -> Seq<char> {
    "mod.json: "@ + debug_text(name) + " in \""@ + label
        + "\" is not a mod name -- letters, digits, - and _, up to 64"@
}

/// Reading the items of a name list from `k`, with the names kept so far in
/// `out`: each must be a string holding a mod name, and a repeat is kept once.
pub open spec fn names_from(items: Seq<Json>, label: Seq<char>, k: int, out: Seq<Seq<char>>) -> Result<
    Seq<Seq<char>>,
    Seq<char>,
>
    decreases items.len() - k,
{
    if k < 0 || k >= items.len() {
        Ok(out)
    } else {
        match items[k] {
            Json::Str(s) => if !is_mod_name(s@) {
                Err(bad_name_message(s@, label))
            } else if out.contains(s@) {
                names_from(items, label, k + 1, out)
            } else {
                names_from(items, label, k + 1, out.push(s@))
            },
            _ => Err(not_name_entry_message(label)),
        }
    }
}

/// The list of mod names under `key`, labelled `prefix` + `key` in what it
/// says: empty when there is no such member.
pub open spec fn names_under(v: Json, key: Seq<char>, prefix: Seq<char>) -> Result<Seq<Seq<char>>, Seq<char>> {
    match member(v, key) {
        None => Ok(seq![]),
        Some(Json::Array(items)) => names_from(items@, prefix + key, 0, seq![]),
        Some(_) => Err(not_array_message(prefix + key)),
    }
}

proof fn lemma_names_from(items: Seq<Json>, label: Seq<char>, k: int, out: Seq<Seq<char>>)
    requires
        out.no_duplicates(),
        forall|i: int| 0 <= i < out.len() ==> is_mod_name(#[trigger] out[i]),
    ensures
        names_from(items, label, k, out) matches Ok(l) ==> l.no_duplicates()
            && forall|i: int| 0 <= i < l.len() ==> is_mod_name(#[trigger] l[i]),
    decreases items.len() - k,
{
    if 0 <= k < items.len() {
        match items[k] {
            Json::Str(s) => {
                if is_mod_name(s@) {
                    if out.contains(s@) {
                        lemma_names_from(items, label, k + 1, out);
                    } else {
                        let next = out.push(s@);
                        assert forall|i: int, j: int| 0 <= i < j < next.len() implies next[i] != next[j] by {
                            if j == out.len() {
                                assert(out[i] == next[i]);
                            }
                        }
                        assert forall|i: int| 0 <= i < next.len() implies is_mod_name(#[trigger] next[i]) by {
                            if i < out.len() {
                                assert(next[i] == out[i]);
                            }
                        }
                        lemma_names_from(items, label, k + 1, next);
                    }
                }
            },
            _ => {},
        }
    }
}

/// A list of mod names that is read at all holds mod names only, each once:
/// repeats collapse rather than ordering a mod against itself twice.
pub proof fn lemma_name_list_is_names(v: Json, key: Seq<char>, prefix: Seq<char>)
    ensures
        names_under(v, key, prefix) matches Ok(l) ==> l.no_duplicates()
            && forall|i: int| 0 <= i < l.len() ==> is_mod_name(#[trigger] l[i]),
{
    match member(v, key) {
        Some(Json::Array(items)) => lemma_names_from(items@, prefix + key, 0, seq![]),
        _ => {},
    }
}

fn is_mod_name_of(s: &[char]) -> (r: bool)
    ensures
        r == is_mod_name(s@),
{
    if s.len() == 0 || s.len() > 64 {
        return false;
    }
    let mut i: usize = 0;
    while i < s.len()
        invariant
            i <= s@.len(),
            forall|k: int| 0 <= k < i ==> name_char(#[trigger] s@[k]),
        decreases s@.len() - i,
    {
        let c = s[i];
        if !(('a' <= c && c <= 'z') || ('A' <= c && c <= 'Z') || ('0' <= c && c <= '9') || c == '-'
            || c == '_') {
            assert(!name_char(s@[i as int]));
            return false;
        }
        i = i + 1;
    }
    true
}

pub fn contains_text(list: &Vec<String>, s: &[char]) -> (r: bool)
    ensures
        r == texts(list@).contains(s@),
{
    let mut i: usize = 0;
    while i < list.len()
        invariant
            i <= list@.len(),
            forall|k: int| 0 <= k < i ==> #[trigger] texts(list@)[k] != s@,
        decreases list@.len() - i,
    {
        let c = chars_of(list[i].as_str());
        if same(c.as_slice(), s) {
            assert(texts(list@)[i as int] == s@);
            return true;
        }
        i = i + 1;
    }
    false
}

/// `a`, `b` and `c`, one after another.
pub fn text3(a: &str, b: &str, c: &str) -> (out: Vec<char>)
    ensures
        out@ == a@ + b@ + c@,
{
    let mut out = chars_of(a);
    push_all(&mut out, chars_of(b).as_slice());
    push_all(&mut out, chars_of(c).as_slice());
    out
}

/// The text of an optional prefix; nothing when there is none.
pub open spec fn prefix_text(prefix: Option<&str>) -> Seq<char> {
    match prefix {
        Some(p) => p@,
        None => seq![],
    }
}

/// A list of names, or what is wrong with it, as plain values.
pub open spec fn listed(r: Result<Vec<String>, String>) -> Result<Seq<Seq<char>>, Seq<char>> {
    match r {
        Ok(v) => Ok(texts(v@)),
        Err(e) => Err(e@),
    }
}

/// A list of mod names from the manifest, checked for shape.
///
/// Mod names are folder names, so the same rules apply: something a
/// filesystem and a JSON document can both carry, and nothing that could
/// climb out of the mods directory if it were ever joined to a path.
pub fn name_list(value: &Json, key: &str, prefix: Option<&str>) -> (r: Result<Vec<String>, String>)
    ensures
        listed(r) == names_under(*value, key@, prefix_text(prefix)),
{
    let ghost pre = prefix_text(prefix);
    let mut label: Vec<char> = match prefix {
        Some(p) => chars_of(p),
        None => Vec::new(),
    };
    push_all(&mut label, chars_of(key).as_slice());
    let label = string_of(label.as_slice());
    assert(label@ == pre + key@);
    let list = match value.get(key) {
        None => {
            let empty: Vec<String> = Vec::new();
            assert(texts(empty@) =~= Seq::<Seq<char>>::empty());
            return Ok(empty);
        },
        Some(list) => list,
    };
    let items = match list {
        Json::Array(items) => items,
        _ => {
            let m = text3("mod.json: \"", label.as_str(), "\" must be an array of mod names");
            assert(m@ =~= not_array_message(pre + key@));
            return Err(string_of(m.as_slice()));
        },
    };
    let mut out: Vec<String> = Vec::new();
    let mut i: usize = 0;
    assert(texts(out@) == Seq::<Seq<char>>::empty());
    while i < items.len()
        invariant
            i <= items@.len(),
            label@ == pre + key@,
            pre == prefix_text(prefix),
            names_under(*value, key@, pre) == names_from(items@, pre + key@, 0, seq![]),
            names_from(items@, pre + key@, 0, seq![]) == names_from(items@, pre + key@, i as int, texts(out@)),
        decreases items@.len() - i,
    {
        let name = match &items[i] {
            Json::Str(name) => name,
            _ => {
                let m = text3("mod.json: every entry in \"", label.as_str(), "\" must be a mod name");
                assert(m@ =~= not_name_entry_message(pre + key@));
                assert(!(items@[i as int] is Str));
                assert(names_from(items@, pre + key@, i as int, texts(out@)) == Err::<Seq<Seq<char>>, Seq<char>>(m@));
                return Err(string_of(m.as_slice()));
            },
        };
        let chars = chars_of(name.as_str());
        if !is_mod_name_of(chars.as_slice()) {
            let shown = debug_string(name.as_str());
            let mut m = text3("mod.json: ", shown.as_str(), " in \"");
            push_all(&mut m, text3(label.as_str(), "\" is not a mod name -- letters, digits, - and _, up to 64", "").as_slice());
            proof {
                reveal_strlit("");
            }
            assert(m@ =~= bad_name_message(name@, pre + key@));
            assert(items@[i as int] == Json::Str(*name));
            assert(names_from(items@, pre + key@, i as int, texts(out@)) == Err::<Seq<Seq<char>>, Seq<char>>(m@));
            return Err(string_of(m.as_slice()));
        }
        if !contains_text(&out, chars.as_slice()) {
            let ghost before = out@;
            out.push(name.clone());
            assert(texts(out@) == texts(before).push(name@));
        }
        i = i + 1;
    }
    Ok(out)
}

/// What `mod.json` says. Every field is optional: a mod without one is a
/// folder with defaults.
#[derive(Debug, Clone)]
pub struct Manifest {
    pub name: String,
    pub version: String,
    pub author: String,
    pub description: String,
    /// A rule like `">=1.0.6"` over the app's version.
    pub requires_app: Option<String>,
    /// `"renewal"`, `"pre-renewal"`, or `"any"`.
    pub requires_era: Option<String>,
    /// Whether the mod is on before the player has said anything about it.
    pub default_on: bool,
    /// Mods this one does not work without.
    pub requires_mods: Vec<String>,
    /// Mods this one must be applied *after*, when both are on.
    pub after: Vec<String>,
}

/// A manifest as plain values.
pub struct ManifestView {
    pub name: Seq<char>,
    pub version: Seq<char>,
    pub author: Seq<char>,
    pub description: Seq<char>,
    pub requires_app: Option<Seq<char>>,
    pub requires_era: Option<Seq<char>>,
    pub default_on: bool,
    pub requires_mods: Seq<Seq<char>>,
    pub after: Seq<Seq<char>>,
}

pub open spec fn text_of(s: Option<String>) -> Option<Seq<char>> {
    match s {
        Some(t) => Some(t@),
        None => None,
    }
}

impl View for Manifest {
    type V = ManifestView;

    open spec fn view(&self) -> ManifestView {
        ManifestView {
            name: self.name@,
            version: self.version@,
            author: self.author@,
            description: self.description@,
            requires_app: text_of(self.requires_app),
            requires_era: text_of(self.requires_era),
            default_on: self.default_on,
            requires_mods: texts(self.requires_mods@),
            after: texts(self.after@),
        }
    }
}

impl Default for Manifest {
    /// No name, no blurb, no requirements, and on.
    fn default() -> (m: Manifest)
        ensures
            m@ == no_manifest(),
    {
        let m = Manifest {
            name: String::new(),
            version: String::new(),
            author: String::new(),
            description: String::new(),
            requires_app: None,
            requires_era: None,
            default_on: true,
            requires_mods: Vec::new(),
            after: Vec::new(),
        };
        assert(texts(m.requires_mods@) =~= Seq::<Seq<char>>::empty());
        assert(texts(m.after@) =~= Seq::<Seq<char>>::empty());
        m
    }
}

/// The manifest of a mod that has none.
pub open spec fn no_manifest() -> ManifestView {
    ManifestView {
        name: seq![],
        version: seq![],
        author: seq![],
        description: seq![],
        requires_app: None,
        requires_era: None,
        default_on: true,
        requires_mods: seq![],
        after: seq![],
    }
}

/// The text of a member, or nothing when it is not a string.
pub open spec fn text_or_empty(t: Option<Seq<char>>) -> Seq<char> {
    match t {
        Some(x) => x,
        None => seq![],
    }
}

/// The first member of `fields`, from `k`, whose name `requires` does not
/// understand.
pub open spec fn unknown_requirement(fields: Seq<(String, Json)>, k: int) -> Option<Seq<char>>
    decreases fields.len() - k,
{
    if k < 0 || k >= fields.len() {
        None
    } else if fields[k].0@ != "app"@ && fields[k].0@ != "era"@ && fields[k].0@ != "mods"@ {
        Some(fields[k].0@)
    } else {
        unknown_requirement(fields, k + 1)
    }
}

pub open spec fn not_object_message() -> Seq<char> {
    "mod.json must be an object, starting with '{'"@
}

pub open spec fn default_message(other: Seq<char>) -> Seq<char> {
    "mod.json: \"default\" is \"on\" or \"off\", not \""@ + other + "\""@
}

pub open spec fn self_requirement_message() -> Seq<char> {
    "mod.json: a mod cannot require itself"@
}

pub open spec fn requires_shape_message(req: Json) -> Seq<char> {
    "mod.json: \"requires\" must be an object, not "@ + json_text(req)
}

pub open spec fn unknown_requirement_message(k: Seq<char>) -> Seq<char> {
    "mod.json: \"requires\" has no setting called \""@ + k
        + "\" (this build understands \"app\", \"era\" and \"mods\")"@
}

/// The manifest a parsed `mod.json` describes, or the first thing wrong with
/// it, checked in this order: it must be an object; `default` is `"on"` or
/// `"off"`; `after` and `requires.mods` are lists of mod names, and a mod
/// does not require itself; its settings (`settings_problem`, what checking
/// them found, if anything); `requires` is an object naming only `app`, `era`
/// and `mods`.
pub open spec fn manifest_of(v: Json, settings_problem: Option<Seq<char>>) -> Result<ManifestView, Seq<char>> {
    if !is_object(v) {
        Err(not_object_message())
    } else if member_text(v, "default"@) matches Some(d) && d != "on"@ && d != "off"@ {
        Err(default_message(member_text(v, "default"@).unwrap()))
    } else {
        match names_under(v, "after"@, seq![]) {
            Err(e) => Err(e),
            Ok(after) => {
                let needs = match member(v, "requires"@) {
                    Some(req) => names_under(req, "mods"@, "requires."@),
                    None => Ok(seq![]),
                };
                match needs {
                    Err(e) => Err(e),
                    Ok(needs) => if needs.contains(text_or_empty(member_text(v, "name"@))) {
                        Err(self_requirement_message())
                    } else if settings_problem is Some {
                        Err(settings_problem.unwrap())
                    } else {
                        let base = ManifestView {
                            name: text_or_empty(member_text(v, "name"@)),
                            version: text_or_empty(member_text(v, "version"@)),
                            author: text_or_empty(member_text(v, "author"@)),
                            description: text_or_empty(member_text(v, "description"@)),
                            requires_app: None,
                            requires_era: None,
                            default_on: member_text(v, "default"@) != Some("off"@),
                            requires_mods: needs,
                            after: after,
                        };
                        match member(v, "requires"@) {
                            None => Ok(base),
                            Some(req) => if !is_object(req) {
                                Err(requires_shape_message(req))
                            } else if unknown_requirement(req->Object_0@, 0) is Some {
                                Err(unknown_requirement_message(unknown_requirement(req->Object_0@, 0).unwrap()))
                            } else {
                                Ok(ManifestView {
                                    requires_app: member_text(req, "app"@),
                                    requires_era: member_text(req, "era"@),
                                    ..base
                                })
                            },
                        }
                    },
                }
            },
        }
    }
}

/// The text a list item holds, when it is a string.
pub open spec fn item_text(j: Json) -> Seq<char> {
    match j {
        Json::Str(s) => s@,
        _ => seq![],
    }
}

pub open spec fn item_texts(items: Seq<Json>) -> Seq<Seq<char>> {
    items.map_values(|j: Json| item_text(j))
}

/// What reading a name list from `k` keeps: each later item is a string
/// whose name is kept, nothing else is added, and when the later names are
/// all new and distinct they are kept as they stand, in order.
proof fn lemma_names_kept(items: Seq<Json>, label: Seq<char>, k: int, out: Seq<Seq<char>>)
    requires
        0 <= k <= items.len(),
    ensures
        names_from(items, label, k, out) matches Ok(l) ==> {
            &&& forall|j: int| k <= j < items.len() ==> (#[trigger] items[j]) is Str && l.contains(item_text(items[j]))
            &&& forall|x: Seq<char>| out.contains(x) ==> l.contains(x)
            &&& forall|i: int| 0 <= i < l.len() ==> out.contains(#[trigger] l[i])
                || exists|j: int| k <= j < items.len() && item_text(#[trigger] items[j]) == l[i]
            &&& (item_texts(items).subrange(k, items.len() as int).no_duplicates()
                && (forall|j: int| k <= j < items.len() ==> !out.contains(item_text(#[trigger] items[j]))))
                ==> l == out + item_texts(items).subrange(k, items.len() as int)
        },
    decreases items.len() - k,
{
    let rest = item_texts(items).subrange(k, items.len() as int);
    if k == items.len() {
        assert(rest =~= Seq::<Seq<char>>::empty());
        assert(out + rest =~= out);
    } else {
        match items[k] {
            Json::Str(s) => {
                if is_mod_name(s@) {
                    let next = if out.contains(s@) { out } else { out.push(s@) };
                    lemma_names_kept(items, label, k + 1, next);
                    if let Ok(l) = names_from(items, label, k, out) {
                        assert(names_from(items, label, k + 1, next) == Ok::<Seq<Seq<char>>, Seq<char>>(l));
                        if !out.contains(s@) {
                            assert(next[next.len() - 1] == s@);
                        }
                        assert(next.contains(s@));
                        assert forall|x: Seq<char>| out.contains(x) implies l.contains(x) by {
                            if !out.contains(s@) {
                                let i = choose|i: int| 0 <= i < out.len() && out[i] == x;
                                assert(next[i] == x);
                            }
                        }
                        assert forall|j: int| k <= j < items.len() implies (#[trigger] items[j]) is Str
                            && l.contains(item_text(items[j])) by {
                            if j == k {
                                assert(item_text(items[j]) == s@);
                            }
                        }
                        assert forall|i: int| 0 <= i < l.len() implies out.contains(#[trigger] l[i])
                            || exists|j: int| k <= j < items.len() && item_text(#[trigger] items[j]) == l[i] by {
                            if !out.contains(l[i]) {
                                if next.contains(l[i]) {
                                    let t = choose|t: int| 0 <= t < next.len() && next[t] == l[i];
                                    assert(t == out.len());
                                    assert(item_text(items[k]) == l[i]);
                                } else {
                                    let j = choose|j: int| k + 1 <= j < items.len() && item_text(#[trigger] items[j]) == l[i];
                                    assert(item_text(items[j]) == l[i]);
                                }
                            }
                        }
                        if rest.no_duplicates() && (forall|j: int| k <= j < items.len() ==> !out.contains(item_text(#[trigger] items[j]))) {
                            assert(item_text(items[k]) == s@);
                            assert(!out.contains(s@));
                            let rest2 = item_texts(items).subrange(k + 1, items.len() as int);
                            assert(rest =~= seq![s@] + rest2);
                            assert(rest2.no_duplicates()) by {
                                assert forall|a: int, b: int| 0 <= a < b < rest2.len() implies rest2[a] != rest2[b] by {
                                    assert(rest2[a] == rest[a + 1] && rest2[b] == rest[b + 1]);
                                }
                            }
                            assert forall|j: int| k + 1 <= j < items.len() implies !next.contains(item_text(#[trigger] items[j])) by {
                                assert(!out.contains(item_text(items[j])));
                                assert(rest[j - k] == item_text(items[j]));
                                assert(rest[0] == s@);
                                if item_text(items[j]) == s@ {
                                    assert(rest[0] == rest[j - k]);
                                }
                                if next.contains(item_text(items[j])) {
                                    let t = choose|t: int| 0 <= t < next.len() && next[t] == item_text(items[j]);
                                    if t < out.len() {
                                        assert(out[t] == next[t]);
                                    }
                                }
                            }
                            assert(l == next + rest2);
                            assert(next + rest2 =~= out + rest);
                        }
                    }
                }
            },
            _ => {},
        }
    }
}

/// A manifest keeps the mods it is to be applied after: every name its
/// `after` list holds, and nothing else; and a list without repeats is kept
/// exactly, in its order. A manifest without an `after` list follows no one.
pub proof fn lemma_after_is_kept(v: Json, settings_problem: Option<Seq<char>>)
    ensures
        manifest_of(v, settings_problem) matches Ok(m) ==> {
            &&& member(v, "after"@) is None ==> m.after.len() == 0
            &&& member(v, "after"@) matches Some(Json::Array(items)) ==> {
                &&& forall|j: int| 0 <= j < items@.len() ==> (#[trigger] items@[j]) is Str
                    && m.after.contains(item_text(items@[j]))
                &&& forall|i: int| 0 <= i < m.after.len() ==>
                    exists|j: int| 0 <= j < items@.len() && item_text(#[trigger] items@[j]) == #[trigger] m.after[i]
                &&& m.after.no_duplicates()
                &&& item_texts(items@).no_duplicates() ==> m.after == item_texts(items@)
            }
        },
{
    if let Ok(m) = manifest_of(v, settings_problem) {
        assert(names_under(v, "after"@, seq![]) == Ok::<Seq<Seq<char>>, Seq<char>>(m.after));
        lemma_name_list_is_names(v, "after"@, seq![]);
        match member(v, "after"@) {
            Some(Json::Array(items)) => {
                lemma_names_kept(items@, seq![] + "after"@, 0, seq![]);
                assert(item_texts(items@).subrange(0, items@.len() as int) =~= item_texts(items@));
                assert(Seq::<Seq<char>>::empty() + item_texts(items@) =~= item_texts(items@));
            },
            _ => {},
        }
    }
}

/// A manifest keeps the mods it requires: every name its `requires.mods`
/// list holds, and nothing else; a list without repeats is kept exactly, in
/// its order; never the mod's own name; and its app and era rules are the
/// texts `requires.app` and `requires.era` give.
pub proof fn lemma_requirements_are_kept(v: Json, settings_problem: Option<Seq<char>>)
    ensures
        manifest_of(v, settings_problem) matches Ok(m) ==> {
            &&& !m.requires_mods.contains(m.name)
            &&& member(v, "requires"@) is None ==> m.requires_mods.len() == 0 && m.requires_app is None
                && m.requires_era is None
            &&& member(v, "requires"@) matches Some(req) ==> {
                &&& m.requires_app == member_text(req, "app"@)
                &&& m.requires_era == member_text(req, "era"@)
                &&& member(req, "mods"@) is None ==> m.requires_mods.len() == 0
                &&& member(req, "mods"@) matches Some(Json::Array(items)) ==> {
                    &&& forall|j: int| 0 <= j < items@.len() ==> (#[trigger] items@[j]) is Str
                        && m.requires_mods.contains(item_text(items@[j]))
                    &&& forall|i: int| 0 <= i < m.requires_mods.len() ==>
                        exists|j: int| 0 <= j < items@.len() && item_text(#[trigger] items@[j]) == #[trigger] m.requires_mods[i]
                    &&& m.requires_mods.no_duplicates()
                    &&& item_texts(items@).no_duplicates() ==> m.requires_mods == item_texts(items@)
                }
            }
        },
{
    if let Ok(m) = manifest_of(v, settings_problem) {
        match member(v, "requires"@) {
            Some(req) => {
                assert(names_under(req, "mods"@, "requires."@) == Ok::<Seq<Seq<char>>, Seq<char>>(m.requires_mods));
                lemma_name_list_is_names(req, "mods"@, "requires."@);
                match member(req, "mods"@) {
                    Some(Json::Array(items)) => {
                        lemma_names_kept(items@, "requires."@ + "mods"@, 0, seq![]);
                        assert(item_texts(items@).subrange(0, items@.len() as int) =~= item_texts(items@));
                        assert(Seq::<Seq<char>>::empty() + item_texts(items@) =~= item_texts(items@));
                    },
                    _ => {},
                }
            },
            None => {},
        }
    }
}

/// A manifest, or what is wrong with it, as plain values.
pub open spec fn checked(r: Result<Manifest, String>) -> Result<ManifestView, Seq<char>> {
    match r {
        Ok(m) => Ok(m@),
        Err(e) => Err(e@),
    }
}

fn owned(s: Option<&str>) -> (r: Option<String>)
    ensures
        text_of(r) == match s {
            Some(x) => Some(x@),
            None => None::<Seq<char>>,
        },
{
    match s {
        Some(x) => Some(x.to_owned()),
        None => None,
    }
}

fn owned_or_empty(s: Option<&str>) -> (r: String)
    ensures
        r@ == text_or_empty(match s {
            Some(x) => Some(x@),
            None => None::<Seq<char>>,
        }),
{
    match s {
        Some(x) => x.to_owned(),
        None => String::new(),
    }
}

fn first_unknown(fields: &Vec<(String, Json)>) -> (r: Option<usize>)
    ensures
        match r {
            Some(i) => i < fields@.len() && unknown_requirement(fields@, 0) == Some(fields@[i as int].0@),
            None => unknown_requirement(fields@, 0) is None,
        },
{
    let mut i: usize = 0;
    while i < fields.len()
        invariant
            i <= fields@.len(),
            unknown_requirement(fields@, 0) == unknown_requirement(fields@, i as int),
        decreases fields@.len() - i,
    {
        let k = chars_of(fields[i].0.as_str());
        if !same(k.as_slice(), chars_of("app").as_slice()) && !same(k.as_slice(), chars_of("era").as_slice())
            && !same(k.as_slice(), chars_of("mods").as_slice()) {
            return Some(i);
        }
        i = i + 1;
    }
    None
}

/// Check one mod's parsed manifest.
///
/// `settings_problem` is what checking its `settings` member found wrong, if
/// anything: those options carry floating-point bounds and are checked
/// where they are parsed.
pub fn manifest_from(v: &Json, settings_problem: Option<String>) -> (r: Result<Manifest, String>)
    ensures
        checked(r) == manifest_of(*v, text_of(settings_problem)),
{
    proof {
        reveal_strlit("on");
        reveal_strlit("off");
        assert("on"@.len() != "off"@.len());
    }
    if !v.is_object() {
        return Err(string_of(chars_of("mod.json must be an object, starting with '{'").as_slice()));
    }
    let default_on = match v.str_of("default") {
        None => true,
        Some(d) => {
            let dc = chars_of(d);
            if same(dc.as_slice(), chars_of("on").as_slice()) {
                true
            } else if same(dc.as_slice(), chars_of("off").as_slice()) {
                false
            } else {
                let m = text3("mod.json: \"default\" is \"on\" or \"off\", not \"", d, "\"");
                assert(m@ =~= default_message(d@));
                return Err(string_of(m.as_slice()));
            }
        },
    };
    let name = owned_or_empty(v.str_of("name"));
    let after = match name_list(v, "after", None) {
        Ok(a) => a,
        Err(e) => return Err(e),
    };
    let requires_mods = match v.get("requires") {
        Some(req) => {
            let needs = match name_list(req, "mods", Some("requires.")) {
                Ok(n) => n,
                Err(e) => return Err(e),
            };
            if contains_text(&needs, chars_of(name.as_str()).as_slice()) {
                return Err(string_of(chars_of("mod.json: a mod cannot require itself").as_slice()));
            }
            needs
        },
        None => {
            let empty: Vec<String> = Vec::new();
            assert(texts(empty@) =~= Seq::<Seq<char>>::empty());
            empty
        },
    };
    match settings_problem {
        Some(e) => return Err(e),
        None => {},
    }
    let mut m = Manifest {
        name,
        version: owned_or_empty(v.str_of("version")),
        author: owned_or_empty(v.str_of("author")),
        description: owned_or_empty(v.str_of("description")),
        requires_app: None,
        requires_era: None,
        default_on,
        requires_mods,
        after,
    };
    match v.get("requires") {
        None => {},
        Some(req) => {
            let fields = match req {
                Json::Object(fields) => fields,
                _ => {
                    let mut t = chars_of("mod.json: \"requires\" must be an object, not ");
                    push_all(&mut t, chars_of(json_string(req).as_str()).as_slice());
                    return Err(string_of(t.as_slice()));
                },
            };
            match first_unknown(fields) {
                Some(i) => {
                    let t = text3(
                        "mod.json: \"requires\" has no setting called \"",
                        fields[i].0.as_str(),
                        "\" (this build understands \"app\", \"era\" and \"mods\")",
                    );
                    assert(t@ =~= unknown_requirement_message(fields@[i as int].0@));
                    return Err(string_of(t.as_slice()));
                },
                None => {},
            }
            m.requires_app = owned(req.str_of("app"));
            m.requires_era = owned(req.str_of("era"));
        },
    }
    Ok(m)
}

/// `s` with every `_` written as `-`.
pub open spec fn dashed(s: Seq<char>) -> Seq<char> {
    s.map_values(|c: char| if c == '_' { '-' } else { c })
}

/// The era names a mod may ask for that name a server era.
pub open spec fn names_pre_renewal(w: Seq<char>) -> bool {
    w == "pre-renewal"@ || w == "prerenewal"@ || w == "pre-re"@
}

pub open spec fn server_era(prerenewal: bool) -> Seq<char> {
    if prerenewal {
        "pre-renewal"@
    } else {
        "renewal"@
    }
}

/// What an era rule, lowercased and with `_` read as `-`, says of a server:
/// `any` (or nothing) fits every server, `renewal` and the spellings of
/// pre-renewal fit their own era and are refused by the other, and anything
/// else is not an era.
pub open spec fn era_fit(want: Seq<char>, prerenewal: bool) -> Result<(), Seq<char>> {
    if want == "any"@ || want.len() == 0 {
        Ok(())
    } else if want == "renewal"@ && !prerenewal {
        Ok(())
    } else if names_pre_renewal(want) && prerenewal {
        Ok(())
    } else if want == "renewal"@ || names_pre_renewal(want) {
        Err("is for "@ + want + ", and this server is "@ + server_era(prerenewal))
    } else {
        Err("mod.json: \""@ + want + "\" is not an era -- use \"renewal\", \"pre-renewal\" or \"any\""@)
    }
}

/// An era verdict as plain values.
pub open spec fn era_verdict_of(r: Result<(), String>) -> Result<(), Seq<char>> {
    match r {
        Ok(()) => Ok(()),
        Err(e) => Err(e@),
    }
}

/// What an era rule already lowercased and dashed says of this server.
pub fn era_fits(want: &str, prerenewal: bool) -> (r: Result<(), String>)
    ensures
        era_verdict_of(r) == era_fit(want@, prerenewal),
{
    let w = chars_of(want);
    let any = same(w.as_slice(), chars_of("any").as_slice());
    let renewal = same(w.as_slice(), chars_of("renewal").as_slice());
    let pre = same(w.as_slice(), chars_of("pre-renewal").as_slice())
        || same(w.as_slice(), chars_of("prerenewal").as_slice())
        || same(w.as_slice(), chars_of("pre-re").as_slice());
    if any || w.len() == 0 {
        Ok(())
    } else if renewal && !prerenewal {
        Ok(())
    } else if pre && prerenewal {
        Ok(())
    } else if renewal || pre {
        let now = if prerenewal { "pre-renewal" } else { "renewal" };
        let m = text3("is for ", want, ", and this server is ");
        let mut m = m;
        push_all(&mut m, chars_of(now).as_slice());
        assert(m@ =~= "is for "@ + want@ + ", and this server is "@ + server_era(prerenewal));
        Err(string_of(m.as_slice()))
    } else {
        let m = text3("mod.json: \"", want, "\" is not an era -- use \"renewal\", \"pre-renewal\" or \"any\"");
        Err(string_of(m.as_slice()))
    }
}

/// Whether a mod's era rule fits this server: the rule is trimmed,
/// lowercased (`str::to_lowercase`) and read with `_` as `-`, then judged by
/// `era_fits`.
pub fn era_requirement_met(rule: &str, prerenewal: bool) -> (r: Result<(), String>)
    ensures
        era_verdict_of(r) == era_fit(dashed(crate::text::lowercase(trim(rule@))), prerenewal),
{
    let trimmed = string_of(trim_of(chars_of(rule).as_slice()).as_slice());
    let lower = crate::text::to_lowercase(trimmed.as_str());
    let l = chars_of(lower.as_str());
    let mut d: Vec<char> = Vec::new();
    let mut i: usize = 0;
    while i < l.len()
        invariant
            i <= l@.len(),
            d@ == dashed(l@.take(i as int)),
        decreases l@.len() - i,
    {
        let c = l[i];
        d.push(if c == '_' { '-' } else { c });
        i = i + 1;
        assert(dashed(l@.take(i as int)) == dashed(l@.take(i - 1)).push(if l@[i - 1] == '_' { '-' } else { l@[i - 1] }));
    }
    assert(l@.take(l@.len() as int) == l@);
    let want = string_of(d.as_slice());
    era_fits(want.as_str(), prerenewal)
}

} // verus!

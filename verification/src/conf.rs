//! The conf layer: the server settings a mod may set, the conf files it may
//! supply whole, and how every enabled mod's copy of such a file becomes the
//! one file the server imports.

use vstd::prelude::*;
use crate::groups::{
    aliases_from, dedupe_from, lemma_quiet_copy_whole, stock_aliases, stock_held, AliasScan, Grants, Held, Scan,
};
use crate::report::texts;
use crate::tables::{merge_chars, merge_out_of_order, merged};
use crate::tables::line_at;
use crate::text::{
    chars_of, find_from, first_at_or_after, is_prefix, is_suffix, lemma_first_at_or_after,
    lemma_line_end, line_end, line_end_of, push_all, same, slice_of, starts_with, ends_with,
    string_of, trim, trim_of,
};
use crate::packetver::{first_word, word_length};

verus! {

pub open spec fn mismatch_note(owner: Seq<char>, file: Seq<char>, first: Seq<char>) -> Seq<char> {
    owner + "'s conf/"@ + file + " is not the same kind of table as "@ + first
        + "'s (compare their Header: Type), so it was left out"@
}

/// The aliases learned from each `atcommands.yml` in turn, from `k` on.
pub open spec fn aliases_of(bodies: Seq<(Seq<char>, Seq<char>)>, k: int, aliases: Seq<(Seq<char>, Seq<char>)>) -> Seq<
    (Seq<char>, Seq<char>),
>
    decreases bodies.len() - k,
{
    if k < 0 || k >= bodies.len() {
        aliases
    } else {
        aliases_of(
            bodies,
            k + 1,
            aliases_from(bodies[k].1, 0, AliasScan { current: None, in_aliases: false, aindent: 0 }, aliases),
        )
    }
}

pub open spec fn start_scan() -> Scan {
    Scan { group: seq![], in_commands: false, cindent: 0 }
}

/// Combining the copies from `k` on into `merged` (whose copy came first,
/// and the file so far): a copy that is not the same kind of table as what
/// is merged is left out and said so; for `groups.yml`, each copy first
/// loses the grants already held; then it is merged in after what is there.
/// The result is the file, when any copy was usable, the notes, and whether
/// a merge was asked of a copy whose footer sits above its entries.
pub open spec fn combine_from(
    file: Seq<char>,
    entries: Seq<(Seq<char>, Seq<char>)>,
    k: int,
    so_far: Option<(Seq<char>, Seq<char>)>,
    notes: Seq<Seq<char>>,
    held: Seq<Held>,
    aliases: Seq<(Seq<char>, Seq<char>)>,
) -> (Option<Seq<char>>, Seq<Seq<char>>, bool)
    decreases entries.len() - k,
{
    if k < 0 || k >= entries.len() {
        (
            match so_far {
                Some(m) => Some(m.1),
                None => None,
            },
            notes,
            false,
        )
    } else {
        let owner = entries[k].0;
        let body = entries[k].1;
        let out_of_order_first = match so_far {
            Some(m) => merge_out_of_order(m.1, body),
            None => false,
        };
        if out_of_order_first {
            (None, notes, true)
        } else if so_far matches Some(m) && merged(m.1, body) is None {
            combine_from(file, entries, k + 1, so_far, notes.push(mismatch_note(owner, file, so_far.unwrap().0)), held, aliases)
        } else {
            let d = dedupe_from(body, 0, start_scan(), held, aliases, owner);
            let body2 = if file == "groups.yml"@ { d.0 } else { body };
            let notes2 = if file == "groups.yml"@ { notes + d.1 } else { notes };
            let held2 = if file == "groups.yml"@ { d.2 } else { held };
            match so_far {
                None => combine_from(file, entries, k + 1, Some((owner, body2)), notes2, held2, aliases),
                Some(m) => if merge_out_of_order(m.1, body2) {
                    (None, notes2, true)
                } else {
                    combine_from(
                        file,
                        entries,
                        k + 1,
                        Some((
                            m.0,
                            match merged(m.1, body2) {
                                Some(j) => j,
                                None => m.1,
                            },
                        )),
                        notes2,
                        held2,
                        aliases,
                    )
                },
            }
        }
    }
}

/// Every enabled mod's copy of one whole conf file, made into the one file
/// the server imports, and the notes on what was left out.
pub open spec fn combined(
    file: Seq<char>,
    entries: Seq<(Seq<char>, Seq<char>)>,
    atcommands: Seq<(Seq<char>, Seq<char>)>,
) -> (Option<Seq<char>>, Seq<Seq<char>>, bool) {
    combine_from(file, entries, 0, None, seq![], stock_held(), aliases_of(atcommands, 0, stock_aliases()))
}

pub open spec fn pairs(v: Seq<(String, String)>) -> Seq<(Seq<char>, Seq<char>)> {
    v.map_values(|p: (String, String)| (p.0@, p.1@))
}

/// One mod's copy on its own is written exactly as it shipped, whenever
/// nothing had to be left out of it (`groups.yml` included).
pub proof fn lemma_single_copy_as_shipped(
    file: Seq<char>,
    owner: Seq<char>,
    body: Seq<char>,
    atcommands: Seq<(Seq<char>, Seq<char>)>,
)
    requires
        combined(file, seq![(owner, body)], atcommands).1.len() == 0,
    ensures
        combined(file, seq![(owner, body)], atcommands).0 == Some(body),
        !combined(file, seq![(owner, body)], atcommands).2,
{
    let entries = seq![(owner, body)];
    let aliases = aliases_of(atcommands, 0, stock_aliases());
    let d = dedupe_from(body, 0, start_scan(), stock_held(), aliases, owner);
    let body2 = if file == "groups.yml"@ { d.0 } else { body };
    let notes2 = if file == "groups.yml"@ { Seq::<Seq<char>>::empty() + d.1 } else { Seq::<Seq<char>>::empty() };
    let held2 = if file == "groups.yml"@ { d.2 } else { stock_held() };
    assert(entries[0] == (owner, body));
    assert(combined(file, entries, atcommands) == combine_from(file, entries, 1, Some((owner, body2)), notes2, held2, aliases));
    assert(combine_from(file, entries, 1, Some((owner, body2)), notes2, held2, aliases) == (Some(body2), notes2, false));
    if file == "groups.yml"@ {
        assert(Seq::<Seq<char>>::empty() + d.1 == d.1);
        lemma_quiet_copy_whole(body, 0, start_scan(), stock_held(), aliases, owner);
        assert(body.skip(0) == body);
    }
}

/// Every enabled mod's copy of one whole conf file, made into the one file
/// the server imports.
///
/// Joined the way `db/` tables are, by `merge_tables`. `groups.yml` gets one
/// step more first: a command a group already holds -- from rAthena's own
/// `groups.yml` or an earlier copy -- is taken out of the later copy, since
/// rAthena would otherwise discard that copy's whole group entry. `atcommands` is every mod's `atcommands.yml`, for the aliases a
/// grant may be spelled with.
///
/// Returns the file, when any copy was usable, and one sentence for each
/// thing that was left out.
pub fn combine_whole_conf(
    file: &str,
    entries: &[(String, String)],
    atcommands: &[(String, String)],
) -> (r: (Option<String>, Vec<String>))
    requires
        !combined(file@, pairs(entries@), pairs(atcommands@)).2,
    ensures
        match r.0 {
            Some(b) => combined(file@, pairs(entries@), pairs(atcommands@)).0 == Some(b@),
            None => combined(file@, pairs(entries@), pairs(atcommands@)).0 is None,
        },
        texts(r.1@) == combined(file@, pairs(entries@), pairs(atcommands@)).1,
{
    let mut grants = Grants::stock();
    let mut a: usize = 0;
    while a < atcommands.len()
        invariant
            a <= atcommands@.len(),
            grants.held() == stock_held(),
            aliases_of(pairs(atcommands@), 0, stock_aliases()) == aliases_of(pairs(atcommands@), a as int, grants.aliases()),
        decreases atcommands@.len() - a,
    {
        grants.learn_aliases(atcommands[a].1.as_str());
        a = a + 1;
    }
    let groups = same(chars_of(file).as_slice(), chars_of("groups.yml").as_slice());
    let mut notes: Vec<String> = Vec::new();
    let mut first: Vec<char> = Vec::new();
    let mut existing: Vec<char> = Vec::new();
    let mut any = false;
    let ghost want = combined(file@, pairs(entries@), pairs(atcommands@));
    let ghost al = grants.aliases();
    assert(texts(notes@) =~= Seq::<Seq<char>>::empty());
    let mut k: usize = 0;
    while k < entries.len()
        invariant
            k <= entries@.len(),
            groups == (file@ == "groups.yml"@),
            al == grants.aliases(),
            !want.2,
            want == combine_from(
                file@,
                pairs(entries@),
                k as int,
                if any { Some((first@, existing@)) } else { None },
                texts(notes@),
                grants.held(),
                al,
            ),
        decreases entries@.len() - k,
    {
        let owner = chars_of(entries[k].0.as_str());
        let body = chars_of(entries[k].1.as_str());
        if any {
            if merge_chars(existing.as_slice(), body.as_slice()).is_none() {
                let mut note = owner;
                push_all(&mut note, chars_of("'s conf/").as_slice());
                push_all(&mut note, chars_of(file).as_slice());
                push_all(&mut note, chars_of(" is not the same kind of table as ").as_slice());
                push_all(&mut note, first.as_slice());
                push_all(&mut note, chars_of("'s (compare their Header: Type), so it was left out").as_slice());
                let ghost before = texts(notes@);
                notes.push(string_of(note.as_slice()));
                assert(texts(notes@) == before.push(note@));
                k = k + 1;
                continue;
            }
        }
        let body2 = if groups {
            let (b, dropped) = grants.dedupe(entries[k].1.as_str(), entries[k].0.as_str());
            let ghost before = texts(notes@);
            let mut i: usize = 0;
            while i < dropped.len()
                invariant
                    i <= dropped@.len(),
                    texts(notes@) == before + texts(dropped@).take(i as int),
                decreases dropped@.len() - i,
            {
                let ghost prior = texts(notes@);
                let note = dropped[i].clone();
                notes.push(note);
                assert(texts(notes@) == prior.push(note@));
                i = i + 1;
                assert(texts(dropped@).take(i as int) == texts(dropped@).take(i - 1).push(dropped@[i - 1]@));
            }
            assert(texts(dropped@).take(dropped@.len() as int) == texts(dropped@));
            chars_of(b.as_str())
        } else {
            body
        };
        if any {
            match merge_chars(existing.as_slice(), body2.as_slice()) {
                Some(j) => {
                    existing = j;
                },
                None => {},
            }
        } else {
            first = chars_of(entries[k].0.as_str());
            existing = body2;
            any = true;
        }
        k = k + 1;
    }
    let body = if any { Some(string_of(existing.as_slice())) } else { None };
    (body, notes)
}

/// The settings a mod may set, each in the conf file it belongs in: where a
/// new character starts, with what, and what characters may be named.
pub open spec fn allowed(file: Seq<char>, key: Seq<char>) -> bool {
    file == "char_conf.txt"@ && (key == "start_point"@ || key == "start_point_pre"@ || key == "start_zeny"@
        || key == "start_items"@ || key == "start_status_points"@ || key == "char_name_letters"@
        || key == "char_name_option"@)
}

fn allowed_of(file: &[char], key: &[char]) -> (r: bool)
    ensures
        r == allowed(file@, key@),
{
    same(file, chars_of("char_conf.txt").as_slice()) && (same(key, chars_of("start_point").as_slice())
        || same(key, chars_of("start_point_pre").as_slice()) || same(key, chars_of("start_zeny").as_slice())
        || same(key, chars_of("start_items").as_slice()) || same(key, chars_of("start_status_points").as_slice())
        || same(key, chars_of("char_name_letters").as_slice()) || same(key, chars_of("char_name_option").as_slice()))
}

/// The conf files a mod may supply whole: documents, not lists of settings.
pub open spec fn whole_file(file: Seq<char>) -> bool {
    file == "groups.yml"@ || file == "atcommands.yml"@
}

pub fn is_whole_file(file: &str) -> (r: bool)
    ensures
        r == whole_file(file@),
{
    let f = chars_of(file);
    same(f.as_slice(), chars_of("groups.yml").as_slice()) || same(f.as_slice(), chars_of("atcommands.yml").as_slice())
}

/// A line of a conf file that says nothing: blank, or a `//` or `#` comment.
pub open spec fn quiet_line(t: Seq<char>) -> bool {
    t.len() == 0 || is_prefix(seq!['/', '/'], t) || is_prefix(seq!['#'], t)
}

/// What one (trimmed) line of a conf file asks to set: the key before its
/// first `:` and the value after it, both trimmed.
pub open spec fn setting_of(t: Seq<char>) -> Option<(Seq<char>, Seq<char>)> {
    match first_at_or_after(t, seq![':'], 0) {
        Some(k) => Some((trim(t.take(k)), trim(t.skip(k + 1)))),
        None => None,
    }
}

/// Reading a conf file's lines from `at`: the settings the allowlist covers,
/// in order, and the keys it does not.
pub open spec fn settings_from(file: Seq<char>, body: Seq<char>, at: int) -> (Seq<(Seq<char>, Seq<char>)>, Seq<Seq<char>>)
    decreases body.len() - at,
{
    if at < 0 || at >= body.len() {
        (seq![], seq![])
    } else {
        proof {
            lemma_line_end(body, at);
        }
        let t = trim(line_at(body, at));
        let rest = settings_from(file, body, line_end(body, at));
        if quiet_line(t) {
            rest
        } else {
            match setting_of(t) {
                None => rest,
                Some(kv) => if allowed(file, kv.0) {
                    (seq![kv] + rest.0, rest.1)
                } else {
                    (rest.0, seq![kv.0] + rest.1)
                },
            }
        }
    }
}

fn quiet_of(t: &[char]) -> (r: bool)
    ensures
        r == quiet_line(t@),
{
    let slashes: Vec<char> = vec!['/', '/'];
    let hash: Vec<char> = vec!['#'];
    assert(slashes@ == seq!['/', '/']);
    assert(hash@ == seq!['#']);
    t.len() == 0 || starts_with(t, slashes.as_slice()) || starts_with(t, hash.as_slice())
}

fn setting_of_line(t: &[char]) -> (r: Option<(Vec<char>, Vec<char>)>)
    ensures
        match r {
            Some((k, v)) => setting_of(t@) == Some((k@, v@)),
            None => setting_of(t@) is None,
        },
{
    let colon: Vec<char> = vec![':'];
    assert(colon@ == seq![':']);
    proof {
        lemma_first_at_or_after(t@, seq![':'], 0);
    }
    match find_from(t, colon.as_slice(), 0) {
        Some(k) => {
            let n = t.len();
            assert(k < n);
            let before = slice_of(t, 0, k);
            let after = slice_of(t, k + 1, t.len());
            assert(before@ == t@.take(k as int));
            assert(after@ == t@.skip(k + 1));
            Some((trim_of(before.as_slice()), trim_of(after.as_slice())))
        },
        None => None,
    }
}

pub open spec fn entries_text(v: Seq<(String, String)>) -> Seq<(Seq<char>, Seq<char>)> {
    v.map_values(|p: (String, String)| (p.0@, p.1@))
}

/// A mod's copy of a conf file, read line by line: the settings the
/// allowlist covers, and the keys it asked for that mods may not set (for
/// the log to name, rather than dropping them in silence).
pub fn conf_settings(file: &str, body: &str) -> (r: (Vec<(String, String)>, Vec<String>))
    ensures
        entries_text(r.0@) == settings_from(file@, body@, 0).0,
        texts(r.1@) == settings_from(file@, body@, 0).1,
{
    let f = chars_of(file);
    let b = chars_of(body);
    conf_settings_from(f.as_slice(), b.as_slice(), 0)
}

fn conf_settings_from(file: &[char], body: &[char], at: usize) -> (r: (Vec<(String, String)>, Vec<String>))
    requires
        at <= body@.len(),
    ensures
        entries_text(r.0@) == settings_from(file@, body@, at as int).0,
        texts(r.1@) == settings_from(file@, body@, at as int).1,
    decreases body@.len() - at,
{
    if at >= body.len() {
        let a: Vec<(String, String)> = Vec::new();
        let n: Vec<String> = Vec::new();
        assert(entries_text(a@) =~= Seq::<(Seq<char>, Seq<char>)>::empty());
        assert(texts(n@) =~= Seq::<Seq<char>>::empty());
        return (a, n);
    }
    proof {
        lemma_line_end(body@, at as int);
    }
    let e = line_end_of(body, at);
    let line = slice_of(body, at, e);
    let t = trim_of(line.as_slice());
    let (rest_a, rest_r) = conf_settings_from(file, body, e);
    if quiet_of(t.as_slice()) {
        return (rest_a, rest_r);
    }
    match setting_of_line(t.as_slice()) {
        None => (rest_a, rest_r),
        Some((k, v)) => {
            if allowed_of(file, k.as_slice()) {
                let mut a: Vec<(String, String)> = Vec::new();
                a.push((string_of(k.as_slice()), string_of(v.as_slice())));
                let mut i: usize = 0;
                let ghost head = entries_text(a@);
                assert(head == seq![(k@, v@)]);
                while i < rest_a.len()
                    invariant
                        i <= rest_a@.len(),
                        entries_text(a@) == head + entries_text(rest_a@).take(i as int),
                    decreases rest_a@.len() - i,
                {
                    let ghost before = entries_text(a@);
                    a.push((rest_a[i].0.clone(), rest_a[i].1.clone()));
                    assert(entries_text(a@) == before.push(entries_text(rest_a@)[i as int]));
                    i = i + 1;
                    assert(entries_text(rest_a@).take(i as int) == entries_text(rest_a@).take(i - 1).push(entries_text(rest_a@)[i - 1]));
                }
                assert(entries_text(rest_a@).take(rest_a@.len() as int) == entries_text(rest_a@));
                (a, rest_r)
            } else {
                let mut n: Vec<String> = Vec::new();
                n.push(string_of(k.as_slice()));
                let ghost head = texts(n@);
                assert(head == seq![k@]);
                let mut i: usize = 0;
                while i < rest_r.len()
                    invariant
                        i <= rest_r@.len(),
                        texts(n@) == head + texts(rest_r@).take(i as int),
                    decreases rest_r@.len() - i,
                {
                    let ghost before = texts(n@);
                    let x = rest_r[i].clone();
                    n.push(x);
                    assert(texts(n@) == before.push(x@));
                    i = i + 1;
                    assert(texts(rest_r@).take(i as int) == texts(rest_r@).take(i - 1).push(texts(rest_r@)[i - 1]));
                }
                assert(texts(rest_r@).take(rest_r@.len() as int) == texts(rest_r@));
                (rest_a, n)
            }
        },
    }
}

/// What a mod's own setting says about a fragment under `when/<key>/`.
#[derive(Clone, Copy, PartialEq, Eq, Debug, Structural)]
pub enum Switch {
    /// The setting is `true`: the fragment is part of the mod.
    On,
    /// The setting is `false`.
    Off,
    /// The setting is not a yes/no one.
    NotBoolean,
    /// The mod declares no such setting.
    Undeclared,
}

/// The first of `settings`, from `k` on, named `key`, as a switch.
pub open spec fn switch_from(settings: Seq<(Seq<char>, Seq<char>)>, key: Seq<char>, k: int) -> Switch
    decreases settings.len() - k,
{
    if k < 0 || k >= settings.len() {
        Switch::Undeclared
    } else if settings[k].0 == key {
        if settings[k].1 == "true"@ {
            Switch::On
        } else if settings[k].1 == "false"@ {
            Switch::Off
        } else {
            Switch::NotBoolean
        }
    } else {
        switch_from(settings, key, k + 1)
    }
}

/// Whether a mod's effective setting `key` switches a `when/<key>/`
/// fragment on.
pub fn conditional_setting(settings: &[(String, String)], key: &str) -> (r: Switch)
    ensures
        r == switch_from(entries_text(settings@), key@, 0),
{
    let kc = chars_of(key);
    let mut k: usize = 0;
    while k < settings.len()
        invariant
            k <= settings@.len(),
            kc@ == key@,
            switch_from(entries_text(settings@), key@, 0) == switch_from(entries_text(settings@), key@, k as int),
        decreases settings@.len() - k,
    {
        if same(chars_of(settings[k].0.as_str()).as_slice(), kc.as_slice()) {
            let v = chars_of(settings[k].1.as_str());
            if same(v.as_slice(), chars_of("true").as_slice()) {
                return Switch::On;
            } else if same(v.as_slice(), chars_of("false").as_slice()) {
                return Switch::Off;
            } else {
                return Switch::NotBoolean;
            }
        }
        k = k + 1;
    }
    Switch::Undeclared
}

/// Whether `s` holds `p` anywhere.
pub open spec fn holds_text(s: Seq<char>, p: Seq<char>) -> bool {
    first_at_or_after(s, p, 0) is Some
}

/// A path a mod may name in `stock-npc.txt`: a script under `npc/` that
/// cannot climb out with `..` and uses no backslash.
pub open spec fn stock_script(t: Seq<char>) -> bool {
    is_prefix("npc/"@, t) && !holds_text(t, seq!['.', '.']) && !holds_text(t, seq!['\\']) && is_suffix(".txt"@, t)
}

/// Reading `stock-npc.txt` from `at` with the scripts already named in
/// `out`: the scripts named afterwards (each once), and the lines refused.
pub open spec fn stock_from(body: Seq<char>, at: int, out: Seq<Seq<char>>) -> (Seq<Seq<char>>, Seq<Seq<char>>)
    decreases body.len() - at,
{
    if at < 0 || at >= body.len() {
        (out, seq![])
    } else {
        proof {
            lemma_line_end(body, at);
        }
        let t = trim(line_at(body, at));
        if quiet_line(t) {
            stock_from(body, line_end(body, at), out)
        } else if !stock_script(t) {
            let rest = stock_from(body, line_end(body, at), out);
            (rest.0, seq![t] + rest.1)
        } else if out.contains(t) {
            stock_from(body, line_end(body, at), out)
        } else {
            stock_from(body, line_end(body, at), out.push(t))
        }
    }
}

fn holds_text_of(s: &[char], p: &[char]) -> (r: bool)
    ensures
        r == holds_text(s@, p@),
{
    find_from(s, p, 0).is_some()
}

/// Scripts rAthena already ships that a mod's `stock-npc.txt` asks to
/// switch on, added to `out` each once; the lines that are not a script
/// path under `npc/` are returned for the log to name.
pub fn stock_npc(body: &str, out: &mut Vec<String>) -> (refused: Vec<String>)
    ensures
        texts(final(out)@) == stock_from(body@, 0, texts(old(out)@)).0,
        texts(refused@) == stock_from(body@, 0, texts(old(out)@)).1,
{
    let b = chars_of(body);
    let mut refused: Vec<String> = Vec::new();
    let mut at: usize = 0;
    let ghost want = stock_from(body@, 0, texts(old(out)@));
    let dots: Vec<char> = vec!['.', '.'];
    let slash: Vec<char> = vec!['\\'];
    assert(dots@ == seq!['.', '.']);
    assert(slash@ == seq!['\\']);
    assert(texts(refused@) =~= Seq::<Seq<char>>::empty());
    while at < b.len()
        invariant
            at <= b@.len(),
            b@ == body@,
            dots@ == seq!['.', '.'],
            slash@ == seq!['\\'],
            want == stock_from(body@, 0, texts(old(out)@)),
            want.0 == stock_from(body@, at as int, texts(out@)).0,
            want.1 == texts(refused@) + stock_from(body@, at as int, texts(out@)).1,
        decreases b@.len() - at,
    {
        proof {
            lemma_line_end(b@, at as int);
        }
        let e = line_end_of(b.as_slice(), at);
        let line = slice_of(b.as_slice(), at, e);
        let t = trim_of(line.as_slice());
        if quiet_of(t.as_slice()) {
        } else if !(starts_with(t.as_slice(), chars_of("npc/").as_slice()) && !holds_text_of(t.as_slice(), dots.as_slice())
            && !holds_text_of(t.as_slice(), slash.as_slice()) && ends_with(t.as_slice(), chars_of(".txt").as_slice())) {
            let ghost before = texts(refused@);
            refused.push(string_of(t.as_slice()));
            assert(texts(refused@) == before.push(t@));
        } else if crate::manifest::contains_text(out, t.as_slice()) {
        } else {
            let ghost before = texts(out@);
            out.push(string_of(t.as_slice()));
            assert(texts(out@) == before.push(t@));
        }
        at = e;
    }
    refused
}

/// Reading a `map_index.txt` from `at`: the map each line names (its first
/// word), skipping blank lines and `//` comments.
pub open spec fn indexed_from(body: Seq<char>, at: int) -> Seq<Seq<char>>
    decreases body.len() - at,
{
    if at < 0 || at >= body.len() {
        seq![]
    } else {
        proof {
            lemma_line_end(body, at);
        }
        let t = trim(line_at(body, at));
        if t.len() == 0 || is_prefix(seq!['/', '/'], t) {
            indexed_from(body, line_end(body, at))
        } else {
            crate::packetver::version_list(first_word(t)) + indexed_from(body, line_end(body, at))
        }
    }
}

/// The maps of `maps` the index does not name, in order.
pub open spec fn unindexed(maps: Seq<Seq<char>>, named: Seq<Seq<char>>) -> Seq<Seq<char>>
    decreases maps.len(),
{
    if maps.len() == 0 {
        seq![]
    } else if named.contains(maps.last()) {
        unindexed(maps.drop_last(), named)
    } else {
        unindexed(maps.drop_last(), named).push(maps.last())
    }
}

/// The names of `maps`, one per line.
pub open spec fn name_lines(maps: Seq<Seq<char>>) -> Seq<char>
    decreases maps.len(),
{
    if maps.len() == 0 {
        seq![]
    } else {
        name_lines(maps.drop_last()) + maps.last() + seq!['\n']
    }
}

pub open spec fn index_note() -> Seq<char> {
    "\n// Added by the mod system, from the .gat files the mods ship.\n// No index given, so rAthena continues numbering after db/map_index.txt.\n"@
}

/// The map index with the custom maps it does not name yet appended, each
/// on a line of its own with no index so rAthena numbers it; `None` when
/// every map is already named, so a mod that ships its own index is left
/// alone.
pub open spec fn extended_index(existing: Seq<char>, maps: Seq<Seq<char>>) -> Option<Seq<char>> {
    let missing = unindexed(maps, indexed_from(existing, 0));
    if missing.len() == 0 {
        None
    } else {
        let sep = if existing.len() > 0 && existing.last() != '\n' { seq!['\n'] } else { seq![] };
        Some(existing + sep + index_note() + name_lines(missing))
    }
}

fn indexed_of(body: &[char]) -> (out: Vec<String>)
    ensures
        texts(out@) == indexed_from(body@, 0),
{
    let mut out: Vec<String> = Vec::new();
    let mut at: usize = 0;
    let slashes: Vec<char> = vec!['/', '/'];
    assert(slashes@ == seq!['/', '/']);
    assert(texts(out@) =~= Seq::<Seq<char>>::empty());
    while at < body.len()
        invariant
            at <= body@.len(),
            slashes@ == seq!['/', '/'],
            indexed_from(body@, 0) == texts(out@) + indexed_from(body@, at as int),
        decreases body@.len() - at,
    {
        proof {
            lemma_line_end(body@, at as int);
        }
        let e = line_end_of(body, at);
        let line = slice_of(body, at, e);
        let t = trim_of(line.as_slice());
        if !(t.len() == 0 || starts_with(t.as_slice(), slashes.as_slice())) {
            let mut w: usize = 0;
            while w < t.len() && !crate::text::is_whitespace(t[w])
                invariant
                    w <= t@.len(),
                    word_length(t@, 0) == word_length(t@, w as int),
                decreases t@.len() - w,
            {
                w = w + 1;
            }
            proof {
                crate::text::lemma_trim_start_first(crate::text::trim_end(line@));
            }
            assert(crate::text::trim_start(t@) == t@);
            let ghost before = texts(out@);
            out.push(string_of(slice_of(t.as_slice(), 0, w).as_slice()));
            assert(texts(out@) == before.push(t@.take(w as int)));
        }
        at = e;
    }
    out
}

/// The map index to write for the custom maps, given the one already there
/// (empty when there is none); `None` when it names them all already.
pub fn map_index_body(existing: &str, maps: &[String]) -> (r: Option<String>)
    ensures
        match r {
            Some(b) => extended_index(existing@, texts(maps@)) == Some(b@),
            None => extended_index(existing@, texts(maps@)) is None,
        },
{
    let ex = chars_of(existing);
    let named = indexed_of(ex.as_slice());
    let mut missing: Vec<String> = Vec::new();
    let mut i: usize = 0;
    assert(texts(missing@) =~= Seq::<Seq<char>>::empty());
    while i < maps.len()
        invariant
            i <= maps@.len(),
            texts(missing@) == unindexed(texts(maps@).take(i as int), texts(named@)),
        decreases maps@.len() - i,
    {
        let ghost t = texts(maps@).take(i + 1);
        assert(t.drop_last() == texts(maps@).take(i as int));
        if !crate::manifest::contains_text(&named, chars_of(maps[i].as_str()).as_slice()) {
            let ghost before = texts(missing@);
            let m = maps[i].clone();
            missing.push(m);
            assert(texts(missing@) == before.push(m@));
        }
        i = i + 1;
    }
    assert(texts(maps@).take(maps@.len() as int) == texts(maps@));
    if missing.len() == 0 {
        return None;
    }
    let mut body = ex;
    if body.len() > 0 && body[body.len() - 1] != '\n' {
        body.push('\n');
    }
    push_all(&mut body, chars_of("\n// Added by the mod system, from the .gat files the mods ship.\n// No index given, so rAthena continues numbering after db/map_index.txt.\n").as_slice());
    let ghost head = body@;
    let mut j: usize = 0;
    while j < missing.len()
        invariant
            j <= missing@.len(),
            body@ == head + name_lines(texts(missing@).take(j as int)),
        decreases missing@.len() - j,
    {
        push_all(&mut body, chars_of(missing[j].as_str()).as_slice());
        body.push('\n');
        j = j + 1;
        assert(texts(missing@).take(j as int).drop_last() == texts(missing@).take(j - 1));
    }
    assert(texts(missing@).take(missing@.len() as int) == texts(missing@));
    Some(string_of(body.as_slice()))
}

} // verus!

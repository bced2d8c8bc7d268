//! Command grants in `groups.yml`: which atcommands each player group holds,
//! so that a copy applied later does not repeat one. rAthena treats a
//! repeated grant -- or taking away a command the group does not have -- as
//! an error that throws away the whole group entry, every other command in
//! it included, so such a line is taken out before the server reads it, and
//! named.

use vstd::prelude::*;
use crate::report::texts;
use crate::tables::line_at;
use crate::text::{
    chars_of, find_from, first_at_or_after, is_prefix, lemma_first_at_or_after, lemma_line_end,
    line_end, line_end_of, push_all, same, slice_of, starts_with, string_of, trim, trim_of,
};

verus! {

/// A command one group holds, and who gave it: (group, command, giver).
pub type Held = (Seq<char>, Seq<char>, Seq<char>);

/// How many spaces a line starts with.
pub open spec fn spaces_from(s: Seq<char>, k: int) -> int
    decreases s.len() - k,
{
    if k < 0 || k >= s.len() || s[k] != ' ' {
        k
    } else {
        spaces_from(s, k + 1)
    }
}

pub open spec fn indent(line: Seq<char>) -> int {
    spaces_from(line, 0)
}

/// The command an alias stands for, from the aliases learned so far (each
/// (alias, command)), or the name itself when it is no alias.
pub open spec fn canonical_from(aliases: Seq<(Seq<char>, Seq<char>)>, n: Seq<char>, k: int) -> Seq<char>
    decreases aliases.len() - k,
{
    if k < 0 || k >= aliases.len() {
        n
    } else if aliases[k].0 == n {
        aliases[k].1
    } else {
        canonical_from(aliases, n, k + 1)
    }
}

/// Who first gave `group` the command `c`, among the grants from `k` on.
pub open spec fn holder_from(held: Seq<Held>, group: Seq<char>, c: Seq<char>, k: int) -> Option<Seq<char>>
    decreases held.len() - k,
{
    if k < 0 || k >= held.len() {
        None
    } else if held[k].0 == group && held[k].1 == c {
        Some(held[k].2)
    } else {
        holder_from(held, group, c, k + 1)
    }
}

/// The grants without any of `c` to `group`.
pub open spec fn taken_away(held: Seq<Held>, group: Seq<char>, c: Seq<char>) -> Seq<Held>
    decreases held.len(),
{
    if held.len() == 0 {
        seq![]
    } else if held.last().0 == group && held.last().1 == c {
        taken_away(held.drop_last(), group, c)
    } else {
        taken_away(held.drop_last(), group, c).push(held.last())
    }
}

/// A command as the log names it: `c`, or `c (as "n")` when it was spelled
/// with an alias.
pub open spec fn shown(c: Seq<char>, n: Seq<char>) -> Seq<char> {
    if n == c {
        c
    } else {
        c + " (as \""@ + n + "\")"@
    }
}

pub open spec fn repeat_note(owner: Seq<char>, group: Seq<char>, c: Seq<char>, n: Seq<char>, holder: Seq<char>) -> Seq<char> {
    owner + " gives group "@ + group + " @"@ + shown(c, n) + ", which "@ + holder
        + " already gives it -- left out, because rAthena throws away the rest of a group entry that repeats a command"@
}

pub open spec fn takeaway_note(owner: Seq<char>, group: Seq<char>, c: Seq<char>, n: Seq<char>) -> Seq<char> {
    owner + " takes @"@ + shown(c, n) + " away from group "@ + group
        + ", which does not have it -- left out, because rAthena throws away the rest of a group entry that takes away a command it does not have"@
}

pub open spec fn id_marker() -> Seq<char> {
    seq!['-', ' ', 'I', 'd', ':']
}

/// Where a reading of `groups.yml` stands: the group whose entry it is in,
/// and whether (and at what indentation) it is inside that entry's
/// `Commands:`.
pub struct Scan {
    pub group: Seq<char>,
    pub in_commands: bool,
    pub cindent: int,
}

/// The first `:` in `t`.
pub open spec fn colon(t: Seq<char>) -> Option<int> {
    first_at_or_after(t, seq![':'], 0)
}

/// One line of a `groups.yml` copy, read with the grants so far: whether it
/// is kept, what is said about it, where the reading stands after it, and
/// the grants after it.
pub open spec fn grant_step(
    line: Seq<char>,
    s: Scan,
    held: Seq<Held>,
    aliases: Seq<(Seq<char>, Seq<char>)>,
    owner: Seq<char>,
) -> (bool, Option<Seq<char>>, Scan, Seq<Held>) {
    let t = trim(line);
    let ind = indent(line);
    let s1 = if s.in_commands && t.len() > 0 && ind <= s.cindent {
        Scan { in_commands: false, ..s }
    } else {
        s
    };
    if is_prefix(id_marker(), t) {
        (true, None, Scan { group: trim(t.skip(5)), ..s1 }, held)
    } else if t == "Commands:"@ {
        (true, None, Scan { in_commands: true, cindent: ind, ..s1 }, held)
    } else if s1.in_commands && t.len() > 0 && colon(t) is Some {
        let k = colon(t).unwrap();
        let n = trim(t.take(k));
        let v = trim(t.skip(k + 1));
        let c = canonical_from(aliases, n, 0);
        if v == "true"@ {
            match holder_from(held, s1.group, c, 0) {
                Some(h) => (false, Some(repeat_note(owner, s1.group, c, n, h)), s1, held),
                None => (true, None, s1, held.push((s1.group, c, owner))),
            }
        } else if v == "false"@ {
            match holder_from(held, s1.group, c, 0) {
                Some(_) => (true, None, s1, taken_away(held, s1.group, c)),
                None => (false, Some(takeaway_note(owner, s1.group, c, n)), s1, held),
            }
        } else {
            (true, None, s1, held)
        }
    } else {
        (true, None, s1, held)
    }
}

/// Reading a copy's lines from `at`: the lines kept, the notes made, and the
/// grants after them.
pub open spec fn dedupe_from(
    body: Seq<char>,
    at: int,
    s: Scan,
    held: Seq<Held>,
    aliases: Seq<(Seq<char>, Seq<char>)>,
    owner: Seq<char>,
) -> (Seq<char>, Seq<Seq<char>>, Seq<Held>)
    decreases body.len() - at,
{
    if at < 0 || at >= body.len() {
        (seq![], seq![], held)
    } else {
        proof {
            lemma_line_end(body, at);
        }
        let r = grant_step(line_at(body, at), s, held, aliases, owner);
        let rest = dedupe_from(body, line_end(body, at), r.2, r.3, aliases, owner);
        (
            if r.0 { line_at(body, at) + rest.0 } else { rest.0 },
            match r.1 {
                Some(n) => seq![n] + rest.1,
                None => rest.1,
            },
            rest.2,
        )
    }
}

pub open spec fn command_marker() -> Seq<char> {
    seq!['-', ' ', 'C', 'o', 'm', 'm', 'a', 'n', 'd', ':']
}

/// Where a reading of `atcommands.yml` stands: the command whose entry it is
/// in, and whether (and at what indentation) it is inside its `Aliases:`.
pub struct AliasScan {
    pub current: Option<Seq<char>>,
    pub in_aliases: bool,
    pub aindent: int,
}

/// One line of an `atcommands.yml`: where the reading stands after it, and
/// the aliases after it.
pub open spec fn alias_step(line: Seq<char>, s: AliasScan, aliases: Seq<(Seq<char>, Seq<char>)>) -> (
    AliasScan,
    Seq<(Seq<char>, Seq<char>)>,
) {
    let t = trim(line);
    let ind = indent(line);
    let s1 = if s.in_aliases && t.len() > 0 && ind <= s.aindent {
        AliasScan { in_aliases: false, ..s }
    } else {
        s
    };
    if is_prefix(command_marker(), t) {
        (AliasScan { current: Some(trim(t.skip(10))), in_aliases: false, ..s1 }, aliases)
    } else if t == "Aliases:"@ {
        (AliasScan { in_aliases: true, aindent: ind, ..s1 }, aliases)
    } else if s1.in_aliases && is_prefix(seq!['-', ' '], t) && s1.current is Some {
        (s1, aliases.push((trim(t.skip(2)), s1.current.unwrap())))
    } else {
        (s1, aliases)
    }
}

pub open spec fn aliases_from(body: Seq<char>, at: int, s: AliasScan, aliases: Seq<(Seq<char>, Seq<char>)>) -> Seq<
    (Seq<char>, Seq<char>),
>
    decreases body.len() - at,
{
    if at < 0 || at >= body.len() {
        aliases
    } else {
        proof {
            lemma_line_end(body, at);
        }
        let r = alias_step(line_at(body, at), s, aliases);
        aliases_from(body, line_end(body, at), r.0, r.1)
    }
}

/// Each group holds each command at most once.
pub open spec fn unique_grants(held: Seq<Held>) -> bool {
    forall|i: int, j: int| 0 <= i < j < held.len() ==> !((#[trigger] held[i]).0 == (#[trigger] held[j]).0 && held[i].1 == held[j].1)
}

proof fn lemma_holder_none(held: Seq<Held>, g: Seq<char>, c: Seq<char>, k: int)
    requires
        0 <= k,
        holder_from(held, g, c, k) is None,
    ensures
        forall|j: int| k <= j < held.len() ==> !((#[trigger] held[j]).0 == g && held[j].1 == c),
    decreases held.len() - k,
{
    if k < held.len() {
        lemma_holder_none(held, g, c, k + 1);
    }
}

proof fn lemma_taken_away(held: Seq<Held>, g: Seq<char>, c: Seq<char>)
    requires
        unique_grants(held),
    ensures
        unique_grants(taken_away(held, g, c)),
        forall|x: Held| #[trigger] taken_away(held, g, c).contains(x) ==> held.contains(x),
    decreases held.len(),
{
    if held.len() > 0 {
        let rest = held.drop_last();
        assert(unique_grants(rest)) by {
            assert forall|i: int, j: int| 0 <= i < j < rest.len() implies !((#[trigger] rest[i]).0 == (#[trigger] rest[j]).0 && rest[i].1 == rest[j].1) by {
                assert(rest[i] == held[i] && rest[j] == held[j]);
            }
        }
        lemma_taken_away(rest, g, c);
        let t = taken_away(rest, g, c);
        assert forall|x: Held| #[trigger] taken_away(held, g, c).contains(x) implies held.contains(x) by {
            if t.contains(x) {
                let k = choose|k: int| 0 <= k < rest.len() && rest[k] == x;
                assert(held[k] == x);
            } else {
                assert(x == held.last());
                assert(held[held.len() - 1] == x);
            }
        }
        if !(held.last().0 == g && held.last().1 == c) {
            let t2 = t.push(held.last());
            assert forall|i: int, j: int| 0 <= i < j < t2.len() implies !((#[trigger] t2[i]).0 == (#[trigger] t2[j]).0 && t2[i].1 == t2[j].1) by {
                if j == t.len() {
                    assert(t.contains(t2[i]));
                    let k = choose|k: int| 0 <= k < rest.len() && rest[k] == t2[i];
                    assert(held[k] == t2[i]);
                    assert(held[held.len() - 1] == t2[j]);
                } else {
                    assert(t2[i] == t[i] && t2[j] == t[j]);
                }
            }
            assert forall|x: Held| #[trigger] t2.contains(x) implies (t.contains(x) || x == held.last()) by {
                let k = choose|k: int| 0 <= k < t2.len() && t2[k] == x;
                if k < t.len() {
                    assert(t[k] == x);
                }
            }
        }
    }
}

proof fn lemma_step_unique(
    line: Seq<char>,
    s: Scan,
    held: Seq<Held>,
    aliases: Seq<(Seq<char>, Seq<char>)>,
    owner: Seq<char>,
)
    requires
        unique_grants(held),
    ensures
        unique_grants(grant_step(line, s, held, aliases, owner).3),
{
    let t = trim(line);
    let ind = indent(line);
    let s1 = if s.in_commands && t.len() > 0 && ind <= s.cindent {
        Scan { in_commands: false, ..s }
    } else {
        s
    };
    if !is_prefix(id_marker(), t) && t != "Commands:"@ && s1.in_commands && t.len() > 0 && colon(t) is Some {
        let k = colon(t).unwrap();
        let n = trim(t.take(k));
        let v = trim(t.skip(k + 1));
        let c = canonical_from(aliases, n, 0);
        if v == "true"@ {
            if holder_from(held, s1.group, c, 0) is None {
                lemma_holder_none(held, s1.group, c, 0);
                let h2 = held.push((s1.group, c, owner));
                assert forall|i: int, j: int| 0 <= i < j < h2.len() implies !((#[trigger] h2[i]).0 == (#[trigger] h2[j]).0 && h2[i].1 == h2[j].1) by {
                    assert(h2[i] == held[i]);
                    if j < held.len() {
                        assert(h2[j] == held[j]);
                    }
                }
            }
        } else if v == "false"@ {
            lemma_taken_away(held, s1.group, c);
        }
    }
}

proof fn lemma_dedupe_unique(
    body: Seq<char>,
    at: int,
    s: Scan,
    held: Seq<Held>,
    aliases: Seq<(Seq<char>, Seq<char>)>,
    owner: Seq<char>,
)
    requires
        unique_grants(held),
    ensures
        unique_grants(dedupe_from(body, at, s, held, aliases, owner).2),
    decreases body.len() - at,
{
    if 0 <= at < body.len() {
        lemma_line_end(body, at);
        let r = grant_step(line_at(body, at), s, held, aliases, owner);
        lemma_step_unique(line_at(body, at), s, held, aliases, owner);
        lemma_dedupe_unique(body, line_end(body, at), r.2, r.3, aliases, owner);
    }
}

/// A line is left out exactly when something is said about it.
proof fn lemma_step_kept(
    line: Seq<char>,
    s: Scan,
    held: Seq<Held>,
    aliases: Seq<(Seq<char>, Seq<char>)>,
    owner: Seq<char>,
)
    ensures
        grant_step(line, s, held, aliases, owner).0 == (grant_step(line, s, held, aliases, owner).1 is None),
{
}

/// A copy about which nothing is said comes through whole.
pub(crate) proof fn lemma_quiet_copy_whole(
    body: Seq<char>,
    at: int,
    s: Scan,
    held: Seq<Held>,
    aliases: Seq<(Seq<char>, Seq<char>)>,
    owner: Seq<char>,
)
    requires
        0 <= at <= body.len(),
        dedupe_from(body, at, s, held, aliases, owner).1.len() == 0,
    ensures
        dedupe_from(body, at, s, held, aliases, owner).0 == body.skip(at),
    decreases body.len() - at,
{
    if at < body.len() {
        lemma_line_end(body, at);
        let r = grant_step(line_at(body, at), s, held, aliases, owner);
        lemma_step_kept(line_at(body, at), s, held, aliases, owner);
        let e = line_end(body, at);
        let rest = dedupe_from(body, e, r.2, r.3, aliases, owner);
        if r.1 is Some {
            assert(dedupe_from(body, at, s, held, aliases, owner).1.len() > 0);
        }
        lemma_quiet_copy_whole(body, e, r.2, r.3, aliases, owner);
        assert(body.skip(at) =~= line_at(body, at) + body.skip(e));
    } else {
        assert(body.skip(at) =~= Seq::<char>::empty());
    }
}

/// No group ever holds a command twice: when the grants so far hold each
/// command of each group once, they still do after another mod's copy of
/// `groups.yml` is read, whatever it asks for.
pub proof fn lemma_grants_stay_unique(
    body: Seq<char>,
    held: Seq<Held>,
    aliases: Seq<(Seq<char>, Seq<char>)>,
    owner: Seq<char>,
)
    requires
        unique_grants(held),
    ensures
        unique_grants(dedupe_from(body, 0, Scan { group: seq![], in_commands: false, cindent: 0 }, held, aliases, owner).2),
{
    lemma_dedupe_unique(body, 0, Scan { group: seq![], in_commands: false, cindent: 0 }, held, aliases, owner);
}

/// What rAthena's own `groups.yml` already gives before any mod: group 0
/// holds `@resurrect`.
pub open spec fn stock_held() -> Seq<Held> {
    seq![("0"@, "resurrect"@, "rAthena"@)]
}

/// The aliases rAthena's own commands go by, each (alias, command): `@warp`
/// is `@mapmove`, and `@accountinfo` is `@accinfo`.
pub open spec fn stock_aliases() -> Seq<(Seq<char>, Seq<char>)> {
    seq![("warp"@, "mapmove"@), ("accountinfo"@, "accinfo"@)]
}

/// The grants every player group holds, and the aliases commands go by.
pub struct Grants {
    held: Vec<(String, String, String)>,
    aliases: Vec<(String, String)>,
}

pub open spec fn held_view(v: Seq<(String, String, String)>) -> Seq<Held> {
    v.map_values(|e: (String, String, String)| (e.0@, e.1@, e.2@))
}

pub open spec fn alias_view(v: Seq<(String, String)>) -> Seq<(Seq<char>, Seq<char>)> {
    v.map_values(|e: (String, String)| (e.0@, e.1@))
}

impl Grants {
    pub closed spec fn held(&self) -> Seq<Held> {
        held_view(self.held@)
    }

    pub closed spec fn aliases(&self) -> Seq<(Seq<char>, Seq<char>)> {
        alias_view(self.aliases@)
    }

    /// The grants to start from: what rAthena's own `groups.yml` gives, and
    /// the aliases rAthena's own commands go by.
    pub fn stock() -> (g: Grants)
        ensures
            g.held() == stock_held(),
            g.aliases() == stock_aliases(),
            unique_grants(g.held()),
    {
        let mut held: Vec<(String, String, String)> = Vec::new();
        held.push((
            string_of(chars_of("0").as_slice()),
            string_of(chars_of("resurrect").as_slice()),
            string_of(chars_of("rAthena").as_slice()),
        ));
        let mut aliases: Vec<(String, String)> = Vec::new();
        aliases.push((string_of(chars_of("warp").as_slice()), string_of(chars_of("mapmove").as_slice())));
        aliases.push((string_of(chars_of("accountinfo").as_slice()), string_of(chars_of("accinfo").as_slice())));
        let g = Grants { held, aliases };
        assert(held_view(g.held@) =~= stock_held());
        assert(alias_view(g.aliases@) =~= stock_aliases());
        g
    }
}

fn indent_of(line: &[char]) -> (r: usize)
    ensures
        r as int == indent(line@),
        r <= line@.len(),
{
    let mut k: usize = 0;
    while k < line.len() && line[k] == ' '
        invariant
            k <= line@.len(),
            indent(line@) == spaces_from(line@, k as int),
        decreases line@.len() - k,
    {
        k = k + 1;
    }
    k
}

fn canonical_of(aliases: &Vec<(String, String)>, n: &[char]) -> (r: Vec<char>)
    ensures
        r@ == canonical_from(alias_view(aliases@), n@, 0),
{
    let mut k: usize = 0;
    while k < aliases.len()
        invariant
            k <= aliases@.len(),
            canonical_from(alias_view(aliases@), n@, 0) == canonical_from(alias_view(aliases@), n@, k as int),
        decreases aliases@.len() - k,
    {
        if same(chars_of(aliases[k].0.as_str()).as_slice(), n) {
            return chars_of(aliases[k].1.as_str());
        }
        k = k + 1;
    }
    slice_of(n, 0, n.len())
}

fn holder_of(held: &Vec<(String, String, String)>, group: &[char], c: &[char]) -> (r: Option<String>)
    ensures
        match r {
            Some(h) => holder_from(held_view(held@), group@, c@, 0) == Some(h@),
            None => holder_from(held_view(held@), group@, c@, 0) is None,
        },
{
    let mut k: usize = 0;
    while k < held.len()
        invariant
            k <= held@.len(),
            holder_from(held_view(held@), group@, c@, 0) == holder_from(held_view(held@), group@, c@, k as int),
        decreases held@.len() - k,
    {
        if same(chars_of(held[k].0.as_str()).as_slice(), group) && same(chars_of(held[k].1.as_str()).as_slice(), c) {
            return Some(held[k].2.clone());
        }
        k = k + 1;
    }
    None
}

fn take_away_of(held: &Vec<(String, String, String)>, group: &[char], c: &[char]) -> (r: Vec<(String, String, String)>)
    ensures
        held_view(r@) == taken_away(held_view(held@), group@, c@),
{
    let mut out: Vec<(String, String, String)> = Vec::new();
    let mut k: usize = 0;
    assert(held_view(out@) =~= Seq::<Held>::empty());
    while k < held.len()
        invariant
            k <= held@.len(),
            held_view(out@) == taken_away(held_view(held@).take(k as int), group@, c@),
        decreases held@.len() - k,
    {
        let ghost t = held_view(held@).take(k + 1);
        assert(t.drop_last() == held_view(held@).take(k as int));
        if same(chars_of(held[k].0.as_str()).as_slice(), group) && same(chars_of(held[k].1.as_str()).as_slice(), c) {
        } else {
            let ghost before = held_view(out@);
            out.push((held[k].0.clone(), held[k].1.clone(), held[k].2.clone()));
            assert(held_view(out@) == before.push(t.last()));
        }
        k = k + 1;
    }
    assert(held_view(held@).take(held@.len() as int) == held_view(held@));
    out
}

fn shown_of(c: &[char], n: &[char]) -> (r: Vec<char>)
    ensures
        r@ == shown(c@, n@),
{
    if same(n, c) {
        slice_of(c, 0, c.len())
    } else {
        let mut r = slice_of(c, 0, c.len());
        push_all(&mut r, chars_of(" (as \"").as_slice());
        push_all(&mut r, n);
        push_all(&mut r, chars_of("\")").as_slice());
        r
    }
}

/// The scan as plain values.
pub open spec fn scan_of(group: Seq<char>, in_commands: bool, cindent: usize) -> Scan {
    Scan { group, in_commands, cindent: cindent as int }
}

fn grant_step_of(
    line: &[char],
    group: Vec<char>,
    in_commands: bool,
    cindent: usize,
    held: &mut Vec<(String, String, String)>,
    aliases: &Vec<(String, String)>,
    owner: &[char],
) -> (r: (bool, Option<Vec<char>>, Vec<char>, bool, usize))
    ensures
        ({
            let want = grant_step(line@, scan_of(group@, in_commands, cindent), held_view(old(held)@), alias_view(aliases@), owner@);
            &&& r.0 == want.0
            &&& (match r.1 {
                Some(n) => want.1 == Some(n@),
                None => want.1 is None,
            })
            &&& scan_of(r.2@, r.3, r.4) == want.2
            &&& held_view(final(held)@) == want.3
        }),
{
    let t = trim_of(line);
    let ind = indent_of(line);
    let inside = if in_commands && t.len() > 0 && ind <= cindent { false } else { in_commands };
    let idm: Vec<char> = vec!['-', ' ', 'I', 'd', ':'];
    assert(idm@ == id_marker());
    if starts_with(t.as_slice(), idm.as_slice()) {
        let rest = slice_of(t.as_slice(), 5, t.len());
        assert(rest@ == t@.skip(5));
        return (true, None, trim_of(rest.as_slice()), inside, cindent);
    }
    if same(t.as_slice(), chars_of("Commands:").as_slice()) {
        return (true, None, group, true, ind);
    }
    if !(inside && t.len() > 0) {
        return (true, None, group, inside, cindent);
    }
    let colon_mark: Vec<char> = vec![':'];
    assert(colon_mark@ == seq![':']);
    proof {
        lemma_first_at_or_after(t@, seq![':'], 0);
    }
    let k = match find_from(t.as_slice(), colon_mark.as_slice(), 0) {
        Some(k) => k,
        None => return (true, None, group, inside, cindent),
    };
    let before_colon = slice_of(t.as_slice(), 0, k);
    assert(before_colon@ == t@.take(k as int));
    let tn = t.len();
    assert(k < tn);
    let after_colon = slice_of(t.as_slice(), k + 1, t.len());
    assert(after_colon@ == t@.skip(k + 1));
    let n = trim_of(before_colon.as_slice());
    let v = trim_of(after_colon.as_slice());
    let c = canonical_of(aliases, n.as_slice());
    if same(v.as_slice(), chars_of("true").as_slice()) {
        match holder_of(held, group.as_slice(), c.as_slice()) {
            Some(h) => {
                let mut note = chars_of(owner_str(owner).as_str());
                push_all(&mut note, chars_of(" gives group ").as_slice());
                push_all(&mut note, group.as_slice());
                push_all(&mut note, chars_of(" @").as_slice());
                push_all(&mut note, shown_of(c.as_slice(), n.as_slice()).as_slice());
                push_all(&mut note, chars_of(", which ").as_slice());
                push_all(&mut note, chars_of(h.as_str()).as_slice());
                push_all(
                    &mut note,
                    chars_of(" already gives it -- left out, because rAthena throws away the rest of a group entry that repeats a command").as_slice(),
                );
                (false, Some(note), group, inside, cindent)
            },
            None => {
                let ghost before = held_view(held@);
                held.push((string_of(group.as_slice()), string_of(c.as_slice()), string_of(owner)));
                assert(held_view(held@) == before.push((group@, c@, owner@)));
                (true, None, group, inside, cindent)
            },
        }
    } else if same(v.as_slice(), chars_of("false").as_slice()) {
        match holder_of(held, group.as_slice(), c.as_slice()) {
            Some(_) => {
                let kept = take_away_of(held, group.as_slice(), c.as_slice());
                *held = kept;
                (true, None, group, inside, cindent)
            },
            None => {
                let mut note = slice_of(owner, 0, owner.len());
                push_all(&mut note, chars_of(" takes @").as_slice());
                push_all(&mut note, shown_of(c.as_slice(), n.as_slice()).as_slice());
                push_all(&mut note, chars_of(" away from group ").as_slice());
                push_all(&mut note, group.as_slice());
                push_all(
                    &mut note,
                    chars_of(", which does not have it -- left out, because rAthena throws away the rest of a group entry that takes away a command it does not have").as_slice(),
                );
                (false, Some(note), group, inside, cindent)
            },
        }
    } else {
        (true, None, group, inside, cindent)
    }
}

fn owner_str(owner: &[char]) -> (s: String)
    ensures
        s@ == owner@,
{
    string_of(owner)
}

impl Grants {
    /// Learn the aliases an `atcommands.yml` gives: under each `- Command:`
    /// entry, every item of its `Aliases:` list.
    pub fn learn_aliases(&mut self, body: &str)
        ensures
            final(self).held() == old(self).held(),
            final(self).aliases() == aliases_from(body@, 0, AliasScan { current: None, in_aliases: false, aindent: 0 }, old(self).aliases()),
    {
        let b = chars_of(body);
        let mut current: Option<Vec<char>> = None;
        let mut in_aliases = false;
        let mut aindent: usize = 0;
        let mut at: usize = 0;
        let cm: Vec<char> = vec!['-', ' ', 'C', 'o', 'm', 'm', 'a', 'n', 'd', ':'];
        let dash: Vec<char> = vec!['-', ' '];
        assert(cm@ == command_marker());
        assert(dash@ == seq!['-', ' ']);
        while at < b.len()
            invariant
                at <= b@.len(),
                b@ == body@,
                cm@ == command_marker(),
                dash@ == seq!['-', ' '],
                self.held() == old(self).held(),
                aliases_from(body@, 0, AliasScan { current: None, in_aliases: false, aindent: 0 }, old(self).aliases())
                    == aliases_from(body@, at as int, AliasScan {
                        current: match current { Some(c) => Some(c@), None => None },
                        in_aliases,
                        aindent: aindent as int,
                    }, self.aliases()),
            decreases b@.len() - at,
        {
            proof {
                lemma_line_end(b@, at as int);
            }
            let e = line_end_of(b.as_slice(), at);
            let line = slice_of(b.as_slice(), at, e);
            let t = trim_of(line.as_slice());
            let ind = indent_of(line.as_slice());
            if in_aliases && t.len() > 0 && ind <= aindent {
                in_aliases = false;
            }
            if starts_with(t.as_slice(), cm.as_slice()) {
                let rest = slice_of(t.as_slice(), 10, t.len());
                assert(rest@ == t@.skip(10));
                current = Some(trim_of(rest.as_slice()));
                in_aliases = false;
            } else if same(t.as_slice(), chars_of("Aliases:").as_slice()) {
                in_aliases = true;
                aindent = ind;
            } else if in_aliases && starts_with(t.as_slice(), dash.as_slice()) && current.is_some() {
                let rest = slice_of(t.as_slice(), 2, t.len());
                assert(rest@ == t@.skip(2));
                let alias = trim_of(rest.as_slice());
                let cmd = match &current {
                    Some(c) => string_of(c.as_slice()),
                    None => string_of(Vec::<char>::new().as_slice()),
                };
                let ghost before = alias_view(self.aliases@);
                self.aliases.push((string_of(alias.as_slice()), cmd));
                assert(alias_view(self.aliases@) == before.push((alias@, cmd@)));
            }
            at = e;
        }
    }

    /// A copy of `groups.yml` with every grant a group already holds (and
    /// every taking-away of one it does not) left out, and a sentence for
    /// each; the grants it does make are held from then on.
    pub fn dedupe(&mut self, body: &str, owner: &str) -> (r: (String, Vec<String>))
        ensures
            final(self).aliases() == old(self).aliases(),
            ({
                let want = dedupe_from(body@, 0, Scan { group: seq![], in_commands: false, cindent: 0 }, old(self).held(), old(self).aliases(), owner@);
                &&& r.0@ == want.0
                &&& texts(r.1@) == want.1
                &&& final(self).held() == want.2
            }),
            unique_grants(old(self).held()) ==> unique_grants(final(self).held()),
    {
        proof {
            if unique_grants(self.held()) {
                lemma_grants_stay_unique(body@, self.held(), self.aliases(), owner@);
            }
        }
        let b = chars_of(body);
        let o = chars_of(owner);
        let mut group: Vec<char> = Vec::new();
        let mut in_commands = false;
        let mut cindent: usize = 0;
        let mut kept: Vec<char> = Vec::new();
        let mut notes: Vec<String> = Vec::new();
        let mut at: usize = 0;
        let ghost want = dedupe_from(body@, 0, Scan { group: seq![], in_commands: false, cindent: 0 }, old(self).held(), old(self).aliases(), owner@);
        assert(texts(notes@) =~= Seq::<Seq<char>>::empty());
        assert(scan_of(group@, in_commands, cindent) == Scan { group: seq![], in_commands: false, cindent: 0 });
        while at < b.len()
            invariant
                at <= b@.len(),
                b@ == body@,
                o@ == owner@,
                self.aliases() == old(self).aliases(),
                want == dedupe_from(body@, 0, Scan { group: seq![], in_commands: false, cindent: 0 }, old(self).held(), old(self).aliases(), owner@),
                ({
                    let rest = dedupe_from(body@, at as int, scan_of(group@, in_commands, cindent), self.held(), self.aliases(), owner@);
                    &&& want.0 == kept@ + rest.0
                    &&& want.1 == texts(notes@) + rest.1
                    &&& want.2 == rest.2
                }),
            decreases b@.len() - at,
        {
            proof {
                lemma_line_end(b@, at as int);
            }
            let e = line_end_of(b.as_slice(), at);
            let line = slice_of(b.as_slice(), at, e);
            let ghost s0 = scan_of(group@, in_commands, cindent);
            let ghost h0 = self.held();
            let (keep, note, g2, i2, c2) = grant_step_of(line.as_slice(), group, in_commands, cindent, &mut self.held, &self.aliases, o.as_slice());
            let ghost step = grant_step(line@, s0, h0, self.aliases(), owner@);
            let ghost kept_before = kept@;
            if keep {
                push_all(&mut kept, line.as_slice());
            }
            let ghost notes_before = texts(notes@);
            match note {
                Some(n) => {
                    notes.push(string_of(n.as_slice()));
                    assert(texts(notes@) == notes_before.push(n@));
                },
                None => {},
            }
            group = g2;
            in_commands = i2;
            cindent = c2;
            at = e;
        }
        (string_of(kept.as_slice()), notes)
    }
}

} // verus!

//! Which mods are applied, and why not when one is not.
//!
//! The single place that decides what is applied: a mod's manifest is
//! checked against this build, the player's explicit choices win over the
//! manifest's default, and a mod that needs another which is not on is
//! refused, with a reason the player can read.

use vstd::prelude::*;
use crate::manifest::{
    contains_text, dashed, era_fit, era_requirement_met, Manifest, ManifestView, no_manifest,
};
use crate::report::texts;
use crate::text::{chars_of, lowercase, push_all, same, string_of, trim, trim_of, joined_with, lemma_line_end, line_end, line_end_of, slice_of, starts_with};
use crate::order::{compare, has_entry, insert_sorted, strictly_sorted, lex_lt, lemma_lex_irreflexive, lemma_lex_asymmetric, lemma_lex_total, lemma_lex_transitive};
use crate::report::{flattened, one_line_of};
use crate::tables::line_at;
use crate::versions::{app_requirement_met, app_verdict};
use crate::precedence::{
    apply_order, declares, forms_loop, must_follow, dep_graph, has_loop, lemma_same_declarations, lists_each_once, order_view,
    respects_after, same_declarations, sorted_names, walked, lemma_same_search_input,
};

verus! {

/// Whether a mod is applied, and why not when it is not.
#[derive(Clone, PartialEq, Debug)]
pub enum Status {
    On,
    /// Switched off by the player, or by its manifest's default.
    Off,
    /// Installed, and wanted something this build cannot give it.
    Refused(String),
}

/// A status as plain values: its kind (on, off, refused) and the reason.
impl Status {
    /// Whether this is `On`.
    pub fn is_on(&self) -> (r: bool)
        ensures
            r == (*self is On),
    {
        match self {
            Status::On => true,
            _ => false,
        }
    }
}

pub open spec fn status_view(s: Status) -> (int, Seq<char>) {
    match s {
        Status::On => (0, seq![]),
        Status::Off => (1, seq![]),
        Status::Refused(r) => (2, r@),
    }
}

pub open spec fn refused_for(r: Seq<char>) -> (int, Seq<char>) {
    (2, r)
}

pub struct Installed {
    pub name: String,
    /// Where the folder is: under the state's mods for one the player
    /// installed, under the runtime's mods for one the app ships.
    pub dir: String,
    pub status: Status,
    pub manifest: Manifest,
    /// Shipped with the app rather than installed by the player.
    pub bundled: bool,
}

/// What keeps a mod with this manifest from this build: its app rule, then
/// its era rule (read trimmed, lowercased and with `_` as `-`).
pub open spec fn problem_of(m: ManifestView, app: Option<Seq<char>>, prerenewal: bool) -> Option<Seq<char>> {
    match m.requires_app {
        Some(rule) if app_verdict(rule, app) is Err => Some(app_verdict(rule, app)->Err_0),
        _ => match m.requires_era {
            Some(rule) => match era_fit(dashed(lowercase(trim(rule))), prerenewal) {
                Err(e) => Some(e),
                Ok(_) => None,
            },
            None => None,
        },
    }
}

/// A mod's status from what keeps it out, if anything, and the player's two
/// lists of choices: a refusal outranks being switched off, an explicit
/// choice wins in either direction, and only when the player has said
/// nothing does the manifest's default apply.
pub open spec fn status_of(
    problem: Option<Seq<char>>,
    name: Seq<char>,
    disabled: Seq<Seq<char>>,
    enabled: Seq<Seq<char>>,
    default_on: bool,
) -> (int, Seq<char>) {
    match problem {
        Some(reason) => refused_for(reason),
        None => if disabled.contains(name) {
            (1, seq![])
        } else if enabled.contains(name) {
            (0, seq![])
        } else if !default_on {
            (1, seq![])
        } else {
            (0, seq![])
        },
    }
}

/// What reading a mod's folder found: its manifest (`Ok(None)` when it has
/// none) or what is wrong with it.
pub open spec fn read_view(r: Result<Option<Manifest>, String>) -> Result<Option<ManifestView>, Seq<char>> {
    match r {
        Ok(Some(m)) => Ok(Some(m@)),
        Ok(None) => Ok(None),
        Err(e) => Err(e@),
    }
}

/// The manifest a mod is taken to have: its own, or none.
pub open spec fn judged_manifest(r: Result<Option<ManifestView>, Seq<char>>) -> ManifestView {
    match r {
        Ok(Some(m)) => m,
        _ => no_manifest(),
    }
}

/// What keeps a mod out: an unreadable manifest, or what its manifest asks.
pub open spec fn judged_problem(r: Result<Option<ManifestView>, Seq<char>>, app: Option<Seq<char>>, prerenewal: bool) -> Option<Seq<char>> {
    match r {
        Ok(Some(m)) => problem_of(m, app, prerenewal),
        Ok(None) => None,
        Err(e) => Some(e),
    }
}

/// The app rule a manifest names is met by this build (or it names none).
pub open spec fn app_rule_met(m: ManifestView, app: Option<Seq<char>>) -> bool {
    match m.requires_app {
        Some(rule) => app_verdict(rule, app) is Ok,
        None => true,
    }
}

/// The era rule a manifest names is met by this server (or it names none).
pub open spec fn era_rule_met(m: ManifestView, prerenewal: bool) -> bool {
    match m.requires_era {
        Some(rule) => era_fit(dashed(lowercase(trim(rule))), prerenewal) is Ok,
        None => true,
    }
}

/// A mod with a readable manifest is refused exactly when its app rule or
/// its era rule is not met, each rule judged on its own: an unmet app rule
/// gives the app's reason, and otherwise an unmet era rule gives the era's
/// reason. So a mod for the other era is refused whatever its app rule says,
/// and a refused mod is never switched on by the player's choices.
pub proof fn lemma_rules_decide_refusal(
    m: ManifestView,
    app: Option<Seq<char>>,
    prerenewal: bool,
    name: Seq<char>,
    disabled: Seq<Seq<char>>,
    enabled: Seq<Seq<char>>,
)
    ensures
        judged_problem(Ok(Some(m)), app, prerenewal) is None <==> (app_rule_met(m, app) && era_rule_met(m, prerenewal)),
        !app_rule_met(m, app) ==> judged_problem(Ok(Some(m)), app, prerenewal)
            == Some(app_verdict(m.requires_app.unwrap(), app)->Err_0),
        app_rule_met(m, app) && !era_rule_met(m, prerenewal) ==> judged_problem(Ok(Some(m)), app, prerenewal)
            == Some(era_fit(dashed(lowercase(trim(m.requires_era.unwrap()))), prerenewal)->Err_0),
        !era_rule_met(m, prerenewal) ==> status_of(judged_problem(Ok(Some(m)), app, prerenewal), name, disabled,
            enabled, m.default_on).0 == 2,
{
}

/// The player's choices decide a mod nothing keeps out: one they switched
/// off is off, one they switched on (and not off) is on, and only a mod
/// they said nothing about follows its manifest's default. A mod something
/// keeps out is refused, with that reason, whatever they chose.
pub proof fn lemma_choices_decide_status(
    problem: Option<Seq<char>>,
    name: Seq<char>,
    disabled: Seq<Seq<char>>,
    enabled: Seq<Seq<char>>,
    default_on: bool,
)
    ensures
        problem matches Some(reason) ==> status_of(problem, name, disabled, enabled, default_on) == (2int, reason),
        problem is None && disabled.contains(name) ==> status_of(problem, name, disabled, enabled, default_on).0 == 1,
        problem is None && !disabled.contains(name) && enabled.contains(name)
            ==> status_of(problem, name, disabled, enabled, default_on).0 == 0,
        problem is None && !disabled.contains(name) && !enabled.contains(name)
            ==> status_of(problem, name, disabled, enabled, default_on).0 == (if default_on { 0int } else { 1int }),
        status_of(problem, name, disabled, enabled, default_on).0 != 2 ==> status_of(problem, name, disabled, enabled, default_on).1.len() == 0,
{
}

fn problem_for(m: &Manifest, app: Option<&str>, prerenewal: bool) -> (r: Option<String>)
    ensures
        match r {
            Some(e) => problem_of(m@, crate::versions::have_text(app), prerenewal) == Some(e@),
            None => problem_of(m@, crate::versions::have_text(app), prerenewal) is None,
        },
{
    match &m.requires_app {
        Some(rule) => match app_requirement_met(rule.as_str(), app) {
            Err(e) => return Some(e),
            Ok(()) => {},
        },
        None => {},
    }
    match &m.requires_era {
        Some(rule) => match era_requirement_met(rule.as_str(), prerenewal) {
            Err(e) => Some(e),
            Ok(()) => None,
        },
        None => None,
    }
}

/// One mod folder, judged: its manifest as read, and its status.
pub fn judge(
    name: String,
    dir: String,
    bundled: bool,
    manifest: Result<Option<Manifest>, String>,
    app: Option<&str>,
    prerenewal: bool,
    disabled: &[String],
    enabled: &[String],
) -> (m: Installed)
    ensures
        m.name == name,
        m.dir == dir,
        m.bundled == bundled,
        m.manifest@ == judged_manifest(read_view(manifest)),
        status_view(m.status) == status_of(
            judged_problem(read_view(manifest), crate::versions::have_text(app), prerenewal),
            name@,
            texts(disabled@),
            texts(enabled@),
            judged_manifest(read_view(manifest)).default_on,
        ),
{
    let ghost read = read_view(manifest);
    let (manifest, problem) = match manifest {
        Ok(Some(m)) => {
            let p = problem_for(&m, app, prerenewal);
            (m, p)
        },
        Ok(None) => (Manifest::default(), None),
        Err(e) => (Manifest::default(), Some(e)),
    };
    let n = chars_of(name.as_str());
    let status = match problem {
        Some(reason) => Status::Refused(reason),
        None => if contains_text_in(disabled, n.as_slice()) {
            Status::Off
        } else if contains_text_in(enabled, n.as_slice()) {
            Status::On
        } else if !manifest.default_on {
            Status::Off
        } else {
            Status::On
        },
    };
    Installed { name, dir, status, manifest, bundled }
}

fn contains_text_in(list: &[String], s: &[char]) -> (r: bool)
    ensures
        r == texts(list@).contains(s@),
{
    let mut i: usize = 0;
    while i < list.len()
        invariant
            i <= list@.len(),
            forall|k: int| 0 <= k < i ==> #[trigger] texts(list@)[k] != s@,
        decreases list@.len() - i,
    {
        if same(chars_of(list[i].as_str()).as_slice(), s) {
            assert(texts(list@)[i as int] == s@);
            return true;
        }
        i = i + 1;
    }
    false
}

/// What the requirement check reads of a mod: its name, its status, and the
/// mods it requires.
pub type Standing = (Seq<char>, (int, Seq<char>), Seq<Seq<char>>);

pub open spec fn standing_of(m: Installed) -> Standing {
    (m.name@, status_view(m.status), m.manifest@.requires_mods)
}

pub open spec fn standings(mods: Seq<Installed>) -> Seq<Standing> {
    mods.map_values(|m: Installed| standing_of(m))
}

/// Whether the last mod named `n` among the first `k` is on; `None` when
/// none is named so.
pub open spec fn presence(mods: Seq<Standing>, n: Seq<char>, k: int) -> Option<bool>
    decreases k,
{
    if k <= 0 || k > mods.len() {
        None
    } else if mods[k - 1].0 == n {
        Some(mods[k - 1].1.0 == 0)
    } else {
        presence(mods, n, k - 1)
    }
}

/// What is missing of what a mod requires: each name that is not on, said
/// as installed-but-off or not installed.
pub open spec fn missing_of(needs: Seq<Seq<char>>, mods: Seq<Standing>) -> Seq<Seq<char>>
    decreases needs.len(),
{
    if needs.len() == 0 {
        seq![]
    } else {
        let n = needs.last();
        let rest = missing_of(needs.drop_last(), mods);
        match presence(mods, n, mods.len() as int) {
            Some(true) => rest,
            Some(false) => rest.push(n + " is installed but switched off"@),
            None => rest.push(n + " is not installed"@),
        }
    }
}

/// A mod's status once what it requires is checked against the mods that
/// are on: an `On` mod missing any of them is refused, naming each.
pub open spec fn settled_status(m: Standing, mods: Seq<Standing>) -> (int, Seq<char>) {
    if m.1.0 == 0 && missing_of(m.2, mods).len() > 0 {
        refused_for("needs "@ + joined_with(missing_of(m.2, mods), ", "@))
    } else {
        m.1
    }
}

/// One check of every mod's requirements against the mods as they stand.
pub open spec fn settle_pass(mods: Seq<Standing>) -> Seq<Standing> {
    Seq::new(mods.len(), |i: int| (mods[i].0, settled_status(mods[i], mods), mods[i].2))
}

/// The check repeated `n` times.
pub open spec fn settle_rounds(mods: Seq<Standing>, n: nat) -> Seq<Standing>
    decreases n,
{
    if n == 0 {
        mods
    } else {
        settle_rounds(settle_pass(mods), (n - 1) as nat)
    }
}

/// How many mods are on.
pub open spec fn on_count(mods: Seq<Standing>) -> nat
    decreases mods.len(),
{
    if mods.len() == 0 {
        0
    } else {
        on_count(mods.drop_last()) + if mods.last().1.0 == 0 { 1nat } else { 0nat }
    }
}

/// Turning some mods that are on to refused, and nothing else, leaves fewer on.
proof fn lemma_fewer_on(a: Seq<Standing>, b: Seq<Standing>, i: int)
    requires
        a.len() == b.len(),
        forall|k: int| 0 <= k < a.len() ==> #[trigger] b[k] == a[k] || (a[k].1.0 == 0 && b[k].1.0 == 2),
        0 <= i < a.len(),
        b[i] != a[i],
    ensures
        on_count(b) < on_count(a),
    decreases a.len(),
{
    lemma_not_more_on(a.drop_last(), b.drop_last());
    if i < a.len() - 1 {
        assert(a.drop_last()[i] == a[i]);
        assert(b.drop_last()[i] == b[i]);
        assert(b.last() == a.last() || (a.last().1.0 == 0 && b.last().1.0 == 2));
        lemma_fewer_on(a.drop_last(), b.drop_last(), i);
    }
}

proof fn lemma_not_more_on(a: Seq<Standing>, b: Seq<Standing>)
    requires
        a.len() == b.len(),
        forall|k: int| 0 <= k < a.len() ==> #[trigger] b[k] == a[k] || (a[k].1.0 == 0 && b[k].1.0 == 2),
    ensures
        on_count(b) <= on_count(a),
    decreases a.len(),
{
    if a.len() > 0 {
        assert forall|k: int| 0 <= k < a.drop_last().len() implies #[trigger] b.drop_last()[k] == a.drop_last()[k]
            || (a.drop_last()[k].1.0 == 0 && b.drop_last()[k].1.0 == 2) by {
            assert(b[k] == a[k] || (a[k].1.0 == 0 && b[k].1.0 == 2));
        }
        lemma_not_more_on(a.drop_last(), b.drop_last());
        assert(b.last() == a.last() || (a.last().1.0 == 0 && b.last().1.0 == 2));
    }
}

/// Nothing is missing of what a mod requires exactly when each required mod
/// is installed and on.
proof fn lemma_nothing_missing(needs: Seq<Seq<char>>, mods: Seq<Standing>)
    ensures
        missing_of(needs, mods).len() == 0 <==> forall|k: int| 0 <= k < needs.len()
            ==> presence(mods, #[trigger] needs[k], mods.len() as int) == Some(true),
    decreases needs.len(),
{
    if needs.len() > 0 {
        lemma_nothing_missing(needs.drop_last(), mods);
        assert forall|k: int| 0 <= k < needs.drop_last().len() implies needs.drop_last()[k] == needs[k] by {}
        if missing_of(needs, mods).len() == 0 {
            assert forall|k: int| 0 <= k < needs.len() implies presence(mods, #[trigger] needs[k], mods.len() as int) == Some(true) by {
                if k < needs.len() - 1 {
                    assert(needs.drop_last()[k] == needs[k]);
                }
            }
        } else if forall|k: int| 0 <= k < needs.len() ==> presence(mods, #[trigger] needs[k], mods.len() as int) == Some(true) {
            assert(presence(mods, needs[needs.len() - 1], mods.len() as int) == Some(true));
            assert forall|k: int| 0 <= k < needs.drop_last().len() implies
                presence(mods, #[trigger] needs.drop_last()[k], mods.len() as int) == Some(true) by {
                assert(needs.drop_last()[k] == needs[k]);
            }
        }
    }
}

fn presence_of(mods: &Vec<Installed>, n: &[char]) -> (r: Option<bool>)
    ensures
        r == presence(standings(mods@), n@, mods@.len() as int),
{
    let ghost st = standings(mods@);
    let mut k = mods.len();
    while k > 0
        invariant
            k <= mods@.len(),
            st == standings(mods@),
            presence(st, n@, mods@.len() as int) == presence(st, n@, k as int),
        decreases k,
    {
        assert(st[k - 1] == standing_of(mods@[k - 1]));
        if same(chars_of(mods[k - 1].name.as_str()).as_slice(), n) {
            let on = match mods[k - 1].status {
                Status::On => true,
                _ => false,
            };
            return Some(on);
        }
        k = k - 1;
    }
    None
}

fn missing_for(needs: &Vec<String>, mods: &Vec<Installed>) -> (out: Vec<Vec<char>>)
    ensures
        crate::text::char_texts(out@) == missing_of(texts(needs@), standings(mods@)),
{
    let ghost st = standings(mods@);
    let mut out: Vec<Vec<char>> = Vec::new();
    let mut i: usize = 0;
    assert(crate::text::char_texts(out@) =~= Seq::<Seq<char>>::empty());
    while i < needs.len()
        invariant
            i <= needs@.len(),
            st == standings(mods@),
            st.len() == mods@.len(),
            crate::text::char_texts(out@) == missing_of(texts(needs@).take(i as int), st),
        decreases needs@.len() - i,
    {
        let n = chars_of(needs[i].as_str());
        let ghost t = texts(needs@).take(i + 1);
        assert(t.drop_last() == texts(needs@).take(i as int));
        match presence_of(mods, n.as_slice()) {
            Some(true) => {},
            Some(false) => {
                let mut m = n;
                push_all(&mut m, chars_of(" is installed but switched off").as_slice());
                let ghost before = crate::text::char_texts(out@);
                out.push(m);
                assert(crate::text::char_texts(out@) == before.push(m@));
            },
            None => {
                let mut m = n;
                push_all(&mut m, chars_of(" is not installed").as_slice());
                let ghost before = crate::text::char_texts(out@);
                out.push(m);
                assert(crate::text::char_texts(out@) == before.push(m@));
            },
        }
        i = i + 1;
    }
    assert(texts(needs@).take(needs@.len() as int) == texts(needs@));
    out
}

/// One check of every mod's requirements against the mods as they were
/// before it; whether any mod was refused by it.
fn settle_once(mods: &mut Vec<Installed>) -> (changed: bool)
    ensures
        final(mods)@.len() == old(mods)@.len(),
        forall|i: int| 0 <= i < old(mods)@.len() ==> {
            &&& (#[trigger] final(mods)@[i]).name == old(mods)@[i].name
            &&& final(mods)@[i].dir == old(mods)@[i].dir
            &&& final(mods)@[i].bundled == old(mods)@[i].bundled
            &&& final(mods)@[i].manifest@ == old(mods)@[i].manifest@
        },
        standings(final(mods)@) == settle_pass(standings(old(mods)@)),
        changed <==> standings(final(mods)@) != standings(old(mods)@),
{
    let ghost before = mods@;
    let ghost st = standings(before);
    let mut verdicts: Vec<Option<String>> = Vec::new();
    let mut i: usize = 0;
    while i < mods.len()
        invariant
            i <= mods@.len(),
            mods@ == before,
            st == standings(before),
            verdicts@.len() == i,
            forall|k: int| 0 <= k < i ==> match #[trigger] verdicts@[k] {
                Some(r) => mods@[k].status is On && missing_of(mods@[k].manifest@.requires_mods, st).len() > 0
                    && r@ == "needs "@ + joined_with(missing_of(mods@[k].manifest@.requires_mods, st), ", "@),
                None => !(mods@[k].status is On && missing_of(mods@[k].manifest@.requires_mods, st).len() > 0),
            },
        decreases mods@.len() - i,
    {
        let on = match mods[i].status {
            Status::On => true,
            _ => false,
        };
        if on {
            let missing = missing_for(&mods[i].manifest.requires_mods, mods);
            if missing.len() > 0 {
                let mut r = chars_of("needs ");
                push_all(&mut r, crate::text::join_chars(&missing, chars_of(", ").as_slice()).as_slice());
                verdicts.push(Some(string_of(r.as_slice())));
            } else {
                verdicts.push(None);
            }
        } else {
            verdicts.push(None);
        }
        i = i + 1;
    }
    let mut changed = false;
    let mut j: usize = 0;
    while j < mods.len()
        invariant
            j <= mods@.len(),
            mods@.len() == before.len(),
            verdicts@.len() == before.len(),
            st == standings(before),
            forall|k: int| 0 <= k < before.len() ==> match #[trigger] verdicts@[k] {
                Some(r) => before[k].status is On && missing_of(before[k].manifest@.requires_mods, st).len() > 0
                    && r@ == "needs "@ + joined_with(missing_of(before[k].manifest@.requires_mods, st), ", "@),
                None => !(before[k].status is On && missing_of(before[k].manifest@.requires_mods, st).len() > 0),
            },
            forall|k: int| 0 <= k < before.len() ==> {
                &&& (#[trigger] mods@[k]).name == before[k].name
                &&& mods@[k].dir == before[k].dir
                &&& mods@[k].bundled == before[k].bundled
                &&& mods@[k].manifest@ == before[k].manifest@
                &&& (k >= j ==> mods@[k].status == before[k].status)
                &&& (k < j ==> status_view(mods@[k].status) == settled_status(st[k], st))
            },
            changed <==> exists|k: int| 0 <= k < j && (#[trigger] verdicts@[k]) is Some,
        decreases mods@.len() - j,
    {
        assert(st[j as int] == standing_of(before[j as int]));
        match &verdicts[j] {
            Some(r) => {
                let reason = r.clone();
                let mut m = mods.remove(j);
                m.status = Status::Refused(reason);
                mods.insert(j, m);
                changed = true;
            },
            None => {},
        }
        j = j + 1;
    }
    proof {
        let after = standings(mods@);
        assert forall|k: int| 0 <= k < before.len() implies #[trigger] after[k] == settle_pass(st)[k] by {
            assert(st[k] == standing_of(before[k]));
            assert(after[k] == standing_of(mods@[k]));
        }
        assert(after =~= settle_pass(st));
        if changed {
            let k = choose|k: int| 0 <= k < before.len() && (#[trigger] verdicts@[k]) is Some;
            assert(st[k] == standing_of(before[k]));
            assert(after[k].1.0 == 2);
            assert(st[k].1.0 == 0);
            assert(after[k] != st[k]);
        } else {
            assert forall|k: int| 0 <= k < before.len() implies #[trigger] after[k] == st[k] by {
                assert(st[k] == standing_of(before[k]));
                assert(verdicts@[k] is None);
            }
            assert(after =~= st);
        }
    }
    changed
}

/// The requirement check, repeated until it refuses nothing more. A
/// requirement can name a mod the scan had not reached, and only a mod that
/// is on satisfies one: every mod that is on and misses something it
/// requires is refused, naming what is missing, and a mod that needs one
/// refused so is checked again. Once done, every mod left on has each mod it
/// requires installed and on.
pub fn settle_requirements(mods: &mut Vec<Installed>)
    ensures
        final(mods)@.len() == old(mods)@.len(),
        forall|i: int| 0 <= i < old(mods)@.len() ==> {
            &&& (#[trigger] final(mods)@[i]).name == old(mods)@[i].name
            &&& final(mods)@[i].dir == old(mods)@[i].dir
            &&& final(mods)@[i].bundled == old(mods)@[i].bundled
            &&& final(mods)@[i].manifest@ == old(mods)@[i].manifest@
        },
        exists|n: nat| standings(final(mods)@) == #[trigger] settle_rounds(standings(old(mods)@), n),
        settle_pass(standings(final(mods)@)) == standings(final(mods)@),
        forall|i: int, k: int| #![trigger final(mods)@[i].manifest@.requires_mods[k]]
            0 <= i < final(mods)@.len() && final(mods)@[i].status is On
            && 0 <= k < final(mods)@[i].manifest@.requires_mods.len()
            ==> presence(standings(final(mods)@), final(mods)@[i].manifest@.requires_mods[k], final(mods)@.len() as int)
                == Some(true),
{
    let ghost start = mods@;
    let ghost mut rounds: nat = 0;
    assert(standings(mods@) == settle_rounds(standings(start), 0));
    loop
        invariant
            mods@.len() == start.len(),
            forall|i: int| 0 <= i < start.len() ==> {
                &&& (#[trigger] mods@[i]).name == start[i].name
                &&& mods@[i].dir == start[i].dir
                &&& mods@[i].bundled == start[i].bundled
                &&& mods@[i].manifest@ == start[i].manifest@
            },
            standings(mods@) == settle_rounds(standings(start), rounds),
        ensures
            mods@.len() == start.len(),
            forall|i: int| 0 <= i < start.len() ==> {
                &&& (#[trigger] mods@[i]).name == start[i].name
                &&& mods@[i].dir == start[i].dir
                &&& mods@[i].bundled == start[i].bundled
                &&& mods@[i].manifest@ == start[i].manifest@
            },
            standings(mods@) == settle_rounds(standings(start), rounds),
            settle_pass(standings(mods@)) == standings(mods@),
        decreases on_count(standings(mods@)),
    {
        let ghost prev = mods@;
        let changed = settle_once(mods);
        proof {
            lemma_rounds_step(standings(start), rounds);
            rounds = rounds + 1;
            let a = standings(prev);
            let b = standings(mods@);
            assert forall|k: int| 0 <= k < a.len() implies #[trigger] b[k] == a[k] || (a[k].1.0 == 0 && b[k].1.0 == 2) by {
                assert(b[k] == settle_pass(a)[k]);
            }
            if changed {
                assert(exists|k: int| 0 <= k < a.len() && #[trigger] b[k] != a[k]) by {
                    assert(b.len() == a.len());
                    if forall|k: int| 0 <= k < a.len() ==> #[trigger] b[k] == a[k] {
                        assert(b =~= a);
                    }
                }
                let k = choose|k: int| 0 <= k < a.len() && #[trigger] b[k] != a[k];
                lemma_fewer_on(a, b, k);
            }
        }
        if !changed {
            break;
        }
    }
    proof {
        let f = standings(mods@);
        assert forall|i: int, k: int| #![trigger mods@[i].manifest@.requires_mods[k]]
            0 <= i < mods@.len() && mods@[i].status is On
            && 0 <= k < mods@[i].manifest@.requires_mods.len()
            implies presence(f, mods@[i].manifest@.requires_mods[k], mods@.len() as int) == Some(true) by {
            assert(f[i] == standing_of(mods@[i]));
            assert(settle_pass(f)[i] == f[i]);
            lemma_nothing_missing(f[i].2, f);
            assert(f[i].2[k] == mods@[i].manifest@.requires_mods[k]);
        }
    }
}

/// One more round is one more check on what the rounds so far gave.
proof fn lemma_rounds_step(mods: Seq<Standing>, n: nat)
    ensures
        settle_rounds(mods, n + 1) == settle_pass(settle_rounds(mods, n)),
    decreases n,
{
    assert(settle_rounds(mods, n + 1) == settle_rounds(settle_pass(mods), n));
    if n > 0 {
        lemma_rounds_step(settle_pass(mods), (n - 1) as nat);
        assert(settle_rounds(mods, n) == settle_rounds(settle_pass(mods), (n - 1) as nat));
    }
}

/// The mods that were refused, each with its reason, in scan order.
pub open spec fn scan_refusals(mods: Seq<Installed>) -> Seq<(Seq<char>, Seq<char>)>
    decreases mods.len(),
{
    if mods.len() == 0 {
        seq![]
    } else {
        let rest = scan_refusals(mods.drop_last());
        match mods.last().status {
            Status::Refused(r) => rest.push((mods.last().name@, r@)),
            _ => rest,
        }
    }
}

/// The mods that are on, in scan order.
pub open spec fn live(mods: Seq<Installed>) -> Seq<Installed>
    decreases mods.len(),
{
    if mods.len() == 0 {
        seq![]
    } else if mods.last().status is On {
        live(mods.drop_last()).push(mods.last())
    } else {
        live(mods.drop_last())
    }
}

/// A folder a mod can live in: any name not starting with `.`.
pub open spec fn visible(name: Seq<char>) -> bool {
    name.len() == 0 || name[0] != '.'
}

/// A name is among the mod folders when it is visible and in either root.
pub open spec fn offered(bundled: Seq<Seq<char>>, user: Seq<Seq<char>>, n: Seq<char>) -> bool {
    visible(n) && (bundled.contains(n) || user.contains(n))
}

fn add_visible(keys: &mut Vec<Vec<char>>, names: &[String])
    requires
        strictly_sorted(old(keys)@),
    ensures
        strictly_sorted(final(keys)@),
        forall|y: Seq<char>| #[trigger] has_entry(final(keys)@, y)
            <==> (has_entry(old(keys)@, y) || (visible(y) && texts(names@).contains(y))),
{
    let ghost start = keys@;
    let mut i: usize = 0;
    while i < names.len()
        invariant
            i <= names@.len(),
            strictly_sorted(keys@),
            forall|y: Seq<char>| #[trigger] has_entry(keys@, y)
                <==> (has_entry(start, y) || (visible(y) && texts(names@).take(i as int).contains(y))),
        decreases names@.len() - i,
    {
        let n = chars_of(names[i].as_str());
        let ghost before = keys@;
        proof {
            assert(texts(names@).take(i + 1) == texts(names@).take(i as int).push(n@));
        }
        if n.len() == 0 || n[0] != '.' {
            insert_sorted(keys, n);
        }
        i = i + 1;
        assert forall|y: Seq<char>| #[trigger] has_entry(keys@, y)
            <==> (has_entry(start, y) || (visible(y) && texts(names@).take(i as int).contains(y))) by {
            if texts(names@).take(i as int).contains(y) && y != texts(names@)[i - 1] {
                let k = choose|k: int| 0 <= k < i && #[trigger] texts(names@).take(i as int)[k] == y;
                assert(texts(names@).take(i - 1)[k] == y);
            }
            if texts(names@).take(i - 1).contains(y) {
                let k = choose|k: int| 0 <= k < i - 1 && #[trigger] texts(names@).take(i - 1)[k] == y;
                assert(texts(names@).take(i as int)[k] == y);
            }
            if y == texts(names@)[i - 1] {
                assert(texts(names@).take(i as int)[i - 1] == y);
            }
        }
    }
    assert(texts(names@).take(names@.len() as int) == texts(names@));
}

fn named_in(names: &[String], n: &[char]) -> (r: bool)
    ensures
        r == texts(names@).contains(n@),
{
    let mut i: usize = 0;
    while i < names.len()
        invariant
            i <= names@.len(),
            forall|k: int| 0 <= k < i ==> texts(names@)[k] != n@,
        decreases names@.len() - i,
    {
        if same(chars_of(names[i].as_str()).as_slice(), n) {
            assert(texts(names@)[i as int] == n@);
            return true;
        }
        i = i + 1;
    }
    false
}

/// The mod folders to look at, given the directory names under the app's
/// own `mods/` (`bundled`) and the player's (`user`): each visible name once,
/// in name order, marked bundled unless the player has a folder of that name
/// too, in which case the player's copy is the one that counts.
pub fn mod_folders(bundled: &[String], user: &[String]) -> (out: Vec<(String, bool)>)
    ensures
        forall|i: int, j: int| 0 <= i < j < out@.len() ==> lex_lt(#[trigger] out@[i].0@, #[trigger] out@[j].0@),
        forall|n: Seq<char>| offered(texts(bundled@), texts(user@), n)
            <==> exists|i: int| 0 <= i < out@.len() && #[trigger] out@[i].0@ == n,
        forall|i: int| 0 <= i < out@.len() ==> (#[trigger] out@[i]).1 == !texts(user@).contains(out@[i].0@),
{
    let mut keys: Vec<Vec<char>> = Vec::new();
    add_visible(&mut keys, bundled);
    add_visible(&mut keys, user);
    let mut out: Vec<(String, bool)> = Vec::new();
    let mut k: usize = 0;
    while k < keys.len()
        invariant
            k <= keys@.len(),
            out@.len() == k,
            strictly_sorted(keys@),
            forall|t: int| 0 <= t < k ==> (#[trigger] out@[t]).0@ == keys@[t]@,
            forall|t: int| 0 <= t < k ==> (#[trigger] out@[t]).1 == !texts(user@).contains(keys@[t]@),
        decreases keys@.len() - k,
    {
        let from_user = named_in(user, keys[k].as_slice());
        out.push((string_of(keys[k].as_slice()), !from_user));
        k = k + 1;
    }
    assert forall|n: Seq<char>| offered(texts(bundled@), texts(user@), n)
        <==> exists|i: int| 0 <= i < out@.len() && #[trigger] out@[i].0@ == n by {
        if offered(texts(bundled@), texts(user@), n) {
            assert(has_entry(keys@, n));
            let t = choose|t: int| 0 <= t < keys@.len() && #[trigger] keys@[t]@ == n;
            assert(out@[t].0@ == n);
        }
        if exists|i: int| 0 <= i < out@.len() && #[trigger] out@[i].0@ == n {
            let t = choose|t: int| 0 <= t < out@.len() && #[trigger] out@[t].0@ == n;
            assert(keys@[t]@ == n);
            assert(has_entry(keys@, n));
        }
    }
    out
}

/// Taking the mods that are on from two runs of mods is taking them from
/// each run in turn.
proof fn lemma_live_append(a: Seq<Installed>, b: Seq<Installed>)
    ensures
        live(a + b) == live(a) + live(b),
    decreases b.len(),
{
    if b.len() == 0 {
        assert(a + b == a);
        assert(live(a) + live(b) == live(a));
    } else {
        lemma_live_append(a, b.drop_last());
        assert((a + b).drop_last() == a + b.drop_last());
        assert((a + b).last() == b.last());
    }
}

/// The mods that are on, in the order they came.
pub fn enabled(mods: Vec<Installed>) -> (out: Vec<Installed>)
    ensures
        out@ == live(mods@),
{
    let mut rest = mods;
    let mut out: Vec<Installed> = Vec::new();
    let ghost all = rest@;
    while rest.len() > 0
        invariant
            live(all) == out@ + live(rest@),
        decreases rest@.len(),
    {
        let ghost before = rest@;
        let m = rest.remove(0);
        proof {
            assert(before == seq![m] + rest@);
            lemma_live_append(seq![m], rest@);
            assert(seq![m].drop_last() == Seq::<Installed>::empty());
            assert(live(Seq::<Installed>::empty()) == Seq::<Installed>::empty());
            assert(live(seq![m]) == live(seq![m].drop_last()) + (if m.status is On { seq![m] } else { Seq::<Installed>::empty() }));
        }
        let ghost was = out@;
        let on = m.status.is_on();
        if on {
            out.push(m);
        }
        proof {
            if on {
                assert(out@ == was + seq![m]);
                assert(live(all) == was + (seq![m] + live(rest@)));
                assert(was + (seq![m] + live(rest@)) == out@ + live(rest@));
            } else {
                assert(live(all) == was + (Seq::<Installed>::empty() + live(rest@)));
                assert(Seq::<Installed>::empty() + live(rest@) == live(rest@));
            }
        }
    }
    assert(live(rest@) == Seq::<Installed>::empty());
    assert(out@ + Seq::<Installed>::empty() == out@);
    out
}

/// What each mod that is on says about precedence: its name and its `after`.
pub open spec fn declared(live: Seq<Installed>) -> Seq<(String, Vec<String>)> {
    live.map_values(|m: Installed| (m.name, m.manifest.after))
}

/// The names of the mods of `live` called `n`.
pub open spec fn called(live: Seq<Installed>, n: Seq<char>) -> Seq<Seq<char>>
    decreases live.len(),
{
    if live.len() == 0 {
        seq![]
    } else if live.last().name@ == n {
        called(live.drop_last(), n).push(n)
    } else {
        called(live.drop_last(), n)
    }
}

/// The mods of `live`, in the order `order` puts their names.
pub open spec fn arranged(order: Seq<String>, live: Seq<Installed>) -> Seq<Seq<char>>
    decreases order.len(),
{
    if order.len() == 0 {
        seq![]
    } else {
        arranged(order.drop_last(), live) + called(live, order.last()@)
    }
}

/// The names of the mods of `live` that are not in `ring`.
pub open spec fn outside(live: Seq<Installed>, ring: Seq<String>) -> Seq<Seq<char>>
    decreases live.len(),
{
    if live.len() == 0 {
        seq![]
    } else if texts(ring).contains(live.last().name@) {
        outside(live.drop_last(), ring)
    } else {
        outside(live.drop_last(), ring).push(live.last().name@)
    }
}

pub open spec fn loop_note(names: Seq<char>) -> Seq<char> {
    "\"after\" forms a loop with "@ + names + ", so none of them were applied"@
}

/// The refusal of every mod in a ring of `after` declarations.
pub open spec fn ring_refusals(ring: Seq<String>) -> Seq<(Seq<char>, Seq<char>)> {
    ring.map_values(|n: String| (n@, loop_note(joined_with(texts(ring), ", "@))))
}

pub open spec fn refusal_pairs(v: Seq<(String, String)>) -> Seq<(Seq<char>, Seq<char>)> {
    v.map_values(|p: (String, String)| (p.0@, p.1@))
}

fn called_push(live: &Vec<(String, Vec<String>)>, n: &[char], out: &mut Vec<String>)
    ensures
        texts(final(out)@) == texts(old(out)@) + called_names(live@, n@),
{
    let mut i: usize = 0;
    while i < live.len()
        invariant
            i <= live@.len(),
            texts(out@) == texts(old(out)@) + called_names(live@.take(i as int), n@),
        decreases live@.len() - i,
    {
        let ghost t = live@.take(i + 1);
        assert(t.drop_last() == live@.take(i as int));
        if same(chars_of(live[i].0.as_str()).as_slice(), n) {
            let ghost before = texts(out@);
            out.push(string_of(n));
            assert(texts(out@) == before.push(n@));
        }
        i = i + 1;
    }
    assert(live@.take(live@.len() as int) == live@);
}

/// The names of the declarations called `n`.
pub open spec fn called_names(d: Seq<(String, Vec<String>)>, n: Seq<char>) -> Seq<Seq<char>>
    decreases d.len(),
{
    if d.len() == 0 {
        seq![]
    } else if d.last().0@ == n {
        called_names(d.drop_last(), n).push(n)
    } else {
        called_names(d.drop_last(), n)
    }
}

proof fn lemma_called_same(a: Seq<(String, Vec<String>)>, b: Seq<(String, Vec<String>)>, n: Seq<char>)
    requires
        same_declarations(a, b),
    ensures
        called_names(a, n) == called_names(b, n),
    decreases a.len(),
{
    if a.len() > 0 {
        assert(same_declarations(a.drop_last(), b.drop_last())) by {
            assert forall|i: int| 0 <= i < a.drop_last().len() implies (#[trigger] a.drop_last()[i]).0@ == b.drop_last()[i].0@
                && a.drop_last()[i].1@ == b.drop_last()[i].1@ by {
                assert(a.drop_last()[i] == a[i]);
                assert(b.drop_last()[i] == b[i]);
            }
        }
        lemma_called_same(a.drop_last(), b.drop_last(), n);
        assert(a.last().0@ == b.last().0@) by {
            assert(a[a.len() - 1].0@ == b[a.len() - 1].0@);
        }
    }
}

proof fn lemma_called(live: Seq<Installed>, n: Seq<char>)
    ensures
        called_names(declared(live), n) == called(live, n),
    decreases live.len(),
{
    if live.len() > 0 {
        assert(declared(live).drop_last() == declared(live.drop_last()));
        lemma_called(live.drop_last(), n);
    }
}

/// Exactly what `plan` gives: the mods that are on, walked depth first by
/// name (`walked`), and the scan's refusals; or, when the walk closes a
/// ring, the mods outside it in scan order and every mod on the ring's path
/// refused as well.
pub open spec fn planned(mods: Seq<Installed>, applied: Seq<Seq<char>>, refused: Seq<(Seq<char>, Seq<char>)>) -> bool {
    exists|names: Seq<Seq<char>>, lists: Seq<Seq<usize>>, chosen: Seq<String>|
        #![trigger dep_graph(declared(live(mods)), names, lists), texts(chosen)]
        sorted_names(declared(live(mods)), names) && dep_graph(declared(live(mods)), names, lists)
            && ((walked(names, lists) == Ok::<Seq<Seq<char>>, Seq<Seq<char>>>(texts(chosen))
                && !has_loop(declared(live(mods)))
                && lists_each_once(declared(live(mods)), chosen) && respects_after(declared(live(mods)), chosen)
                && applied == arranged(chosen, live(mods)) && refused == scan_refusals(mods))
            || (walked(names, lists) == Err::<Seq<Seq<char>>, Seq<Seq<char>>>(texts(chosen))
                && has_loop(declared(live(mods)))
                && applied == outside(live(mods), chosen)
                && refused == scan_refusals(mods) + ring_refusals(chosen)))
}

proof fn lemma_planned(
    mods: Seq<Installed>,
    names: Seq<Seq<char>>,
    lists: Seq<Seq<usize>>,
    chosen: Seq<String>,
    applied: Seq<Seq<char>>,
    refused: Seq<(Seq<char>, Seq<char>)>,
    ok: bool,
)
    requires
        sorted_names(declared(live(mods)), names),
        dep_graph(declared(live(mods)), names, lists),
        ok ==> walked(names, lists) == Ok::<Seq<Seq<char>>, Seq<Seq<char>>>(texts(chosen))
            && !has_loop(declared(live(mods)))
            && lists_each_once(declared(live(mods)), chosen) && respects_after(declared(live(mods)), chosen)
            && applied == arranged(chosen, live(mods)) && refused == scan_refusals(mods),
        !ok ==> walked(names, lists) == Err::<Seq<Seq<char>>, Seq<Seq<char>>>(texts(chosen))
            && has_loop(declared(live(mods)))
            && applied == outside(live(mods), chosen) && refused == scan_refusals(mods) + ring_refusals(chosen),
    ensures
        planned(mods, applied, refused),
{
    assert(dep_graph(declared(live(mods)), names, lists));
    assert(texts(chosen) == texts(chosen));
}

/// `n` is the name of one of the mods in `mods`.
pub open spec fn named_mod(mods: Seq<Installed>, n: Seq<char>) -> bool {
    exists|j: int| 0 <= j < mods.len() && #[trigger] mods[j].name@ == n
}

proof fn lemma_called_named(lv: Seq<Installed>, n: Seq<char>)
    ensures
        forall|i: int| 0 <= i < called(lv, n).len() ==> called(lv, n)[i] == n && named_mod(lv, n),
    decreases lv.len(),
{
    if lv.len() > 0 {
        lemma_called_named(lv.drop_last(), n);
        if called(lv.drop_last(), n).len() > 0 {
            assert(called(lv.drop_last(), n)[0] == n);
            assert(named_mod(lv.drop_last(), n));
            let j = choose|j: int| 0 <= j < lv.drop_last().len() && #[trigger] lv.drop_last()[j].name@ == n;
            assert(lv[j] == lv.drop_last()[j]);
            assert(named_mod(lv, n));
        }
        if lv.last().name@ == n {
            assert(lv[lv.len() - 1].name@ == n);
        }
    }
}

proof fn lemma_arranged_named(order: Seq<String>, lv: Seq<Installed>)
    ensures
        forall|i: int| 0 <= i < arranged(order, lv).len() ==> named_mod(lv, #[trigger] arranged(order, lv)[i]),
    decreases order.len(),
{
    if order.len() > 0 {
        lemma_arranged_named(order.drop_last(), lv);
        lemma_called_named(lv, order.last()@);
        let a = arranged(order.drop_last(), lv);
        let c = called(lv, order.last()@);
        assert forall|i: int| 0 <= i < (a + c).len() implies named_mod(lv, #[trigger] (a + c)[i]) by {
            if i < a.len() {
                assert((a + c)[i] == a[i]);
            } else {
                assert((a + c)[i] == c[i - a.len()]);
            }
        }
    }
}

proof fn lemma_outside_named(lv: Seq<Installed>, ring: Seq<String>)
    ensures
        forall|i: int| 0 <= i < outside(lv, ring).len() ==> named_mod(lv, #[trigger] outside(lv, ring)[i]),
    decreases lv.len(),
{
    if lv.len() > 0 {
        lemma_outside_named(lv.drop_last(), ring);
        let o = outside(lv.drop_last(), ring);
        assert forall|i: int| 0 <= i < o.len() implies named_mod(lv, #[trigger] o[i]) by {
            let j = choose|j: int| 0 <= j < lv.drop_last().len() && #[trigger] lv.drop_last()[j].name@ == o[i];
            assert(lv[j].name@ == o[i]);
        }
        assert(lv[lv.len() - 1].name@ == lv.last().name@);
    }
}

/// One of the mods called `n` is on.
pub open spec fn on_named(mods: Seq<Installed>, n: Seq<char>) -> bool {
    exists|j: int| 0 <= j < mods.len() && #[trigger] mods[j].name@ == n && mods[j].status is On
}

proof fn lemma_live_are_on(mods: Seq<Installed>, n: Seq<char>)
    requires
        named_mod(live(mods), n),
    ensures
        on_named(mods, n),
    decreases mods.len(),
{
    let lv = live(mods);
    let j = choose|j: int| 0 <= j < lv.len() && #[trigger] lv[j].name@ == n;
    if mods.last().status is On && j == lv.len() - 1 {
        assert(mods[mods.len() - 1].name@ == n);
    } else {
        assert(named_mod(live(mods.drop_last()), n)) by {
            assert(live(mods.drop_last())[j] == lv[j]);
        }
        lemma_live_are_on(mods.drop_last(), n);
        let k = choose|k: int| 0 <= k < mods.drop_last().len() && #[trigger] mods.drop_last()[k].name@ == n
            && mods.drop_last()[k].status is On;
        assert(mods[k] == mods.drop_last()[k]);
        assert(on_named(mods, n));
    }
}

proof fn lemma_called_has(lv: Seq<Installed>, n: Seq<char>)
    requires
        named_mod(lv, n),
    ensures
        called(lv, n).contains(n),
    decreases lv.len(),
{
    let j = choose|j: int| 0 <= j < lv.len() && #[trigger] lv[j].name@ == n;
    if lv.last().name@ == n {
        let c = called(lv.drop_last(), n).push(n);
        assert(c[c.len() - 1] == n);
    } else {
        assert(j != lv.len() - 1);
        assert(lv.drop_last()[j] == lv[j]);
        lemma_called_has(lv.drop_last(), n);
    }
}

proof fn lemma_arranged_has(order: Seq<String>, lv: Seq<Installed>, n: Seq<char>)
    requires
        exists|i: int| 0 <= i < order.len() && order[i]@ == n,
        named_mod(lv, n),
    ensures
        arranged(order, lv).contains(n),
    decreases order.len(),
{
    let a = arranged(order.drop_last(), lv);
    let c = called(lv, order.last()@);
    if order.last()@ == n {
        lemma_called_has(lv, n);
        let k = choose|k: int| 0 <= k < c.len() && c[k] == n;
        assert((a + c)[a.len() + k] == n);
    } else {
        let i = choose|i: int| 0 <= i < order.len() && order[i]@ == n;
        assert(i != order.len() - 1);
        assert(order.drop_last()[i] == order[i]);
        lemma_arranged_has(order.drop_last(), lv, n);
        let k = choose|k: int| 0 <= k < a.len() && a[k] == n;
        assert((a + c)[k] == n);
    }
}

proof fn lemma_live_declares(lv: Seq<Installed>, n: Seq<char>)
    requires
        named_mod(lv, n),
    ensures
        declares(declared(lv), n),
{
    let j = choose|j: int| 0 <= j < lv.len() && #[trigger] lv[j].name@ == n;
    assert(declared(lv)[j].0@ == n);
}

/// Nothing is half-applied: every mod `plan` applies is one that is on, so
/// a refused or switched-off mod contributes nothing; and unless their
/// `after` declarations form a ring, every mod that is on is applied.
pub proof fn lemma_applied_are_on(mods: Seq<Installed>, applied: Seq<Seq<char>>, refused: Seq<(Seq<char>, Seq<char>)>)
    requires
        planned(mods, applied, refused),
    ensures
        forall|i: int| 0 <= i < applied.len() ==> on_named(mods, #[trigger] applied[i]),
        !has_loop(declared(live(mods))) ==> forall|n: Seq<char>| #[trigger] named_mod(live(mods), n) ==> applied.contains(n),
{
    let (names, lists, chosen) = choose|names: Seq<Seq<char>>, lists: Seq<Seq<usize>>, chosen: Seq<String>|
        sorted_names(declared(live(mods)), names) && dep_graph(declared(live(mods)), names, lists)
            && ((walked(names, lists) == Ok::<Seq<Seq<char>>, Seq<Seq<char>>>(texts(chosen))
                && !has_loop(declared(live(mods)))
                && lists_each_once(declared(live(mods)), chosen) && respects_after(declared(live(mods)), chosen)
                && applied == arranged(chosen, live(mods)) && refused == scan_refusals(mods))
            || (walked(names, lists) == Err::<Seq<Seq<char>>, Seq<Seq<char>>>(texts(chosen))
                && has_loop(declared(live(mods)))
                && applied == outside(live(mods), chosen)
                && refused == scan_refusals(mods) + ring_refusals(chosen)));
    lemma_arranged_named(chosen, live(mods));
    lemma_outside_named(live(mods), chosen);
    assert forall|i: int| 0 <= i < applied.len() implies on_named(mods, #[trigger] applied[i]) by {
        assert(named_mod(live(mods), applied[i]));
        lemma_live_are_on(mods, applied[i]);
    }
    if !has_loop(declared(live(mods))) {
        assert forall|n: Seq<char>| #[trigger] named_mod(live(mods), n) implies applied.contains(n) by {
            lemma_live_declares(live(mods), n);
            assert(exists|i: int| 0 <= i < chosen.len() && chosen[i]@ == n);
            lemma_arranged_has(chosen, live(mods), n);
        }
    }
}

/// Put the mods that are on in the order their layers are applied, and say
/// which were refused: those the scan refused, and, when the `after`
/// declarations form a ring, every mod in the ring (none of which is
/// applied). Without a ring, the order lists each mod once and puts every
/// mod after each one it names.
#[verifier::rlimit(40)]
pub fn plan(mods: &Vec<Installed>) -> (r: (Vec<String>, Vec<(String, String)>))
    ensures
        !has_loop(declared(live(mods@))) ==> {
            &&& refusal_pairs(r.1@) == scan_refusals(mods@)
            &&& exists|order: Seq<String>| #![trigger arranged(order, live(mods@))]
                lists_each_once(declared(live(mods@)), order) && respects_after(declared(live(mods@)), order)
                    && texts(r.0@) == arranged(order, live(mods@))
        },
        has_loop(declared(live(mods@))) ==> exists|ring: Seq<String>| #![trigger ring_refusals(ring)]
            ring.len() > 0
            && (forall|k: int| 0 <= k < ring.len() ==> declares(declared(live(mods@)), #[trigger] ring[k]@))
            && forms_loop(declared(live(mods@)), texts(ring).push(ring[0]@))
            && (forall|a: int, b: int| 0 <= a < b < ring.len() ==> ring[a]@ != ring[b]@)
            && texts(r.0@) == outside(live(mods@), ring)
            && refusal_pairs(r.1@) == scan_refusals(mods@) + ring_refusals(ring),
        planned(mods@, texts(r.0@), refusal_pairs(r.1@)),
{
    let mut refused: Vec<(String, String)> = Vec::new();
    let mut live_decl: Vec<(String, Vec<String>)> = Vec::new();
    let mut i: usize = 0;
    assert(refusal_pairs(refused@) =~= Seq::<(Seq<char>, Seq<char>)>::empty());
    assert(same_declarations(live_decl@, declared(live(mods@.take(0)))));
    while i < mods.len()
        invariant
            i <= mods@.len(),
            refusal_pairs(refused@) == scan_refusals(mods@.take(i as int)),
            same_declarations(live_decl@, declared(live(mods@.take(i as int)))),
        decreases mods@.len() - i,
    {
        let ghost t = mods@.take(i + 1);
        assert(t.drop_last() == mods@.take(i as int));
        match &mods[i].status {
            Status::Refused(reason) => {
                let ghost before = refusal_pairs(refused@);
                refused.push((mods[i].name.clone(), reason.clone()));
                assert(refusal_pairs(refused@) == before.push((mods@[i as int].name@, reason@)));
                assert(live(t) == live(mods@.take(i as int)));
            },
            Status::On => {
                let after = mods[i].manifest.after.clone();
                assert(after@ == mods@[i as int].manifest.after@);
                let ghost before = live_decl@;
                live_decl.push((mods[i].name.clone(), after));
                assert(live(t) == live(mods@.take(i as int)).push(mods@[i as int]));
                assert(declared(live(t)) == declared(live(mods@.take(i as int))).push((mods@[i as int].name, mods@[i as int].manifest.after)));
                assert(same_declarations(live_decl@, declared(live(t))));
            },
            Status::Off => {
                assert(live(t) == live(mods@.take(i as int)));
            },
        }
        i = i + 1;
    }
    assert(mods@.take(mods@.len() as int) == mods@);
    let ghost lv = live(mods@);
    let ghost d = declared(lv);
    proof {
        lemma_same_declarations(live_decl@, d);
    }
    let mut applied: Vec<String> = Vec::new();
    let result = apply_order(live_decl.as_slice());
    let ghost (gnames, glists) = choose|names: Seq<Seq<char>>, lists: Seq<Seq<usize>>|
        sorted_names(live_decl@, names) && dep_graph(live_decl@, names, lists) && order_view(result) == walked(names, lists);
    proof {
        lemma_same_search_input(live_decl@, d, gnames, glists);
    }
    match result {
        Ok(order) => {
            let mut k: usize = 0;
            assert(texts(applied@) =~= arranged(order@.take(0), lv));
            while k < order.len()
                invariant
                    k <= order@.len(),
                    same_declarations(live_decl@, d),
                    d == declared(lv),
                    texts(applied@) == arranged(order@.take(k as int), lv),
                decreases order@.len() - k,
            {
                let ghost before = texts(applied@);
                let n = chars_of(order[k].as_str());
                called_push(&live_decl, n.as_slice(), &mut applied);
                proof {
                    lemma_called(lv, order@[k as int]@);
                    lemma_called_same(live_decl@, d, order@[k as int]@);
                    assert(order@.take(k + 1).drop_last() == order@.take(k as int));
                }
                k = k + 1;
            }
            assert(order@.take(order@.len() as int) == order@);
            assert(lists_each_once(d, order@) && respects_after(d, order@) && texts(applied@) == arranged(order@, lv));
            assert(order@.map_values(|t: String| t@) =~= texts(order@));
            assert(walked(gnames, glists) == Ok::<Seq<Seq<char>>, Seq<Seq<char>>>(texts(order@)));
            proof {
                lemma_same_declarations(live_decl@, d);
                lemma_planned(mods@, gnames, glists, order@, texts(applied@), refusal_pairs(refused@), true);
            }
            (applied, refused)
        },
        Err(ring) => {
            let mut parts: Vec<Vec<char>> = Vec::new();
            let mut q: usize = 0;
            while q < ring.len()
                invariant
                    q <= ring@.len(),
                    crate::text::char_texts(parts@) == texts(ring@).take(q as int),
                decreases ring@.len() - q,
            {
                let ghost before = crate::text::char_texts(parts@);
                let c = chars_of(ring[q].as_str());
                parts.push(c);
                assert(crate::text::char_texts(parts@) == before.push(c@));
                q = q + 1;
                assert(texts(ring@).take(q as int) == texts(ring@).take(q - 1).push(texts(ring@)[q - 1]));
            }
            assert(texts(ring@).take(ring@.len() as int) == texts(ring@));
            let names = crate::text::join_chars(&parts, chars_of(", ").as_slice());
            let mut note = chars_of("\"after\" forms a loop with ");
            push_all(&mut note, names.as_slice());
            push_all(&mut note, chars_of(", so none of them were applied").as_slice());
            let ghost head = refusal_pairs(refused@);
            let mut j: usize = 0;
            while j < ring.len()
                invariant
                    j <= ring@.len(),
                    note@ == loop_note(joined_with(texts(ring@), ", "@)),
                    refusal_pairs(refused@) == head + ring_refusals(ring@).take(j as int),
                decreases ring@.len() - j,
            {
                let ghost before = refusal_pairs(refused@);
                refused.push((ring[j].clone(), string_of(note.as_slice())));
                assert(refusal_pairs(refused@) == before.push((ring@[j as int]@, note@)));
                j = j + 1;
                assert(ring_refusals(ring@).take(j as int) == ring_refusals(ring@).take(j - 1).push(ring_refusals(ring@)[j - 1]));
            }
            assert(ring_refusals(ring@).take(ring@.len() as int) == ring_refusals(ring@));
            let mut m: usize = 0;
            assert(texts(applied@) =~= outside(live(mods@.take(0)), ring@));
            while m < mods.len()
                invariant
                    m <= mods@.len(),
                    texts(applied@) == outside(live(mods@.take(m as int)), ring@),
                decreases mods@.len() - m,
            {
                let ghost t = mods@.take(m + 1);
                assert(t.drop_last() == mods@.take(m as int));
                let on = match mods[m].status {
                    Status::On => true,
                    _ => false,
                };
                if !on {
                    assert(live(t) == live(mods@.take(m as int)));
                }
                if on {
                    assert(live(t) == live(mods@.take(m as int)).push(mods@[m as int]));
                    assert(live(t).drop_last() =~= live(mods@.take(m as int)));
                    assert(live(t).last() == mods@[m as int]);
                    if !contains_text(&ring, chars_of(mods[m].name.as_str()).as_slice()) {
                        let ghost before = texts(applied@);
                        let n = mods[m].name.clone();
                        applied.push(n);
                        assert(texts(applied@) == before.push(n@));
                    }
                }
                m = m + 1;
            }
            assert(mods@.take(mods@.len() as int) == mods@);
            assert(ring_refusals(ring@) == ring_refusals(ring@));
            assert(ring@.map_values(|t: String| t@) =~= texts(ring@));
            assert(walked(gnames, glists) == Err::<Seq<Seq<char>>, Seq<Seq<char>>>(texts(ring@)));
            proof {
                lemma_same_declarations(live_decl@, d);
                lemma_planned(mods@, gnames, glists, ring@, texts(applied@), refusal_pairs(refused@), false);
                let path = texts(ring@).push(ring@[0]@);
                assert forall|k: int| 0 <= k < path.len() - 1 implies #[trigger] must_follow(d, path[k], path[k + 1]) by {
                    assert(must_follow(live_decl@, path[k], path[k + 1]));
                }
                assert(forms_loop(d, path));
            }
            (applied, refused)
        },
    }
}

/// What the Settings window is told about one mod, beside the mod itself:
/// whether it grants commands, its settings as JSON, and what the server
/// said about its tables the last time it started (if it said anything).
pub struct Listing {
    pub installed: Installed,
    pub grants: bool,
    pub settings: String,
    pub reported: Option<Vec<String>>,
}

/// The state word the list shows.
pub open spec fn state_word(s: Status) -> Seq<char> {
    match s {
        Status::On => "on"@,
        Status::Off => "off"@,
        Status::Refused(_) => "refused"@,
    }
}

pub open spec fn reason_text(s: Status) -> Seq<char> {
    match s {
        Status::Refused(r) => r@,
        _ => seq![],
    }
}

/// What the server said, as a JSON array of strings.
pub open spec fn reported_text(r: Option<Vec<String>>) -> Seq<char> {
    match r {
        None => "[]"@,
        Some(list) => seq!['['] + joined_with(texts(list@).map_values(|t: Seq<char>| crate::json::quoted(t)), ","@)
            + seq![']'],
    }
}

/// One line of the list, field by field: state, name, description, the
/// reason a refused mod was refused, where it came from, its version and
/// author, whether it grants commands, its settings, and what the server
/// said about its tables. Text a stranger wrote is flattened onto one line.
pub open spec fn row_of(l: Listing) -> Seq<Seq<char>> {
    seq![
        state_word(l.installed.status),
        flattened(l.installed.name@),
        flattened(l.installed.manifest@.description),
        flattened(reason_text(l.installed.status)),
        if l.installed.bundled { "bundled"@ } else { "installed"@ },
        flattened(l.installed.manifest@.version),
        flattened(l.installed.manifest@.author),
        if l.grants { "grants-commands"@ } else { seq![] },
        l.settings@,
        reported_text(l.reported),
    ]
}

fn flat_string(s: &str) -> (out: String)
    ensures
        out@ == flattened(s@),
{
    string_of(one_line_of(chars_of(s).as_slice()).as_slice())
}

fn reported_of(r: &Option<Vec<String>>) -> (out: String)
    ensures
        out@ == reported_text(*r),
{
    match r {
        None => string_of(chars_of("[]").as_slice()),
        Some(list) => {
            let mut parts: Vec<Vec<char>> = Vec::new();
            let mut i: usize = 0;
            while i < list.len()
                invariant
                    i <= list@.len(),
                    crate::text::char_texts(parts@) == texts(list@).take(i as int).map_values(|t: Seq<char>| crate::json::quoted(t)),
                decreases list@.len() - i,
            {
                let mut q: Vec<char> = Vec::new();
                crate::json::push_quoted(&mut q, chars_of(list[i].as_str()).as_slice());
                let ghost before = crate::text::char_texts(parts@);
                parts.push(q);
                assert(crate::text::char_texts(parts@) == before.push(q@));
                i = i + 1;
                assert(texts(list@).take(i as int).map_values(|t: Seq<char>| crate::json::quoted(t))
                    == texts(list@).take(i - 1).map_values(|t: Seq<char>| crate::json::quoted(t)).push(crate::json::quoted(texts(list@)[i - 1])));
            }
            assert(texts(list@).take(list@.len() as int) == texts(list@));
            let mut out: Vec<char> = vec!['['];
            push_all(&mut out, crate::text::join_chars(&parts, chars_of(",").as_slice()).as_slice());
            out.push(']');
            string_of(out.as_slice())
        },
    }
}

/// One line of the list the Settings window draws.
pub fn list_row(l: &Listing) -> (row: [String; 10])
    ensures
        texts(row@) == row_of(*l),
{
    let m = &l.installed;
    let (state, reason) = match &m.status {
        Status::On => ("on", string_of(Vec::<char>::new().as_slice())),
        Status::Off => ("off", string_of(Vec::<char>::new().as_slice())),
        Status::Refused(r) => ("refused", r.clone()),
    };
    let row = [
        string_of(chars_of(state).as_slice()),
        flat_string(m.name.as_str()),
        flat_string(m.manifest.description.as_str()),
        flat_string(reason.as_str()),
        string_of(chars_of(if m.bundled { "bundled" } else { "installed" }).as_slice()),
        flat_string(m.manifest.version.as_str()),
        flat_string(m.manifest.author.as_str()),
        string_of(chars_of(if l.grants { "grants-commands" } else { "" }).as_slice()),
        l.settings.clone(),
        reported_of(&l.reported),
    ];
    proof {
        reveal_strlit("");
    }
    assert(row@.len() == 10);
    assert(texts(row@)[0] == row_of(*l)[0]);
    assert(texts(row@)[1] == row_of(*l)[1]);
    assert(texts(row@)[2] == row_of(*l)[2]);
    assert(texts(row@)[3] == row_of(*l)[3]);
    assert(texts(row@)[4] == row_of(*l)[4]);
    assert(texts(row@)[5] == row_of(*l)[5]);
    assert(texts(row@)[6] == row_of(*l)[6]);
    assert(texts(row@)[7] == row_of(*l)[7]);
    assert(texts(row@)[8] == row_of(*l)[8]);
    assert(texts(row@)[9] == row_of(*l)[9]);
    assert(texts(row@) =~= row_of(*l));
    row
}

/// What is installed, and whether each one is on, for the Settings window.
pub fn list(entries: &Vec<Listing>) -> (rows: Vec<[String; 10]>)
    ensures
        rows@.len() == entries@.len(),
        forall|i: int| 0 <= i < entries@.len() ==> texts((#[trigger] rows@[i])@) == row_of(entries@[i]),
{
    let mut rows: Vec<[String; 10]> = Vec::new();
    let mut i: usize = 0;
    while i < entries.len()
        invariant
            i <= entries@.len(),
            rows@.len() == i,
            forall|k: int| 0 <= k < i ==> texts((#[trigger] rows@[k])@) == row_of(entries@[k]),
        decreases entries@.len() - i,
    {
        rows.push(list_row(&entries[i]));
        i = i + 1;
    }
    rows
}

/// Reading a list of names from `at`: each line trimmed, blank lines and `#`
/// comments skipped.
pub open spec fn listed_names(body: Seq<char>, at: int) -> Seq<Seq<char>>
    decreases body.len() - at,
{
    if at < 0 || at >= body.len() {
        seq![]
    } else {
        proof {
            lemma_line_end(body, at);
        }
        let t = trim(line_at(body, at));
        if t.len() == 0 || t[0] == '#' {
            listed_names(body, line_end(body, at))
        } else {
            seq![t] + listed_names(body, line_end(body, at))
        }
    }
}

/// One of the two lists of explicit choices, read: a name per line.
pub fn read_list(body: &str) -> (out: Vec<String>)
    ensures
        texts(out@) == listed_names(body@, 0),
{
    let b = chars_of(body);
    let mut out: Vec<String> = Vec::new();
    let mut at: usize = 0;
    assert(texts(out@) =~= Seq::<Seq<char>>::empty());
    while at < b.len()
        invariant
            at <= b@.len(),
            b@ == body@,
            listed_names(body@, 0) == texts(out@) + listed_names(body@, at as int),
        decreases b@.len() - at,
    {
        proof {
            lemma_line_end(b@, at as int);
        }
        let e = line_end_of(b.as_slice(), at);
        let t = trim_of(slice_of(b.as_slice(), at, e).as_slice());
        if !(t.len() == 0 || t[0] == '#') {
            let ghost before = texts(out@);
            out.push(string_of(t.as_slice()));
            assert(texts(out@) == before.push(t@));
        }
        at = e;
    }
    out
}

/// Ordered by code point, repeats side by side.
pub open spec fn in_order(s: Seq<Seq<char>>) -> bool {
    forall|i: int, j: int| 0 <= i < j < s.len() ==> !lex_lt(#[trigger] s[j], #[trigger] s[i])
}

/// The names of `s` other than `n`, in order.
pub open spec fn without_name(s: Seq<Seq<char>>, n: Seq<char>) -> Seq<Seq<char>>
    decreases s.len(),
{
    if s.len() == 0 {
        seq![]
    } else if s.last() == n {
        without_name(s.drop_last(), n)
    } else {
        without_name(s.drop_last(), n).push(s.last())
    }
}

/// The names a list holds after the choice: every other name it held, and
/// `name` when it belongs on the list.
pub open spec fn chosen_names(names: Seq<Seq<char>>, name: Seq<char>, present: bool) -> Seq<Seq<char>> {
    if present {
        without_name(names, name).push(name)
    } else {
        without_name(names, name)
    }
}

/// Two lists in order holding the same names, as many times each, are the
/// same list: the names a list file is written with are the only ones.
pub proof fn lemma_in_order_unique(a: Seq<Seq<char>>, b: Seq<Seq<char>>)
    requires
        in_order(a),
        in_order(b),
        a.to_multiset() == b.to_multiset(),
    ensures
        a == b,
    decreases a.len(),
{
    broadcast use vstd::seq_lib::to_multiset_contains, vstd::seq_lib::to_multiset_len, vstd::seq_lib::to_multiset_remove;
    if a.len() == 0 {
        assert(a.to_multiset().len() == 0);
        assert(b.to_multiset().len() == b.len());
        assert(a =~= b);
    } else {
        assert(a.to_multiset().len() == a.len());
        assert(b.to_multiset().len() == b.len());
        assert(b.len() == a.len());
        assert(a.contains(a[0]));
        assert(a.to_multiset().count(a[0]) > 0);
        assert(b.contains(a[0]));
        let k = choose|k: int| 0 <= k < b.len() && b[k] == a[0];
        assert(b.contains(b[0]));
        assert(b.to_multiset().count(b[0]) > 0);
        assert(a.contains(b[0]));
        let t = choose|t: int| 0 <= t < a.len() && a[t] == b[0];
        if k > 0 {
            assert(!lex_lt(b[k], b[0]));
        }
        if t > 0 {
            assert(!lex_lt(a[t], a[0]));
        }
        lemma_lex_total(a[0], b[0]);
        assert(a[0] == b[0]);
        let a2 = a.remove(0);
        let b2 = b.remove(0);
        assert(a2.to_multiset() == a.to_multiset().remove(a[0]));
        assert(b2.to_multiset() == b.to_multiset().remove(b[0]));
        assert forall|i: int, j: int| 0 <= i < j < a2.len() implies !lex_lt(#[trigger] a2[j], #[trigger] a2[i]) by {
            assert(a2[i] == a[i + 1] && a2[j] == a[j + 1]);
        }
        assert forall|i: int, j: int| 0 <= i < j < b2.len() implies !lex_lt(#[trigger] b2[j], #[trigger] b2[i]) by {
            assert(b2[i] == b[i + 1] && b2[j] == b[j + 1]);
        }
        lemma_in_order_unique(a2, b2);
        assert forall|i: int| 0 <= i < a.len() implies a[i] == b[i] by {
            if i > 0 {
                assert(a[i] == a2[i - 1] && b[i] == b2[i - 1]);
            }
        }
        assert(a =~= b);
    }
}

/// A list file: its header, a line saying who manages it, and the names.
pub open spec fn list_file_text(header: Seq<char>, sorted: Seq<Seq<char>>) -> Seq<char> {
    header + "\n# Managed from Settings; one name per line.\n"@ + joined_with(sorted, "\n"@) + "\n"@
}

fn insert_in_order(out: &mut Vec<String>, x: String)
    requires
        in_order(texts(old(out)@)),
    ensures
        in_order(texts(final(out)@)),
        texts(final(out)@).to_multiset() == texts(old(out)@).to_multiset().insert(x@),
{
    let xc = chars_of(x.as_str());
    let mut j: usize = 0;
    while j < out.len() && compare(chars_of(out[j].as_str()).as_slice(), xc.as_slice()) <= 0
        invariant
            j <= out@.len(),
            xc@ == x@,
            in_order(texts(out@)),
            forall|k: int| 0 <= k < j ==> !lex_lt(x@, #[trigger] texts(out@)[k]),
        decreases out@.len() - j,
    {
        j = j + 1;
    }
    let ghost before = texts(out@);
    proof {
        if j < out@.len() {
            lemma_lex_total(before[j as int], x@);
        }
    }
    out.insert(j, x);
    assert(texts(out@) == before.insert(j as int, x@));
    proof {
        vstd::seq_lib::to_multiset_insert(before, j as int, x@);
        assert forall|a: int, b: int| 0 <= a < b < texts(out@).len() implies !lex_lt(#[trigger] texts(out@)[b], #[trigger] texts(out@)[a]) by {
            let s = texts(out@);
            if b < j {
                assert(s[a] == before[a] && s[b] == before[b]);
            } else if b == j {
                assert(s[a] == before[a]);
            } else if a == j {
                assert(s[b] == before[b - 1]);
                if b - 1 > j {
                    if lex_lt(before[b - 1], x@) {
                        assert(!lex_lt(before[b - 1], before[j as int]));
                        lemma_lex_transitive(before[b - 1], x@, before[j as int]);
                        lemma_lex_asymmetric(x@, before[j as int]);
                    }
                } else {
                    lemma_lex_asymmetric(x@, before[j as int]);
                }
            } else if a < j {
                assert(s[a] == before[a] && s[b] == before[b - 1]);
            } else {
                assert(s[a] == before[a - 1] && s[b] == before[b - 1]);
            }
        }
    }
}

/// The body of one list of choices after `name` is put on it (`present`) or
/// taken off, the names in code-point order.
pub fn write_list(names: Vec<String>, name: &str, present: bool, header: &str) -> (out: String)
    ensures
        exists|sorted: Seq<Seq<char>>| #![trigger list_file_text(header@, sorted)]
            in_order(sorted) && sorted.to_multiset() == chosen_names(texts(names@), name@, present).to_multiset()
                && out@ == list_file_text(header@, sorted),
{
    let (out, Ghost(sorted)) = list_file(names, name, present, header);
    assert(in_order(sorted) && sorted.to_multiset() == chosen_names(texts(names@), name@, present).to_multiset()
        && out@ == list_file_text(header@, sorted));
    out
}

fn list_file(names: Vec<String>, name: &str, present: bool, header: &str) -> (r: (String, Ghost<Seq<Seq<char>>>))
    ensures
        in_order(r.1@),
        r.1@.to_multiset() == chosen_names(texts(names@), name@, present).to_multiset(),
        r.0@ == list_file_text(header@, r.1@),
{
    let n = chars_of(name);
    let mut kept: Vec<String> = Vec::new();
    let mut i: usize = 0;
    assert(texts(kept@) =~= Seq::<Seq<char>>::empty());
    while i < names.len()
        invariant
            i <= names@.len(),
            n@ == name@,
            texts(kept@) == without_name(texts(names@).take(i as int), name@),
        decreases names@.len() - i,
    {
        let ghost t = texts(names@).take(i + 1);
        assert(t.drop_last() == texts(names@).take(i as int));
        if !same(chars_of(names[i].as_str()).as_slice(), n.as_slice()) {
            let ghost before = texts(kept@);
            let x = names[i].clone();
            kept.push(x);
            assert(texts(kept@) == before.push(x@));
        }
        i = i + 1;
    }
    assert(texts(names@).take(names@.len() as int) == texts(names@));
    if present {
        let ghost before = texts(kept@);
        kept.push(string_of(n.as_slice()));
        assert(texts(kept@) == before.push(name@));
    }
    let ghost want = chosen_names(texts(names@), name@, present);
    assert(texts(kept@) == want);
    let mut sorted: Vec<String> = Vec::new();
    let mut k: usize = 0;
    assert(texts(sorted@) =~= texts(kept@).take(0));
    while k < kept.len()
        invariant
            k <= kept@.len(),
            in_order(texts(sorted@)),
            texts(sorted@).to_multiset() == texts(kept@).take(k as int).to_multiset(),
        decreases kept@.len() - k,
    {
        let x = kept[k].clone();
        let ghost t = texts(kept@).take(k + 1);
        assert(t == texts(kept@).take(k as int).push(x@));
        proof {
            vstd::seq_lib::to_multiset_build(texts(kept@).take(k as int), x@);
        }
        insert_in_order(&mut sorted, x);
        k = k + 1;
    }
    assert(texts(kept@).take(kept@.len() as int) == texts(kept@));
    let mut parts: Vec<Vec<char>> = Vec::new();
    let mut q: usize = 0;
    while q < sorted.len()
        invariant
            q <= sorted@.len(),
            crate::text::char_texts(parts@) == texts(sorted@).take(q as int),
        decreases sorted@.len() - q,
    {
        let c = chars_of(sorted[q].as_str());
        let ghost before = crate::text::char_texts(parts@);
        parts.push(c);
        assert(crate::text::char_texts(parts@) == before.push(c@));
        q = q + 1;
        assert(texts(sorted@).take(q as int) == texts(sorted@).take(q - 1).push(texts(sorted@)[q - 1]));
    }
    assert(texts(sorted@).take(sorted@.len() as int) == texts(sorted@));
    let mut body = chars_of(header);
    push_all(&mut body, chars_of("\n# Managed from Settings; one name per line.\n").as_slice());
    push_all(&mut body, crate::text::join_chars(&parts, chars_of("\n").as_slice()).as_slice());
    push_all(&mut body, chars_of("\n").as_slice());
    assert(body@ == list_file_text(header@, texts(sorted@)));
    (string_of(body.as_slice()), Ghost(texts(sorted@)))
}

/// Turn one mod on or off, leaving the rest alone: the new bodies of the
/// list of mods switched off and the list of mods switched on, given what
/// each holds now. The name goes on exactly one of them.
pub fn set_enabled(disabled: Vec<String>, enabled: Vec<String>, name: &str, on: bool) -> (r: (String, String))
    ensures
        exists|sorted: Seq<Seq<char>>| #![trigger list_file_text(off_header(), sorted)]
            in_order(sorted) && sorted.to_multiset() == chosen_names(texts(disabled@), name@, !on).to_multiset()
                && r.0@ == list_file_text(off_header(), sorted),
        exists|sorted: Seq<Seq<char>>| #![trigger list_file_text(on_header(), sorted)]
            in_order(sorted) && sorted.to_multiset() == chosen_names(texts(enabled@), name@, on).to_multiset()
                && r.1@ == list_file_text(on_header(), sorted),
{
    let (off, Ghost(s0)) = list_file(disabled, name, !on, "# Mods listed here are installed but switched off.");
    let (onf, Ghost(s1)) = list_file(enabled, name, on, "# Mods listed here are switched on, including any that ship switched off.");
    assert(off@ == list_file_text(off_header(), s0));
    assert(onf@ == list_file_text(on_header(), s1));
    (off, onf)
}

pub open spec fn off_header() -> Seq<char> {
    "# Mods listed here are installed but switched off."@
}

pub open spec fn on_header() -> Seq<char> {
    "# Mods listed here are switched on, including any that ship switched off."@
}

/// What assembling the enabled mods produced, for the server to be given.
pub struct Assembled {
    /// Directory to bind at `/rathena/db/import`, if any mod ships tables.
    pub db: Option<String>,
    /// Directory to bind at `/rathena/npc/mods`, if any mod ships scripts.
    pub npc: Option<String>,
    /// `npc:` lines for map_conf.txt, naming each script.
    pub npc_lines: String,
    /// `map:` lines for map_conf.txt, one per custom map.
    pub map_lines: String,
    /// Settings a mod asked for, keyed by the conf file they belong in,
    /// already filtered against the allowlist.
    pub conf: Vec<(String, Vec<(String, String)>)>,
    /// Custom maps that reached the map cache.
    pub maps: Vec<String>,
    /// The mods applied, in the order they were applied.
    pub names: Vec<String>,
    /// Mods that were installed and not applied, with the reason.
    pub refused: Vec<(String, String)>,
}

impl Assembled {
    /// Nothing assembled, nothing refused.
    pub fn empty() -> (a: Assembled)
        ensures
            a.db is None,
            a.npc is None,
            a.npc_lines@ == Seq::<char>::empty(),
            a.map_lines@ == Seq::<char>::empty(),
            a.conf@.len() == 0,
            a.maps@.len() == 0,
            a.names@.len() == 0,
            a.refused@.len() == 0,
    {
        Assembled {
            db: None,
            npc: None,
            npc_lines: string_of(Vec::<char>::new().as_slice()),
            map_lines: string_of(Vec::<char>::new().as_slice()),
            conf: Vec::new(),
            maps: Vec::new(),
            names: Vec::new(),
            refused: Vec::new(),
        }
    }
}

/// One `<kind>: <item>` line per item.
pub open spec fn directives(kind: Seq<char>, items: Seq<Seq<char>>) -> Seq<char>
    decreases items.len(),
{
    if items.len() == 0 {
        seq![]
    } else {
        directives(kind, items.drop_last()) + kind + ": "@ + items.last() + seq!['\n']
    }
}

/// `npc:` lines naming scripts, or `map:` lines naming maps, for
/// map_conf.txt.
pub fn directive_lines(kind: &str, items: &[String]) -> (out: String)
    ensures
        out@ == directives(kind@, texts(items@)),
{
    let mut out: Vec<char> = Vec::new();
    let mut i: usize = 0;
    while i < items.len()
        invariant
            i <= items@.len(),
            out@ == directives(kind@, texts(items@).take(i as int)),
        decreases items@.len() - i,
    {
        push_all(&mut out, chars_of(kind).as_slice());
        push_all(&mut out, chars_of(": ").as_slice());
        push_all(&mut out, chars_of(items[i].as_str()).as_slice());
        out.push('\n');
        i = i + 1;
        assert(texts(items@).take(i as int).drop_last() == texts(items@).take(i - 1));
    }
    assert(texts(items@).take(items@.len() as int) == texts(items@));
    string_of(out.as_slice())
}

/// What is said against a mod whose copy of a `db/` file could not be
/// combined with a later mod's: only the later copy is in effect.
pub open spec fn clash_text(child: Seq<char>, owner: Seq<char>) -> Seq<char> {
    "db/"@ + child + " is also supplied by "@ + owner + ", and the two could not be combined, so only "@
        + owner + "'s copy is in effect."@
}

pub fn clash_message(child: &str, owner: &str) -> (out: String)
    ensures
        out@ == clash_text(child@, owner@),
{
    let mut m = chars_of("db/");
    push_all(&mut m, chars_of(child).as_slice());
    push_all(&mut m, chars_of(" is also supplied by ").as_slice());
    push_all(&mut m, chars_of(owner).as_slice());
    push_all(&mut m, chars_of(", and the two could not be combined, so only ").as_slice());
    push_all(&mut m, chars_of(owner).as_slice());
    push_all(&mut m, chars_of("'s copy is in effect.").as_slice());
    string_of(m.as_slice())
}

/// What becomes of a `db/` file a mod supplies when it arrives in the
/// merged tree.
#[derive(Debug, PartialEq)]
pub enum Arrival {
    /// Written as it came: no other mod supplied it before, or the same one did.
    Copied,
    /// Combined with the copy already there, into this.
    Merged(String),
    /// Could not be combined, so written as it came and said, with this
    /// message, against the mod whose copy is no longer in effect.
    Clashed(String, String),
}

pub open spec fn arrival_view(a: Arrival) -> (int, Seq<char>, Seq<char>) {
    match a {
        Arrival::Copied => (0, seq![], seq![]),
        Arrival::Merged(m) => (1, m@, seq![]),
        Arrival::Clashed(o, m) => (2, o@, m@),
    }
}

/// A file `owner` supplies at `child`, after `before` (who supplied it last,
/// if anyone did): copied when nobody else did, otherwise combined with the
/// copy there (`existing`) when both copies read as text and combine, and
/// otherwise a clash said against `before`.
pub open spec fn arrival_of(
    before: Option<Seq<char>>,
    owner: Seq<char>,
    child: Seq<char>,
    existing: Option<Seq<char>>,
    incoming: Option<Seq<char>>,
) -> (int, Seq<char>, Seq<char>) {
    match before {
        None => (0, seq![], seq![]),
        Some(b) => if b == owner {
            (0, seq![], seq![])
        } else {
            match (existing, incoming) {
                (Some(e), Some(i)) => match crate::tables::merged(e, i) {
                    Some(m) => (1, m, seq![]),
                    None => (2, b, clash_text(child, owner)),
                },
                _ => (2, b, clash_text(child, owner)),
            }
        },
    }
}

pub open spec fn text_opt(s: Option<&str>) -> Option<Seq<char>> {
    match s {
        Some(t) => Some(t@),
        None => None,
    }
}

/// Whether `arrival` can take these copies: two tables of one kind whose
/// incoming copy has its `Footer:` above its `Body:` cannot be combined.
pub open spec fn arrival_in_order(existing: Option<Seq<char>>, incoming: Option<Seq<char>>) -> bool {
    match (existing, incoming) {
        (Some(e), Some(i)) => !crate::tables::merge_out_of_order(e, i),
        _ => true,
    }
}

/// What becomes of a `db/` file `owner` supplies at `child`. Two mods'
/// copies of one table are combined, as rAthena would have read both; when
/// they cannot be, the later copy is the one in effect, and that is said
/// against the earlier mod.
pub fn arrival(
    before: Option<&str>,
    owner: &str,
    child: &str,
    existing: Option<&str>,
    incoming: Option<&str>,
) -> (r: Arrival)
    requires
        arrival_in_order(text_opt(existing), text_opt(incoming)),
    ensures
        arrival_view(r) == arrival_of(text_opt(before), owner@, child@, text_opt(existing), text_opt(incoming)),
{
    let b = match before {
        None => return Arrival::Copied,
        Some(b) => b,
    };
    if same(chars_of(b).as_slice(), chars_of(owner).as_slice()) {
        return Arrival::Copied;
    }
    let combined = match (existing, incoming) {
        (Some(e), Some(i)) => crate::tables::merge_tables(e, i),
        _ => None,
    };
    match combined {
        Some(m) => Arrival::Merged(m),
        None => Arrival::Clashed(string_of(chars_of(b).as_slice()), clash_message(child, owner)),
    }
}

/// Whether a custom map's name fits rAthena's map names: at most eleven
/// bytes.
pub fn fits_map_name(name: &str) -> (r: bool)
    ensures
        r == (name.len() < 12),
{
    name.len() < 12
}

} // verus!

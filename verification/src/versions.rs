//! Version rules: what a mod asks of the app's version, and how two versions
//! compare.

use vstd::prelude::*;
use std::cmp::Ordering;
use crate::text::{
    chars_of, is_prefix, parse_u64, parse_u64_of, push_all, slice_of, starts_with, string_of,
    trim, trim_of,
};

verus! {

/// Where the dotted numbers of a version end: at the first `-` or `+`, or
/// at the end.
pub open spec fn numbers_end(s: Seq<char>, k: int) -> int
    decreases s.len() - k,
{
    if k < 0 || k >= s.len() || s[k] == '-' || s[k] == '+' {
        k
    } else {
        numbers_end(s, k + 1)
    }
}

/// The first `.` at or after `k`.
pub open spec fn next_dot(s: Seq<char>, k: int) -> Option<int>
    decreases s.len() - k,
{
    if k < 0 || k >= s.len() {
        None
    } else if s[k] == '.' {
        Some(k)
    } else {
        next_dot(s, k + 1)
    }
}

pub proof fn lemma_next_dot(s: Seq<char>, k: int)
    requires
        0 <= k,
    ensures
        next_dot(s, k) matches Some(d) ==> k <= d < s.len(),
    decreases s.len() - k,
{
    if k < s.len() && s[k] != '.' {
        lemma_next_dot(s, k + 1);
    }
}

/// `s` cut at every `.`, as `str::split('.')` cuts it.
pub open spec fn pieces(s: Seq<char>) -> Seq<Seq<char>>
    decreases s.len(),
{
    match next_dot(s, 0) {
        None => seq![s],
        Some(d) => {
            proof {
                lemma_next_dot(s, 0);
            }
            seq![s.take(d)] + pieces(s.skip(d + 1))
        },
    }
}

/// One piece of a version as a number: its trimmed digits, or zero.
pub open spec fn piece_value(p: Seq<char>) -> u64 {
    match parse_u64(trim(p)) {
        Some(n) => n,
        None => 0,
    }
}

/// The numbers of a version: dotted pieces before any `-` or `+`, each read
/// as a number and anything unreadable read as zero.
pub open spec fn version_parts(s: Seq<char>) -> Seq<u64> {
    pieces(s.take(numbers_end(s, 0))).map_values(|p: Seq<char>| piece_value(p))
}

/// The `i`th number, or zero past the end.
pub open spec fn part(p: Seq<u64>, i: int) -> u64 {
    if 0 <= i < p.len() {
        p[i]
    } else {
        0
    }
}

/// Comparing two lists of numbers from position `i`, missing ones read as zero.
pub open spec fn parts_order(a: Seq<u64>, b: Seq<u64>, i: int) -> Ordering
    decreases a.len() + b.len() - i,
{
    if i < 0 || (i >= a.len() && i >= b.len()) {
        Ordering::Equal
    } else if part(a, i) < part(b, i) {
        Ordering::Less
    } else if part(a, i) > part(b, i) {
        Ordering::Greater
    } else {
        parts_order(a, b, i + 1)
    }
}

/// How version `a` compares with version `b`.
pub open spec fn version_order(a: Seq<char>, b: Seq<char>) -> Ordering {
    parts_order(version_parts(a), version_parts(b), 0)
}

/// How long `s` is, as an integer.
pub open spec fn length(s: Seq<char>) -> int {
    s.len() as int
}

/// A position, as a number.
pub open spec fn index(i: usize) -> int {
    i as int
}

/// The order the other way round.
pub open spec fn flipped(o: Ordering) -> Ordering {
    match o {
        Ordering::Less => Ordering::Greater,
        Ordering::Equal => Ordering::Equal,
        Ordering::Greater => Ordering::Less,
    }
}

proof fn lemma_parts_order_flip(a: Seq<u64>, b: Seq<u64>, i: int)
    ensures
        parts_order(a, b, i) == flipped(parts_order(b, a, i)),
    decreases a.len() + b.len() - i,
{
    if !(i < 0 || (i >= a.len() && i >= b.len())) && part(a, i) == part(b, i) {
        lemma_parts_order_flip(a, b, i + 1);
    }
}

proof fn lemma_parts_order_same(a: Seq<u64>, i: int)
    ensures
        parts_order(a, a, i) == Ordering::Equal,
    decreases a.len() + a.len() - i,
{
    if !(i < 0 || i >= a.len()) {
        lemma_parts_order_same(a, i + 1);
    }
}

/// Comparing versions is consistent both ways round: `a` is below `b`
/// exactly when `b` is above `a`, they are equal in both directions or in
/// neither, and every version equals itself.
pub proof fn lemma_version_order_consistent(a: Seq<char>, b: Seq<char>)
    ensures
        version_order(a, b) == flipped(version_order(b, a)),
        version_order(a, a) == Ordering::Equal,
{
    lemma_parts_order_flip(version_parts(a), version_parts(b), 0);
    lemma_parts_order_same(version_parts(a), 0);
}

proof fn lemma_trailing_zero(a: Seq<u64>, b: Seq<u64>, i: int)
    requires
        0 <= i,
    ensures
        parts_order(a.push(0), b, i) == parts_order(a, b, i),
    decreases a.len() + 1 + b.len() - i,
{
    assert(part(a.push(0), i) == part(a, i));
    if i >= a.len() && i >= b.len() {
        if i < a.len() + 1 {
            assert(part(b, i) == 0);
            assert(parts_order(a.push(0), b, i + 1) == Ordering::Equal);
        }
    } else if part(a, i) == part(b, i) {
        lemma_trailing_zero(a, b, i + 1);
    }
}

/// Missing numbers read as zero: a version compares the same with a `.0`
/// more on the end, on either side (`1.1` is `1.1.0`).
pub proof fn lemma_missing_parts_are_zero(a: Seq<u64>, b: Seq<u64>)
    ensures
        parts_order(a.push(0), b, 0) == parts_order(a, b, 0),
        parts_order(b, a.push(0), 0) == parts_order(b, a, 0),
{
    lemma_trailing_zero(a, b, 0);
    lemma_parts_order_flip(b, a.push(0), 0);
    lemma_parts_order_flip(b, a, 0);
}

proof fn lemma_numbers_end_at(s: Seq<char>, k: int, e: int)
    requires
        0 <= k <= e <= s.len(),
        forall|j: int| k <= j < e ==> s[j] != '-' && s[j] != '+',
        e == s.len() || s[e] == '-' || s[e] == '+',
    ensures
        numbers_end(s, k) == e,
    decreases e - k,
{
    if k < e {
        lemma_numbers_end_at(s, k + 1, e);
    }
}

/// A pre-release or build suffix is dropped rather than ordered: a version
/// with `-` and anything after it compares as the version alone.
pub proof fn lemma_suffix_is_dropped(v: Seq<char>, tail: Seq<char>, other: Seq<char>)
    requires
        forall|k: int| 0 <= k < v.len() ==> v[k] != '-' && v[k] != '+',
    ensures
        version_order(v + seq!['-'] + tail, other) == version_order(v, other),
        version_order(other, v + seq!['-'] + tail) == version_order(other, v),
{
    let w = v + seq!['-'] + tail;
    lemma_numbers_end_at(w, 0, length(v));
    lemma_numbers_end_at(v, 0, length(v));
    assert(w.take(length(v)) == v);
    assert(v.take(length(v)) == v);
}

fn parts_of(s: &str) -> (out: Vec<u64>)
    ensures
        out@ == version_parts(s@),
{
    let c = chars_of(s);
    let mut e: usize = 0;
    while e < c.len() && c[e] != '-' && c[e] != '+'
        invariant
            e <= c@.len(),
            numbers_end(c@, 0) == numbers_end(c@, e as int),
        decreases c@.len() - e,
    {
        e = e + 1;
    }
    let head = slice_of(c.as_slice(), 0, e);
    assert(head@ == s@.take(numbers_end(s@, 0)));
    let mut out: Vec<u64> = Vec::new();
    let mut start: usize = 0;
    let ghost whole = pieces(head@).map_values(|p: Seq<char>| piece_value(p));
    assert(head@.skip(0) == head@);
    assert(whole == version_parts(s@));
    loop
        invariant
            start <= head@.len(),
            whole == version_parts(s@),
            whole == pieces(head@).map_values(|p: Seq<char>| piece_value(p)),
            whole == out@ + pieces(head@.skip(start as int)).map_values(|p: Seq<char>| piece_value(p)),
        decreases head@.len() - start,
    {
        let ghost rest = head@.skip(start as int);
        let mut k = start;
        while k < head.len() && head[k] != '.'
            invariant
                start <= k <= head@.len(),
                rest == head@.skip(start as int),
                next_dot(rest, 0) == next_dot(rest, k - start),
            decreases head@.len() - k,
        {
            k = k + 1;
        }
        let piece = slice_of(head.as_slice(), start, k);
        let t = trim_of(piece.as_slice());
        let n = match parse_u64_of(t.as_slice()) {
            Some(n) => n,
            None => 0,
        };
        assert(piece@ == rest.take(k - start));
        let ghost out_before = out@;
        out.push(n);
        if k < head.len() {
            assert(next_dot(rest, 0) == Some(k - start));
            assert(rest.skip(k - start + 1) == head@.skip(k + 1));
            assert(pieces(rest) == seq![rest.take(k - start)] + pieces(rest.skip(k - start + 1)));
            assert(pieces(rest).map_values(|p: Seq<char>| piece_value(p))
                == seq![n] + pieces(head@.skip(k + 1)).map_values(|p: Seq<char>| piece_value(p)));
            start = k + 1;
        } else {
            assert(next_dot(rest, 0) is None);
            assert(rest.take(k - start) == rest);
            assert(pieces(rest).map_values(|p: Seq<char>| piece_value(p)) == seq![n]);
            assert(whole == out@);
            return out;
        }
    }
}

/// Dotted numbers, compared piece by piece, missing pieces read as zero.
///
/// Anything after the numbers -- `-beta.1`, `+build` -- is dropped: this is
/// not semver.
pub fn compare_versions(a: &str, b: &str) -> (r: Ordering)
    ensures
        r == version_order(a@, b@),
{
    let pa = parts_of(a);
    let pb = parts_of(b);
    let mut i: usize = 0;
    while i < pa.len() || i < pb.len()
        invariant
            pa@ == version_parts(a@),
            pb@ == version_parts(b@),
            parts_order(pa@, pb@, 0) == parts_order(pa@, pb@, index(i)),
        decreases pa@.len() + pb@.len() - i,
    {
        let x = if i < pa.len() { pa[i] } else { 0 };
        let y = if i < pb.len() { pb[i] } else { 0 };
        assert(x == part(pa@, index(i)));
        assert(y == part(pb@, index(i)));
        if x < y {
            return Ordering::Less;
        }
        if x > y {
            return Ordering::Greater;
        }
        i = i + 1;
    }
    Ordering::Equal
}

/// How a rule compares: at least, above, or exactly.
pub enum RuleKind {
    AtLeast,
    Above,
    Exactly,
}

/// A rule, trimmed, read as its comparison and the version it names:
/// `>=` and a bare version are "at least", `>` is "above", `=` and `==` are
/// "exactly".
pub open spec fn rule_parts(rule: Seq<char>) -> (RuleKind, Seq<char>) {
    if is_prefix(seq!['>', '='], rule) {
        (RuleKind::AtLeast, rule.skip(2))
    } else if is_prefix(seq!['=', '='], rule) {
        (RuleKind::Exactly, rule.skip(2))
    } else if is_prefix(seq!['>'], rule) {
        (RuleKind::Above, rule.skip(1))
    } else if is_prefix(seq!['='], rule) {
        (RuleKind::Exactly, rule.skip(1))
    } else {
        (RuleKind::AtLeast, rule)
    }
}

/// How the comparison is written back in a refusal.
pub open spec fn kind_text(k: RuleKind) -> Seq<char> {
    match k {
        RuleKind::AtLeast => seq!['>', '='],
        RuleKind::Above => seq!['>'],
        RuleKind::Exactly => seq!['='],
    }
}

/// Whether a comparison of what the app is against what was asked passes.
pub open spec fn passes(k: RuleKind, o: Ordering) -> bool {
    match k {
        RuleKind::AtLeast => o != Ordering::Less,
        RuleKind::Above => o == Ordering::Greater,
        RuleKind::Exactly => o == Ordering::Equal,
    }
}

pub open spec fn not_a_rule_message(rule: Seq<char>) -> Seq<char> {
    "mod.json: \""@ + rule + "\" is not a version rule -- write it like \">=1.0.6\""@
}

pub open spec fn version_refusal(k: RuleKind, want: Seq<char>, have: Seq<char>) -> Seq<char> {
    "needs app "@ + kind_text(k) + want + ", and this is "@ + have
}

/// What a version rule says of an app at version `have` (`None` when the
/// app does not know its own version): a rule that is not one is refused
/// whatever the app is; an unknown version passes any rule; otherwise the
/// rule's comparison decides, and a refusal names both versions.
pub open spec fn app_verdict(rule: Seq<char>, have: Option<Seq<char>>) -> Result<(), Seq<char>> {
    let r = trim(rule);
    let want = trim(rule_parts(r).1);
    if want.len() == 0 || !('0' <= want[0] && want[0] <= '9') {
        Err(not_a_rule_message(r))
    } else {
        match have {
            None => Ok(()),
            Some(h) => if passes(rule_parts(r).0, version_order(h, want)) {
                Ok(())
            } else {
                Err(version_refusal(rule_parts(r).0, want, h))
            },
        }
    }
}

/// A verdict as plain values.
pub open spec fn verdict_of(r: Result<(), String>) -> Result<(), Seq<char>> {
    match r {
        Ok(()) => Ok(()),
        Err(e) => Err(e@),
    }
}

pub open spec fn have_text(have: Option<&str>) -> Option<Seq<char>> {
    match have {
        Some(h) => Some(h@),
        None => None,
    }
}

/// Compare a version rule against what this build is.
///
/// Rules are `">=1.0.6"`, `">1.0.6"`, `"=1.0.6"`, or a bare `"1.0.6"` read
/// as `">="`. Anything else is refused rather than guessed at. Not knowing
/// our own version is our problem, not the mod's: the rule then passes.
pub fn app_requirement_met(rule: &str, have: Option<&str>) -> (r: Result<(), String>)
    ensures
        verdict_of(r) == app_verdict(rule@, have_text(have)),
{
    let whole = chars_of(rule);
    let r = trim_of(whole.as_slice());
    let ge: Vec<char> = vec!['>', '='];
    let eqeq: Vec<char> = vec!['=', '='];
    let gt: Vec<char> = vec!['>'];
    let eq: Vec<char> = vec!['='];
    assert(ge@ == seq!['>', '=']);
    assert(eqeq@ == seq!['=', '=']);
    assert(gt@ == seq!['>']);
    assert(eq@ == seq!['=']);
    let (kind, rest, op) = if starts_with(r.as_slice(), ge.as_slice()) {
        (RuleKind::AtLeast, slice_of(r.as_slice(), 2, r.len()), ge)
    } else if starts_with(r.as_slice(), eqeq.as_slice()) {
        (RuleKind::Exactly, slice_of(r.as_slice(), 2, r.len()), eq)
    } else if starts_with(r.as_slice(), gt.as_slice()) {
        (RuleKind::Above, slice_of(r.as_slice(), 1, r.len()), gt)
    } else if starts_with(r.as_slice(), eq.as_slice()) {
        (RuleKind::Exactly, slice_of(r.as_slice(), 1, r.len()), eq)
    } else {
        (RuleKind::AtLeast, slice_of(r.as_slice(), 0, r.len()), ge)
    };
    assert(rule_parts(r@).1 == rest@);
    assert(op@ == kind_text(rule_parts(r@).0));
    let want = trim_of(rest.as_slice());
    if want.len() == 0 || !('0' <= want[0] && want[0] <= '9') {
        let mut m = chars_of("mod.json: \"");
        push_all(&mut m, r.as_slice());
        push_all(&mut m, chars_of("\" is not a version rule -- write it like \">=1.0.6\"").as_slice());
        assert(m@ =~= not_a_rule_message(r@));
        return Err(string_of(m.as_slice()));
    }
    let have = match have {
        None => return Ok(()),
        Some(h) => h,
    };
    let want_text = string_of(want.as_slice());
    let order = compare_versions(have, want_text.as_str());
    let ok = match kind {
        RuleKind::AtLeast => match order {
            Ordering::Less => false,
            _ => true,
        },
        RuleKind::Above => match order {
            Ordering::Greater => true,
            _ => false,
        },
        RuleKind::Exactly => match order {
            Ordering::Equal => true,
            _ => false,
        },
    };
    if ok {
        Ok(())
    } else {
        let mut m = chars_of("needs app ");
        push_all(&mut m, op.as_slice());
        push_all(&mut m, want.as_slice());
        push_all(&mut m, chars_of(", and this is ").as_slice());
        push_all(&mut m, chars_of(have).as_slice());
        assert(m@ =~= version_refusal(rule_parts(r@).0, want@, have@));
        Err(string_of(m.as_slice()))
    }
}

} // verus!

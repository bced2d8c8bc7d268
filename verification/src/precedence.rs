//! The order mods are applied in: alphabetical, except that a mod naming
//! others in `after` is applied later than each of them.

use vstd::prelude::*;
use crate::report::texts;
use crate::text::{chars_of, string_of};
use crate::order::{lemma_lex_asymmetric, lemma_lex_irreflexive, lex_lt, strictly_sorted, has_entry, locate, insert_sorted};

verus! {

/// Some entry of `mods` is called `n`.
pub open spec fn declares(mods: Seq<(String, Vec<String>)>, n: Seq<char>) -> bool {
    exists|i: int| 0 <= i < mods.len() && #[trigger] mods[i].0@ == n
}

/// The index of the last entry among the first `k` that is called `n`, or -1.
pub open spec fn last_entry_before(mods: Seq<(String, Vec<String>)>, n: Seq<char>, k: int) -> int
    decreases k,
{
    if k <= 0 {
        -1
    } else if mods[k - 1].0@ == n {
        k - 1
    } else {
        last_entry_before(mods, n, k - 1)
    }
}

/// Where two entries share a name, the later one's `after` is the one in
/// force.
pub open spec fn lists_after(mods: Seq<(String, Vec<String>)>, a: Seq<char>, b: Seq<char>) -> bool {
    named_before(mods, a, b, mods.len() as int)
}

/// Among the first `k` entries, the last one called `a` names `b`.
pub open spec fn named_before(mods: Seq<(String, Vec<String>)>, a: Seq<char>, b: Seq<char>, k: int) -> bool {
    let e = last_entry_before(mods, a, k);
    0 <= e && names_it(mods[e].1@, b)
}

/// `a` has to be applied after `b`: both are here and `a` names `b`.
pub open spec fn must_follow(mods: Seq<(String, Vec<String>)>, a: Seq<char>, b: Seq<char>) -> bool {
    declares(mods, a) && declares(mods, b) && lists_after(mods, a, b)
}

/// A ring of `after` declarations: each mod in `path` follows the next,
/// and the last is the first again.
pub open spec fn forms_loop(mods: Seq<(String, Vec<String>)>, path: Seq<Seq<char>>) -> bool {
    &&& path.len() >= 2
    &&& path[0] == path[path.len() - 1]
    &&& forall|k: int| 0 <= k < path.len() - 1 ==> #[trigger] must_follow(mods, path[k], path[k + 1])
}

pub open spec fn has_loop(mods: Seq<(String, Vec<String>)>) -> bool {
    exists|path: Seq<Seq<char>>| forms_loop(mods, path)
}

/// `order` lists every declared mod once, and nothing else.
pub open spec fn lists_each_once(mods: Seq<(String, Vec<String>)>, order: Seq<String>) -> bool {
    &&& forall|i: int, j: int| 0 <= i < j < order.len() ==> order[i]@ != order[j]@
    &&& forall|i: int| 0 <= i < order.len() ==> declares(mods, #[trigger] order[i]@)
    &&& forall|n: Seq<char>| #[trigger] declares(mods, n) ==> exists|i: int| 0 <= i < order.len() && order[i]@ == n
}

/// Every mod comes after each mod it must follow.
pub open spec fn respects_after(mods: Seq<(String, Vec<String>)>, order: Seq<String>) -> bool {
    forall|i: int, j: int|
        0 <= i < order.len() && 0 <= j < order.len() && must_follow(mods, #[trigger] order[j]@, #[trigger] order[i]@)
            ==> i < j
}

/// Nobody names anybody who is here.
pub open spec fn no_after_in_force(mods: Seq<(String, Vec<String>)>) -> bool {
    forall|a: Seq<char>, b: Seq<char>| !#[trigger] must_follow(mods, a, b)
}

pub open spec fn alphabetical(order: Seq<String>) -> bool {
    forall|i: int, j: int| 0 <= i < j < order.len() ==> lex_lt(#[trigger] order[i]@, #[trigger] order[j]@)
}

// ---------------------------------------------------------------------------
// The index-level graph the search runs on
// ---------------------------------------------------------------------------

pub open spec fn increasing(s: Seq<usize>) -> bool {
    forall|i: int, j: int| 0 <= i < j < s.len() ==> s[i] < s[j]
}

/// `deps[p]` lists, in increasing order, the positions in `keys` of the
/// mods `keys[p]` must follow.
pub open spec fn graph_of(mods: Seq<(String, Vec<String>)>, keys: Seq<Vec<char>>, deps: Seq<Vec<usize>>) -> bool {
    &&& deps.len() == keys.len()
    &&& forall|p: int| 0 <= p < deps.len() ==> increasing(#[trigger] deps[p]@)
    &&& forall|p: int, m: int| 0 <= p < deps.len() && 0 <= m < deps[p]@.len() ==> #[trigger] deps[p]@[m] < keys.len()
    &&& forall|p: int, q: int| 0 <= p < keys.len() && 0 <= q < keys.len() ==>
        ((exists|m: int| 0 <= m < deps[p]@.len() && #[trigger] deps[p]@[m] == q)
            <==> #[trigger] must_follow(mods, keys[p]@, keys[q]@))
}

/// Adds `x` to an increasing list unless it is there already.
fn insert_index(v: &mut Vec<usize>, x: usize)
    requires
        increasing(old(v)@),
    ensures
        increasing(final(v)@),
        forall|y: usize| #[trigger] final(v)@.contains(y) <==> (y == x || old(v)@.contains(y)),
{
    let mut i: usize = 0;
    while i < v.len() && v[i] < x
        invariant
            i <= v@.len(),
            increasing(v@),
            v@ == old(v)@,
            forall|k: int| 0 <= k < i ==> v@[k] < x,
        decreases v@.len() - i,
    {
        i = i + 1;
    }
    if i < v.len() && v[i] == x {
        return;
    }
    let ghost before = v@;
    v.insert(i, x);
    assert forall|a: int, b: int| 0 <= a < b < v@.len() implies v@[a] < v@[b] by {
        if b < i {
        } else if a < i && b == i {
        } else if a < i {
            assert(v@[b] == before[b - 1]);
        } else if a == i {
            assert(v@[b] == before[b - 1]);
        } else {
            assert(v@[a] == before[a - 1]);
            assert(v@[b] == before[b - 1]);
        }
    }
    assert forall|y: usize| #[trigger] v@.contains(y) <==> (y == x || before.contains(y)) by {
        if v@.contains(y) {
            let k = choose|k: int| 0 <= k < v@.len() && v@[k] == y;
            if k < i {
                assert(before[k] == y);
            } else if k > i {
                assert(before[k - 1] == y);
            }
        }
        if before.contains(y) {
            let k = choose|k: int| 0 <= k < before.len() && before[k] == y;
            if k < i {
                assert(v@[k] == y);
            } else {
                assert(v@[k + 1] == y);
            }
        }
        if y == x {
            assert(v@[i as int] == y);
        }
    }
}


/// The distinct names of `mods`, sorted.
fn declared_keys(mods: &[(String, Vec<String>)]) -> (keys: Vec<Vec<char>>)
    ensures
        strictly_sorted(keys@),
        forall|y: Seq<char>| #[trigger] has_entry(keys@, y) <==> declares(mods@, y),
{
    let mut keys: Vec<Vec<char>> = Vec::new();
    let mut i: usize = 0;
    while i < mods.len()
        invariant
            i <= mods@.len(),
            strictly_sorted(keys@),
            forall|y: Seq<char>| #[trigger] has_entry(keys@, y)
                <==> exists|k: int| 0 <= k < i && #[trigger] mods@[k].0@ == y,
        decreases mods@.len() - i,
    {
        let name = chars_of(mods[i].0.as_str());
        insert_sorted(&mut keys, name);
        i = i + 1;
        assert forall|y: Seq<char>| #[trigger] has_entry(keys@, y)
            <==> exists|k: int| 0 <= k < i && #[trigger] mods@[k].0@ == y by {
            if exists|k: int| 0 <= k < i && #[trigger] mods@[k].0@ == y {
                let k = choose|k: int| 0 <= k < i && #[trigger] mods@[k].0@ == y;
                if k < i - 1 {
                    assert(exists|k2: int| 0 <= k2 < i - 1 && #[trigger] mods@[k2].0@ == y);
                }
            }
        }
    }
    keys
}

/// One of the names in `list` is `n`.
pub open spec fn names_it(list: Seq<String>, n: Seq<char>) -> bool {
    exists|j: int| 0 <= j < list.len() && #[trigger] list[j]@ == n
}

/// The positions in `keys` of the names in `after`, increasing.
fn positions(keys: &Vec<Vec<char>>, after: &Vec<String>) -> (out: Vec<usize>)
    requires
        strictly_sorted(keys@),
    ensures
        increasing(out@),
        forall|m: int| 0 <= m < out@.len() ==> #[trigger] out@[m] < keys@.len(),
        forall|q: int| #![trigger keys@[q]] 0 <= q < keys@.len() ==>
            (out@.contains(q as usize) <==> names_it(after@, keys@[q]@)),
{
    let mut out: Vec<usize> = Vec::new();
    let mut j: usize = 0;
    while j < after.len()
        invariant
            j <= after@.len(),
            strictly_sorted(keys@),
            increasing(out@),
            forall|m: int| 0 <= m < out@.len() ==> #[trigger] out@[m] < keys@.len(),
            forall|q: int| #![trigger keys@[q]] 0 <= q < keys@.len() ==>
                (out@.contains(q as usize) <==> names_it(after@.take(j as int), keys@[q]@)),
        decreases after@.len() - j,
    {
        let name = chars_of(after[j].as_str());
        let ghost before = out@;
        let loc = locate(keys, name.as_slice());
        let ghost found: int = match loc { Ok(q0) => q0 as int, Err(_) => -1 };
        assert(found >= 0 ==> keys@[found]@ == name@);
        match loc {
            Ok(q) => {
                insert_index(&mut out, q);
                assert forall|m: int| 0 <= m < out@.len() implies #[trigger] out@[m] < keys@.len() by {
                    assert(out@.contains(out@[m]));
                    if out@[m] != q {
                        assert(before.contains(out@[m]));
                    }
                }
                assert(forall|y: usize| #[trigger] out@.contains(y) ==> (y as int == found || before.contains(y)));
            },
            Err(_) => {},
        }
        assert(forall|y: usize| #[trigger] out@.contains(y) ==> (y as int == found || before.contains(y)));
        j = j + 1;
        assert forall|q: int| #![trigger keys@[q]] 0 <= q < keys@.len() implies
            (out@.contains(q as usize) <==> names_it(after@.take(j as int), keys@[q]@)) by {
            assert(after@.take(j as int)[j - 1] == after@[j - 1]);
            if names_it(after@.take(j as int), keys@[q]@) {
                let k = choose|k: int| 0 <= k < j && #[trigger] after@.take(j as int)[k]@ == keys@[q]@;
                if k < j - 1 {
                    assert(after@.take(j - 1)[k]@ == keys@[q]@);
                } else {
                    match loc {
                        Ok(q0) => {
                            if q0 != q as usize {
                                lemma_lex_irreflexive(keys@[q]@);
                                if q0 < q as usize {
                                    assert(lex_lt(keys@[q0 as int]@, keys@[q]@));
                                } else {
                                    assert(lex_lt(keys@[q]@, keys@[q0 as int]@));
                                }
                            }
                        },
                        Err(i0) => {
                            lemma_lex_irreflexive(keys@[q]@);
                            if q < i0 {
                                assert(lex_lt(keys@[q]@, name@));
                            } else {
                                assert(lex_lt(name@, keys@[q]@));
                            }
                        },
                    }
                }
            }
            if names_it(after@.take(j - 1), keys@[q]@) {
                let k = choose|k: int| 0 <= k < j - 1 && #[trigger] after@.take(j - 1)[k]@ == keys@[q]@;
                assert(after@.take(j as int)[k]@ == keys@[q]@);
            }
            if out@.contains(q as usize) && !before.contains(q as usize) {
                assert(keys@.len() == keys.len());
                assert((q as usize) as int == q);
                assert(found == q);
                assert(after@.take(j as int)[j - 1]@ == keys@[q]@);
            }
        }
    }
    assert(after@.take(after@.len() as int) == after@);
    out
}


/// The `after` graph over positions in `keys`.
fn graph(mods: &[(String, Vec<String>)], keys: &Vec<Vec<char>>) -> (deps: Vec<Vec<usize>>)
    requires
        strictly_sorted(keys@),
        forall|y: Seq<char>| #[trigger] has_entry(keys@, y) <==> declares(mods@, y),
    ensures
        graph_of(mods@, keys@, deps@),
{
    let n = keys.len();
    let mut deps: Vec<Vec<usize>> = Vec::new();
    let mut p: usize = 0;
    while p < n
        invariant
            p <= n == keys@.len(),
            deps@.len() == p,
            forall|x: int| 0 <= x < p ==> #[trigger] deps@[x]@.len() == 0,
        decreases n - p,
    {
        deps.push(Vec::new());
        p = p + 1;
    }
    let mut i: usize = 0;
    while i < mods.len()
        invariant
            i <= mods@.len(),
            n == keys@.len(),
            deps@.len() == n,
            strictly_sorted(keys@),
            forall|y: Seq<char>| #[trigger] has_entry(keys@, y) <==> declares(mods@, y),
            forall|x: int| 0 <= x < n ==> increasing(#[trigger] deps@[x]@),
            forall|x: int, m: int| 0 <= x < n && 0 <= m < deps@[x]@.len() ==> #[trigger] deps@[x]@[m] < n,
            forall|x: int, q: int| #![trigger deps@[x], keys@[q]] 0 <= x < n && 0 <= q < n ==>
                (deps@[x]@.contains(q as usize) <==> named_before(mods@, keys@[x]@, keys@[q]@, i as int)),
        decreases mods@.len() - i,
    {
        let name = chars_of(mods[i].0.as_str());
        proof {
            assert(declares(mods@, name@));
        }
        let at = locate(keys, name.as_slice());
        let ghost pos: int = match at { Ok(x) => x as int, Err(_) => -1 };
        proof {
            assert(has_entry(keys@, name@));
            let w = choose|w: int| 0 <= w < keys@.len() && #[trigger] keys@[w]@ == name@;
            match at {
                Ok(_) => {},
                Err(i0) => {
                    lemma_lex_irreflexive(name@);
                    if w < i0 {
                        assert(lex_lt(keys@[w]@, name@));
                    } else {
                        assert(lex_lt(name@, keys@[w]@));
                    }
                },
            }
        }
        let ghost old_deps = deps@;
        if let Ok(x) = at {
            let list = positions(keys, &mods[i].1);
            deps.set(x, list);
            assert(forall|q: int| #![trigger keys@[q]] 0 <= q < n ==>
                (deps@[x as int]@.contains(q as usize) <==> names_it(mods@[i as int].1@, keys@[q]@)));
            assert(increasing(deps@[x as int]@));
        }
        assert(deps@ == old_deps.update(pos, deps@[pos]));
        proof {
            assert(0 <= pos < n && keys@[pos]@ == name@);
            assert forall|x: int, q: int| #![trigger deps@[x], keys@[q]] 0 <= x < n && 0 <= q < n implies
                (deps@[x]@.contains(q as usize) <==> named_before(mods@, keys@[x]@, keys@[q]@, i + 1)) by {
                if x == pos {
                    assert(mods@[i as int].0@ == keys@[x]@);
                    assert(last_entry_before(mods@, keys@[x]@, i + 1) == i as int);
                    assert(deps@[x]@.contains(q as usize) <==> names_it(mods@[i as int].1@, keys@[q]@));
                } else {
                    assert(deps@[x] == old_deps[x]);
                    assert(old_deps[x]@.contains(q as usize) <==> named_before(mods@, keys@[x]@, keys@[q]@, i as int));
                    if keys@[x]@ == name@ {
                        lemma_lex_irreflexive(name@);
                        if x < pos {
                            assert(lex_lt(keys@[x]@, keys@[pos]@));
                        } else {
                            assert(lex_lt(keys@[pos]@, keys@[x]@));
                        }
                    }
                    assert(last_entry_before(mods@, keys@[x]@, i + 1) == last_entry_before(mods@, keys@[x]@, i as int));
                }
            }
        }
        i = i + 1;
    }
    proof {
        assert forall|x: int, q: int| 0 <= x < keys@.len() && 0 <= q < keys@.len() implies
            ((exists|m: int| 0 <= m < deps@[x]@.len() && #[trigger] deps@[x]@[m] == q)
                <==> #[trigger] must_follow(mods@, keys@[x]@, keys@[q]@)) by {
            assert(has_entry(keys@, keys@[x]@));
            assert(has_entry(keys@, keys@[q]@));
            assert(deps@[x]@.contains(q as usize) <==> exists|m: int| 0 <= m < deps@[x]@.len() && #[trigger] deps@[x]@[m] == q);
        }
    }
    deps
}


// ---------------------------------------------------------------------------
// The depth-first search
// ---------------------------------------------------------------------------

/// Every position a dependency list names is a position in the graph.
pub open spec fn in_bounds(deps: Seq<Vec<usize>>) -> bool {
    forall|p: int, m: int| 0 <= p < deps.len() && 0 <= m < deps[p]@.len() ==> (#[trigger] deps[p]@[m] as int) < deps.len()
}

/// A ring in the index graph.
pub open spec fn index_loop(deps: Seq<Vec<usize>>, path: Seq<usize>) -> bool {
    &&& path.len() >= 2
    &&& path[0] == path[path.len() - 1]
    &&& forall|k: int| 0 <= k < path.len() - 1 ==> (#[trigger] path[k] as int) < deps.len()
        && deps[path[k] as int]@.contains(path[k + 1])
}

/// Each position appears exactly once.
pub open spec fn placed_all(n: int, done: Seq<usize>) -> bool {
    &&& forall|a: int, b: int| 0 <= a < b < done.len() ==> done[a] != done[b]
    &&& forall|k: int| 0 <= k < done.len() ==> (#[trigger] done[k] as int) < n
    &&& forall|x: int| 0 <= x < n ==> #[trigger] done.contains(x as usize)
}

/// Each position comes after everything it depends on.
pub open spec fn topological(deps: Seq<Vec<usize>>, done: Seq<usize>) -> bool {
    forall|k: int, m: int| #![trigger deps[done[k] as int]@[m]]
        0 <= k && k < done.len() && 0 <= m && m < deps[done[k] as int]@.len()
        ==> placed_before(done, k, deps[done[k] as int]@[m])
}

/// `q` is among the first `k` placed.
pub open spec fn placed_before(done: Seq<usize>, k: int, q: usize) -> bool {
    exists|t: int| 0 <= t && t < k && done[t] == q
}

pub open spec fn no_deps(deps: Seq<Vec<usize>>) -> bool {
    forall|p: int| 0 <= p < deps.len() ==> (#[trigger] deps[p])@.len() == 0
}

/// A frame the search has started on: every frame below the top, and the
/// top once its dependencies are being walked.
pub open spec fn processed(stack: Seq<(usize, usize)>, j: int) -> bool {
    0 <= j < stack.len() && (j < stack.len() - 1 || stack[j].1 >= 1)
}

/// How many of a frame's dependencies are known to be placed.
pub open spec fn settled(stack: Seq<(usize, usize)>, j: int) -> int {
    if j < stack.len() - 1 {
        stack[j].1 - 1
    } else {
        stack[j].1 as int
    }
}

pub open spec fn search_state(deps: Seq<Vec<usize>>, state: Seq<u8>, done: Seq<usize>, stack: Seq<(usize, usize)>) -> bool {
    &&& state.len() == deps.len()
    &&& forall|x: int| 0 <= x < state.len() ==> #[trigger] state[x] <= 2
    &&& forall|k: int| 0 <= k < done.len() ==> (#[trigger] done[k] as int) < deps.len() && state[done[k] as int] == 2
    &&& forall|x: int| 0 <= x < state.len() && #[trigger] state[x] == 2 ==> done.contains(x as usize)
    &&& forall|a: int, b: int| 0 <= a < b < done.len() ==> done[a] != done[b]
    &&& topological(deps, done)
    &&& forall|j: int| 0 <= j < stack.len() ==> ((#[trigger] stack[j]).0 as int) < deps.len()
        && stack[j].1 <= deps[stack[j].0 as int]@.len()
    &&& forall|j: int| 0 <= j < stack.len() - 1 ==> (#[trigger] stack[j]).1 >= 1
        && deps[stack[j].0 as int]@[stack[j].1 - 1] == stack[j + 1].0
    &&& forall|j: int| #[trigger] processed(stack, j) ==> state[stack[j].0 as int] == 1
    &&& forall|j: int, m: int| 0 <= j < stack.len() && 0 <= m < settled(stack, j) ==>
        state[#[trigger] deps[stack[j].0 as int]@[m] as int] == 2
    &&& forall|x: int| 0 <= x < state.len() && #[trigger] state[x] == 1 ==>
        exists|j: int| #[trigger] processed(stack, j) && stack[j].0 == x
    &&& forall|a: int, b: int| #[trigger] processed(stack, a) && #[trigger] processed(stack, b) && a != b
        ==> stack[a].0 != stack[b].0
}

pub open spec fn zeros(state: Seq<u8>) -> nat
    decreases state.len(),
{
    if state.len() == 0 {
        0
    } else {
        zeros(state.drop_last()) + (if state.last() == 0 { 1nat } else { 0nat })
    }
}

pub proof fn lemma_zeros_update(state: Seq<u8>, x: int, val: u8)
    requires
        0 <= x < state.len(),
        val != 0,
    ensures
        state[x] == 0 ==> zeros(state.update(x, val)) + 1 == zeros(state),
        state[x] != 0 ==> zeros(state.update(x, val)) == zeros(state),
    decreases state.len(),
{
    if x == state.len() - 1 {
        assert(state.update(x, val).drop_last() == state.drop_last());
    } else {
        lemma_zeros_update(state.drop_last(), x, val);
        assert(state.update(x, val).drop_last() == state.drop_last().update(x, val));
    }
}

pub open spec fn weight(deps: Seq<Vec<usize>>, f: (usize, usize)) -> nat {
    if f.1 >= 1 && (f.1 as int) <= deps[f.0 as int]@.len() {
        (2 * (deps[f.0 as int]@.len() - f.1) + 1) as nat
    } else {
        1
    }
}

/// What is left to walk on the stack.
pub open spec fn pending(deps: Seq<Vec<usize>>, stack: Seq<(usize, usize)>) -> nat
    decreases stack.len(),
{
    if stack.len() == 0 {
        0
    } else {
        pending(deps, stack.drop_last()) + weight(deps, stack.last())
    }
}


/// The state after popping a frame whose node turned out to be placed
/// already.
proof fn lemma_skip(deps: Seq<Vec<usize>>, state: Seq<u8>, done: Seq<usize>, stack: Seq<(usize, usize)>)
    requires
        search_state(deps, state, done, stack),
        stack.len() > 0,
        stack.last().1 == 0,
        state[stack.last().0 as int] == 2,
    ensures
        search_state(deps, state, done, stack.drop_last()),
        pending(deps, stack.drop_last()) + 1 == pending(deps, stack),
{
    let s2 = stack.drop_last();
    let l = stack.len() as int;
    assert(forall|j: int| 0 <= j < s2.len() ==> s2[j] == stack[j]);
    assert forall|j: int| #[trigger] processed(s2, j) implies processed(stack, j) by {}
    assert forall|j: int| #[trigger] processed(stack, j) implies processed(s2, j) by {
        if j == l - 1 {
            assert(stack[j].1 == 0);
        }
        if j == l - 2 {
            assert(stack[j].1 >= 1);
        }
    }
    assert forall|j: int| #[trigger] processed(s2, j) implies state[s2[j].0 as int] == 1 by {
        assert(processed(stack, j));
    }
    assert forall|j: int, m: int| 0 <= j < s2.len() && 0 <= m < settled(s2, j) implies
        state[#[trigger] deps[s2[j].0 as int]@[m] as int] == 2 by {
        if j == s2.len() - 1 && m == s2[j].1 - 1 {
            assert(deps[stack[j].0 as int]@[stack[j].1 - 1] == stack[j + 1].0);
        } else {
            assert(m < settled(stack, j));
        }
    }
    assert forall|x: int| 0 <= x < state.len() && #[trigger] state[x] == 1 implies
        exists|j: int| #[trigger] processed(s2, j) && s2[j].0 == x by {
        let j = choose|j: int| #[trigger] processed(stack, j) && stack[j].0 == x;
        assert(processed(s2, j));
    }
    assert forall|a: int, b: int| #[trigger] processed(s2, a) && #[trigger] processed(s2, b) && a != b
        implies s2[a].0 != s2[b].0 by {
        assert(processed(stack, a) && processed(stack, b));
    }
}

/// The frames from the one that began the walk of `v` up to the top form a
/// ring, each held once, when the top frame comes back to `v`.
proof fn lemma_ring_at(deps: Seq<Vec<usize>>, state: Seq<u8>, done: Seq<usize>, stack: Seq<(usize, usize)>, j: int)
    requires
        search_state(deps, state, done, stack),
        stack.len() > 0,
        stack.last().1 == 0,
        processed(stack, j),
        stack[j].0 == stack.last().0,
    ensures
        j < stack.len() - 1,
        index_loop(deps, Seq::new((stack.len() - j) as nat, |t: int| stack[j + t].0)),
        forall|a: int, b: int| 0 <= a < b < stack.len() - 1 ==> stack[a].0 != stack[b].0,
{
    let top = stack.len() - 1;
    assert(j < top);
    let path = Seq::new((top - j + 1) as nat, |t: int| stack[j + t].0);
    assert forall|t: int| 0 <= t < path.len() - 1 implies (#[trigger] path[t] as int) < deps.len()
        && deps[path[t] as int]@.contains(path[t + 1]) by {
        let f = stack[j + t];
        assert(f.1 >= 1);
        assert(deps[f.0 as int]@[f.1 - 1] == stack[j + t + 1].0);
    }
    assert forall|a: int, b: int| 0 <= a < b < stack.len() - 1 implies stack[a].0 != stack[b].0 by {
        assert(processed(stack, a) && processed(stack, b));
    }
}

/// What holds once the popped frame's node is marked in progress.
pub open spec fn entered(state: Seq<u8>, stack: Seq<(usize, usize)>) -> Seq<u8> {
    if stack.last().1 == 0 {
        state.update(stack.last().0 as int, 1)
    } else {
        state
    }
}

pub open spec fn may_enter(deps: Seq<Vec<usize>>, state: Seq<u8>, done: Seq<usize>, stack: Seq<(usize, usize)>) -> bool {
    &&& search_state(deps, state, done, stack)
    &&& stack.len() > 0
    &&& (stack.last().1 == 0 ==> state[stack.last().0 as int] == 0)
}

proof fn lemma_entered(deps: Seq<Vec<usize>>, state: Seq<u8>, done: Seq<usize>, stack: Seq<(usize, usize)>)
    requires
        may_enter(deps, state, done, stack),
    ensures
        entered(state, stack)[stack.last().0 as int] == 1,
        forall|j: int| #[trigger] processed(stack.drop_last(), j) ==>
            stack[j].0 != stack.last().0 && processed(stack, j),
        entered(state, stack).len() == state.len(),
        forall|x: int| 0 <= x < state.len() && x != stack.last().0 ==> #[trigger] entered(state, stack)[x] == state[x],
        stack.last().1 == 0 ==> zeros(entered(state, stack)) + 1 == zeros(state),
        stack.last().1 != 0 ==> entered(state, stack) == state,
{
    let l = stack.len() as int;
    let v = stack.last().0;
    if stack.last().1 == 0 {
        lemma_zeros_update(state, v as int, 1);
    } else {
        assert(processed(stack, l - 1));
    }
    assert forall|j: int| #[trigger] processed(stack.drop_last(), j) implies
        stack[j].0 != v && processed(stack, j) by {
        assert(processed(stack, j));
        if stack.last().1 >= 1 {
            assert(processed(stack, l - 1));
        } else {
            assert(state[stack[j].0 as int] == 1);
        }
    }
}

/// Descending into the frame's next dependency.
#[verifier::rlimit(50)]
proof fn lemma_descend(deps: Seq<Vec<usize>>, state: Seq<u8>, done: Seq<usize>, stack: Seq<(usize, usize)>)
    requires
        may_enter(deps, state, done, stack),
        in_bounds(deps),
        (stack.last().1 as int) < deps[stack.last().0 as int]@.len(),
        deps[stack.last().0 as int]@.len() <= usize::MAX,
    ensures
        ({
            let v = stack.last().0;
            let i = stack.last().1;
            let d = deps[v as int]@[i as int];
            let s2 = stack.drop_last().push((v, (i + 1) as usize)).push((d, 0usize));
            &&& search_state(deps, entered(state, stack), done, s2)
            &&& (i >= 1 ==> pending(deps, s2) + 1 == pending(deps, stack))
        }),
{
    lemma_entered(deps, state, done, stack);
    let st = entered(state, stack);
    let v = stack.last().0;
    let i = stack.last().1;
    let d = deps[v as int]@[i as int];
    let s2 = stack.drop_last().push((v, (i + 1) as usize)).push((d, 0usize));
    let l = stack.len() as int;
    assert(s2.len() == l + 1);
    assert(forall|j: int| 0 <= j < l - 1 ==> s2[j] == stack[j]);
    assert(s2[l - 1] == (v, (i + 1) as usize));
    assert(s2[l] == (d, 0usize));
    assert(stack[l - 1] == stack.last());
    assert forall|j: int| 0 <= j < s2.len() - 1 implies (#[trigger] s2[j]).1 >= 1
        && deps[s2[j].0 as int]@[s2[j].1 - 1] == s2[j + 1].0 by {
        if j < l - 2 {
            assert(s2[j] == stack[j]);
            assert(s2[j + 1] == stack[j + 1]);
            assert(deps[stack[j].0 as int]@[stack[j].1 - 1] == stack[j + 1].0);
        } else if j == l - 2 {
            assert(s2[j] == stack[j]);
            assert(deps[stack[j].0 as int]@[stack[j].1 - 1] == stack[j + 1].0);
            assert(stack[j + 1].0 == v);
        }
    }
    assert forall|j: int| #[trigger] processed(s2, j) implies st[s2[j].0 as int] == 1 by {
        if j < l - 1 {
            assert(processed(stack.drop_last(), j));
        }
    }
    assert forall|j: int, m: int| 0 <= j < s2.len() && 0 <= m < settled(s2, j) implies
        st[#[trigger] deps[s2[j].0 as int]@[m] as int] == 2 by {
        if j < l - 1 {
            assert(m < settled(stack, j));
            assert(state[deps[stack[j].0 as int]@[m] as int] == 2);
        } else {
            assert(m < settled(stack, l - 1));
            assert(state[deps[stack[l - 1].0 as int]@[m] as int] == 2);
        }
    }
    assert forall|x: int| 0 <= x < st.len() && #[trigger] st[x] == 1 implies
        exists|j: int| #[trigger] processed(s2, j) && s2[j].0 == x by {
        if x == v {
            assert(processed(s2, l - 1));
        } else {
            assert(state[x] == 1);
            let j = choose|j: int| #[trigger] processed(stack, j) && stack[j].0 == x;
            if j == l - 1 {
                assert(stack[j].1 >= 1);
            }
            assert(processed(s2, j));
        }
    }
    assert forall|a: int, b: int| #[trigger] processed(s2, a) && #[trigger] processed(s2, b) && a != b
        implies s2[a].0 != s2[b].0 by {
        if a < l - 1 && b < l - 1 {
            assert(processed(stack, a) && processed(stack, b));
        } else if a < l - 1 {
            assert(processed(stack.drop_last(), a));
        } else if b < l - 1 {
            assert(processed(stack.drop_last(), b));
        }
    }
    assert forall|x: int| 0 <= x < st.len() && #[trigger] st[x] == 2 implies done.contains(x as usize) by {
        assert(state[x] == 2);
    }
    assert forall|k: int| 0 <= k < done.len() implies (#[trigger] done[k] as int) < deps.len() && st[done[k] as int] == 2 by {
        assert(state[done[k] as int] == 2);
    }
    assert(search_state(deps, st, done, s2));
    assert(s2.drop_last() == stack.drop_last().push((v, (i + 1) as usize)));
    assert(s2.drop_last().drop_last() == stack.drop_last());
    assert(stack.drop_last().push(stack.last()) == stack);
    assert(pending(deps, s2.drop_last()) == pending(deps, stack.drop_last()) + weight(deps, (v, (i + 1) as usize)));
    assert(pending(deps, s2) == pending(deps, s2.drop_last()) + weight(deps, (d, 0usize)));
    assert(pending(deps, stack) == pending(deps, stack.drop_last()) + weight(deps, (v, i)));
}

proof fn lemma_topological_push(deps: Seq<Vec<usize>>, done: Seq<usize>, v: usize)
    requires
        topological(deps, done),
        forall|m: int| 0 <= m < deps[v as int]@.len() ==> done.contains(#[trigger] deps[v as int]@[m]),
    ensures
        topological(deps, done.push(v)),
{
    let d2 = done.push(v);
    assert forall|k: int, m: int| #![trigger deps[d2[k] as int]@[m]]
        0 <= k && k < d2.len() && 0 <= m && m < deps[d2[k] as int]@.len()
        implies placed_before(d2, k, deps[d2[k] as int]@[m]) by {
        if k == done.len() {
            assert(d2[k] == v);
            let q = deps[v as int]@[m];
            assert(done.contains(q));
            let t = choose|t: int| 0 <= t < done.len() && done[t] == q;
            assert(d2[t] == q);
        } else {
            assert(d2[k] == done[k]);
            assert(placed_before(done, k, deps[done[k] as int]@[m]));
            let t = choose|t: int| 0 <= t && t < k && done[t] == deps[done[k] as int]@[m];
            assert(d2[t] == done[t]);
        }
    }
}

/// Placing the frame's node once all its dependencies are placed.
proof fn lemma_place(deps: Seq<Vec<usize>>, state: Seq<u8>, done: Seq<usize>, stack: Seq<(usize, usize)>)
    requires
        may_enter(deps, state, done, stack),
        in_bounds(deps),
        (stack.last().1 as int) == deps[stack.last().0 as int]@.len(),
    ensures
        ({
            let v = stack.last().0;
            let st = entered(state, stack).update(v as int, 2);
            &&& search_state(deps, st, done.push(v), stack.drop_last())
            &&& zeros(st) == zeros(entered(state, stack))
            &&& pending(deps, stack.drop_last()) + 1 == pending(deps, stack)
            &&& !done.contains(v)
        }),
{
    lemma_entered(deps, state, done, stack);
    let mid = entered(state, stack);
    let v = stack.last().0;
    let st = mid.update(v as int, 2);
    lemma_zeros_update(mid, v as int, 2);
    let d2 = done.push(v);
    let s2 = stack.drop_last();
    let l = stack.len() as int;
    assert(stack[l - 1] == stack.last());
    assert(forall|j: int| 0 <= j < s2.len() ==> s2[j] == stack[j]);
    if done.contains(v) {
        let t = choose|t: int| 0 <= t < done.len() && done[t] == v;
        assert(state[done[t] as int] == 2);
    }
    assert forall|a: int, b: int| 0 <= a < b < d2.len() implies d2[a] != d2[b] by {
        if b == d2.len() - 1 {
            assert(state[done[a] as int] == 2);
        }
    }
    assert forall|x: int| 0 <= x < st.len() && #[trigger] st[x] == 2 implies d2.contains(x as usize) by {
        if x == v {
            assert(d2[d2.len() - 1] == v);
        } else {
            assert(state[x] == 2);
            let t = choose|t: int| 0 <= t < done.len() && done[t] == x as usize;
            assert(d2[t] == x as usize);
        }
    }
    assert forall|k: int| 0 <= k < d2.len() implies (#[trigger] d2[k] as int) < deps.len() && st[d2[k] as int] == 2 by {
        if k < done.len() {
            assert(state[done[k] as int] == 2);
        }
    }
    assert forall|j: int| #[trigger] processed(s2, j) implies st[s2[j].0 as int] == 1 by {
        assert(processed(stack.drop_last(), j));
        assert(processed(stack, j));
    }
    assert forall|j: int, m: int| 0 <= j < s2.len() && 0 <= m < settled(s2, j) implies
        st[#[trigger] deps[s2[j].0 as int]@[m] as int] == 2 by {
        if j == s2.len() - 1 && m == s2[j].1 - 1 {
            assert(deps[stack[j].0 as int]@[stack[j].1 - 1] == stack[j + 1].0);
        } else {
            assert(m < settled(stack, j));
            assert(state[deps[stack[j].0 as int]@[m] as int] == 2);
        }
    }
    assert forall|x: int| 0 <= x < st.len() && #[trigger] st[x] == 1 implies
        exists|j: int| #[trigger] processed(s2, j) && s2[j].0 == x by {
        assert(x != v);
        assert(mid[x] == 1);
        if x == stack.last().0 {
        } else {
            assert(state[x] == 1);
        }
        let j = choose|j: int| #[trigger] processed(stack, j) && stack[j].0 == x;
        if j == l - 1 {
            assert(false);
        }
        if j == l - 2 {
            assert(stack[j].1 >= 1);
        }
        assert(processed(s2, j));
    }
    assert forall|a: int, b: int| #[trigger] processed(s2, a) && #[trigger] processed(s2, b) && a != b
        implies s2[a].0 != s2[b].0 by {
        assert(processed(stack, a) && processed(stack, b));
    }
    assert(st.len() == deps.len());
    assert(forall|x: int| 0 <= x < st.len() ==> #[trigger] st[x] <= 2);
    assert forall|m: int| 0 <= m < deps[v as int]@.len() implies done.contains(#[trigger] deps[v as int]@[m]) by {
        let q = deps[v as int]@[m];
        assert(m < settled(stack, l - 1));
        assert(state[q as int] == 2);
    }
    lemma_topological_push(deps, done, v);
    assert(forall|j: int| 0 <= j < s2.len() ==> ((#[trigger] s2[j]).0 as int) < deps.len()
        && s2[j].1 <= deps[s2[j].0 as int]@.len());
    assert(forall|j: int| 0 <= j < s2.len() - 1 ==> (#[trigger] s2[j]).1 >= 1
        && deps[s2[j].0 as int]@[s2[j].1 - 1] == s2[j + 1].0);
    assert(search_state(deps, st, d2, s2));
    assert(stack.drop_last().push(stack.last()) == stack);
}

// ---------------------------------------------------------------------------
// The order the search produces, stated as the recursive walk it performs
// ---------------------------------------------------------------------------

/// The lists of positions each position depends on.
pub open spec fn dep_lists(deps: Seq<Vec<usize>>) -> Seq<Seq<usize>> {
    deps.map_values(|d: Vec<usize>| d@)
}

/// The part of `path` from the first `v` on: the ring that closes when the
/// walk along `path` comes back to `v`.
pub open spec fn ring_from(path: Seq<usize>, v: usize) -> Seq<usize>
    decreases path.len(),
{
    if path.len() == 0 {
        seq![]
    } else if path[0] == v {
        path
    } else {
        ring_from(path.drop_first(), v)
    }
}

/// Walking from position `v`, with `path` the positions whose walk is under
/// way: nothing to do once `v` is placed; a ring when `v` is itself under
/// way (the ring is reported as the part of `path` from `v` on); otherwise
/// its dependencies are walked in increasing order and then `v` is placed.
pub open spec fn visit(
    deps: Seq<Seq<usize>>,
    v: int,
    st: Seq<u8>,
    done: Seq<usize>,
    path: Seq<usize>,
) -> Result<(Seq<u8>, Seq<usize>), Seq<usize>>
    decreases zeros(st), 0int, 0int,
{
    if v < 0 || v >= st.len() || st[v] == 2 {
        Ok((st, done))
    } else if st[v] == 1 {
        Err(ring_from(path, v as usize))
    } else if st[v] != 0 {
        Ok((st, done))
    } else {
        proof {
            lemma_zeros_update(st, v, 1);
        }
        match walk(deps, v, 0, st.update(v, 1), done, path.push(v as usize)) {
            Err(p) => Err(p),
            Ok((s2, d2)) => Ok((s2.update(v, 2), d2.push(v as usize))),
        }
    }
}

/// Walking `v`'s dependencies from the `i`th on.
pub open spec fn walk(
    deps: Seq<Seq<usize>>,
    v: int,
    i: int,
    st: Seq<u8>,
    done: Seq<usize>,
    path: Seq<usize>,
) -> Result<(Seq<u8>, Seq<usize>), Seq<usize>>
    decreases zeros(st), 1int, deps[v].len() - i,
{
    if v < 0 || v >= deps.len() || i < 0 || i >= deps[v].len() {
        Ok((st, done))
    } else {
        match visit(deps, deps[v][i] as int, st, done, path) {
            Err(p) => Err(p),
            Ok((s2, d2)) => if zeros(s2) <= zeros(st) {
                walk(deps, v, i + 1, s2, d2, path)
            } else {
                Ok((s2, d2))
            },
        }
    }
}

/// Walking from each position from `r` on, in increasing order.
pub open spec fn from_roots(deps: Seq<Seq<usize>>, r: int, st: Seq<u8>, done: Seq<usize>) -> Result<Seq<usize>, Seq<usize>>
    decreases deps.len() - r,
{
    if r < 0 || r >= deps.len() {
        Ok(done)
    } else {
        match visit(deps, r, st, done, seq![]) {
            Err(p) => Err(p),
            Ok((s2, d2)) => from_roots(deps, r + 1, s2, d2),
        }
    }
}

/// What the search gives: the positions in the order they are placed, or
/// the ring that closed when a walk came back to a position still under way.
pub open spec fn depth_first(deps: Seq<Seq<usize>>) -> Result<Seq<usize>, Seq<usize>> {
    from_roots(deps, 0, Seq::new(deps.len(), |i: int| 0u8), seq![])
}

proof fn lemma_visit_zeros(deps: Seq<Seq<usize>>, v: int, st: Seq<u8>, done: Seq<usize>, path: Seq<usize>)
    ensures
        visit(deps, v, st, done, path) matches Ok((s2, _)) ==> zeros(s2) <= zeros(st) && s2.len() == st.len(),
    decreases zeros(st), 0int, 0int,
{
    if !(v < 0 || v >= st.len() || st[v] == 2) && st[v] == 0 {
        lemma_zeros_update(st, v, 1);
        let s1 = st.update(v, 1);
        lemma_walk_zeros(deps, v, 0, s1, done, path.push(v as usize));
        match walk(deps, v, 0, s1, done, path.push(v as usize)) {
            Ok((s2, d2)) => {
                lemma_zeros_update(s2, v, 2);
            },
            Err(_) => {},
        }
    }
}

proof fn lemma_walk_zeros(deps: Seq<Seq<usize>>, v: int, i: int, st: Seq<u8>, done: Seq<usize>, path: Seq<usize>)
    ensures
        walk(deps, v, i, st, done, path) matches Ok((s2, _)) ==> zeros(s2) <= zeros(st) && s2.len() == st.len(),
    decreases zeros(st), 1int, deps[v].len() - i,
{
    if !(v < 0 || v >= deps.len() || i < 0 || i >= deps[v].len()) {
        lemma_visit_zeros(deps, deps[v][i] as int, st, done, path);
        match visit(deps, deps[v][i] as int, st, done, path) {
            Ok((s2, d2)) => {
                if zeros(s2) <= zeros(st) {
                    lemma_walk_zeros(deps, v, i + 1, s2, d2, path);
                }
            },
            Err(_) => {},
        }
    }
}

/// The positions of the frames, bottom first.
pub open spec fn frame_names(stack: Seq<(usize, usize)>) -> Seq<usize> {
    stack.map_values(|f: (usize, usize)| f.0)
}

/// Finishing the frames of a stack, top first: each walks the rest of its
/// dependencies and is then placed.
pub open spec fn resume(
    deps: Seq<Seq<usize>>,
    frames: Seq<(usize, usize)>,
    st: Seq<u8>,
    done: Seq<usize>,
) -> Result<(Seq<u8>, Seq<usize>), Seq<usize>>
    decreases frames.len(),
{
    if frames.len() == 0 {
        Ok((st, done))
    } else {
        let f = frames.last();
        match walk(deps, f.0 as int, f.1 as int, st, done, frame_names(frames)) {
            Err(p) => Err(p),
            Ok((s2, d2)) => resume(deps, frames.drop_last(), s2.update(f.0 as int, 2), d2.push(f.0)),
        }
    }
}

/// Where the search ends from the given point: a top frame at its first
/// dependency is a visit not yet begun.
pub open spec fn outcome(
    deps: Seq<Seq<usize>>,
    stack: Seq<(usize, usize)>,
    st: Seq<u8>,
    done: Seq<usize>,
) -> Result<(Seq<u8>, Seq<usize>), Seq<usize>> {
    if stack.len() > 0 && stack.last().1 == 0 {
        match visit(deps, stack.last().0 as int, st, done, frame_names(stack.drop_last())) {
            Err(p) => Err(p),
            Ok((s2, d2)) => resume(deps, stack.drop_last(), s2, d2),
        }
    } else {
        resume(deps, stack, st, done)
    }
}

/// Where the search ends once the walks from `r` are finished.
pub open spec fn then_roots(
    deps: Seq<Seq<usize>>,
    r: int,
    o: Result<(Seq<u8>, Seq<usize>), Seq<usize>>,
) -> Result<Seq<usize>, Seq<usize>> {
    match o {
        Err(p) => Err(p),
        Ok((s2, d2)) => from_roots(deps, r + 1, s2, d2),
    }
}

proof fn lemma_frame_names_push(stack: Seq<(usize, usize)>, f: (usize, usize))
    ensures
        frame_names(stack.push(f)) == frame_names(stack).push(f.0),
{
    assert(frame_names(stack.push(f)) =~= frame_names(stack).push(f.0));
}

/// A search state whose top frame is a node not yet begun and already
/// placed: popping it leaves the outcome as it was.
proof fn lemma_outcome_skip(deps: Seq<Vec<usize>>, state: Seq<u8>, done: Seq<usize>, stack: Seq<(usize, usize)>)
    requires
        search_state(deps, state, done, stack),
        stack.len() > 0,
        stack.last().1 == 0,
        state[stack.last().0 as int] == 2,
    ensures
        outcome(dep_lists(deps), stack, state, done) == outcome(dep_lists(deps), stack.drop_last(), state, done),
{
    let s2 = stack.drop_last();
    if s2.len() > 0 {
        assert(s2.last() == stack[stack.len() - 2]);
        assert(stack[stack.len() - 2].1 >= 1);
    }
}

/// Beginning the top frame's node: the outcome is that of finishing it as a
/// frame at its first dependency, with the node under way.
proof fn lemma_outcome_enter(deps: Seq<Vec<usize>>, state: Seq<u8>, done: Seq<usize>, stack: Seq<(usize, usize)>)
    requires
        search_state(deps, state, done, stack),
        stack.len() > 0,
        stack.last().1 == 0,
        state[stack.last().0 as int] == 0,
    ensures
        outcome(dep_lists(deps), stack, state, done) == resume(dep_lists(deps), stack, state.update(stack.last().0 as int, 1), done),
{
    let v = stack.last().0;
    let s2 = stack.drop_last();
    assert(s2.push(stack.last()) == stack);
    lemma_frame_names_push(s2, stack.last());
    lemma_zeros_update(state, v as int, 1);
}

/// Walking the top frame's next dependency: the outcome is that of visiting
/// it with the frame moved on by one.
proof fn lemma_outcome_descend(deps: Seq<Vec<usize>>, st: Seq<u8>, done: Seq<usize>, stack: Seq<(usize, usize)>)
    requires
        stack.len() > 0,
        (stack.last().0 as int) < deps.len(),
        (stack.last().1 as int) < deps[stack.last().0 as int]@.len(),
        stack.last().1 < usize::MAX,
    ensures
        ({
            let v = stack.last().0;
            let i = stack.last().1;
            let d = deps[v as int]@[i as int];
            resume(dep_lists(deps), stack, st, done) == outcome(dep_lists(deps), stack.drop_last().push((v, (i + 1) as usize)).push((d, 0usize)), st, done)
        }),
{
    let v = stack.last().0;
    let i = stack.last().1;
    let d = deps[v as int]@[i as int];
    let below = stack.drop_last();
    let moved = below.push((v, (i + 1) as usize));
    let s2 = moved.push((d, 0usize));
    assert(s2.drop_last() == moved);
    assert(moved.drop_last() == below);
    assert(below.push(stack.last()) == stack);
    lemma_frame_names_push(below, stack.last());
    lemma_frame_names_push(below, (v, (i + 1) as usize));
    assert(frame_names(moved) == frame_names(stack));
    lemma_visit_zeros(dep_lists(deps), d as int, st, done, frame_names(stack));
}

/// Placing the top frame's node once its dependencies are walked.
proof fn lemma_outcome_place(deps: Seq<Vec<usize>>, st: Seq<u8>, done: Seq<usize>, stack: Seq<(usize, usize)>)
    requires
        stack.len() > 0,
        (stack.last().0 as int) < deps.len(),
        (stack.last().1 as int) == deps[stack.last().0 as int]@.len(),
        forall|j: int| 0 <= j < stack.len() - 1 ==> (#[trigger] stack[j]).1 >= 1,
    ensures
        resume(dep_lists(deps), stack, st, done) == outcome(dep_lists(deps), stack.drop_last(), st.update(stack.last().0 as int, 2), done.push(stack.last().0)),
{
    let s2 = stack.drop_last();
    if s2.len() > 0 {
        assert(s2.last() == stack[stack.len() - 2]);
    }
}

/// The frames from the first one on the top frame's node up to the top
/// are a ring, each held once.
proof fn lemma_ring_found(
    deps: Seq<Vec<usize>>,
    state: Seq<u8>,
    done: Seq<usize>,
    old_stack: Seq<(usize, usize)>,
    ring: Seq<usize>,
    j: int,
)
    requires
        search_state(deps, state, done, old_stack),
        old_stack.len() > 0,
        old_stack.last().1 == 0,
        state[old_stack.last().0 as int] == 1,
        0 <= j < old_stack.len() - 1,
        old_stack[j].0 == old_stack.last().0,
        forall|t: int| 0 <= t < j ==> old_stack.drop_last()[t].0 != old_stack.last().0,
        ring.len() == old_stack.len() - 1 - j,
        forall|t: int| 0 <= t < ring.len() ==> ring[t] == (#[trigger] old_stack.drop_last()[j + t]).0,
    ensures
        ring.len() > 0,
        forall|k: int| 0 <= k < ring.len() ==> (#[trigger] ring[k] as int) < deps.len(),
        index_loop(deps, ring.push(ring[0])),
        forall|a: int, b: int| 0 <= a < b < ring.len() ==> ring[a] != ring[b],
{
    let v = old_stack.last().0;
    let s = old_stack.drop_last();
    let jw = choose|j: int| #[trigger] processed(old_stack, j) && old_stack[j].0 == v;
    lemma_ring_at(deps, state, done, old_stack, jw);
    if j < jw {
        assert(old_stack[j].0 != old_stack[jw].0);
    }
    if jw < j {
        assert(s[jw] == old_stack[jw]);
    }
    assert(j == jw);
    assert forall|t: int| 0 <= t < ring.len() implies ring[t] == old_stack[j + t].0 by {
        assert(s[j + t] == old_stack[j + t]);
    }
    assert(ring.push(ring[0]) =~= Seq::new((old_stack.len() - jw) as nat, |t: int| old_stack[jw + t].0));
    assert forall|k: int| 0 <= k < ring.len() implies (#[trigger] ring[k] as int) < deps.len() by {
        assert(ring[k] == old_stack[j + k].0);
    }
    assert forall|a: int, b: int| 0 <= a < b < ring.len() implies ring[a] != ring[b] by {
        assert(ring[a] == old_stack[jw + a].0);
        assert(ring[b] == old_stack[jw + b].0);
    }
}

/// The frames from the first one on `v` to the top: the ring that closes
/// when the walk comes back to `v`.
fn ring_of(stack: &Vec<(usize, usize)>, v: usize) -> (r: (Vec<usize>, Ghost<int>))
    requires
        exists|t: int| 0 <= t < stack@.len() && stack@[t].0 == v,
    ensures
        r.0@ == ring_from(frame_names(stack@), v),
        0 <= r.1@ < stack@.len(),
        stack@[r.1@].0 == v,
        forall|t: int| 0 <= t < r.1@ ==> stack@[t].0 != v,
        r.0@.len() == stack@.len() - r.1@,
        forall|t: int| 0 <= t < r.0@.len() ==> r.0@[t] == (#[trigger] stack@[r.1@ + t]).0,
{
    let ghost fnames = frame_names(stack@);
    let ghost jw = choose|t: int| 0 <= t < stack@.len() && stack@[t].0 == v;
    assert(fnames.skip(0) =~= fnames);
    let n = stack.len();
    let mut j: usize = 0;
    while stack[j].0 != v
        invariant
            n == stack@.len(),
            j <= jw < stack@.len(),
            stack@[jw].0 == v,
            fnames == frame_names(stack@),
            forall|t: int| 0 <= t < j ==> stack@[t].0 != v,
            ring_from(fnames, v) == ring_from(fnames.skip(j as int), v),
        decreases stack@.len() - j,
    {
        proof {
            assert(fnames[j as int] == stack@[j as int].0);
            assert(fnames.skip(j as int)[0] == stack@[j as int].0);
            assert(fnames.skip(j as int).drop_first() =~= fnames.skip(j + 1));
            assert(j != jw);
        }
        j = j + 1;
    }
    let mut ring: Vec<usize> = Vec::new();
    let mut k: usize = j;
    while k < stack.len()
        invariant
            j <= k <= stack@.len(),
            j < stack@.len(),
            stack@[j as int].0 == v,
            fnames == frame_names(stack@),
            ring_from(fnames, v) == ring_from(fnames.skip(j as int), v),
            ring@.len() == k - j,
            forall|t: int| 0 <= t < k - j ==> ring@[t] == (#[trigger] stack@[j + t]).0,
        decreases stack@.len() - k,
    {
        ring.push(stack[k].0);
        k = k + 1;
    }
    proof {
        assert(stack@[j as int].0 == v);
        assert(fnames[j as int] == stack@[j as int].0);
        assert forall|t: int| 0 <= t < ring@.len() implies ring@[t] == fnames.skip(j as int)[t] by {
            assert(ring@[t] == stack@[j + t].0);
            assert(fnames[j + t] == stack@[j + t].0);
        }
        assert(ring@ =~= fnames.skip(j as int));
        assert(fnames.skip(j as int)[0] == v);
    }
    (ring, Ghost(j as int))
}

/// Walks the graph depth first from each position in turn, placing a
/// position once everything it depends on is placed.
fn search(deps: &Vec<Vec<usize>>) -> (r: Result<Vec<usize>, Vec<usize>>)
    requires
        in_bounds(deps@),
    ensures
        r matches Ok(done) ==> placed_all(deps@.len() as int, done@) && topological(deps@, done@),
        r matches Err(ring) ==> ring@.len() > 0
            && (forall|k: int| 0 <= k < ring@.len() ==> (#[trigger] ring@[k] as int) < deps@.len())
            && index_loop(deps@, ring@.push(ring@[0]))
            && (forall|a: int, b: int| 0 <= a < b < ring@.len() ==> ring@[a] != ring@[b]),
        no_deps(deps@) ==> (r matches Ok(done) && forall|k: int| 0 <= k < done@.len() ==> done@[k] == k),
        r matches Ok(done) ==> depth_first(dep_lists(deps@)) == Ok::<Seq<usize>, Seq<usize>>(done@),
        r matches Err(ring) ==> depth_first(dep_lists(deps@)) == Err::<Seq<usize>, Seq<usize>>(ring@),
{
    let n = deps.len();
    let mut state: Vec<u8> = Vec::new();
    while state.len() < n
        invariant
            state@.len() <= n == deps@.len(),
            forall|x: int| 0 <= x < state@.len() ==> #[trigger] state@[x] == 0,
        decreases n - state@.len(),
    {
        state.push(0);
    }
    let mut done: Vec<usize> = Vec::new();
    let ghost empty: Seq<(usize, usize)> = Seq::empty();
    assert(search_state(deps@, state@, done@, empty));
    assert(state@ =~= Seq::new(deps@.len(), |i: int| 0u8));
    assert(done@ =~= Seq::<usize>::empty());
    let mut r: usize = 0;
    while r < n
        invariant
            n == deps@.len(),
            r <= n,
            in_bounds(deps@),
            search_state(deps@, state@, done@, Seq::<(usize, usize)>::empty()),
            forall|x: int| 0 <= x < r ==> #[trigger] state@[x] == 2,
            no_deps(deps@) ==> done@.len() == r && forall|k: int| 0 <= k < done@.len() ==> done@[k] == k,
            depth_first(dep_lists(deps@)) == from_roots(dep_lists(deps@), r as int, state@, done@),
        decreases n - r,
    {
        if state[r] != 2 {
            proof {
                if state@[r as int] == 1 {
                    let j = choose|j: int| #[trigger] processed(Seq::<(usize, usize)>::empty(), j)
                        && Seq::<(usize, usize)>::empty()[j].0 == r;
                }
                if no_deps(deps@) && done@.contains(r) {
                    let k = choose|k: int| 0 <= k < done@.len() && done@[k] == r;
                }
            }
            let mut stack: Vec<(usize, usize)> = Vec::new();
            stack.push((r, 0));
            proof {
                assert(stack@.drop_last() =~= Seq::<(usize, usize)>::empty());
                assert(frame_names(stack@.drop_last()) =~= Seq::<usize>::empty());
                let st = stack@;
                assert(st.len() == 1);
                assert(forall|j: int| #[trigger] processed(st, j) ==> false);
                assert(forall|j: int| 0 <= j < st.len() ==> #[trigger] st[j] == (r, 0usize));
            }
            while stack.len() > 0
                invariant
                    n == deps@.len(),
                    r < n,
                    in_bounds(deps@),
                    search_state(deps@, state@, done@, stack@),
                    forall|x: int| 0 <= x < r ==> #[trigger] state@[x] == 2,
                    state@[r as int] == 2 || (stack@.len() > 0 && stack@[0].0 == r),
                    no_deps(deps@) ==> (forall|k: int| 0 <= k < done@.len() ==> done@[k] == k)
                        && (stack@.len() > 0 ==> stack@ == seq![(r, 0usize)] && done@.len() == r)
                        && (stack@.len() == 0 ==> done@.len() == r + 1),
                    depth_first(dep_lists(deps@)) == then_roots(dep_lists(deps@), r as int, outcome(dep_lists(deps@), stack@, state@, done@)),
                decreases zeros(state@), pending(deps@, stack@),
            {
                let ghost old_stack = stack@;
                let ghost old_state = state@;
                let ghost old_done = done@;
                let frame = stack.pop().unwrap();
                let v = frame.0;
                let i = frame.1;
                assert(old_stack.last() == frame);
                assert(stack@ == old_stack.drop_last());
                if i == 0 {
                    if state[v] == 2 {
                        proof {
                            lemma_skip(deps@, old_state, old_done, old_stack);
                            lemma_outcome_skip(deps@, old_state, old_done, old_stack);
                        }
                        continue;
                    }
                    if state[v] == 1 {
                        proof {
                            let jw = choose|j: int| #[trigger] processed(old_stack, j) && old_stack[j].0 == v;
                            lemma_ring_at(deps@, old_state, old_done, old_stack, jw);
                            assert(stack@[jw] == old_stack[jw]);
                        }
                        let (ring, Ghost(j)) = ring_of(&stack, v);
                        proof {
                            lemma_ring_found(deps@, old_state, old_done, old_stack, ring@, j);
                        }
                        return Err(ring);
                    }
                    proof {
                        lemma_outcome_enter(deps@, old_state, old_done, old_stack);
                    }
                    state.set(v, 1);
                }
                assert(state@ == entered(old_state, old_stack));
                if i < deps[v].len() {
                    assert(deps@[v as int]@.len() == deps[v as int].len());
                    proof {
                        lemma_descend(deps@, old_state, old_done, old_stack);
                        lemma_entered(deps@, old_state, old_done, old_stack);
                        lemma_outcome_descend(deps@, state@, old_done, old_stack);
                    }
                    let d = deps[v][i];
                    stack.push((v, i + 1));
                    stack.push((d, 0));
                } else {
                    proof {
                        lemma_place(deps@, old_state, old_done, old_stack);
                        lemma_entered(deps@, old_state, old_done, old_stack);
                        lemma_outcome_place(deps@, state@, old_done, old_stack);
                    }
                    state.set(v, 2);
                    done.push(v);
                }
            }
            proof {
                assert(stack@ =~= Seq::<(usize, usize)>::empty());
            }
        }
        r = r + 1;
    }
    proof {
        assert forall|x: int| 0 <= x < n implies #[trigger] done@.contains(x as usize) by {
            assert(state@[x] == 2);
        }
    }
    Ok(done)
}


/// Distinct positions in a strictly sorted list hold distinct names.
proof fn lemma_distinct_keys(keys: Seq<Vec<char>>, a: int, b: int)
    requires
        strictly_sorted(keys),
        0 <= a < keys.len(),
        0 <= b < keys.len(),
        a != b,
    ensures
        keys[a]@ != keys[b]@,
{
    lemma_lex_irreflexive(keys[a]@);
    if a < b {
        assert(lex_lt(keys[a]@, keys[b]@));
    } else {
        assert(lex_lt(keys[b]@, keys[a]@));
    }
}

/// The names at the given positions of `keys`, in order.
fn names_at(keys: &Vec<Vec<char>>, at: &Vec<usize>) -> (out: Vec<String>)
    requires
        forall|k: int| 0 <= k < at@.len() ==> (#[trigger] at@[k] as int) < keys@.len(),
    ensures
        out@.len() == at@.len(),
        forall|k: int| 0 <= k < at@.len() ==> (#[trigger] out@[k])@ == keys@[at@[k] as int]@,
{
    let mut out: Vec<String> = Vec::new();
    let mut k: usize = 0;
    while k < at.len()
        invariant
            k <= at@.len(),
            out@.len() == k,
            forall|t: int| 0 <= t < at@.len() ==> (#[trigger] at@[t] as int) < keys@.len(),
            forall|t: int| 0 <= t < k ==> (#[trigger] out@[t])@ == keys@[at@[t] as int]@,
        decreases at@.len() - k,
    {
        let name = string_of(keys[at[k]].as_slice());
        out.push(name);
        k = k + 1;
    }
    out
}

/// `names` holds every declared name once, in code-point order.
pub open spec fn sorted_names(mods: Seq<(String, Vec<String>)>, names: Seq<Seq<char>>) -> bool {
    &&& forall|i: int, j: int| 0 <= i < j < names.len() ==> lex_lt(#[trigger] names[i], #[trigger] names[j])
    &&& forall|y: Seq<char>| #[trigger] names.contains(y) <==> declares(mods, y)
}

/// `lists[p]` holds, in increasing order, the positions in `names` of the
/// mods `names[p]` must follow.
pub open spec fn dep_graph(mods: Seq<(String, Vec<String>)>, names: Seq<Seq<char>>, lists: Seq<Seq<usize>>) -> bool {
    &&& lists.len() == names.len()
    &&& forall|p: int, a: int, b: int| 0 <= p < lists.len() && 0 <= a < b < lists[p].len()
        ==> #[trigger] lists[p][a] < #[trigger] lists[p][b]
    &&& forall|p: int, m: int| 0 <= p < lists.len() && 0 <= m < lists[p].len() ==> #[trigger] lists[p][m] < names.len()
    &&& forall|p: int, q: int| 0 <= p < names.len() && 0 <= q < names.len() ==>
        (#[trigger] lists[p].contains(q as usize) <==> #[trigger] must_follow(mods, names[p], names[q]))
}

/// The names at the given positions.
pub open spec fn names_of(names: Seq<Seq<char>>, at: Seq<usize>) -> Seq<Seq<char>> {
    at.map_values(|p: usize| names[p as int])
}

/// The depth-first walk, as names.
pub open spec fn walked(names: Seq<Seq<char>>, lists: Seq<Seq<usize>>) -> Result<Seq<Seq<char>>, Seq<Seq<char>>> {
    match depth_first(lists) {
        Ok(d) => Ok(names_of(names, d)),
        Err(g) => Err(names_of(names, g)),
    }
}

pub open spec fn key_views(keys: Seq<Vec<char>>) -> Seq<Seq<char>> {
    keys.map_values(|k: Vec<char>| k@)
}

/// The sorted keys and the graph the search runs on, as plain sequences.
proof fn lemma_views_of_search(mods: Seq<(String, Vec<String>)>, keys: Seq<Vec<char>>, deps: Seq<Vec<usize>>)
    requires
        strictly_sorted(keys),
        forall|y: Seq<char>| #[trigger] has_entry(keys, y) <==> declares(mods, y),
        graph_of(mods, keys, deps),
        keys.len() <= usize::MAX,
    ensures
        sorted_names(mods, key_views(keys)),
        dep_graph(mods, key_views(keys), dep_lists(deps)),
{
    let names = key_views(keys);
    let lists = dep_lists(deps);
    assert forall|y: Seq<char>| #[trigger] names.contains(y) <==> declares(mods, y) by {
        if names.contains(y) {
            let k = choose|k: int| 0 <= k < names.len() && names[k] == y;
            assert(keys[k]@ == y);
            assert(has_entry(keys, y));
        }
        if declares(mods, y) {
            assert(has_entry(keys, y));
            let k = choose|k: int| 0 <= k < keys.len() && #[trigger] keys[k]@ == y;
            assert(names[k] == y);
        }
    }
    assert forall|p: int, a: int, b: int| 0 <= p < lists.len() && 0 <= a < b < lists[p].len()
        implies #[trigger] lists[p][a] < #[trigger] lists[p][b] by {
        assert(increasing(deps[p]@));
    }
    assert forall|p: int, q: int| 0 <= p < names.len() && 0 <= q < names.len() implies
        (#[trigger] lists[p].contains(q as usize) <==> #[trigger] must_follow(mods, names[p], names[q])) by {
        if lists[p].contains(q as usize) {
            let m = choose|m: int| 0 <= m < lists[p].len() && lists[p][m] == q as usize;
            assert(deps[p]@[m] == q as usize);
            assert(deps[p]@[m] == q);
        }
        if must_follow(mods, keys[p]@, keys[q]@) {
            let m = choose|m: int| 0 <= m < deps[p]@.len() && #[trigger] deps[p]@[m] == q;
            assert(lists[p][m] == q as usize);
        }
    }
}

pub(crate) proof fn lemma_ascending_unique(a: Seq<Seq<char>>, b: Seq<Seq<char>>)
    requires
        forall|i: int, j: int| 0 <= i < j < a.len() ==> lex_lt(#[trigger] a[i], #[trigger] a[j]),
        forall|i: int, j: int| 0 <= i < j < b.len() ==> lex_lt(#[trigger] b[i], #[trigger] b[j]),
        forall|y: Seq<char>| #![trigger a.contains(y)] #![trigger b.contains(y)] a.contains(y) <==> b.contains(y),
    ensures
        a == b,
    decreases a.len(),
{
    if a.len() == 0 {
        if b.len() > 0 {
            assert(b.contains(b[0]));
        }
        assert(a =~= b);
    } else {
        assert(a.contains(a[0]));
        let k = choose|k: int| 0 <= k < b.len() && b[k] == a[0];
        assert(b.contains(b[0]));
        let t = choose|t: int| 0 <= t < a.len() && a[t] == b[0];
        if k > 0 {
            assert(lex_lt(b[0], b[k]));
            if t > 0 {
                assert(lex_lt(a[0], a[t]));
                lemma_lex_asymmetric(a[0], b[0]);
            } else {
                lemma_lex_irreflexive(a[0]);
            }
        }
        let a2 = a.drop_first();
        let b2 = b.drop_first();
        assert forall|y: Seq<char>| #![trigger a2.contains(y)] #![trigger b2.contains(y)] a2.contains(y) <==> b2.contains(y) by {
            if a2.contains(y) {
                let i = choose|i: int| 0 <= i < a2.len() && a2[i] == y;
                assert(a[i + 1] == y);
                assert(lex_lt(a[0], a[i + 1]));
                lemma_lex_irreflexive(y);
                assert(b.contains(y));
                let j = choose|j: int| 0 <= j < b.len() && b[j] == y;
                assert(j != 0);
                assert(b2[j - 1] == y);
            }
            if b2.contains(y) {
                let i = choose|i: int| 0 <= i < b2.len() && b2[i] == y;
                assert(b[i + 1] == y);
                assert(lex_lt(b[0], b[i + 1]));
                lemma_lex_irreflexive(y);
                assert(a.contains(y));
                let j = choose|j: int| 0 <= j < a.len() && a[j] == y;
                assert(j != 0);
                assert(a2[j - 1] == y);
            }
        }
        assert forall|i: int, j: int| 0 <= i < j < a2.len() implies lex_lt(#[trigger] a2[i], #[trigger] a2[j]) by {
            assert(a2[i] == a[i + 1] && a2[j] == a[j + 1]);
        }
        assert forall|i: int, j: int| 0 <= i < j < b2.len() implies lex_lt(#[trigger] b2[i], #[trigger] b2[j]) by {
            assert(b2[i] == b[i + 1] && b2[j] == b[j + 1]);
        }
        lemma_ascending_unique(a2, b2);
        assert(a =~= b) by {
            assert forall|i: int| 0 <= i < a.len() implies a[i] == b[i] by {
                if i > 0 {
                    assert(a[i] == a2[i - 1]);
                    assert(b[i] == b2[i - 1]);
                }
            }
        }
    }
}

proof fn lemma_increasing_unique(a: Seq<usize>, b: Seq<usize>)
    requires
        forall|i: int, j: int| 0 <= i < j < a.len() ==> #[trigger] a[i] < #[trigger] a[j],
        forall|i: int, j: int| 0 <= i < j < b.len() ==> #[trigger] b[i] < #[trigger] b[j],
        forall|y: usize| #![trigger a.contains(y)] #![trigger b.contains(y)] a.contains(y) <==> b.contains(y),
    ensures
        a == b,
    decreases a.len(),
{
    if a.len() == 0 {
        if b.len() > 0 {
            assert(b.contains(b[0]));
        }
        assert(a =~= b);
    } else {
        assert(a.contains(a[0]));
        let k = choose|k: int| 0 <= k < b.len() && b[k] == a[0];
        assert(b.contains(b[0]));
        let t = choose|t: int| 0 <= t < a.len() && a[t] == b[0];
        if k > 0 {
            assert(b[0] < b[k]);
            if t > 0 {
                assert(a[0] < a[t]);
            }
        }
        let a2 = a.drop_first();
        let b2 = b.drop_first();
        assert forall|y: usize| #![trigger a2.contains(y)] #![trigger b2.contains(y)] a2.contains(y) <==> b2.contains(y) by {
            if a2.contains(y) {
                let i = choose|i: int| 0 <= i < a2.len() && a2[i] == y;
                assert(a[i + 1] == y);
                assert(a[0] < a[i + 1]);
                assert(b.contains(y));
                let j = choose|j: int| 0 <= j < b.len() && b[j] == y;
                assert(j != 0);
                assert(b2[j - 1] == y);
            }
            if b2.contains(y) {
                let i = choose|i: int| 0 <= i < b2.len() && b2[i] == y;
                assert(b[i + 1] == y);
                assert(b[0] < b[i + 1]);
                assert(a.contains(y));
                let j = choose|j: int| 0 <= j < a.len() && a[j] == y;
                assert(j != 0);
                assert(a2[j - 1] == y);
            }
        }
        assert forall|i: int, j: int| 0 <= i < j < a2.len() implies #[trigger] a2[i] < #[trigger] a2[j] by {
            assert(a2[i] == a[i + 1] && a2[j] == a[j + 1]);
        }
        assert forall|i: int, j: int| 0 <= i < j < b2.len() implies #[trigger] b2[i] < #[trigger] b2[j] by {
            assert(b2[i] == b[i + 1] && b2[j] == b[j + 1]);
        }
        lemma_increasing_unique(a2, b2);
        assert(a =~= b) by {
            assert forall|i: int| 0 <= i < a.len() implies a[i] == b[i] by {
                if i > 0 {
                    assert(a[i] == a2[i - 1]);
                    assert(b[i] == b2[i - 1]);
                }
            }
        }
    }
}

/// The sorted names and the graph in `apply_order`'s contract are each the
/// only ones there are, so the order it states is one order.
pub proof fn lemma_search_input_unique(
    mods: Seq<(String, Vec<String>)>,
    names: Seq<Seq<char>>,
    other_names: Seq<Seq<char>>,
    lists: Seq<Seq<usize>>,
    other_lists: Seq<Seq<usize>>,
)
    requires
        sorted_names(mods, names),
        sorted_names(mods, other_names),
        dep_graph(mods, names, lists),
        dep_graph(mods, names, other_lists),
        names.len() <= usize::MAX,
    ensures
        names == other_names,
        lists == other_lists,
{
    assert forall|y: Seq<char>| #![trigger names.contains(y)] #![trigger other_names.contains(y)] names.contains(y) <==> other_names.contains(y) by {
        assert(names.contains(y) <==> declares(mods, y));
        assert(other_names.contains(y) <==> declares(mods, y));
    }
    lemma_ascending_unique(names, other_names);
    assert forall|p: int| 0 <= p < lists.len() implies #[trigger] lists[p] == other_lists[p] by {
        assert forall|y: usize| #![trigger lists[p].contains(y)] #![trigger other_lists[p].contains(y)] lists[p].contains(y) <==> other_lists[p].contains(y) by {
            if lists[p].contains(y) {
                let m = choose|m: int| 0 <= m < lists[p].len() && lists[p][m] == y;
                assert((y as int) < names.len());
                assert(lists[p].contains((y as int) as usize));
                assert(must_follow(mods, names[p], names[y as int]));
                assert(other_lists[p].contains((y as int) as usize));
            }
            if other_lists[p].contains(y) {
                let m = choose|m: int| 0 <= m < other_lists[p].len() && other_lists[p][m] == y;
                assert((y as int) < names.len());
                assert(other_lists[p].contains((y as int) as usize));
                assert(must_follow(mods, names[p], names[y as int]));
                assert(lists[p].contains((y as int) as usize));
            }
        }
        lemma_increasing_unique(lists[p], other_lists[p]);
    }
    assert(lists =~= other_lists);
}

/// The order depends only on which mods are here and which must follow
/// which: two lists of mods that agree on that -- the same mods listed in
/// another order, or with their `after` names in another order -- are
/// walked alike, so `apply_order` gives both the same result.
pub proof fn lemma_order_ignores_listing(
    a: Seq<(String, Vec<String>)>,
    b: Seq<(String, Vec<String>)>,
    names_a: Seq<Seq<char>>,
    lists_a: Seq<Seq<usize>>,
    names_b: Seq<Seq<char>>,
    lists_b: Seq<Seq<usize>>,
)
    requires
        forall|n: Seq<char>| #[trigger] declares(a, n) == declares(b, n),
        forall|x: Seq<char>, y: Seq<char>| #[trigger] must_follow(a, x, y) == must_follow(b, x, y),
        sorted_names(a, names_a),
        dep_graph(a, names_a, lists_a),
        sorted_names(b, names_b),
        dep_graph(b, names_b, lists_b),
        names_a.len() <= usize::MAX,
    ensures
        walked(names_a, lists_a) == walked(names_b, lists_b),
{
    assert forall|y: Seq<char>| #[trigger] names_b.contains(y) <==> declares(a, y) by {
        assert(declares(a, y) == declares(b, y));
    }
    assert(sorted_names(a, names_b));
    assert forall|y: Seq<char>| #![trigger names_a.contains(y)] #![trigger names_b.contains(y)]
        names_a.contains(y) <==> names_b.contains(y) by {
        assert(names_a.contains(y) <==> declares(a, y));
        assert(names_b.contains(y) <==> declares(a, y));
    }
    lemma_ascending_unique(names_a, names_b);
    assert forall|p: int, q: int| 0 <= p < names_a.len() && 0 <= q < names_a.len() implies
        (#[trigger] lists_b[p].contains(q as usize) <==> #[trigger] must_follow(a, names_a[p], names_a[q])) by {
        assert(must_follow(a, names_a[p], names_a[q]) == must_follow(b, names_b[p], names_b[q]));
    }
    assert(dep_graph(a, names_a, lists_b));
    lemma_search_input_unique(a, names_a, names_b, lists_a, lists_b);
}

/// Two lists declaring the same mods and the same `after` names sort and
/// link those names alike.
pub(crate) proof fn lemma_same_search_input(
    a: Seq<(String, Vec<String>)>,
    b: Seq<(String, Vec<String>)>,
    names: Seq<Seq<char>>,
    lists: Seq<Seq<usize>>,
)
    requires
        same_declarations(a, b),
        sorted_names(a, names),
        dep_graph(a, names, lists),
    ensures
        sorted_names(b, names),
        dep_graph(b, names, lists),
{
    lemma_same_declarations(a, b);
    assert forall|y: Seq<char>| #[trigger] names.contains(y) <==> declares(b, y) by {
        assert(declares(a, y) == declares(b, y));
    }
    assert forall|p: int, q: int| 0 <= p < names.len() && 0 <= q < names.len() implies
        (#[trigger] lists[p].contains(q as usize) <==> #[trigger] must_follow(b, names[p], names[q])) by {
        assert(must_follow(a, names[p], names[q]) == must_follow(b, names[p], names[q]));
    }
}

pub open spec fn order_view(r: Result<Vec<String>, Vec<String>>) -> Result<Seq<Seq<char>>, Seq<Seq<char>>> {
    match r {
        Ok(v) => Ok(v@.map_values(|t: String| t@)),
        Err(v) => Err(v@.map_values(|t: String| t@)),
    }
}

/// The order the mods' layers are applied in.
///
/// Alphabetical is the floor, because it is stable and predictable; a mod
/// naming others in `after` is lifted past each of them that is here. A name
/// nobody declared is ignored: `after` is about precedence, not need. A ring
/// of `after` declarations cannot be ordered, and comes back as an error
/// naming the mods of one ring, each once: each of them follows the next,
/// and the last follows the first.
///
/// Exactly: the names are walked depth first, in code-point order, each
/// mod's `after` names (those that are here) in code-point order too, and a
/// mod is placed once everything it names is placed (`walked`).
pub fn apply_order(mods: &[(String, Vec<String>)]) -> (r: Result<Vec<String>, Vec<String>>)
    ensures
        exists|names: Seq<Seq<char>>, lists: Seq<Seq<usize>>| #![trigger dep_graph(mods@, names, lists)]
            sorted_names(mods@, names) && dep_graph(mods@, names, lists) && order_view(r) == walked(names, lists),
        r matches Ok(order) ==> lists_each_once(mods@, order@) && respects_after(mods@, order@),
        r matches Err(ring) ==> has_loop(mods@) && ring@.len() > 0
            && (forall|k: int| 0 <= k < ring@.len() ==> declares(mods@, #[trigger] ring@[k]@))
            && forms_loop(mods@, texts(ring@).push(ring@[0]@))
            && (forall|a: int, b: int| 0 <= a < b < ring@.len() ==> ring@[a]@ != ring@[b]@),
        r is Ok <==> !has_loop(mods@),
        no_after_in_force(mods@) ==> (r matches Ok(order) && alphabetical(order@)),
{
    let keys = declared_keys(mods);
    let deps = graph(mods, &keys);
    proof {
        assert forall|p: int, m: int| 0 <= p < deps@.len() && 0 <= m < deps@[p]@.len() implies (#[trigger] deps@[p]@[m] as int) < deps@.len() by {}
        if no_after_in_force(mods@) {
            assert forall|p: int| 0 <= p < deps@.len() implies (#[trigger] deps@[p])@.len() == 0 by {
                if deps@[p]@.len() > 0 {
                    let q = deps@[p]@[0] as int;
                    assert(exists|m: int| 0 <= m < deps@[p]@.len() && #[trigger] deps@[p]@[m] == q);
                    assert(must_follow(mods@, keys@[p]@, keys@[q]@));
                }
            }
        }
    }
    match search(&deps) {
        Ok(done) => {
            let order = names_at(&keys, &done);
            proof {
                lemma_views_of_search(mods@, keys@, deps@);
                assert(order@.map_values(|t: String| t@) =~= names_of(key_views(keys@), done@));
                assert(order_view(Ok::<Vec<String>, Vec<String>>(order)) == walked(key_views(keys@), dep_lists(deps@)));
                assert forall|i: int, j: int| 0 <= i < j < order@.len() implies order@[i]@ != order@[j]@ by {
                    lemma_distinct_keys(keys@, done@[i] as int, done@[j] as int);
                }
                assert forall|i: int| 0 <= i < order@.len() implies declares(mods@, #[trigger] order@[i]@) by {
                    assert(has_entry(keys@, keys@[done@[i] as int]@));
                }
                assert forall|n: Seq<char>| #[trigger] declares(mods@, n) implies
                    exists|i: int| 0 <= i < order@.len() && order@[i]@ == n by {
                    assert(has_entry(keys@, n));
                    let p = choose|p: int| 0 <= p < keys@.len() && #[trigger] keys@[p]@ == n;
                    assert(done@.contains(p as usize));
                    let t = choose|t: int| 0 <= t < done@.len() && done@[t] == p as usize;
                    assert(order@[t]@ == n);
                }
                assert forall|i: int, j: int|
                    0 <= i < order@.len() && 0 <= j < order@.len() && must_follow(mods@, #[trigger] order@[j]@, #[trigger] order@[i]@)
                    implies i < j by {
                    let a = done@[j] as int;
                    let b = done@[i] as int;
                    assert(must_follow(mods@, keys@[a]@, keys@[b]@));
                    let m = choose|m: int| 0 <= m < deps@[a]@.len() && #[trigger] deps@[a]@[m] == b;
                    assert(placed_before(done@, j, deps@[done@[j] as int]@[m]));
                    let t = choose|t: int| 0 <= t && t < j && done@[t] == b;
                    if t != i {
                        assert(done@[t] != done@[i]);
                    }
                }
                if no_after_in_force(mods@) {
                    assert forall|i: int, j: int| 0 <= i < j < order@.len() implies lex_lt(#[trigger] order@[i]@, #[trigger] order@[j]@) by {
                        assert(done@[i] == i && done@[j] == j);
                    }
                }
                if has_loop(mods@) {
                    let path = choose|path: Seq<Seq<char>>| forms_loop(mods@, path);
                    lemma_loop_has_no_order(mods@, order@, path);
                }
            }
            Ok(order)
        },
        Err(ring) => {
            let names = names_at(&keys, &ring);
            proof {
                lemma_views_of_search(mods@, keys@, deps@);
                assert(names@.map_values(|t: String| t@) =~= names_of(key_views(keys@), ring@));
                assert(order_view(Err::<Vec<String>, Vec<String>>(names)) == walked(key_views(keys@), dep_lists(deps@)));
                let path = ring@.push(ring@[0]);
                let named = Seq::new(path.len(), |t: int| keys@[path[t] as int]@);
                assert forall|t: int| 0 <= t < named.len() - 1 implies #[trigger] must_follow(mods@, named[t], named[t + 1]) by {
                    let a = path[t] as int;
                    let b = path[t + 1];
                    assert(deps@[a]@.contains(b));
                    let m = choose|m: int| 0 <= m < deps@[a]@.len() && deps@[a]@[m] == b;
                    assert(deps@[a]@[m] == b as int);
                }
                assert(forms_loop(mods@, named));
                assert(named =~= texts(names@).push(names@[0]@));
                assert forall|a: int, b: int| 0 <= a < b < names@.len() implies names@[a]@ != names@[b]@ by {
                    lemma_distinct_keys(keys@, ring@[a] as int, ring@[b] as int);
                }
                assert forall|k: int| 0 <= k < names@.len() implies declares(mods@, #[trigger] names@[k]@) by {
                    assert(has_entry(keys@, keys@[ring@[k] as int]@));
                }
            }
            Err(names)
        },
    }
}

/// An order in which every mod comes after those it must follow leaves no
/// room for a ring: the mods in one would each have to come first.
pub proof fn lemma_loop_has_no_order(mods: Seq<(String, Vec<String>)>, order: Seq<String>, path: Seq<Seq<char>>)
    requires
        lists_each_once(mods, order),
        respects_after(mods, order),
    ensures
        !forms_loop(mods, path),
{
    if forms_loop(mods, path) {
        lemma_ring_descends(mods, order, path);
    }
}

proof fn lemma_ring_descends(mods: Seq<(String, Vec<String>)>, order: Seq<String>, path: Seq<Seq<char>>)
    requires
        lists_each_once(mods, order),
        respects_after(mods, order),
        forms_loop(mods, path),
    ensures
        path[0] != path[path.len() - 1],
{
    // Each step of the ring moves strictly earlier in `order`.
    let pos = |n: Seq<char>| choose|i: int| 0 <= i < order.len() && order[i]@ == n;
    assert forall|k: int| 0 <= k < path.len() implies 0 <= #[trigger] pos(path[k]) < order.len()
        && order[pos(path[k])]@ == path[k] by {
        if k < path.len() - 1 {
            assert(must_follow(mods, path[k], path[k + 1]));
        } else {
            assert(must_follow(mods, path[k - 1], path[(k - 1) + 1]));
            assert((k - 1) + 1 == k);
        }
        assert(declares(mods, path[k]));
    }
    assert forall|k: int| 0 <= k < path.len() - 1 implies #[trigger] pos(path[k + 1]) < pos(path[k]) by {
        assert(must_follow(mods, path[k], path[k + 1]));
        assert(must_follow(mods, order[pos(path[k])]@, order[pos(path[k + 1])]@));
    }
    lemma_descending(path, pos, path.len() - 1);
}

proof fn lemma_descending(path: Seq<Seq<char>>, pos: spec_fn(Seq<char>) -> int, k: int)
    requires
        0 < k < path.len(),
        forall|t: int| 0 <= t < path.len() - 1 ==> #[trigger] pos(path[t + 1]) < pos(path[t]),
    ensures
        pos(path[k]) < pos(path[0]),
    decreases k,
{
    if k > 1 {
        lemma_descending(path, pos, k - 1);
        assert(pos(path[(k - 1) + 1]) < pos(path[k - 1]));
    } else {
        assert(pos(path[0int + 1]) < pos(path[0int]));
    }
}

/// Two lists of declarations that say the same: the same names, each with
/// the same `after`, in the same order.
pub open spec fn same_declarations(a: Seq<(String, Vec<String>)>, b: Seq<(String, Vec<String>)>) -> bool {
    &&& a.len() == b.len()
    &&& forall|i: int| 0 <= i < a.len() ==> (#[trigger] a[i]).0@ == b[i].0@ && a[i].1@ == b[i].1@
}

proof fn lemma_last_entry_bounds(mods: Seq<(String, Vec<String>)>, n: Seq<char>, k: int)
    requires
        0 <= k,
    ensures
        -1 <= last_entry_before(mods, n, k) < k,
    decreases k,
{
    if k > 0 && mods[k - 1].0@ != n {
        lemma_last_entry_bounds(mods, n, k - 1);
    }
}

proof fn lemma_last_entry_same(a: Seq<(String, Vec<String>)>, b: Seq<(String, Vec<String>)>, n: Seq<char>, k: int)
    requires
        same_declarations(a, b),
        k <= a.len(),
    ensures
        last_entry_before(a, n, k) == last_entry_before(b, n, k),
    decreases k,
{
    if k > 0 {
        assert(a[k - 1].0@ == b[k - 1].0@);
        lemma_last_entry_same(a, b, n, k - 1);
    }
}

/// Declarations that say the same are ordered the same: everything the
/// order is judged by reads only their names and `after` lists.
pub proof fn lemma_same_declarations(a: Seq<(String, Vec<String>)>, b: Seq<(String, Vec<String>)>)
    requires
        same_declarations(a, b),
    ensures
        forall|n: Seq<char>| #[trigger] declares(a, n) == declares(b, n),
        forall|x: Seq<char>, y: Seq<char>| #[trigger] must_follow(a, x, y) == must_follow(b, x, y),
        has_loop(a) == has_loop(b),
        forall|o: Seq<String>| #[trigger] lists_each_once(a, o) == lists_each_once(b, o),
        forall|o: Seq<String>| #[trigger] respects_after(a, o) == respects_after(b, o),
{
    assert forall|n: Seq<char>| #[trigger] declares(a, n) == declares(b, n) by {
        if declares(a, n) {
            let i = choose|i: int| 0 <= i < a.len() && #[trigger] a[i].0@ == n;
            assert(b[i].0@ == n);
        }
        if declares(b, n) {
            let i = choose|i: int| 0 <= i < b.len() && #[trigger] b[i].0@ == n;
            assert(a[i].0@ == n);
        }
    }
    assert forall|x: Seq<char>, y: Seq<char>| #[trigger] must_follow(a, x, y) == must_follow(b, x, y) by {
        lemma_last_entry_same(a, b, x, a.len() as int);
        lemma_last_entry_bounds(a, x, a.len() as int);
        let e = last_entry_before(a, x, a.len() as int);
        if 0 <= e {
            assert(a[e].1@ == b[e].1@);
        }
    }
    assert forall|p: Seq<Seq<char>>| #[trigger] forms_loop(a, p) == forms_loop(b, p) by {
        if forms_loop(a, p) {
            assert forall|k: int| 0 <= k < p.len() - 1 implies #[trigger] must_follow(b, p[k], p[k + 1]) by {
                assert(must_follow(a, p[k], p[k + 1]));
            }
        }
        if forms_loop(b, p) {
            assert forall|k: int| 0 <= k < p.len() - 1 implies #[trigger] must_follow(a, p[k], p[k + 1]) by {
                assert(must_follow(b, p[k], p[k + 1]));
            }
        }
    }
    if has_loop(a) {
        let p = choose|p: Seq<Seq<char>>| forms_loop(a, p);
        assert(forms_loop(b, p));
    }
    if has_loop(b) {
        let p = choose|p: Seq<Seq<char>>| forms_loop(b, p);
        assert(forms_loop(a, p));
    }
    assert forall|o: Seq<String>| #[trigger] lists_each_once(a, o) == lists_each_once(b, o) by {
        if lists_each_once(a, o) {
            assert forall|i: int| 0 <= i < o.len() implies declares(b, #[trigger] o[i]@) by {
                assert(declares(a, o[i]@));
            }
            assert forall|n: Seq<char>| #[trigger] declares(b, n) implies exists|i: int| 0 <= i < o.len() && o[i]@ == n by {
                assert(declares(a, n));
            }
        }
        if lists_each_once(b, o) {
            assert forall|i: int| 0 <= i < o.len() implies declares(a, #[trigger] o[i]@) by {
                assert(declares(b, o[i]@));
            }
            assert forall|n: Seq<char>| #[trigger] declares(a, n) implies exists|i: int| 0 <= i < o.len() && o[i]@ == n by {
                assert(declares(b, n));
            }
        }
    }
    assert forall|o: Seq<String>| #[trigger] respects_after(a, o) == respects_after(b, o) by {
        if respects_after(a, o) {
            assert forall|i: int, j: int| 0 <= i < o.len() && 0 <= j < o.len() && must_follow(b, #[trigger] o[j]@, #[trigger] o[i]@) implies i < j by {
                assert(must_follow(a, o[j]@, o[i]@));
            }
        }
        if respects_after(b, o) {
            assert forall|i: int, j: int| 0 <= i < o.len() && 0 <= j < o.len() && must_follow(a, #[trigger] o[j]@, #[trigger] o[i]@) implies i < j by {
                assert(must_follow(b, o[j]@, o[i]@));
            }
        }
    }
}

} // verus!

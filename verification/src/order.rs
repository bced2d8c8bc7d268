//! Ordering text the way `str`'s `Ord` does (by code point), and keeping a
//! sorted set of names.

use vstd::prelude::*;
use crate::text::chars_of;

verus! {

/// `a < b` in the order `String` compares by: character by character, by
/// code point, a proper prefix first.
pub open spec fn lex_lt(a: Seq<char>, b: Seq<char>) -> bool
    decreases a.len(),
{
    if a.len() == 0 {
        b.len() > 0
    } else if b.len() == 0 {
        false
    } else if a[0] != b[0] {
        (a[0] as int) < (b[0] as int)
    } else {
        lex_lt(a.drop_first(), b.drop_first())
    }
}

pub proof fn lemma_lex_irreflexive(a: Seq<char>)
    ensures
        !lex_lt(a, a),
    decreases a.len(),
{
    if a.len() > 0 {
        lemma_lex_irreflexive(a.drop_first());
    }
}

pub proof fn lemma_lex_asymmetric(a: Seq<char>, b: Seq<char>)
    ensures
        !(lex_lt(a, b) && lex_lt(b, a)),
    decreases a.len(),
{
    if a.len() > 0 && b.len() > 0 && a[0] == b[0] {
        lemma_lex_asymmetric(a.drop_first(), b.drop_first());
    }
}

pub proof fn lemma_lex_transitive(a: Seq<char>, b: Seq<char>, c: Seq<char>)
    requires
        lex_lt(a, b),
        lex_lt(b, c),
    ensures
        lex_lt(a, c),
    decreases a.len(),
{
    if a.len() > 0 && b.len() > 0 && c.len() > 0 && a[0] == b[0] && b[0] == c[0] {
        lemma_lex_transitive(a.drop_first(), b.drop_first(), c.drop_first());
    }
}

pub proof fn lemma_lex_total(a: Seq<char>, b: Seq<char>)
    ensures
        a == b || lex_lt(a, b) || lex_lt(b, a),
    decreases a.len(),
{
    if a.len() > 0 && b.len() > 0 && a[0] == b[0] {
        lemma_lex_total(a.drop_first(), b.drop_first());
        if a.drop_first() == b.drop_first() {
            assert(a == seq![a[0]] + a.drop_first());
            assert(b == seq![b[0]] + b.drop_first());
        }
    } else if a.len() == 0 && b.len() == 0 {
        assert(a == b);
    }
}

/// Compares as `str` does: negative, zero or positive.
pub fn compare(a: &[char], b: &[char]) -> (r: i8)
    ensures
        r < 0 <==> lex_lt(a@, b@),
        r == 0 <==> a@ == b@,
        r > 0 <==> lex_lt(b@, a@),
{
    proof {
        lemma_lex_asymmetric(a@, b@);
        lemma_lex_irreflexive(a@);
    }
    assert(a@.skip(0) == a@);
    assert(b@.skip(0) == b@);
    let mut k: usize = 0;
    while k < a.len() && k < b.len()
        invariant
            k <= a@.len(),
            k <= b@.len(),
            a@.take(k as int) == b@.take(k as int),
            lex_lt(a@, b@) == lex_lt(a@.skip(k as int), b@.skip(k as int)),
            lex_lt(b@, a@) == lex_lt(b@.skip(k as int), a@.skip(k as int)),
        decreases a@.len() - k,
    {
        if a[k] != b[k] {
            if a[k] < b[k] {
                return -1;
            } else {
                return 1;
            }
        }
        assert(a@.skip(k as int).drop_first() == a@.skip(k + 1));
        assert(b@.skip(k as int).drop_first() == b@.skip(k + 1));
        k = k + 1;
        assert(a@.take(k as int) == a@.take(k - 1).push(a@[k - 1]));
        assert(b@.take(k as int) == b@.take(k - 1).push(b@[k - 1]));
    }
    if a.len() == b.len() {
        assert(a@ == a@.take(k as int));
        assert(b@ == b@.take(k as int));
        0
    } else if a.len() < b.len() {
        -1
    } else {
        1
    }
}

/// Every element is strictly below every later one.
pub open spec fn strictly_sorted(s: Seq<Vec<char>>) -> bool {
    forall|i: int, j: int| 0 <= i < j < s.len() ==> lex_lt(#[trigger] s[i]@, #[trigger] s[j]@)
}

/// `y` is one of the entries of `s`.
pub open spec fn has_entry(s: Seq<Vec<char>>, y: Seq<char>) -> bool {
    exists|i: int| 0 <= i < s.len() && #[trigger] s[i]@ == y
}

/// Where `x` is in a strictly sorted list: `Ok` with its index, or `Err`
/// with the index it would be inserted at.
pub fn locate(keys: &Vec<Vec<char>>, x: &[char]) -> (r: Result<usize, usize>)
    requires
        strictly_sorted(keys@),
    ensures
        r matches Ok(i) ==> i < keys@.len() && keys@[i as int]@ == x@,
        r matches Err(i) ==> i <= keys@.len()
            && (forall|j: int| 0 <= j < i ==> lex_lt(#[trigger] keys@[j]@, x@))
            && (forall|j: int| i <= j < keys@.len() ==> lex_lt(x@, #[trigger] keys@[j]@)),
{
    let mut lo: usize = 0;
    let mut hi: usize = keys.len();
    while lo < hi
        invariant
            lo <= hi <= keys@.len(),
            strictly_sorted(keys@),
            forall|j: int| 0 <= j < lo ==> lex_lt(#[trigger] keys@[j]@, x@),
            forall|j: int| hi <= j < keys@.len() ==> lex_lt(x@, #[trigger] keys@[j]@),
        decreases hi - lo,
    {
        let mid = lo + (hi - lo) / 2;
        let c = compare(keys[mid].as_slice(), x);
        if c == 0 {
            return Ok(mid);
        } else if c < 0 {
            assert forall|j: int| 0 <= j < mid + 1 implies lex_lt(#[trigger] keys@[j]@, x@) by {
                if j < mid {
                    lemma_lex_transitive(keys@[j]@, keys@[mid as int]@, x@);
                }
            }
            lo = mid + 1;
        } else {
            assert forall|j: int| mid <= j < keys@.len() implies lex_lt(x@, #[trigger] keys@[j]@) by {
                if j > mid {
                    lemma_lex_transitive(x@, keys@[mid as int]@, keys@[j]@);
                }
            }
            hi = mid;
        }
    }
    Err(lo)
}

/// Adds `x` to a strictly sorted list unless it is there already.
pub fn insert_sorted(keys: &mut Vec<Vec<char>>, x: Vec<char>)
    requires
        strictly_sorted(old(keys)@),
    ensures
        strictly_sorted(final(keys)@),
        forall|y: Seq<char>| #[trigger] has_entry(final(keys)@, y) <==> (y == x@ || has_entry(old(keys)@, y)),
{
    match locate(keys, x.as_slice()) {
        Ok(_) => {},
        Err(i) => {
            let ghost before = keys@;
            keys.insert(i, x);
            assert forall|a: int, b: int| 0 <= a < b < keys@.len() implies lex_lt(#[trigger] keys@[a]@, #[trigger] keys@[b]@) by {
                if b < i {
                } else if a < i && b == i {
                } else if a < i {
                    assert(keys@[b] == before[b - 1]);
                } else if a == i {
                    assert(keys@[b] == before[b - 1]);
                } else {
                    assert(keys@[a] == before[a - 1]);
                    assert(keys@[b] == before[b - 1]);
                }
            }
            assert forall|y: Seq<char>| #[trigger] has_entry(keys@, y) <==> (y == x@ || has_entry(before, y)) by {
                if has_entry(keys@, y) {
                    let k = choose|k: int| 0 <= k < keys@.len() && #[trigger] keys@[k]@ == y;
                    if k < i {
                        assert(before[k]@ == y);
                    } else if k > i {
                        assert(before[k - 1]@ == y);
                    }
                }
                if has_entry(before, y) {
                    let k = choose|k: int| 0 <= k < before.len() && #[trigger] before[k]@ == y;
                    if k < i {
                        assert(keys@[k]@ == y);
                    } else {
                        assert(keys@[k + 1]@ == y);
                    }
                }
                if y == x@ {
                    assert(keys@[i as int]@ == y);
                }
            }
        },
    }
}

} // verus!

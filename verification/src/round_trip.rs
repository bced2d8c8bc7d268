//! What the files this library writes read back as: the tab-separated
//! pairs and the lists of choices.
use vstd::prelude::*;
use crate::text::{first_at_or_after, lemma_line_end, line_end, occurs_at};
use crate::tables::line_at;
use crate::report::{flattened, line_text, pair_views, pairs_from, pairs_text};
use crate::text::{is_ws, joined_with, trim, trim_end, trim_start, lemma_trim_keeps_first};
use crate::mods::{chosen_names, list_file_text, listed_names, without_name};

verus! {

/// Past the end of `a`, lines of `a + b` are the lines of `b`.
proof fn lemma_line_end_shift(a: Seq<char>, b: Seq<char>, at: int)
    requires
        a.len() <= at,
    ensures
        line_end(a + b, at) == a.len() + line_end(b, at - a.len()),
    decreases (a + b).len() - at,
{
    if at < (a + b).len() && (a + b)[at] != '\n' {
        lemma_line_end_shift(a, b, at + 1);
    }
}

/// Inside `a`, when `a` ends a line, lines of `a + b` are the lines of `a`.
proof fn lemma_line_end_within(a: Seq<char>, b: Seq<char>, at: int)
    requires
        0 <= at < a.len(),
        a.last() == '\n',
    ensures
        line_end(a + b, at) == line_end(a, at),
        line_end(a, at) <= a.len(),
    decreases a.len() - at,
{
    if (a + b)[at] != '\n' {
        assert(at != a.len() - 1);
        lemma_line_end_within(a, b, at + 1);
    }
}

/// A line holding no break before its last character ends there.
proof fn lemma_line_end_whole(s: Seq<char>, at: int)
    requires
        0 <= at < s.len(),
        s.last() == '\n',
        forall|k: int| at <= k < s.len() - 1 ==> s[k] != '\n',
    ensures
        line_end(s, at) == s.len(),
    decreases s.len() - at,
{
    if s[at] != '\n' {
        lemma_line_end_whole(s, at + 1);
    }
}

/// `p` first occurs at `i`, from `from` on, when it occurs there and at no
/// earlier place.
proof fn lemma_first_at(s: Seq<char>, p: Seq<char>, from: int, i: int)
    requires
        0 <= from <= i,
        occurs_at(s, p, i),
        forall|j: int| from <= j < i ==> !occurs_at(s, p, j),
    ensures
        first_at_or_after(s, p, from) == Some(i),
    decreases i - from,
{
    if from < i {
        lemma_first_at(s, p, from + 1, i);
    }
}

proof fn lemma_pairs_shift(a: Seq<char>, b: Seq<char>, at: int)
    requires
        a.len() <= at,
    ensures
        pairs_from(a + b, at) == pairs_from(b, at - a.len()),
    decreases (a + b).len() - at,
{
    if at < (a + b).len() {
        lemma_line_end_shift(a, b, at);
        lemma_line_end(a + b, at);
        assert(line_at(a + b, at) == line_at(b, at - a.len()));
        lemma_pairs_shift(a, b, line_end(a + b, at));
    }
}

proof fn lemma_pairs_split(a: Seq<char>, b: Seq<char>, at: int)
    requires
        0 <= at <= a.len(),
        a.len() == 0 || a.last() == '\n',
    ensures
        pairs_from(a + b, at) == pairs_from(a, at) + pairs_from(b, 0),
    decreases a.len() - at,
{
    if at == a.len() {
        lemma_pairs_shift(a, b, at);
        assert(pairs_from(a, at) == Seq::<(Seq<char>, Seq<char>)>::empty());
    } else {
        lemma_line_end_within(a, b, at);
        lemma_line_end(a, at);
        assert(line_at(a + b, at) == line_at(a, at));
        lemma_pairs_split(a, b, line_end(a, at));
    }
}

/// The characters of a flattened field are none of tab, line feed or
/// carriage return.
proof fn lemma_flat_chars(s: Seq<char>)
    ensures
        forall|k: int| 0 <= k < flattened(s).len() ==> {
            &&& #[trigger] flattened(s)[k] != '\t'
            &&& flattened(s)[k] != '\n'
            &&& flattened(s)[k] != '\r'
        },
{
}

/// One written line reads back as its pair.
proof fn lemma_pairs_line(f0: Seq<char>, f1: Seq<char>)
    requires
        forall|k: int| 0 <= k < f0.len() ==> f0[k] != '\t' && f0[k] != '\n' && f0[k] != '\r',
        forall|k: int| 0 <= k < f1.len() ==> f1[k] != '\t' && f1[k] != '\n' && f1[k] != '\r',
    ensures
        pairs_from(f0 + seq!['\t'] + f1 + seq!['\n'], 0) == seq![(f0, f1)],
{
    let line = f0 + seq!['\t'] + f1 + seq!['\n'];
    let n = line.len() as int;
    assert forall|k: int| 0 <= k < n - 1 implies line[k] != '\n' by {
        if k < f0.len() {
            assert(line[k] == f0[k]);
        } else if k > f0.len() {
            assert(line[k] == f1[k - f0.len() - 1]);
        }
    }
    lemma_line_end_whole(line, 0);
    assert(line_at(line, 0) == line);
    let t = f0 + seq!['\t'] + f1;
    if n >= 2 {
        if n - 2 < f0.len() {
        } else if n - 2 > f0.len() {
            assert(line[n - 2] == f1[n - 2 - f0.len() - 1]);
        }
    }
    assert(line_text(line) == t);
    assert forall|j: int| 0 <= j < f0.len() implies !occurs_at(t, seq!['\t'], j) by {
        assert(t.subrange(j, j + 1)[0] == f0[j]);
    }
    assert(t.subrange(f0.len() as int, f0.len() + 1 as int) == seq!['\t']);
    lemma_first_at(t, seq!['\t'], 0, f0.len() as int);
    assert(t.take(f0.len() as int) == f0);
    assert(t.skip(f0.len() + 1 as int) == f1);
    assert(pairs_from(line, n) == Seq::<(Seq<char>, Seq<char>)>::empty());
}

/// Both fields of each pair, each on one line.
pub open spec fn flattened_pairs(v: Seq<(Seq<char>, Seq<char>)>) -> Seq<(Seq<char>, Seq<char>)> {
    v.map_values(|p: (Seq<char>, Seq<char>)| (flattened(p.0), flattened(p.1)))
}

proof fn lemma_pairs_text_read(v: Seq<(Seq<char>, Seq<char>)>)
    ensures
        pairs_from(pairs_text(v), 0) == flattened_pairs(v),
        pairs_text(v).len() == 0 || pairs_text(v).last() == '\n',
    decreases v.len(),
{
    if v.len() == 0 {
        assert(pairs_from(pairs_text(v), 0) == Seq::<(Seq<char>, Seq<char>)>::empty());
    } else {
        let rest = v.drop_last();
        lemma_pairs_text_read(rest);
        let f0 = flattened(v.last().0);
        let f1 = flattened(v.last().1);
        lemma_flat_chars(v.last().0);
        lemma_flat_chars(v.last().1);
        let line = f0 + seq!['\t'] + f1 + seq!['\n'];
        assert(pairs_text(v) == pairs_text(rest) + line);
        lemma_pairs_split(pairs_text(rest), line, 0);
        lemma_pairs_line(f0, f1);
        assert(flattened_pairs(v) == flattened_pairs(rest).push((f0, f1)));
    }
}

/// A field with nothing to flatten is written as it is.
proof fn lemma_flat_plain(s: Seq<char>)
    requires
        forall|k: int| 0 <= k < s.len() ==> s[k] != '\t' && s[k] != '\n' && s[k] != '\r',
    ensures
        flattened(s) == s,
{
    assert(flattened(s) =~= s);
}

/// One line of a pairs file: no tab, line feed or carriage return in it.
pub open spec fn one_field(s: Seq<char>) -> bool {
    forall|k: int| 0 <= k < s.len() ==> s[k] != '\t' && s[k] != '\n' && s[k] != '\r'
}

/// Pairs written with `write_pairs` read back with `read_pairs` as the same
/// pairs, each field flattened onto one line; pairs whose fields hold no tab
/// or line break read back exactly.
pub proof fn lemma_pairs_read_back(v: Seq<(String, String)>)
    ensures
        pairs_from(pairs_text(pair_views(v)), 0) == flattened_pairs(pair_views(v)),
        (forall|i: int| 0 <= i < v.len() ==> one_field((#[trigger] v[i]).0@) && one_field(v[i].1@))
            ==> pairs_from(pairs_text(pair_views(v)), 0) == pair_views(v),
{
    lemma_pairs_text_read(pair_views(v));
    if forall|i: int| 0 <= i < v.len() ==> one_field((#[trigger] v[i]).0@) && one_field(v[i].1@) {
        assert forall|i: int| 0 <= i < v.len() implies #[trigger] flattened_pairs(pair_views(v))[i] == pair_views(v)[i] by {
            lemma_flat_plain(v[i].0@);
            lemma_flat_plain(v[i].1@);
        }
        assert(flattened_pairs(pair_views(v)) =~= pair_views(v));
    }
}

proof fn lemma_names_shift(a: Seq<char>, b: Seq<char>, at: int)
    requires
        a.len() <= at,
    ensures
        listed_names(a + b, at) == listed_names(b, at - a.len()),
    decreases (a + b).len() - at,
{
    if at < (a + b).len() {
        lemma_line_end_shift(a, b, at);
        lemma_line_end(a + b, at);
        assert(line_at(a + b, at) == line_at(b, at - a.len()));
        lemma_names_shift(a, b, line_end(a + b, at));
    }
}

proof fn lemma_names_split(a: Seq<char>, b: Seq<char>, at: int)
    requires
        0 <= at <= a.len(),
        a.len() == 0 || a.last() == '\n',
    ensures
        listed_names(a + b, at) == listed_names(a, at) + listed_names(b, 0),
    decreases a.len() - at,
{
    if at == a.len() {
        lemma_names_shift(a, b, at);
        assert(listed_names(a, at) == Seq::<Seq<char>>::empty());
    } else {
        lemma_line_end_within(a, b, at);
        lemma_line_end(a, at);
        assert(line_at(a + b, at) == line_at(a, at));
        lemma_names_split(a, b, line_end(a, at));
    }
}

/// A name a list file can carry on a line of its own and read back as it
/// is: not empty, no line break in it, no white space at either end, and
/// not a `#` comment.
pub open spec fn listable(n: Seq<char>) -> bool {
    &&& n.len() > 0
    &&& !is_ws(n[0])
    &&& !is_ws(n.last())
    &&& n[0] != '#'
    &&& forall|k: int| 0 <= k < n.len() ==> n[k] != '\n'
}

/// A line with no break but its last character is the whole of `line_at`.
proof fn lemma_one_line(c: Seq<char>)
    requires
        forall|k: int| 0 <= k < c.len() ==> c[k] != '\n',
    ensures
        line_end(c + seq!['\n'], 0) == c.len() + 1,
        line_at(c + seq!['\n'], 0) == c + seq!['\n'],
{
    let line = c + seq!['\n'];
    assert forall|k: int| 0 <= k < line.len() - 1 implies line[k] != '\n' by {
        assert(line[k] == c[k]);
    }
    lemma_line_end_whole(line, 0);
}

proof fn lemma_name_line(n: Seq<char>)
    requires
        listable(n),
    ensures
        listed_names(n + seq!['\n'], 0) == seq![n],
{
    let line = n + seq!['\n'];
    lemma_one_line(n);
    assert(line.drop_last() == n);
    assert(trim_end(line) == trim_end(n));
    assert(trim_end(n) == n);
    assert(trim_start(n) == n);
    assert(trim(line) == n);
    assert(listed_names(line, line.len() as int) == Seq::<Seq<char>>::empty());
}

proof fn lemma_comment_line(c: Seq<char>)
    requires
        c.len() > 0,
        c[0] == '#',
        forall|k: int| 0 <= k < c.len() ==> c[k] != '\n',
    ensures
        listed_names(c + seq!['\n'], 0) == Seq::<Seq<char>>::empty(),
{
    let line = c + seq!['\n'];
    lemma_one_line(c);
    lemma_trim_keeps_first(line);
    assert(listed_names(line, line.len() as int) == Seq::<Seq<char>>::empty());
}

proof fn lemma_blank_line()
    ensures
        listed_names(seq!['\n'], 0) == Seq::<Seq<char>>::empty(),
{
    let line = seq!['\n'];
    assert(Seq::<char>::empty() + seq!['\n'] == line);
    lemma_one_line(Seq::<char>::empty());
    assert(line.drop_last() == Seq::<char>::empty());
    assert(is_ws(line.last()));
    assert(trim_end(Seq::<char>::empty()) == Seq::<char>::empty());
    assert(trim_end(line) == trim_end(line.drop_last()));
    assert(trim_end(line) == Seq::<char>::empty());
    assert(trim(line).len() == 0);
    assert(listed_names(line, 1) == Seq::<Seq<char>>::empty());
}

/// The names of a non-empty list, one per line, read back as they are.
proof fn lemma_joined_names(s: Seq<Seq<char>>)
    requires
        s.len() > 0,
        forall|i: int| 0 <= i < s.len() ==> listable(#[trigger] s[i]),
    ensures
        listed_names(joined_with(s, seq!['\n']) + seq!['\n'], 0) == s,
    decreases s.len(),
{
    if s.len() == 1 {
        lemma_name_line(s[0]);
        assert(seq![s[0]] == s);
    } else {
        let rest = s.drop_last();
        assert forall|i: int| 0 <= i < rest.len() implies listable(#[trigger] rest[i]) by {
            assert(rest[i] == s[i]);
        }
        lemma_joined_names(rest);
        let a = joined_with(rest, seq!['\n']) + seq!['\n'];
        assert(joined_with(s, seq!['\n']) + seq!['\n'] == a + (s.last() + seq!['\n']));
        lemma_names_split(a, s.last() + seq!['\n'], 0);
        lemma_name_line(s.last());
        assert(rest.push(s.last()) == s);
    }
}

/// A list of choices written with `write_list` (or `set_enabled`) reads back
/// with `read_list` as exactly the names written, in their order, when each
/// is a name a line can carry and the header is one `#` comment line.
pub proof fn lemma_list_read_back(header: Seq<char>, sorted: Seq<Seq<char>>)
    requires
        header.len() > 0,
        header[0] == '#',
        forall|k: int| 0 <= k < header.len() ==> header[k] != '\n',
        forall|i: int| 0 <= i < sorted.len() ==> listable(#[trigger] sorted[i]),
    ensures
        listed_names(list_file_text(header, sorted), 0) == sorted,
{
    reveal_strlit("\n# Managed from Settings; one name per line.\n");
    reveal_strlit("\n");
    let managed = "# Managed from Settings; one name per line."@;
    reveal_strlit("# Managed from Settings; one name per line.");
    let first = header + seq!['\n'];
    let second = managed + seq!['\n'];
    let rest = joined_with(sorted, "\n"@) + "\n"@;
    assert("\n"@ == seq!['\n']);
    assert(list_file_text(header, sorted) == first + (second + rest));
    lemma_comment_line(header);
    assert forall|k: int| 0 <= k < managed.len() implies managed[k] != '\n' by {}
    lemma_comment_line(managed);
    lemma_names_split(second, rest, 0);
    lemma_names_split(first, second + rest, 0);
    if sorted.len() == 0 {
        assert(rest == seq!['\n']);
        lemma_blank_line();
    } else {
        lemma_joined_names(sorted);
    }
}

proof fn lemma_push_contains(s: Seq<Seq<char>>, x: Seq<char>, n: Seq<char>)
    ensures
        s.push(x).contains(n) == (s.contains(n) || x == n),
{
    if s.contains(n) {
        let k = choose|k: int| 0 <= k < s.len() && s[k] == n;
        assert(s.push(x)[k] == n);
    }
    if x == n {
        assert(s.push(x)[s.len() as int] == n);
    }
    if s.push(x).contains(n) {
        let k = choose|k: int| 0 <= k < s.push(x).len() && s.push(x)[k] == n;
        if k < s.len() {
            assert(s[k] == n);
        }
    }
}

proof fn lemma_without_name(s: Seq<Seq<char>>, name: Seq<char>, n: Seq<char>)
    ensures
        without_name(s, name).contains(n) == (n != name && s.contains(n)),
    decreases s.len(),
{
    if s.len() > 0 {
        lemma_without_name(s.drop_last(), name, n);
        assert(s == s.drop_last().push(s.last()));
        lemma_push_contains(s.drop_last(), s.last(), n);
        if s.last() != name {
            lemma_push_contains(without_name(s.drop_last(), name), s.last(), n);
        }
    } else {
        assert(!without_name(s, name).contains(n));
    }
}

proof fn lemma_chosen_contains(names: Seq<Seq<char>>, name: Seq<char>, present: bool, n: Seq<char>)
    ensures
        chosen_names(names, name, present).contains(n) == (if n == name { present } else { names.contains(n) }),
{
    lemma_without_name(names, name, n);
    if present {
        lemma_push_contains(without_name(names, name), name, n);
    }
}

/// Switching a mod on or off puts its name on exactly the list it belongs
/// on and leaves every other name where it was: read back, a list written
/// for the choice holds `name` exactly when `present`, and any other name
/// exactly when it held it before.
pub proof fn lemma_choice_read_back(
    header: Seq<char>,
    names: Seq<Seq<char>>,
    name: Seq<char>,
    present: bool,
    sorted: Seq<Seq<char>>,
)
    requires
        header.len() > 0,
        header[0] == '#',
        forall|k: int| 0 <= k < header.len() ==> header[k] != '\n',
        listable(name),
        forall|i: int| 0 <= i < names.len() ==> listable(#[trigger] names[i]),
        sorted.to_multiset() == chosen_names(names, name, present).to_multiset(),
    ensures
        listed_names(list_file_text(header, sorted), 0).contains(name) == present,
        forall|n: Seq<char>| n != name ==> (#[trigger] listed_names(list_file_text(header, sorted), 0).contains(n)
            == names.contains(n)),
{
    broadcast use vstd::seq_lib::to_multiset_contains;
    let chosen = chosen_names(names, name, present);
    assert forall|i: int| 0 <= i < sorted.len() implies listable(#[trigger] sorted[i]) by {
        let x = sorted[i];
        assert(sorted.contains(x));
        assert(sorted.to_multiset().count(x) > 0);
        assert(chosen.to_multiset().count(x) > 0);
        assert(chosen.contains(x));
        lemma_chosen_contains(names, name, present, x);
        if x != name {
            let k = choose|k: int| 0 <= k < names.len() && names[k] == x;
            assert(listable(names[k]));
        }
    }
    lemma_list_read_back(header, sorted);
    assert forall|n: Seq<char>| #[trigger] sorted.contains(n) == chosen.contains(n) by {
        assert(sorted.to_multiset().count(n) == chosen.to_multiset().count(n));
    }
    lemma_chosen_contains(names, name, present, name);
    assert(sorted.contains(name) == chosen.contains(name));
    assert forall|n: Seq<char>| n != name implies (#[trigger] listed_names(list_file_text(header, sorted), 0).contains(n)
        == names.contains(n)) by {
        lemma_chosen_contains(names, name, present, n);
        assert(sorted.contains(n) == chosen.contains(n));
    }
}

} // verus!

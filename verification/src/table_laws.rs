//! What merging keeps: the merged table is the same kind of table as the one
//! it was merged into, and it empties rAthena's table exactly when either of
//! the two copies asked for that.

use vstd::prelude::*;
use crate::text::{
    is_prefix, is_ws, lemma_line_end, lemma_strip_breaks_prefix, lemma_trim_keeps_first,
    lemma_trim_start_skips, line_end, strip_breaks, trim, trim_end, trim_start,
};
use crate::tables::{
    body_label, clear_key, clear_line, clears, footer_label, header_indent, header_label,
    header_value, header_value_from, indented, insertion_point, is_true_word, labelled_line,
    leading_space, line_at, merged, section_from, table_type, two_spaces, type_key, with_clear,
    first_content_line, entries_of, lemma_section_bounds,
};

verus! {

/// Nothing but spaces and tabs.
pub open spec fn plain_indent(x: Seq<char>) -> bool {
    forall|k: int| 0 <= k < x.len() ==> (#[trigger] x[k] == ' ' || x[k] == '\t')
}

/// A table laid out the usual way: a `Header:` line above the `Body:` line,
/// any `Footer:` below it, and the header indented with spaces or tabs.
pub open spec fn well_laid(s: Seq<char>) -> bool {
    match (labelled_line(s, header_label()), labelled_line(s, body_label())) {
        (Some((h, after)), Some((b, _))) => {
            &&& h < b
            &&& insertion_point(s) > b
            &&& plain_indent(header_indent(s, after))
        },
        _ => false,
    }
}

/// Scanning lines from `at` for `label`, but only among lines that start
/// before `c`.
pub open spec fn found_before(s: Seq<char>, label: Seq<char>, at: int, c: int) -> Option<(int, int)>
    decreases s.len() - at,
{
    if at < 0 || at >= c || at >= s.len() {
        None
    } else if strip_breaks(line_at(s, at)) == label {
        Some((at, line_end(s, at)))
    } else {
        proof {
            lemma_line_end(s, at);
        }
        found_before(s, label, line_end(s, at), c)
    }
}

proof fn lemma_line_end_by(s: Seq<char>, at: int, k: int)
    requires
        0 <= at <= k < s.len(),
        s[k] == '\n',
    ensures
        at < line_end(s, at) <= k + 1,
        s[line_end(s, at) - 1] == '\n',
    decreases k - at,
{
    if s[at] != '\n' {
        lemma_line_end_by(s, at + 1, k);
    }
}

proof fn lemma_line_end_newline(s: Seq<char>, at: int)
    requires
        0 <= at,
    ensures
        line_end(s, at) < s.len() ==> line_end(s, at) > 0 && s[line_end(s, at) - 1] == '\n',
    decreases s.len() - at,
{
    if at < s.len() && s[at] != '\n' {
        lemma_line_end_newline(s, at + 1);
    }
}

proof fn lemma_take_shorter(s: Seq<char>, t: Seq<char>, p: int, q: int)
    requires
        0 <= p <= q,
        q <= s.len(),
        q <= t.len(),
        s.take(q) == t.take(q),
    ensures
        s.take(p) == t.take(p),
        forall|x: int| 0 <= x < q ==> #[trigger] s[x] == t[x],
{
    assert forall|x: int| 0 <= x < q implies #[trigger] s[x] == t[x] by {
        assert(s.take(q)[x] == t.take(q)[x]);
        assert(s.take(q)[x] == s[x]);
        assert(t.take(q)[x] == t[x]);
    }
    assert(s.take(p) =~= t.take(p));
}

proof fn lemma_line_agrees(s: Seq<char>, t: Seq<char>, at: int, k: int)
    requires
        0 <= at <= k,
        k < s.len(),
        k < t.len(),
        s[k] == '\n',
        s.take(k + 1) == t.take(k + 1),
    ensures
        line_end(t, at) == line_end(s, at),
        line_at(t, at) == line_at(s, at),
    decreases k - at,
{
    lemma_take_shorter(s, t, k + 1, k + 1);
    if s[at] != '\n' {
        lemma_line_agrees(s, t, at + 1, k);
    }
    lemma_line_end_by(s, at, k);
    assert(line_at(t, at) =~= line_at(s, at));
}

proof fn lemma_line_shift(s: Seq<char>, t: Seq<char>, j: int, m: int, at: int)
    requires
        0 <= j <= at <= s.len(),
        0 <= m,
        j + m <= t.len(),
        t.skip(j + m) == s.skip(j),
    ensures
        t.len() == s.len() + m,
        line_end(t, at + m) == line_end(s, at) + m,
        line_at(t, at + m) == line_at(s, at),
    decreases s.len() - at,
{
    assert(t.skip(j + m).len() == s.skip(j).len());
    assert(t.skip(j + m).len() == t.len() - (j + m));
    assert(s.skip(j).len() == s.len() - j);
    if at < s.len() {
        assert(t[at + m] == t.skip(j + m)[at - j]);
        assert(s[at] == s.skip(j)[at - j]);
        if s[at] != '\n' {
            lemma_line_shift(s, t, j, m, at + 1);
        }
        lemma_line_end(s, at);
        assert forall|x: int| 0 <= x < line_end(s, at) - at implies
            #[trigger] line_at(t, at + m)[x] == line_at(s, at)[x] by {
            assert(line_at(t, at + m)[x] == t[at + m + x]);
            assert(line_at(s, at)[x] == s[at + x]);
            assert(t.skip(j + m)[at + x - j] == t[at + x + m]);
            assert(s.skip(j)[at + x - j] == s[at + x]);
        }
        assert(line_at(t, at + m) =~= line_at(s, at));
    } else {
        assert(line_at(t, at + m) =~= line_at(s, at));
    }
}

proof fn lemma_section_shift(s: Seq<char>, t: Seq<char>, j: int, m: int, label: Seq<char>, at: int)
    requires
        0 <= j <= at <= s.len(),
        0 <= m,
        j + m <= t.len(),
        t.skip(j + m) == s.skip(j),
    ensures
        section_from(t, label, at + m) == match section_from(s, label, at) {
            Some((a, b)) => Some((a + m, b + m)),
            None => None,
        },
    decreases s.len() - at,
{
    lemma_line_shift(s, t, j, m, at);
    if at < s.len() {
        lemma_line_end(s, at);
        if strip_breaks(line_at(s, at)) != label {
            lemma_section_shift(s, t, j, m, label, line_end(s, at));
        }
    }
}

proof fn lemma_header_shift(s: Seq<char>, t: Seq<char>, j: int, m: int, key: Seq<char>, at: int)
    requires
        0 <= j <= at <= s.len(),
        0 <= m,
        j + m <= t.len(),
        t.skip(j + m) == s.skip(j),
    ensures
        header_value_from(t, key, at + m) == header_value_from(s, key, at),
    decreases s.len() - at,
{
    lemma_line_shift(s, t, j, m, at);
    if at < s.len() {
        lemma_line_end(s, at);
        lemma_header_shift(s, t, j, m, key, line_end(s, at));
    }
}

proof fn lemma_found_before_bounds(s: Seq<char>, label: Seq<char>, at: int, c: int)
    requires
        0 <= at,
    ensures
        found_before(s, label, at, c) matches Some((a, _)) ==> at <= a < c,
    decreases s.len() - at,
{
    if at < c && at < s.len() && strip_breaks(line_at(s, at)) != label {
        lemma_line_end(s, at);
        lemma_found_before_bounds(s, label, line_end(s, at), c);
    }
}

proof fn lemma_split(s: Seq<char>, label: Seq<char>, at: int, c: int)
    requires
        0 <= at <= c <= s.len(),
        at < c ==> s[c - 1] == '\n',
    ensures
        section_from(s, label, at) == match found_before(s, label, at, c) {
            Some(x) => Some(x),
            None => section_from(s, label, c),
        },
    decreases c - at,
{
    if at < c {
        lemma_line_end_by(s, at, c - 1);
        if strip_breaks(line_at(s, at)) != label {
            lemma_split(s, label, line_end(s, at), c);
        }
    }
}

proof fn lemma_found_agrees(s: Seq<char>, t: Seq<char>, label: Seq<char>, at: int, c: int)
    requires
        0 <= at <= c,
        c <= s.len(),
        c <= t.len(),
        s.take(c) == t.take(c),
        at < c ==> s[c - 1] == '\n',
    ensures
        found_before(s, label, at, c) == found_before(t, label, at, c),
    decreases c - at,
{
    if at < c {
        lemma_line_agrees(s, t, at, c - 1);
        lemma_line_end_by(s, at, c - 1);
        if strip_breaks(line_at(s, at)) != label {
            lemma_found_agrees(s, t, label, line_end(s, at), c);
        }
    }
}

/// The header scan reaches the unindented line at `b` at the latest, so two
/// texts that agree up to that line read the same header.
proof fn lemma_header_agrees(s: Seq<char>, t: Seq<char>, key: Seq<char>, at: int, b: int)
    requires
        0 <= at <= b,
        b < s.len(),
        b < t.len(),
        s.take(b + 1) == t.take(b + 1),
        !is_ws(s[b]),
        at < b ==> s[b - 1] == '\n',
    ensures
        header_value_from(s, key, at) == header_value_from(t, key, at),
    decreases b - at,
{
    lemma_take_shorter(s, t, b, b + 1);
    if at == b {
        lemma_line_end(s, b);
        lemma_line_end(t, b);
        assert(line_at(s, b)[0] == s[b]);
        assert(line_at(t, b)[0] == t[b]);
        lemma_trim_keeps_first(line_at(s, b));
        lemma_trim_keeps_first(line_at(t, b));
    } else {
        lemma_line_agrees(s, t, at, b - 1);
        lemma_line_end_by(s, at, b - 1);
        lemma_header_agrees(s, t, key, line_end(s, at), b);
    }
}

/// Where a found line starts: where the scan started, or just after a `'\n'`.
proof fn lemma_section_line_start(s: Seq<char>, label: Seq<char>, at: int)
    requires
        0 <= at,
    ensures
        section_from(s, label, at) matches Some((a, _)) ==> a == at || (at < a && s[a - 1] == '\n'),
    decreases s.len() - at,
{
    if at < s.len() && strip_breaks(line_at(s, at)) != label {
        lemma_line_end(s, at);
        lemma_line_end_newline(s, at);
        lemma_section_bounds(s, label, line_end(s, at));
        lemma_section_line_start(s, label, line_end(s, at));
    }
}

/// The facts about a table that let a merge keep its header.
pub open spec fn header_above_body(s: Seq<char>, h: int, after: int, b: int) -> bool {
    &&& labelled_line(s, header_label()) == Some((h, after))
    &&& 0 < after <= b < s.len()
    &&& s[after - 1] == '\n'
    &&& s[b - 1] == '\n'
    &&& s[b] == 'B'
    &&& labelled_line(s, body_label()) matches Some((b2, _)) && b2 == b
    &&& insertion_point(s) > b
}

proof fn lemma_found_header(s: Seq<char>, h: int, after: int)
    requires
        labelled_line(s, header_label()) == Some((h, after)),
        0 < after <= s.len(),
        s[after - 1] == '\n',
    ensures
        found_before(s, header_label(), 0, after) == Some((h, after)),
{
    lemma_split(s, header_label(), 0, after);
    lemma_section_bounds(s, header_label(), after);
    lemma_found_before_bounds(s, header_label(), 0, after);
}

/// Putting entries in above the footer keeps the header of the table they
/// are put into.
proof fn lemma_insert_keeps_header(s: Seq<char>, h: int, after: int, b: int, body: Seq<char>, key: Seq<char>)
    requires
        header_above_body(s, h, after, b),
    ensures
        header_value(strip_breaks(s.take(insertion_point(s))) + seq!['\n'] + body + seq!['\n']
            + s.skip(insertion_point(s)), key) == header_value(s, key),
{
    let ins = insertion_point(s);
    let pre = s.take(ins);
    let p = strip_breaks(pre);
    let m = p + seq!['\n'] + body + seq!['\n'] + s.skip(ins);
    lemma_section_bounds(s, footer_label(), 0);
    lemma_strip_breaks_prefix(pre);
    assert(pre[b] == s[b]);
    assert(b < p.len());
    assert(m.take(b + 1) =~= s.take(b + 1)) by {
        assert forall|x: int| 0 <= x < b + 1 implies #[trigger] m.take(b + 1)[x] == s.take(b + 1)[x] by {
            assert(m[x] == p[x]);
            assert(p[x] == pre[x]);
        }
    }
    lemma_take_shorter(m, s, after, b + 1);
    lemma_found_header(s, h, after);
    lemma_found_agrees(s, m, header_label(), 0, after);
    lemma_split(m, header_label(), 0, after);
    lemma_header_agrees(s, m, key, after, b);
}

/// The line `with_clear` puts into a header, as it sits in the text.
proof fn lemma_clear_line_shape(ind: Seq<char>)
    requires
        plain_indent(ind),
        ind.len() > 0,
    ensures
        strip_breaks(ind + clear_line()) == ind + clear_line().drop_last(),
        trim(ind + clear_line()) == clear_line().drop_last(),
        indented(ind + clear_line()),
{
    let cl = clear_line();
    let text = cl.drop_last();
    assert((ind + cl).drop_last() =~= ind + text);
    assert(text.last() == 'e');
    assert((ind + text).last() == 'e');
    assert(strip_breaks(ind + text) == ind + text);
    assert(trim_end(ind + text) == ind + text);
    assert(trim_end(ind + cl) == ind + text);
    assert forall|k: int| 0 <= k < ind.len() implies is_ws(#[trigger] ind[k]) by {
        assert(ind[k] == ' ' || ind[k] == '\t');
    }
    lemma_trim_start_skips(ind, text);
    assert(text[0] == 'C');
    assert(trim_start(text) == text);
}

proof fn lemma_line_end_exact(s: Seq<char>, at: int, n: int)
    requires
        0 <= at,
        0 < n,
        at + n <= s.len(),
        s[at + n - 1] == '\n',
        forall|x: int| at <= x < at + n - 1 ==> #[trigger] s[x] != '\n',
    ensures
        line_end(s, at) == at + n,
    decreases n,
{
    if n > 1 {
        lemma_line_end_exact(s, at + 1, n - 1);
    }
}

/// With `Clear: true` put in, a well-laid table still is one, reads the same
/// `Type:`, and now clears.
proof fn lemma_with_clear_facts(s: Seq<char>) -> (r: (int, int, int))
    requires
        well_laid(s),
    ensures
        with_clear(s) is Some,
        header_above_body(with_clear(s).unwrap(), r.0, r.1, r.2),
        table_type(with_clear(s).unwrap()) == table_type(s),
        clears(with_clear(s).unwrap()),
{
    let (h, after) = labelled_line(s, header_label()).unwrap();
    let (b, be) = labelled_line(s, body_label()).unwrap();
    lemma_section_bounds(s, header_label(), 0);
    lemma_section_bounds(s, body_label(), 0);
    lemma_section_line_start(s, body_label(), 0);
    lemma_line_end_by(s, h, b - 1);
    let ind = header_indent(s, after);
    let cl = clear_line();
    let w = s.take(after) + ind + cl + s.skip(after);
    let m: int = (ind.len() + cl.len()) as int;
    assert(with_clear(s) == Some(w));
    assert(ind.len() > 0) by {
        match first_content_line(s, after) {
            Some(st) => {},
            None => {},
        }
    }
    assert(w.take(after) =~= s.take(after));
    assert(w.skip(after + m) =~= s.skip(after));
    assert(w[after - 1] == s[after - 1]);
    // The header line is where it was.
    lemma_found_header(s, h, after);
    lemma_found_agrees(s, w, header_label(), 0, after);
    lemma_split(w, header_label(), 0, after);
    assert(labelled_line(w, header_label()) == Some((h, after)));
    // The inserted line, whole.
    assert forall|x: int| after <= x < after + m - 1 implies #[trigger] w[x] != '\n' by {
        if x < after + ind.len() {
            assert(w[x] == ind[x - after]);
        } else {
            assert(w[x] == cl[x - after - ind.len()]);
        }
    }
    assert(w[after + m - 1] == '\n');
    lemma_line_end_exact(w, after, m);
    assert(line_at(w, after) =~= ind + cl);
    lemma_clear_line_shape(ind);
    assert(ind[0] == ' ' || ind[0] == '\t');
    // The body and the footer moved down by the inserted line.
    lemma_split(s, body_label(), 0, after);
    lemma_found_before_bounds(s, body_label(), 0, after);
    lemma_found_agrees(s, w, body_label(), 0, after);
    lemma_split(w, body_label(), 0, after);
    assert((ind + cl.drop_last())[0] != body_label()[0]);
    lemma_section_shift(s, w, after, m, body_label(), after);
    assert(labelled_line(w, body_label()) == Some((b + m, be + m)));
    lemma_split(s, footer_label(), 0, after);
    lemma_found_before_bounds(s, footer_label(), 0, after);
    lemma_found_agrees(s, w, footer_label(), 0, after);
    lemma_split(w, footer_label(), 0, after);
    assert((ind + cl.drop_last())[0] != footer_label()[0]);
    lemma_section_shift(s, w, after, m, footer_label(), after);
    lemma_line_shift(s, w, after, m, after);
    assert(insertion_point(w) == insertion_point(s) + m);
    // The body line itself.
    assert(w[b + m] == s.skip(after)[b - after]);
    assert(s[b] == line_at(s, b)[0]);
    lemma_strip_breaks_prefix(line_at(s, b));
    assert(strip_breaks(line_at(s, b))[0] == 'B');
    if b > after {
        assert(w[b + m - 1] == s.skip(after)[b - 1 - after]);
    }
    // What the header now says.
    lemma_trim_keeps_first(cl.drop_last());
    assert(cl.drop_last().subrange(0, 6) =~= clear_key());
    assert(is_prefix(clear_key(), cl.drop_last()));
    assert(cl.drop_last().skip(6) =~= seq![' ', 't', 'r', 'u', 'e']);
    assert(trim_end(seq![' ', 't', 'r', 'u', 'e']) == seq![' ', 't', 'r', 'u', 'e']);
    assert(seq![' ', 't', 'r', 'u', 'e'].drop_first() =~= seq!['t', 'r', 'u', 'e']);
    assert(trim_start(seq!['t', 'r', 'u', 'e']) == seq!['t', 'r', 'u', 'e']);
    assert(trim_start(seq![' ', 't', 'r', 'u', 'e']) == seq!['t', 'r', 'u', 'e']);
    assert(is_true_word(seq!['t', 'r', 'u', 'e']));
    assert(clears(w));
    assert(!is_prefix(type_key(), cl.drop_last())) by {
        assert(cl.drop_last().subrange(0, 5)[0] != type_key()[0]);
    }
    lemma_header_shift(s, w, after, m, type_key(), after);
    assert(table_type(w) == table_type(s));
    (h, after, b + m)
}

/// A merge keeps the kind of table it merges into, and the merged table
/// clears exactly when either copy asked it to: a table that declares itself
/// the whole of its database stays that through a merge with one that only
/// adds to it, in either order.
pub proof fn lemma_merge_keeps_kind_and_clear(existing: Seq<char>, incoming: Seq<char>)
    requires
        well_laid(existing),
        merged(existing, incoming) is Some,
    ensures
        table_type(merged(existing, incoming).unwrap()) == table_type(existing),
        clears(merged(existing, incoming).unwrap()) == (clears(existing) || clears(incoming)),
{
    let (h, after) = labelled_line(existing, header_label()).unwrap();
    let (b, be) = labelled_line(existing, body_label()).unwrap();
    lemma_section_bounds(existing, header_label(), 0);
    lemma_section_bounds(existing, body_label(), 0);
    lemma_section_line_start(existing, body_label(), 0);
    lemma_line_end_by(existing, h, b - 1);
    let body = entries_of(incoming).unwrap();
    if clears(incoming) && !clears(existing) {
        let (h2, a2, b2) = lemma_with_clear_facts(existing);
        let w = with_clear(existing).unwrap();
        lemma_insert_keeps_header(w, h2, a2, b2, body, type_key());
        lemma_insert_keeps_header(w, h2, a2, b2, body, clear_key());
    } else {
        lemma_strip_breaks_prefix(line_at(existing, b));
        assert(existing[b] == line_at(existing, b)[0]);
        assert(header_above_body(existing, h, after, b));
        lemma_insert_keeps_header(existing, h, after, b, body, type_key());
        lemma_insert_keeps_header(existing, h, after, b, body, clear_key());
    }
}

/// Putting `Clear: true` into a well-laid table makes it clear and keeps
/// the kind of table it is.
pub proof fn lemma_added_clear_clears(s: Seq<char>)
    requires
        well_laid(s),
    ensures
        with_clear(s) is Some,
        clears(with_clear(s).unwrap()),
        table_type(with_clear(s).unwrap()) == table_type(s),
{
    lemma_with_clear_facts(s);
}

} // verus!

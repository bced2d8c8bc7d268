//! rAthena's YAML tables, read as lines: finding the `Header:`, `Body:` and
//! `Footer:` sections, reading a value out of the header, and combining two
//! mods' copies of one table into the file rAthena would have read.
//!
//! Positions count characters from the start of the text.

use vstd::prelude::*;
use crate::text::{
    chars_of, is_prefix, lemma_line_end, line_end, line_end_of, same, slice_of, starts_with,
    string_of, strip_breaks, strip_breaks_of, trim, trim_of, trim_start, trim_start_of,
    lemma_trim_start_suffix, strip_leading_breaks, strip_leading_breaks_of, push_all,
};

verus! {

/// The label that opens a table's header.
pub open spec fn header_label() -> Seq<char> {
    seq!['H', 'e', 'a', 'd', 'e', 'r', ':']
}

/// The label that opens a table's entries.
pub open spec fn body_label() -> Seq<char> {
    seq!['B', 'o', 'd', 'y', ':']
}

/// The label that opens a table's imports.
pub open spec fn footer_label() -> Seq<char> {
    seq!['F', 'o', 'o', 't', 'e', 'r', ':']
}

pub open spec fn type_key() -> Seq<char> {
    seq!['T', 'y', 'p', 'e', ':']
}

pub open spec fn clear_key() -> Seq<char> {
    seq!['C', 'l', 'e', 'a', 'r', ':']
}

/// The line added to a header to make a table replace rather than add.
pub open spec fn clear_line() -> Seq<char> {
    seq!['C', 'l', 'e', 'a', 'r', ':', ' ', 't', 'r', 'u', 'e', '\n']
}

/// The indentation used when a header has none to copy.
pub open spec fn two_spaces() -> Seq<char> {
    seq![' ', ' ']
}

/// The line of `s` that starts at `at`, with its `'\n'`.
pub open spec fn line_at(s: Seq<char>, at: int) -> Seq<char> {
    s.subrange(at, line_end(s, at))
}

/// The first line at or after `at` that reads exactly `label` once its line
/// break is taken off, as (its start, the start of the next line).
pub open spec fn section_from(s: Seq<char>, label: Seq<char>, at: int) -> Option<(int, int)>
    decreases s.len() - at,
{
    if at < 0 || at >= s.len() {
        None
    } else if strip_breaks(line_at(s, at)) == label {
        Some((at, line_end(s, at)))
    } else {
        proof {
            lemma_line_end(s, at);
        }
        section_from(s, label, line_end(s, at))
    }
}

/// The line `label` sits on, matched at column zero and on the whole line.
pub open spec fn labelled_line(s: Seq<char>, label: Seq<char>) -> Option<(int, int)> {
    section_from(s, label, 0)
}

/// Whether a line is part of an indented block: it starts with a space or a tab.
pub open spec fn indented(line: Seq<char>) -> bool {
    line.len() > 0 && (line[0] == ' ' || line[0] == '\t')
}

/// Walking the header's lines from `at`: the value after `key` on the first
/// indented line that starts with it, skipping blank lines and stopping at the
/// first unindented one.
pub open spec fn header_value_from(s: Seq<char>, key: Seq<char>, at: int) -> Option<Seq<char>>
    decreases s.len() - at,
{
    if at < 0 || at >= s.len() {
        None
    } else if trim(line_at(s, at)).len() == 0 {
        proof {
            lemma_line_end(s, at);
        }
        header_value_from(s, key, line_end(s, at))
    } else if !indented(line_at(s, at)) {
        None
    } else if is_prefix(key, trim(line_at(s, at))) {
        Some(trim(trim(line_at(s, at)).skip(key.len() as int)))
    } else {
        proof {
            lemma_line_end(s, at);
        }
        header_value_from(s, key, line_end(s, at))
    }
}

/// The value `key` has in the table's header, if the header gives it one.
pub open spec fn header_value(s: Seq<char>, key: Seq<char>) -> Option<Seq<char>> {
    match labelled_line(s, header_label()) {
        Some((_, after)) => header_value_from(s, key, after),
        None => None,
    }
}

/// The `Type:` a table declares, which is what says two files are the same
/// kind of table rather than merely the same filename.
pub open spec fn table_type(s: Seq<char>) -> Option<Seq<char>> {
    header_value(s, type_key())
}

/// `true` in any mix of upper and lower case.
pub open spec fn is_true_word(v: Seq<char>) -> bool {
    &&& v.len() == 4
    &&& (v[0] == 't' || v[0] == 'T')
    &&& (v[1] == 'r' || v[1] == 'R')
    &&& (v[2] == 'u' || v[2] == 'U')
    &&& (v[3] == 'e' || v[3] == 'E')
}

/// Whether the header says `Clear: true`, which empties rAthena's table
/// before this one is read.
pub open spec fn clears(s: Seq<char>) -> bool {
    match header_value(s, clear_key()) {
        Some(v) => is_true_word(v),
        None => false,
    }
}

fn label_vec(which: u8) -> (out: Vec<char>)
    requires
        which < 6,
    ensures
        which == 0 ==> out@ == header_label(),
        which == 1 ==> out@ == body_label(),
        which == 2 ==> out@ == footer_label(),
        which == 3 ==> out@ == type_key(),
        which == 4 ==> out@ == clear_key(),
        which == 5 ==> out@ == clear_line(),
{
    let out = if which == 0 {
        vec!['H', 'e', 'a', 'd', 'e', 'r', ':']
    } else if which == 1 {
        vec!['B', 'o', 'd', 'y', ':']
    } else if which == 2 {
        vec!['F', 'o', 'o', 't', 'e', 'r', ':']
    } else if which == 3 {
        vec!['T', 'y', 'p', 'e', ':']
    } else if which == 4 {
        vec!['C', 'l', 'e', 'a', 'r', ':']
    } else {
        vec!['C', 'l', 'e', 'a', 'r', ':', ' ', 't', 'r', 'u', 'e', '\n']
    };
    assert(which == 0 ==> out@ == header_label());
    assert(which == 1 ==> out@ == body_label());
    assert(which == 2 ==> out@ == footer_label());
    assert(which == 3 ==> out@ == type_key());
    assert(which == 4 ==> out@ == clear_key());
    assert(which == 5 ==> out@ == clear_line());
    out
}

/// `section`, computed.
pub fn find_section(s: &[char], label: &[char]) -> (r: Option<(usize, usize)>)
    ensures
        match r {
            Some((a, b)) => labelled_line(s@, label@) == Some((a as int, b as int)),
            None => labelled_line(s@, label@) is None,
        },
{
    let mut at: usize = 0;
    while at < s.len()
        invariant
            at <= s@.len(),
            labelled_line(s@, label@) == section_from(s@, label@, at as int),
        decreases s@.len() - at,
    {
        proof {
            lemma_line_end(s@, at as int);
        }
        let e = line_end_of(s, at);
        let line = slice_of(s, at, e);
        let stripped = strip_breaks_of(line.as_slice());
        if same(stripped.as_slice(), label) {
            return Some((at, e));
        }
        at = e;
    }
    None
}

fn header_value_of(s: &[char], key: &[char]) -> (r: Option<Vec<char>>)
    ensures
        match r {
            Some(v) => header_value(s@, key@) == Some(v@),
            None => header_value(s@, key@) is None,
        },
{
    let header = label_vec(0);
    let after = match find_section(s, header.as_slice()) {
        Some((_, after)) => after,
        None => return None,
    };
    proof {
        lemma_line_end(s@, 0);
    }
    let mut at: usize = after;
    assert(section_from(s@, header_label(), 0) matches Some((_, a)) && a <= s@.len()) by {
        lemma_section_bounds(s@, header_label(), 0);
    }
    while at < s.len()
        invariant
            at <= s@.len(),
            header_value(s@, key@) == header_value_from(s@, key@, at as int),
        decreases s@.len() - at,
    {
        proof {
            lemma_line_end(s@, at as int);
        }
        let e = line_end_of(s, at);
        let line = slice_of(s, at, e);
        let trimmed = trim_of(line.as_slice());
        if trimmed.len() == 0 {
            at = e;
        } else if !(line[0] == ' ' || line[0] == '\t') {
            return None;
        } else if starts_with(trimmed.as_slice(), key) {
            let rest = slice_of(trimmed.as_slice(), key.len(), trimmed.len());
            assert(rest@ == trimmed@.skip(key@.len() as int));
            return Some(trim_of(rest.as_slice()));
        } else {
            at = e;
        }
    }
    None
}

/// Where `section_from` lands, when it lands.
pub proof fn lemma_section_bounds(s: Seq<char>, label: Seq<char>, at: int)
    requires
        0 <= at,
    ensures
        section_from(s, label, at) matches Some((a, b)) ==> at <= a < b && b <= s.len()
            && b == line_end(s, a) && strip_breaks(line_at(s, a)) == label,
    decreases s.len() - at,
{
    if at < s.len() {
        lemma_line_end(s, at);
        if strip_breaks(line_at(s, at)) != label {
            lemma_section_bounds(s, label, line_end(s, at));
        }
    }
}

/// The line `label` sits on, as (start of that line, start of the next).
///
/// Matched at column zero and on the whole line, because `Body:` also appears
/// indented inside rAthena's own comment blocks and as a value elsewhere.
pub fn section(text: &str, label: &str) -> (r: Option<(usize, usize)>)
    ensures
        match r {
            Some((a, b)) => labelled_line(text@, label@) == Some((a as int, b as int)),
            None => labelled_line(text@, label@) is None,
        },
{
    let s = chars_of(text);
    let l = chars_of(label);
    find_section(s.as_slice(), l.as_slice())
}

/// The `Type:` a table declares in its header.
pub fn header_type(text: &str) -> (r: Option<String>)
    ensures
        match r {
            Some(v) => table_type(text@) == Some(v@),
            None => table_type(text@) is None,
        },
{
    let s = chars_of(text);
    let key = label_vec(3);
    match header_value_of(s.as_slice(), key.as_slice()) {
        Some(v) => Some(string_of(v.as_slice())),
        None => None,
    }
}

fn clears_of(s: &[char]) -> (r: bool)
    ensures
        r == clears(s@),
{
    let key = label_vec(4);
    match header_value_of(s, key.as_slice()) {
        Some(v) => {
            v.len() == 4 && (v[0] == 't' || v[0] == 'T') && (v[1] == 'r' || v[1] == 'R')
                && (v[2] == 'u' || v[2] == 'U') && (v[3] == 'e' || v[3] == 'E')
        },
        None => false,
    }
}

/// Whether a table's header asks rAthena to empty the database before reading
/// it -- `Header: Clear: true`. It is how a mod says "this table is mine
/// outright" rather than "add these entries to it".
pub fn header_clears(text: &str) -> (r: bool)
    ensures
        r == clears(text@),
{
    let s = chars_of(text);
    clears_of(s.as_slice())
}


/// The start of the first line at or after `at` that holds more than white space.
pub open spec fn first_content_line(s: Seq<char>, at: int) -> Option<int>
    decreases s.len() - at,
{
    if at < 0 || at >= s.len() {
        None
    } else if trim(line_at(s, at)).len() > 0 {
        Some(at)
    } else {
        proof {
            lemma_line_end(s, at);
        }
        first_content_line(s, line_end(s, at))
    }
}

/// The white space a line starts with.
pub open spec fn leading_space(line: Seq<char>) -> Seq<char> {
    line.take(line.len() - trim_start(line).len())
}

/// The indentation of the header's first written line, or two spaces when
/// it has none.
pub open spec fn header_indent(s: Seq<char>, after: int) -> Seq<char> {
    match first_content_line(s, after) {
        Some(st) => if leading_space(line_at(s, st)).len() > 0 {
            leading_space(line_at(s, st))
        } else {
            two_spaces()
        },
        None => two_spaces(),
    }
}

/// The table with `Clear: true` put at the top of its header.
pub open spec fn with_clear(s: Seq<char>) -> Option<Seq<char>> {
    match labelled_line(s, header_label()) {
        Some((_, after)) => Some(s.take(after) + header_indent(s, after) + clear_line() + s.skip(after)),
        None => None,
    }
}

/// What a table offers to another: the text between its `Body:` line and its
/// `Footer:` line (or its end), without the line breaks at either end.
pub open spec fn entries_of(s: Seq<char>) -> Option<Seq<char>> {
    match labelled_line(s, body_label()) {
        Some((_, b)) => {
            let e = match labelled_line(s, footer_label()) {
                Some((f, _)) => f,
                None => s.len() as int,
            };
            Some(strip_leading_breaks(strip_breaks(s.subrange(b, e))))
        },
        None => None,
    }
}

/// Where entries are put into a table: before its `Footer:` line, or at its end.
pub open spec fn insertion_point(s: Seq<char>) -> int {
    match labelled_line(s, footer_label()) {
        Some((f, _)) => f,
        None => s.len() as int,
    }
}

/// A `Footer:` line above the `Body:` line: the one layout whose entries
/// cannot be cut out.
pub open spec fn footer_above_body(s: Seq<char>) -> bool {
    match (labelled_line(s, body_label()), labelled_line(s, footer_label())) {
        (Some((_, b)), Some((f, _))) => f < b,
        _ => false,
    }
}

/// The inputs a merge cannot take: two tables of one kind where the incoming
/// one's footer sits above its entries.
pub open spec fn merge_out_of_order(existing: Seq<char>, incoming: Seq<char>) -> bool {
    &&& table_type(existing) is Some
    &&& table_type(existing) == table_type(incoming)
    &&& footer_above_body(incoming)
}

/// The table `existing` becomes once `incoming`'s entries are added to it:
/// one header (carrying a `Clear: true` from either), the existing entries,
/// then the incoming ones, then the existing footer. `None` when the two are
/// not the same kind of table, or either lacks a `Body:`.
pub open spec fn merged(existing: Seq<char>, incoming: Seq<char>) -> Option<Seq<char>> {
    if table_type(existing) is None || table_type(existing) != table_type(incoming)
        || labelled_line(existing, body_label()) is None {
        None
    } else {
        let base = if clears(incoming) && !clears(existing) {
            with_clear(existing)
        } else {
            Some(existing)
        };
        match base {
            None => None,
            Some(base) => match entries_of(incoming) {
                None => None,
                Some(body) => if labelled_line(base, body_label()) is None {
                    None
                } else if trim(body).len() == 0 {
                    Some(base)
                } else {
                    Some(strip_breaks(base.take(insertion_point(base))) + seq!['\n'] + body
                        + seq!['\n'] + base.skip(insertion_point(base)))
                },
            },
        }
    }
}

fn first_content_line_of(s: &[char], from: usize) -> (r: Option<usize>)
    requires
        from <= s@.len(),
    ensures
        match r {
            Some(st) => first_content_line(s@, from as int) == Some(st as int) && st < s@.len(),
            None => first_content_line(s@, from as int) is None,
        },
{
    let mut at = from;
    while at < s.len()
        invariant
            from <= at <= s@.len(),
            first_content_line(s@, from as int) == first_content_line(s@, at as int),
        decreases s@.len() - at,
    {
        proof {
            lemma_line_end(s@, at as int);
        }
        let e = line_end_of(s, at);
        let line = slice_of(s, at, e);
        let trimmed = trim_of(line.as_slice());
        if trimmed.len() > 0 {
            return Some(at);
        }
        at = e;
    }
    None
}

fn with_clear_of(s: &[char]) -> (r: Option<Vec<char>>)
    ensures
        match r {
            Some(v) => with_clear(s@) == Some(v@),
            None => with_clear(s@) is None,
        },
{
    let header = label_vec(0);
    let after = match find_section(s, header.as_slice()) {
        Some((_, after)) => after,
        None => return None,
    };
    proof {
        lemma_section_bounds(s@, header_label(), 0);
    }
    let mut indent: Vec<char> = vec![' ', ' '];
    assert(indent@ == two_spaces());
    match first_content_line_of(s, after) {
        Some(st) => {
            proof {
                lemma_line_end(s@, st as int);
            }
            let e = line_end_of(s, st);
            let line = slice_of(s, st, e);
            let rest = trim_start_of(line.as_slice());
            proof {
                lemma_trim_start_suffix(line@);
            }
            let lead = slice_of(line.as_slice(), 0, line.len() - rest.len());
            if lead.len() > 0 {
                indent = lead;
            }
        },
        None => {},
    }
    assert(indent@ == header_indent(s@, after as int));
    let mut out = slice_of(s, 0, after);
    push_all(&mut out, indent.as_slice());
    let clear = label_vec(5);
    push_all(&mut out, clear.as_slice());
    let tail = slice_of(s, after, s.len());
    push_all(&mut out, tail.as_slice());
    Some(out)
}

/// Put `Clear: true` into a header, keeping the indentation the file
/// already uses.
pub fn add_header_clear(text: &str) -> (r: Option<String>)
    ensures
        match r {
            Some(v) => with_clear(text@) == Some(v@),
            None => with_clear(text@) is None,
        },
{
    let s = chars_of(text);
    match with_clear_of(s.as_slice()) {
        Some(v) => Some(string_of(v.as_slice())),
        None => None,
    }
}

fn insertion_point_of(s: &[char]) -> (r: usize)
    ensures
        r as int == insertion_point(s@),
        r <= s@.len(),
{
    let footer = label_vec(2);
    proof {
        lemma_section_bounds(s@, footer_label(), 0);
    }
    match find_section(s, footer.as_slice()) {
        Some((f, _)) => f,
        None => s.len(),
    }
}

/// `merged`, computed on characters.
pub fn merge_chars(existing: &[char], incoming: &[char]) -> (r: Option<Vec<char>>)
    requires
        !merge_out_of_order(existing@, incoming@),
    ensures
        match r {
            Some(v) => merged(existing@, incoming@) == Some(v@),
            None => merged(existing@, incoming@) is None,
        },
{
    let key = label_vec(3);
    let t1 = match header_value_of(existing, key.as_slice()) {
        Some(t) => t,
        None => return None,
    };
    let t2 = match header_value_of(incoming, key.as_slice()) {
        Some(t) => t,
        None => return None,
    };
    if !same(t1.as_slice(), t2.as_slice()) {
        return None;
    }
    let body_label_v = label_vec(1);
    if find_section(existing, body_label_v.as_slice()).is_none() {
        return None;
    }
    let base = if clears_of(incoming) && !clears_of(existing) {
        match with_clear_of(existing) {
            Some(b) => b,
            None => return None,
        }
    } else {
        slice_of(existing, 0, existing.len())
    };
    assert(existing@.subrange(0, existing@.len() as int) == existing@);
    let ib = match find_section(incoming, body_label_v.as_slice()) {
        Some((_, b)) => b,
        None => return None,
    };
    proof {
        lemma_section_bounds(incoming@, body_label(), 0);
    }
    let iend = insertion_point_of(incoming);
    assert(ib <= iend);
    let cut = slice_of(incoming, ib, iend);
    let stripped = strip_breaks_of(cut.as_slice());
    let body = strip_leading_breaks_of(stripped.as_slice());
    assert(entries_of(incoming@) == Some(body@));
    let body_trimmed = trim_of(body.as_slice());
    if find_section(base.as_slice(), body_label_v.as_slice()).is_none() {
        return None;
    }
    if body_trimmed.len() == 0 {
        return Some(base);
    }
    let insert = insertion_point_of(base.as_slice());
    let head = slice_of(base.as_slice(), 0, insert);
    let mut out = strip_breaks_of(head.as_slice());
    out.push('\n');
    push_all(&mut out, body.as_slice());
    out.push('\n');
    let tail = slice_of(base.as_slice(), insert, base.len());
    push_all(&mut out, tail.as_slice());
    Some(out)
}

/// Whether two tables can be handed to `merge_tables`: anything but two
/// tables of one kind whose incoming copy has its `Footer:` above its
/// `Body:`.
pub fn merge_in_order(existing: &str, incoming: &str) -> (r: bool)
    ensures
        r == !merge_out_of_order(existing@, incoming@),
{
    let e = chars_of(existing);
    let i = chars_of(incoming);
    let key = label_vec(3);
    let t1 = match header_value_of(e.as_slice(), key.as_slice()) {
        Some(t) => t,
        None => return true,
    };
    let t2 = match header_value_of(i.as_slice(), key.as_slice()) {
        Some(t) => t,
        None => return true,
    };
    if !same(t1.as_slice(), t2.as_slice()) {
        return true;
    }
    let body = label_vec(1);
    let footer = label_vec(2);
    match (find_section(i.as_slice(), body.as_slice()), find_section(i.as_slice(), footer.as_slice())) {
        (Some((_, b)), Some((f, _))) => f >= b,
        _ => true,
    }
}

/// Combine two mods' copies of the same rAthena table: one header, both
/// bodies, the later mod's entries last so a repeated id resolves the way the
/// load order says. `None` when the two are not the same kind of table, or
/// either lacks a `Body:`.
pub fn merge_tables(existing: &str, incoming: &str) -> (r: Option<String>)
    requires
        !merge_out_of_order(existing@, incoming@),
    ensures
        match r {
            Some(v) => merged(existing@, incoming@) == Some(v@),
            None => merged(existing@, incoming@) is None,
        },
        table_type(existing@) is None || table_type(existing@) != table_type(incoming@)
            || labelled_line(existing@, body_label()) is None || labelled_line(incoming@, body_label()) is None
            ==> r is None,
{
    let e = chars_of(existing);
    let i = chars_of(incoming);
    match merge_chars(e.as_slice(), i.as_slice()) {
        Some(v) => Some(string_of(v.as_slice())),
        None => None,
    }
}

} // verus!

//! Reading the map server's own account of loading `db/import`: how many
//! entries each mod's table offered, how many were kept, and what the server
//! said in between -- and the sentence Settings shows for it.

use vstd::prelude::*;
use crate::text::{
    chars_of, find_from, first_at_or_after, is_prefix, is_suffix, last_occurrence, occurs_at,
    lemma_first_at_or_after, lemma_line_end, line_end, line_end_of, matches_at, parse_u32,
    parse_u32_of, rfind, same, slice_of, starts_with, string_of, trim, trim_of, ends_with,
};
use crate::tables::line_at;

verus! {

pub open spec fn is_ascii_alpha(c: char) -> bool {
    ('a' <= c && c <= 'z') || ('A' <= c && c <= 'Z')
}

/// Where an escape sequence's parameters end: the first ASCII letter at or
/// after `k`, or the end of the text.
pub open spec fn csi_end(s: Seq<char>, k: int) -> int
    decreases s.len() - k,
{
    if k < 0 || k >= s.len() || is_ascii_alpha(s[k]) {
        k
    } else {
        csi_end(s, k + 1)
    }
}

pub proof fn lemma_csi_end(s: Seq<char>, k: int)
    requires
        0 <= k,
    ensures
        k <= csi_end(s, k),
        k <= s.len() ==> csi_end(s, k) <= s.len(),
    decreases s.len() - k,
{
    if k < s.len() && !is_ascii_alpha(s[k]) {
        lemma_csi_end(s, k + 1);
    }
}

/// The text from `i` on, without the colour codes (`ESC [ ... letter`, or a
/// lone `ESC`) and carriage returns rAthena writes between fields.
pub open spec fn plain_from(s: Seq<char>, i: int) -> Seq<char>
    decreases s.len() - i,
{
    if i < 0 || i >= s.len() {
        seq![]
    } else if s[i] == '\u{1b}' {
        if i + 1 < s.len() && s[i + 1] == '[' {
            proof {
                lemma_csi_end(s, i + 2);
            }
            if csi_end(s, i + 2) >= s.len() {
                seq![]
            } else {
                plain_from(s, csi_end(s, i + 2) + 1)
            }
        } else {
            plain_from(s, i + 1)
        }
    } else if s[i] == '\r' {
        plain_from(s, i + 1)
    } else {
        seq![s[i]] + plain_from(s, i + 1)
    }
}

pub open spec fn plain(s: Seq<char>) -> Seq<char> {
    plain_from(s, 0)
}

fn is_ascii_alpha_char(c: char) -> (r: bool)
    ensures
        r == is_ascii_alpha(c),
{
    ('a' <= c && c <= 'z') || ('A' <= c && c <= 'Z')
}

/// `plain`, computed.
pub fn plain_of(s: &[char]) -> (out: Vec<char>)
    ensures
        out@ == plain(s@),
{
    let mut out: Vec<char> = Vec::new();
    let mut i: usize = 0;
    while i < s.len()
        invariant
            i <= s@.len(),
            plain(s@) == out@ + plain_from(s@, i as int),
        decreases s@.len() - i,
    {
        if s[i] == '\u{1b}' {
            if i + 1 < s.len() && s[i + 1] == '[' {
                let mut k = i + 2;
                while k < s.len() && !is_ascii_alpha_char(s[k])
                    invariant
                        i + 2 <= k <= s@.len(),
                        csi_end(s@, i + 2) == csi_end(s@, k as int),
                    decreases s@.len() - k,
                {
                    k = k + 1;
                }
                if k < s.len() {
                    i = k + 1;
                } else {
                    i = k;
                }
            } else {
                i = i + 1;
            }
        } else if s[i] == '\r' {
            i = i + 1;
        } else {
            let c = s[i];
            assert(out@ + plain_from(s@, i as int) == out@.push(c) + plain_from(s@, i + 1));
            out.push(c);
            i = i + 1;
        }
    }
    out
}

/// Strip the colour codes and carriage returns rAthena writes between fields.
pub fn plain_text(text: &str) -> (out: String)
    ensures
        out@ == plain(text@),
{
    let s = chars_of(text);
    let p = plain_of(s.as_slice());
    string_of(p.as_slice())
}

pub open spec fn quote() -> Seq<char> {
    seq!['\'']
}

/// The text from `from` up to the next `'`, and where reading goes on after it.
pub open spec fn quoted_from(t: Seq<char>, from: int) -> Option<(Seq<char>, int)> {
    match first_at_or_after(t, quote(), from) {
        Some(end) => Some((t.subrange(from, end), end + 1)),
        None => None,
    }
}

fn quoted_of(t: &[char], from: usize) -> (r: Option<(Vec<char>, usize)>)
    requires
        from <= t@.len(),
    ensures
        match r {
            Some((v, next)) => quoted_from(t@, from as int) == Some((v@, next as int)) && from < next <= t@.len(),
            None => quoted_from(t@, from as int) is None,
        },
{
    let q = vec!['\''];
    assert(q@ == quote());
    proof {
        lemma_first_at_or_after(t@, quote(), from as int);
    }
    match find_from(t, q.as_slice(), from) {
        Some(end) => {
            assert(end + 1 <= t@.len());
            let n = t.len();
            assert(end < n);
            Some((slice_of(t, from, end), end + 1))
        },
        None => None,
    }
}

/// The text between `from` and the next `'`, and the position after that quote.
pub fn quoted_at(text: &str, from: usize) -> (r: Option<(String, usize)>)
    requires
        from <= text@.len(),
    ensures
        match r {
            Some((v, next)) => quoted_from(text@, from as int) == Some((v@, next as int)),
            None => quoted_from(text@, from as int) is None,
        },
{
    let t = chars_of(text);
    match quoted_of(t.as_slice(), from) {
        Some((v, next)) => Some((string_of(v.as_slice()), next)),
        None => None,
    }
}

pub open spec fn error_tag() -> Seq<char> {
    "[Error]:"@
}

pub open spec fn warning_tag() -> Seq<char> {
    "[Warning]:"@
}

/// What a (trimmed) line says after `tag`, if it holds the tag and says
/// anything after it.
pub open spec fn tag_message(line: Seq<char>, tag: Seq<char>) -> Seq<Seq<char>> {
    match first_at_or_after(line, tag, 0) {
        Some(k) => if trim(line.skip(k + tag.len())).len() > 0 {
            seq![trim(line.skip(k + tag.len()))]
        } else {
            seq![]
        },
        None => seq![],
    }
}

/// The server's complaints on one line: an error, then a warning.
pub open spec fn line_messages(line: Seq<char>) -> Seq<Seq<char>> {
    tag_message(trim(line), error_tag()) + tag_message(trim(line), warning_tag())
}

/// The complaints in `r`, line by line from `at`.
pub open spec fn messages(r: Seq<char>, at: int) -> Seq<Seq<char>>
    decreases r.len() - at,
{
    if at < 0 || at >= r.len() {
        seq![]
    } else {
        proof {
            lemma_line_end(r, at);
        }
        line_messages(line_at(r, at)) + messages(r, line_end(r, at))
    }
}

/// The text each `String` holds.
pub open spec fn texts(v: Seq<String>) -> Seq<Seq<char>> {
    v.map_values(|e: String| e@)
}

fn push_tag_message(line: &[char], tag: &[char], out: &mut Vec<String>)
    ensures
        texts(final(out)@) == texts(old(out)@) + tag_message(line@, tag@),
{
    proof {
        lemma_first_at_or_after(line@, tag@, 0);
    }
    match find_from(line, tag, 0) {
        Some(k) => {
            assert(k + tag@.len() <= line@.len());
            let n = line.len();
            assert(k + tag.len() <= n);
            let rest = slice_of(line, k + tag.len(), line.len());
            assert(rest@ == line@.skip(k + tag@.len()));
            let message = trim_of(rest.as_slice());
            if message.len() > 0 {
                let ghost before = out@;
                out.push(string_of(message.as_slice()));
                assert(texts(out@) == texts(before) + seq![message@]);
            } else {
                assert(texts(out@) == texts(old(out)@) + tag_message(line@, tag@));
            }
        },
        None => {
            assert(texts(out@) == texts(old(out)@) + tag_message(line@, tag@));
        },
    }
}

fn messages_of(r: &[char]) -> (out: Vec<String>)
    ensures
        texts(out@) == messages(r@, 0),
{
    let error = chars_of("[Error]:");
    let warning = chars_of("[Warning]:");
    let mut out: Vec<String> = Vec::new();
    let mut at: usize = 0;
    while at < r.len()
        invariant
            at <= r@.len(),
            error@ == error_tag(),
            warning@ == warning_tag(),
            messages(r@, 0) == texts(out@) + messages(r@, at as int),
        decreases r@.len() - at,
    {
        proof {
            lemma_line_end(r@, at as int);
        }
        let e = line_end_of(r, at);
        let line = slice_of(r, at, e);
        let trimmed = trim_of(line.as_slice());
        let ghost before = texts(out@);
        push_tag_message(trimmed.as_slice(), error.as_slice(), &mut out);
        push_tag_message(trimmed.as_slice(), warning.as_slice(), &mut out);
        assert(texts(out@) == before + line_messages(line@));
        at = e;
    }
    out
}

/// One table a mod supplied, and what the server made of it.
#[derive(Debug, PartialEq)]
pub struct TableResult {
    pub file: String,
    pub offered: u32,
    pub accepted: u32,
    /// The server's own complaints, in the order it made them.
    pub errors: Vec<String>,
}

impl TableResult {
    /// The result as plain values: file, offered, kept, complaints.
    pub open spec fn row(self) -> (Seq<char>, u32, u32, Seq<Seq<char>>) {
        (self.file@, self.offered, self.accepted, texts(self.errors@))
    }
}

pub open spec fn rows(v: Seq<TableResult>) -> Seq<(Seq<char>, u32, u32, Seq<Seq<char>>)> {
    v.map_values(|r: TableResult| r.row())
}

pub open spec fn entries_marker() -> Seq<char> {
    " entries in '"@
}

pub open spec fn import_prefix() -> Seq<char> {
    "db/import/"@
}

pub open spec fn done_marker() -> Seq<char> {
    "Done reading "@
}

/// The last table still waiting for its count, among the first `k`, that
/// goes by `name`.
pub open spec fn last_named(open: Seq<(Seq<char>, u32, int)>, name: Seq<char>, k: int) -> Option<int>
    decreases k,
{
    if k <= 0 {
        None
    } else if open[k - 1].0 == name {
        Some(k - 1)
    } else {
        last_named(open, name, k - 1)
    }
}

/// Reading the log from `at`, with the tables announced and not yet done in
/// `open` (name under `db/import/`, entries offered, where the announcement
/// was) and the results so far in `out`.
///
/// Each step finds the next `' entries in '` marker, reads the count quoted
/// just before it and the file quoted just after it. An announcement
/// (`Loading '1' entries in`) opens the file; the matching `Done reading`
/// closes the latest open one of that name, with the complaints between the
/// two. Only files under `db/import/` count, and a marker with no readable
/// count is stepped over.
pub open spec fn results_from(
    t: Seq<char>,
    at: int,
    open: Seq<(Seq<char>, u32, int)>,
    out: Seq<(Seq<char>, u32, u32, Seq<Seq<char>>)>,
) -> Seq<(Seq<char>, u32, u32, Seq<Seq<char>>)>
    decreases t.len() - at,
{
    if at < 0 || at >= t.len() {
        out
    } else {
        match first_at_or_after(t, entries_marker(), at) {
            None => out,
            Some(mark) => {
                proof {
                    reveal_strlit(" entries in '");
                    lemma_first_at_or_after(t, entries_marker(), at);
                    lemma_first_at_or_after(t, quote(), mark + entries_marker().len());
                }
                let head = t.take(mark);
                match last_occurrence(head, quote()) {
                    None => results_from(t, mark + 1, open, out),
                    Some(ce) => match last_occurrence(head.take(ce), quote()) {
                        None => results_from(t, mark + 1, open, out),
                        Some(cs) => match parse_u32(head.subrange(cs + 1, ce)) {
                            None => results_from(t, mark + 1, open, out),
                            Some(count) => match quoted_from(t, mark + entries_marker().len()) {
                                None => out,
                                Some((file, next)) => if !is_prefix(import_prefix(), file) {
                                    results_from(t, next, open, out)
                                } else if !is_suffix(done_marker(), head.take(cs)) {
                                    results_from(
                                        t,
                                        next,
                                        open.push((file.skip(import_prefix().len() as int), count, mark)),
                                        out,
                                    )
                                } else {
                                    match last_named(open, file.skip(import_prefix().len() as int), open.len() as int) {
                                        None => results_from(t, next, open, out),
                                        Some(k) => results_from(
                                            t,
                                            next,
                                            open.remove(k),
                                            out.push((
                                                file.skip(import_prefix().len() as int),
                                                open[k].1,
                                                count,
                                                messages(t.subrange(open[k].2, mark), 0),
                                            )),
                                        ),
                                    }
                                },
                            },
                        },
                    },
                }
            },
        }
    }
}

/// What the server made of each table under `db/import`, in the order it
/// finished reading them.
pub open spec fn table_results(log: Seq<char>) -> Seq<(Seq<char>, u32, u32, Seq<Seq<char>>)> {
    results_from(plain(log), 0, seq![], seq![])
}

/// At `m` the log names the table `db/import/<file>` (` entries in
/// 'db/import/<file>'`), after a count `'<n>'` (the last two quotes before
/// `m`) that follows `Done reading ` exactly when `done`: the table's
/// announcement, or its `Done reading` line.
pub open spec fn table_line_at(t: Seq<char>, file: Seq<char>, n: u32, done: bool, m: int) -> bool {
    &&& occurs_at(t, entries_marker() + import_prefix() + file + quote(), m)
    &&& exists|cs: int, ce: int| #![trigger t[cs], t[ce]]
        0 <= cs < ce < m && t[cs] == '\'' && t[ce] == '\'' && parse_u32(t.subrange(cs + 1, ce)) == Some(n)
            && is_suffix(done_marker(), t.take(cs)) == done
}

/// A result the log bears out: the table was announced offering `r.1`
/// entries, later finished keeping `r.2`, and its complaints are those
/// printed between the two lines, and no others.
pub open spec fn bracketed(t: Seq<char>, r: (Seq<char>, u32, u32, Seq<Seq<char>>)) -> bool {
    exists|a: int, b: int| #![trigger table_line_at(t, r.0, r.1, false, a), table_line_at(t, r.0, r.2, true, b)]
        0 <= a < b <= t.len() && table_line_at(t, r.0, r.1, false, a) && table_line_at(t, r.0, r.2, true, b)
            && r.3 == messages(t.subrange(a, b), 0)
}

proof fn lemma_last_named(open: Seq<(Seq<char>, u32, int)>, name: Seq<char>, k: int)
    requires
        0 <= k <= open.len(),
    ensures
        last_named(open, name, k) matches Some(i) ==> 0 <= i < k && open[i].0 == name,
    decreases k,
{
    if k > 0 && open[k - 1].0 != name {
        lemma_last_named(open, name, k - 1);
    }
}

/// The count read before a marker: the last two quotes before `mark`, with
/// what is between them.
proof fn lemma_count_quotes(t: Seq<char>, mark: int, ce: int, cs: int, count: u32)
    requires
        0 <= mark <= t.len(),
        last_occurrence(t.take(mark), quote()) == Some(ce),
        last_occurrence(t.take(mark).take(ce), quote()) == Some(cs),
        parse_u32(t.take(mark).subrange(cs + 1, ce)) == Some(count),
    ensures
        0 <= cs < ce < mark,
        t[cs] == '\'',
        t[ce] == '\'',
        parse_u32(t.subrange(cs + 1, ce)) == Some(count),
        t.take(cs) == t.take(mark).take(cs),
{
    let head = t.take(mark);
    crate::text::lemma_last_at_or_before(head, quote(), head.len() - quote().len());
    crate::text::lemma_last_at_or_before(head.take(ce), quote(), head.take(ce).len() - quote().len());
    assert(head.subrange(ce, ce + 1) == quote());
    assert(head[ce] == head.subrange(ce, ce + 1)[0]);
    assert(head.take(ce).subrange(cs, cs + 1) == quote());
    assert(head.take(ce)[cs] == head.take(ce).subrange(cs, cs + 1)[0]);
    assert(t.subrange(cs + 1, ce) =~= head.subrange(cs + 1, ce));
    assert(t.take(cs) =~= head.take(cs));
}

/// The file a marker names: ` entries in 'db/import/<name>'` stands at `mark`.
proof fn lemma_marker_names(t: Seq<char>, mark: int, file: Seq<char>, next: int)
    requires
        0 <= mark,
        occurs_at(t, entries_marker(), mark),
        quoted_from(t, mark + entries_marker().len()) == Some((file, next)),
        is_prefix(import_prefix(), file),
    ensures
        occurs_at(t, entries_marker() + import_prefix() + file.skip(import_prefix().len() as int) + quote(), mark),
        mark < next <= t.len(),
{
    reveal_strlit(" entries in '");
    reveal_strlit("db/import/");
    let from = mark + entries_marker().len();
    lemma_first_at_or_after(t, quote(), from);
    let end = first_at_or_after(t, quote(), from).unwrap();
    let name = file.skip(import_prefix().len() as int);
    assert(file =~= import_prefix() + name);
    let whole = entries_marker() + import_prefix() + name + quote();
    assert(whole =~= entries_marker() + file + quote());
    assert(t.subrange(mark, end + 1) =~= whole) by {
        assert(t.subrange(mark, mark + 13) == entries_marker());
        assert(t.subrange(end, end + 1) == quote());
        assert forall|x: int| 0 <= x < whole.len() implies #[trigger] t.subrange(mark, end + 1)[x] == whole[x] by {
            if x < 13 {
                assert(t.subrange(mark, mark + 13)[x] == whole[x]);
            } else if x < end - mark {
                assert(file[x - 13] == t[mark + x]);
            } else {
                assert(t.subrange(end, end + 1)[0] == t[end]);
            }
        }
    }
}

/// What one ` entries in '` marker that results_from reads says.
proof fn lemma_marker_line(t: Seq<char>, at: int, mark: int, ce: int, cs: int, count: u32, file: Seq<char>, next: int)
    requires
        0 <= at,
        first_at_or_after(t, entries_marker(), at) == Some(mark),
        last_occurrence(t.take(mark), quote()) == Some(ce),
        last_occurrence(t.take(mark).take(ce), quote()) == Some(cs),
        parse_u32(t.take(mark).subrange(cs + 1, ce)) == Some(count),
        quoted_from(t, mark + entries_marker().len()) == Some((file, next)),
        is_prefix(import_prefix(), file),
    ensures
        table_line_at(t, file.skip(import_prefix().len() as int), count,
            is_suffix(done_marker(), t.take(mark).take(cs)), mark),
        at <= mark < next <= t.len(),
{
    lemma_first_at_or_after(t, entries_marker(), at);
    lemma_count_quotes(t, mark, ce, cs, count);
    lemma_marker_names(t, mark, file, next);
    assert(t.take(mark).take(ce).take(cs) =~= t.take(mark).take(cs));
    assert(t.take(cs) == t.take(mark).take(cs));
}

/// Each table still open was announced where it says, before `at`.
pub open spec fn opens_ok(t: Seq<char>, at: int, open: Seq<(Seq<char>, u32, int)>) -> bool {
    forall|k: int| 0 <= k < open.len() ==> 0 <= (#[trigger] open[k]).2 < at
        && table_line_at(t, open[k].0, open[k].1, false, open[k].2)
}

pub open spec fn results_ok(t: Seq<char>, out: Seq<(Seq<char>, u32, u32, Seq<Seq<char>>)>) -> bool {
    forall|k: int| 0 <= k < out.len() ==> bracketed(t, #[trigger] out[k])
}

proof fn lemma_results_bracketed(
    t: Seq<char>,
    at: int,
    open: Seq<(Seq<char>, u32, int)>,
    out: Seq<(Seq<char>, u32, u32, Seq<Seq<char>>)>,
)
    requires
        0 <= at,
        opens_ok(t, at, open),
        results_ok(t, out),
    ensures
        results_ok(t, results_from(t, at, open, out)),
    decreases t.len() - at,
{
    if at < t.len() {
        reveal_strlit(" entries in '");
        lemma_first_at_or_after(t, entries_marker(), at);
        match first_at_or_after(t, entries_marker(), at) {
            None => {},
            Some(mark) => {
                lemma_first_at_or_after(t, quote(), mark + entries_marker().len());
                let head = t.take(mark);
                assert(opens_ok(t, mark + 1, open));
                match last_occurrence(head, quote()) {
                    None => lemma_results_bracketed(t, mark + 1, open, out),
                    Some(ce) => match last_occurrence(head.take(ce), quote()) {
                        None => lemma_results_bracketed(t, mark + 1, open, out),
                        Some(cs) => match parse_u32(head.subrange(cs + 1, ce)) {
                            None => lemma_results_bracketed(t, mark + 1, open, out),
                            Some(count) => match quoted_from(t, mark + entries_marker().len()) {
                                None => {},
                                Some((file, next)) => {
                                    assert(next > mark);
                                    assert(opens_ok(t, next, open));
                                    if !is_prefix(import_prefix(), file) {
                                        lemma_results_bracketed(t, next, open, out);
                                    } else {
                                        lemma_marker_line(t, at, mark, ce, cs, count, file, next);
                                        let name = file.skip(import_prefix().len() as int);
                                        if !is_suffix(done_marker(), head.take(cs)) {
                                            let open2 = open.push((name, count, mark));
                                            assert(opens_ok(t, next, open2)) by {
                                                assert forall|k: int| 0 <= k < open2.len() implies 0 <= (#[trigger] open2[k]).2 < next
                                                    && table_line_at(t, open2[k].0, open2[k].1, false, open2[k].2) by {
                                                    if k < open.len() {
                                                        assert(open2[k] == open[k]);
                                                    }
                                                }
                                            }
                                            lemma_results_bracketed(t, next, open2, out);
                                        } else {
                                            lemma_last_named(open, name, open.len() as int);
                                            match last_named(open, name, open.len() as int) {
                                                None => lemma_results_bracketed(t, next, open, out),
                                                Some(k) => {
                                                    let r = (name, open[k].1, count, messages(t.subrange(open[k].2, mark), 0));
                                                    assert(open[k].0 == name);
                                                    assert(table_line_at(t, r.0, r.1, false, open[k].2));
                                                    assert(table_line_at(t, r.0, r.2, true, mark));
                                                    assert(bracketed(t, r));
                                                    let out2 = out.push(r);
                                                    assert(results_ok(t, out2)) by {
                                                        assert forall|j: int| 0 <= j < out2.len() implies bracketed(t, #[trigger] out2[j]) by {
                                                            if j < out.len() {
                                                                assert(out2[j] == out[j]);
                                                            }
                                                        }
                                                    }
                                                    let open2 = open.remove(k);
                                                    assert(opens_ok(t, next, open2)) by {
                                                        assert forall|j: int| 0 <= j < open2.len() implies 0 <= (#[trigger] open2[j]).2 < next
                                                            && table_line_at(t, open2[j].0, open2[j].1, false, open2[j].2) by {
                                                            if j < k {
                                                                assert(open2[j] == open[j]);
                                                            } else {
                                                                assert(open2[j] == open[j + 1]);
                                                            }
                                                        }
                                                    }
                                                    lemma_results_bracketed(t, next, open2, out2);
                                                },
                                            }
                                        }
                                    }
                                },
                            },
                        },
                    },
                }
            },
        }
    }
}

/// The log reader attributes nothing it cannot point to: every result is a
/// table under `db/import` that the log announced, with the entries it
/// offered, and later finished, with the entries it kept; and its
/// complaints are exactly those printed between those two lines, so one
/// table's failure never lands on another announced or finished outside
/// that stretch.
pub proof fn lemma_complaints_between_markers(log: Seq<char>, i: int)
    requires
        0 <= i < table_results(log).len(),
    ensures
        bracketed(plain(log), table_results(log)[i]),
{
    lemma_results_bracketed(plain(log), 0, seq![], seq![]);
}

pub open spec fn opened(v: Seq<(Vec<char>, u32, usize)>) -> Seq<(Seq<char>, u32, int)> {
    v.map_values(|o: (Vec<char>, u32, usize)| (o.0@, o.1, o.2 as int))
}

fn last_named_of(open: &Vec<(Vec<char>, u32, usize)>, name: &[char]) -> (r: Option<usize>)
    ensures
        match r {
            Some(k) => last_named(opened(open@), name@, open@.len() as int) == Some(k as int) && k < open@.len(),
            None => last_named(opened(open@), name@, open@.len() as int) is None,
        },
{
    let mut k = open.len();
    while k > 0
        invariant
            k <= open@.len(),
            last_named(opened(open@), name@, open@.len() as int) == last_named(opened(open@), name@, k as int),
        decreases k,
    {
        if same(open[k - 1].0.as_slice(), name) {
            return Some(k - 1);
        }
        k = k - 1;
    }
    None
}

/// Read the map server's account of loading `db/import`.
///
/// This is rAthena's verdict, not a second opinion: one result per table
/// under `db/import` that it both announced and finished, with the number of
/// entries offered and kept and the complaints it printed between the two.
pub fn parse_table_results(log: &str) -> (out: Vec<TableResult>)
    ensures
        rows(out@) == table_results(log@),
{
    let raw = chars_of(log);
    let t = plain_of(raw.as_slice());
    let marker = chars_of(" entries in '");
    let q: Vec<char> = vec!['\''];
    let prefix = chars_of("db/import/");
    let done_mark = chars_of("Done reading ");
    assert(q@ == quote());
    let mut open: Vec<(Vec<char>, u32, usize)> = Vec::new();
    let mut out: Vec<TableResult> = Vec::new();
    let mut at: usize = 0;
    assert(opened(open@) == Seq::<(Seq<char>, u32, int)>::empty());
    assert(rows(out@) == Seq::<(Seq<char>, u32, u32, Seq<Seq<char>>)>::empty());
    while at < t.len()
        invariant
            at <= t@.len(),
            marker@ == entries_marker(),
            q@ == quote(),
            prefix@ == import_prefix(),
            done_mark@ == done_marker(),
            forall|k: int| 0 <= k < open@.len() ==> #[trigger] open@[k].2 <= at,
            table_results(log@) == results_from(t@, at as int, opened(open@), rows(out@)),
        decreases t@.len() - at,
    {
        proof {
            reveal_strlit(" entries in '");
            lemma_first_at_or_after(t@, entries_marker(), at as int);
        }
        let mark = match find_from(t.as_slice(), marker.as_slice(), at) {
            Some(m) => m,
            None => return out,
        };
        assert(mark + 13 <= t@.len());
        let head = slice_of(t.as_slice(), 0, mark);
        assert(head@ == t@.take(mark as int));
        proof {
            crate::text::lemma_last_at_or_before(head@, quote(), head@.len() - 1);
        }
        let count_end = match rfind(head.as_slice(), q.as_slice()) {
            Some(e) => e,
            None => {
                at = mark + 1;
                continue;
            },
        };
        let before = slice_of(head.as_slice(), 0, count_end);
        assert(before@ == head@.take(count_end as int));
        proof {
            crate::text::lemma_last_at_or_before(before@, quote(), before@.len() - 1);
        }
        let count_start = match rfind(before.as_slice(), q.as_slice()) {
            Some(s) => s,
            None => {
                at = mark + 1;
                continue;
            },
        };
        let digits = slice_of(head.as_slice(), count_start + 1, count_end);
        let count = match parse_u32_of(digits.as_slice()) {
            Some(c) => c,
            None => {
                at = mark + 1;
                continue;
            },
        };
        let lead = slice_of(head.as_slice(), 0, count_start);
        assert(lead@ == head@.take(count_start as int));
        let done = ends_with(lead.as_slice(), done_mark.as_slice());
        let (file, next) = match quoted_of(t.as_slice(), mark + marker.len()) {
            Some(found) => found,
            None => return out,
        };
        at = next;
        if !starts_with(file.as_slice(), prefix.as_slice()) {
            continue;
        }
        let name = slice_of(file.as_slice(), prefix.len(), file.len());
        assert(name@ == file@.skip(import_prefix().len() as int));
        if !done {
            let ghost old_open = open@;
            open.push((name, count, mark));
            assert(opened(open@) == opened(old_open).push((name@, count, mark as int)));
            continue;
        }
        let index = match last_named_of(&open, name.as_slice()) {
            Some(k) => k,
            None => continue,
        };
        let ghost old_open = open@;
        let (_, offered, from) = open.remove(index);
        assert(opened(open@) == opened(old_open).remove(index as int));
        assert(from <= mark);
        let region = slice_of(t.as_slice(), from, mark);
        let errors = messages_of(region.as_slice());
        let result = TableResult { file: string_of(name.as_slice()), offered, accepted: count, errors };
        let ghost old_out = out@;
        out.push(result);
        assert(rows(out@) == rows(old_out).push(result.row()));
    }
    out
}

pub open spec fn type_marker() -> Seq<char> {
    "cannot be parsed as "@
}

/// The first `'.'` or `' '` at or after `k`, or the end of `s`.
pub open spec fn word_end(s: Seq<char>, k: int) -> int
    decreases s.len() - k,
{
    if k < 0 || k >= s.len() || s[k] == '.' || s[k] == ' ' {
        k
    } else {
        word_end(s, k + 1)
    }
}

/// What rAthena's mangled type letter means, for the letters it prints.
pub open spec fn type_meaning(name: Seq<char>) -> Option<Seq<char>> {
    if name.len() != 1 {
        None
    } else if name[0] == 'b' {
        Some("true or false"@)
    } else if name[0] == 'a' || name[0] == 'c' || name[0] == 'h' || name[0] == 's' || name[0] == 't'
        || name[0] == 'i' || name[0] == 'j' || name[0] == 'l' || name[0] == 'm' || name[0] == 'x'
        || name[0] == 'y' {
        Some("a whole number"@)
    } else if name[0] == 'f' || name[0] == 'd' {
        Some("a number"@)
    } else {
        None
    }
}

/// The type named after the first "cannot be parsed as ", spelled out, when
/// it is one of the letters rAthena prints.
pub open spec fn expanded(message: Seq<char>) -> Option<Seq<char>> {
    match first_at_or_after(message, type_marker(), 0) {
        None => None,
        Some(k) => {
            let rest = message.skip(k + type_marker().len());
            let name = rest.take(word_end(rest, 0));
            match type_meaning(name) {
                Some(meaning) => Some(name + " is "@ + meaning),
                None => None,
            }
        },
    }
}

proof fn lemma_word_end(s: Seq<char>, k: int)
    requires
        0 <= k <= s.len(),
    ensures
        k <= word_end(s, k) <= s.len(),
    decreases s.len() - k,
{
    if k < s.len() && s[k] != '.' && s[k] != ' ' {
        lemma_word_end(s, k + 1);
    }
}

fn expanded_of(message: &[char]) -> (r: Option<Vec<char>>)
    ensures
        match r {
            Some(v) => expanded(message@) == Some(v@),
            None => expanded(message@) is None,
        },
{
    let marker = chars_of("cannot be parsed as ");
    proof {
        lemma_first_at_or_after(message@, type_marker(), 0);
    }
    let k = match find_from(message, marker.as_slice(), 0) {
        Some(k) => k,
        None => return None,
    };
    assert(k + marker@.len() <= message@.len());
    let n = message.len();
    assert(k + marker.len() <= n);
    let rest = slice_of(message, k + marker.len(), message.len());
    assert(rest@ == message@.skip(k + type_marker().len()));
    let mut e: usize = 0;
    while e < rest.len() && rest[e] != '.' && rest[e] != ' '
        invariant
            e <= rest@.len(),
            word_end(rest@, 0) == word_end(rest@, e as int),
        decreases rest@.len() - e,
    {
        e = e + 1;
    }
    let name = slice_of(rest.as_slice(), 0, e);
    assert(name@ == rest@.take(word_end(rest@, 0)));
    if name.len() != 1 {
        return None;
    }
    let c = name[0];
    let meaning = if c == 'b' {
        chars_of("true or false")
    } else if c == 'a' || c == 'c' || c == 'h' || c == 's' || c == 't' || c == 'i' || c == 'j'
        || c == 'l' || c == 'm' || c == 'x' || c == 'y' {
        chars_of("a whole number")
    } else if c == 'f' || c == 'd' {
        chars_of("a number")
    } else {
        return None;
    };
    let mut out = name;
    let is_word = chars_of(" is ");
    crate::text::push_all(&mut out, is_word.as_slice());
    crate::text::push_all(&mut out, meaning.as_slice());
    Some(out)
}

/// Say what rAthena means by the type name in a parse failure: it prints a
/// mangled one-letter name, and this spells it out.
pub fn expand_type_name(message: &str) -> (r: Option<String>)
    ensures
        match r {
            Some(v) => expanded(message@) == Some(v@),
            None => expanded(message@) is None,
        },
{
    let m = chars_of(message);
    match expanded_of(m.as_slice()) {
        Some(v) => Some(string_of(v.as_slice())),
        None => None,
    }
}

/// A character as it is written on one line: tabs and line breaks become
/// spaces.
pub open spec fn flat(c: char) -> char {
    if c == '\t' || c == '\n' || c == '\r' {
        ' '
    } else {
        c
    }
}

/// `s` on one line, so it cannot break the tab-separated line it is written on.
pub open spec fn flattened(s: Seq<char>) -> Seq<char> {
    s.map_values(|c: char| flat(c))
}

pub fn one_line_of(s: &[char]) -> (out: Vec<char>)
    ensures
        out@ == flattened(s@),
{
    let mut out: Vec<char> = Vec::new();
    let mut i: usize = 0;
    while i < s.len()
        invariant
            i <= s@.len(),
            out@ == flattened(s@.take(i as int)),
        decreases s@.len() - i,
    {
        let c = s[i];
        let f = if c == '\t' || c == '\n' || c == '\r' { ' ' } else { c };
        out.push(f);
        i = i + 1;
        assert(flattened(s@.take(i as int)) == flattened(s@.take(i - 1)).push(flat(s@[i - 1])));
    }
    assert(s@.take(s@.len() as int) == s@);
    out
}

/// Flatten a field so it cannot break the tab-separated line it is written on.
pub fn one_line(s: &str) -> (out: String)
    ensures
        out@ == flattened(s@),
{
    let v = chars_of(s);
    let f = one_line_of(v.as_slice());
    string_of(f.as_slice())
}

/// "entry" for one, "entries" otherwise.
pub open spec fn entry_word(n: u32) -> Seq<char> {
    if n == 1 {
        "entry"@
    } else {
        "entries"@
    }
}

/// Each complaint after a space, with its type spelled out in brackets where
/// it can be.
pub open spec fn error_notes(errors: Seq<Seq<char>>) -> Seq<char>
    decreases errors.len(),
{
    if errors.len() == 0 {
        seq![]
    } else {
        error_notes(errors.drop_last()) + " "@ + errors.last() + match expanded(errors.last()) {
            Some(x) => " ("@ + x + ")"@,
            None => seq![],
        }
    }
}

/// The sentence Settings shows for one table.
pub open spec fn description(r: (Seq<char>, u32, u32, Seq<Seq<char>>)) -> Seq<char> {
    flattened(
        "db/"@ + r.0 + ": "@ + crate::text::decimal(r.1 as nat) + " "@ + entry_word(r.1) + " offered, "@
            + crate::text::decimal(r.2 as nat) + " kept."@ + error_notes(r.3),
    )
}

/// Turn one table's result into the sentence Settings shows.
pub fn describe(result: &TableResult) -> (out: String)
    ensures
        out@ == description(result.row()),
{
    let mut text = chars_of("db/");
    let file = chars_of(result.file.as_str());
    crate::text::push_all(&mut text, file.as_slice());
    crate::text::push_all(&mut text, chars_of(": ").as_slice());
    crate::text::push_decimal(&mut text, result.offered);
    crate::text::push_all(&mut text, chars_of(" ").as_slice());
    let word = if result.offered == 1 { chars_of("entry") } else { chars_of("entries") };
    crate::text::push_all(&mut text, word.as_slice());
    crate::text::push_all(&mut text, chars_of(" offered, ").as_slice());
    crate::text::push_decimal(&mut text, result.accepted);
    crate::text::push_all(&mut text, chars_of(" kept.").as_slice());
    let ghost head = text@;
    let mut i: usize = 0;
    while i < result.errors.len()
        invariant
            i <= result.errors@.len(),
            text@ == head + error_notes(texts(result.errors@).take(i as int)),
        decreases result.errors@.len() - i,
    {
        let error = chars_of(result.errors[i].as_str());
        crate::text::push_all(&mut text, chars_of(" ").as_slice());
        crate::text::push_all(&mut text, error.as_slice());
        match expanded_of(error.as_slice()) {
            Some(x) => {
                crate::text::push_all(&mut text, chars_of(" (").as_slice());
                crate::text::push_all(&mut text, x.as_slice());
                crate::text::push_all(&mut text, chars_of(")").as_slice());
            },
            None => {},
        }
        i = i + 1;
        let ghost taken = texts(result.errors@).take(i as int);
        assert(taken.drop_last() == texts(result.errors@).take(i - 1));
        assert(taken.last() == result.errors@[i - 1]@);
    }
    assert(texts(result.errors@).take(result.errors@.len() as int) == texts(result.errors@));
    let flat_text = one_line_of(text.as_slice());
    string_of(flat_text.as_slice())
}

/// A line's text, as `str::lines` gives it: without its `\n` or `\r\n`.
pub open spec fn line_text(l: Seq<char>) -> Seq<char> {
    if l.len() >= 2 && l[l.len() - 1] == '\n' && l[l.len() - 2] == '\r' {
        l.take(l.len() - 2)
    } else if l.len() >= 1 && l[l.len() - 1] == '\n' {
        l.take(l.len() - 1)
    } else {
        l
    }
}

/// Reading tab-separated pairs from `at`: each line with a tab, cut at its
/// first tab.
pub open spec fn pairs_from(body: Seq<char>, at: int) -> Seq<(Seq<char>, Seq<char>)>
    decreases body.len() - at,
{
    if at < 0 || at >= body.len() {
        seq![]
    } else {
        proof {
            crate::text::lemma_line_end(body, at);
        }
        let t = line_text(line_at(body, at));
        match first_at_or_after(t, seq!['\t'], 0) {
            Some(k) => seq![(t.take(k), t.skip(k + 1))] + pairs_from(body, crate::text::line_end(body, at)),
            None => pairs_from(body, crate::text::line_end(body, at)),
        }
    }
}

pub open spec fn pair_views(v: Seq<(String, String)>) -> Seq<(Seq<char>, Seq<char>)> {
    v.map_values(|p: (String, String)| (p.0@, p.1@))
}

/// The pairs a tab-separated file holds, in order.
pub fn read_pairs(body: &str) -> (out: Vec<(String, String)>)
    ensures
        pair_views(out@) == pairs_from(body@, 0),
{
    let b = chars_of(body);
    let tab: Vec<char> = vec!['\t'];
    assert(tab@ == seq!['\t']);
    let mut out: Vec<(String, String)> = Vec::new();
    let mut at: usize = 0;
    assert(pair_views(out@) =~= Seq::<(Seq<char>, Seq<char>)>::empty());
    while at < b.len()
        invariant
            at <= b@.len(),
            b@ == body@,
            tab@ == seq!['\t'],
            pairs_from(body@, 0) == pair_views(out@) + pairs_from(body@, at as int),
        decreases b@.len() - at,
    {
        proof {
            crate::text::lemma_line_end(b@, at as int);
        }
        let e = line_end_of(b.as_slice(), at);
        let l = slice_of(b.as_slice(), at, e);
        let n = l.len();
        let cut = if n >= 2 && l[n - 1] == '\n' && l[n - 2] == '\r' {
            n - 2
        } else if n >= 1 && l[n - 1] == '\n' {
            n - 1
        } else {
            n
        };
        let t = slice_of(l.as_slice(), 0, cut);
        assert(t@ == line_text(l@));
        proof {
            lemma_first_at_or_after(t@, seq!['\t'], 0);
        }
        match find_from(t.as_slice(), tab.as_slice(), 0) {
            Some(k) => {
                let tn = t.len();
                assert(k < tn);
                let a = slice_of(t.as_slice(), 0, k);
                let c = slice_of(t.as_slice(), k + 1, t.len());
                assert(a@ == t@.take(k as int));
                assert(c@ == t@.skip(k + 1));
                let ghost before = pair_views(out@);
                out.push((string_of(a.as_slice()), string_of(c.as_slice())));
                assert(pair_views(out@) == before.push((a@, c@)));
            },
            None => {},
        }
        at = e;
    }
    out
}

/// Pairs written one per line, tab-separated, each field on one line.
pub open spec fn pairs_text(v: Seq<(Seq<char>, Seq<char>)>) -> Seq<char>
    decreases v.len(),
{
    if v.len() == 0 {
        seq![]
    } else {
        pairs_text(v.drop_last()) + flattened(v.last().0) + seq!['\t'] + flattened(v.last().1) + seq!['\n']
    }
}

/// Pairs as a tab-separated file: which mod supplied each file, or which
/// mod's copy could not be combined and why.
pub fn write_pairs(v: &[(String, String)]) -> (out: String)
    ensures
        out@ == pairs_text(pair_views(v@)),
{
    let mut out: Vec<char> = Vec::new();
    let mut i: usize = 0;
    while i < v.len()
        invariant
            i <= v@.len(),
            out@ == pairs_text(pair_views(v@).take(i as int)),
        decreases v@.len() - i,
    {
        push_all_chars(&mut out, one_line_of(chars_of(v[i].0.as_str()).as_slice()).as_slice());
        out.push('\t');
        push_all_chars(&mut out, one_line_of(chars_of(v[i].1.as_str()).as_slice()).as_slice());
        out.push('\n');
        i = i + 1;
        assert(pair_views(v@).take(i as int).drop_last() == pair_views(v@).take(i - 1));
    }
    assert(pair_views(v@).take(v@.len() as int) == pair_views(v@));
    string_of(out.as_slice())
}

fn push_all_chars(dst: &mut Vec<char>, src: &[char])
    ensures
        final(dst)@ == old(dst)@ + src@,
{
    crate::text::push_all(dst, src);
}

/// The last pair, among the first `k`, whose first field is `key`: what a
/// map built from the pairs in order holds for it.
pub open spec fn looked_up(v: Seq<(Seq<char>, Seq<char>)>, key: Seq<char>, k: int) -> Option<Seq<char>>
    decreases k,
{
    if k <= 0 || k > v.len() {
        None
    } else if v[k - 1].0 == key {
        Some(v[k - 1].1)
    } else {
        looked_up(v, key, k - 1)
    }
}

/// A table the server kept every entry of, without complaint.
pub open spec fn clean(r: (Seq<char>, u32, u32, Seq<Seq<char>>)) -> bool {
    r.2 >= r.1 && r.3.len() == 0
}

/// The tables the server had trouble with, each against the mod that
/// supplied it, with the sentence Settings shows; a table nobody owns is
/// skipped.
pub open spec fn table_problems(owners: Seq<(Seq<char>, Seq<char>)>, results: Seq<(Seq<char>, u32, u32, Seq<Seq<char>>)>) -> Seq<
    (Seq<char>, Seq<char>),
>
    decreases results.len(),
{
    if results.len() == 0 {
        seq![]
    } else {
        let rest = table_problems(owners, results.drop_last());
        let r = results.last();
        if clean(r) {
            rest
        } else {
            match looked_up(owners, r.0, owners.len() as int) {
                Some(o) => rest.push((o, description(r))),
                None => rest,
            }
        }
    }
}

fn looked_up_of(v: &[(String, String)], key: &[char]) -> (r: Option<String>)
    ensures
        match r {
            Some(x) => looked_up(pair_views(v@), key@, v@.len() as int) == Some(x@),
            None => looked_up(pair_views(v@), key@, v@.len() as int) is None,
        },
{
    let mut k = v.len();
    while k > 0
        invariant
            k <= v@.len(),
            looked_up(pair_views(v@), key@, v@.len() as int) == looked_up(pair_views(v@), key@, k as int),
        decreases k,
    {
        if same(chars_of(v[k - 1].0.as_str()).as_slice(), key) {
            return Some(v[k - 1].1.clone());
        }
        k = k - 1;
    }
    None
}

/// The tables the server had trouble with, each against its owner.
pub fn result_problems(owners: &[(String, String)], results: &[TableResult]) -> (out: Vec<(String, String)>)
    ensures
        pair_views(out@) == table_problems(pair_views(owners@), rows(results@)),
{
    let mut out: Vec<(String, String)> = Vec::new();
    let mut i: usize = 0;
    assert(pair_views(out@) =~= Seq::<(Seq<char>, Seq<char>)>::empty());
    while i < results.len()
        invariant
            i <= results@.len(),
            pair_views(out@) == table_problems(pair_views(owners@), rows(results@).take(i as int)),
        decreases results@.len() - i,
    {
        let r = &results[i];
        let ghost t = rows(results@).take(i + 1);
        assert(t.drop_last() == rows(results@).take(i as int));
        assert(t.last() == r.row());
        if !(r.accepted >= r.offered && r.errors.len() == 0) {
            match looked_up_of(owners, chars_of(r.file.as_str()).as_slice()) {
                Some(o) => {
                    let text = describe(r);
                    let ghost before = pair_views(out@);
                    out.push((o, text));
                    assert(pair_views(out@) == before.push((o@, text@)));
                },
                None => {},
            }
        }
        i = i + 1;
    }
    assert(rows(results@).take(results@.len() as int) == rows(results@));
    out
}

/// The messages of `items` for `owner`, in order.
pub open spec fn messages_for(items: Seq<(Seq<char>, Seq<char>)>, owner: Seq<char>) -> Seq<Seq<char>>
    decreases items.len(),
{
    if items.len() == 0 {
        seq![]
    } else if items.last().0 == owner {
        messages_for(items.drop_last(), owner).push(items.last().1)
    } else {
        messages_for(items.drop_last(), owner)
    }
}

/// The owners, in strictly increasing code-point order.
pub open spec fn ascending(keys: Seq<Seq<char>>) -> bool {
    forall|i: int, j: int| 0 <= i < j < keys.len() ==> crate::order::lex_lt(#[trigger] keys[i], #[trigger] keys[j])
}

/// Some item is `o`'s.
pub open spec fn owned_in(items: Seq<(Seq<char>, Seq<char>)>, o: Seq<char>) -> bool {
    exists|i: int| 0 <= i < items.len() && #[trigger] items[i].0 == o
}

/// Some group is `o`'s.
pub open spec fn keyed_in(g: Seq<(Seq<char>, Seq<Seq<char>>)>, o: Seq<char>) -> bool {
    exists|k: int| 0 <= k < g.len() && #[trigger] g[k].0 == o
}

/// What the last start said, keyed by mod: every owner once, in order, each
/// with its messages in the order they were made.
pub open spec fn grouped(items: Seq<(Seq<char>, Seq<char>)>, g: Seq<(Seq<char>, Seq<Seq<char>>)>) -> bool {
    &&& ascending(g.map_values(|e: (Seq<char>, Seq<Seq<char>>)| e.0))
    &&& forall|o: Seq<char>| #![trigger owned_in(items, o)] #![trigger keyed_in(g, o)]
        owned_in(items, o) <==> keyed_in(g, o)
    &&& forall|k: int| 0 <= k < g.len() ==> (#[trigger] g[k]).1 == messages_for(items, g[k].0)
}

/// The report's grouping is the only one there is: two groupings of the
/// same problems are the same.
#[verifier::spinoff_prover]
pub proof fn lemma_grouped_unique(items: Seq<(Seq<char>, Seq<char>)>, a: Seq<(Seq<char>, Seq<Seq<char>>)>, b: Seq<(Seq<char>, Seq<Seq<char>>)>)
    requires
        grouped(items, a),
        grouped(items, b),
    ensures
        a == b,
{
    let ka = a.map_values(|e: (Seq<char>, Seq<Seq<char>>)| e.0);
    let kb = b.map_values(|e: (Seq<char>, Seq<Seq<char>>)| e.0);
    assert forall|y: Seq<char>| #![trigger ka.contains(y)] #![trigger kb.contains(y)] ka.contains(y) <==> kb.contains(y) by {
        if ka.contains(y) {
            let k = choose|k: int| 0 <= k < ka.len() && ka[k] == y;
            assert(a[k].0 == y);
            assert(keyed_in(a, y));
            assert(owned_in(items, y));
            assert(keyed_in(b, y));
            let t = choose|t: int| 0 <= t < b.len() && #[trigger] b[t].0 == y;
            assert(kb[t] == y);
        }
        if kb.contains(y) {
            let k = choose|k: int| 0 <= k < kb.len() && kb[k] == y;
            assert(b[k].0 == y);
            assert(keyed_in(b, y));
            assert(owned_in(items, y));
            assert(keyed_in(a, y));
            let t = choose|t: int| 0 <= t < a.len() && #[trigger] a[t].0 == y;
            assert(ka[t] == y);
        }
    }
    crate::precedence::lemma_ascending_unique(ka, kb);
    assert(a.len() == ka.len() && b.len() == kb.len());
    assert(a.len() == b.len());
    assert forall|k: int| 0 <= k < a.len() implies a[k] == b[k] by {
        assert(ka[k] == kb[k]);
        assert(a[k].0 == ka[k] && b[k].0 == kb[k]);
        assert(a[k].1 == messages_for(items, a[k].0));
        assert(b[k].1 == messages_for(items, b[k].0));
    }
    assert(a =~= b);
}

pub open spec fn group_views(v: Seq<(String, Vec<String>)>) -> Seq<(Seq<char>, Seq<Seq<char>>)> {
    v.map_values(|e: (String, Vec<String>)| (e.0@, texts(e.1@)))
}

fn messages_of_owner(items: &[(String, String)], owner: &[char]) -> (out: Vec<String>)
    ensures
        texts(out@) == messages_for(pair_views(items@), owner@),
{
    let mut out: Vec<String> = Vec::new();
    let mut i: usize = 0;
    assert(texts(out@) =~= Seq::<Seq<char>>::empty());
    while i < items.len()
        invariant
            i <= items@.len(),
            texts(out@) == messages_for(pair_views(items@).take(i as int), owner@),
        decreases items@.len() - i,
    {
        let ghost t = pair_views(items@).take(i + 1);
        assert(t.drop_last() == pair_views(items@).take(i as int));
        if same(chars_of(items[i].0.as_str()).as_slice(), owner) {
            let ghost before = texts(out@);
            let m = items[i].1.clone();
            out.push(m);
            assert(texts(out@) == before.push(m@));
        }
        i = i + 1;
    }
    assert(pair_views(items@).take(items@.len() as int) == pair_views(items@));
    out
}

/// The messages grouped by mod, the mods in code-point order.
pub fn group_problems(items: &[(String, String)]) -> (out: Vec<(String, Vec<String>)>)
    ensures
        grouped(pair_views(items@), group_views(out@)),
{
    let mut keys: Vec<Vec<char>> = Vec::new();
    let mut i: usize = 0;
    while i < items.len()
        invariant
            i <= items@.len(),
            crate::order::strictly_sorted(keys@),
            forall|y: Seq<char>| #[trigger] crate::order::has_entry(keys@, y)
                <==> (exists|j: int| 0 <= j < i && #[trigger] pair_views(items@)[j].0 == y),
        decreases items@.len() - i,
    {
        let ghost before = keys@;
        crate::order::insert_sorted(&mut keys, chars_of(items[i].0.as_str()));
        assert forall|y: Seq<char>| #[trigger] crate::order::has_entry(keys@, y)
            <==> (exists|j: int| 0 <= j < i + 1 && #[trigger] pair_views(items@)[j].0 == y) by {
            if exists|j: int| 0 <= j < i + 1 && #[trigger] pair_views(items@)[j].0 == y {
                let j = choose|j: int| 0 <= j < i + 1 && #[trigger] pair_views(items@)[j].0 == y;
                if j < i {
                    assert(crate::order::has_entry(before, y));
                }
            }
            if crate::order::has_entry(keys@, y) && y != items@[i as int].0@ {
                assert(crate::order::has_entry(before, y));
            }
            if y == items@[i as int].0@ {
                assert(pair_views(items@)[i as int].0 == y);
            }
        }
        i = i + 1;
    }
    let mut out: Vec<(String, Vec<String>)> = Vec::new();
    let mut k: usize = 0;
    while k < keys.len()
        invariant
            k <= keys@.len(),
            out@.len() == k,
            forall|q: int| 0 <= q < k ==> (#[trigger] group_views(out@)[q]).0 == keys@[q]@
                && group_views(out@)[q].1 == messages_for(pair_views(items@), keys@[q]@),
        decreases keys@.len() - k,
    {
        let msgs = messages_of_owner(items, keys[k].as_slice());
        let name = string_of(keys[k].as_slice());
        let ghost before = group_views(out@);
        let ghost entry = (name@, texts(msgs@));
        out.push((name, msgs));
        assert(group_views(out@) == before.push(entry));
        k = k + 1;
    }
    let ghost g = group_views(out@);
    assert(g.map_values(|e: (Seq<char>, Seq<Seq<char>>)| e.0) =~= keys@.map_values(|v: Vec<char>| v@));
    assert forall|o: Seq<char>| owned_in(pair_views(items@), o) <==> keyed_in(g, o) by {
        if owned_in(pair_views(items@), o) {
            assert(crate::order::has_entry(keys@, o));
            let q = choose|q: int| 0 <= q < keys@.len() && #[trigger] keys@[q]@ == o;
            assert(g[q].0 == o);
        }
        if keyed_in(g, o) {
            let q = choose|q: int| 0 <= q < g.len() && #[trigger] g[q].0 == o;
            assert(keys@[q]@ == o);
            assert(crate::order::has_entry(keys@, o));
        }
    }
    out
}

/// The report as JSON: each mod's sentences, under its name.
pub open spec fn report_text(g: Seq<(Seq<char>, Seq<Seq<char>>)>) -> Seq<char> {
    seq!['{'] + crate::text::joined_with(
        g.map_values(|e: (Seq<char>, Seq<Seq<char>>)| crate::json::quoted(e.0) + seq![':', '['] + crate::text::joined_with(
            e.1.map_values(|t: Seq<char>| crate::json::quoted(t)),
            seq![','],
        ) + seq![']']),
        seq![','],
    ) + seq!['}']
}

fn quoted_list(v: &Vec<String>) -> (out: Vec<char>)
    ensures
        out@ == crate::text::joined_with(texts(v@).map_values(|t: Seq<char>| crate::json::quoted(t)), seq![',']),
{
    let mut parts: Vec<Vec<char>> = Vec::new();
    let mut i: usize = 0;
    while i < v.len()
        invariant
            i <= v@.len(),
            crate::text::char_texts(parts@) == texts(v@).take(i as int).map_values(|t: Seq<char>| crate::json::quoted(t)),
        decreases v@.len() - i,
    {
        let mut q: Vec<char> = Vec::new();
        crate::json::push_quoted(&mut q, chars_of(v[i].as_str()).as_slice());
        let ghost before = crate::text::char_texts(parts@);
        parts.push(q);
        assert(crate::text::char_texts(parts@) == before.push(q@));
        i = i + 1;
        assert(texts(v@).take(i as int).map_values(|t: Seq<char>| crate::json::quoted(t))
            == texts(v@).take(i - 1).map_values(|t: Seq<char>| crate::json::quoted(t)).push(crate::json::quoted(texts(v@)[i - 1])));
    }
    assert(texts(v@).take(v@.len() as int) == texts(v@));
    let comma: Vec<char> = vec![','];
    assert(comma@ == seq![',']);
    crate::text::join_chars(&parts, comma.as_slice())
}

/// The report as JSON.
pub fn report_json(g: &Vec<(String, Vec<String>)>) -> (out: String)
    ensures
        out@ == report_text(group_views(g@)),
{
    let mut parts: Vec<Vec<char>> = Vec::new();
    let mut i: usize = 0;
    while i < g.len()
        invariant
            i <= g@.len(),
            crate::text::char_texts(parts@) == group_views(g@).take(i as int).map_values(
                |e: (Seq<char>, Seq<Seq<char>>)| crate::json::quoted(e.0) + seq![':', '['] + crate::text::joined_with(
                    e.1.map_values(|t: Seq<char>| crate::json::quoted(t)),
                    seq![','],
                ) + seq![']'],
            ),
        decreases g@.len() - i,
    {
        let mut part: Vec<char> = Vec::new();
        crate::json::push_quoted(&mut part, chars_of(g[i].0.as_str()).as_slice());
        part.push(':');
        part.push('[');
        crate::text::push_all(&mut part, quoted_list(&g[i].1).as_slice());
        part.push(']');
        assert(part@ =~= crate::json::quoted(group_views(g@)[i as int].0) + seq![':', '['] + crate::text::joined_with(
            group_views(g@)[i as int].1.map_values(|t: Seq<char>| crate::json::quoted(t)),
            seq![','],
        ) + seq![']']);
        let ghost before = crate::text::char_texts(parts@);
        parts.push(part);
        assert(crate::text::char_texts(parts@) == before.push(part@));
        i = i + 1;
        assert(group_views(g@).take(i as int).drop_last() == group_views(g@).take(i - 1));
        assert(group_views(g@).take(i as int).map_values(
                |e: (Seq<char>, Seq<Seq<char>>)| crate::json::quoted(e.0) + seq![':', '['] + crate::text::joined_with(
                    e.1.map_values(|t: Seq<char>| crate::json::quoted(t)),
                    seq![','],
                ) + seq![']'],
            ) == group_views(g@).take(i - 1).map_values(
                |e: (Seq<char>, Seq<Seq<char>>)| crate::json::quoted(e.0) + seq![':', '['] + crate::text::joined_with(
                    e.1.map_values(|t: Seq<char>| crate::json::quoted(t)),
                    seq![','],
                ) + seq![']'],
            ).push(part@));
    }
    assert(group_views(g@).take(g@.len() as int) == group_views(g@));
    let comma: Vec<char> = vec![','];
    assert(comma@ == seq![',']);
    let mut out: Vec<char> = vec!['{'];
    crate::text::push_all(&mut out, crate::text::join_chars(&parts, comma.as_slice()).as_slice());
    out.push('}');
    string_of(out.as_slice())
}

/// What the last start said about the mods' tables, for Settings: the
/// collisions the merge could not resolve, then the tables the server had
/// trouble with, grouped by mod as JSON; `None` when no mod supplied a table
/// and nothing collided, so there is nothing to keep.
pub fn load_report(owners: &[(String, String)], clashes: &[(String, String)], results: &[TableResult]) -> (r: Option<String>)
    ensures
        (owners@.len() == 0 && clashes@.len() == 0) <==> r is None,
        r matches Some(body) ==> exists|g: Seq<(Seq<char>, Seq<Seq<char>>)>| #![trigger report_text(g)]
            grouped(pair_views(clashes@) + table_problems(pair_views(owners@), rows(results@)), g)
                && body@ == report_text(g),
{
    if owners.len() == 0 && clashes.len() == 0 {
        return None;
    }
    let mut items: Vec<(String, String)> = Vec::new();
    let mut i: usize = 0;
    while i < clashes.len()
        invariant
            i <= clashes@.len(),
            pair_views(items@) == pair_views(clashes@).take(i as int),
        decreases clashes@.len() - i,
    {
        let ghost before = pair_views(items@);
        items.push((clashes[i].0.clone(), clashes[i].1.clone()));
        assert(pair_views(items@) == before.push(pair_views(clashes@)[i as int]));
        i = i + 1;
        assert(pair_views(clashes@).take(i as int) == pair_views(clashes@).take(i - 1).push(pair_views(clashes@)[i - 1]));
    }
    assert(pair_views(clashes@).take(clashes@.len() as int) == pair_views(clashes@));
    let problems = result_problems(owners, results);
    let mut j: usize = 0;
    let ghost head = pair_views(items@);
    while j < problems.len()
        invariant
            j <= problems@.len(),
            pair_views(items@) == head + pair_views(problems@).take(j as int),
        decreases problems@.len() - j,
    {
        let ghost before = pair_views(items@);
        items.push((problems[j].0.clone(), problems[j].1.clone()));
        assert(pair_views(items@) == before.push(pair_views(problems@)[j as int]));
        j = j + 1;
        assert(pair_views(problems@).take(j as int) == pair_views(problems@).take(j - 1).push(pair_views(problems@)[j - 1]));
    }
    assert(pair_views(problems@).take(problems@.len() as int) == pair_views(problems@));
    let g = group_problems(items.as_slice());
    let body = report_json(&g);
    assert(grouped(pair_views(clashes@) + table_problems(pair_views(owners@), rows(results@)), group_views(g@))
        && body@ == report_text(group_views(g@)));
    Some(body)
}

} // verus!

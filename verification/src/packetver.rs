//! Which packet version the server and the client speak.
//!
//! The server image carries one build per listed packet version: the first
//! under the plain binary names (`map-server`), the rest with a
//! `-<packetver>` suffix. Choosing one picks which binaries start and which
//! number the client is given; a client a packet version away from its
//! server is disconnected at login, so they are one setting.

use vstd::prelude::*;
use crate::json::{member, Json};
use crate::report::texts;
use crate::tables::line_at;
use crate::text::{
    chars_of, ends_with, is_suffix, is_ws, is_whitespace, lemma_line_end, lemma_trim_start_suffix,
    line_end, line_end_of, push_all, same, slice_of, string_of, trim_start, trim_start_of,
    all_digits, digits_value, joined_with,
};

verus! {

/// The packet versions this build's server image was built for, one per
/// line, the default first; `#` starts a comment.
pub open spec fn packet_list_text() -> Seq<char> {
    "20221005\n20250402\n"@
}

fn packet_list() -> (s: &'static str)
    ensures
        s@ == packet_list_text(),
{
    "20221005\n20250402\n"
}

/// The version a fresh install plays when the list names none.
pub open spec fn fallback_version() -> Seq<char> {
    "20221005"@
}

/// Where a line's comment starts: its first `#`, or its end.
pub open spec fn comment_start(s: Seq<char>, k: int) -> int
    decreases s.len() - k,
{
    if k < 0 || k >= s.len() || s[k] == '#' {
        k
    } else {
        comment_start(s, k + 1)
    }
}

/// How many characters at the start of `s` are not white space.
pub open spec fn word_length(s: Seq<char>, k: int) -> int
    decreases s.len() - k,
{
    if k < 0 || k >= s.len() || is_ws(s[k]) {
        k
    } else {
        word_length(s, k + 1)
    }
}

/// The first white-space-separated word of `s`, if it has one.
pub open spec fn first_word(s: Seq<char>) -> Option<Seq<char>> {
    if trim_start(s).len() == 0 {
        None
    } else {
        Some(trim_start(s).take(word_length(trim_start(s), 0)))
    }
}

/// The version a line of the list names: the first word before any `#`.
pub open spec fn line_version(line: Seq<char>) -> Option<Seq<char>> {
    first_word(line.take(comment_start(line, 0)))
}

/// A version, if there is one, as a list of at most one.
pub open spec fn version_list(v: Option<Seq<char>>) -> Seq<Seq<char>> {
    match v {
        Some(x) => seq![x],
        None => seq![],
    }
}

/// The versions named by the lines of `text` from `at` on.
pub open spec fn listed_from(text: Seq<char>, at: int) -> Seq<Seq<char>>
    decreases text.len() - at,
{
    if at < 0 || at >= text.len() {
        seq![]
    } else {
        proof {
            lemma_line_end(text, at);
        }
        version_list(line_version(line_at(text, at))) + listed_from(text, line_end(text, at))
    }
}

/// Every packet version in the image, the default first.
pub open spec fn packet_versions() -> Seq<Seq<char>> {
    listed_from(packet_list_text(), 0)
}

/// The version a fresh install plays: the first listed.
pub open spec fn default_version() -> Seq<char> {
    if packet_versions().len() > 0 {
        packet_versions()[0]
    } else {
        fallback_version()
    }
}

proof fn lemma_comment_start(s: Seq<char>, k: int)
    requires
        0 <= k <= s.len(),
    ensures
        k <= comment_start(s, k) <= s.len(),
    decreases s.len() - k,
{
    if k < s.len() && s[k] != '#' {
        lemma_comment_start(s, k + 1);
    }
}

proof fn lemma_word_length(s: Seq<char>, k: int)
    requires
        0 <= k <= s.len(),
    ensures
        k <= word_length(s, k) <= s.len(),
    decreases s.len() - k,
{
    if k < s.len() && !is_ws(s[k]) {
        lemma_word_length(s, k + 1);
    }
}

fn line_version_of(line: &[char]) -> (r: Option<Vec<char>>)
    ensures
        match r {
            Some(v) => line_version(line@) == Some(v@),
            None => line_version(line@) is None,
        },
{
    let mut c: usize = 0;
    while c < line.len() && line[c] != '#'
        invariant
            c <= line@.len(),
            comment_start(line@, 0) == comment_start(line@, c as int),
        decreases line@.len() - c,
    {
        c = c + 1;
    }
    let head = slice_of(line, 0, c);
    let t = trim_start_of(head.as_slice());
    if t.len() == 0 {
        return None;
    }
    let mut w: usize = 0;
    while w < t.len() && !is_whitespace(t[w])
        invariant
            w <= t@.len(),
            word_length(t@, 0) == word_length(t@, w as int),
        decreases t@.len() - w,
    {
        w = w + 1;
    }
    Some(slice_of(t.as_slice(), 0, w))
}

fn listed_of(text: &[char]) -> (out: Vec<String>)
    ensures
        texts(out@) == listed_from(text@, 0),
{
    let mut out: Vec<String> = Vec::new();
    let mut at: usize = 0;
    assert(texts(out@) =~= Seq::<Seq<char>>::empty());
    while at < text.len()
        invariant
            at <= text@.len(),
            listed_from(text@, 0) == texts(out@) + listed_from(text@, at as int),
        decreases text@.len() - at,
    {
        proof {
            lemma_line_end(text@, at as int);
        }
        let e = line_end_of(text, at);
        let line = slice_of(text, at, e);
        let ghost before = texts(out@);
        match line_version_of(line.as_slice()) {
            Some(v) => {
                out.push(string_of(v.as_slice()));
                assert(texts(out@) == before.push(v@));
            },
            None => {},
        }
        at = e;
    }
    out
}

/// Every packet version in the image, the default first.
pub fn all() -> (out: Vec<String>)
    ensures
        texts(out@) == packet_versions(),
{
    let text = chars_of(packet_list());
    listed_of(text.as_slice())
}

/// The one a fresh install plays, and the one the image is tagged with.
pub fn default() -> (out: String)
    ensures
        out@ == default_version(),
{
    let list = all();
    if list.len() > 0 {
        list[0].clone()
    } else {
        string_of(chars_of("20221005").as_slice())
    }
}

/// What goes after a binary's name (and after its era's `-prere`): nothing
/// for the default, `-<packetver>` for any other.
pub open spec fn suffix_of(packetver: Seq<char>) -> Seq<char> {
    if packetver == default_version() {
        seq![]
    } else {
        seq!['-'] + packetver
    }
}

/// What goes after a binary's name (and after its era's `-prere`).
pub fn suffix(packetver: &str) -> (out: String)
    ensures
        out@ == suffix_of(packetver@),
{
    let d = default();
    let p = chars_of(packetver);
    if same(p.as_slice(), chars_of(d.as_str()).as_slice()) {
        string_of(Vec::<char>::new().as_slice())
    } else {
        let mut out: Vec<char> = vec!['-'];
        push_all(&mut out, p.as_slice());
        string_of(out.as_slice())
    }
}

/// The first listed version after the default, from index `k`, that `path`
/// ends with as `-<version>`.
pub open spec fn binary_version_from(path: Seq<char>, list: Seq<Seq<char>>, k: int) -> Option<Seq<char>>
    decreases list.len() - k,
{
    if k < 1 || k >= list.len() {
        None
    } else if is_suffix(seq!['-'] + list[k], path) {
        Some(list[k])
    } else {
        binary_version_from(path, list, k + 1)
    }
}

/// Which packet version a server binary was built for, from its name: the
/// default unless the name ends in another listed version's suffix.
pub open spec fn version_of_binary(path: Seq<char>) -> Seq<char> {
    match binary_version_from(path, packet_versions(), 1) {
        Some(v) => v,
        None => default_version(),
    }
}

/// Which packet version a server binary was built for, from its name.
pub fn of_binary(path: &str) -> (out: String)
    ensures
        out@ == version_of_binary(path@),
{
    let list = all();
    let p = chars_of(path);
    let mut k: usize = 1;
    while k < list.len()
        invariant
            1 <= k,
            texts(list@) == packet_versions(),
            binary_version_from(path@, packet_versions(), 1) == binary_version_from(path@, packet_versions(), k as int),
            p@ == path@,
        decreases list@.len() - k,
    {
        let mut tail: Vec<char> = vec!['-'];
        push_all(&mut tail, chars_of(list[k].as_str()).as_slice());
        assert(tail@ == seq!['-'] + texts(list@)[k as int]);
        if ends_with(p.as_slice(), tail.as_slice()) {
            return list[k].clone();
        }
        k = k + 1;
    }
    default()
}

pub open spec fn unreadable_setting() -> Seq<char> {
    "Cannot read the client version setting. Repair settings.json before starting the server."@
}

/// Where the run of ASCII digits that starts at `k` ends.
pub open spec fn digits_end(s: Seq<char>, k: int) -> int
    decreases s.len() - k,
{
    if k < 0 || k >= s.len() || !('0' <= s[k] && s[k] <= '9') {
        k
    } else {
        digits_end(s, k + 1)
    }
}

/// Where the run of `0`s that starts at `k` ends.
pub open spec fn zeros_end(s: Seq<char>, k: int) -> int
    decreases s.len() - k,
{
    if k < 0 || k >= s.len() || s[k] != '0' {
        k
    } else {
        zeros_end(s, k + 1)
    }
}

pub open spec fn all_zero(s: Seq<char>) -> bool {
    forall|k: int| 0 <= k < s.len() ==> #[trigger] s[k] == '0'
}

/// A JSON number taken apart: whether it is negative, its digits with the
/// decimal point taken out, and the power of ten they are multiplied by.
/// `None` when `n` is not spelled as a JSON number: an optional `-`, digits,
/// optionally `.` and digits, optionally `e` or `E`, a sign and digits.
pub open spec fn number_parts(n: Seq<char>) -> Option<(bool, Seq<char>, int)> {
    let neg = n.len() > 0 && n[0] == '-';
    let a: int = if neg { 1 } else { 0 };
    let ie = digits_end(n, a);
    let has_frac = ie < n.len() && n[ie] == '.';
    let fe = if has_frac { digits_end(n, ie + 1) } else { ie };
    let frac = if has_frac { n.subrange(ie + 1, fe) } else { seq![] };
    let has_exp = fe < n.len() && (n[fe] == 'e' || n[fe] == 'E');
    let signed = has_exp && fe + 1 < n.len() && (n[fe + 1] == '+' || n[fe + 1] == '-');
    let es = if signed { fe + 2 } else { fe + 1 };
    let xe = if has_exp { digits_end(n, es) } else { fe };
    let exp_digits = if has_exp { n.subrange(es, xe) } else { seq![] };
    let ev = if signed && n[fe + 1] == '-' { -digits_value(exp_digits) } else { digits_value(exp_digits) };
    if ie == a || (has_frac && frac.len() == 0) || (has_exp && exp_digits.len() == 0) || xe != n.len() {
        None
    } else {
        Some((neg, n.subrange(a, ie) + frac, ev - frac.len()))
    }
}

/// The most digits a whole number read from settings.json may have: a
/// larger one is past what the setting's number reading can hold.
pub open spec fn max_whole_digits() -> int {
    309
}

/// The version a number in settings.json spells: its value's digits, when
/// the value is whole and positive, however the number is written (`2`,
/// `2.0`, `2.0e0`, `20e-1`).
pub open spec fn whole_number(n: Seq<char>) -> Option<Seq<char>> {
    match number_parts(n) {
        None => None,
        Some((neg, d, e)) => whole_of(neg, d.skip(zeros_end(d, 0)), e),
    }
}

/// The digits of the whole positive value `m` times ten to the `e`, with
/// `m`'s leading zeros already taken off.
pub open spec fn whole_of(neg: bool, m: Seq<char>, e: int) -> Option<Seq<char>> {
            if neg || m.len() == 0 {
                None
            } else if e >= 0 {
                if m.len() + e > max_whole_digits() {
                    None
                } else {
                    Some(m + Seq::new(e as nat, |i: int| '0'))
                }
            } else if -e < m.len() && all_zero(m.skip(m.len() + e)) && m.len() + e <= max_whole_digits() {
                Some(m.take(m.len() + e))
            } else {
                None
            }
}

proof fn lemma_digits_end(s: Seq<char>, k: int)
    requires
        0 <= k <= s.len(),
    ensures
        k <= digits_end(s, k) <= s.len(),
        all_digits(s.subrange(k, digits_end(s, k))),
        digits_end(s, k) < s.len() ==> !('0' <= s[digits_end(s, k)] && s[digits_end(s, k)] <= '9'),
    decreases s.len() - k,
{
    if k < s.len() && '0' <= s[k] && s[k] <= '9' {
        lemma_digits_end(s, k + 1);
        let t = s.subrange(k, digits_end(s, k));
        assert forall|j: int| 0 <= j < t.len() implies '0' <= #[trigger] t[j] && t[j] <= '9' by {
            if j > 0 {
                assert(t[j] == s.subrange(k + 1, digits_end(s, k + 1))[j - 1]);
            }
        }
    }
}

proof fn lemma_zeros_end(s: Seq<char>, k: int)
    requires
        0 <= k <= s.len(),
    ensures
        k <= zeros_end(s, k) <= s.len(),
    decreases s.len() - k,
{
    if k < s.len() && s[k] == '0' {
        lemma_zeros_end(s, k + 1);
    }
}

fn digits_end_of(s: &[char], k: usize) -> (r: usize)
    requires
        k <= s@.len(),
    ensures
        r == digits_end(s@, k as int),
        k <= r <= s@.len(),
{
    proof {
        lemma_digits_end(s@, k as int);
    }
    let mut i = k;
    while i < s.len() && '0' <= s[i] && s[i] <= '9'
        invariant
            k <= i <= s@.len(),
            digits_end(s@, k as int) == digits_end(s@, i as int),
        decreases s@.len() - i,
    {
        i = i + 1;
    }
    i
}

fn zeros_end_of(s: &[char]) -> (r: usize)
    ensures
        r == zeros_end(s@, 0),
        r <= s@.len(),
{
    proof {
        lemma_zeros_end(s@, 0);
    }
    let mut i: usize = 0;
    while i < s.len() && s[i] == '0'
        invariant
            i <= s@.len(),
            zeros_end(s@, 0) == zeros_end(s@, i as int),
        decreases s@.len() - i,
    {
        i = i + 1;
    }
    i
}

/// A bound past every length a text can have.
pub open spec fn exponent_cap() -> int {
    1_000_000_000_000_000_000_000_000
}

/// The value of an exponent's digits, or `exponent_cap()` when it is at least that.
fn capped_value(s: &[char], from: usize, to: usize) -> (r: u128)
    requires
        from <= to <= s@.len(),
        all_digits(s@.subrange(from as int, to as int)),
    ensures
        r as int == if digits_value(s@.subrange(from as int, to as int)) >= exponent_cap() {
            exponent_cap()
        } else {
            digits_value(s@.subrange(from as int, to as int))
        },
{
    let cap: u128 = 1_000_000_000_000_000_000_000_000;
    let ghost d = s@.subrange(from as int, to as int);
    let mut acc: u128 = 0;
    let mut i: usize = from;
    assert(d.take(0) =~= Seq::<char>::empty());
    while i < to
        invariant
            from <= i <= to <= s@.len(),
            d == s@.subrange(from as int, to as int),
            all_digits(d),
            cap == exponent_cap(),
            acc as int == if digits_value(d.take(i - from)) >= exponent_cap() {
                exponent_cap()
            } else {
                digits_value(d.take(i - from))
            },
        decreases to - i,
    {
        let ghost before = d.take(i - from);
        let ghost after = d.take(i + 1 - from);
        assert(after.drop_last() =~= before);
        assert(after.last() == s@[i as int]);
        assert(d[i - from] == s@[i as int]);
        let c = s[i];
        let digit: u128 = (c as u32 - '0' as u32) as u128;
        assert(digit as int == after.last() as int - '0' as int);
        if acc < cap {
            let v = acc * 10 + digit;
            acc = if v >= cap { cap } else { v };
        }
        i = i + 1;
    }
    assert(d.take(to - from) =~= d);
    acc
}

/// `whole_of` for a value whose exponent's digits spell `x`, read capped
/// as `ev`.
fn whole_of_parts(m: Vec<char>, eneg: bool, ev: u128, f: usize, Ghost(x): Ghost<int>) -> (r: Option<Vec<char>>)
    requires
        m@.len() > 0,
        x >= 0,
        ev as int == if x >= exponent_cap() { exponent_cap() } else { x },
    ensures
        match r {
            Some(v) => whole_of(false, m@, (if eneg { -x } else { x }) - f) == Some(v@),
            None => whole_of(false, m@, (if eneg { -x } else { x }) - f) is None,
        },
{
    let ghost e = (if eneg { -x } else { x }) - f;
    let cap: u128 = 1_000_000_000_000_000_000_000_000;
    assert(cap == exponent_cap());
    let l: u128 = m.len() as u128;
    let fv: u128 = f as u128;
    if !eneg && ev >= fv {
        let t = ev - fv;
        if l + t > 309 {
            return None;
        }
        assert(ev < cap);
        assert(e == t);
        let mut out = m;
        let ghost base = out@;
        let mut k: u128 = 0;
        assert(base + Seq::new(0, |i: int| '0') =~= base);
        while k < t
            invariant
                k <= t <= 309,
                out@ == base + Seq::new(k as nat, |i: int| '0'),
            decreases t - k,
        {
            out.push('0');
            k = k + 1;
            assert(out@ =~= base + Seq::new(k as nat, |i: int| '0'));
        }
        assert(k == t);
        return Some(out);
    }
    let k: u128 = if eneg { ev + fv } else { fv - ev };
    if k >= l {
        return None;
    }
    assert(ev < cap);
    assert(e == -(k as int));
    let keep: usize = (l - k) as usize;
    let mut j: usize = keep;
    while j < m.len()
        invariant
            keep <= j <= m@.len(),
            keep as int == m@.len() + e,
            e <= 0,
            e == (if eneg { -x } else { x }) - f,
            forall|t: int| keep <= t < j ==> #[trigger] m@[t] == '0',
        decreases m@.len() - j,
    {
        if m[j] != '0' {
            assert(m@.skip(keep as int)[j - keep] != '0');
            return None;
        }
        j = j + 1;
    }
    assert(all_zero(m@.skip(keep as int))) by {
        assert forall|t: int| 0 <= t < m@.skip(keep as int).len() implies #[trigger] m@.skip(keep as int)[t] == '0' by {
            assert(m@.skip(keep as int)[t] == m@[keep + t]);
        }
    }
    if keep > 309 {
        return None;
    }
    let out = slice_of(m.as_slice(), 0, keep);
    proof {
        assert(out@ == m@.take(m@.len() + e));
        if e == 0 {
            assert(m@ + Seq::new(0, |i: int| '0') =~= out@);
        }
    }
    Some(out)
}

fn whole_number_of(n: &[char]) -> (r: Option<Vec<char>>)
    ensures
        match r {
            Some(v) => whole_number(n@) == Some(v@),
            None => whole_number(n@) is None,
        },
{
    let len = n.len();
    let neg = len > 0 && n[0] == '-';
    let a: usize = if neg { 1 } else { 0 };
    let ie = digits_end_of(n, a);
    let has_frac = ie < len && n[ie] == '.';
    let fe = if has_frac { digits_end_of(n, ie + 1) } else { ie };
    let has_exp = fe < len && (n[fe] == 'e' || n[fe] == 'E');
    let signed = has_exp && fe + 1 < len && (n[fe + 1] == '+' || n[fe + 1] == '-');
    let es: usize = if !has_exp { fe } else if signed { fe + 2 } else { fe + 1 };
    let xe = if has_exp { digits_end_of(n, es) } else { fe };
    proof {
        lemma_digits_end(n@, a as int);
        if has_frac {
            lemma_digits_end(n@, ie + 1);
        }
        if has_exp {
            lemma_digits_end(n@, es as int);
        }
    }
    if ie == a || (has_frac && fe == ie + 1) || (has_exp && xe == es) || xe != len {
        return None;
    }
    if neg {
        return None;
    }
    let mut d = slice_of(n, a, ie);
    let flen: usize = if has_frac { fe - ie - 1 } else { 0 };
    if has_frac {
        push_all(&mut d, slice_of(n, ie + 1, fe).as_slice());
    }
    let ghost frac = if has_frac { n@.subrange(ie + 1, fe as int) } else { Seq::<char>::empty() };
    assert(d@ == n@.subrange(a as int, ie as int) + frac);
    let z = zeros_end_of(d.as_slice());
    let m = slice_of(d.as_slice(), z, d.len());
    assert(m@ == d@.skip(zeros_end(d@, 0)));
    if m.len() == 0 {
        return None;
    }
    let ev: u128 = if has_exp { capped_value(n, es, xe) } else { 0 };
    let ghost exp_digits = if has_exp { n@.subrange(es as int, xe as int) } else { Seq::<char>::empty() };
    let eneg = signed && n[fe + 1] == '-';
    proof {
        if has_exp {
            crate::text::lemma_digits_value_nonneg(exp_digits);
        }
        assert(frac.len() == flen);
        assert(number_parts(n@) == Some((false, d@, (if eneg { -digits_value(exp_digits) } else { digits_value(exp_digits) }) - flen)));
    }
    whole_of_parts(m, eneg, ev, flen, Ghost(digits_value(exp_digits)))
}

/// What the setting chooses, from the version it names: a listed version,
/// or a refusal that names it and what could be chosen instead.
pub open spec fn pick(wanted: Seq<char>) -> Result<Seq<char>, Seq<char>> {
    if packet_versions().contains(wanted) {
        Ok(wanted)
    } else {
        Err("This version of the app has no server build for client version "@ + wanted
            + ". Choose one of "@ + joined_with(packet_versions(), ", "@) + " in Settings."@)
    }
}

/// The chosen packet version, from settings.json (`None` when it could not be
/// read): unset or `null` is the default; a string or a whole number names a
/// version, which must be listed; anything else is unreadable.
pub open spec fn chosen_version(settings: Option<Json>) -> Result<Seq<char>, Seq<char>> {
    match settings {
        None => Err(unreadable_setting()),
        Some(s) => match member(s, "packetver"@) {
            None => Ok(default_version()),
            Some(Json::Null) => Ok(default_version()),
            Some(Json::Str(v)) => pick(v@),
            Some(Json::Number(n)) => match whole_number(n@) {
                Some(w) => pick(w),
                None => Err(unreadable_setting()),
            },
            Some(_) => Err(unreadable_setting()),
        },
    }
}

/// A choice as plain values.
pub open spec fn choice_of(r: Result<String, String>) -> Result<Seq<char>, Seq<char>> {
    match r {
        Ok(v) => Ok(v@),
        Err(e) => Err(e@),
    }
}

pub open spec fn settings_of(settings: Option<&Json>) -> Option<Json> {
    match settings {
        Some(s) => Some(*s),
        None => None,
    }
}

fn join_versions(list: &Vec<String>) -> (out: Vec<char>)
    ensures
        out@ == joined_with(texts(list@), ", "@),
{
    let mut out: Vec<char> = Vec::new();
    let sep = chars_of(", ");
    let mut i: usize = 0;
    while i < list.len()
        invariant
            i <= list@.len(),
            sep@ == ", "@,
            out@ == joined_with(texts(list@).take(i as int), ", "@),
        decreases list@.len() - i,
    {
        if i > 0 {
            push_all(&mut out, sep.as_slice());
        }
        push_all(&mut out, chars_of(list[i].as_str()).as_slice());
        i = i + 1;
        let ghost t = texts(list@).take(i as int);
        assert(t.drop_last() == texts(list@).take(i - 1));
        if i == 1 {
            assert(out@ == t[0]);
        }
    }
    assert(texts(list@).take(list@.len() as int) == texts(list@));
    out
}

fn pick_of(wanted: &[char]) -> (r: Result<String, String>)
    ensures
        choice_of(r) == pick(wanted@),
{
    let list = all();
    let mut i: usize = 0;
    while i < list.len()
        invariant
            i <= list@.len(),
            texts(list@) == packet_versions(),
            forall|k: int| 0 <= k < i ==> #[trigger] texts(list@)[k] != wanted@,
        decreases list@.len() - i,
    {
        if same(chars_of(list[i].as_str()).as_slice(), wanted) {
            assert(texts(list@)[i as int] == wanted@);
            return Ok(string_of(wanted));
        }
        i = i + 1;
    }
    let mut m = chars_of("This version of the app has no server build for client version ");
    push_all(&mut m, wanted);
    push_all(&mut m, chars_of(". Choose one of ").as_slice());
    push_all(&mut m, join_versions(&list).as_slice());
    push_all(&mut m, chars_of(" in Settings.").as_slice());
    Err(string_of(m.as_slice()))
}

/// The chosen packet version, from settings.json (`None` when the file could
/// not be read).
///
/// A value that is not in the list is refused rather than read as the
/// default: the only way to get one is a hand edit, and quietly starting the
/// default would look exactly like the setting being ignored.
pub fn chosen(settings: Option<&Json>) -> (r: Result<String, String>)
    ensures
        choice_of(r) == chosen_version(settings_of(settings)),
{
    let unreadable = "Cannot read the client version setting. Repair settings.json before starting the server.";
    let s = match settings {
        None => return Err(string_of(chars_of(unreadable).as_slice())),
        Some(s) => s,
    };
    match s.get("packetver") {
        None => Ok(default()),
        Some(Json::Null) => Ok(default()),
        Some(Json::Str(v)) => pick_of(chars_of(v.as_str()).as_slice()),
        Some(Json::Number(n)) => match whole_number_of(chars_of(n.as_str()).as_slice()) {
            Some(w) => pick_of(w.as_slice()),
            None => Err(string_of(chars_of(unreadable).as_slice())),
        },
        Some(_) => Err(string_of(chars_of(unreadable).as_slice())),
    }
}


/// A binary's name says which build it is: a server binary's name that ends
/// in no listed version's suffix, with the suffix of a listed version put
/// after it, reads back as that version; and on its own it reads as the
/// default.
pub proof fn lemma_binary_name_reads_back(base: Seq<char>, v: Seq<char>)
    requires
        packet_versions().contains(v),
        forall|k: int| 1 <= k < packet_versions().len()
            ==> !is_suffix(seq!['-'] + #[trigger] packet_versions()[k], base),
    ensures
        version_of_binary(base + suffix_of(v)) == v,
        version_of_binary(base) == default_version(),
{
    lemma_packet_versions();
    let list = packet_versions();
    assert(!is_suffix(seq!['-'] + list[1], base));
    assert(binary_version_from(base, list, 2) is None);
    assert(version_of_binary(base) == default_version());
    if v == list[0] {
        assert(suffix_of(v) =~= Seq::<char>::empty());
        assert(base + suffix_of(v) =~= base);
    } else {
        assert(v == list[1]);
        let w = base + suffix_of(v);
        assert(suffix_of(v) == seq!['-'] + v);
        assert(w.subrange(w.len() - (seq!['-'] + v).len(), w.len() as int) =~= seq!['-'] + v);
        assert(is_suffix(seq!['-'] + list[1], w));
    }
}

/// The versions the list names: the two this image was built for.
proof fn lemma_packet_versions()
    ensures
        packet_versions() == seq!["20221005"@, "20250402"@],
{
    reveal_strlit("20221005\n20250402\n");
    reveal_strlit("20221005");
    reveal_strlit("20250402");
    let t = packet_list_text();
    assert(t.len() == 18);
    reveal_with_fuel(line_end, 10);
    reveal_with_fuel(comment_start, 10);
    reveal_with_fuel(word_length, 10);
    assert(line_end(t, 0) == 9);
    assert(line_end(t, 9) == 18);
    let l1 = line_at(t, 0);
    let l2 = line_at(t, 9);
    assert(comment_start(l1, 0) == 9);
    assert(comment_start(l2, 0) == 9);
    assert(l1.take(9) =~= l1);
    assert(l2.take(9) =~= l2);
    assert(trim_start(l1) == l1);
    assert(trim_start(l2) == l2);
    assert(word_length(l1, 0) == 8);
    assert(word_length(l2, 0) == 8);
    assert(l1.take(8) =~= "20221005"@);
    assert(l2.take(8) =~= "20250402"@);
    assert(listed_from(t, 18) == Seq::<Seq<char>>::empty());
    assert(listed_from(t, 9) =~= seq!["20250402"@]);
    assert(listed_from(t, 0) =~= seq!["20221005"@, "20250402"@]);
}

} // verus!

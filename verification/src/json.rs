//! JSON values as the mod system reads them: what a `mod.json` or
//! `settings.json` holds once parsed, with numbers kept as they were written.

use vstd::prelude::*;
use crate::text::{chars_of, push_all, same, string_of};

verus! {

/// A parsed JSON value. An object keeps its members in the order given.
#[derive(Debug)]
pub enum Json {
    Null,
    Bool(bool),
    /// A number, as written.
    Number(String),
    Str(String),
    Array(Vec<Json>),
    Object(Vec<(String, Json)>),
}

/// The value of the first member of `fields` at or after `k` named `key`.
pub open spec fn member_from(fields: Seq<(String, Json)>, key: Seq<char>, k: int) -> Option<Json>
    decreases fields.len() - k,
{
    if k < 0 || k >= fields.len() {
        None
    } else if fields[k].0@ == key {
        Some(fields[k].1)
    } else {
        member_from(fields, key, k + 1)
    }
}

/// `value[key]`, for an object that has that member.
pub open spec fn member(v: Json, key: Seq<char>) -> Option<Json> {
    match v {
        Json::Object(fields) => member_from(fields@, key, 0),
        _ => None,
    }
}

/// The text of `value[key]`, when that member is a string.
pub open spec fn member_text(v: Json, key: Seq<char>) -> Option<Seq<char>> {
    match member(v, key) {
        Some(Json::Str(s)) => Some(s@),
        _ => None,
    }
}

pub open spec fn is_object(v: Json) -> bool {
    v is Object
}

impl Json {
    /// `self[key]`, for an object that has that member.
    pub fn get(&self, key: &str) -> (r: Option<&Json>)
        ensures
            match r {
                Some(x) => member(*self, key@) == Some(*x),
                None => member(*self, key@) is None,
            },
    {
        match self {
            Json::Object(fields) => {
                let k = chars_of(key);
                let mut i: usize = 0;
                while i < fields.len()
                    invariant
                        i <= fields@.len(),
                        k@ == key@,
                        member(*self, key@) == member_from(fields@, key@, 0),
                        member_from(fields@, key@, 0) == member_from(fields@, key@, i as int),
                    decreases fields@.len() - i,
                {
                    let name = chars_of(fields[i].0.as_str());
                    if same(name.as_slice(), k.as_slice()) {
                        return Some(&fields[i].1);
                    }
                    i = i + 1;
                }
                None
            },
            _ => None,
        }
    }

    /// The text of `self[key]`, when that member is a string.
    pub fn str_of(&self, key: &str) -> (r: Option<&str>)
        ensures
            match r {
                Some(x) => member_text(*self, key@) == Some(x@),
                None => member_text(*self, key@) is None,
            },
    {
        match self.get(key) {
            Some(Json::Str(s)) => Some(s.as_str()),
            _ => None,
        }
    }

    pub fn is_object(&self) -> (r: bool)
        ensures
            r == is_object(*self),
    {
        match self {
            Json::Object(_) => true,
            _ => false,
        }
    }
}

/// Four lowercase hex digits for a control character.
pub open spec fn hex_digit(n: int) -> char {
    if n < 10 {
        (n + '0' as int) as char
    } else {
        (n - 10 + 'a' as int) as char
    }
}

/// How one character is written inside a JSON string.
pub open spec fn escaped(c: char) -> Seq<char> {
    if c == '"' {
        seq!['\\', '"']
    } else if c == '\\' {
        seq!['\\', '\\']
    } else if c == '\n' {
        seq!['\\', 'n']
    } else if c == '\r' {
        seq!['\\', 'r']
    } else if c == '\t' {
        seq!['\\', 't']
    } else if c == '\u{8}' {
        seq!['\\', 'b']
    } else if c == '\u{c}' {
        seq!['\\', 'f']
    } else if (c as int) < 0x20 {
        seq!['\\', 'u', '0', '0', hex_digit((c as int) / 16), hex_digit((c as int) % 16)]
    } else {
        seq![c]
    }
}

/// The characters of `s`, each written as it is inside a JSON string.
pub open spec fn escaped_all(s: Seq<char>) -> Seq<char>
    decreases s.len(),
{
    if s.len() == 0 {
        seq![]
    } else {
        escaped_all(s.drop_last()) + escaped(s.last())
    }
}

/// `s` as a JSON string: quoted, with every quote, backslash and control
/// character escaped.
pub open spec fn quoted(s: Seq<char>) -> Seq<char> {
    seq!['"'] + escaped_all(s) + seq!['"']
}

fn hex_char(n: u32) -> (c: char)
    requires
        n < 16,
    ensures
        c == hex_digit(n as int),
{
    if n == 0 { '0' } else if n == 1 { '1' } else if n == 2 { '2' } else if n == 3 { '3' }
    else if n == 4 { '4' } else if n == 5 { '5' } else if n == 6 { '6' } else if n == 7 { '7' }
    else if n == 8 { '8' } else if n == 9 { '9' } else if n == 10 { 'a' } else if n == 11 { 'b' }
    else if n == 12 { 'c' } else if n == 13 { 'd' } else if n == 14 { 'e' } else { 'f' }
}

fn push_escaped(out: &mut Vec<char>, c: char)
    ensures
        final(out)@ == old(out)@ + escaped(c),
{
    let code = c as u32;
    if c == '"' {
        out.push('\\');
        out.push('"');
    } else if c == '\\' {
        out.push('\\');
        out.push('\\');
    } else if c == '\n' {
        out.push('\\');
        out.push('n');
    } else if c == '\r' {
        out.push('\\');
        out.push('r');
    } else if c == '\t' {
        out.push('\\');
        out.push('t');
    } else if c == '\u{8}' {
        out.push('\\');
        out.push('b');
    } else if c == '\u{c}' {
        out.push('\\');
        out.push('f');
    } else if code < 0x20 {
        out.push('\\');
        out.push('u');
        out.push('0');
        out.push('0');
        out.push(hex_char(code / 16));
        out.push(hex_char(code % 16));
    } else {
        out.push(c);
    }
    assert(final(out)@ == old(out)@ + escaped(c));
}

/// Appends `s` as a JSON string.
pub fn push_quoted(out: &mut Vec<char>, s: &[char])
    ensures
        final(out)@ == old(out)@ + quoted(s@),
{
    out.push('"');
    let ghost start = out@;
    let mut i: usize = 0;
    while i < s.len()
        invariant
            i <= s@.len(),
            out@ == start + escaped_all(s@.take(i as int)),
        decreases s@.len() - i,
    {
        push_escaped(out, s[i]);
        i = i + 1;
        assert(s@.take(i as int).drop_last() == s@.take(i - 1));
    }
    out.push('"');
    assert(s@.take(s@.len() as int) == s@);
}

/// `s` as a JSON string.
pub fn quote(s: &str) -> (out: String)
    ensures
        out@ == quoted(s@),
{
    let mut out: Vec<char> = Vec::new();
    let v = chars_of(s);
    push_quoted(&mut out, v.as_slice());
    string_of(out.as_slice())
}

/// A value written out compactly: no white space between its parts.
pub open spec fn json_text(v: Json) -> Seq<char>
    decreases v, 0nat,
{
    match v {
        Json::Null => "null"@,
        Json::Bool(b) => if b { "true"@ } else { "false"@ },
        Json::Number(n) => n@,
        Json::Str(s) => quoted(s@),
        Json::Array(items) => seq!['['] + items_text(items@, items@.len() as int) + seq![']'],
        Json::Object(fields) => seq!['{'] + fields_text(fields@, fields@.len() as int) + seq!['}'],
    }
}

/// The first `n` items, separated by commas.
pub open spec fn items_text(items: Seq<Json>, n: int) -> Seq<char>
    decreases items, n,
{
    if n <= 0 || n > items.len() {
        seq![]
    } else if n == 1 {
        json_text(items[0])
    } else {
        items_text(items, n - 1) + seq![','] + json_text(items[n - 1])
    }
}

/// The first `n` members, as `"name":value`, separated by commas.
pub open spec fn fields_text(fields: Seq<(String, Json)>, n: int) -> Seq<char>
    decreases fields, n,
{
    if n <= 0 || n > fields.len() {
        seq![]
    } else if n == 1 {
        quoted(fields[0].0@) + seq![':'] + json_text(fields[0].1)
    } else {
        fields_text(fields, n - 1) + seq![','] + quoted(fields[n - 1].0@) + seq![':'] + json_text(fields[n - 1].1)
    }
}

/// Appends `v` written out compactly.
pub fn push_json(out: &mut Vec<char>, v: &Json)
    ensures
        final(out)@ == old(out)@ + json_text(*v),
    decreases v,
{
    match v {
        Json::Null => push_all(out, chars_of("null").as_slice()),
        Json::Bool(b) => if *b {
            push_all(out, chars_of("true").as_slice())
        } else {
            push_all(out, chars_of("false").as_slice())
        },
        Json::Number(n) => push_all(out, chars_of(n.as_str()).as_slice()),
        Json::Str(t) => push_quoted(out, chars_of(t.as_str()).as_slice()),
        Json::Array(items) => {
            out.push('[');
            let ghost start = out@;
            let mut i: usize = 0;
            while i < items.len()
                invariant
                    i <= items@.len(),
                    *v == Json::Array(*items),
                    out@ == start + items_text(items@, i as int),
                decreases items@.len() - i,
            {
                if i > 0 {
                    out.push(',');
                }
                assert(decreases_to!(*v => (*v)->Array_0));
                assert(decreases_to!(*items => items@));
                assert(decreases_to!(items@ => items@[i as int]));
                push_json(out, &items[i]);
                i = i + 1;
            }
            out.push(']');
        },
        Json::Object(fields) => {
            out.push('{');
            let ghost start = out@;
            let mut i: usize = 0;
            while i < fields.len()
                invariant
                    i <= fields@.len(),
                    *v == Json::Object(*fields),
                    out@ == start + fields_text(fields@, i as int),
                decreases fields@.len() - i,
            {
                if i > 0 {
                    out.push(',');
                }
                push_quoted(out, chars_of(fields[i].0.as_str()).as_slice());
                out.push(':');
                assert(decreases_to!(*v => (*v)->Object_0));
                assert(decreases_to!(*fields => fields@));
                assert(decreases_to!(fields@ => fields@[i as int]));
                assert(decreases_to!(fields@[i as int] => fields@[i as int].1));
                push_json(out, &fields[i].1);
                i = i + 1;
            }
            out.push('}');
        },
    }
}

/// `v` written out compactly, as its `Display` would.
pub fn json_string(v: &Json) -> (out: String)
    ensures
        out@ == json_text(*v),
{
    let mut out: Vec<char> = Vec::new();
    push_json(&mut out, v);
    string_of(out.as_slice())
}

} // verus!

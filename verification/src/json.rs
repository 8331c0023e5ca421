//! The JSON documents that flatted reads and writes, and their compact text.
use vstd::prelude::*;
use crate::text::{decimal, u64_decimal, push_char, append_str};
use serde_json::Error as JsonError;
use serde_json::Value as SerdeValue;

verus! {

/// A JSON number, held as the text that `serde_json` writes for it
/// (`12`, `-3`, `0.5`, `1e300`).
#[derive(Debug)]
pub struct Number {
    pub text: String,
}

impl View for Number {
    type V = Seq<char>;

    open spec fn view(&self) -> Seq<char> {
        self.text@
    }
}

/// The text of an integer, as `serde_json` writes it.
pub open spec fn int_text(n: int) -> Seq<char> {
    if n < 0 {
        seq!['-'] + decimal((-n) as nat)
    } else {
        decimal(n as nat)
    }
}

impl Number {
    /// A number from its JSON text.
    pub fn from_text(text: String) -> (n: Number)
        ensures
            n@ == text@,
    {
        Number { text }
    }

    /// The number `n`.
    pub fn from_u64(n: u64) -> (r: Number)
        ensures
            r@ == int_text(n as int),
    {
        Number { text: u64_decimal(n) }
    }

    /// The number `n`.
    pub fn from_i64(n: i64) -> (r: Number)
        ensures
            r@ == int_text(n as int),
    {
        if n >= 0 {
            Number { text: u64_decimal(n as u64) }
        } else {
            let m: u64 = (-(n as i128)) as u64;
            let digits = u64_decimal(m);
            let mut text = String::new();
            push_char(&mut text, '-');
            append_str(&mut text, digits.as_str());
            Number { text }
        }
    }

    /// A copy of this number.
    pub fn copy(&self) -> (r: Number)
        ensures
            r@ == self@,
    {
        Number { text: self.text.clone() }
    }
}

impl Clone for Number {
    fn clone(&self) -> (r: Number)
        ensures
            r@ == self@,
    {
        self.copy()
    }
}

/// A JSON value; objects keep their members in order.
#[derive(Debug)]
pub enum Json {
    Null,
    Bool(bool),
    Number(Number),
    String(String),
    Array(Vec<Json>),
    Object(Vec<(String, Json)>),
}

/// The mathematical form of a JSON value.
pub ghost enum JsonTree {
    Null,
    Bool(bool),
    Number(Seq<char>),
    String(Seq<char>),
    Array(Seq<JsonTree>),
    Object(Seq<(Seq<char>, JsonTree)>),
}

/// The mathematical form of `j`.
pub open spec fn json_view(j: Json) -> JsonTree
    decreases j,
{
    match j {
        Json::Null => JsonTree::Null,
        Json::Bool(b) => JsonTree::Bool(b),
        Json::Number(n) => JsonTree::Number(n@),
        Json::String(s) => JsonTree::String(s@),
        Json::Array(items) => JsonTree::Array(
            Seq::new(
                items.len() as nat,
                |i: int|
                    if 0 <= i < items.len() {
                        proof {
                            assert(decreases_to!(items@ => items@[i]));
                        }
                        json_view(items@[i])
                    } else {
                        JsonTree::Null
                    },
            ),
        ),
        Json::Object(entries) => JsonTree::Object(
            Seq::new(
                entries.len() as nat,
                |i: int|
                    if 0 <= i < entries.len() {
                        proof {
                            assert(decreases_to!(entries@ => entries@[i]));
                        }
                        (entries@[i].0@, json_view(entries@[i].1))
                    } else {
                        (Seq::empty(), JsonTree::Null)
                    },
            ),
        ),
    }
}

impl View for Json {
    type V = JsonTree;

    open spec fn view(&self) -> JsonTree {
        json_view(*self)
    }
}

/// The lower-case hexadecimal digit of `d < 16`.
pub open spec fn hex_char(d: nat) -> char {
    if d < 10 {
        crate::text::digit_char(d)
    } else if d == 10 {
        'a'
    } else if d == 11 {
        'b'
    } else if d == 12 {
        'c'
    } else if d == 13 {
        'd'
    } else if d == 14 {
        'e'
    } else {
        'f'
    }
}

/// How `serde_json` writes one character inside a string literal: quote and
/// backslash are escaped, control characters below U+0020 become `\b`, `\t`,
/// `\n`, `\f`, `\r` or `\u00XX`, every other character stands as it is.
pub open spec fn escape_char(c: char) -> Seq<char> {
    if c == '"' {
        seq!['\\', '"']
    } else if c == '\\' {
        seq!['\\', '\\']
    } else if c == '\x08' {
        seq!['\\', 'b']
    } else if c == '\t' {
        seq!['\\', 't']
    } else if c == '\n' {
        seq!['\\', 'n']
    } else if c == '\x0c' {
        seq!['\\', 'f']
    } else if c == '\r' {
        seq!['\\', 'r']
    } else if (c as int) < 0x20 {
        seq!['\\', 'u', '0', '0', hex_char((c as nat) / 16), hex_char((c as nat) % 16)]
    } else {
        seq![c]
    }
}

/// The escaped characters of `s`.
pub open spec fn escape_text(s: Seq<char>) -> Seq<char>
    decreases s.len(),
{
    if s.len() == 0 {
        Seq::empty()
    } else {
        escape_text(s.drop_last()) + escape_char(s.last())
    }
}

/// The JSON string literal of `s`.
pub open spec fn quoted(s: Seq<char>) -> Seq<char> {
    seq!['"'] + escape_text(s) + seq!['"']
}

/// The text `null`.
pub open spec fn null_text() -> Seq<char> {
    seq!['n', 'u', 'l', 'l']
}

/// The text of a boolean.
pub open spec fn bool_text(b: bool) -> Seq<char> {
    if b {
        seq!['t', 'r', 'u', 'e']
    } else {
        seq!['f', 'a', 'l', 's', 'e']
    }
}

/// The compact text of a JSON value, as `serde_json::to_string` writes it:
/// no white space, members and items separated by `,`.
pub open spec fn compact(t: JsonTree) -> Seq<char>
    decreases t, 0nat,
{
    match t {
        JsonTree::Null => null_text(),
        JsonTree::Bool(b) => bool_text(b),
        JsonTree::Number(n) => n,
        JsonTree::String(s) => quoted(s),
        JsonTree::Array(items) => seq!['['] + compact_items(items, items.len()) + seq![']'],
        JsonTree::Object(es) => seq!['{'] + compact_members(es, es.len()) + seq!['}'],
    }
}

/// The first `n` items, each in compact text, separated by `,`.
pub open spec fn compact_items(items: Seq<JsonTree>, n: nat) -> Seq<char>
    decreases items, n,
{
    if n == 0 || n > items.len() {
        Seq::empty()
    } else if n == 1 {
        compact(items[0])
    } else {
        compact_items(items, (n - 1) as nat) + seq![','] + compact(items[n - 1])
    }
}

/// One member, `"key":value`, in compact text.
pub open spec fn compact_member(e: (Seq<char>, JsonTree)) -> Seq<char>
    decreases e, 0nat,
{
    quoted(e.0) + seq![':'] + compact(e.1)
}

/// The first `n` members in compact text, separated by `,`.
pub open spec fn compact_members(es: Seq<(Seq<char>, JsonTree)>, n: nat) -> Seq<char>
    decreases es, n,
{
    if n == 0 || n > es.len() {
        Seq::empty()
    } else if n == 1 {
        compact_member(es[0])
    } else {
        compact_members(es, (n - 1) as nat) + seq![','] + compact_member(es[n - 1])
    }
}

/// `serde_json::to_string` on a string slice: the JSON string literal of `s`.
/// The contract claims that the call succeeds and that the literal escapes
/// exactly as `quoted` says (serde_json's `format_escaped_str`).
#[verifier::external_body]
pub(crate) fn string_literal(s: &str) -> (r: Result<String, JsonError>)
    ensures
        r is Ok,
        r.unwrap()@ == quoted(s@),
{
    serde_json::to_string(s)
}

/// Appends `text` to `out`, as a JSON string literal.
pub fn write_string_literal(s: &str, out: &mut String) -> (r: Result<(), JsonError>)
    ensures
        r is Ok,
        final(out)@ == old(out)@ + quoted(s@),
{
    match string_literal(s) {
        Ok(t) => {
            append_str(out, t.as_str());
            Ok(())
        },
        Err(e) => Err(e),
    }
}

/// Appends the compact text of `j` to `out`.
pub fn write_compact(j: &Json, out: &mut String) -> (r: Result<(), JsonError>)
    ensures
        r is Ok,
        final(out)@ == old(out)@ + compact(j@),
    decreases j,
{
    match j {
        Json::Null => {
            append_str(out, "null");
            proof { reveal_strlit("null"); }
            assert(out@ =~= old(out)@ + compact(j@));
        },
        Json::Bool(b) => {
            if *b {
                append_str(out, "true");
                proof { reveal_strlit("true"); }
            } else {
                append_str(out, "false");
                proof { reveal_strlit("false"); }
            }
            assert(out@ =~= old(out)@ + compact(j@));
        },
        Json::Number(n) => {
            append_str(out, n.text.as_str());
        },
        Json::String(s) => {
            match write_string_literal(s.as_str(), out) {
                Ok(()) => {},
                Err(e) => { return Err(e); },
            }
        },
        Json::Array(items) => {
            let ghost tv = j@;
            let ghost ts = tv->Array_0;
            assert(ts.len() == items.len());
            push_char(out, '[');
            let ghost start = out@;
            let mut i: usize = 0;
            while i < items.len()
                invariant
                    i <= items.len(),
                    *j == Json::Array(*items),
                    ts == tv->Array_0,
                    tv == j@,
                    ts.len() == items.len(),
                    forall|k: int| 0 <= k < items.len() ==> ts[k] == (#[trigger] items@[k])@,
                    out@ == start + compact_items(ts, i as nat),
                decreases items.len() - i,
            {
                if i > 0 {
                    push_char(out, ',');
                }
                proof {
                    assert(decreases_to!(*j => (*j)->Array_0));
                    assert((*j)->Array_0 == *items);
                    assert(decreases_to!(*items => items@));
                    assert(decreases_to!(items@ => items@[i as int]));
                }
                match write_compact(&items[i], out) {
                    Ok(()) => {},
                    Err(e) => { return Err(e); },
                }
                i += 1;
                assert(out@ =~= start + compact_items(ts, i as nat));
            }
            push_char(out, ']');
            assert(out@ =~= old(out)@ + compact(j@));
        },
        Json::Object(entries) => {
            let ghost tv = j@;
            let ghost ts = tv->Object_0;
            push_char(out, '{');
            let ghost start = out@;
            let mut i: usize = 0;
            while i < entries.len()
                invariant
                    i <= entries.len(),
                    *j == Json::Object(*entries),
                    ts == tv->Object_0,
                    tv == j@,
                    ts.len() == entries.len(),
                    forall|k: int| 0 <= k < entries.len() ==> ts[k] == ((#[trigger] entries@[k]).0@, entries@[k].1@),
                    out@ == start + compact_members(ts, i as nat),
                decreases entries.len() - i,
            {
                if i > 0 {
                    push_char(out, ',');
                }
                let ghost before = out@;
                match write_string_literal(entries[i].0.as_str(), out) {
                    Ok(()) => {},
                    Err(e) => { return Err(e); },
                }
                push_char(out, ':');
                proof {
                    assert(decreases_to!(*j => (*j)->Object_0));
                    assert((*j)->Object_0 == *entries);
                    assert(decreases_to!(*entries => entries@));
                    assert(decreases_to!(entries@ => entries@[i as int]));
                    assert(decreases_to!(entries@[i as int] => entries@[i as int].1));
                }
                match write_compact(&entries[i].1, out) {
                    Ok(()) => {},
                    Err(e) => { return Err(e); },
                }
                assert(ts[i as int] == (entries@[i as int].0@, entries@[i as int].1@));
                assert(compact_member(ts[i as int]) == quoted(entries@[i as int].0@) + seq![':']
                    + compact(entries@[i as int].1@));
                assert(out@ =~= before + compact_member(ts[i as int]));
                i += 1;
                assert(out@ =~= start + compact_members(ts, i as nat));
            }
            push_char(out, '}');
            assert(out@ =~= old(out)@ + compact(j@));
        },
    }
    Ok(())
}

/// The JSON value that `serde_json::from_str` reads from `text`, if the text
/// is JSON.
pub uninterp spec fn json_of_text(text: Seq<char>) -> Option<JsonTree>;

/// `serde_json::from_str::<serde_json::Value>`: reads JSON text. The contract
/// claims that the call succeeds exactly when the text is JSON, and that it
/// gives the same value for the same text; which value that is, and which
/// error, are left to `serde_json`.
#[verifier::external_body]
pub fn read_json(text: &str) -> (r: Result<Json, JsonError>)
    ensures
        r is Ok <==> json_of_text(text@) is Some,
        r matches Ok(j) ==> json_of_text(text@) == Some(j@),
{
    serde_json::from_str::<SerdeValue>(text).map(|v| json_from_serde(&v))
}

/// `serde_json::Value`, declared so that it can be converted.
#[verifier::external_type_specification]
#[verifier::external_body]
pub struct ExSerdeValue(SerdeValue);

/// `serde_json::Value` as the library's `Json`, variant for variant; a number
/// is held as the text `serde_json` writes for it.
#[verifier::external_body]
fn json_from_serde(v: &SerdeValue) -> Json {
    match v {
        SerdeValue::Null => Json::Null,
        SerdeValue::Bool(b) => Json::Bool(*b),
        SerdeValue::Number(n) => Json::Number(Number { text: n.to_string() }),
        SerdeValue::String(s) => Json::String(s.clone()),
        SerdeValue::Array(a) => Json::Array(a.iter().map(json_from_serde).collect()),
        SerdeValue::Object(m) => Json::Object(m.iter().map(|(k, x)| (k.clone(), json_from_serde(x))).collect()),
    }
}

} // verus!

//! JSON text: strings, lists and objects written without any space between their parts.
use vstd::prelude::*;

use crate::text::{cat3, gather, join, joined, put, texts};

verus! {

/// A digit of a hexadecimal number.
pub open spec fn hex_digit(d: int) -> char {
    if d == 0 { '0' } else if d == 1 { '1' } else if d == 2 { '2' } else if d == 3 { '3' } else if d == 4 { '4' } else if d == 5 { '5' } else if d == 6 { '6' } else if d == 7 { '7' } else if d == 8 { '8' } else if d == 9 { '9' } else if d == 10 { 'a' } else if d == 11 { 'b' } else if d == 12 { 'c' } else if d == 13 { 'd' } else if d == 14 { 'e' } else { 'f' }
}

/// How a character stands in a JSON string: quotes, backslashes and control characters are
/// escaped, everything else stands for itself.
pub open spec fn escape(c: char) -> Seq<char> {
    let n = c as u32;
    if c == '"' {
        seq!['\\', '"']
    } else if c == '\\' {
        seq!['\\', '\\']
    } else if n == 8 {
        seq!['\\', 'b']
    } else if n == 9 {
        seq!['\\', 't']
    } else if n == 10 {
        seq!['\\', 'n']
    } else if n == 12 {
        seq!['\\', 'f']
    } else if n == 13 {
        seq!['\\', 'r']
    } else if n < 32 {
        seq!['\\', 'u', '0', '0', hex_digit(n as int / 16), hex_digit(n as int % 16)]
    } else {
        seq![c]
    }
}

/// The escaped characters of `s` by position.
pub open spec fn escaping(s: Seq<char>) -> spec_fn(int) -> Seq<char> {
    |i: int| escape(s[i])
}

/// `s` as a JSON string.
pub open spec fn json_string(s: Seq<char>) -> Seq<char> {
    seq!['"'] + gather(s.len() as int, escaping(s)) + seq!['"']
}

/// A JSON list of values that are written already.
pub open spec fn json_list(items: Seq<Seq<char>>) -> Seq<char> {
    "["@ + joined(items, ","@) + "]"@
}

/// A JSON list of strings.
pub open spec fn json_strings(items: Seq<Seq<char>>) -> Seq<char> {
    json_list(items.map_values(|s: Seq<char>| json_string(s)))
}

/// A JSON truth value.
pub open spec fn json_bool(b: bool) -> Seq<char> {
    if b {
        "true"@
    } else {
        "false"@
    }
}

/// A JSON string, or null.
pub open spec fn json_maybe(o: Option<Seq<char>>) -> Seq<char> {
    match o {
        Some(s) => json_string(s),
        None => "null"@,
    }
}

/// `serde_json::to_string` of a string: the string between double quotes, with the double quote,
/// the backslash and the characters below the space escaped, those without a letter of their
/// own by four hexadecimal digits.
#[verifier::external_body]
pub(crate) fn quote(s: &str) -> (r: String)
    ensures
        r@ == json_string(s@),
{
    serde_json::to_string(s).expect("a string is serializable")
}

/// Writes a list of values that are written already.
pub fn list(items: &Vec<String>) -> (r: String)
    ensures
        r@ == json_list(texts(items@)),
{
    cat3("[", join(items, ",").as_str(), "]")
}

/// Writes a list of strings.
pub fn list_of_strings(items: &Vec<String>) -> (r: String)
    ensures
        r@ == json_strings(texts(items@)),
{
    let mut out: Vec<String> = Vec::new();
    let mut i: usize = 0;
    while i < items.len()
        invariant
            i <= items.len(),
            texts(out@) =~= texts(items@).take(i as int).map_values(
                |s: Seq<char>| json_string(s),
            ),
        decreases items.len() - i,
    {
        put(&mut out, quote(items[i].as_str()));
        assert(texts(items@).take(i + 1) =~= texts(items@).take(i as int).push(texts(items@)[i as int]));
        i += 1;
    }
    assert(texts(items@).take(items@.len() as int) =~= texts(items@));
    list(&out)
}

/// Writes a truth value.
pub fn truth(b: bool) -> (r: String)
    ensures
        r@ == json_bool(b),
{
    if b {
        "true".to_owned()
    } else {
        "false".to_owned()
    }
}

/// Writes a string, or null.
pub fn maybe(o: &Option<String>) -> (r: String)
    ensures
        r@ == json_maybe(crate::text::text_opt(*o)),
{
    match o {
        Some(s) => quote(s.as_str()),
        None => "null".to_owned(),
    }
}

} // verus!

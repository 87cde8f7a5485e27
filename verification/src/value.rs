//! JSON values as they arrive from a service, and how they are read.
use vstd::prelude::*;

use crate::text::same;

verus! {

/// A JSON value.
#[derive(Debug)]
pub enum Json {
    Null,
    Bool(bool),
    /// An integer from zero up.
    Unsigned(u64),
    /// An integer below zero.
    Negative(i64),
    /// Any other number.
    Fraction,
    Text(String),
    List(Vec<Json>),
    /// Names and their values; of two entries with one name the first counts.
    Object(Vec<(String, Json)>),
}

/// The value of the first entry from position `i` on that is named `k`.
pub open spec fn entry_from(v: Seq<(String, Json)>, k: Seq<char>, i: int) -> Option<Json>
    decreases v.len() - i,
{
    if i >= v.len() {
        None
    } else if v[i].0@ == k {
        Some(v[i].1)
    } else {
        entry_from(v, k, i + 1)
    }
}

/// The value under a name: nothing in what is not an object.
pub open spec fn field(j: Json, k: Seq<char>) -> Option<Json> {
    match j {
        Json::Object(v) => entry_from(v@, k, 0),
        _ => None,
    }
}

/// The value under a name below another.
pub open spec fn field_below(j: Option<Json>, k: Seq<char>) -> Option<Json> {
    match j {
        Some(x) => field(x, k),
        None => None,
    }
}

/// The text of a value, where it is one.
pub open spec fn text_of(j: Option<Json>) -> Option<Seq<char>> {
    match j {
        Some(Json::Text(s)) => Some(s@),
        _ => None,
    }
}

/// Whether a value is the truth value true.
pub open spec fn is_true(j: Option<Json>) -> bool {
    j == Some(Json::Bool(true))
}

/// The items of a value, where it is a list.
pub open spec fn items_of(j: Option<Json>) -> Option<Seq<Json>> {
    match j {
        Some(Json::List(v)) => Some(v@),
        _ => None,
    }
}

/// The items of a value; none where it is not a list.
pub open spec fn all_items(j: Option<Json>) -> Seq<Json> {
    match j {
        Some(Json::List(v)) => v@,
        _ => Seq::empty(),
    }
}

/// The number of a value, where it is an integer from zero up; else 0.
pub open spec fn count_of(j: Option<Json>) -> u64 {
    match j {
        Some(Json::Unsigned(n)) => n,
        _ => 0,
    }
}

/// The number of a value, where it is an integer that fits.
pub open spec fn number_of(j: Option<Json>) -> Option<i64> {
    match j {
        Some(Json::Unsigned(n)) => if n <= i64::MAX {
            Some(n as i64)
        } else {
            None
        },
        Some(Json::Negative(n)) => Some(n),
        _ => None,
    }
}

/// Whether a reference hands out this value.
pub open spec fn lends(r: Option<&Json>, j: Option<Json>) -> bool {
    match r {
        Some(x) => j == Some(*x),
        None => j is None,
    }
}

impl Json {
    /// The value under a name.
    pub fn get<'a>(&'a self, k: &str) -> (r: Option<&'a Json>)
        ensures
            lends(r, field(*self, k@)),
    {
        match self {
            Json::Object(v) => {
                let mut i: usize = 0;
                while i < v.len()
                    invariant
                        i <= v.len(),
                        *self == Json::Object(*v),
                        entry_from(v@, k@, 0) == entry_from(v@, k@, i as int),
                    decreases v.len() - i,
                {
                    if same(v[i].0.as_str(), k) {
                        return Some(&v[i].1);
                    }
                    i += 1;
                }
                None
            },
            _ => None,
        }
    }
}

/// The value under a name below another.
pub fn get_below<'a>(j: Option<&'a Json>, k: &str) -> (r: Option<&'a Json>)
    ensures
        forall|v: Option<Json>| #[trigger] lends(j, v) ==> lends(r, field_below(v, k@)),
{
    match j {
        Some(x) => x.get(k),
        None => None,
    }
}

/// The text of a value, where it is one.
pub fn as_text<'a>(j: Option<&'a Json>) -> (r: Option<&'a String>)
    ensures
        forall|v: Option<Json>| #[trigger]
            lends(j, v) ==> text_of(v) == (match r {
                Some(s) => Some(s@),
                None => None,
            }),
{
    match j {
        Some(Json::Text(s)) => Some(s),
        _ => None,
    }
}

/// Whether a value is a text with these characters.
pub fn text_is(j: Option<&Json>, s: &str) -> (r: bool)
    ensures
        forall|v: Option<Json>| #[trigger] lends(j, v) ==> r == (text_of(v) == Some(s@)),
{
    match as_text(j) {
        Some(t) => same(t.as_str(), s),
        None => false,
    }
}

/// Whether a value is the truth value true.
pub fn truth_of(j: Option<&Json>) -> (r: bool)
    ensures
        forall|v: Option<Json>| #[trigger] lends(j, v) ==> r == is_true(v),
{
    match j {
        Some(Json::Bool(b)) => *b,
        _ => false,
    }
}

/// The items of a value, where it is a list.
pub fn as_list<'a>(j: Option<&'a Json>) -> (r: Option<&'a Vec<Json>>)
    ensures
        forall|v: Option<Json>| #[trigger]
            lends(j, v) ==> items_of(v) == (match r {
                Some(l) => Some(l@),
                None => None,
            }),
{
    match j {
        Some(Json::List(v)) => Some(v),
        _ => None,
    }
}

/// The number of a value, where it is an integer from zero up; else 0.
pub fn as_count(j: Option<&Json>) -> (r: u64)
    ensures
        forall|v: Option<Json>| #[trigger] lends(j, v) ==> r == count_of(v),
{
    match j {
        Some(Json::Unsigned(n)) => *n,
        _ => 0,
    }
}

/// The number of a value, where it is an integer that fits.
pub fn as_number(j: Option<&Json>) -> (r: Option<i64>)
    ensures
        forall|v: Option<Json>| #[trigger] lends(j, v) ==> r == number_of(v),
{
    match j {
        Some(Json::Unsigned(n)) => if *n <= i64::MAX as u64 {
            Some(*n as i64)
        } else {
            None
        },
        Some(Json::Negative(n)) => Some(*n),
        _ => None,
    }
}

} // verus!

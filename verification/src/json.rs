//! JSON documents, as `serde_json` reads and writes them.
//!
//! A document is carried as a `serde_json::Value`; what it holds is its
//! [`JsonView`], and every access below is stated over that view.

use crate::num::Num;
use crate::text::{joined, views};
use vstd::prelude::*;

verus! {

/// `serde_json::Value`: one JSON value, opaque here.
#[verifier::external_type_specification]
#[verifier::external_body]
pub struct ExValue(serde_json::Value);

/// What a JSON value is.
pub enum JsonView {
    Null,
    Flag(bool),
    /// A number: as a `u64` and as an `i64` where it is written as an integer that one
    /// holds, and as the double it is read as. Of a number with a fraction or an exponent
    /// this can be a neighbour of the nearest double.
    Number(Option<u64>, Option<i64>, Num),
    Text(Seq<char>),
    List(Seq<JsonView>),
    Object(Map<Seq<char>, JsonView>),
}

/// What a `serde_json::Value` holds.
pub uninterp spec fn json_view(v: serde_json::Value) -> JsonView;

/// What `serde_json::from_slice` makes of some bytes: the document, or the text of the
/// error.
pub uninterp spec fn json_parsed(bytes: Seq<u8>) -> Result<JsonView, Seq<char>>;

/// What `serde_json::to_vec` writes for a list of values.
pub uninterp spec fn json_written(items: Seq<JsonView>) -> Seq<u8>;

/// What the values of a list hold.
pub open spec fn json_views(items: Seq<serde_json::Value>) -> Seq<JsonView> {
    items.map_values(|v: serde_json::Value| json_view(v))
}

/// Member `key` of an object.
pub open spec fn member_of(v: JsonView, key: Seq<char>) -> Option<JsonView> {
    match v {
        JsonView::Object(m) => if m.contains_key(key) {
            Some(m[key])
        } else {
            None
        },
        _ => None,
    }
}

/// Member `key` of an object, nothing where there is none.
pub open spec fn field_of(v: JsonView, key: Seq<char>) -> JsonView {
    match member_of(v, key) {
        Some(x) => x,
        None => JsonView::Null,
    }
}

/// Item `i` of a list.
pub open spec fn item_of(v: JsonView, i: int) -> Option<JsonView> {
    match v {
        JsonView::List(items) => if 0 <= i < items.len() {
            Some(items[i])
        } else {
            None
        },
        _ => None,
    }
}

/// The text of a string.
pub open spec fn text_of(v: JsonView) -> Option<Seq<char>> {
    match v {
        JsonView::Text(s) => Some(s),
        _ => None,
    }
}

/// The items of a list.
pub open spec fn items_of(v: JsonView) -> Option<Seq<JsonView>> {
    match v {
        JsonView::List(items) => Some(items),
        _ => None,
    }
}

/// The integer that a number is.
pub open spec fn integer_of(v: JsonView) -> Option<i64> {
    match v {
        JsonView::Number(_, n, _) => n,
        _ => None,
    }
}

/// The double that a number is read as.
pub open spec fn number_of(v: JsonView) -> Option<Num> {
    match v {
        JsonView::Number(_, _, x) => Some(x),
        _ => None,
    }
}

/// Whether lists and objects stand at most `n` deep in one another, `v` among them.
pub open spec fn nests_within(v: JsonView, n: nat) -> bool
    decreases n,
{
    match v {
        JsonView::List(items) => n > 0 && forall|i: int|
            0 <= i < items.len() ==> nests_within(#[trigger] items[i], (n - 1) as nat),
        JsonView::Object(m) => n > 0 && forall|k: Seq<char>|
            m.contains_key(k) ==> nests_within(#[trigger] m[k], (n - 1) as nat),
        _ => true,
    }
}

/// Whether a number is the same once it is written and read. All integers are that a `u64`
/// or an `i64` holds; another number can be read back as a neighbouring double.
pub open spec fn is_steady_number(v: JsonView) -> bool {
    v matches JsonView::Number(a, b, _) && (a is Some || b is Some || reads_as_list(
        json_written(seq![v]),
        seq![v],
    ))
}

/// Whether every number in the first `n` levels of `v` is the same once it is written and
/// read.
pub open spec fn steady_to(v: JsonView, n: nat) -> bool
    decreases n,
{
    match v {
        JsonView::Number(_, _, _) => is_steady_number(v),
        JsonView::List(items) => n > 0 ==> forall|i: int|
            0 <= i < items.len() ==> steady_to(#[trigger] items[i], (n - 1) as nat),
        JsonView::Object(m) => n > 0 ==> forall|k: Seq<char>|
            m.contains_key(k) ==> steady_to(#[trigger] m[k], (n - 1) as nat),
        _ => true,
    }
}

/// Whether every number in `v` is the same once it is written and read.
pub open spec fn is_steady(v: JsonView) -> bool {
    forall|n: nat| steady_to(v, n)
}

/// What nests within few levels nests within more.
pub proof fn lemma_nests_within(v: JsonView, n: nat, m: nat)
    requires
        nests_within(v, n),
        n <= m,
    ensures
        nests_within(v, m),
    decreases n,
{
    match v {
        JsonView::List(items) => {
            assert forall|i: int| 0 <= i < items.len() implies nests_within(
                #[trigger] items[i],
                (m - 1) as nat,
            ) by {
                lemma_nests_within(items[i], (n - 1) as nat, (m - 1) as nat);
            }
        },
        JsonView::Object(o) => {
            assert forall|k: Seq<char>| o.contains_key(k) implies nests_within(
                #[trigger] o[k],
                (m - 1) as nat,
            ) by {
                lemma_nests_within(o[k], (n - 1) as nat, (m - 1) as nat);
            }
        },
        _ => {},
    }
}

/// How many lists and objects may stand in one another in a document.
pub const DEEPEST: usize = 127;

/// A hexadecimal digit.
pub open spec fn hex_digit(d: int) -> char {
    if d < 10 {
        ('0' as int + d) as char
    } else {
        ('a' as int + (d - 10)) as char
    }
}

/// A character as it stands in a string literal.
pub open spec fn escaped(c: char) -> Seq<char> {
    if c == '"' || c == '\\' {
        seq!['\\', c]
    } else if c == '\n' {
        seq!['\\', 'n']
    } else if c == '\r' {
        seq!['\\', 'r']
    } else if c == '\t' {
        seq!['\\', 't']
    } else if c == '\u{8}' {
        seq!['\\', 'b']
    } else if c == '\u{c}' {
        seq!['\\', 'f']
    } else if c as int <= 31 {
        seq!['\\', 'u', '0', '0', hex_digit(c as int / 16), hex_digit(c as int % 16)]
    } else {
        seq![c]
    }
}

/// The string literal of a text: all its characters as they stand in one, between
/// quotation marks.
pub open spec fn quoted_text(s: Seq<char>) -> Seq<char> {
    seq!['"'] + s.map_values(|c: char| escaped(c)).flatten() + seq!['"']
}

/// The literal of a list of texts.
pub open spec fn quoted_list_text(items: Seq<Seq<char>>) -> Seq<char> {
    seq!['['] + joined(items.map_values(|s: Seq<char>| quoted_text(s)), ',') + seq![']']
}

/// Whether the bytes are a document that is the list of `items`.
pub open spec fn reads_as_list(bytes: Seq<u8>, items: Seq<JsonView>) -> bool {
    json_parsed(bytes) == Ok::<JsonView, Seq<char>>(JsonView::List(items))
}

// ---- trusted ----

/// `serde_json::from_slice`: the document of the bytes, or the error, here by its
/// text. A document is read to a fixed depth only. Which bytes are a document, and of
/// what, is not stated.
#[verifier::external_body]
pub(crate) fn parse(bytes: &[u8]) -> (r: Result<serde_json::Value, String>)
    ensures
        match r {
            Ok(v) => json_parsed(bytes@) == Ok::<JsonView, Seq<char>>(json_view(v)) && nests_within(
                json_view(v),
                DEEPEST as nat,
            ),
            Err(e) => json_parsed(bytes@) == Err::<JsonView, Seq<char>>(e@),
        },
{
    serde_json::from_slice(bytes).map_err(|e| e.to_string())
}

/// `Value::get` with a string: the member of that name where the value is an object
/// that has one.
#[verifier::external_body]
pub(crate) fn member<'a>(v: &'a serde_json::Value, key: &str) -> (r: Option<&'a serde_json::Value>)
    ensures
        match r {
            Some(x) => member_of(json_view(*v), key@) == Some(json_view(*x)),
            None => member_of(json_view(*v), key@) is None,
        },
{
    v.get(key)
}

/// `Value::get` with a number: the item at that place where the value is a list that
/// has one.
#[verifier::external_body]
pub(crate) fn item(v: &serde_json::Value, i: usize) -> (r: Option<&serde_json::Value>)
    ensures
        match r {
            Some(x) => item_of(json_view(*v), i as int) == Some(json_view(*x)),
            None => item_of(json_view(*v), i as int) is None,
        },
{
    v.get(i)
}

/// `Value::as_str`: the text where the value is a string.
#[verifier::external_body]
pub(crate) fn text(v: &serde_json::Value) -> (r: Option<&str>)
    ensures
        match r {
            Some(s) => text_of(json_view(*v)) == Some(s@),
            None => text_of(json_view(*v)) is None,
        },
{
    v.as_str()
}

/// `Value::as_array`: the items where the value is a list.
#[verifier::external_body]
pub(crate) fn items(v: &serde_json::Value) -> (r: Option<&Vec<serde_json::Value>>)
    ensures
        match r {
            Some(a) => items_of(json_view(*v)) == Some(json_views(a@)),
            None => items_of(json_view(*v)) is None,
        },
{
    v.as_array()
}

/// `Value::as_i64`: the integer where the value is a number that an `i64` holds.
#[verifier::external_body]
pub(crate) fn integer(v: &serde_json::Value) -> (r: Option<i64>)
    ensures
        r == integer_of(json_view(*v)),
{
    v.as_i64()
}

/// `Value::as_f64`: the double that the value was read as where it is a number, here by
/// its bit pattern.
#[verifier::external_body]
pub(crate) fn number(v: &serde_json::Value) -> (r: Option<Num>)
    ensures
        r == number_of(json_view(*v)),
{
    v.as_f64().map(|x| Num::new(x.to_bits()))
}

/// `Value::clone`: a value that holds the same.
#[verifier::external_body]
pub(crate) fn copy(v: &serde_json::Value) -> (r: serde_json::Value)
    ensures
        json_view(r) == json_view(*v),
{
    v.clone()
}

/// `serde_json::to_vec` on a list of values, which reading gives back where it is not
/// nested too deep to be read at all and each of its numbers, wherever it stands, is an
/// integer or is given back when it is written alone. Which other numbers are is not
/// stated: one may be read back as a neighbouring double.
#[verifier::external_body]
pub(crate) fn written(rows: &Vec<serde_json::Value>) -> (r: Vec<u8>)
    ensures
        r@ == json_written(json_views(rows@)),
        (forall|i: int|
            0 <= i < rows@.len() ==> nests_within(json_view(#[trigger] rows@[i]), (DEEPEST - 1) as nat)
                && steady_to(json_view(rows@[i]), (DEEPEST - 1) as nat)) ==> reads_as_list(
            r@,
            json_views(rows@),
        ),
{
    serde_json::to_vec(rows).unwrap_or_default()
}

/// `serde_json::to_string` on a string: its literal, with quotation marks, backslashes
/// and control characters escaped and all else as it is.
#[verifier::external_body]
pub(crate) fn quoted(s: &str) -> (r: String)
    ensures
        r@ == quoted_text(s@),
{
    serde_json::to_string(s).unwrap_or_default()
}

/// `serde_json::to_string` on a list of strings: their literals with commas between
/// them, in square brackets.
#[verifier::external_body]
pub(crate) fn quoted_list(items: &Vec<String>) -> (r: String)
    ensures
        r@ == quoted_list_text(views(items@)),
{
    serde_json::to_string(items).unwrap_or_default()
}

// ---- reading members ----

/// The text of member `key`.
pub(crate) fn text_field(v: &serde_json::Value, key: &str) -> (r: Option<String>)
    ensures
        match r {
            Some(s) => text_of(field_of(json_view(*v), key@)) == Some(s@),
            None => text_of(field_of(json_view(*v), key@)) is None,
        },
{
    match member(v, key) {
        Some(x) => match text(x) {
            Some(s) => Some(s.to_string()),
            None => None,
        },
        None => None,
    }
}

/// The number that member `key` is.
pub(crate) fn number_field(v: &serde_json::Value, key: &str) -> (r: Option<Num>)
    ensures
        r == number_of(field_of(json_view(*v), key@)),
{
    match member(v, key) {
        Some(x) => number(x),
        None => None,
    }
}

} // verus!

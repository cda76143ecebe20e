//! JSON values: those of `serde_json`, the model that the contracts speak of,
//! and what the library asks of them.

use base64::Engine;
use serde_json::Value;
use vstd::prelude::*;
use vstd::utf8::encode_utf8;

use crate::lists::reversed;
use crate::sorted::{lemma_sorted_put_all_sorted, sorted_by, sorted_put, sorted_put_all};
use crate::text::{decimal, signed_decimal};

verus! {

// ---------------------------------------------------------------------------
// Model
// ---------------------------------------------------------------------------

/// What a JSON value is. A number is given by the text in which it is written,
/// an object by its members in the order of their names.
pub enum JsonView {
    Null,
    Bool(bool),
    Number(Seq<char>),
    Str(Seq<char>),
    Array(Seq<JsonView>),
    Object(Seq<(Seq<char>, JsonView)>),
}

/// The key by which the members of an object are ordered.
pub open spec fn member_key() -> spec_fn((Seq<char>, JsonView)) -> Seq<u8> {
    |e: (Seq<char>, JsonView)| encode_utf8(e.0)
}

/// The member of an object with the given name.
pub open spec fn member(m: Seq<(Seq<char>, JsonView)>, name: Seq<char>) -> Option<JsonView>
    decreases m.len(),
{
    if m.len() == 0 {
        None
    } else if m.last().0 == name {
        Some(m.last().1)
    } else {
        member(m.drop_last(), name)
    }
}

/// The member with the given name, where the value is an object that has it.
pub open spec fn json_field(v: JsonView, name: Seq<char>) -> Option<JsonView> {
    match v {
        JsonView::Object(m) => member(m, name),
        _ => None,
    }
}

/// The text of a string.
pub open spec fn json_text(v: JsonView) -> Option<Seq<char>> {
    match v {
        JsonView::Str(s) => Some(s),
        _ => None,
    }
}

/// The truth value of a boolean.
pub open spec fn json_truth(v: JsonView) -> Option<bool> {
    match v {
        JsonView::Bool(b) => Some(b),
        _ => None,
    }
}

/// The text of the string member with the given name.
pub open spec fn text_field(v: JsonView, name: Seq<char>) -> Option<Seq<char>> {
    match json_field(v, name) {
        Some(x) => json_text(x),
        None => None,
    }
}

/// The truth value of the boolean member with the given name.
pub open spec fn truth_field(v: JsonView, name: Seq<char>) -> Option<bool> {
    match json_field(v, name) {
        Some(x) => json_truth(x),
        None => None,
    }
}

/// A number is an integer of at most 64 bits.
pub open spec fn is_integer_text(t: Seq<char>) -> bool {
    exists|n: int| i64::MIN <= n <= u64::MAX && t == #[trigger] signed_decimal(n)
}

/// A value whose numbers are integers, whose objects are in order, and which is
/// nested no deeper than `depth`.
pub open spec fn json_plain(v: JsonView, depth: nat) -> bool
    decreases v,
{
    match v {
        JsonView::Number(t) => is_integer_text(t),
        JsonView::Array(l) => depth > 0 && all_plain(l, (depth - 1) as nat),
        JsonView::Object(m) => depth > 0 && sorted_by(m, member_key()) && members_plain(
            m,
            (depth - 1) as nat,
        ),
        _ => true,
    }
}

pub open spec fn all_plain(l: Seq<JsonView>, depth: nat) -> bool
    decreases l,
{
    l.len() == 0 || (all_plain(l.drop_last(), depth) && json_plain(l.last(), depth))
}

pub open spec fn members_plain(m: Seq<(Seq<char>, JsonView)>, depth: nat) -> bool
    decreases m,
{
    m.len() == 0 || (members_plain(m.drop_last(), depth) && json_plain(m.last().1, depth))
}

// ---------------------------------------------------------------------------
// Trusted: serde_json
// ---------------------------------------------------------------------------

/// The JSON value of `serde_json`.
#[verifier::external_type_specification]
#[verifier::external_body]
pub struct ExValue(Value);

/// What a value of `serde_json` holds.
pub uninterp spec fn json_view(v: Value) -> JsonView;

pub open spec fn json_views(l: Seq<Value>) -> Seq<JsonView> {
    l.map_values(|v: Value| json_view(v))
}

pub open spec fn member_views(m: Seq<(String, Value)>) -> Seq<(Seq<char>, JsonView)> {
    m.map_values(|e: (String, Value)| (e.0@, json_view(e.1)))
}

/// Constructs `Value::Null`.
#[verifier::external_body]
pub(crate) fn json_null() -> (r: Value)
    ensures
        json_view(r) == JsonView::Null,
{
    Value::Null
}

/// Constructs `Value::Bool`.
#[verifier::external_body]
pub(crate) fn json_bool(b: bool) -> (r: Value)
    ensures
        json_view(r) == JsonView::Bool(b),
{
    Value::Bool(b)
}

/// Calls `Value::from` on an unsigned integer: a number, written in decimal.
#[verifier::external_body]
pub(crate) fn json_u64(n: u64) -> (r: Value)
    ensures
        json_view(r) == JsonView::Number(decimal(n as nat)),
{
    Value::from(n)
}

/// Calls `Value::from` on a signed integer: a number, written in decimal.
#[verifier::external_body]
pub(crate) fn json_i64(n: i64) -> (r: Value)
    ensures
        json_view(r) == JsonView::Number(signed_decimal(n as int)),
{
    Value::from(n)
}

/// Constructs `Value::String`.
#[verifier::external_body]
pub(crate) fn json_string(s: String) -> (r: Value)
    ensures
        json_view(r) == JsonView::Str(s@),
{
    Value::String(s)
}

/// Constructs `Value::Array`.
#[verifier::external_body]
pub(crate) fn json_array(l: Vec<Value>) -> (r: Value)
    ensures
        json_view(r) == JsonView::Array(json_views(l@)),
{
    Value::Array(l)
}

/// Collects members into a `serde_json::Map` and constructs `Value::Object`: the
/// map orders its members by name, and of members with the same name the last
/// one stays.
#[verifier::external_body]
pub(crate) fn json_object(m: Vec<(String, Value)>) -> (r: Value)
    ensures
        json_view(r) == JsonView::Object(sorted_put_all(member_views(m@), member_key())),
{
    Value::Object(m.into_iter().collect())
}

/// A JSON value, one level of it taken apart.
pub enum JsonNode {
    Null,
    Bool(bool),
    Number(String),
    Str(String),
    Array(Vec<Value>),
    Object(Vec<(String, Value)>),
}

pub open spec fn node_view(n: JsonNode) -> JsonView {
    match n {
        JsonNode::Null => JsonView::Null,
        JsonNode::Bool(b) => JsonView::Bool(b),
        JsonNode::Number(t) => JsonView::Number(t@),
        JsonNode::Str(s) => JsonView::Str(s@),
        JsonNode::Array(l) => JsonView::Array(json_views(l@)),
        JsonNode::Object(m) => JsonView::Object(member_views(m@)),
    }
}

/// Matches on a `serde_json::Value` and hands out what its variant holds; a
/// number is handed out in the text that `Number` displays.
#[verifier::external_body]
pub(crate) fn json_node(v: Value) -> (r: JsonNode)
    ensures
        node_view(r) == json_view(v),
{
    match v {
        Value::Null => JsonNode::Null,
        Value::Bool(b) => JsonNode::Bool(b),
        Value::Number(n) => JsonNode::Number(n.to_string()),
        Value::String(s) => JsonNode::Str(s),
        Value::Array(l) => JsonNode::Array(l),
        Value::Object(m) => JsonNode::Object(m.into_iter().collect()),
    }
}

/// Calls `Value::get` with a name: the member of an object, and nothing for
/// another value.
#[verifier::external_body]
pub(crate) fn json_get<'a>(v: &'a Value, name: &str) -> (r: Option<&'a Value>)
    ensures
        json_field(json_view(*v), name@) == match r {
            Some(x) => Some(json_view(*x)),
            None => None,
        },
{
    v.get(name)
}

/// Calls `Value::as_str`.
#[verifier::external_body]
pub(crate) fn json_as_str(v: &Value) -> (r: Option<&str>)
    ensures
        json_text(json_view(*v)) == match r {
            Some(s) => Some(s@),
            None => None,
        },
{
    v.as_str()
}

/// Calls `Value::as_bool`.
#[verifier::external_body]
pub(crate) fn json_as_bool(v: &Value) -> (r: Option<bool>)
    ensures
        r == json_truth(json_view(*v)),
{
    v.as_bool()
}

/// Calls `Value::clone`.
#[verifier::external_body]
pub(crate) fn json_clone(v: &Value) -> (r: Value)
    ensures
        json_view(r) == json_view(*v),
{
    v.clone()
}

/// The JSON text of a value, as `serde_json` writes it without spaces.
pub uninterp spec fn json_bytes(v: JsonView) -> Seq<u8>;

/// What `serde_json` reads from a JSON text, or the message of its error.
pub uninterp spec fn json_parsed(b: Seq<u8>) -> Result<JsonView, Seq<char>>;

pub open spec fn reads_as(v: JsonView) -> Result<JsonView, Seq<char>> {
    Ok(v)
}

pub open spec fn unreadable(message: Seq<char>) -> Result<JsonView, Seq<char>> {
    Err(message)
}

/// Calls `serde_json::to_vec` on a value. Writing a value into memory does not
/// fail. Reading the text gives the value back, where its numbers are integers
/// and it is nested no deeper than `serde_json` reads; of other numbers nothing
/// is said.
#[verifier::external_body]
pub(crate) fn json_to_vec(v: &Value) -> (r: Result<Vec<u8>, String>)
    ensures
        r is Ok,
        r->Ok_0@ == json_bytes(json_view(*v)),
        json_plain(json_view(*v), 127) ==> json_parsed(r->Ok_0@) == reads_as(json_view(*v)),
{
    serde_json::to_vec(v).map_err(|e| e.to_string())
}

/// Calls `serde_json::from_slice` for a value.
#[verifier::external_body]
pub(crate) fn json_from_slice(b: &[u8]) -> (r: Result<Value, String>)
    ensures
        match r {
            Ok(v) => json_parsed(b@) == reads_as(json_view(v)),
            Err(e) => json_parsed(b@) == unreadable(e@),
        },
{
    serde_json::from_slice(b).map_err(|e| e.to_string())
}

// ---------------------------------------------------------------------------
// Trusted: base64
// ---------------------------------------------------------------------------

/// Bytes in the standard base64 alphabet, padded.
pub uninterp spec fn base64_text(b: Seq<u8>) -> Seq<char>;

/// Bytes in the base64 alphabet for URLs, not padded.
pub uninterp spec fn base64_url_text(b: Seq<u8>) -> Seq<char>;

/// What a base64 text stands for, or the message of the error.
pub uninterp spec fn base64_bytes(s: Seq<char>) -> Result<Seq<u8>, Seq<char>>;

pub open spec fn stands_for(b: Seq<u8>) -> Result<Seq<u8>, Seq<char>> {
    Ok(b)
}

pub open spec fn no_base64(message: Seq<char>) -> Result<Seq<u8>, Seq<char>> {
    Err(message)
}

/// Calls `Engine::encode` of the standard engine. Every three bytes, and what is
/// left over, become four characters. Decoding gives the bytes back.
#[verifier::external_body]
pub(crate) fn base64_encode(b: &[u8]) -> (r: String)
    ensures
        r@ == base64_text(b@),
        r@.len() == (b@.len() + 2) / 3 * 4,
        base64_bytes(r@) == stands_for(b@),
{
    base64::engine::general_purpose::STANDARD.encode(b)
}

/// Calls `encode` of the engine `URL_SAFE_NO_PAD`. Every three bytes become four
/// characters, and a byte or two that are left over one more than they are. Which
/// characters is named, not described.
#[verifier::external_body]
pub(crate) fn base64_url_encode(b: &[u8]) -> (r: String)
    ensures
        r@ == base64_url_text(b@),
        r@.len() == (b@.len() * 4 + 2) / 3,
{
    base64::engine::general_purpose::URL_SAFE_NO_PAD.encode(b)
}

/// Calls `Engine::decode` of the standard engine.
#[verifier::external_body]
pub(crate) fn base64_decode(s: &str) -> (r: Result<Vec<u8>, String>)
    ensures
        match r {
            Ok(b) => base64_bytes(s@) == stands_for(b@),
            Err(e) => base64_bytes(s@) == no_base64(e@),
        },
{
    base64::engine::general_purpose::STANDARD.decode(s).map_err(|e| e.to_string())
}

// ---------------------------------------------------------------------------
// Verified helpers
// ---------------------------------------------------------------------------

/// The text of the string member with the given name.
pub fn get_text(v: &Value, name: &str) -> (r: Option<String>)
    ensures
        text_field(json_view(*v), name@) == match r {
            Some(s) => Some(s@),
            None => None,
        },
{
    match json_get(v, name) {
        None => None,
        Some(x) => match json_as_str(x) {
            None => None,
            Some(s) => Some(s.to_owned()),
        },
    }
}

/// The truth value of the boolean member with the given name.
pub fn get_truth(v: &Value, name: &str) -> (r: Option<bool>)
    ensures
        r == truth_field(json_view(*v), name@),
{
    match json_get(v, name) {
        None => None,
        Some(x) => json_as_bool(x),
    }
}

pub proof fn lemma_members_one(e: (Seq<char>, JsonView))
    ensures
        sorted_put_all(seq![e], member_key()) == seq![e],
{
    assert(sorted_by(seq![e], member_key()));
    lemma_sorted_put_all_sorted(seq![e], member_key());
}

/// An object with a single member.
pub fn json_single(name: &str, v: Value) -> (r: Value)
    ensures
        json_view(r) == JsonView::Object(seq![(name@, json_view(v))]),
{
    let mut m: Vec<(String, Value)> = Vec::new();
    m.push((name.to_owned(), v));
    proof {
        assert(member_views(m@) =~= seq![(name@, json_view(v))]);
        lemma_members_one((name@, json_view(v)));
    }
    json_object(m)
}

/// An array of strings.
pub open spec fn json_strings(s: Seq<Seq<char>>) -> JsonView {
    JsonView::Array(s.map_values(|x: Seq<char>| JsonView::Str(x)))
}

/// The strings of an array that holds only strings.
pub open spec fn strings_of(l: Seq<JsonView>) -> Option<Seq<Seq<char>>>
    decreases l.len(),
{
    if l.len() == 0 {
        Some(Seq::empty())
    } else {
        match (strings_of(l.drop_last()), json_text(l.last())) {
            (Some(s), Some(x)) => Some(s.push(x)),
            _ => None,
        }
    }
}

pub proof fn lemma_strings_of(s: Seq<Seq<char>>)
    ensures
        strings_of(json_strings(s)->Array_0) == Some(s),
    decreases s.len(),
{
    let l = json_strings(s)->Array_0;
    if s.len() > 0 {
        lemma_strings_of(s.drop_last());
        assert(l.drop_last() =~= json_strings(s.drop_last())->Array_0);
        assert(s.drop_last().push(s.last()) =~= s);
    } else {
        assert(s =~= Seq::<Seq<char>>::empty());
    }
}

pub proof fn lemma_strings_plain(s: Seq<Seq<char>>, depth: nat)
    requires
        depth > 0,
    ensures
        json_plain(json_strings(s), depth),
{
    lemma_all_plain_strings(s, (depth - 1) as nat);
}

proof fn lemma_all_plain_strings(s: Seq<Seq<char>>, depth: nat)
    ensures
        all_plain(json_strings(s)->Array_0, depth),
    decreases s.len(),
{
    let l = json_strings(s)->Array_0;
    if s.len() > 0 {
        lemma_all_plain_strings(s.drop_last(), depth);
        assert(l.drop_last() =~= json_strings(s.drop_last())->Array_0);
        assert(l.last() == JsonView::Str(s.last()));
        assert(json_plain(l.last(), depth));
    }
}

/// Reads the strings of an array; nothing where an element is no string.
pub fn texts_of(l: Vec<Value>) -> (r: Option<Vec<String>>)
    ensures
        strings_of(json_views(l@)) == match r {
            Some(v) => Some(crate::text::views(v@)),
            None => None,
        },
{
    let ghost all = json_views(l@);
    let ghost orig = l@;
    let mut rest = reversed(l);
    let mut out: Vec<String> = Vec::new();
    let mut ok: bool = true;
    let ghost mut i: int = 0;
    assert(all.take(0) =~= Seq::<JsonView>::empty());
    assert(crate::text::views(out@) =~= Seq::<Seq<char>>::empty());
    while rest.len() > 0
        invariant
            0 <= i <= all.len(),
            all == json_views(orig),
            rest@ == orig.skip(i).reverse(),
            strings_of(all.take(i)) == if ok {
                Some(crate::text::views(out@))
            } else {
                None::<Seq<Seq<char>>>
            },
        decreases rest.len(),
    {
        match rest.pop() {
            None => {},
            Some(v) => {
                proof {
                    assert(v == orig[i]);
                    assert(all.take(i + 1).drop_last() =~= all.take(i));
                    assert(all.take(i + 1).last() == json_view(v));
                    assert(rest@ =~= orig.skip(i + 1).reverse());
                    i = i + 1;
                }
                match json_node(v) {
                    JsonNode::Str(s) => {
                        let ghost before = crate::text::views(out@);
                        out.push(s);
                        assert(crate::text::views(out@) =~= before.push(s@));
                    },
                    _ => {
                        ok = false;
                    },
                }
            },
        }
    }
    assert(all.take(i) =~= all);
    if ok {
        Some(out)
    } else {
        None
    }
}

// ---------------------------------------------------------------------------
// Records
// ---------------------------------------------------------------------------

/// The object with the given members. Of members with the same name the last
/// one stays.
pub open spec fn json_record(m: Seq<(Seq<char>, JsonView)>) -> JsonView {
    JsonView::Object(sorted_put_all(m, member_key()))
}

proof fn lemma_member_put(
    s: Seq<(Seq<char>, JsonView)>,
    e: (Seq<char>, JsonView),
    name: Seq<char>,
)
    requires
        sorted_by(s, member_key()),
    ensures
        member(sorted_put(s, e, member_key()), name) == if name == e.0 {
            Some(e.1)
        } else {
            member(s, name)
        },
    decreases s.len(),
{
    let k = member_key();
    let r = sorted_put(s, e, k);
    reveal_with_fuel(member, 2);
    if s.len() == 0 {
        assert(r.drop_last() =~= Seq::<(Seq<char>, JsonView)>::empty());
    } else {
        let l = s.last();
        let d = s.drop_last();
        assert forall|i: int, j: int| 0 <= i < j < d.len() implies crate::bytes::lex_lt(
            k(#[trigger] d[i]),
            k(#[trigger] d[j]),
        ) by {
            assert(d[i] == s[i] && d[j] == s[j]);
        }
        if k(l) == k(e) {
            crate::text::utf8_injective(l.0, e.0);
            assert(r.drop_last() =~= d);
        } else if crate::bytes::lex_lt(k(l), k(e)) {
            assert(r.drop_last() =~= s);
        } else {
            lemma_member_put(d, e, name);
            assert(r.drop_last() =~= sorted_put(d, e, k));
            assert(r.last() == l);
            if l.0 == e.0 {
                assert(k(l) == k(e));
            }
        }
    }
}

/// A member of a record is the last one with its name.
pub proof fn record_member(m: Seq<(Seq<char>, JsonView)>, name: Seq<char>)
    ensures
        json_field(json_record(m), name) == member(m, name),
        sorted_by(sorted_put_all(m, member_key()), member_key()),
    decreases m.len(),
{
    if m.len() > 0 {
        let d = m.drop_last();
        record_member(d, name);
        lemma_member_put(sorted_put_all(d, member_key()), m.last(), name);
        crate::sorted::lemma_sorted_put_sorted(
            sorted_put_all(d, member_key()),
            m.last(),
            member_key(),
        );
    }
}

/// Builds a record of one more member.
pub fn with_member(m: Vec<(String, Value)>, name: &str, v: Value) -> (r: Vec<(String, Value)>)
    ensures
        member_views(r@) == member_views(m@).push((name@, json_view(v))),
{
    let mut m = m;
    let ghost before = member_views(m@);
    m.push((crate::text::text(name), v));
    assert(member_views(m@) =~= before.push((name@, json_view(v))));
    m
}

/// Builds a record of one more member that is a text.
pub fn with_text(m: Vec<(String, Value)>, name: &str, v: &str) -> (r: Vec<(String, Value)>)
    ensures
        member_views(r@) == member_views(m@).push((name@, JsonView::Str(v@))),
{
    with_member(m, name, json_string(crate::text::text(v)))
}

/// Builds a record of one more member that is a truth value.
pub fn with_truth(m: Vec<(String, Value)>, name: &str, v: bool) -> (r: Vec<(String, Value)>)
    ensures
        member_views(r@) == member_views(m@).push((name@, JsonView::Bool(v))),
{
    with_member(m, name, json_bool(v))
}

/// A record without members.
pub fn no_members() -> (r: Vec<(String, Value)>)
    ensures
        member_views(r@) == Seq::<(Seq<char>, JsonView)>::empty(),
{
    let r: Vec<(String, Value)> = Vec::new();
    assert(member_views(r@) =~= Seq::<(Seq<char>, JsonView)>::empty());
    r
}

/// Makes an object of members.
pub fn record_of_members(m: Vec<(String, Value)>) -> (r: Value)
    ensures
        json_view(r) == json_record(member_views(m@)),
{
    json_object(m)
}

/// The text of a member, or nothing in its place.
pub open spec fn text_or_empty(v: JsonView, name: Seq<char>) -> Seq<char> {
    match text_field(v, name) {
        Some(s) => s,
        None => Seq::empty(),
    }
}

/// Reads the text of a member, or nothing in its place.
pub fn get_text_or_empty(v: &Value, name: &str) -> (r: String)
    ensures
        r@ == text_or_empty(json_view(*v), name@),
{
    match get_text(v, name) {
        Some(s) => s,
        None => {
            let none = String::new();
            assert(none@ =~= Seq::<char>::empty());
            none
        },
    }
}

/// Reads the truth of a member, or another in its place.
pub fn get_truth_or(v: &Value, name: &str, other: bool) -> (r: bool)
    ensures
        r == match truth_field(json_view(*v), name@) {
            Some(b) => b,
            None => other,
        },
{
    match get_truth(v, name) {
        Some(b) => b,
        None => other,
    }
}

/// Sets a member of an object; another value stays as it is.
pub open spec fn with_field(v: JsonView, name: Seq<char>, x: JsonView) -> JsonView {
    match v {
        JsonView::Object(m) => json_record(m.push((name, x))),
        _ => v,
    }
}

/// Sets a member of an object; another value stays as it is.
pub fn set_field(v: Value, name: &str, x: Value) -> (r: Value)
    ensures
        json_view(r) == with_field(json_view(v), name@, json_view(x)),
{
    let copy = json_clone(&v);
    match json_node(v) {
        JsonNode::Object(m) => json_object(with_member(m, name, x)),
        _ => copy,
    }
}

/// Calls `Value::to_string`: the JSON text as a string.
#[verifier::external_body]
pub(crate) fn json_to_text(v: &Value) -> (r: String)
    ensures
        encode_utf8(r@) == json_bytes(json_view(*v)),
{
    v.to_string()
}

} // verus!

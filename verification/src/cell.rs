//! Cell values: a tag for the type and a payload.
//!
//! ```text
//! S    0x01 + UTF-8
//! N    0x02 + UTF-8
//! B    0x03 + bytes
//! BOOL 0x04 + 0x00 or 0x01
//! NULL 0x05
//! SS   0x06 + JSON array of strings
//! NS   0x07 + JSON array of strings
//! BS   0x08 + JSON array of base64 strings
//! L    0x09 + JSON array of attribute values
//! M    0x0A + JSON object of attribute values
//! ```
//!
//! Inside a list or a map an attribute value has the form that DynamoDB gives
//! it in JSON: an object with one member, whose name tells the type.

use serde_json::Value;
use vstd::prelude::*;
use vstd::string::*;
use vstd::utf8::encode_utf8;

use crate::bytes::{bytes_slice, push_bytes};
use crate::debug::{short_hex, short_hex_text};
use crate::error::{internal, ErrView, StorageError};
use crate::json::{
    all_plain, base64_bytes, base64_decode, base64_encode, base64_text, json_array, json_bool,
    json_bytes, json_from_slice, json_node, json_object, json_parsed, json_plain, json_single,
    json_string, json_strings, json_to_vec, json_view, json_views, lemma_strings_of,
    lemma_strings_plain, member_key, member_views, members_plain, reads_as, strings_of, texts_of,
    JsonNode, JsonView,
};
use crate::lists::reversed;
use crate::sorted::{lemma_sorted_put_all_sorted, sorted_by, sorted_put_all};
use crate::text::{cat2, decode_text, str_eq, text, utf8_decoded, utf8_round_trip, views};
use crate::value::{
    attr_views, bytes_key, entry_key, item_put, item_sorted, text_key, AttrView, AttributeValue,
    BytesSet, Item, ItemView, StringSet,
};

verus! {

pub const TAG_S: u8 = 0x01;

pub const TAG_N: u8 = 0x02;

pub const TAG_B: u8 = 0x03;

pub const TAG_BOOL: u8 = 0x04;

pub const TAG_NULL: u8 = 0x05;

pub const TAG_SS: u8 = 0x06;

pub const TAG_NS: u8 = 0x07;

pub const TAG_BS: u8 = 0x08;

pub const TAG_L: u8 = 0x09;

pub const TAG_M: u8 = 0x0A;

// ---------------------------------------------------------------------------
// Attribute values in JSON
// ---------------------------------------------------------------------------

/// An object with one member.
pub open spec fn single(name: Seq<char>, v: JsonView) -> JsonView {
    JsonView::Object(seq![(name, v)])
}

/// Byte strings, each in base64.
pub open spec fn base64_texts(s: Seq<Seq<u8>>) -> Seq<Seq<char>> {
    s.map_values(|b: Seq<u8>| base64_text(b))
}

/// An attribute value in JSON.
pub open spec fn attr_json(a: AttrView) -> JsonView
    decreases a,
{
    match a {
        AttrView::S(s) => single("S"@, JsonView::Str(s)),
        AttrView::N(s) => single("N"@, JsonView::Str(s)),
        AttrView::B(b) => single("B"@, JsonView::Str(base64_text(b))),
        AttrView::Bool(b) => single("BOOL"@, JsonView::Bool(b)),
        AttrView::Null => single("NULL"@, JsonView::Bool(true)),
        AttrView::SS(s) => single("SS"@, json_strings(s)),
        AttrView::NS(s) => single("NS"@, json_strings(s)),
        AttrView::BS(s) => single("BS"@, json_strings(base64_texts(s))),
        AttrView::L(l) => single("L"@, JsonView::Array(list_json(l))),
        AttrView::M(m) => single("M"@, JsonView::Object(map_json(m))),
    }
}

/// The elements of a list in JSON.
pub open spec fn list_json(l: Seq<AttrView>) -> Seq<JsonView>
    decreases l,
{
    if l.len() == 0 {
        Seq::empty()
    } else {
        list_json(l.drop_last()).push(attr_json(l.last()))
    }
}

/// The attributes of a map in JSON.
pub open spec fn map_json(m: ItemView) -> Seq<(Seq<char>, JsonView)>
    decreases m,
{
    if m.len() == 0 {
        Seq::empty()
    } else {
        map_json(m.drop_last()).push((m.last().0, attr_json(m.last().1)))
    }
}

/// An attribute value whose JSON is nested no deeper than `depth`.
pub open spec fn attr_nests(a: AttrView, depth: nat) -> bool
    decreases a,
{
    match a {
        AttrView::SS(_) => depth >= 2,
        AttrView::NS(_) => depth >= 2,
        AttrView::BS(_) => depth >= 2,
        AttrView::L(l) => depth >= 2 && list_nests(l, (depth - 2) as nat),
        AttrView::M(m) => depth >= 2 && map_nests(m, (depth - 2) as nat),
        _ => depth >= 1,
    }
}

pub open spec fn list_nests(l: Seq<AttrView>, depth: nat) -> bool
    decreases l,
{
    l.len() == 0 || (list_nests(l.drop_last(), depth) && attr_nests(l.last(), depth))
}

pub open spec fn map_nests(m: ItemView, depth: nat) -> bool
    decreases m,
{
    m.len() == 0 || (map_nests(m.drop_last(), depth) && attr_nests(m.last().1, depth))
}

/// A value whose cell can be read back: its JSON is not nested deeper than the
/// parser reads.
pub open spec fn cell_readable(a: AttrView) -> bool {
    match a {
        AttrView::L(l) => list_nests(l, 126),
        AttrView::M(m) => map_nests(m, 126),
        _ => true,
    }
}

/// The byte strings that base64 texts stand for, or the message of the first
/// error.
pub open spec fn base64_all(s: Seq<Seq<char>>) -> Result<Seq<Seq<u8>>, Seq<char>>
    decreases s.len(),
{
    if s.len() == 0 {
        Ok(Seq::empty())
    } else {
        match base64_all(s.drop_last()) {
            Err(e) => Err(e),
            Ok(l) => match base64_bytes(s.last()) {
                Err(e) => Err(e),
                Ok(b) => Ok(l.push(b)),
            },
        }
    }
}

/// The attribute value that a JSON value stands for.
pub open spec fn json_attr(j: JsonView) -> Option<AttrView>
    decreases j, 0nat,
{
    match j {
        JsonView::Object(m) => if m.len() == 1 {
            tagged_attr(m[0].0, m[0].1)
        } else {
            None
        },
        _ => None,
    }
}

/// The attribute value of the given type that a JSON value stands for.
pub open spec fn tagged_attr(tag: Seq<char>, v: JsonView) -> Option<AttrView>
    decreases v, 1nat,
{
    if tag == "S"@ {
        match v {
            JsonView::Str(s) => Some(AttrView::S(s)),
            _ => None,
        }
    } else if tag == "N"@ {
        match v {
            JsonView::Str(s) => Some(AttrView::N(s)),
            _ => None,
        }
    } else if tag == "B"@ {
        match v {
            JsonView::Str(s) => match base64_bytes(s) {
                Ok(b) => Some(AttrView::B(b)),
                Err(_) => None,
            },
            _ => None,
        }
    } else if tag == "BOOL"@ {
        match v {
            JsonView::Bool(b) => Some(AttrView::Bool(b)),
            _ => None,
        }
    } else if tag == "NULL"@ {
        match v {
            JsonView::Bool(b) => Some(AttrView::Null),
            _ => None,
        }
    } else if tag == "L"@ {
        match v {
            JsonView::Array(l) => match json_list(l) {
                Some(x) => Some(AttrView::L(x)),
                None => None,
            },
            _ => None,
        }
    } else if tag == "M"@ {
        match v {
            JsonView::Object(m) => match json_map(m) {
                Some(x) => Some(AttrView::M(x)),
                None => None,
            },
            _ => None,
        }
    } else {
        match v {
            JsonView::Array(l) => set_attr(tag, l),
            _ => None,
        }
    }
}

/// The set of the given type that a JSON array stands for.
pub open spec fn set_attr(tag: Seq<char>, l: Seq<JsonView>) -> Option<AttrView> {
    match strings_of(l) {
        None => None,
        Some(s) => if tag == "SS"@ {
            Some(AttrView::SS(sorted_put_all(s, text_key())))
        } else if tag == "NS"@ {
            Some(AttrView::NS(sorted_put_all(s, text_key())))
        } else if tag == "BS"@ {
            match base64_all(s) {
                Ok(b) => Some(AttrView::BS(sorted_put_all(b, bytes_key()))),
                Err(_) => None,
            }
        } else {
            None
        },
    }
}

/// The attribute values that the elements of a JSON array stand for.
pub open spec fn json_list(l: Seq<JsonView>) -> Option<Seq<AttrView>>
    decreases l, 0nat,
{
    if l.len() == 0 {
        Some(Seq::empty())
    } else {
        match (json_list(l.drop_last()), json_attr(l.last())) {
            (Some(s), Some(x)) => Some(s.push(x)),
            _ => None,
        }
    }
}

/// The attributes that the members of a JSON object stand for.
pub open spec fn json_map(m: Seq<(Seq<char>, JsonView)>) -> Option<ItemView>
    decreases m, 0nat,
{
    if m.len() == 0 {
        Some(Seq::empty())
    } else {
        match (json_map(m.drop_last()), json_attr(m.last().1)) {
            (Some(s), Some(x)) => Some(item_put(s, m.last().0, x)),
            _ => None,
        }
    }
}

// ---------------------------------------------------------------------------
// Encoding
// ---------------------------------------------------------------------------

/// The cell of an attribute value.
pub open spec fn cell_bytes(a: AttrView) -> Seq<u8> {
    match a {
        AttrView::S(s) => seq![TAG_S] + encode_utf8(s),
        AttrView::N(s) => seq![TAG_N] + encode_utf8(s),
        AttrView::B(b) => seq![TAG_B] + b,
        AttrView::Bool(b) => seq![
            TAG_BOOL,
            if b {
                1u8
            } else {
                0u8
            },
        ],
        AttrView::Null => seq![TAG_NULL],
        AttrView::SS(s) => seq![TAG_SS] + json_bytes(json_strings(s)),
        AttrView::NS(s) => seq![TAG_NS] + json_bytes(json_strings(s)),
        AttrView::BS(s) => seq![TAG_BS] + json_bytes(json_strings(base64_texts(s))),
        AttrView::L(l) => seq![TAG_L] + json_bytes(JsonView::Array(list_json(l))),
        AttrView::M(m) => seq![TAG_M] + json_bytes(JsonView::Object(map_json(m))),
    }
}

fn tagged(tag: u8, b: &[u8]) -> (r: Vec<u8>)
    ensures
        r@ == seq![tag] + b@,
{
    let mut out: Vec<u8> = Vec::with_capacity(b.len());
    out.push(tag);
    push_bytes(&mut out, b);
    assert(out@ =~= seq![tag] + b@);
    out
}

fn json_cell(tag: u8, v: &Value, what: &str) -> (r: Result<Vec<u8>, StorageError>)
    ensures
        r matches Ok(b) && b@ == seq![tag] + json_bytes(json_view(*v)) && (json_plain(
            json_view(*v),
            127,
        ) ==> json_parsed(b@.skip(1)) == reads_as(json_view(*v))),
{
    match json_to_vec(v) {
        Ok(b) => {
            let r = tagged(tag, b.as_slice());
            assert(r@.skip(1) =~= b@);
            Ok(r)
        },
        Err(e) => Err(internal(cat2(what, e.as_str()).as_str())),
    }
}

fn string_set_json(s: &StringSet) -> (r: Value)
    ensures
        json_view(r) == json_strings(s@),
        strings_of(json_strings(s@)->Array_0) == Some(s@),
        sorted_put_all(s@, text_key()) == s@,
        forall|d: nat| d >= 1 ==> #[trigger] json_plain(json_view(r), d),
{
    proof {
        lemma_strings_of(s@);
        assert forall|d: nat| d >= 1 implies #[trigger] json_plain(json_strings(s@), d) by {
            lemma_strings_plain(s@, d);
        }
    }
    let ghost goal = json_strings(s@)->Array_0;
    let mut out: Vec<Value> = Vec::new();
    let n: usize = s.len();
    proof {
        lemma_sorted_put_all_sorted(s@, text_key());
    }
    let mut i: usize = 0;
    while i < n
        invariant
            i <= n == s@.len(),
            goal == json_strings(s@)->Array_0,
            json_views(out@) == goal.take(i as int),
        decreases n - i,
    {
        let ghost before = json_views(out@);
        out.push(json_string(text(s.at(i).as_str())));
        i = i + 1;
        assert(json_views(out@) =~= before.push(JsonView::Str(s@[i - 1])));
        assert(goal.take(i as int) =~= before.push(JsonView::Str(s@[i - 1])));
    }
    assert(goal.take(i as int) =~= goal);
    json_array(out)
}

fn bytes_set_json(s: &BytesSet) -> (r: Value)
    ensures
        json_view(r) == json_strings(base64_texts(s@)),
        strings_of(json_strings(base64_texts(s@))->Array_0) == Some(base64_texts(s@)),
        base64_all(base64_texts(s@)) == Ok::<Seq<Seq<u8>>, Seq<char>>(s@),
        sorted_put_all(s@, bytes_key()) == s@,
        forall|d: nat| d >= 1 ==> #[trigger] json_plain(json_view(r), d),
{
    let ghost texts = base64_texts(s@);
    proof {
        lemma_strings_of(texts);
        assert forall|d: nat| d >= 1 implies #[trigger] json_plain(json_strings(texts), d) by {
            lemma_strings_plain(texts, d);
        }
    }
    let ghost goal = json_strings(texts)->Array_0;
    let mut out: Vec<Value> = Vec::new();
    let n: usize = s.len();
    proof {
        lemma_sorted_put_all_sorted(s@, bytes_key());
        assert(texts.take(0) =~= Seq::<Seq<char>>::empty());
        assert(s@.take(0) =~= Seq::<Seq<u8>>::empty());
    }
    let mut i: usize = 0;
    while i < n
        invariant
            i <= n == s@.len(),
            texts == base64_texts(s@),
            goal == json_strings(texts)->Array_0,
            json_views(out@) == goal.take(i as int),
            base64_all(texts.take(i as int)) == Ok::<Seq<Seq<u8>>, Seq<char>>(s@.take(i as int)),
        decreases n - i,
    {
        let ghost before = json_views(out@);
        out.push(json_string(base64_encode(s.at(i).as_slice())));
        i = i + 1;
        proof {
            assert(texts.take(i as int).drop_last() =~= texts.take(i - 1));
            assert(s@.take(i as int) =~= s@.take(i - 1).push(s@[i - 1]));
        }
        assert(json_views(out@) =~= before.push(JsonView::Str(base64_text(s@[i - 1]))));
        assert(goal.take(i as int) =~= before.push(JsonView::Str(base64_text(s@[i - 1]))));
    }
    assert(goal.take(i as int) =~= goal);
    assert(texts.take(i as int) =~= texts);
    assert(s@.take(i as int) =~= s@);
    json_array(out)
}

proof fn lemma_single_plain(name: Seq<char>, v: JsonView, d: nat)
    requires
        d >= 1,
        json_plain(v, (d - 1) as nat),
    ensures
        json_plain(single(name, v), d),
{
    let m = seq![(name, v)];
    assert(sorted_by(m, member_key()));
    assert(m.drop_last() =~= Seq::empty());
    assert(members_plain(m.drop_last(), (d - 1) as nat));
    assert(members_plain(m, (d - 1) as nat));
}

/// The names of the types are different.
proof fn lemma_tags_differ()
    ensures
        "S"@ != "N"@ && "S"@ != "B"@ && "N"@ != "B"@,
        "S"@.len() == 1 && "N"@.len() == 1 && "B"@.len() == 1 && "L"@.len() == 1 && "M"@.len() == 1,
        "L"@ != "M"@ && "L"@ != "S"@ && "L"@ != "N"@ && "L"@ != "B"@,
        "M"@ != "S"@ && "M"@ != "N"@ && "M"@ != "B"@,
        "BOOL"@.len() == 4 && "NULL"@.len() == 4 && "BOOL"@ != "NULL"@,
        "SS"@.len() == 2 && "NS"@.len() == 2 && "BS"@.len() == 2,
        "SS"@ != "NS"@ && "SS"@ != "BS"@ && "NS"@ != "BS"@,
{
    reveal_strlit("S");
    reveal_strlit("N");
    reveal_strlit("B");
    reveal_strlit("L");
    reveal_strlit("M");
    reveal_strlit("BOOL");
    reveal_strlit("NULL");
    reveal_strlit("SS");
    reveal_strlit("NS");
    reveal_strlit("BS");
    assert("S"@[0] == 'S');
    assert("N"@[0] == 'N');
    assert("B"@[0] == 'B');
    assert("L"@[0] == 'L');
    assert("M"@[0] == 'M');
    assert("BOOL"@[0] == 'B');
    assert("NULL"@[0] == 'N');
    assert("SS"@[0] == 'S');
    assert("NS"@[0] == 'N');
    assert("BS"@[0] == 'B');
}

/// An object with one member, which tells the type of an attribute value.
fn wrapped(name: &str, v: Value) -> (r: Value)
    ensures
        json_view(r) == single(name@, json_view(v)),
        json_attr(json_view(r)) == tagged_attr(name@, json_view(v)),
        forall|d: nat|
            d >= 1 && json_plain(json_view(v), (d - 1) as nat) ==> #[trigger] json_plain(
                json_view(r),
                d,
            ),
{
    proof {
        let j = json_view(v);
        assert forall|d: nat| d >= 1 && json_plain(j, (d - 1) as nat) implies
            #[trigger] json_plain(single(name@, j), d) by {
            lemma_single_plain(name@, j, d);
        }
        assert(json_attr(single(name@, j)) == tagged_attr(name@, j));
    }
    json_single(name, v)
}

/// Writes an attribute value in JSON. The value can be read back from it.
pub fn attr_to_json(a: &AttributeValue) -> (r: Value)
    ensures
        json_view(r) == attr_json(a@),
        json_attr(json_view(r)) == Some(a@),
        forall|d: nat| #[trigger] attr_nests(a@, d) ==> json_plain(json_view(r), d),
    decreases a, 0nat,
{
    proof {
        lemma_tags_differ();
    }
    match a {
        AttributeValue::S(s) => scalar("S", json_string(text(s.as_str())), Ghost(a@)),
        AttributeValue::N(s) => scalar("N", json_string(text(s.as_str())), Ghost(a@)),
        AttributeValue::B(b) => scalar("B", json_string(base64_encode(b.as_slice())), Ghost(a@)),
        AttributeValue::Bool(b) => scalar("BOOL", json_bool(*b), Ghost(a@)),
        AttributeValue::Null => scalar("NULL", json_bool(true), Ghost(a@)),
        AttributeValue::SS(s) => wrapped("SS", string_set_json(s)),
        AttributeValue::NS(s) => wrapped("NS", string_set_json(s)),
        AttributeValue::BS(s) => wrapped("BS", bytes_set_json(s)),
        AttributeValue::L(l) => {
            let ghost v = a@->L_0;
            assert(attr_views(l@) =~= v);
            assert(decreases_to!(a => a->L_0));
            let j = list_to_json(l);
            let r = wrapped("L", j);
            assert forall|d: nat| #[trigger] attr_nests(a@, d) implies json_plain(
                json_view(r),
                d,
            ) by {
                assert(list_nests(v, (d - 2) as nat));
                assert((d - 2) as nat + 1 == (d - 1) as nat);
                assert(json_plain(json_view(j), (d - 1) as nat));
            }
            r
        },
        AttributeValue::M(m) => {
            assert(decreases_to!(a => a->M_0));
            let j = item_to_json(m);
            let r = wrapped("M", j);
            assert forall|d: nat| #[trigger] attr_nests(a@, d) implies json_plain(
                json_view(r),
                d,
            ) by {
                assert(map_nests(m@, (d - 2) as nat));
                assert((d - 2) as nat + 1 == (d - 1) as nat);
                assert(json_plain(json_view(j), (d - 1) as nat));
            }
            r
        },
    }
}

/// An attribute value that is neither a set nor holds others.
fn scalar(name: &str, v: Value, Ghost(a): Ghost<AttrView>) -> (r: Value)
    requires
        json_view(v) is Str || json_view(v) is Bool,
        attr_json(a) == single(name@, json_view(v)),
        a is S || a is N || a is B || a is Bool || a is Null,
    ensures
        json_view(r) == single(name@, json_view(v)),
        json_attr(json_view(r)) == tagged_attr(name@, json_view(v)),
        forall|d: nat| #[trigger] attr_nests(a, d) ==> json_plain(json_view(r), d),
{
    let r = wrapped(name, v);
    assert forall|d: nat| #[trigger] attr_nests(a, d) implies json_plain(json_view(r), d) by {
        assert(json_plain(json_view(v), (d - 1) as nat));
    }
    r
}

/// Writes a list of attribute values in JSON. The list can be read back from
/// it.
pub fn list_to_json(l: &Vec<AttributeValue>) -> (r: Value)
    ensures
        json_view(r) == JsonView::Array(list_json(attr_views(l@))),
        json_list(list_json(attr_views(l@))) == Some(attr_views(l@)),
        forall|d: nat| #[trigger]
            list_nests(attr_views(l@), d) ==> json_plain(json_view(r), d + 1),
    decreases l, 1nat,
{
    let ghost v = attr_views(l@);
    let mut out: Vec<Value> = Vec::new();
    let mut i: usize = 0;
    assert(v.take(0) =~= Seq::empty());
    assert(json_views(out@) =~= list_json(v.take(0)));
    while i < l.len()
        invariant
            i <= l.len(),
            v == attr_views(l@),
            json_views(out@) == list_json(v.take(i as int)),
            json_list(list_json(v.take(i as int))) == Some(v.take(i as int)),
            forall|d: nat| #[trigger]
                list_nests(v.take(i as int), d) ==> all_plain(list_json(v.take(i as int)), d),
        decreases l.len() - i,
    {
        let ghost before = json_views(out@);
        let e = &l[i];
        assert(decreases_to!(l => l@[i as int]));
        let j = attr_to_json(e);
        out.push(j);
        i = i + 1;
        proof {
            let t = v.take(i as int);
            assert(t.drop_last() =~= v.take(i - 1));
            assert(json_views(out@) =~= before.push(attr_json(v[i - 1])));
            assert(list_json(t).drop_last() =~= list_json(v.take(i - 1)));
            assert(v.take(i - 1).push(v[i - 1]) =~= t);
            assert forall|d: nat| #[trigger] list_nests(t, d) implies all_plain(
                list_json(t),
                d,
            ) by {
                assert(list_nests(v.take(i - 1), d));
                assert(attr_nests(v[i - 1], d));
            }
        }
    }
    assert(v.take(i as int) =~= v);
    json_array(out)
}

proof fn lemma_map_json(m: ItemView)
    ensures
        map_json(m).len() == m.len(),
        forall|i: int|
            0 <= i < m.len() ==> (#[trigger] map_json(m)[i]) == (m[i].0, attr_json(m[i].1)),
    decreases m.len(),
{
    if m.len() > 0 {
        lemma_map_json(m.drop_last());
    }
}

proof fn lemma_map_json_sorted(m: ItemView)
    requires
        item_sorted(m),
    ensures
        sorted_by(map_json(m), member_key()),
{
    lemma_map_json(m);
    let j = map_json(m);
    assert forall|a: int, b: int| 0 <= a < b < j.len() implies crate::bytes::lex_lt(
        member_key()(#[trigger] j[a]),
        member_key()(#[trigger] j[b]),
    ) by {
        assert(crate::bytes::lex_lt(entry_key()(m[a]), entry_key()(m[b])));
    }
}

/// Writes an item in JSON. The item can be read back from it.
pub fn item_to_json(m: &Item) -> (r: Value)
    ensures
        json_view(r) == JsonView::Object(map_json(m@)),
        json_map(map_json(m@)) == Some(m@),
        forall|d: nat| #[trigger] map_nests(m@, d) ==> json_plain(json_view(r), d + 1),
    decreases m, 1nat,
{
    let ghost v = m@;
    let n: usize = m.len();
    let mut out: Vec<(String, Value)> = Vec::new();
    let mut i: usize = 0;
    assert(v.take(0) =~= Seq::empty());
    assert(member_views(out@) =~= map_json(v.take(0)));
    while i < n
        invariant
            i <= n == v.len(),
            v == m@,
            item_sorted(v),
            member_views(out@) == map_json(v.take(i as int)),
            json_map(map_json(v.take(i as int))) == Some(v.take(i as int)),
            forall|d: nat| #[trigger]
                map_nests(v.take(i as int), d) ==> members_plain(map_json(v.take(i as int)), d),
        decreases n - i,
    {
        let ghost before = member_views(out@);
        let e = m.value_at(i);
        let j = attr_to_json(e);
        out.push((text(m.name_at(i).as_str()), j));
        i = i + 1;
        proof {
            let t = v.take(i as int);
            let p = v.take(i - 1);
            assert(t.drop_last() =~= p);
            assert(member_views(out@) =~= before.push((v[i - 1].0, attr_json(v[i - 1].1))));
            assert(map_json(t).drop_last() =~= map_json(p));
            if p.len() > 0 {
                assert(crate::bytes::lex_lt(entry_key()(v[i - 2]), entry_key()(v[i - 1])));
            }
            crate::sorted::lemma_sorted_put_end(p, v[i - 1], entry_key());
            assert(p.push(v[i - 1]) =~= t);
            assert forall|d: nat| #[trigger] map_nests(t, d) implies members_plain(
                map_json(t),
                d,
            ) by {
                assert(map_nests(p, d));
                assert(attr_nests(v[i - 1].1, d));
            }
        }
    }
    proof {
        assert(v.take(i as int) =~= v);
        lemma_map_json_sorted(v);
        lemma_sorted_put_all_sorted(map_json(v), member_key());
    }
    json_object(out)
}

/// Encodes an attribute value as a cell. Decoding the cell gives the value
/// back.
pub fn encode(av: &AttributeValue) -> (r: Result<Vec<u8>, StorageError>)
    ensures
        r matches Ok(b) && b@ == cell_bytes(av@) && (cell_readable(av@) ==> cell_value(b@) == Ok::<
            AttrView,
            ErrView,
        >(av@)),
{
    match av {
        AttributeValue::S(s) => {
            let b = tagged(TAG_S, s.as_str().as_bytes());
            proof {
                assert(b@.skip(1) =~= encode_utf8(s@));
                utf8_round_trip(s@);
            }
            Ok(b)
        },
        AttributeValue::N(s) => {
            let b = tagged(TAG_N, s.as_str().as_bytes());
            proof {
                assert(b@.skip(1) =~= encode_utf8(s@));
                utf8_round_trip(s@);
            }
            Ok(b)
        },
        AttributeValue::B(x) => {
            let b = tagged(TAG_B, x.as_slice());
            assert(b@.skip(1) =~= x@);
            Ok(b)
        },
        AttributeValue::Bool(b) => {
            let mut out: Vec<u8> = Vec::new();
            out.push(TAG_BOOL);
            out.push(
                if *b {
                    1
                } else {
                    0
                },
            );
            assert(out@ =~= cell_bytes(av@));
            Ok(out)
        },
        AttributeValue::Null => {
            let mut out: Vec<u8> = Vec::new();
            out.push(TAG_NULL);
            assert(out@ =~= cell_bytes(av@));
            Ok(out)
        },
        AttributeValue::SS(s) => json_cell(TAG_SS, &string_set_json(s), "encode SS: "),
        AttributeValue::NS(s) => json_cell(TAG_NS, &string_set_json(s), "encode NS: "),
        AttributeValue::BS(s) => json_cell(TAG_BS, &bytes_set_json(s), "encode BS: "),
        AttributeValue::L(l) => {
            assert(attr_views(l@) =~= av@->L_0);
            let j = list_to_json(l);
            assert(list_nests(attr_views(l@), 126) ==> json_plain(json_view(j), 127));
            json_cell(TAG_L, &j, "encode L: ")
        },
        AttributeValue::M(m) => {
            let j = item_to_json(m);
            assert(map_nests(m@, 126) ==> json_plain(json_view(j), 127));
            json_cell(TAG_M, &j, "encode M: ")
        },
    }
}

// ---------------------------------------------------------------------------
// Decoding
// ---------------------------------------------------------------------------

/// Puts strings into a set.
fn string_set(v: Vec<String>) -> (r: StringSet)
    ensures
        r@ == sorted_put_all(views(v@), text_key()),
{
    let ghost all = views(v@);
    let mut set = StringSet::new();
    let mut i: usize = 0;
    assert(all.take(0) =~= Seq::<Seq<char>>::empty());
    while i < v.len()
        invariant
            i <= v.len(),
            all == views(v@),
            set@ == sorted_put_all(all.take(i as int), text_key()),
        decreases v.len() - i,
    {
        set.insert(text(v[i].as_str()));
        i = i + 1;
        assert(all.take(i as int).drop_last() =~= all.take(i - 1));
    }
    assert(all.take(i as int) =~= all);
    set
}

/// Decodes base64 texts and puts the byte strings into a set.
fn bytes_set(v: Vec<String>) -> (r: Result<BytesSet, String>)
    ensures
        match r {
            Ok(s) => base64_all(views(v@)) matches Ok(l) && s@ == sorted_put_all(l, bytes_key()),
            Err(e) => base64_all(views(v@)) == Err::<Seq<Seq<u8>>, Seq<char>>(e@),
        },
{
    let ghost all = views(v@);
    let mut set = BytesSet::new();
    let mut i: usize = 0;
    assert(all.take(0) =~= Seq::<Seq<char>>::empty());
    let ghost mut done = Seq::<Seq<u8>>::empty();
    while i < v.len()
        invariant
            i <= v.len(),
            all == views(v@),
            base64_all(all.take(i as int)) == Ok::<Seq<Seq<u8>>, Seq<char>>(done),
            set@ == sorted_put_all(done, bytes_key()),
        decreases v.len() - i,
    {
        assert(all.take(i + 1).drop_last() =~= all.take(i as int));
        match base64_decode(v[i].as_str()) {
            Ok(b) => {
                proof {
                    let next = done.push(b@);
                    assert(next.drop_last() =~= done);
                    done = next;
                }
                set.insert(b);
            },
            Err(e) => {
                proof {
                    lemma_base64_all_err(all, i + 1, e@);
                }
                return Err(e);
            },
        }
        i = i + 1;
    }
    assert(all.take(i as int) =~= all);
    Ok(set)
}

proof fn lemma_base64_all_err(s: Seq<Seq<char>>, k: int, e: Seq<char>)
    requires
        0 <= k <= s.len(),
        base64_all(s.take(k)) == Err::<Seq<Seq<u8>>, Seq<char>>(e),
    ensures
        base64_all(s) == Err::<Seq<Seq<u8>>, Seq<char>>(e),
    decreases s.len() - k,
{
    if k == s.len() {
        assert(s.take(k) =~= s);
    } else {
        assert(s.take(k + 1).drop_last() =~= s.take(k));
        lemma_base64_all_err(s, k + 1, e);
    }
}

pub open spec fn opt_attr(a: Option<AttributeValue>) -> Option<AttrView> {
    match a {
        Some(v) => Some(v@),
        None => None,
    }
}

/// Reads an attribute value from JSON.
pub fn attr_from_json(v: Value) -> (r: Option<AttributeValue>)
    ensures
        opt_attr(r) == json_attr(json_view(v)),
    decreases json_view(v), 0nat,
{
    let ghost j = json_view(v);
    match json_node(v) {
        JsonNode::Object(m) => {
            let mut m = m;
            if m.len() != 1 {
                return None;
            }
            let ghost e = m@[0];
            match m.pop() {
                None => None,
                Some((tag, x)) => {
                    proof {
                        assert(j->Object_0[0] == (tag@, json_view(x)));
                        assert(decreases_to!(j => j->Object_0[0].1));
                    }
                    attr_from_tagged(tag, x)
                },
            }
        },
        _ => None,
    }
}

fn attr_from_tagged(tag: String, v: Value) -> (r: Option<AttributeValue>)
    ensures
        opt_attr(r) == tagged_attr(tag@, json_view(v)),
    decreases json_view(v), 1nat,
{
    let ghost j = json_view(v);
    let node = json_node(v);
    if str_eq(tag.as_str(), "S") {
        match node {
            JsonNode::Str(s) => Some(AttributeValue::S(s)),
            _ => None,
        }
    } else if str_eq(tag.as_str(), "N") {
        match node {
            JsonNode::Str(s) => Some(AttributeValue::N(s)),
            _ => None,
        }
    } else if str_eq(tag.as_str(), "B") {
        match node {
            JsonNode::Str(s) => match base64_decode(s.as_str()) {
                Ok(b) => Some(AttributeValue::B(b)),
                Err(_) => None,
            },
            _ => None,
        }
    } else if str_eq(tag.as_str(), "BOOL") {
        match node {
            JsonNode::Bool(b) => Some(AttributeValue::Bool(b)),
            _ => None,
        }
    } else if str_eq(tag.as_str(), "NULL") {
        match node {
            JsonNode::Bool(_) => Some(AttributeValue::Null),
            _ => None,
        }
    } else if str_eq(tag.as_str(), "L") {
        match node {
            JsonNode::Array(l) => {
                assert(decreases_to!(j => j->Array_0));
                match list_from_json(l) {
                    Some(x) => {
                        let r = AttributeValue::L(x);
                        assert(r@->L_0 =~= attr_views(x@));
                        Some(r)
                    },
                    None => None,
                }
            },
            _ => None,
        }
    } else if str_eq(tag.as_str(), "M") {
        match node {
            JsonNode::Object(m) => {
                assert(decreases_to!(j => j->Object_0));
                match item_from_members(m) {
                    Some(x) => Some(AttributeValue::M(x)),
                    None => None,
                }
            },
            _ => None,
        }
    } else {
        match node {
            JsonNode::Array(l) => match texts_of(l) {
                None => None,
                Some(s) => if str_eq(tag.as_str(), "SS") {
                    Some(AttributeValue::SS(string_set(s)))
                } else if str_eq(tag.as_str(), "NS") {
                    Some(AttributeValue::NS(string_set(s)))
                } else if str_eq(tag.as_str(), "BS") {
                    match bytes_set(s) {
                        Ok(b) => Some(AttributeValue::BS(b)),
                        Err(_) => None,
                    }
                } else {
                    None
                },
            },
            _ => None,
        }
    }
}

/// Reads a list of attribute values from the elements of a JSON array.
pub fn list_from_json(l: Vec<Value>) -> (r: Option<Vec<AttributeValue>>)
    ensures
        json_list(json_views(l@)) == match r {
            Some(v) => Some(attr_views(v@)),
            None => None,
        },
    decreases json_views(l@), 1nat,
{
    let ghost all = json_views(l@);
    let ghost orig = l@;
    let mut rest = reversed(l);
    let mut out: Vec<AttributeValue> = Vec::new();
    let mut ok: bool = true;
    let ghost mut i: int = 0;
    assert(all.take(0) =~= Seq::<JsonView>::empty());
    assert(attr_views(out@) =~= Seq::<AttrView>::empty());
    while rest.len() > 0
        invariant
            0 <= i <= all.len(),
            all == json_views(orig),
            all == json_views(l@),
            rest@ == orig.skip(i).reverse(),
            json_list(all.take(i)) == if ok {
                Some(attr_views(out@))
            } else {
                None::<Seq<AttrView>>
            },
        decreases rest.len(),
    {
        match rest.pop() {
            None => {},
            Some(v) => {
                proof {
                    assert(v == orig[i]);
                    assert(all.take(i + 1).drop_last() =~= all.take(i));
                    assert(all.take(i + 1).last() == json_view(v));
                    assert(rest@ =~= orig.skip(i + 1).reverse());
                    assert(json_views(l@)[i] == json_view(v));
                    assert(decreases_to!(json_views(l@) => json_views(l@)[i]));
                    i = i + 1;
                }
                match attr_from_json(v) {
                    Some(a) => {
                        let ghost before = attr_views(out@);
                        out.push(a);
                        assert(attr_views(out@) =~= before.push(a@));
                    },
                    None => {
                        ok = false;
                    },
                }
            },
        }
    }
    assert(all.take(i) =~= all);
    if ok {
        Some(out)
    } else {
        None
    }
}

/// Reads an item from the members of a JSON object.
pub fn item_from_members(m: Vec<(String, Value)>) -> (r: Option<Item>)
    ensures
        json_map(member_views(m@)) == match r {
            Some(v) => Some(v@),
            None => None,
        },
    decreases member_views(m@), 1nat,
{
    let ghost all = member_views(m@);
    let ghost orig = m@;
    let mut rest = reversed(m);
    let mut out = Item::new();
    let mut ok: bool = true;
    let ghost mut i: int = 0;
    assert(all.take(0) =~= Seq::<(Seq<char>, JsonView)>::empty());
    while rest.len() > 0
        invariant
            0 <= i <= all.len(),
            all == member_views(orig),
            all == member_views(m@),
            rest@ == orig.skip(i).reverse(),
            json_map(all.take(i)) == if ok {
                Some(out@)
            } else {
                None::<ItemView>
            },
        decreases rest.len(),
    {
        match rest.pop() {
            None => {},
            Some((name, v)) => {
                proof {
                    assert((name, v) == orig[i]);
                    assert(all.take(i + 1).drop_last() =~= all.take(i));
                    assert(all.take(i + 1).last() == (name@, json_view(v)));
                    assert(rest@ =~= orig.skip(i + 1).reverse());
                    assert(member_views(m@)[i].1 == json_view(v));
                    assert(decreases_to!(member_views(m@) => member_views(m@)[i]));
                    assert(decreases_to!(member_views(m@)[i] => member_views(m@)[i].1));
                    i = i + 1;
                }
                match attr_from_json(v) {
                    Some(a) => {
                        out.insert(name, a);
                    },
                    None => {
                        ok = false;
                    },
                }
            },
        }
    }
    assert(all.take(i) =~= all);
    if ok {
        Some(out)
    } else {
        None
    }
}

/// The strings that a JSON text holds as an array, or the error.
pub open spec fn payload_strings(what: Seq<char>, b: Seq<u8>) -> Result<Seq<Seq<char>>, ErrView> {
    match json_parsed(b) {
        Err(e) => Err(ErrView::Internal(what + e)),
        Ok(j) => match j {
            JsonView::Array(l) => match strings_of(l) {
                Some(s) => Ok(s),
                None => Err(ErrView::Internal(what + "expected an array of strings"@)),
            },
            _ => Err(ErrView::Internal(what + "expected an array of strings"@)),
        },
    }
}

/// The attribute value that a cell holds.
pub open spec fn cell_value(b: Seq<u8>) -> Result<AttrView, ErrView> {
    let payload = b.skip(1);
    if b.len() == 0 {
        Err(ErrView::Internal("cell payload empty (no type tag)"@))
    } else if b[0] == TAG_S {
        match utf8_decoded(payload) {
            Ok(s) => Ok(AttrView::S(s)),
            Err(e) => Err(ErrView::Internal("decode S: "@ + e)),
        }
    } else if b[0] == TAG_N {
        match utf8_decoded(payload) {
            Ok(s) => Ok(AttrView::N(s)),
            Err(e) => Err(ErrView::Internal("decode N: "@ + e)),
        }
    } else if b[0] == TAG_B {
        Ok(AttrView::B(payload))
    } else if b[0] == TAG_BOOL {
        Ok(AttrView::Bool(payload.len() > 0 && payload[0] != 0))
    } else if b[0] == TAG_NULL {
        Ok(AttrView::Null)
    } else if b[0] == TAG_SS {
        match payload_strings("decode SS: "@, payload) {
            Ok(s) => Ok(AttrView::SS(sorted_put_all(s, text_key()))),
            Err(e) => Err(e),
        }
    } else if b[0] == TAG_NS {
        match payload_strings("decode NS: "@, payload) {
            Ok(s) => Ok(AttrView::NS(sorted_put_all(s, text_key()))),
            Err(e) => Err(e),
        }
    } else if b[0] == TAG_BS {
        match payload_strings("decode BS: "@, payload) {
            Ok(s) => match base64_all(s) {
                Ok(l) => Ok(AttrView::BS(sorted_put_all(l, bytes_key()))),
                Err(e) => Err(ErrView::Internal("decode BS b64: "@ + e)),
            },
            Err(e) => Err(e),
        }
    } else if b[0] == TAG_L {
        match json_parsed(payload) {
            Err(e) => Err(ErrView::Internal("decode L: "@ + e)),
            Ok(JsonView::Array(l)) => match json_list(l) {
                Some(x) => Ok(AttrView::L(x)),
                None => Err(ErrView::Internal("decode L: expected attribute values"@)),
            },
            Ok(_) => Err(ErrView::Internal("decode L: expected attribute values"@)),
        }
    } else if b[0] == TAG_M {
        match json_parsed(payload) {
            Err(e) => Err(ErrView::Internal("decode M: "@ + e)),
            Ok(JsonView::Object(m)) => match json_map(m) {
                Some(x) => Ok(AttrView::M(x)),
                None => Err(ErrView::Internal("decode M: expected attribute values"@)),
            },
            Ok(_) => Err(ErrView::Internal("decode M: expected attribute values"@)),
        }
    } else {
        Err(ErrView::Internal("unknown cell type tag "@ + short_hex(b[0])))
    }
}

fn read_strings(what: &str, b: &[u8]) -> (r: Result<Vec<String>, StorageError>)
    ensures
        match r {
            Ok(v) => payload_strings(what@, b@) == Ok::<Seq<Seq<char>>, ErrView>(views(v@)),
            Err(e) => payload_strings(what@, b@) == Err::<Seq<Seq<char>>, ErrView>(e@),
        },
{
    match json_from_slice(b) {
        Err(e) => Err(internal(cat2(what, e.as_str()).as_str())),
        Ok(v) => match json_node(v) {
            JsonNode::Array(l) => match texts_of(l) {
                Some(s) => Ok(s),
                None => Err(internal(cat2(what, "expected an array of strings").as_str())),
            },
            _ => Err(internal(cat2(what, "expected an array of strings").as_str())),
        },
    }
}

/// Decodes a cell.
pub fn decode(bytes: &[u8]) -> (r: Result<AttributeValue, StorageError>)
    ensures
        match r {
            Ok(v) => cell_value(bytes@) == Ok::<AttrView, ErrView>(v@),
            Err(e) => cell_value(bytes@) == Err::<AttrView, ErrView>(e@),
        },
{
    if bytes.len() == 0 {
        return Err(internal("cell payload empty (no type tag)"));
    }
    let tag: u8 = bytes[0];
    let payload = bytes_slice(bytes, 1, bytes.len());
    assert(payload@ =~= bytes@.skip(1));
    if tag == TAG_S {
        match decode_text(payload.as_slice()) {
            Ok(s) => Ok(AttributeValue::S(s)),
            Err(e) => Err(internal(cat2("decode S: ", e.as_str()).as_str())),
        }
    } else if tag == TAG_N {
        match decode_text(payload.as_slice()) {
            Ok(s) => Ok(AttributeValue::N(s)),
            Err(e) => Err(internal(cat2("decode N: ", e.as_str()).as_str())),
        }
    } else if tag == TAG_B {
        Ok(AttributeValue::B(payload))
    } else if tag == TAG_BOOL {
        Ok(AttributeValue::Bool(payload.len() > 0 && payload[0] != 0))
    } else if tag == TAG_NULL {
        Ok(AttributeValue::Null)
    } else if tag == TAG_SS {
        match read_strings("decode SS: ", payload.as_slice()) {
            Ok(s) => Ok(AttributeValue::SS(string_set(s))),
            Err(e) => Err(e),
        }
    } else if tag == TAG_NS {
        match read_strings("decode NS: ", payload.as_slice()) {
            Ok(s) => Ok(AttributeValue::NS(string_set(s))),
            Err(e) => Err(e),
        }
    } else if tag == TAG_BS {
        match read_strings("decode BS: ", payload.as_slice()) {
            Ok(s) => match bytes_set(s) {
                Ok(b) => Ok(AttributeValue::BS(b)),
                Err(e) => Err(internal(cat2("decode BS b64: ", e.as_str()).as_str())),
            },
            Err(e) => Err(e),
        }
    } else if tag == TAG_L {
        match json_from_slice(payload.as_slice()) {
            Err(e) => Err(internal(cat2("decode L: ", e.as_str()).as_str())),
            Ok(v) => match json_node(v) {
                JsonNode::Array(l) => match list_from_json(l) {
                    Some(x) => {
                        let r = AttributeValue::L(x);
                        assert(r@->L_0 =~= attr_views(x@));
                        Ok(r)
                    },
                    None => Err(internal("decode L: expected attribute values")),
                },
                _ => Err(internal("decode L: expected attribute values")),
            },
        }
    } else if tag == TAG_M {
        match json_from_slice(payload.as_slice()) {
            Err(e) => Err(internal(cat2("decode M: ", e.as_str()).as_str())),
            Ok(v) => match json_node(v) {
                JsonNode::Object(m) => match item_from_members(m) {
                    Some(x) => Ok(AttributeValue::M(x)),
                    None => Err(internal("decode M: expected attribute values")),
                },
                _ => Err(internal("decode M: expected attribute values")),
            },
        }
    } else {
        Err(internal(cat2("unknown cell type tag ", short_hex_text(tag).as_str()).as_str()))
    }
}

/// A text, a number, bytes, a truth value and nothing are read from a cell as they
/// were written. So is a set of texts or of numbers that is in order, where the JSON
/// text of its elements reads back.
pub proof fn values_read_back(a: AttrView)
    requires
        a is S || a is N || a is B || a is Bool || a is Null || a is SS || a is NS,
        a matches AttrView::SS(s) ==> sorted_put_all(s, text_key()) == s && json_parsed(
            json_bytes(json_strings(s)),
        ) == reads_as(json_strings(s)),
        a matches AttrView::NS(s) ==> sorted_put_all(s, text_key()) == s && json_parsed(
            json_bytes(json_strings(s)),
        ) == reads_as(json_strings(s)),
    ensures
        cell_value(cell_bytes(a)) == Ok::<AttrView, ErrView>(a),
{
    let b = cell_bytes(a);
    match a {
        AttrView::S(s) => {
            utf8_round_trip(s);
            assert(b.skip(1) =~= encode_utf8(s));
        },
        AttrView::N(s) => {
            utf8_round_trip(s);
            assert(b.skip(1) =~= encode_utf8(s));
        },
        AttrView::B(x) => {
            assert(b.skip(1) =~= x);
        },
        AttrView::SS(s) => {
            lemma_strings_of(s);
            assert(b.skip(1) =~= json_bytes(json_strings(s)));
        },
        AttrView::NS(s) => {
            lemma_strings_of(s);
            assert(b.skip(1) =~= json_bytes(json_strings(s)));
        },
        _ => {},
    }
}

} // verus!

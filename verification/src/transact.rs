//! The coordinator of transactional writes.
//!
//! A transaction has a row in the log table. Its state is
//!
//! - `PENDING` while intents are being placed on the rows that take part,
//! - `COMMITTED` once every condition held and every intent was placed,
//! - `CLEANED` once every change was made and every intent cleared,
//! - `ABORTED` where intents could not be cleared in a rollback.
//!
//! An intent is a cell of the family `m` under `intent:<transaction>`. It is
//! placed only where no other recent intent is, so that at most one transaction
//! holds a row at a time.

use serde_json::Value;
use vstd::prelude::*;
use vstd::string::*;
use vstd::utf8::{encode_utf8, is_ascii_chars_encode_utf8};

use crate::bigtable::{
    applied, cell_views, delete_from_column, delete_row_mutations, in_column,
    lemma_newest_of_column, lemma_newest_of_concat, lemma_without_column, mut_views, newest,
    newest_of, row_deletion, row_views, set_cell, set_cell_view, table_path, without_column,
    BigtableClient, CellView, CheckAndMutateRowRequest, CheckView, MutView, MutateRowRequest,
    MutateView, Mutation, RangeView, ReadRowsRequest, ReadView, Row, RowCell, RowView,
};
use crate::bytes::{bytes_copy, bytes_eq};
use crate::cell::{item_from_members, item_to_json, json_map, map_json, map_nests};
use crate::error::{internal, ErrView, StorageError};
use crate::filter::{
    cell_passes, cells_passing, chain, family_filter, lemma_cells_passing, lemma_filter_views,
    matches_row, newest_filter, passed, passed_chain, qualifier_filter, since_filter, unanchored,
    FilterView, RowFilter,
};
use crate::gsi::opt_bytes;
use crate::item_ops::{intent_qualifier, larger};
use crate::json::{
    all_plain, get_text, is_integer_text, json_array, json_bytes, json_clone, json_field,
    json_from_slice, json_get, json_node, json_object, json_parsed, json_plain, json_single,
    json_string, json_to_vec, json_u64, json_view, json_views, member, member_key, member_views,
    members_plain, reads_as, text_field, JsonNode, JsonView,
};
use crate::lists::{lemma_next, reversed};
use crate::sorted::{lemma_sorted_put_all_sorted, sorted_by, sorted_put_all};
use crate::text::{
    all_digits, cat2, decimal, decode_text, i64_text, lemma_dec_value_nonneg, numeral_round_trip,
    parse_i64, parse_signed, parse_u64, parse_unsigned, signed_decimal, str_eq, text, text_bytes,
    utf8_decoded, utf8_injective, utf8_round_trip,
};
use crate::value::{Item, ItemView};

verus! {

/// The table of the log.
pub const TXN_LOG_TABLE: &'static str = "__extenddb_txn_log__";

/// The family of the log.
pub const TXN_FAMILY: &'static str = "t";

/// The family of intents.
pub const INTENT_FAMILY: &'static str = "m";

/// What the columns of intents begin with.
pub const INTENT_QUALIFIER_PREFIX: &'static str = "intent:";

pub const STATE_PENDING: &'static str = "PENDING";

pub const STATE_COMMITTED: &'static str = "COMMITTED";

pub const STATE_CLEANED: &'static str = "CLEANED";

pub const STATE_ABORTED: &'static str = "ABORTED";

// ---------------------------------------------------------------------------
// Participants
// ---------------------------------------------------------------------------

/// A row that takes part in a transaction.
#[derive(Debug, PartialEq, Eq)]
pub struct ParticipantRow {
    pub data_table: String,
    pub row_key: Vec<u8>,
}

/// What a participant is.
pub struct PartView {
    pub table: Seq<char>,
    pub key: Seq<u8>,
}

impl ParticipantRow {
    pub open spec fn view(&self) -> PartView {
        PartView { table: self.data_table@, key: self.row_key@ }
    }
}

impl Clone for ParticipantRow {
    fn clone(&self) -> (r: ParticipantRow)
        ensures
            r@ == self@,
    {
        ParticipantRow {
            data_table: text(self.data_table.as_str()),
            row_key: bytes_copy(self.row_key.as_slice()),
        }
    }
}

pub open spec fn part_views(p: Seq<ParticipantRow>) -> Seq<PartView> {
    p.map_values(|x: ParticipantRow| x@)
}

/// What a transaction does to a row.
#[derive(Debug, PartialEq, Eq)]
pub enum TxnOpPayload {
    Put { item: Item },
    Delete,
}

/// What a payload is.
pub enum PayloadView {
    Put { item: ItemView },
    Delete,
}

impl TxnOpPayload {
    pub open spec fn view(&self) -> PayloadView {
        match self {
            TxnOpPayload::Put { item } => PayloadView::Put { item: item@ },
            TxnOpPayload::Delete => PayloadView::Delete,
        }
    }
}

/// A change of a row by a transaction.
#[derive(Debug, PartialEq, Eq)]
pub struct ParticipantMutation {
    pub participant: ParticipantRow,
    pub payload: TxnOpPayload,
}

/// What a change is.
pub struct PartMutView {
    pub participant: PartView,
    pub payload: PayloadView,
}

impl ParticipantMutation {
    pub open spec fn view(&self) -> PartMutView {
        PartMutView { participant: self.participant@, payload: self.payload@ }
    }
}

pub open spec fn part_mut_views(m: Seq<ParticipantMutation>) -> Seq<PartMutView> {
    m.map_values(|x: ParticipantMutation| x@)
}

// ---------------------------------------------------------------------------
// Bytes in JSON
// ---------------------------------------------------------------------------

/// Bytes as an array of numbers.
pub open spec fn octets_json(b: Seq<u8>) -> Seq<JsonView>
    decreases b.len(),
{
    if b.len() == 0 {
        Seq::empty()
    } else {
        octets_json(b.drop_last()).push(JsonView::Number(decimal(b.last() as nat)))
    }
}

/// The byte that a JSON value stands for.
pub open spec fn json_octet(v: JsonView) -> Option<u8> {
    match v {
        JsonView::Number(t) => match parse_unsigned(t, 255) {
            Some(n) => Some(n as u8),
            None => None,
        },
        _ => None,
    }
}

/// The bytes that an array of numbers stands for.
pub open spec fn json_octets(l: Seq<JsonView>) -> Option<Seq<u8>>
    decreases l.len(),
{
    if l.len() == 0 {
        Some(Seq::empty())
    } else {
        match (json_octets(l.drop_last()), json_octet(l.last())) {
            (Some(s), Some(x)) => Some(s.push(x)),
            _ => None,
        }
    }
}

proof fn lemma_octets(b: Seq<u8>, depth: nat)
    ensures
        json_octets(octets_json(b)) == Some(b),
        all_plain(octets_json(b), depth),
    decreases b.len(),
{
    if b.len() > 0 {
        let d = b.drop_last();
        lemma_octets(d, depth);
        let x = b.last();
        let l = octets_json(b);
        assert(l.drop_last() =~= octets_json(d));
        numeral_round_trip(x as int, 0, 255);
        assert(signed_decimal(x as int) == decimal(x as nat));
        assert(is_integer_text(decimal(x as nat)));
        assert(json_plain(l.last(), depth));
        assert(d.push(x) =~= b);
    } else {
        assert(b =~= Seq::<u8>::empty());
    }
}

fn octets_to_json(b: &[u8]) -> (r: Value)
    ensures
        json_view(r) == JsonView::Array(octets_json(b@)),
{
    let mut out: Vec<Value> = Vec::new();
    let mut i: usize = 0;
    assert(json_views(out@) =~= octets_json(b@.take(0)));
    while i < b.len()
        invariant
            i <= b.len(),
            json_views(out@) == octets_json(b@.take(i as int)),
        decreases b.len() - i,
    {
        let ghost before = json_views(out@);
        let v = json_u64(b[i] as u64);
        let ghost added = json_view(v);
        out.push(v);
        proof {
            assert(json_views(out@) =~= before.push(added));
            assert(b@.take(i + 1).drop_last() =~= b@.take(i as int));
        }
        i = i + 1;
    }
    assert(b@.take(i as int) =~= b@);
    json_array(out)
}

fn octets_from_json(l: Vec<Value>) -> (r: Option<Vec<u8>>)
    ensures
        json_octets(json_views(l@)) == match r {
            Some(b) => Some(b@),
            None => None,
        },
{
    let ghost given = l@;
    let ghost all = json_views(given);
    let mut left = reversed(l);
    let mut out: Vec<u8> = Vec::new();
    let mut ok: bool = true;
    let ghost mut k: int = 0;
    assert(given.skip(0) =~= given);
    while left.len() > 0
        invariant
            0 <= k <= given.len(),
            all == json_views(given),
            left@ == given.skip(k).reverse(),
            json_octets(all.take(k)) == if ok {
                Some(out@)
            } else {
                None
            },
        decreases left.len(),
    {
        proof {
            lemma_next(given, k);
            assert(all.take(k + 1).drop_last() =~= all.take(k));
            assert(all.take(k + 1).last() == json_view(given[k]));
        }
        let v = left.pop().unwrap();
        let octet: Option<u8> = match json_node(v) {
            JsonNode::Number(t) => octet_of(t.as_str()),
            _ => None,
        };
        match octet {
            Some(x) => {
                out.push(x);
            },
            None => {
                ok = false;
            },
        }
        proof {
            k = k + 1;
        }
    }
    assert(all.take(k) =~= all);
    if ok {
        Some(out)
    } else {
        None
    }
}

fn octet_of(t: &str) -> (r: Option<u8>)
    ensures
        r == json_octet(JsonView::Number(t@)),
{
    proof {
        let d = if t@.len() > 0 && t@[0] == '+' {
            t@.skip(1)
        } else {
            t@
        };
        if all_digits(d) {
            lemma_dec_value_nonneg(d);
        }
    }
    match parse_u64(t) {
        Some(n) => if n <= 255 {
            Some(n as u8)
        } else {
            None
        },
        None => None,
    }
}

// ---------------------------------------------------------------------------
// Participants in JSON
// ---------------------------------------------------------------------------

/// A participant in JSON.
pub open spec fn part_json(p: PartView) -> JsonView {
    JsonView::Object(
        seq![
            ("data_table"@, JsonView::Str(p.table)),
            ("row_key"@, JsonView::Array(octets_json(p.key))),
        ],
    )
}

/// The participant that a JSON value stands for.
pub open spec fn json_part(j: JsonView) -> Option<PartView> {
    match (text_field(j, "data_table"@), json_field(j, "row_key"@)) {
        (Some(table), Some(JsonView::Array(l))) => match json_octets(l) {
            Some(key) => Some(PartView { table, key }),
            None => None,
        },
        _ => None,
    }
}

/// Two members in order.
pub proof fn lemma_two_members(a: (Seq<char>, JsonView), b: (Seq<char>, JsonView), depth: nat)
    requires
        crate::bytes::lex_lt(encode_utf8(a.0), encode_utf8(b.0)),
    ensures
        sorted_put_all(seq![a, b], member_key()) == seq![a, b],
        a.0 != b.0,
        json_field(JsonView::Object(seq![a, b]), a.0) == Some(a.1),
        json_field(JsonView::Object(seq![a, b]), b.0) == Some(b.1),
        json_plain(a.1, depth) && json_plain(b.1, depth) ==> json_plain(
            JsonView::Object(seq![a, b]),
            depth + 1,
        ),
{
    let m = seq![a, b];
    assert(sorted_by(m, member_key()));
    lemma_sorted_put_all_sorted(m, member_key());
    crate::bytes::lex_asymmetric(encode_utf8(a.0), encode_utf8(b.0));
    reveal_with_fuel(member, 3);
    assert(m.drop_last() =~= seq![a]);
    assert(m.drop_last().drop_last() =~= Seq::<(Seq<char>, JsonView)>::empty());
    if json_plain(a.1, depth) && json_plain(b.1, depth) {
        reveal_with_fuel(members_plain, 3);
        assert(members_plain(m, depth));
        assert(json_plain(JsonView::Object(m), depth + 1));
    }
}

proof fn lemma_names()
    ensures
        crate::bytes::lex_lt(encode_utf8("data_table"@), encode_utf8("row_key"@)),
        crate::bytes::lex_lt(encode_utf8("participant"@), encode_utf8("payload"@)),
{
    reveal_strlit("data_table");
    reveal_strlit("row_key");
    reveal_strlit("participant");
    reveal_strlit("payload");
    is_ascii_chars_encode_utf8("data_table"@);
    is_ascii_chars_encode_utf8("row_key"@);
    is_ascii_chars_encode_utf8("participant"@);
    is_ascii_chars_encode_utf8("payload"@);
    assert("data_table"@[0] == 'd' && "row_key"@[0] == 'r');
    assert(crate::bytes::lex_lt_at(encode_utf8("data_table"@), encode_utf8("row_key"@), 0));
    assert("participant"@[0] == 'p' && "payload"@[0] == 'p');
    assert("participant"@[1] == 'a' && "payload"@[1] == 'a');
    assert("participant"@[2] == 'r' && "payload"@[2] == 'y');
    assert(crate::bytes::lex_lt_at(encode_utf8("participant"@), encode_utf8("payload"@), 2));
}

/// A participant reads back from its JSON.
proof fn lemma_part_json(p: PartView)
    ensures
        json_part(part_json(p)) == Some(p),
        json_plain(part_json(p), 2),
{
    lemma_names();
    lemma_octets(p.key, 0);
    assert(json_plain(JsonView::Array(octets_json(p.key)), 1));
    assert(json_plain(JsonView::Str(p.table), 1));
    lemma_two_members(
        ("data_table"@, JsonView::Str(p.table)),
        ("row_key"@, JsonView::Array(octets_json(p.key))),
        1,
    );
}

/// An object with two members, given in order.
pub fn two_members(a: &str, x: Value, b: &str, y: Value) -> (r: Value)
    requires
        crate::bytes::lex_lt(encode_utf8(a@), encode_utf8(b@)),
    ensures
        json_view(r) == JsonView::Object(seq![(a@, json_view(x)), (b@, json_view(y))]),
{
    let mut m: Vec<(String, Value)> = Vec::new();
    m.push((text(a), x));
    m.push((text(b), y));
    proof {
        assert(member_views(m@) =~= seq![(a@, json_view(x)), (b@, json_view(y))]);
        lemma_two_members((a@, json_view(x)), (b@, json_view(y)), 0);
    }
    json_object(m)
}

fn part_to_json(p: &ParticipantRow) -> (r: Value)
    ensures
        json_view(r) == part_json(p@),
{
    proof {
        lemma_names();
    }
    two_members(
        "data_table",
        json_string(text(p.data_table.as_str())),
        "row_key",
        octets_to_json(p.row_key.as_slice()),
    )
}

fn part_from_json(v: &Value) -> (r: Option<ParticipantRow>)
    ensures
        json_part(json_view(*v)) == match r {
            Some(p) => Some(p@),
            None => None,
        },
{
    let table = match get_text(v, "data_table") {
        Some(t) => t,
        None => return None,
    };
    let key = match json_get(v, "row_key") {
        Some(k) => k,
        None => return None,
    };
    match json_node(json_clone(key)) {
        JsonNode::Array(l) => match octets_from_json(l) {
            Some(b) => Some(ParticipantRow { data_table: table, row_key: b }),
            None => None,
        },
        _ => None,
    }
}

/// Participants in JSON.
pub open spec fn parts_json(p: Seq<PartView>) -> Seq<JsonView>
    decreases p.len(),
{
    if p.len() == 0 {
        Seq::empty()
    } else {
        parts_json(p.drop_last()).push(part_json(p.last()))
    }
}

/// The participants that the elements of a JSON array stand for.
pub open spec fn json_parts(l: Seq<JsonView>) -> Option<Seq<PartView>>
    decreases l.len(),
{
    if l.len() == 0 {
        Some(Seq::empty())
    } else {
        match (json_parts(l.drop_last()), json_part(l.last())) {
            (Some(s), Some(x)) => Some(s.push(x)),
            _ => None,
        }
    }
}

proof fn lemma_parts(p: Seq<PartView>)
    ensures
        json_parts(parts_json(p)) == Some(p),
        all_plain(parts_json(p), 2),
    decreases p.len(),
{
    if p.len() > 0 {
        let d = p.drop_last();
        lemma_parts(d);
        lemma_part_json(p.last());
        let l = parts_json(p);
        assert(l.drop_last() =~= parts_json(d));
        assert(d.push(p.last()) =~= p);
    } else {
        assert(p =~= Seq::<PartView>::empty());
    }
}

/// The participants that a cell of the log holds.
pub open spec fn read_parts(b: Seq<u8>) -> Option<Seq<PartView>> {
    match json_parsed(b) {
        Ok(JsonView::Array(l)) => json_parts(l),
        _ => None,
    }
}

/// Writes participants for the log. They read back as they are.
pub fn participants_cell(p: &[ParticipantRow]) -> (r: Result<Vec<u8>, StorageError>)
    ensures
        r is Ok,
        r->Ok_0@ == json_bytes(JsonView::Array(parts_json(part_views(p@)))),
        read_parts(r->Ok_0@) == Some(part_views(p@)),
{
    let ghost all = part_views(p@);
    let mut out: Vec<Value> = Vec::new();
    let mut i: usize = 0;
    assert(json_views(out@) =~= parts_json(all.take(0)));
    while i < p.len()
        invariant
            i <= p.len(),
            all == part_views(p@),
            json_views(out@) == parts_json(all.take(i as int)),
        decreases p.len() - i,
    {
        let ghost before = json_views(out@);
        let v = part_to_json(&p[i]);
        let ghost added = json_view(v);
        out.push(v);
        proof {
            assert(json_views(out@) =~= before.push(added));
            assert(all.take(i + 1).drop_last() =~= all.take(i as int));
        }
        i = i + 1;
    }
    assert(all.take(i as int) =~= all);
    let v = json_array(out);
    proof {
        lemma_parts(all);
        lemma_all_plain_deeper(parts_json(all), 2, 126);
        assert(json_plain(json_view(v), 127));
    }
    match json_to_vec(&v) {
        Ok(b) => Ok(b),
        Err(e) => Err(internal(cat2("serialize participants: ", e.as_str()).as_str())),
    }
}

/// What is nested no deeper than a depth is nested no deeper than a greater
/// one.
proof fn lemma_plain_deeper(v: JsonView, d: nat, e: nat)
    requires
        d <= e,
        json_plain(v, d),
    ensures
        json_plain(v, e),
    decreases v,
{
    match v {
        JsonView::Array(l) => {
            lemma_all_plain_deeper(l, (d - 1) as nat, (e - 1) as nat);
        },
        JsonView::Object(m) => {
            lemma_members_plain_deeper(m, (d - 1) as nat, (e - 1) as nat);
        },
        _ => {},
    }
}

proof fn lemma_all_plain_deeper(l: Seq<JsonView>, d: nat, e: nat)
    requires
        d <= e,
        all_plain(l, d),
    ensures
        all_plain(l, e),
    decreases l,
{
    if l.len() > 0 {
        lemma_all_plain_deeper(l.drop_last(), d, e);
        lemma_plain_deeper(l.last(), d, e);
    }
}

proof fn lemma_members_plain_deeper(m: Seq<(Seq<char>, JsonView)>, d: nat, e: nat)
    requires
        d <= e,
        members_plain(m, d),
    ensures
        members_plain(m, e),
    decreases m,
{
    if m.len() > 0 {
        lemma_members_plain_deeper(m.drop_last(), d, e);
        lemma_plain_deeper(m.last().1, d, e);
    }
}

/// Reads the participants that a cell of the log holds.
pub fn participants_from_cell(b: &[u8]) -> (r: Option<Vec<ParticipantRow>>)
    ensures
        read_parts(b@) == match r {
            Some(p) => Some(part_views(p@)),
            None => None,
        },
{
    let l = match json_from_slice(b) {
        Ok(v) => match json_node(v) {
            JsonNode::Array(l) => l,
            _ => return None,
        },
        Err(_) => return None,
    };
    let ghost all = json_views(l@);
    let mut out: Vec<ParticipantRow> = Vec::new();
    let mut i: usize = 0;
    assert(part_views(out@) =~= Seq::empty());
    while i < l.len()
        invariant
            i <= l.len(),
            all == json_views(l@),
            json_parsed(b@) == reads_as(JsonView::Array(all)),
            json_parts(all.take(i as int)) == Some(part_views(out@)),
        decreases l.len() - i,
    {
        proof {
            assert(all.take(i + 1).drop_last() =~= all.take(i as int));
            assert(all.take(i + 1).last() == json_view(l@[i as int]));
        }
        match part_from_json(&l[i]) {
            Some(p) => {
                let ghost before = part_views(out@);
                let ghost added = p@;
                out.push(p);
                assert(part_views(out@) =~= before.push(added));
            },
            None => {
                proof {
                    lemma_json_parts_none(all, i + 1);
                }
                return None;
            },
        }
        i = i + 1;
    }
    assert(all.take(i as int) =~= all);
    Some(out)
}

proof fn lemma_json_parts_none(l: Seq<JsonView>, n: int)
    requires
        0 <= n <= l.len(),
        json_parts(l.take(n)) is None,
    ensures
        json_parts(l) is None,
    decreases l.len(),
{
    if n < l.len() {
        assert(l.drop_last().take(n) =~= l.take(n));
        lemma_json_parts_none(l.drop_last(), n);
    } else {
        assert(l.take(n) =~= l);
    }
}

// ---------------------------------------------------------------------------
// Changes in JSON
// ---------------------------------------------------------------------------

/// A payload in JSON.
pub open spec fn payload_json(p: PayloadView) -> JsonView {
    match p {
        PayloadView::Put { item } => JsonView::Object(
            seq![("Put"@, JsonView::Object(seq![("item"@, JsonView::Object(map_json(item)))]))],
        ),
        PayloadView::Delete => JsonView::Str("Delete"@),
    }
}

/// The payload that a JSON value stands for.
pub open spec fn json_payload(j: JsonView) -> Option<PayloadView> {
    match j {
        JsonView::Str(s) => if s == "Delete"@ {
            Some(PayloadView::Delete)
        } else {
            None
        },
        JsonView::Object(m) => if m.len() == 1 && m[0].0 == "Put"@ {
            match json_field(m[0].1, "item"@) {
                Some(JsonView::Object(x)) => match json_map(x) {
                    Some(item) => Some(PayloadView::Put { item }),
                    None => None,
                },
                _ => None,
            }
        } else {
            None
        },
        _ => None,
    }
}

/// A change in JSON.
pub open spec fn change_json(c: PartMutView) -> JsonView {
    JsonView::Object(
        seq![
            ("participant"@, part_json(c.participant)),
            ("payload"@, payload_json(c.payload)),
        ],
    )
}

/// The change that a JSON value stands for.
pub open spec fn json_change(j: JsonView) -> Option<PartMutView> {
    match (json_field(j, "participant"@), json_field(j, "payload"@)) {
        (Some(a), Some(b)) => match (json_part(a), json_payload(b)) {
            (Some(participant), Some(payload)) => Some(PartMutView { participant, payload }),
            _ => None,
        },
        _ => None,
    }
}

/// Changes in JSON.
pub open spec fn changes_json(c: Seq<PartMutView>) -> Seq<JsonView>
    decreases c.len(),
{
    if c.len() == 0 {
        Seq::empty()
    } else {
        changes_json(c.drop_last()).push(change_json(c.last()))
    }
}

/// The changes that the elements of a JSON array stand for.
pub open spec fn json_changes(l: Seq<JsonView>) -> Option<Seq<PartMutView>>
    decreases l.len(),
{
    if l.len() == 0 {
        Some(Seq::empty())
    } else {
        match (json_changes(l.drop_last()), json_change(l.last())) {
            (Some(s), Some(x)) => Some(s.push(x)),
            _ => None,
        }
    }
}

/// A change whose JSON is nested no deeper than the log is read.
pub open spec fn change_readable(c: PartMutView) -> bool {
    match c.payload {
        PayloadView::Put { item } => map_nests(item, 122),
        PayloadView::Delete => true,
    }
}

/// All changes can be read back from the log.
pub open spec fn changes_readable(c: Seq<PartMutView>) -> bool {
    forall|i: int| 0 <= i < c.len() ==> change_readable(#[trigger] c[i])
}

/// The changes that a cell of the log holds.
pub open spec fn read_changes(b: Seq<u8>) -> Option<Seq<PartMutView>> {
    match json_parsed(b) {
        Ok(JsonView::Array(l)) => json_changes(l),
        _ => None,
    }
}

proof fn lemma_one_member(name: Seq<char>, v: JsonView, depth: nat)
    ensures
        json_field(JsonView::Object(seq![(name, v)]), name) == Some(v),
        json_plain(v, depth) ==> json_plain(JsonView::Object(seq![(name, v)]), depth + 1),
{
    let m = seq![(name, v)];
    reveal_with_fuel(member, 2);
    if json_plain(v, depth) {
        reveal_with_fuel(members_plain, 2);
        assert(sorted_by(m, member_key()));
        assert(m.drop_last() =~= Seq::<(Seq<char>, JsonView)>::empty());
        assert(members_plain(m, depth));
        assert(json_plain(JsonView::Object(m), depth + 1));
    }
}

fn payload_to_json(p: &TxnOpPayload) -> (r: Value)
    ensures
        json_view(r) == payload_json(p@),
        json_payload(json_view(r)) == Some(p@),
        p@ is Put && map_nests(p@->item, 122) ==> json_plain(json_view(r), 125),
        p@ is Delete ==> json_plain(json_view(r), 125),
{
    match p {
        TxnOpPayload::Put { item } => {
            let inner = item_to_json(item);
            proof {
                lemma_one_member("item"@, json_view(inner), 123);
                lemma_one_member(
                    "Put"@,
                    JsonView::Object(seq![("item"@, json_view(inner))]),
                    124,
                );
            }
            json_single("Put", json_single("item", inner))
        },
        TxnOpPayload::Delete => json_string(text("Delete")),
    }
}

fn payload_from_json(v: &Value) -> (r: Option<TxnOpPayload>)
    ensures
        json_payload(json_view(*v)) == match r {
            Some(p) => Some(p@),
            None => None,
        },
{
    match json_node(json_clone(v)) {
        JsonNode::Str(s) => if str_eq(s.as_str(), "Delete") {
            Some(TxnOpPayload::Delete)
        } else {
            None
        },
        JsonNode::Object(m) => {
            if m.len() != 1 || !str_eq(m[0].0.as_str(), "Put") {
                return None;
            }
            match json_get(&m[0].1, "item") {
                None => None,
                Some(x) => match json_node(json_clone(x)) {
                    JsonNode::Object(members) => match item_from_members(members) {
                        Some(item) => Some(TxnOpPayload::Put { item }),
                        None => None,
                    },
                    _ => None,
                },
            }
        },
        _ => None,
    }
}

fn change_to_json(c: &ParticipantMutation) -> (r: Value)
    ensures
        json_view(r) == change_json(c@),
        json_change(json_view(r)) == Some(c@),
        change_readable(c@) ==> json_plain(json_view(r), 126),
{
    let a = part_to_json(&c.participant);
    let b = payload_to_json(&c.payload);
    proof {
        lemma_names();
        lemma_part_json(c.participant@);
        lemma_plain_deeper(json_view(a), 2, 125);
        lemma_two_members(("participant"@, json_view(a)), ("payload"@, json_view(b)), 125);
    }
    two_members("participant", a, "payload", b)
}

fn change_from_json(v: &Value) -> (r: Option<ParticipantMutation>)
    ensures
        json_change(json_view(*v)) == match r {
            Some(c) => Some(c@),
            None => None,
        },
{
    let a = match json_get(v, "participant") {
        Some(a) => a,
        None => return None,
    };
    let b = match json_get(v, "payload") {
        Some(b) => b,
        None => return None,
    };
    match (part_from_json(a), payload_from_json(b)) {
        (Some(participant), Some(payload)) => Some(ParticipantMutation { participant, payload }),
        _ => None,
    }
}

/// Writes changes for the log. They read back as they are.
pub fn changes_cell(c: &[ParticipantMutation]) -> (r: Result<Vec<u8>, StorageError>)
    ensures
        r is Ok,
        r->Ok_0@ == json_bytes(JsonView::Array(changes_json(part_mut_views(c@)))),
        changes_readable(part_mut_views(c@)) ==> read_changes(r->Ok_0@) == Some(
            part_mut_views(c@),
        ),
{
    let ghost all = part_mut_views(c@);
    let mut out: Vec<Value> = Vec::new();
    let mut i: usize = 0;
    assert(json_views(out@) =~= changes_json(all.take(0)));
    assert(all.take(0) =~= Seq::empty());
    while i < c.len()
        invariant
            i <= c.len(),
            all == part_mut_views(c@),
            json_views(out@) == changes_json(all.take(i as int)),
            json_changes(changes_json(all.take(i as int))) == Some(all.take(i as int)),
            changes_readable(all) ==> all_plain(changes_json(all.take(i as int)), 126),
        decreases c.len() - i,
    {
        let ghost before = json_views(out@);
        let v = change_to_json(&c[i]);
        let ghost added = json_view(v);
        out.push(v);
        proof {
            assert(json_views(out@) =~= before.push(added));
            let t = all.take(i + 1);
            assert(t.drop_last() =~= all.take(i as int));
            assert(t.last() == c@[i as int]@);
            assert(changes_json(t).drop_last() =~= changes_json(all.take(i as int)));
            assert(all.take(i as int).push(t.last()) =~= t);
            if changes_readable(all) {
                assert(change_readable(all[i as int]));
            }
        }
        i = i + 1;
    }
    assert(all.take(i as int) =~= all);
    let v = json_array(out);
    proof {
        if changes_readable(all) {
            assert(json_plain(json_view(v), 127));
        }
    }
    match json_to_vec(&v) {
        Ok(b) => Ok(b),
        Err(e) => Err(internal(cat2("serialize mutations: ", e.as_str()).as_str())),
    }
}

/// Reads the changes that a cell of the log holds.
pub fn changes_from_cell(b: &[u8]) -> (r: Option<Vec<ParticipantMutation>>)
    ensures
        read_changes(b@) == match r {
            Some(c) => Some(part_mut_views(c@)),
            None => None,
        },
{
    let l = match json_from_slice(b) {
        Ok(v) => match json_node(v) {
            JsonNode::Array(l) => l,
            _ => return None,
        },
        Err(_) => return None,
    };
    let ghost all = json_views(l@);
    let mut out: Vec<ParticipantMutation> = Vec::new();
    let mut i: usize = 0;
    assert(part_mut_views(out@) =~= Seq::empty());
    while i < l.len()
        invariant
            i <= l.len(),
            all == json_views(l@),
            json_parsed(b@) == reads_as(JsonView::Array(all)),
            json_changes(all.take(i as int)) == Some(part_mut_views(out@)),
        decreases l.len() - i,
    {
        proof {
            assert(all.take(i + 1).drop_last() =~= all.take(i as int));
            assert(all.take(i + 1).last() == json_view(l@[i as int]));
        }
        match change_from_json(&l[i]) {
            Some(c) => {
                let ghost before = part_mut_views(out@);
                let ghost added = c@;
                out.push(c);
                assert(part_mut_views(out@) =~= before.push(added));
            },
            None => {
                proof {
                    lemma_json_changes_none(all, i + 1);
                }
                return None;
            },
        }
        i = i + 1;
    }
    assert(all.take(i as int) =~= all);
    Some(out)
}

proof fn lemma_json_changes_none(l: Seq<JsonView>, n: int)
    requires
        0 <= n <= l.len(),
        json_changes(l.take(n)) is None,
    ensures
        json_changes(l) is None,
    decreases l.len(),
{
    if n < l.len() {
        assert(l.drop_last().take(n) =~= l.take(n));
        lemma_json_changes_none(l.drop_last(), n);
    } else {
        assert(l.take(n) =~= l);
    }
}

// ---------------------------------------------------------------------------
// What the log says of a transaction
// ---------------------------------------------------------------------------

/// The last of the cells that are in a column.
pub open spec fn column_last(cells: Seq<CellView>, family: Seq<char>, qualifier: Seq<u8>) -> Option<
    CellView,
>
    decreases cells.len(),
{
    if cells.len() == 0 {
        None
    } else if in_column(cells.last(), family, qualifier) {
        Some(cells.last())
    } else {
        column_last(cells.drop_last(), family, qualifier)
    }
}

/// Finds the last of the cells that are in a column.
pub fn find_last<'a>(cells: &'a [RowCell], family: &str, qualifier: &str) -> (r: Option<&'a RowCell>)
    ensures
        column_last(cell_views(cells@), family@, encode_utf8(qualifier@)) == match r {
            Some(c) => Some(c@),
            None => None,
        },
{
    let ghost all = cell_views(cells@);
    let mut i: usize = cells.len();
    assert(all.take(i as int) =~= all);
    while i > 0
        invariant
            i <= cells.len(),
            all == cell_views(cells@),
            column_last(all, family@, encode_utf8(qualifier@)) == column_last(
                all.take(i as int),
                family@,
                encode_utf8(qualifier@),
            ),
        decreases i,
    {
        i = i - 1;
        let c = &cells[i];
        proof {
            assert(all.take(i + 1).drop_last() =~= all.take(i as int));
            assert(all.take(i + 1).last() == c@);
        }
        if str_eq(c.family_name.as_str(), family) && bytes_eq(
            c.qualifier.as_slice(),
            qualifier.as_bytes(),
        ) {
            return Some(c);
        }
    }
    None
}

/// The text of a cell of the log.
pub open spec fn log_text(cells: Seq<CellView>, name: Seq<char>) -> Option<Seq<char>> {
    match column_last(cells, TXN_FAMILY@, encode_utf8(name)) {
        Some(c) => match utf8_decoded(c.value) {
            Ok(s) => Some(s),
            Err(_) => None,
        },
        None => None,
    }
}

/// When a transaction began.
pub open spec fn log_started(cells: Seq<CellView>) -> Option<int> {
    match log_text(cells, "started_at"@) {
        Some(s) => parse_signed(s, i64::MIN as int, i64::MAX as int),
        None => None,
    }
}

/// The rows that take part in a transaction.
pub open spec fn log_parts(cells: Seq<CellView>) -> Option<Seq<PartView>> {
    match column_last(cells, TXN_FAMILY@, encode_utf8("participants"@)) {
        Some(c) => read_parts(c.value),
        None => None,
    }
}

/// What a transaction changes.
pub open spec fn log_changes(cells: Seq<CellView>) -> Option<Seq<PartMutView>> {
    match column_last(cells, TXN_FAMILY@, encode_utf8("mutations"@)) {
        Some(c) => read_changes(c.value),
        None => None,
    }
}

/// The stream records of a transaction, as they were written to the log.
pub open spec fn log_records(cells: Seq<CellView>) -> Option<Seq<u8>> {
    match column_last(cells, TXN_FAMILY@, encode_utf8("stream_records"@)) {
        Some(c) => Some(c.value),
        None => None,
    }
}

/// A transaction in the log. The stream records are as they were written.
#[derive(Debug, PartialEq, Eq)]
pub struct TxnState {
    pub state: String,
    pub participants: Option<Vec<ParticipantRow>>,
    pub mutations: Option<Vec<ParticipantMutation>>,
    pub stream_records: Option<Vec<u8>>,
}

/// What a [`TxnState`] is.
pub struct TxnView {
    pub state: Seq<char>,
    pub participants: Option<Seq<PartView>>,
    pub mutations: Option<Seq<PartMutView>>,
    pub stream_records: Option<Seq<u8>>,
}

impl TxnState {
    pub open spec fn view(&self) -> TxnView {
        TxnView {
            state: self.state@,
            participants: match self.participants {
                Some(p) => Some(part_views(p@)),
                None => None,
            },
            mutations: match self.mutations {
                Some(m) => Some(part_mut_views(m@)),
                None => None,
            },
            stream_records: match self.stream_records {
                Some(r) => Some(r@),
                None => None,
            },
        }
    }
}

/// The transaction that the cells of a row of the log hold.
pub open spec fn logged(cells: Seq<CellView>) -> Option<TxnView> {
    match log_text(cells, "state"@) {
        None => None,
        Some(state) => Some(
            TxnView {
                state,
                participants: log_parts(cells),
                mutations: log_changes(cells),
                stream_records: log_records(cells),
            },
        ),
    }
}

fn read_log_text(cells: &[RowCell], name: &str) -> (r: Option<String>)
    ensures
        crate::text::opt_view(r) == log_text(cell_views(cells@), name@),
{
    match find_last(cells, TXN_FAMILY, name) {
        Some(c) => match decode_text(c.value.as_slice()) {
            Ok(s) => Some(s),
            Err(_) => None,
        },
        None => None,
    }
}

/// Reads the transaction that the cells of a row of the log hold.
pub fn read_log(cells: &[RowCell]) -> (r: Option<TxnState>)
    ensures
        logged(cell_views(cells@)) == match r {
            Some(t) => Some(t@),
            None => None,
        },
{
    let state = match read_log_text(cells, "state") {
        Some(s) => s,
        None => return None,
    };
    let participants = match find_last(cells, TXN_FAMILY, "participants") {
        Some(c) => participants_from_cell(c.value.as_slice()),
        None => None,
    };
    let mutations = match find_last(cells, TXN_FAMILY, "mutations") {
        Some(c) => changes_from_cell(c.value.as_slice()),
        None => None,
    };
    let stream_records = match find_last(cells, TXN_FAMILY, "stream_records") {
        Some(c) => Some(bytes_copy(c.value.as_slice())),
        None => None,
    };
    Some(TxnState { state, participants, mutations, stream_records })
}

/// Reads when the transaction in a row of the log began.
pub fn read_started(cells: &[RowCell]) -> (r: Option<i64>)
    ensures
        log_started(cell_views(cells@)) == match r {
            Some(t) => Some(t as int),
            None => None,
        },
{
    match read_log_text(cells, "started_at") {
        Some(s) => parse_i64(s.as_str()),
        None => None,
    }
}

/// What came back of the row of a transaction.
pub open spec fn txn_found(rows: Seq<RowView>) -> Result<Option<TxnView>, ErrView> {
    if rows.len() == 0 {
        Ok(None)
    } else {
        match logged(rows[0].cells) {
            Some(t) => Ok(Some(t)),
            None => Err(ErrView::Internal("missing state in txn log"@)),
        }
    }
}

/// Takes the transaction from the rows that came back for it.
pub fn found_state(rows: &[Row]) -> (r: Result<Option<TxnState>, StorageError>)
    ensures
        match r {
            Ok(Some(t)) => txn_found(row_views(rows@)) == Ok::<Option<TxnView>, ErrView>(Some(t@)),
            Ok(None) => txn_found(row_views(rows@)) == Ok::<Option<TxnView>, ErrView>(None),
            Err(e) => txn_found(row_views(rows@)) == Err::<Option<TxnView>, ErrView>(e@),
        },
{
    if rows.len() == 0 {
        return Ok(None);
    }
    assert(row_views(rows@)[0] == rows@[0]@);
    match read_log(rows[0].cells.as_slice()) {
        Some(t) => Ok(Some(t)),
        None => Err(internal("missing state in txn log")),
    }
}

// ---------------------------------------------------------------------------
// The coordinator
// ---------------------------------------------------------------------------

/// The row key of a transaction in the log.
pub open spec fn coordinator_key(txn: Seq<char>) -> Seq<u8> {
    encode_utf8("txn:"@ + txn)
}

/// The column of the intent of a transaction.
pub open spec fn intent_column(txn: Seq<char>) -> Seq<u8> {
    encode_utf8(INTENT_QUALIFIER_PREFIX@ + txn)
}

/// The filter for intents that are not older than `cutoff`.
pub open spec fn intent_presence_filter(cutoff: int) -> FilterView {
    FilterView::Chain(
        seq![
            FilterView::Family("m"@),
            FilterView::Qualifier(encode_utf8("^intent:.*$"@)),
            FilterView::Timestamps { start: larger(cutoff, 0), end: 0 },
            FilterView::Limit(1),
        ],
    )
}

/// A filter that matches an intent that is not older than `cutoff_micros`.
pub fn build_intent_presence_filter(cutoff_micros: i64) -> (r: RowFilter)
    ensures
        r@ == intent_presence_filter(cutoff_micros as int),
{
    let start: i64 = if cutoff_micros >= 0 {
        cutoff_micros
    } else {
        0
    };
    let v = vec![
        family_filter(INTENT_FAMILY),
        qualifier_filter("^intent:.*$".as_bytes()),
        since_filter(start),
        newest_filter(),
    ];
    proof {
        lemma_filter_views(v@);
    }
    chain(v)
}

/// The newest cell of each column of the log.
pub open spec fn log_filter() -> FilterView {
    FilterView::Chain(seq![FilterView::Family(TXN_FAMILY@), FilterView::Limit(1)])
}

/// A filter for the newest cell of each column of the log: the state is written
/// more than once.
pub fn build_log_filter() -> (r: RowFilter)
    ensures
        r@ == log_filter(),
{
    let v = vec![family_filter(TXN_FAMILY), newest_filter()];
    proof {
        lemma_filter_views(v@);
    }
    chain(v)
}

/// The mutation that writes a column of the log.
pub open spec fn log_set(name: Seq<char>, value: Seq<u8>) -> MutView {
    set_cell_view(TXN_FAMILY@, encode_utf8(name), value)
}

/// The mutations that open a transaction.
pub open spec fn open_mutations(participants: Seq<u8>, now: int) -> Seq<MutView> {
    seq![
        log_set("state"@, encode_utf8(STATE_PENDING@)),
        log_set("started_at"@, encode_utf8(signed_decimal(now))),
        log_set("participants"@, participants),
    ]
}

/// The mutations that commit a transaction.
pub open spec fn commit_mutations(changes: Seq<u8>, records: Option<Seq<u8>>) -> Seq<MutView> {
    let base = seq![
        log_set("state"@, encode_utf8(STATE_COMMITTED@)),
        log_set("mutations"@, changes),
    ];
    match records {
        Some(r) => base.push(log_set("stream_records"@, r)),
        None => base,
    }
}

/// The mutations that set the state of a transaction.
pub open spec fn state_mutations(state: Seq<char>) -> Seq<MutView> {
    seq![log_set("state"@, encode_utf8(state))]
}

/// The request that places an intent.
pub open spec fn intent_request(
    client: BigtableClient,
    txn: Seq<char>,
    p: PartView,
    cutoff: int,
) -> CheckView {
    CheckView {
        table: table_path(client.project_id@, client.instance_id@, p.table),
        profile: Seq::empty(),
        key: p.key,
        predicate: intent_presence_filter(cutoff),
        if_true: Seq::empty(),
        if_false: seq![set_cell_view(INTENT_FAMILY@, intent_column(txn), encode_utf8(txn))],
    }
}

/// The request that clears an intent.
pub open spec fn clear_request(client: BigtableClient, txn: Seq<char>, p: PartView) -> MutateView {
    MutateView {
        table: table_path(client.project_id@, client.instance_id@, p.table),
        profile: Seq::empty(),
        key: p.key,
        mutations: seq![
            MutView::DeleteFromColumn { family: INTENT_FAMILY@, qualifier: intent_column(txn) },
        ],
    }
}

/// The request that opens a transaction, unless the log has a row of that name.
pub open spec fn open_request(
    client: BigtableClient,
    txn: Seq<char>,
    participants: Seq<u8>,
    now: int,
) -> CheckView {
    CheckView {
        table: table_path(client.project_id@, client.instance_id@, TXN_LOG_TABLE@),
        profile: Seq::empty(),
        key: coordinator_key(txn),
        predicate: FilterView::Family(TXN_FAMILY@),
        if_true: Seq::empty(),
        if_false: open_mutations(participants, now),
    }
}

/// A change of the row of a transaction.
pub open spec fn log_request(client: BigtableClient, txn: Seq<char>, m: Seq<MutView>) -> MutateView {
    MutateView {
        table: table_path(client.project_id@, client.instance_id@, TXN_LOG_TABLE@),
        profile: Seq::empty(),
        key: coordinator_key(txn),
        mutations: m,
    }
}

/// Runs transactions.
pub struct TxnCoordinator<'a> {
    pub client: &'a BigtableClient,
    pub intent_max_age_secs: u64,
}

impl<'a> TxnCoordinator<'a> {
    pub fn new(client: &'a BigtableClient, intent_max_age_secs: u64) -> (r: TxnCoordinator<'a>)
        ensures
            r.client == client,
            r.intent_max_age_secs == intent_max_age_secs,
    {
        TxnCoordinator { client, intent_max_age_secs }
    }

    /// A new identifier of a transaction: `txn-` and 32 hexadecimal digits.
    pub fn new_txn_id() -> (r: String)
        ensures
            r@.len() == 36,
            r@.take(4) == "txn-"@,
            forall|i: int| 4 <= i < 36 ==> crate::random::is_hex(#[trigger] r@[i]),
    {
        let u = crate::random::uuid_simple();
        let r = cat2("txn-", u.as_str());
        proof {
            reveal_strlit("txn-");
            assert(r@.take(4) =~= "txn-"@);
            assert forall|i: int| 4 <= i < 36 implies crate::random::is_hex(#[trigger] r@[i]) by {
                assert(r@[i] == u@[i - 4]);
            }
        }
        r
    }

    /// The row key of a transaction in the log.
    pub fn coordinator_row_key(txn_id: &str) -> (r: String)
        ensures
            r@ == "txn:"@ + txn_id@,
    {
        cat2("txn:", txn_id)
    }

    /// The column of the intent of a transaction.
    pub fn intent_qualifier(txn_id: &str) -> (r: Vec<u8>)
        ensures
            r@ == intent_column(txn_id@),
    {
        text_bytes(cat2(INTENT_QUALIFIER_PREFIX, txn_id).as_str())
    }

    fn log_row_key(txn_id: &str) -> (r: Vec<u8>)
        ensures
            r@ == coordinator_key(txn_id@),
    {
        text_bytes(TxnCoordinator::coordinator_row_key(txn_id).as_str())
    }

    /// The request that opens a transaction, unless it is in the log already:
    /// where its filter matches, it is.
    pub fn open(&self, txn_id: &str, participants: &[ParticipantRow], now_micros: i64) -> (r: Result<
        CheckAndMutateRowRequest,
        StorageError,
    >)
        ensures
            r matches Ok(q) && q@ == (CheckView {
                table: table_path(
                    self.client.project_id@,
                    self.client.instance_id@,
                    TXN_LOG_TABLE@,
                ),
                profile: Seq::empty(),
                key: coordinator_key(txn_id@),
                predicate: FilterView::Family(TXN_FAMILY@),
                if_true: Seq::empty(),
                if_false: open_mutations(
                    json_bytes(JsonView::Array(parts_json(part_views(participants@)))),
                    now_micros as int,
                ),
            }) && opens(q@.if_false, part_views(participants@), now_micros as int) && q@
                == open_request(
                *self.client,
                txn_id@,
                json_bytes(JsonView::Array(parts_json(part_views(participants@)))),
                now_micros as int,
            ),
    {
        let serialized = match participants_cell(participants) {
            Ok(b) => b,
            Err(e) => return Err(e),
        };
        proof {
            lemma_opens(serialized@, part_views(participants@), now_micros as int);
        }
        let false_mutations = vec![
            set_cell(TXN_FAMILY, "state".as_bytes(), text_bytes(STATE_PENDING)),
            set_cell(
                TXN_FAMILY,
                "started_at".as_bytes(),
                text_bytes(i64_text(now_micros).as_str()),
            ),
            set_cell(TXN_FAMILY, "participants".as_bytes(), serialized),
        ];
        let q = CheckAndMutateRowRequest {
            table_name: self.client.full_table_name(TXN_LOG_TABLE),
            app_profile_id: String::new(),
            row_key: TxnCoordinator::log_row_key(txn_id),
            predicate_filter: family_filter(TXN_FAMILY),
            true_mutations: Vec::new(),
            false_mutations,
        };
        proof {
            assert(q@.profile =~= Seq::<char>::empty());
            assert(q@.if_true =~= Seq::<MutView>::empty());
            assert(q@.if_false =~= open_mutations(serialized@, now_micros as int));
        }
        Ok(q)
    }

    /// The read of a transaction. [`found_state`] takes it from what comes back.
    pub fn get_state(&self, txn_id: &str) -> (r: ReadRowsRequest)
        ensures
            r@ == (ReadView {
                table: table_path(
                    self.client.project_id@,
                    self.client.instance_id@,
                    TXN_LOG_TABLE@,
                ),
                profile: Seq::empty(),
                keys: seq![coordinator_key(txn_id@)],
                ranges: Seq::empty(),
                limit: 1,
                filter: log_filter(),
                reversed: false,
            }),
    {
        let r = ReadRowsRequest {
            table_name: self.client.full_table_name(TXN_LOG_TABLE),
            app_profile_id: String::new(),
            row_keys: vec![TxnCoordinator::log_row_key(txn_id)],
            row_ranges: Vec::new(),
            rows_limit: 1,
            filter: build_log_filter(),
            reversed: false,
        };
        proof {
            assert(r@.profile =~= Seq::<char>::empty());
            assert(r@.keys =~= seq![coordinator_key(txn_id@)]);
            assert(r@.ranges =~= Seq::<RangeView>::empty());
        }
        r
    }

    /// The request that places an intent: where its filter matches, another
    /// transaction holds the row. [`IntentAttempts`] says how often to try.
    pub fn place_intent(&self, txn_id: &str, participant: &ParticipantRow, now_micros: i64) -> (r:
        CheckAndMutateRowRequest)
        requires
            crate::item_ops::intent_time_fits(self.intent_max_age_secs, now_micros as int),
        ensures
            r@ == intent_request(
                *self.client,
                txn_id@,
                participant@,
                crate::item_ops::intent_cutoff(self.intent_max_age_secs, now_micros as int),
            ),
    {
        let cutoff = crate::item_ops::cutoff_micros(self.intent_max_age_secs, now_micros);
        let r = CheckAndMutateRowRequest {
            table_name: self.client.full_table_name(participant.data_table.as_str()),
            app_profile_id: String::new(),
            row_key: bytes_copy(participant.row_key.as_slice()),
            predicate_filter: build_intent_presence_filter(cutoff),
            true_mutations: Vec::new(),
            false_mutations: vec![
                set_cell(
                    INTENT_FAMILY,
                    TxnCoordinator::intent_qualifier(txn_id).as_slice(),
                    text_bytes(txn_id),
                ),
            ],
        };
        proof {
            assert(r@.profile =~= Seq::<char>::empty());
            assert(r@.if_true =~= Seq::<MutView>::empty());
            assert(r@.if_false =~= seq![
                set_cell_view(INTENT_FAMILY@, intent_column(txn_id@), encode_utf8(txn_id@)),
            ]);
        }
        r
    }

    fn log_mutation(&self, txn_id: &str, mutations: Vec<Mutation>) -> (r: MutateRowRequest)
        ensures
            r@ == log_request(*self.client, txn_id@, mut_views(mutations@)),
    {
        let r = MutateRowRequest {
            table_name: self.client.full_table_name(TXN_LOG_TABLE),
            app_profile_id: String::new(),
            row_key: TxnCoordinator::log_row_key(txn_id),
            mutations,
        };
        assert(r@.profile =~= Seq::<char>::empty());
        r
    }

    /// The request that commits a transaction. Until it has gone through, the
    /// transaction is not committed. The stream records come written out.
    pub fn commit(
        &self,
        txn_id: &str,
        mutations: &[ParticipantMutation],
        stream_records: Option<Vec<u8>>,
    ) -> (r: Result<MutateRowRequest, StorageError>)
        ensures
            r matches Ok(q) && q@ == log_request(
                *self.client,
                txn_id@,
                commit_mutations(
                    json_bytes(JsonView::Array(changes_json(part_mut_views(mutations@)))),
                    opt_bytes(stream_records),
                ),
            ) && (changes_readable(part_mut_views(mutations@)) ==> commits(
                q@.mutations,
                part_mut_views(mutations@),
            )),
    {
        let serialized = match changes_cell(mutations) {
            Ok(b) => b,
            Err(e) => return Err(e),
        };
        let ghost records = opt_bytes(stream_records);
        proof {
            if changes_readable(part_mut_views(mutations@)) {
                lemma_commits(serialized@, records, part_mut_views(mutations@));
            }
        }
        let ghost changes = serialized@;
        let mut m = vec![
            set_cell(TXN_FAMILY, "state".as_bytes(), text_bytes(STATE_COMMITTED)),
            set_cell(TXN_FAMILY, "mutations".as_bytes(), serialized),
        ];
        if let Some(b) = stream_records {
            m.push(set_cell(TXN_FAMILY, "stream_records".as_bytes(), b));
        }
        assert(mut_views(m@) =~= commit_mutations(changes, records));
        Ok(self.log_mutation(txn_id, m))
    }

    fn set_state(&self, txn_id: &str, state: &str) -> (r: MutateRowRequest)
        ensures
            r@ == log_request(*self.client, txn_id@, state_mutations(state@)),
    {
        let m = vec![set_cell(TXN_FAMILY, "state".as_bytes(), text_bytes(state))];
        assert(mut_views(m@) =~= state_mutations(state@));
        self.log_mutation(txn_id, m)
    }

    /// The request that marks a transaction as done.
    pub fn cleaned(&self, txn_id: &str) -> (r: MutateRowRequest)
        ensures
            r@ == log_request(*self.client, txn_id@, state_mutations(STATE_CLEANED@)),
    {
        self.set_state(txn_id, STATE_CLEANED)
    }

    /// The request that marks a transaction whose intents could not all be
    /// cleared.
    pub fn aborted(&self, txn_id: &str) -> (r: MutateRowRequest)
        ensures
            r@ == log_request(*self.client, txn_id@, state_mutations(STATE_ABORTED@)),
    {
        self.set_state(txn_id, STATE_ABORTED)
    }

    /// The request that clears an intent.
    pub fn clear_intent(&self, txn_id: &str, participant: &ParticipantRow) -> (r: MutateRowRequest)
        ensures
            r@ == clear_request(*self.client, txn_id@, participant@),
    {
        let r = MutateRowRequest {
            table_name: self.client.full_table_name(participant.data_table.as_str()),
            app_profile_id: String::new(),
            row_key: bytes_copy(participant.row_key.as_slice()),
            mutations: vec![
                delete_from_column(
                    INTENT_FAMILY,
                    TxnCoordinator::intent_qualifier(txn_id).as_slice(),
                ),
            ],
        };
        proof {
            assert(r@.profile =~= Seq::<char>::empty());
            assert(r@.mutations =~= clear_request(*self.client, txn_id@, participant@).mutations);
        }
        r
    }

    /// The request that takes a transaction out of the log.
    pub fn drop(&self, txn_id: &str) -> (r: MutateRowRequest)
        ensures
            r@ == log_request(*self.client, txn_id@, row_deletion()),
    {
        self.log_mutation(txn_id, delete_row_mutations())
    }
}

// ---------------------------------------------------------------------------
// Reading back what was written to the log
// ---------------------------------------------------------------------------

/// What the log says of a transaction whose row has the given cells.
pub open spec fn log_read(row: Seq<CellView>) -> Seq<CellView> {
    passed(log_filter(), row)
}

/// The mutations open a transaction in any row that is empty.
pub open spec fn opens(m: Seq<MutView>, participants: Seq<PartView>, now: int) -> bool {
    forall|at: int| #![trigger applied(Seq::empty(), m, at)]
        logged(log_read(applied(Seq::empty(), m, at))) == Some(
            TxnView {
                state: STATE_PENDING@,
                participants: Some(participants),
                mutations: None,
                stream_records: None,
            },
        ) && log_started(log_read(applied(Seq::empty(), m, at))) == Some(now)
}

/// The mutations commit the changes, whatever the row held, and leave what it
/// said of the participants and of the beginning.
pub open spec fn commits(m: Seq<MutView>, changes: Seq<PartMutView>) -> bool {
    forall|row: Seq<CellView>, at: int| #![trigger applied(row, m, at)]
        ({
            let after = log_read(applied(row, m, at));
            &&& logged(after) matches Some(t) && t.state == STATE_COMMITTED@ && t.mutations
                == Some(changes) && t.participants == log_parts(log_read(row))
            &&& log_started(after) == log_started(log_read(row))
        })
}

proof fn lemma_log_names()
    ensures
        encode_utf8("state"@) != encode_utf8("started_at"@),
        encode_utf8("state"@) != encode_utf8("participants"@),
        encode_utf8("state"@) != encode_utf8("mutations"@),
        encode_utf8("state"@) != encode_utf8("stream_records"@),
        encode_utf8("started_at"@) != encode_utf8("participants"@),
        encode_utf8("started_at"@) != encode_utf8("mutations"@),
        encode_utf8("started_at"@) != encode_utf8("stream_records"@),
        encode_utf8("participants"@) != encode_utf8("mutations"@),
        encode_utf8("participants"@) != encode_utf8("stream_records"@),
        encode_utf8("mutations"@) != encode_utf8("stream_records"@),
{
    reveal_strlit("state");
    reveal_strlit("started_at");
    reveal_strlit("participants");
    reveal_strlit("mutations");
    reveal_strlit("stream_records");
    is_ascii_chars_encode_utf8("state"@);
    is_ascii_chars_encode_utf8("started_at"@);
    is_ascii_chars_encode_utf8("participants"@);
    is_ascii_chars_encode_utf8("mutations"@);
    is_ascii_chars_encode_utf8("stream_records"@);
}

/// Where no two cells are in one column, the last in a column is the newest.
proof fn lemma_column_last(cells: Seq<CellView>, family: Seq<char>, qualifier: Seq<u8>)
    requires
        crate::item_ops::one_per_column(cells),
    ensures
        column_last(cells, family, qualifier) == newest_of(cells, family, qualifier),
    decreases cells.len(),
{
    if cells.len() > 0 {
        let d = cells.drop_last();
        assert forall|i: int, j: int| 0 <= i < j < d.len() implies !in_column(
            #[trigger] d[j],
            (#[trigger] d[i]).family,
            d[i].qualifier,
        ) by {
            assert(d[i] == cells[i] && d[j] == cells[j]);
        }
        lemma_column_last(d, family, qualifier);
        lemma_newest_of_column(d, family, qualifier);
        if in_column(cells.last(), family, qualifier) {
            if let Some(c) = newest_of(d, family, qualifier) {
                let i = choose|i: int| 0 <= i < d.len() && d[i] == c;
                assert(cells[i] == c);
                assert(!in_column(cells[cells.len() - 1], cells[i].family, cells[i].qualifier));
                assert(false);
            }
        }
    }
}

proof fn lemma_newest_one(row: Seq<CellView>)
    ensures
        crate::item_ops::one_per_column(newest(row, 1)),
    decreases row.len(),
{
    if row.len() > 0 {
        let d = row.drop_last();
        lemma_newest_one(d);
        let n = newest(d, 1);
        let l = row.last();
        lemma_newest_of_column(d, l.family, l.qualifier);
        if crate::bigtable::column_count(d, l.family, l.qualifier) < 1 {
            crate::bigtable::lemma_newest_of_newest(d, l.family, l.qualifier);
            lemma_newest_of_column(n, l.family, l.qualifier);
            let r = n.push(l);
            assert forall|i: int, j: int| 0 <= i < j < r.len() implies !in_column(
                #[trigger] r[j],
                (#[trigger] r[i]).family,
                r[i].qualifier,
            ) by {
                if j < n.len() {
                    assert(r[i] == n[i] && r[j] == n[j]);
                } else {
                    assert(r[i] == n[i]);
                    assert(!in_column(n[i], l.family, l.qualifier));
                }
            }
        }
    }
}

proof fn lemma_family_t(c: CellView)
    ensures
        cell_passes(FilterView::Family(TXN_FAMILY@), c) <==> c.family == TXN_FAMILY@,
{
    reveal_strlit("t");
    is_ascii_chars_encode_utf8("t"@);
    let p = encode_utf8("t"@);
    assert("t"@[0] == 't');
    assert(unanchored(p) == p);
    if encode_utf8(c.family) == p {
        utf8_injective(c.family, "t"@);
    }
}

/// Reading a column of the log gives its newest cell.
proof fn lemma_log_read(row: Seq<CellView>, qualifier: Seq<u8>)
    ensures
        column_last(log_read(row), TXN_FAMILY@, qualifier) == newest_of(
            row,
            TXN_FAMILY@,
            qualifier,
        ),
{
    let fam = FilterView::Family(TXN_FAMILY@);
    let l = seq![fam, FilterView::Limit(1)];
    reveal_with_fuel(passed_chain, 4);
    assert(passed(log_filter(), row) == passed_chain(l, row));
    assert(l.drop_last() =~= seq![fam]);
    let a = cells_passing(fam, row);
    assert(log_read(row) == newest(a, 1));
    lemma_newest_one(a);
    lemma_column_last(newest(a, 1), TXN_FAMILY@, qualifier);
    crate::bigtable::lemma_newest_of_newest(a, TXN_FAMILY@, qualifier);
    crate::filter::lemma_newest_of_passing(fam, row, TXN_FAMILY@, qualifier);
    lemma_newest_of_column(row, TXN_FAMILY@, qualifier);
    if let Some(c) = newest_of(row, TXN_FAMILY@, qualifier) {
        lemma_family_t(c);
    }
}

/// The newest cell of a column after it was written.
proof fn lemma_set(row: Seq<CellView>, m: Seq<MutView>, last: MutView, at: int, q: Seq<u8>)
    requires
        last is SetCell,
        last->SetCell_family == TXN_FAMILY@,
        last->SetCell_timestamp == -1,
    ensures
        newest_of(applied(row, m.push(last), at), TXN_FAMILY@, q) == if last->SetCell_qualifier
            == q {
            Some(
                CellView {
                    family: TXN_FAMILY@,
                    qualifier: q,
                    value: last->SetCell_value,
                    timestamp: at,
                },
            )
        } else {
            newest_of(applied(row, m, at), TXN_FAMILY@, q)
        },
{
    let all = m.push(last);
    assert(all.drop_last() =~= m);
    let c = CellView {
        family: TXN_FAMILY@,
        qualifier: last->SetCell_qualifier,
        value: last->SetCell_value,
        timestamp: at,
    };
    let before = applied(row, m, at);
    assert(applied(row, all, at) == seq![c] + before);
    lemma_newest_of_concat(seq![c], before, TXN_FAMILY@, q);
    assert(seq![c].drop_last() =~= Seq::<CellView>::empty());
    assert(newest_of(seq![c].drop_last(), TXN_FAMILY@, q) is None);
}

proof fn lemma_opens(serialized: Seq<u8>, participants: Seq<PartView>, now: int)
    requires
        read_parts(serialized) == Some(participants),
        i64::MIN <= now <= i64::MAX,
    ensures
        opens(open_mutations(serialized, now), participants, now),
{
    let m = open_mutations(serialized, now);
    let row = Seq::<CellView>::empty();
    let none = Seq::<MutView>::empty();
    let m1 = none.push(log_set("state"@, encode_utf8(STATE_PENDING@)));
    let m2 = m1.push(log_set("started_at"@, encode_utf8(signed_decimal(now))));
    let m3 = m2.push(log_set("participants"@, serialized));
    assert(m =~= m3);
    lemma_log_names();
    utf8_round_trip(STATE_PENDING@);
    utf8_round_trip(signed_decimal(now));
    numeral_round_trip(now, i64::MIN as int, i64::MAX as int);
    assert forall|at: int| #![trigger applied(row, m, at)]
        logged(log_read(applied(row, m, at))) == Some(
            TxnView {
                state: STATE_PENDING@,
                participants: Some(participants),
                mutations: None,
                stream_records: None,
            },
        ) && log_started(log_read(applied(row, m, at))) == Some(now) by {
        let after = applied(row, m, at);
        assert forall|q: Seq<u8>| #[trigger] newest_of(after, TXN_FAMILY@, q) == if q
            == encode_utf8("participants"@) {
            Some(log_cell(q, serialized, at))
        } else if q == encode_utf8("started_at"@) {
            Some(log_cell(q, encode_utf8(signed_decimal(now)), at))
        } else if q == encode_utf8("state"@) {
            Some(log_cell(q, encode_utf8(STATE_PENDING@), at))
        } else {
            None
        } by {
            lemma_set(row, m2, log_set("participants"@, serialized), at, q);
            lemma_set(
                row,
                m1,
                log_set("started_at"@, encode_utf8(signed_decimal(now))),
                at,
                q,
            );
            lemma_set(row, none, log_set("state"@, encode_utf8(STATE_PENDING@)), at, q);
            assert(applied(row, none, at) == row);
        }
        lemma_log_read(after, encode_utf8("state"@));
        lemma_log_read(after, encode_utf8("started_at"@));
        lemma_log_read(after, encode_utf8("participants"@));
        lemma_log_read(after, encode_utf8("mutations"@));
        lemma_log_read(after, encode_utf8("stream_records"@));
    }
}

/// A cell of the log.
pub open spec fn log_cell(qualifier: Seq<u8>, value: Seq<u8>, at: int) -> CellView {
    CellView { family: TXN_FAMILY@, qualifier, value, timestamp: at }
}

proof fn lemma_commits(serialized: Seq<u8>, records: Option<Seq<u8>>, changes: Seq<PartMutView>)
    requires
        read_changes(serialized) == Some(changes),
    ensures
        commits(commit_mutations(serialized, records), changes),
{
    let m = commit_mutations(serialized, records);
    let none = Seq::<MutView>::empty();
    let m1 = none.push(log_set("state"@, encode_utf8(STATE_COMMITTED@)));
    let m2 = m1.push(log_set("mutations"@, serialized));
    match records {
        Some(r) => {
            assert(m =~= m2.push(log_set("stream_records"@, r)));
        },
        None => {
            assert(m =~= m2);
        },
    }
    lemma_log_names();
    utf8_round_trip(STATE_COMMITTED@);
    assert forall|row: Seq<CellView>, at: int| #![trigger applied(row, m, at)]
        ({
            let after = log_read(applied(row, m, at));
            &&& logged(after) matches Some(t) && t.state == STATE_COMMITTED@ && t.mutations
                == Some(changes) && t.participants == log_parts(log_read(row))
            &&& log_started(after) == log_started(log_read(row))
        }) by {
        let after = applied(row, m, at);
        assert forall|q: Seq<u8>| q != encode_utf8("stream_records"@) implies #[trigger] newest_of(
            after,
            TXN_FAMILY@,
            q,
        ) == if q == encode_utf8("mutations"@) {
            Some(log_cell(q, serialized, at))
        } else if q == encode_utf8("state"@) {
            Some(log_cell(q, encode_utf8(STATE_COMMITTED@), at))
        } else {
            newest_of(row, TXN_FAMILY@, q)
        } by {
            if let Some(r) = records {
                lemma_set(row, m2, log_set("stream_records"@, r), at, q);
            }
            lemma_set(row, m1, log_set("mutations"@, serialized), at, q);
            lemma_set(row, none, log_set("state"@, encode_utf8(STATE_COMMITTED@)), at, q);
            assert(applied(row, none, at) == row);
        }
        lemma_log_read(after, encode_utf8("state"@));
        lemma_log_read(after, encode_utf8("started_at"@));
        lemma_log_read(after, encode_utf8("participants"@));
        lemma_log_read(after, encode_utf8("mutations"@));
        lemma_log_read(row, encode_utf8("started_at"@));
        lemma_log_read(row, encode_utf8("participants"@));
    }
}

/// What the log says of a transaction through its life. One that was opened is
/// pending, began when it was opened and names exactly the rows that it was opened
/// with. Once committed it is said to be, with exactly the changes and the stream
/// records that it was committed with, and still with its rows and its start.
/// Another state takes the place of the state alone.
#[verifier::rlimit(40)]
pub proof fn the_log_tells_the_transaction(
    row: Seq<CellView>,
    opened: Seq<u8>,
    parts: Seq<PartView>,
    committed: Seq<u8>,
    changes: Seq<PartMutView>,
    records: Option<Seq<u8>>,
    state: Seq<char>,
    began: int,
    at: int,
)
    requires
        read_parts(opened) == Some(parts),
        read_changes(committed) == Some(changes),
        i64::MIN <= began <= i64::MAX,
    ensures
        ({
            let first = applied(Seq::empty(), open_mutations(opened, began), at);
            &&& logged(log_read(first)) == Some(
                TxnView {
                    state: "PENDING"@,
                    participants: Some(parts),
                    mutations: None,
                    stream_records: None,
                },
            )
            &&& log_started(log_read(first)) == Some(began)
            &&& ({
                let second = applied(first, commit_mutations(committed, records), at);
                &&& logged(log_read(second)) == Some(
                    TxnView {
                        state: "COMMITTED"@,
                        participants: Some(parts),
                        mutations: Some(changes),
                        stream_records: records,
                    },
                )
                &&& log_started(log_read(second)) == Some(began)
            })
        }),
        ({
            let after = log_read(applied(row, state_mutations(state), at));
            let before = log_read(row);
            &&& log_text(after, "state"@) == Some(state)
            &&& log_parts(after) == log_parts(before)
            &&& log_changes(after) == log_changes(before)
            &&& log_records(after) == log_records(before)
            &&& log_started(after) == log_started(before)
        }),
{
    lemma_opens(opened, parts, began);
    lemma_commits(committed, records, changes);
    lemma_log_names();
    let empty = Seq::<CellView>::empty();
    let none = Seq::<MutView>::empty();
    let q = encode_utf8("stream_records"@);
    let first = applied(empty, open_mutations(opened, began), at);
    let m = commit_mutations(committed, records);
    let second = applied(first, m, at);
    let m1 = none.push(log_set("state"@, encode_utf8(STATE_COMMITTED@)));
    let m2 = m1.push(log_set("mutations"@, committed));
    match records {
        Some(r) => {
            assert(m =~= m2.push(log_set("stream_records"@, r)));
            lemma_set(first, m2, log_set("stream_records"@, r), at, q);
        },
        None => {
            assert(m =~= m2);
        },
    }
    lemma_set(first, m1, log_set("mutations"@, committed), at, q);
    lemma_set(first, none, log_set("state"@, encode_utf8(STATE_COMMITTED@)), at, q);
    assert(applied(first, none, at) == first);
    lemma_log_read(first, q);
    lemma_log_read(second, q);
    assert(log_records(log_read(second)) == records);
    lemma_state_set(row, state, at);
}

/// What the log says once another state was set.
pub proof fn lemma_state_set(row: Seq<CellView>, state: Seq<char>, at: int)
    ensures
        ({
            let after = log_read(applied(row, state_mutations(state), at));
            let before = log_read(row);
            &&& log_text(after, "state"@) == Some(state)
            &&& log_parts(after) == log_parts(before)
            &&& log_changes(after) == log_changes(before)
            &&& log_records(after) == log_records(before)
            &&& log_started(after) == log_started(before)
        }),
{
    lemma_log_names();
    let none = Seq::<MutView>::empty();
    let s = log_set("state"@, encode_utf8(state));
    assert(state_mutations(state) =~= none.push(s));
    utf8_round_trip(state);
    assert(applied(row, none, at) == row);
    let after = applied(row, state_mutations(state), at);
    assert forall|k: Seq<u8>| #[trigger]
        column_last(log_read(after), TXN_FAMILY@, k) == if k == encode_utf8("state"@) {
            Some(log_cell(k, encode_utf8(state), at))
        } else {
            column_last(log_read(row), TXN_FAMILY@, k)
        } by {
        lemma_set(row, none, s, at, k);
        lemma_log_read(after, k);
        lemma_log_read(row, k);
    }
}

/// A transaction is opened once: where the log has a row of that name it stays as it
/// is, and otherwise it is pending then, with the rows that it was opened with.
pub proof fn transactions_are_opened_once(
    client: BigtableClient,
    row: Seq<CellView>,
    txn: Seq<char>,
    opened: Seq<u8>,
    parts: Seq<PartView>,
    began: int,
    at: int,
)
    requires
        read_parts(opened) == Some(parts),
        i64::MIN <= began <= i64::MAX,
    ensures
        ({
            let q = open_request(client, txn, opened, began);
            let known = exists|i: int|
                0 <= i < row.len() && (#[trigger] row[i]).family == TXN_FAMILY@;
            let after = crate::bigtable::checked(row, q, at);
            &&& q.table == table_path(client.project_id@, client.instance_id@, TXN_LOG_TABLE@)
            &&& q.key == encode_utf8("txn:"@ + txn)
            &&& matches_row(q.predicate, row) <==> known
            &&& known ==> after == row
            &&& row.len() == 0 ==> logged(log_read(after)) == Some(
                TxnView {
                    state: "PENDING"@,
                    participants: Some(parts),
                    mutations: None,
                    stream_records: None,
                },
            ) && log_started(log_read(after)) == Some(began)
        }),
{
    lemma_opens(opened, parts, began);
    let fam = FilterView::Family(TXN_FAMILY@);
    let found = cells_passing(fam, row);
    assert(passed(fam, row) == found);
    if found.len() > 0 {
        let c = found[0];
        assert(found.contains(c));
        lemma_cells_passing(fam, row, c);
        lemma_family_t(c);
        let i = choose|i: int| 0 <= i < row.len() && row[i] == c;
        assert(row[i].family == TXN_FAMILY@);
    }
    if exists|i: int| 0 <= i < row.len() && (#[trigger] row[i]).family == TXN_FAMILY@ {
        let i = choose|i: int| 0 <= i < row.len() && (#[trigger] row[i]).family == TXN_FAMILY@;
        lemma_family_t(row[i]);
        assert(row.contains(row[i]));
        lemma_cells_passing(fam, row, row[i]);
    }
    if row.len() == 0 {
        assert(row =~= Seq::<CellView>::empty());
    }
}

// ---------------------------------------------------------------------------
// Intents
// ---------------------------------------------------------------------------

/// Whether a cell is an intent that is not older than `cutoff`.
pub open spec fn is_intent(c: CellView, cutoff: int) -> bool {
    c.family == INTENT_FAMILY@ && intent_qualifier(c.qualifier) && c.timestamp >= cutoff
        && c.timestamp >= 0
}

proof fn lemma_intent_patterns(c: CellView)
    ensures
        cell_passes(FilterView::Family("m"@), c) <==> c.family == INTENT_FAMILY@,
        cell_passes(FilterView::Qualifier(encode_utf8("^intent:.*$"@)), c) <==> intent_qualifier(
            c.qualifier,
        ),
{
    reveal_strlit("m");
    is_ascii_chars_encode_utf8("m"@);
    let f = encode_utf8("m"@);
    assert("m"@[0] == 'm');
    assert(unanchored(f) == f);
    if encode_utf8(c.family) == f {
        utf8_injective(c.family, "m"@);
    }
    reveal_strlit("intent:");
    reveal_strlit("^intent:.*$");
    let p = "^intent:.*$"@;
    let lit = "intent:"@;
    is_ascii_chars_encode_utf8(p);
    is_ascii_chars_encode_utf8(lit);
    let b = encode_utf8(p);
    assert(p[0] == '^' && p[8] == '.' && p[9] == '*' && p[10] == '$');
    assert(b[0] == p[0] as u8 && b[8] == p[8] as u8 && b[9] == p[9] as u8 && b[10] == p[10] as u8);
    assert(b.skip(1).last() == b[10]);
    let u = unanchored(b);
    assert(u == b.skip(1).drop_last());
    assert(u.len() == 9);
    assert(u[7] == b[8] && u[8] == b[9]);
    assert forall|i: int| 0 <= i < 7 implies u.take(7)[i] == encode_utf8(lit)[i] by {
        assert(p[i + 1] == lit[i]);
    }
    assert(u.take(7) =~= encode_utf8(lit));
}

/// What the filter for intents finds.
pub proof fn intent_presence_matches(row: Seq<CellView>, cutoff: int)
    ensures
        matches_row(intent_presence_filter(cutoff), row) <==> exists|i: int|
            0 <= i < row.len() && is_intent(#[trigger] row[i], cutoff),
{
    let fam = FilterView::Family("m"@);
    let qual = FilterView::Qualifier(encode_utf8("^intent:.*$"@));
    let since = FilterView::Timestamps { start: larger(cutoff, 0), end: 0 };
    let l = seq![fam, qual, since, FilterView::Limit(1)];
    reveal_with_fuel(passed_chain, 5);
    assert(l.drop_last() =~= seq![fam, qual, since]);
    assert(l.drop_last().drop_last() =~= seq![fam, qual]);
    assert(l.drop_last().drop_last().drop_last() =~= seq![fam]);
    let a = cells_passing(fam, row);
    let b = cells_passing(qual, a);
    let r = cells_passing(since, b);
    let n = newest(r, 1);
    assert(passed_chain(l, row) == n);
    if n.len() > 0 {
        let c = n[0];
        assert(n.contains(c));
        crate::bigtable::lemma_newest_cells(r, c);
        lemma_newest_of_column(r, c.family, c.qualifier);
        lemma_cells_passing(since, b, c);
        lemma_cells_passing(qual, a, c);
        lemma_cells_passing(fam, row, c);
        lemma_intent_patterns(c);
        let i = choose|i: int| 0 <= i < row.len() && row[i] == c;
        assert(is_intent(row[i], cutoff));
    }
    if exists|i: int| 0 <= i < row.len() && is_intent(#[trigger] row[i], cutoff) {
        let i = choose|i: int| 0 <= i < row.len() && is_intent(#[trigger] row[i], cutoff);
        let c = row[i];
        lemma_intent_patterns(c);
        assert(row.contains(c));
        lemma_cells_passing(fam, row, c);
        lemma_cells_passing(qual, a, c);
        lemma_cells_passing(since, b, c);
        lemma_newest_of_column(r, c.family, c.qualifier);
        let j = choose|j: int| 0 <= j < r.len() && r[j] == c;
        assert(in_column(r[j], c.family, c.qualifier));
        let m = newest_of(r, c.family, c.qualifier).unwrap();
        crate::bigtable::lemma_newest_cells(r, m);
        assert(n.contains(m));
    }
}

/// Whether a transaction may be named in the column of an intent.
pub open spec fn plain_id(txn: Seq<char>) -> bool {
    forall|i: int|
        0 <= i < encode_utf8(txn).len() ==> #[trigger] encode_utf8(txn)[i] != crate::filter::byte(
            '\n',
        )
}

/// While a transaction holds a row, no other one gets it: once the intent was
/// placed, every later request for an intent matches, until the intent is stale.
pub proof fn intent_excludes(
    client: BigtableClient,
    row: Seq<CellView>,
    txn: Seq<char>,
    p: PartView,
    cutoff: int,
    now: int,
    later_cutoff: int,
)
    requires
        plain_id(txn),
        0 <= now,
        later_cutoff <= now,
        !matches_row(intent_request(client, txn, p, cutoff).predicate, row),
    ensures
        matches_row(
            intent_presence_filter(later_cutoff),
            crate::bigtable::checked(row, intent_request(client, txn, p, cutoff), now),
        ),
{
    let q = intent_request(client, txn, p, cutoff);
    let after = crate::bigtable::checked(row, q, now);
    let m = q.if_false;
    assert(m.drop_last() =~= Seq::<MutView>::empty());
    assert(applied(row, m.drop_last(), now) == row);
    let c = CellView {
        family: INTENT_FAMILY@,
        qualifier: intent_column(txn),
        value: encode_utf8(txn),
        timestamp: now,
    };
    assert(after == seq![c] + row);
    assert(after[0] == c);
    lemma_intent_column(txn);
    assert(is_intent(after[0], later_cutoff));
    intent_presence_matches(after, later_cutoff);
}

proof fn lemma_intent_column(txn: Seq<char>)
    requires
        plain_id(txn),
    ensures
        intent_qualifier(intent_column(txn)),
{
    let a = INTENT_QUALIFIER_PREFIX@;
    crate::text::lemma_encode_concat(a, txn);
    let q = intent_column(txn);
    let pre = encode_utf8(a);
    assert(q == pre + encode_utf8(txn));
    assert(q.subrange(0, pre.len() as int) =~= pre);
    assert(pre.is_prefix_of(q));
    assert forall|i: int| pre.len() <= i < q.len() implies #[trigger] q[i] != crate::filter::byte(
        '\n',
    ) by {
        assert(q[i] == encode_utf8(txn)[i - pre.len()]);
    }
}

/// Clearing an intent takes it from the row and leaves every other column as it
/// was.
pub proof fn clear_intent_effect(
    client: BigtableClient,
    row: Seq<CellView>,
    txn: Seq<char>,
    p: PartView,
    now: int,
)
    ensures
        ({
            let after = applied(row, clear_request(client, txn, p).mutations, now);
            &&& newest_of(after, INTENT_FAMILY@, intent_column(txn)) is None
            &&& forall|f: Seq<char>, q: Seq<u8>|
                f != INTENT_FAMILY@ || q != intent_column(txn) ==> #[trigger] newest_of(after, f, q)
                    == newest_of(row, f, q)
        }),
{
    let m = clear_request(client, txn, p).mutations;
    assert(m.drop_last() =~= Seq::<MutView>::empty());
    assert(applied(row, m.drop_last(), now) == row);
    assert(applied(row, m, now) == without_column(row, INTENT_FAMILY@, intent_column(txn)));
    lemma_without_column(row, INTENT_FAMILY@, intent_column(txn));
}

/// How many times an intent is tried.
pub const MAX_INTENT_ATTEMPTS: u32 = 5;

/// How long to wait before the second try, in milliseconds.
pub const INTENT_DELAY_MS: u64 = 10;

/// Tries to place an intent.
#[derive(Clone, Copy, Debug, PartialEq, Eq)]
pub struct IntentAttempts {
    pub attempts: u32,
    pub delay_ms: u64,
}

/// What to do after a try.
#[derive(Clone, Copy, Debug, PartialEq, Eq)]
pub enum IntentStep {
    /// The intent was placed.
    Placed,
    /// Another transaction holds the row.
    Conflict,
    /// Wait, and try once more.
    Retry { sleep_ms: u64 },
}

pub open spec fn doubled(base: nat, n: nat) -> nat
    decreases n,
{
    if n == 0 {
        base
    } else {
        2 * doubled(base, (n - 1) as nat)
    }
}

impl IntentAttempts {
    /// Each wait is twice as long as the one before.
    pub open spec fn wf(&self) -> bool {
        self.attempts < MAX_INTENT_ATTEMPTS && self.delay_ms == doubled(
            INTENT_DELAY_MS as nat,
            self.attempts as nat,
        )
    }

    pub fn new() -> (r: IntentAttempts)
        ensures
            r.wf(),
            r.attempts == 0,
    {
        IntentAttempts { attempts: 0, delay_ms: INTENT_DELAY_MS }
    }

    /// Takes in whether the filter of a request for the intent matched.
    /// `jitter_ms` is what chance adds to the wait.
    pub fn step(&mut self, predicate_matched: bool, jitter_ms: u64) -> (r: IntentStep)
        requires
            old(self).wf(),
            jitter_ms < old(self).delay_ms,
        ensures
            r == if !predicate_matched {
                IntentStep::Placed
            } else if old(self).attempts + 1 >= MAX_INTENT_ATTEMPTS {
                IntentStep::Conflict
            } else {
                IntentStep::Retry { sleep_ms: (old(self).delay_ms + jitter_ms) as u64 }
            },
            r is Retry ==> final(self).wf() && final(self).attempts == old(self).attempts + 1,
            !(r is Retry) ==> *final(self) == *old(self),
    {
        proof {
            lemma_doubled(INTENT_DELAY_MS as nat, self.attempts as nat);
        }
        if !predicate_matched {
            return IntentStep::Placed;
        }
        if self.attempts + 1 >= MAX_INTENT_ATTEMPTS {
            return IntentStep::Conflict;
        }
        let sleep_ms: u64 = self.delay_ms + jitter_ms;
        self.attempts = self.attempts + 1;
        self.delay_ms = self.delay_ms * 2;
        IntentStep::Retry { sleep_ms }
    }
}

pub proof fn lemma_doubled(base: nat, n: nat)
    requires
        n < 8,
    ensures
        doubled(base, n) <= 128 * base,
        n > 0 ==> doubled(base, n) == 2 * doubled(base, (n - 1) as nat),
{
    reveal_with_fuel(doubled, 9);
}

/// The table of the log, and its families.
pub fn ensure_txn_log_table() -> (r: (String, Vec<String>))
    ensures
        r.0@ == TXN_LOG_TABLE@,
        crate::text::views(r.1@) == seq![TXN_FAMILY@],
{
    let v = vec![text(TXN_FAMILY)];
    assert(crate::text::views(v@) =~= seq![TXN_FAMILY@]);
    (text(TXN_LOG_TABLE), v)
}

} // verus!

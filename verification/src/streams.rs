//! Streams of the changes of a table.
//!
//! A stream has a row in the catalog, and so has each of its records. There is
//! one shard. Sequence numbers begin with the time in nanoseconds, padded to 20
//! digits, so that they sort by time.

use vstd::prelude::*;
use vstd::string::*;
use vstd::utf8::encode_utf8;

use crate::bytes::lex_lt;
use crate::cell::{item_to_json, map_json};
use crate::item_ops::opt_ref_view;
use crate::json::{json_bytes, json_to_vec, JsonView};
use crate::keys::{padded_order, ten_to};
use crate::random::{iso_text, iso_time, now_nanos, random_u32};
use crate::table::{StreamSpecification, StreamViewType};
use crate::text::{
    cat2, cat6, decimal, hex_digits, i128_text, padded_text, push_hex, signed_decimal, text,
    zero_padded,
};
use crate::value::{
    copy_item, extract_key, key_attributes, key_attributes_lookup, lookup, opt_item_view,
    schema_view, Item, ItemView, KeySchemaElement, SchemaView,
};

verus! {

/// The one shard of a stream.
pub const SINGLE_SHARD_ID: &'static str = "shardId-000";

pub const REGION: &'static str = "us-east-1";

pub const EVENT_SOURCE: &'static str = "aws:dynamodb";

pub const EVENT_VERSION: &'static str = "1.1";

/// A stream.
#[derive(Debug, PartialEq, Eq)]
pub struct StreamMeta {
    pub stream_arn: String,
    pub stream_label: String,
    pub stream_view_type: StreamViewType,
    pub table_name: String,
    pub table_arn: String,
    pub key_schema: Vec<KeySchemaElement>,
}

/// The name of a stream.
pub open spec fn stream_arn(account: Seq<char>, table: Seq<char>, label: Seq<char>) -> Seq<char> {
    "arn:aws:dynamodb:us-east-1:"@ + account + ":table/"@ + table + "/stream/"@ + label
}

/// Builds the name of a stream.
pub fn build_stream_arn(account_id: &str, table_name: &str, ts_iso: &str) -> (r: String)
    ensures
        r@ == stream_arn(account_id@, table_name@, ts_iso@),
{
    cat6(
        "arn:aws:dynamodb:us-east-1:",
        account_id,
        ":table/",
        table_name,
        "/stream/",
        ts_iso,
    )
}

/// The label of a stream that begins at a time.
pub open spec fn stream_label(nanos: int) -> Seq<char> {
    match iso_time(nanos) {
        Some(t) => t,
        None => signed_decimal(nanos),
    }
}

/// The label of a stream that begins at the given time.
pub fn stream_label_at(nanos: i128) -> (r: String)
    requires
        nanos > i128::MIN,
    ensures
        r@ == stream_label(nanos as int),
{
    match iso_text(nanos) {
        Some(t) => t,
        None => i128_text(nanos),
    }
}

/// The label of a stream that begins now.
pub fn stream_label_now() -> (r: String)
    ensures
        exists|n: i128| r@ == #[trigger] stream_label(n as int),
{
    let n = now_nanos();
    let r = stream_label_at(n);
    assert(r@ == stream_label(n as int));
    r
}

/// A number, padded to 20 characters.
pub open spec fn time_digits(nanos: int) -> Seq<char> {
    if nanos < 0 {
        "-"@ + zero_padded(decimal((-nanos) as nat), 19)
    } else {
        zero_padded(decimal(nanos as nat), 20)
    }
}

/// The sequence number of a time and a number left to chance.
pub open spec fn sequence_number(nanos: int, suffix: u32) -> Seq<char> {
    time_digits(nanos) + hex_digits(suffix as nat, 8)
}

/// The sequence number of the given time and the given suffix.
pub fn sequence_number_at(nanos: i128, suffix: u32) -> (r: String)
    requires
        nanos > i128::MIN,
    ensures
        r@ == sequence_number(nanos as int, suffix),
{
    let mut r = if nanos < 0 {
        let digits = padded_text((-nanos) as u128, 19);
        cat2("-", digits.as_str())
    } else {
        padded_text(nanos as u128, 20)
    };
    push_hex(&mut r, suffix as u128, 8);
    r
}

/// A sequence number for a record that is written now.
pub fn next_sequence_number() -> (r: String)
    ensures
        exists|n: i128, s: u32| r@ == #[trigger] sequence_number(n as int, s),
{
    let n = now_nanos();
    let s = random_u32();
    let r = sequence_number_at(n, s);
    assert(r@ == sequence_number(n as int, s));
    r
}

/// Sequence numbers sort by time, whatever their suffixes.
pub proof fn sequence_numbers_sort_by_time(a: int, b: int, s: u32, t: u32)
    requires
        0 <= a < b < ten_to(20),
    ensures
        lex_lt(encode_utf8(sequence_number(a, s)), encode_utf8(sequence_number(b, t))),
{
    padded_order(
        a as nat,
        b as nat,
        20,
        hex_digits(s as nat, 8),
        hex_digits(t as nat, 8),
    );
}

// ---------------------------------------------------------------------------
// Records
// ---------------------------------------------------------------------------

/// What happened to an item.
#[derive(Clone, Copy, Debug, PartialEq, Eq, Structural)]
pub enum StreamEventName {
    Insert,
    Modify,
    Remove,
}

/// A change of an item. The time is in seconds.
#[derive(Debug, PartialEq, Eq)]
pub struct StreamRecordData {
    pub approximate_creation_date_time: i64,
    pub keys: Item,
    pub new_image: Option<Item>,
    pub old_image: Option<Item>,
    pub sequence_number: String,
    pub size_bytes: i64,
    pub stream_view_type: StreamViewType,
}

/// A record of a stream.
#[derive(Debug, PartialEq, Eq)]
pub struct StreamRecord {
    pub event_id: String,
    pub event_name: StreamEventName,
    pub event_version: String,
    pub event_source: String,
    pub aws_region: String,
    pub dynamodb: StreamRecordData,
}

/// What a record is.
pub struct RecordView {
    pub event_id: Seq<char>,
    pub event_name: StreamEventName,
    pub event_version: Seq<char>,
    pub event_source: Seq<char>,
    pub aws_region: Seq<char>,
    pub created: int,
    pub keys: ItemView,
    pub new_image: Option<ItemView>,
    pub old_image: Option<ItemView>,
    pub sequence_number: Seq<char>,
    pub size_bytes: int,
    pub view: StreamViewType,
}

impl StreamRecord {
    pub open spec fn view(&self) -> RecordView {
        RecordView {
            event_id: self.event_id@,
            event_name: self.event_name,
            event_version: self.event_version@,
            event_source: self.event_source@,
            aws_region: self.aws_region@,
            created: self.dynamodb.approximate_creation_date_time as int,
            keys: self.dynamodb.keys@,
            new_image: opt_item_view(self.dynamodb.new_image),
            old_image: opt_item_view(self.dynamodb.old_image),
            sequence_number: self.dynamodb.sequence_number@,
            size_bytes: self.dynamodb.size_bytes as int,
            view: self.dynamodb.stream_view_type,
        }
    }
}

pub open spec fn includes_new(v: StreamViewType) -> bool {
    v == StreamViewType::NewImage || v == StreamViewType::NewAndOldImages
}

pub open spec fn includes_old(v: StreamViewType) -> bool {
    v == StreamViewType::OldImage || v == StreamViewType::NewAndOldImages
}

/// Whether records hold the item after the change.
pub fn view_includes_new(v: StreamViewType) -> (r: bool)
    ensures
        r == includes_new(v),
{
    v == StreamViewType::NewImage || v == StreamViewType::NewAndOldImages
}

/// Whether records hold the item before the change.
pub fn view_includes_old(v: StreamViewType) -> (r: bool)
    ensures
        r == includes_old(v),
{
    v == StreamViewType::OldImage || v == StreamViewType::NewAndOldImages
}

/// What happened to an item, by whether it was there before and after.
pub open spec fn event_of(old: Option<ItemView>, new: Option<ItemView>) -> Option<StreamEventName> {
    match (old, new) {
        (None, Some(_)) => Some(StreamEventName::Insert),
        (Some(_), Some(_)) => Some(StreamEventName::Modify),
        (Some(_), None) => Some(StreamEventName::Remove),
        (None, None) => None,
    }
}

/// How long an item is in JSON.
pub open spec fn json_size(item: ItemView) -> nat {
    json_bytes(JsonView::Object(map_json(item))).len()
}

/// The size that a record gives: that of its keys and of the new item, where it
/// holds it. It is at most what the field can hold.
pub open spec fn record_size(keys: ItemView, new_image: Option<ItemView>) -> int {
    let n = json_size(keys) + match new_image {
        Some(i) => json_size(i),
        None => 0,
    };
    if n <= i64::MAX {
        n as int
    } else {
        i64::MAX as int
    }
}

/// The record of a change.
pub open spec fn record_of(
    spec_: StreamSpecification,
    schema: SchemaView,
    old: Option<ItemView>,
    new: Option<ItemView>,
    seq: Seq<char>,
    event_id: Seq<char>,
    created: int,
) -> Option<RecordView> {
    match (spec_.stream_enabled, spec_.stream_view_type, event_of(old, new)) {
        (true, Some(view), Some(event_name)) => {
            let keys = key_attributes(
                match new {
                    Some(n) => n,
                    None => old->0,
                },
                schema,
            );
            let new_image = if includes_new(view) {
                new
            } else {
                None
            };
            let old_image = if includes_old(view) {
                old
            } else {
                None
            };
            Some(
                RecordView {
                    event_id,
                    event_name,
                    event_version: EVENT_VERSION@,
                    event_source: EVENT_SOURCE@,
                    aws_region: REGION@,
                    created,
                    keys,
                    new_image,
                    old_image,
                    sequence_number: seq,
                    size_bytes: record_size(keys, new_image),
                    view,
                },
            )
        },
        _ => None,
    }
}

/// A record tells what happened to an item. There is one exactly where the table
/// has a stream with a view and there was an item before or after. Its keys are the
/// attributes of the key schema, all of them and no others, with the values that
/// the item has: as it is after the change, or was before it where it is gone. It
/// holds the images that the view asks for, whole, and no others.
pub proof fn records_tell_the_change(
    spec_: StreamSpecification,
    schema: SchemaView,
    old: Option<ItemView>,
    new: Option<ItemView>,
    seq: Seq<char>,
    event_id: Seq<char>,
    created: int,
    name: Seq<char>,
)
    ensures
        record_of(spec_, schema, old, new, seq, event_id, created) is Some <==> (
        spec_.stream_enabled && spec_.stream_view_type is Some && (old is Some || new is Some)),
        record_of(spec_, schema, old, new, seq, event_id, created) matches Some(r) ==> {
            let item = if new is Some {
                new->0
            } else {
                old->0
            };
            let named = exists|i: int| 0 <= i < schema.len() && (#[trigger] schema[i]).0 == name;
            let view = spec_.stream_view_type->0;
            &&& named ==> lookup(r.keys, name) == lookup(item, name)
            &&& !named ==> lookup(r.keys, name) is None
            &&& r.event_name == StreamEventName::Insert <==> old is None
            &&& r.event_name == StreamEventName::Remove <==> new is None
            &&& r.new_image == match view {
                StreamViewType::NewImage => new,
                StreamViewType::NewAndOldImages => new,
                _ => None,
            }
            &&& r.old_image == match view {
                StreamViewType::OldImage => old,
                StreamViewType::NewAndOldImages => old,
                _ => None,
            }
            &&& r.view == view
            &&& r.sequence_number == seq
            &&& r.event_id == event_id
            &&& r.created == created
            &&& r.event_source == "aws:dynamodb"@
            &&& r.event_version == "1.1"@
            &&& r.aws_region == "us-east-1"@
        },
{
    let item = if new is Some {
        new->0
    } else {
        old->0
    };
    key_attributes_lookup(item, schema, name);
}

/// The size of a record is what its keys and its new image take in JSON.
pub proof fn records_give_their_size(
    spec_: StreamSpecification,
    schema: SchemaView,
    old: Option<ItemView>,
    new: Option<ItemView>,
    seq: Seq<char>,
    event_id: Seq<char>,
    created: int,
)
    ensures
        record_of(spec_, schema, old, new, seq, event_id, created) matches Some(r) ==> {
            let keys = json_bytes(JsonView::Object(map_json(r.keys))).len();
            let size = match r.new_image {
                Some(n) => keys + json_bytes(JsonView::Object(map_json(n))).len(),
                None => keys,
            };
            size <= 0x7FFF_FFFF_FFFF_FFFF ==> r.size_bytes == size
        },
{
}

fn size_in_json(item: &Item) -> (r: usize)
    ensures
        r == json_size(item@),
{
    let v = item_to_json(item);
    match json_to_vec(&v) {
        Ok(b) => b.len(),
        Err(_) => 0,
    }
}

fn copy_opt(i: Option<&Item>) -> (r: Option<Item>)
    ensures
        opt_item_view(r) == opt_ref_view(i),
{
    match i {
        Some(x) => Some(copy_item(x)),
        None => None,
    }
}

/// Builds the record of a change; none where the table has no stream or nothing
/// happened.
pub fn build_record(
    spec_: &StreamSpecification,
    key_schema: &[KeySchemaElement],
    old: Option<&Item>,
    new: Option<&Item>,
    seq: &str,
    event_id: &str,
    creation_ts: i64,
) -> (r: Option<StreamRecord>)
    ensures
        record_of(
            *spec_,
            schema_view(key_schema@),
            opt_ref_view(old),
            opt_ref_view(new),
            seq@,
            event_id@,
            creation_ts as int,
        ) == match r {
            Some(x) => Some(x@),
            None => None,
        },
{
    if !spec_.stream_enabled {
        return None;
    }
    let view = match spec_.stream_view_type {
        Some(v) => v,
        None => return None,
    };
    let (event_name, representative) = match (old, new) {
        (None, Some(n)) => (StreamEventName::Insert, n),
        (Some(_), Some(n)) => (StreamEventName::Modify, n),
        (Some(o), None) => (StreamEventName::Remove, o),
        (None, None) => return None,
    };
    let keys = extract_key(representative, key_schema);
    let new_image = if view_includes_new(view) {
        copy_opt(new)
    } else {
        None
    };
    let old_image = if view_includes_old(view) {
        copy_opt(old)
    } else {
        None
    };
    let image_size: usize = match &new_image {
        Some(i) => size_in_json(i),
        None => 0,
    };
    let size: u128 = size_in_json(&keys) as u128 + image_size as u128;
    let size_bytes: i64 = if size <= i64::MAX as u128 {
        size as i64
    } else {
        i64::MAX
    };
    Some(
        StreamRecord {
            event_id: text(event_id),
            event_name,
            event_version: text(EVENT_VERSION),
            event_source: text(EVENT_SOURCE),
            aws_region: text(REGION),
            dynamodb: StreamRecordData {
                approximate_creation_date_time: creation_ts,
                keys,
                new_image,
                old_image,
                sequence_number: text(seq),
                size_bytes,
                stream_view_type: view,
            },
        },
    )
}

/// The row of a record in the catalog.
pub fn write_record(arn: &str, record: &StreamRecord) -> (r: String)
    ensures
        r@ == "stream_record:"@ + arn@ + ":"@ + SINGLE_SHARD_ID@ + ":"@ + record@.sequence_number,
{
    crate::keys::stream_record(arn, SINGLE_SHARD_ID, record.dynamodb.sequence_number.as_str())
}

/// The record that a change of a table leaves, and its row; none where the
/// table has no stream.
pub fn emit(
    arn: Option<&str>,
    spec_: Option<&StreamSpecification>,
    key_schema: &[KeySchemaElement],
    old: Option<&Item>,
    new: Option<&Item>,
    seq: &str,
    event_id: &str,
    creation_ts: i64,
) -> (r: Option<(String, StreamRecord)>)
    ensures
        match r {
            Some((k, x)) => arn is Some && spec_ is Some && record_of(
                *spec_->0,
                schema_view(key_schema@),
                opt_ref_view(old),
                opt_ref_view(new),
                seq@,
                event_id@,
                creation_ts as int,
            ) == Some(x@) && k@ == "stream_record:"@ + arn->0@ + ":"@ + SINGLE_SHARD_ID@ + ":"@
                + seq@,
            None => arn is None || spec_ is None || record_of(
                *spec_->0,
                schema_view(key_schema@),
                opt_ref_view(old),
                opt_ref_view(new),
                seq@,
                event_id@,
                creation_ts as int,
            ) is None,
        },
{
    match (arn, spec_) {
        (Some(a), Some(s)) => match build_record(
            s,
            key_schema,
            old,
            new,
            seq,
            event_id,
            creation_ts,
        ) {
            Some(record) => Some((write_record(a, &record), record)),
            None => None,
        },
        _ => None,
    }
}

} // verus!

//! Deletion of items whose time has come.
//!
//! The index of expiry times is gone through shard by shard, up to the present
//! second.

use vstd::prelude::*;
use vstd::string::*;
use vstd::utf8::encode_utf8;

use crate::bigtable::{
    delete_row_mutations, in_range, table_path, BigtableClient, BoundView, EndKey,
    MutateRowRequest, RangeView, ReadRowsRequest, Row,
};
use crate::bytes::bytes_copy;
use crate::error::ErrView;
use crate::filter::{newest_filter, FilterView};
use crate::query_scan::{range_read, read_range};
use crate::row_key::{decode_key, item_part, key_item, part_fits, row_key, row_key_round_trip};
use crate::shadows::ttl_entry_view;
use crate::sweeper::{Pager, SWEEP_PAGE};
use crate::table::TableKeyInfo;
use crate::text::{text, views};
use crate::ttl_key::{
    decode_ttl_key, encode_ttl_head, shard_of, ttl_entry, ttl_head, ttl_key, TTL_INDEX_TABLE,
};
use crate::value::{key_name, Item, ItemView, KeyType, SchemaView};

verus! {

/// The lock that a node holds while it sweeps.
pub const TTL_LOCK: &'static str = "ttl_worker";

/// The range of the entries of a shard whose time has come, from a start on.
pub open spec fn due_range(start: BoundView, shard: u8, now: int) -> RangeView {
    RangeView { start, end: BoundView::Open(ttl_head(shard, now + 1)) }
}

/// Begins at the first entry of a shard.
pub fn shard_start(shard_id: u8) -> (r: Pager)
    ensures
        r.start() == BoundView::Closed(ttl_head(shard_id, 0)),
{
    Pager::new(encode_ttl_head(shard_id, 0))
}

/// The read of the next page of the entries of a shard whose time has come.
pub fn sweep_shard(client: &BigtableClient, pager: &Pager, shard_id: u8, now_epoch_s: i64) -> (r:
    ReadRowsRequest)
    requires
        now_epoch_s < i64::MAX,
    ensures
        r@ == range_read(
            table_path(client.project_id@, client.instance_id@, TTL_INDEX_TABLE@),
            due_range(pager.start(), shard_id, now_epoch_s as int),
            SWEEP_PAGE as int,
            FilterView::Limit(1),
            false,
        ),
{
    let table = client.full_table_name(TTL_INDEX_TABLE);
    read_range(
        table.as_str(),
        pager.bound(),
        EndKey::Open(encode_ttl_head(shard_id, now_epoch_s + 1)),
        SWEEP_PAGE,
        newest_filter(),
        false,
    )
}

/// The first page of a shard begins a range that holds exactly the entries of
/// that shard whose time has come.
pub proof fn sweep_finds_due(
    account: Seq<char>,
    table: Seq<char>,
    base: Seq<u8>,
    expiry: int,
    shard: u8,
    now: int,
)
    requires
        i64::MIN <= expiry <= i64::MAX,
        0 <= now < i64::MAX,
    ensures
        in_range(
            ttl_key(account, table, base, expiry),
            due_range(BoundView::Closed(ttl_head(shard, 0)), shard, now),
        ) <==> (shard_of(base) == shard && 0 <= expiry <= now),
{
    crate::ttl_key::sweep_range_exact(account, table, base, expiry, shard, now);
}

/// An item whose time has come.
#[derive(Debug, PartialEq, Eq)]
pub struct DueItem {
    pub account_id: String,
    pub table_name: String,
    pub base_row_key: Vec<u8>,
}

/// The item of an entry whose time has come.
pub open spec fn due(key: Seq<u8>, now: int) -> Option<(Seq<char>, Seq<char>, Seq<u8>)> {
    match ttl_entry(key) {
        Ok(e) => if e.expiry <= now {
            Some((e.account, e.table, e.base))
        } else {
            None
        },
        Err(_) => None,
    }
}

/// Takes the item from an entry. Entries that cannot be read, and those whose
/// time has not come, are left alone.
pub fn due_item(row: &Row, now_epoch_s: i64) -> (r: Option<DueItem>)
    ensures
        due(row@.key, now_epoch_s as int) == match r {
            Some(d) => Some((d.account_id@, d.table_name@, d.base_row_key@)),
            None => None,
        },
{
    match decode_ttl_key(row.key.as_slice()) {
        Ok((_, expiry, account_id, table_name, base_row_key)) => if expiry > now_epoch_s {
            None
        } else {
            Some(DueItem { account_id, table_name, base_row_key })
        },
        Err(_) => None,
    }
}

/// The entry of an item whose time has come gives the item back: its account, its
/// table and its row key, whatever they are. Before its time it gives nothing.
/// Names of 256 bytes and more do not fit into their length.
#[verifier::rlimit(40)]
pub proof fn entries_name_their_items(
    account: Seq<char>,
    table: Seq<char>,
    base: Seq<u8>,
    expiry: int,
    now: int,
)
    requires
        i64::MIN <= expiry <= i64::MAX,
        encode_utf8(account).len() < 256,
        encode_utf8(table).len() < 256,
    ensures
        expiry <= now ==> due(ttl_key(account, table, base, expiry), now) == Some(
            (account, table, base),
        ),
        expiry > now ==> due(ttl_key(account, table, base, expiry), now) is None,
{
    crate::ttl_key::ttl_key_round_trip(account, table, base, expiry);
}

/// What becomes of an item whose time has come.
#[derive(Debug, PartialEq, Eq)]
pub enum DueAction {
    /// The item with this key is deleted from its table.
    DeleteItem { key: Item },
    /// There is no such item or table: only the entry goes.
    DeleteEntry,
}

/// The key of the item to delete, of an item whose time has come, where there is
/// one.
pub open spec fn due_key(base: Seq<u8>, schema: Option<SchemaView>) -> Option<ItemView> {
    match schema {
        Some(s) => match key_item(base, s) {
            Ok(key) => Some(key),
            Err(_) => None,
        },
        None => None,
    }
}

/// An item whose time has come is deleted from its table by a key that addresses the
/// very row of the item; where the table is not known, nothing is deleted from it.
#[verifier::rlimit(40)]
pub proof fn due_items_are_deleted(item: ItemView, schema: SchemaView, base: Seq<u8>)
    requires
        row_key(item, schema) == Ok::<Seq<u8>, ErrView>(base),
        part_fits(item_part(item, key_name(schema, KeyType::Hash)->0, "missing key attr "@)),
    ensures
        due_key(base, Some(schema)) matches Some(key) && row_key(key, schema) == Ok::<
            Seq<u8>,
            ErrView,
        >(base),
        due_key(base, None) is None,
{
    row_key_round_trip(item, schema);
}

/// Decides what becomes of an item whose time has come: where its table is not
/// known, or its key cannot be read, only the entry goes.
pub fn due_action(item: &DueItem, key_info: Option<&TableKeyInfo>) -> (r: DueAction)
    ensures
        match r {
            DueAction::DeleteItem { key } => key_info is Some && key_item(
                item.base_row_key@,
                key_info->0@.schema,
            ) == Ok::<ItemView, ErrView>(key@),
            DueAction::DeleteEntry => key_info is None || key_item(
                item.base_row_key@,
                key_info->0@.schema,
            ) is Err,
        },
        match r {
            DueAction::DeleteItem { key } => Some(key@),
            DueAction::DeleteEntry => None,
        } == due_key(
            item.base_row_key@,
            match key_info {
                Some(i) => Some(i@.schema),
                None => None,
            },
        ),
{
    match key_info {
        None => DueAction::DeleteEntry,
        Some(info) => match decode_key(item.base_row_key.as_slice(), info.key_schema.as_slice()) {
            Ok(key) => DueAction::DeleteItem { key },
            Err(_) => DueAction::DeleteEntry,
        },
    }
}

/// The deletion of an entry.
pub fn delete_ttl_index_entry_raw(client: &BigtableClient, raw_key: &[u8]) -> (r: MutateRowRequest)
    ensures
        r@ == ttl_entry_view(*client, raw_key@, false),
{
    let r = MutateRowRequest {
        table_name: client.full_table_name(TTL_INDEX_TABLE),
        app_profile_id: String::new(),
        row_key: bytes_copy(raw_key),
        mutations: delete_row_mutations(),
    };
    assert(r@.profile =~= Seq::<char>::empty());
    r
}

/// The table of the index of expiry times, and its families.
pub fn ensure_ttl_index_table() -> (r: (String, Vec<String>))
    ensures
        r.0@ == TTL_INDEX_TABLE@,
        views(r.1@) == seq!["d"@],
{
    let v = vec![text("d")];
    assert(views(v@) =~= seq!["d"@]);
    (text(TTL_INDEX_TABLE), v)
}

} // verus!

//! Backups of tables: one row for the backup, and one for each item.

use serde_json::Value;
use vstd::prelude::*;
use vstd::string::*;

use crate::cell::{item_from_members, item_to_json, json_map};
use crate::error::{internal, invalid, ErrView, StorageError};
use crate::json::{
    get_truth_or, json_clone, json_field, json_get, json_node, json_record, json_to_vec, json_view,
    member, no_members, record_member, record_of_members, truth_field, with_member, with_truth,
    JsonNode, JsonView,
};
use crate::keys::{backup_item, backup_item_key};
use crate::lists::{lemma_next, reversed};
use crate::streams::json_size;
use crate::table::{
    copy_definitions, definition_views, BillingMode, GsiDescription, LsiDescription,
    TableDescription,
};
use crate::tables::{CreateTableInput, GsiInput, LsiInput};
use crate::text::{cat2, cat6, i64_text, opt_view, signed_decimal, str_eq, text};
use crate::value::{copy_schema, item_views, schema_view, Item, ItemView, KeySchemaElement};

verus! {

/// The name of a backup.
pub open spec fn backup_arn(account: Seq<char>, table: Seq<char>, ts_ms: int) -> Seq<char> {
    "arn:aws:dynamodb:us-east-1:"@ + account + ":table/"@ + table + "/backup/"@ + signed_decimal(
        ts_ms,
    )
}

/// A backup. The time is in milliseconds.
#[derive(Debug, PartialEq, Eq)]
pub struct BackupDetails {
    pub backup_arn: String,
    pub backup_name: String,
    pub backup_status: String,
    pub backup_type: String,
    pub backup_size_bytes: i64,
    pub backup_creation_ms: i64,
}

/// The table that a backup is of. The time is in seconds.
#[derive(Debug, PartialEq, Eq)]
pub struct SourceTableDetails {
    pub table_name: String,
    pub table_id: String,
    pub table_arn: String,
    pub key_schema: Vec<KeySchemaElement>,
    pub item_count: u64,
    pub table_size_bytes: i64,
    pub billing_mode: Option<String>,
    pub table_creation_date_time: i64,
}

/// A backup and the table that it is of.
#[derive(Debug, PartialEq, Eq)]
pub struct BackupDescription {
    pub backup_details: BackupDetails,
    pub source_table_details: SourceTableDetails,
}

/// How long items are in JSON.
pub open spec fn items_size(items: Seq<ItemView>) -> nat
    decreases items.len(),
{
    if items.len() == 0 {
        0
    } else {
        items_size(items.drop_last()) + json_size(items.last())
    }
}

/// A size, or the greatest that the field can hold.
pub open spec fn size_field(n: nat) -> int {
    if n <= i64::MAX {
        n as int
    } else {
        i64::MAX as int
    }
}

/// How a table is paid for, in words.
pub open spec fn billing_text(m: BillingMode) -> Seq<char> {
    match m {
        BillingMode::PayPerRequest => "PAY_PER_REQUEST"@,
        BillingMode::Provisioned => "PROVISIONED"@,
    }
}

/// Whether a description is that of a new backup of a table.
pub open spec fn describes_backup(
    b: BackupDescription,
    account: Seq<char>,
    table: Seq<char>,
    d: TableDescription,
    items: Seq<ItemView>,
    name: Seq<char>,
    ts_ms: int,
) -> bool {
    &&& b.backup_details.backup_arn@ == backup_arn(account, table, ts_ms)
    &&& b.backup_details.backup_name@ == name
    &&& b.backup_details.backup_status@ == "AVAILABLE"@
    &&& b.backup_details.backup_type@ == "USER"@
    &&& b.backup_details.backup_size_bytes == size_field(items_size(items))
    &&& b.backup_details.backup_creation_ms == ts_ms
    &&& b.source_table_details.table_name@ == table
    &&& b.source_table_details.table_id@ == d.table_id@
    &&& b.source_table_details.table_arn@ == d.table_arn@
    &&& schema_view(b.source_table_details.key_schema@) == d.schema()
    &&& b.source_table_details.item_count == items.len()
    &&& b.source_table_details.table_size_bytes == d.table_size_bytes
    &&& opt_view(b.source_table_details.billing_mode) == match d.billing_mode_summary {
        Some(s) => Some(billing_text(s.billing_mode)),
        None => None,
    }
    &&& b.source_table_details.table_creation_date_time == d.creation_date_time
}

/// A backup that is made: the rows of its items, and its description.
#[derive(Debug)]
pub struct BackupPlan {
    pub items: Vec<(String, Value)>,
    pub description: BackupDescription,
}

/// Whether rows are those of the items of a backup, in order, and give them
/// back.
pub open spec fn keeps_items(
    rows: Seq<(String, Value)>,
    arn: Seq<char>,
    items: Seq<ItemView>,
) -> bool {
    &&& rows.len() == items.len()
    &&& forall|i: int|
        0 <= i < rows.len() ==> (#[trigger] rows[i]).0@ == backup_item_key(arn, i as nat)
            && restored_item(json_view(rows[i].1)) == Some(items[i])
}

/// The item that a row of a backup holds.
pub open spec fn restored_item(v: JsonView) -> Option<ItemView> {
    match v {
        JsonView::Object(m) => json_map(m),
        _ => None,
    }
}

/// Plans a backup of the items of a table. They can be restored from it.
pub fn create_backup(
    account_id: &str,
    table_name: &str,
    desc: &TableDescription,
    items: &[Item],
    backup_name: &str,
    ts_ms: i64,
) -> (r: BackupPlan)
    ensures
        describes_backup(
            r.description,
            account_id@,
            table_name@,
            *desc,
            item_views(items@),
            backup_name@,
            ts_ms as int,
        ),
        keeps_items(
            r.items@,
            backup_arn(account_id@, table_name@, ts_ms as int),
            item_views(items@),
        ),
{
    let ts = i64_text(ts_ms);
    let arn = cat6(
        "arn:aws:dynamodb:us-east-1:",
        account_id,
        ":table/",
        table_name,
        "/backup/",
        ts.as_str(),
    );
    let ghost all = item_views(items@);
    let mut rows: Vec<(String, Value)> = Vec::new();
    let mut size: i64 = 0;
    let mut i: usize = 0;
    assert(items_size(all.take(0)) == 0);
    while i < items.len()
        invariant
            i <= items.len(),
            all == item_views(items@),
            arn@ == backup_arn(account_id@, table_name@, ts_ms as int),
            size == size_field(items_size(all.take(i as int))),
            rows@.len() == i,
            forall|j: int|
                0 <= j < i ==> (#[trigger] rows@[j]).0@ == backup_item_key(arn@, j as nat)
                    && restored_item(json_view(rows@[j].1)) == Some(all[j]),
        decreases items.len() - i,
    {
        proof {
            assert(all.take(i + 1).drop_last() =~= all.take(i as int));
            assert(all.take(i + 1).last() == items@[i as int]@);
        }
        let body = item_to_json(&items[i]);
        let n: usize = match json_to_vec(&body) {
            Ok(b) => b.len(),
            Err(_) => 0,
        };
        let total: i128 = size as i128 + n as i128;
        size = if total <= i64::MAX as i128 {
            total as i64
        } else {
            i64::MAX
        };
        rows.push((backup_item(arn.as_str(), i as u64), body));
        i = i + 1;
    }
    assert(all.take(i as int) =~= all);
    let billing_mode = match &desc.billing_mode_summary {
        Some(s) => match s.billing_mode {
            BillingMode::PayPerRequest => Some(text("PAY_PER_REQUEST")),
            BillingMode::Provisioned => Some(text("PROVISIONED")),
        },
        None => None,
    };
    let description = BackupDescription {
        backup_details: BackupDetails {
            backup_arn: arn,
            backup_name: text(backup_name),
            backup_status: text("AVAILABLE"),
            backup_type: text("USER"),
            backup_size_bytes: size,
            backup_creation_ms: ts_ms,
        },
        source_table_details: SourceTableDetails {
            table_name: text(table_name),
            table_id: text(desc.table_id.as_str()),
            table_arn: text(desc.table_arn.as_str()),
            key_schema: copy_schema(desc.key_schema.as_slice()),
            item_count: items.len() as u64,
            table_size_bytes: desc.table_size_bytes,
            billing_mode,
            table_creation_date_time: desc.creation_date_time,
        },
    };
    BackupPlan { items: rows, description }
}

/// Reads an item from a row of a backup.
pub fn restore_item(body: Value) -> (r: Result<Item, StorageError>)
    ensures
        match r {
            Ok(i) => restored_item(json_view(body)) == Some(i@),
            Err(e) => restored_item(json_view(body)) is None && e@ == ErrView::Internal(
                "decode item: expected attribute values"@,
            ),
        },
{
    match json_node(body) {
        JsonNode::Object(m) => match item_from_members(m) {
            Some(i) => Ok(i),
            None => Err(internal("decode item: expected attribute values")),
        },
        _ => Err(internal("decode item: expected attribute values")),
    }
}

// ---------------------------------------------------------------------------
// Rows of backups
// ---------------------------------------------------------------------------

/// The row of a backup: its description, and that of its table, in JSON.
pub open spec fn backup_row(backup: JsonView, source: JsonView) -> JsonView {
    json_record(seq![("backup_desc"@, backup), ("source_desc"@, source)])
}

/// Builds the row of a backup. Both descriptions can be read from it.
pub fn backup_record(backup: Value, source: Value) -> (r: Value)
    ensures
        json_view(r) == backup_row(json_view(backup), json_view(source)),
        json_field(json_view(r), "backup_desc"@) == Some(json_view(backup)),
        json_field(json_view(r), "source_desc"@) == Some(json_view(source)),
{
    let ghost bv = json_view(backup);
    let ghost sv = json_view(source);
    let m = with_member(no_members(), "backup_desc", backup);
    let m = with_member(m, "source_desc", source);
    proof {
        let s = seq![("backup_desc"@, bv), ("source_desc"@, sv)];
        assert(crate::json::member_views(m@) =~= s);
        record_member(s, "backup_desc"@);
        record_member(s, "source_desc"@);
        reveal_strlit("backup_desc");
        reveal_strlit("source_desc");
        assert("backup_desc"@[0] == 'b' && "source_desc"@[0] == 's');
        reveal_with_fuel(member, 2);
        assert(s.drop_last().last() == s[0]);
    }
    record_of_members(m)
}

/// The description in the row of a backup, by its name there.
pub open spec fn row_part(row: Option<JsonView>, part: Seq<char>, arn: Seq<char>) -> Result<
    JsonView,
    ErrView,
> {
    match row {
        None => Err(ErrView::Validation("Backup not found: "@ + arn)),
        Some(v) => match json_field(v, part) {
            Some(d) => Ok(d),
            None => Err(ErrView::Internal("backup row missing "@ + part)),
        },
    }
}

fn read_part(row: Option<&Value>, part: &str, arn: &str) -> (r: Result<Value, StorageError>)
    ensures
        match r {
            Ok(d) => row_part(crate::engine::opt_json_ref(row), part@, arn@) == Ok::<
                JsonView,
                ErrView,
            >(json_view(d)),
            Err(e) => row_part(crate::engine::opt_json_ref(row), part@, arn@) == Err::<
                JsonView,
                ErrView,
            >(e@),
        },
{
    match row {
        None => Err(invalid(cat2("Backup not found: ", arn).as_str())),
        Some(v) => match json_get(v, part) {
            Some(d) => Ok(json_clone(d)),
            None => Err(internal(cat2("backup row missing ", part).as_str())),
        },
    }
}

/// Takes the description of a backup from its row, in JSON.
pub fn describe_backup(row: Option<&Value>, arn: &str) -> (r: Result<Value, StorageError>)
    ensures
        match r {
            Ok(d) => row_part(crate::engine::opt_json_ref(row), "backup_desc"@, arn@) == Ok::<
                JsonView,
                ErrView,
            >(json_view(d)),
            Err(e) => row_part(crate::engine::opt_json_ref(row), "backup_desc"@, arn@) == Err::<
                JsonView,
                ErrView,
            >(e@),
        },
{
    read_part(row, "backup_desc", arn)
}

/// Takes the description of the table of a backup from its row, in JSON.
pub fn backup_source(row: Option<&Value>, arn: &str) -> (r: Result<Value, StorageError>)
    ensures
        match r {
            Ok(d) => row_part(crate::engine::opt_json_ref(row), "source_desc"@, arn@) == Ok::<
                JsonView,
                ErrView,
            >(json_view(d)),
            Err(e) => row_part(crate::engine::opt_json_ref(row), "source_desc"@, arn@) == Err::<
                JsonView,
                ErrView,
            >(e@),
        },
{
    read_part(row, "source_desc", arn)
}

/// What reading the description of a backup from its JSON comes to.
pub fn decoded_backup(parsed: Result<BackupDescription, String>) -> (r: Result<
    BackupDescription,
    StorageError,
>)
    ensures
        match parsed {
            Ok(d) => r == Ok::<BackupDescription, StorageError>(d),
            Err(m) => r matches Err(e) && e@ == ErrView::Internal("decode backup desc: "@ + m@),
        },
{
    match parsed {
        Ok(d) => Ok(d),
        Err(m) => Err(internal(cat2("decode backup desc: ", m.as_str()).as_str())),
    }
}

/// What reading the description of the table of a backup from its JSON comes to.
pub fn decoded_source(parsed: Result<TableDescription, String>) -> (r: Result<
    TableDescription,
    StorageError,
>)
    ensures
        match parsed {
            Ok(d) => r == Ok::<TableDescription, StorageError>(d),
            Err(m) => r matches Err(e) && e@ == ErrView::Internal("decode source desc: "@ + m@),
        },
{
    match parsed {
        Ok(d) => Ok(d),
        Err(m) => Err(internal(cat2("decode source desc: ", m.as_str()).as_str())),
    }
}

/// What is returned of a backup that was deleted.
pub fn delete_backup(desc: BackupDescription) -> (r: BackupDescription)
    ensures
        r.source_table_details == desc.source_table_details,
        r.backup_details.backup_status@ == "DELETED"@,
        r.backup_details.backup_arn == desc.backup_details.backup_arn,
        r.backup_details.backup_name == desc.backup_details.backup_name,
        r.backup_details.backup_type == desc.backup_details.backup_type,
        r.backup_details.backup_size_bytes == desc.backup_details.backup_size_bytes,
        r.backup_details.backup_creation_ms == desc.backup_details.backup_creation_ms,
{
    let mut desc = desc;
    desc.backup_details.backup_status = text("DELETED");
    desc
}

/// A backup in a list. The time of its creation is in milliseconds.
#[derive(Debug, PartialEq, Eq)]
pub struct BackupSummary {
    pub backup_arn: String,
    pub backup_name: String,
    pub table_name: String,
    pub table_arn: String,
    pub backup_status: String,
    pub backup_type: String,
    pub backup_size_bytes: i64,
    pub backup_creation_ms: i64,
}

/// What a list says of a backup.
pub open spec fn summary_of(b: BackupDescription) -> BackupSummary {
    BackupSummary {
        backup_arn: b.backup_details.backup_arn,
        backup_name: b.backup_details.backup_name,
        table_name: b.source_table_details.table_name,
        table_arn: b.source_table_details.table_arn,
        backup_status: b.backup_details.backup_status,
        backup_type: b.backup_details.backup_type,
        backup_size_bytes: b.backup_details.backup_size_bytes,
        backup_creation_ms: b.backup_details.backup_creation_ms,
    }
}

/// The backups of a table, or all; what could not be read is passed over.
pub open spec fn backups_of(l: Seq<Option<BackupDescription>>, table: Option<Seq<char>>) -> Seq<
    BackupSummary,
>
    decreases l.len(),
{
    if l.len() == 0 {
        Seq::empty()
    } else {
        let rest = backups_of(l.drop_last(), table);
        match l.last() {
            Some(b) => if table is Some && table->0 != b.source_table_details.table_name@ {
                rest
            } else {
                rest.push(summary_of(b))
            },
            None => rest,
        }
    }
}

/// Lists the backups of a table, or all.
pub fn list_backups(backups: Vec<Option<BackupDescription>>, table_name: Option<&str>) -> (r: Vec<
    BackupSummary,
>)
    ensures
        r@ == backups_of(backups@, crate::engine::opt_str(table_name)),
{
    let ghost given = backups@;
    let ghost table = crate::engine::opt_str(table_name);
    let mut left = reversed(backups);
    let mut out: Vec<BackupSummary> = Vec::new();
    let ghost mut k: int = 0;
    assert(given.skip(0) =~= given);
    while left.len() > 0
        invariant
            0 <= k <= given.len(),
            table == crate::engine::opt_str(table_name),
            left@ == given.skip(k).reverse(),
            out@ == backups_of(given.take(k), table),
        decreases left.len(),
    {
        proof {
            lemma_next(given, k);
            assert(given.take(k + 1).drop_last() =~= given.take(k));
            assert(given.take(k + 1).last() == given[k]);
        }
        if let Some(b) = left.pop().unwrap() {
            let wanted = match table_name {
                Some(t) => str_eq(b.source_table_details.table_name.as_str(), t),
                None => true,
            };
            if wanted {
                let d = b.backup_details;
                let s = b.source_table_details;
                out.push(
                    BackupSummary {
                        backup_arn: d.backup_arn,
                        backup_name: d.backup_name,
                        table_name: s.table_name,
                        table_arn: s.table_arn,
                        backup_status: d.backup_status,
                        backup_type: d.backup_type,
                        backup_size_bytes: d.backup_size_bytes,
                        backup_creation_ms: d.backup_creation_ms,
                    },
                );
            }
        }
        proof {
            k = k + 1;
        }
    }
    assert(given.take(k) =~= given);
    out
}

// ---------------------------------------------------------------------------
// Restoring
// ---------------------------------------------------------------------------

/// Whether inputs ask for the indexes that a table had.
pub open spec fn asks_for_gsis(i: Option<Vec<GsiInput>>, l: Option<Vec<GsiDescription>>) -> bool {
    match l {
        None => i is None,
        Some(descs) => i is Some && i->0@.len() == descs@.len() && forall|k: int|
            0 <= k < descs@.len() ==> ({
                let x = #[trigger] i->0@[k];
                &&& x.index_name@ == descs@[k].index_name@
                &&& schema_view(x.key_schema@) == schema_view(descs@[k].key_schema@)
                &&& x.projection@ == descs@[k].projection@
                &&& x.provisioned_throughput is None
            }),
    }
}

/// Whether inputs ask for the indexes that a table had.
pub open spec fn asks_for_lsis(i: Option<Vec<LsiInput>>, l: Option<Vec<LsiDescription>>) -> bool {
    match l {
        None => i is None,
        Some(descs) => i is Some && i->0@.len() == descs@.len() && forall|k: int|
            0 <= k < descs@.len() ==> ({
                let x = #[trigger] i->0@[k];
                &&& x.index_name@ == descs@[k].index_name@
                &&& schema_view(x.key_schema@) == schema_view(descs@[k].key_schema@)
                &&& x.projection@ == descs@[k].projection@
            }),
    }
}

fn gsi_inputs(l: &Option<Vec<GsiDescription>>) -> (r: Option<Vec<GsiInput>>)
    ensures
        asks_for_gsis(r, *l),
{
    let descs = match l {
        Some(d) => d,
        None => return None,
    };
    let mut out: Vec<GsiInput> = Vec::new();
    let mut i: usize = 0;
    while i < descs.len()
        invariant
            i <= descs.len(),
            out@.len() == i,
            forall|k: int|
                0 <= k < i ==> ({
                    let x = #[trigger] out@[k];
                    &&& x.index_name@ == descs@[k].index_name@
                    &&& schema_view(x.key_schema@) == schema_view(descs@[k].key_schema@)
                    &&& x.projection@ == descs@[k].projection@
                    &&& x.provisioned_throughput is None
                }),
        decreases descs.len() - i,
    {
        out.push(
            GsiInput {
                index_name: text(descs[i].index_name.as_str()),
                key_schema: copy_schema(descs[i].key_schema.as_slice()),
                projection: descs[i].projection.clone(),
                provisioned_throughput: None,
            },
        );
        i = i + 1;
    }
    Some(out)
}

fn lsi_inputs(l: &Option<Vec<LsiDescription>>) -> (r: Option<Vec<LsiInput>>)
    ensures
        asks_for_lsis(r, *l),
{
    let descs = match l {
        Some(d) => d,
        None => return None,
    };
    let mut out: Vec<LsiInput> = Vec::new();
    let mut i: usize = 0;
    while i < descs.len()
        invariant
            i <= descs.len(),
            out@.len() == i,
            forall|k: int|
                0 <= k < i ==> ({
                    let x = #[trigger] out@[k];
                    &&& x.index_name@ == descs@[k].index_name@
                    &&& schema_view(x.key_schema@) == schema_view(descs@[k].key_schema@)
                    &&& x.projection@ == descs@[k].projection@
                }),
        decreases descs.len() - i,
    {
        out.push(
            LsiInput {
                index_name: text(descs[i].index_name.as_str()),
                key_schema: copy_schema(descs[i].key_schema.as_slice()),
                projection: descs[i].projection.clone(),
            },
        );
        i = i + 1;
    }
    Some(out)
}

/// Whether the input asks for a table like the one of a backup, under another name.
pub open spec fn restores_table(
    r: CreateTableInput,
    source: TableDescription,
    name: Seq<char>,
) -> bool {
    &&& r.table_name@ == name
    &&& schema_view(r.key_schema@) == source.schema()
    &&& definition_views(r.attribute_definitions@) == definition_views(
        source.attribute_definitions@,
    )
    &&& r.billing_mode == match source.billing_mode_summary {
        Some(s) => Some(s.billing_mode),
        None => None,
    }
    &&& r.provisioned_throughput is None
    &&& asks_for_gsis(r.global_secondary_indexes, source.global_secondary_indexes)
    &&& asks_for_lsis(r.local_secondary_indexes, source.local_secondary_indexes)
    &&& r.stream_specification is None
    &&& r.deletion_protection_enabled is None
    &&& r.on_demand_throughput == source.on_demand_throughput
}

/// Asks for a table like the one that a backup is of: with the same key and the
/// same indexes, paid for in the same way, and without a stream.
pub fn restore_table_from_backup(source: &TableDescription, target_table_name: &str) -> (r:
    CreateTableInput)
    ensures
        r.table_name@ == target_table_name@,
        schema_view(r.key_schema@) == source.schema(),
        definition_views(r.attribute_definitions@) == definition_views(
            source.attribute_definitions@,
        ),
        r.billing_mode == match source.billing_mode_summary {
            Some(s) => Some(s.billing_mode),
            None => None,
        },
        r.provisioned_throughput is None,
        asks_for_gsis(r.global_secondary_indexes, source.global_secondary_indexes),
        asks_for_lsis(r.local_secondary_indexes, source.local_secondary_indexes),
        r.stream_specification is None,
        r.deletion_protection_enabled is None,
        r.on_demand_throughput == source.on_demand_throughput,
        restores_table(r, *source, target_table_name@),
{
    CreateTableInput {
        table_name: text(target_table_name),
        key_schema: copy_schema(source.key_schema.as_slice()),
        attribute_definitions: copy_definitions(source.attribute_definitions.as_slice()),
        billing_mode: match &source.billing_mode_summary {
            Some(s) => Some(s.billing_mode),
            None => None,
        },
        provisioned_throughput: None,
        global_secondary_indexes: gsi_inputs(&source.global_secondary_indexes),
        local_secondary_indexes: lsi_inputs(&source.local_secondary_indexes),
        stream_specification: None,
        deletion_protection_enabled: None,
        on_demand_throughput: source.on_demand_throughput,
    }
}

// ---------------------------------------------------------------------------
// Continuous backups
// ---------------------------------------------------------------------------

/// Whether a table can be restored to a point in time.
#[derive(Debug, PartialEq, Eq)]
pub struct ContinuousBackupsDescription {
    pub continuous_backups_status: String,
    pub point_in_time_recovery_status: String,
}

/// Describes whether a table can be restored to a point in time.
pub open spec fn describes_pitr(d: ContinuousBackupsDescription, enabled: bool) -> bool {
    &&& d.continuous_backups_status@ == "ENABLED"@
    &&& d.point_in_time_recovery_status@ == if enabled {
        "ENABLED"@
    } else {
        "DISABLED"@
    }
}

fn pitr_description(enabled: bool) -> (r: ContinuousBackupsDescription)
    ensures
        describes_pitr(r, enabled),
{
    ContinuousBackupsDescription {
        continuous_backups_status: text("ENABLED"),
        point_in_time_recovery_status: if enabled {
            text("ENABLED")
        } else {
            text("DISABLED")
        },
    }
}

/// Whether the row of the setting says that a table can be restored to a point
/// in time.
pub open spec fn pitr_enabled(row: Option<JsonView>) -> bool {
    match row {
        Some(v) => truth_field(v, "pitr_enabled"@) == Some(true),
        None => false,
    }
}

/// Reads whether a table can be restored to a point in time.
pub fn describe_continuous_backups(row: Option<&Value>) -> (r: ContinuousBackupsDescription)
    ensures
        describes_pitr(r, pitr_enabled(crate::engine::opt_json_ref(row))),
{
    let enabled = match row {
        Some(v) => get_truth_or(v, "pitr_enabled", false),
        None => false,
    };
    pitr_description(enabled)
}

/// The row of the setting whether a table can be restored to a point in time,
/// and its description. The setting reads back.
pub fn update_continuous_backups(pitr: bool) -> (r: (Value, ContinuousBackupsDescription))
    ensures
        json_view(r.0) == json_record(seq![("pitr_enabled"@, JsonView::Bool(pitr))]),
        pitr_enabled(Some(json_view(r.0))) == pitr,
        describes_pitr(r.1, pitr),
{
    let m = with_truth(no_members(), "pitr_enabled", pitr);
    proof {
        let s = seq![("pitr_enabled"@, JsonView::Bool(pitr))];
        assert(crate::json::member_views(m@) =~= s);
        record_member(s, "pitr_enabled"@);
    }
    (record_of_members(m), pitr_description(pitr))
}

/// Restoring a table to a point in time is not possible.
pub fn restore_table_to_point_in_time() -> (r: StorageError)
    ensures
        r@ == ErrView::Internal(
            "bigtable backend: restore_table_to_point_in_time lands in phase 18"@,
        ),
{
    internal("bigtable backend: restore_table_to_point_in_time lands in phase 18")
}

} // verus!

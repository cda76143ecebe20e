//! Tables, their settings, their streams and their backups.

use serde_json::Value;

use extenddb_storage_bigtable::backups::{
    backup_record, backup_source, create_backup, decoded_backup, decoded_source, delete_backup,
    describe_backup, describe_continuous_backups, list_backups, restore_item, restore_table_from_backup,
    restore_table_to_point_in_time, update_continuous_backups,
};
use extenddb_storage_bigtable::catalog_store::count_indexes;
use extenddb_storage_bigtable::engine::{
    data_families, data_table_id, group_reads, parsed_description, table_full_meta_for_raw,
    transact_get_items, TableMeta,
};
use extenddb_storage_bigtable::error::StorageError;
use extenddb_storage_bigtable::gsi::{Projection, ProjectionType};
use extenddb_storage_bigtable::gsi_worker;
use extenddb_storage_bigtable::metadata::{
    all_tables_with_ttl, describe_ttl, list_tags, tables_with_ttl, tag_resource, untag_resource, update_ttl, Tag,
};
use extenddb_storage_bigtable::stream_engine::{
    describe_stream, encode_shard_id, get_stream_records, latest_sequence_number, list_streams,
    parse_shard_id, stream_summaries, validate_shard, RecordRow, StreamSummary,
};
use extenddb_storage_bigtable::streams::{
    build_record, build_stream_arn, emit, next_sequence_number, sequence_number_at,
    stream_label_at, stream_label_now, StreamEventName, StreamMeta, StreamRecord,
};
use extenddb_storage_bigtable::table::{
    BillingMode, IndexType, StreamSpecification, StreamViewType, TableDescription, TableStatus,
    ThroughputInput,
};
use extenddb_storage_bigtable::tables::{
    check_new_table, create_table, delete_table, describe_table, index_info,
    index_info_by_table_id, list_tables, table_key_info, table_record, update_table,
    update_table_row, CreatePlan, CreateTableInput, GsiInput, LsiInput,
};
use extenddb_storage_bigtable::transact_write::{op_record, OwnedTxnOp, ResolvedOp, TransactWriteOp};
use extenddb_storage_bigtable::value::{AttributeValue, Item, KeySchemaElement, KeyType};

const ID: &str = "0123abcd-4567-89ef-0123-456789abcdef";

fn json(s: &str) -> Value {
    serde_json::from_str(s).unwrap()
}

fn ks(name: &str, kt: KeyType) -> KeySchemaElement {
    KeySchemaElement { attribute_name: name.into(), key_type: kt }
}

fn all() -> Projection {
    Projection { projection_type: ProjectionType::All, non_key_attributes: None }
}

fn input(stream: Option<StreamSpecification>) -> CreateTableInput {
    CreateTableInput {
        table_name: "orders".into(),
        key_schema: vec![ks("pk", KeyType::Hash)],
        attribute_definitions: Vec::new(),
        billing_mode: Some(BillingMode::Provisioned),
        provisioned_throughput: Some(ThroughputInput {
            read_capacity_units: 3,
            write_capacity_units: 4,
        }),
        global_secondary_indexes: Some(vec![GsiInput {
            index_name: "g".into(),
            key_schema: vec![ks("x", KeyType::Hash)],
            projection: all(),
            provisioned_throughput: None,
        }]),
        local_secondary_indexes: Some(vec![LsiInput {
            index_name: "l".into(),
            key_schema: vec![ks("pk", KeyType::Hash), ks("y", KeyType::Range)],
            projection: all(),
        }]),
        stream_specification: stream,
        deletion_protection_enabled: Some(true),
        on_demand_throughput: None,
    }
}

fn plan() -> CreatePlan {
    let stream = StreamSpecification { stream_enabled: true, stream_view_type: None };
    create_table("1", input(Some(stream)), ID, 99, "label")
}

fn description() -> TableDescription {
    plan().description
}

fn item(sk: &str) -> Item {
    let mut i = Item::new();
    i.insert("pk".to_string(), AttributeValue::S(sk.to_string()));
    i
}

// ---------------------------------------------------------------------------
// Tables
// ---------------------------------------------------------------------------

#[test]
fn a_new_table() {
    let p = plan();
    assert_eq!(p.data_table, "t0123abcd456789ef");
    assert_eq!(p.data_table, data_table_id(ID));
    assert_eq!(p.shadow_tables.len(), 1);
    assert!(p.shadow_tables[0].starts_with("t0123abcd456789ef_g"));
    let d = &p.description;
    assert_eq!(d.table_arn, "arn:aws:dynamodb:us-east-1:1:table/orders");
    assert_eq!(d.table_status, TableStatus::Active);
    assert_eq!(d.creation_date_time, 99);
    assert_eq!(d.provisioned_throughput.read_capacity_units, 3);
    assert_eq!(d.billing_mode_summary.unwrap().billing_mode, BillingMode::Provisioned);
    let g = &d.global_secondary_indexes.as_ref().unwrap()[0];
    assert_eq!(g.index_arn, "arn:aws:dynamodb:us-east-1:1:table/orders/index/g");
    assert_eq!(g.index_status, "ACTIVE");
    assert_eq!(
        d.latest_stream_arn.as_deref(),
        Some("arn:aws:dynamodb:us-east-1:1:table/orders/stream/label")
    );
    let m = p.stream.unwrap();
    assert_eq!(m.stream_view_type, StreamViewType::NewAndOldImages);
    assert_eq!(m.stream_label, "label");
    let mut plain = input(None);
    plain.billing_mode = None;
    plain.provisioned_throughput = None;
    plain.deletion_protection_enabled = None;
    let p = create_table("1", plain, ID, 99, "label");
    assert!(p.stream.is_none() && p.description.latest_stream_arn.is_none());
    assert!(!p.description.deletion_protection_enabled);
    assert_eq!(p.description.provisioned_throughput.write_capacity_units, 0);
    assert_eq!(
        p.description.billing_mode_summary.unwrap().billing_mode,
        BillingMode::PayPerRequest
    );
    assert_eq!(check_new_table(None, "t"), Ok(()));
    assert_eq!(
        check_new_table(Some(&json("{}")), "t"),
        Err(StorageError::TableAlreadyExists("t".into()))
    );
    assert_eq!(data_families(), vec!["d", "m", "t"]);
}

#[test]
fn rows_of_tables() {
    let row = table_record(&json("{\"n\":1}"), "t1");
    assert_eq!(
        row.to_string(),
        "{\"data_table\":\"t1\",\"description\":{\"n\":1},\"ttl\":{\"attribute\":null,\"enabled\":false}}"
    );
    let t = table_full_meta_for_raw(Some(&row), "orders").unwrap();
    assert_eq!((t.data_table.as_str(), t.ttl_attr), ("t1", None));
    assert_eq!(t.description, json("{\"n\":1}"));
    assert!(matches!(
        table_full_meta_for_raw(None, "orders"),
        Err(StorageError::TableNotFound(n)) if n == "orders"
    ));
    assert!(matches!(
        table_full_meta_for_raw(Some(&json("{}")), "orders"),
        Err(StorageError::Internal(m)) if m == "missing data_table in catalog"
    ));
    // The expiry of items.
    let ttl = update_ttl(Some(row), "orders", "when", true).unwrap();
    let t = table_full_meta_for_raw(Some(&ttl), "orders").unwrap();
    assert_eq!(t.ttl_attr.as_deref(), Some("when"));
    let d = describe_ttl(Some(&ttl), "orders").unwrap();
    assert!(d.enabled);
    assert_eq!(d.attribute_name.as_deref(), Some("when"));
    let rows = [("table_meta:1:orders".to_string(), ttl.clone())];
    assert_eq!(tables_with_ttl(&rows), vec![("orders".to_string(), "when".to_string())]);
    let accounts = [("acct:1".to_string(), rows.to_vec()), ("acct:2".to_string(), vec![])];
    assert_eq!(
        all_tables_with_ttl(&accounts),
        vec![("1".to_string(), "orders".to_string(), "when".to_string())]
    );
    let off = update_ttl(Some(ttl), "orders", "when", false).unwrap();
    assert!(!describe_ttl(Some(&off), "orders").unwrap().enabled);
    assert!(tables_with_ttl(&[("table_meta:1:orders".to_string(), off.clone())]).is_empty());
    assert_eq!(
        update_ttl(None, "x", "a", true),
        Err(StorageError::TableNotFound("x".into()))
    );
    assert_eq!(describe_ttl(None, "x"), Err(StorageError::TableNotFound("x".into())));
    // Another description.
    let changed = update_table_row(off, json("{\"n\":2}"));
    assert_eq!(changed["description"], json("{\"n\":2}"));
    assert_eq!(changed["data_table"], "t1");
}

#[test]
fn tables_are_changed_and_deleted() {
    let d = update_table(description(), Some(BillingMode::PayPerRequest), Some(false), 7);
    let b = d.billing_mode_summary.unwrap();
    assert_eq!((b.billing_mode, b.last_update_to_pay_per_request), (BillingMode::PayPerRequest, Some(7)));
    assert!(!d.deletion_protection_enabled);
    assert_eq!(update_table(description(), None, None, 7), description());
    let row = json("{\"data_table\":\"t1\"}");
    let (t, gone) = delete_table(Some(&row), Ok(d), "orders").unwrap();
    assert_eq!((t.as_str(), gone.table_status), ("t1", TableStatus::Deleting));
    assert_eq!(
        delete_table(Some(&row), Ok(description()), "orders").unwrap_err(),
        StorageError::DeletionProtected("orders".into())
    );
    assert_eq!(
        delete_table(None, Ok(description()), "orders").unwrap_err(),
        StorageError::TableNotFound("orders".into())
    );
    let mut free = description();
    free.deletion_protection_enabled = false;
    assert_eq!(
        delete_table(Some(&json("{}")), Ok(free), "orders").unwrap_err(),
        StorageError::Internal("missing data_table in catalog row".into())
    );
    assert_eq!(
        parsed_description(Err("bad".into())).unwrap_err(),
        StorageError::Internal("catalog deserialize: bad".into())
    );
    assert_eq!(
        describe_table(None, Ok(description()), "x"),
        Err(StorageError::TableNotFound("x".into()))
    );
    assert_eq!(describe_table(Some(&row), Ok(description()), "x"), Ok(description()));
}

#[test]
fn tables_are_listed_in_order() {
    let keys: Vec<String> =
        ["c", "a", "d", "b"].iter().map(|n| format!("table_meta:1:{n}")).collect();
    let l = |start, limit| list_tables(&keys, start, limit);
    assert_eq!(l(None, None).0, vec!["a", "b", "c", "d"]);
    let (page, last) = l(None, Some(2));
    assert_eq!(page, vec!["a", "b"]);
    assert_eq!(last.as_deref(), Some("b"));
    let (page, last) = l(Some("b"), Some(2));
    assert_eq!(page, vec!["c", "d"]);
    assert_eq!(last, None);
    assert_eq!(l(None, Some(0)), (vec![], None));
    assert_eq!(l(None, Some(-1)).0.len(), 4);
}

#[test]
fn indexes_are_found() {
    let d = description();
    let g = index_info(&d, "g").unwrap();
    assert_eq!((g.index_id.as_str(), g.index_type), (&*format!("{ID}::g"), IndexType::Gsi));
    assert_eq!(index_info(&d, "l").unwrap().index_type, IndexType::Lsi);
    assert_eq!(index_info(&d, "z"), Err(StorageError::IndexNotFound("z".into())));
    let all = [None, Some(description())];
    assert_eq!(index_info_by_table_id(&all, ID, "g").unwrap().index_name, "g");
    assert_eq!(
        index_info_by_table_id(&all, "other", "g"),
        Err(StorageError::TableNotFound("table_id=other".into()))
    );
    let k = table_key_info(&d, "1", "orders");
    assert!(k.has_lsi);
    assert_eq!(k.global_secondary_indexes[0].index_id, "g");
    assert_eq!(k.base_key_schema, k.key_schema);
    assert_eq!(count_indexes(&all), 2);
}

#[test]
fn tags_of_a_table() {
    let tag = |k: &str, v: &str| Tag { key: k.to_string(), value: v.to_string() };
    let r = tag_resource(None, &[tag("b", "1"), tag("a", "2"), tag("b", "3")]);
    assert_eq!(list_tags(Some(r.clone())), vec![tag("a", "2"), tag("b", "3")]);
    let r = tag_resource(Some(r), &[tag("c", "4")]);
    let r = untag_resource(Some(r), &["a".to_string(), "zz".to_string()]).unwrap();
    assert_eq!(list_tags(Some(r)), vec![tag("b", "3"), tag("c", "4")]);
    assert_eq!(untag_resource(None, &["a".to_string()]), None);
    assert!(list_tags(None).is_empty());
    assert_eq!(list_tags(Some(json("{\"a\":1,\"b\":\"x\"}"))), vec![tag("b", "x")]);
}

#[test]
fn reads_are_grouped_by_table() {
    let tables: Vec<String> = ["x", "y", "x"].iter().map(|t| t.to_string()).collect();
    let g = group_reads(&tables);
    assert_eq!(g.len(), 2);
    assert_eq!((g[0].data_table.as_str(), &g[0].positions), ("x", &vec![0, 2]));
    let results = vec![vec![Some(item("0")), None], vec![Some(item("1"))]];
    assert_eq!(
        transact_get_items(&g, &results, &tables),
        vec![Some(item("0")), Some(item("1")), None]
    );
}

#[test]
fn rows_for_repair() {
    let row = json("{\"data_table\":\"t1\",\"description\":{\"n\":1}}");
    let r = gsi_worker::sweep_once("table_meta:1:orders", &row).unwrap();
    assert_eq!((r.table_name.as_str(), r.data_table.as_str()), ("orders", "t1"));
    assert!(gsi_worker::sweep_once("table_meta:1:a:b", &row).is_none());
    assert!(gsi_worker::sweep_once("table_meta:1:orders", &json("{}")).is_none());
    assert_eq!(gsi_worker::account_of("acct:7").as_deref(), Some("7"));
    assert_eq!(gsi_worker::account_of("user:7"), None);
}

// ---------------------------------------------------------------------------
// Streams
// ---------------------------------------------------------------------------

fn record(seq: &str) -> StreamRecord {
    let spec = StreamSpecification {
        stream_enabled: true,
        stream_view_type: Some(StreamViewType::NewImage),
    };
    build_record(&spec, &[ks("pk", KeyType::Hash)], None, Some(&item("a")), seq, "id", 5).unwrap()
}

#[test]
fn records_of_changes() {
    let schema = [ks("pk", KeyType::Hash)];
    let mut new = item("a");
    new.insert("x".to_string(), AttributeValue::Bool(true));
    let old = item("a");
    let make = |view, old, new| {
        let spec = StreamSpecification { stream_enabled: true, stream_view_type: Some(view) };
        build_record(&spec, &schema, old, new, "s", "id", 5)
    };
    let r = make(StreamViewType::NewAndOldImages, Some(&old), Some(&new)).unwrap();
    assert_eq!(r.event_name, StreamEventName::Modify);
    assert_eq!(r.dynamodb.keys, old);
    assert_eq!(r.dynamodb.new_image, Some(new.clone()));
    assert_eq!(r.dynamodb.old_image, Some(old.clone()));
    // {"pk":{"S":"a"}} and {"pk":{"S":"a"},"x":{"BOOL":true}}
    assert_eq!(r.dynamodb.size_bytes, 16 + 34);
    assert_eq!((r.event_source.as_str(), r.event_version.as_str()), ("aws:dynamodb", "1.1"));
    let r = make(StreamViewType::KeysOnly, None, Some(&new)).unwrap();
    assert_eq!(r.event_name, StreamEventName::Insert);
    assert!(r.dynamodb.new_image.is_none() && r.dynamodb.old_image.is_none());
    assert_eq!(r.dynamodb.size_bytes, 16);
    let r = make(StreamViewType::OldImage, Some(&old), None).unwrap();
    assert_eq!(r.event_name, StreamEventName::Remove);
    assert_eq!(r.dynamodb.old_image, Some(old.clone()));
    assert!(make(StreamViewType::OldImage, None, None).is_none());
    let off = StreamSpecification { stream_enabled: false, stream_view_type: None };
    assert!(build_record(&off, &schema, None, Some(&new), "s", "id", 5).is_none());
    let on = StreamSpecification {
        stream_enabled: true,
        stream_view_type: Some(StreamViewType::KeysOnly),
    };
    let (key, _) =
        emit(Some("arn"), Some(&on), &schema, None, Some(&new), "s", "id", 5).unwrap();
    assert_eq!(key, "stream_record:arn:shardId-000:s");
    assert!(emit(None, Some(&on), &schema, None, Some(&new), "s", "id", 5).is_none());
}

#[test]
fn transactions_leave_records() {
    let d = description();
    let info = table_key_info(&d, "1", "orders");
    let new = item("a");
    let resolved = |op: TransactWriteOp<'_>| {
        let op = OwnedTxnOp::from(&op);
        let participant = op.participant("t1").unwrap();
        let mut d = description();
        d.stream_specification = Some(StreamSpecification {
            stream_enabled: true,
            stream_view_type: Some(StreamViewType::NewImage),
        });
        let meta = TableMeta { data_table: "t1".into(), description: d, ttl_attr: None };
        ResolvedOp { op, meta, participant }
    };
    let put = resolved(TransactWriteOp::Put { key_info: &info, item: &new });
    let (arn, r) = op_record(&put, None, &None, "7", "id", 5).unwrap();
    assert_eq!(Some(arn), d.latest_stream_arn);
    assert_eq!((r.event_name, r.dynamodb.new_image), (StreamEventName::Insert, Some(item("a"))));
    assert_eq!(r.dynamodb.sequence_number, "7");
    let delete = resolved(TransactWriteOp::Delete { key_info: &info, key: &new });
    let (_, r) = op_record(&delete, Some(&new), &None, "7", "id", 5).unwrap();
    assert_eq!(r.event_name, StreamEventName::Remove);
    assert!(op_record(&delete, None, &None, "7", "id", 5).is_none());
    let update = resolved(TransactWriteOp::Update { key_info: &info, key: &new });
    let (_, r) = op_record(&update, Some(&new), &Some(Ok(item("a"))), "7", "id", 5).unwrap();
    assert_eq!(r.event_name, StreamEventName::Modify);
    assert!(op_record(&update, None, &Some(Err("bad".into())), "7", "id", 5).is_none());
    let check = resolved(TransactWriteOp::ConditionCheck { key_info: &info, key: &new });
    assert!(op_record(&check, Some(&new), &None, "7", "id", 5).is_none());
}

#[test]
fn sequence_numbers() {
    assert_eq!(sequence_number_at(1, 0xAB), "00000000000000000001000000ab");
    assert_eq!(sequence_number_at(-5, 1), "-000000000000000000500000001");
    assert!(sequence_number_at(9, u32::MAX) < sequence_number_at(10, 0));
    let n = next_sequence_number();
    assert_eq!(n.len(), 28);
    assert!(n > sequence_number_at(1_600_000_000_000_000_000, 0));
    assert!(stream_label_at(0).starts_with("1970-01-01T00:00:00"));
    assert!(stream_label_now().contains('T'));
    assert_eq!(
        build_stream_arn("1", "t", "l"),
        "arn:aws:dynamodb:us-east-1:1:table/t/stream/l"
    );
    assert_eq!(stream_label_at(i128::MAX), i128::MAX.to_string());
}

#[test]
fn shards() {
    let id = encode_shard_id("arn:x", "shardId-000");
    assert_eq!(id, "arn:x~~shardId-000");
    assert_eq!(parse_shard_id(&id), Ok(("arn:x".to_string(), "shardId-000".to_string())));
    assert_eq!(parse_shard_id("a~~b~~c"), Ok(("a".to_string(), "b~~c".to_string())));
    assert_eq!(
        parse_shard_id("plain~"),
        Err(StorageError::Validation(
            "invalid shard id (expected <arn>~~<shard>): plain~".into()
        ))
    );
    assert!(parse_shard_id("").is_err());
    assert_eq!(validate_shard("arn:x", &id, true), Ok(()));
    assert_eq!(validate_shard("arn:x", "whatever", true), Ok(()));
    assert_eq!(
        validate_shard("arn:y", &id, true),
        Err(StorageError::Validation("shard does not belong to stream".into()))
    );
    assert_eq!(
        validate_shard("arn:x", &id, false),
        Err(StorageError::Validation("Stream not found: arn:x".into()))
    );
}

#[test]
fn records_are_read_in_order() {
    let rows = || {
        vec![
            RecordRow { key: "r:3".into(), record: Some(record("3")) },
            RecordRow { key: "r:1".into(), record: Some(record("1")) },
            RecordRow { key: "r:4".into(), record: None },
            RecordRow { key: "r:2".into(), record: Some(record("2")) },
        ]
    };
    let seqs = |r: &[(String, StreamRecord)]| -> Vec<String> {
        r.iter().map(|(s, _)| s.clone()).collect()
    };
    let (l, next) = get_stream_records(rows(), None, 0);
    assert_eq!(seqs(&l), vec!["1", "2", "3"]);
    assert_eq!(next.as_deref(), Some("3"));
    let (l, next) = get_stream_records(rows(), Some("1"), 1);
    assert_eq!(seqs(&l), vec!["2"]);
    assert_eq!(next.as_deref(), Some("2"));
    assert_eq!(get_stream_records(rows(), Some("9"), 5).1, None);
    let keys: Vec<String> = rows().iter().map(|r| r.key.clone()).collect();
    assert_eq!(latest_sequence_number(&keys).as_deref(), Some("4"));
    assert_eq!(latest_sequence_number(&[]), None);
}

#[test]
fn streams_in_a_list() {
    let meta = |arn: &str, table: &str| StreamMeta {
        stream_arn: arn.into(),
        stream_label: "l".into(),
        stream_view_type: StreamViewType::KeysOnly,
        table_name: table.into(),
        table_arn: "t".into(),
        key_schema: vec![ks("pk", KeyType::Hash)],
    };
    let metas = || vec![Some(meta("c", "x")), None, Some(meta("a", "y")), Some(meta("b", "x"))];
    let all = stream_summaries(metas(), None);
    assert_eq!(all.len(), 3);
    let (l, last) = list_streams(all, 2, None);
    let arns = |l: &[(String, StreamSummary)]| -> Vec<String> {
        l.iter().map(|(a, _)| a.clone()).collect()
    };
    assert_eq!(arns(&l), vec!["a", "b"]);
    assert_eq!(last.as_deref(), Some("b"));
    let (l, last) = list_streams(stream_summaries(metas(), Some("x")), 0, Some("b"));
    assert_eq!(arns(&l), vec!["c"]);
    assert_eq!(last, None);
    let d = describe_stream(Some(Ok(meta("a", "y"))), "a").unwrap();
    assert_eq!((d.shard_id.as_str(), d.starting_sequence_number.as_str()), ("a~~shardId-000", "0"));
    assert_eq!(
        describe_stream(None, "a"),
        Err(StorageError::Validation("Stream not found: a".into()))
    );
    assert_eq!(
        describe_stream(Some(Err("bad".into())), "a"),
        Err(StorageError::Internal("decode stream meta: bad".into()))
    );
}

// ---------------------------------------------------------------------------
// Backups
// ---------------------------------------------------------------------------

#[test]
fn a_backup_gives_its_items_back() {
    let items = vec![item("a"), item("b")];
    let p = create_backup("1", "orders", &description(), &items, "nightly", 1234);
    let arn = "arn:aws:dynamodb:us-east-1:1:table/orders/backup/1234";
    assert_eq!(p.description.backup_details.backup_arn, arn);
    assert_eq!(p.description.backup_details.backup_size_bytes, 2 * 16);
    assert_eq!(p.description.source_table_details.item_count, 2);
    assert_eq!(p.description.source_table_details.billing_mode.as_deref(), Some("PROVISIONED"));
    assert_eq!(p.items[1].0, format!("backup_item:{arn}:00000000000000000001"));
    let restored: Vec<Item> =
        p.items.into_iter().map(|(_, v)| restore_item(v).unwrap()).collect();
    assert_eq!(restored, items);
    assert_eq!(
        restore_item(json("[]")),
        Err(StorageError::Internal("decode item: expected attribute values".into()))
    );
    assert_eq!(delete_backup(p.description).backup_details.backup_status, "DELETED");
}

#[test]
fn rows_of_backups() {
    let row = backup_record(json("1"), json("2"));
    assert_eq!(describe_backup(Some(&row), "b"), Ok(json("1")));
    assert_eq!(backup_source(Some(&row), "b"), Ok(json("2")));
    assert_eq!(
        describe_backup(None, "b"),
        Err(StorageError::Validation("Backup not found: b".into()))
    );
    assert_eq!(
        backup_source(Some(&json("{}")), "b"),
        Err(StorageError::Internal("backup row missing source_desc".into()))
    );
    assert_eq!(
        decoded_backup(Err("bad".into())).unwrap_err(),
        StorageError::Internal("decode backup desc: bad".into())
    );
    assert_eq!(
        decoded_source(Err("bad".into())).unwrap_err(),
        StorageError::Internal("decode source desc: bad".into())
    );
    let b = |t: &str| create_backup("1", t, &description(), &[], "n", 1).description;
    let l = list_backups(vec![Some(b("x")), None, Some(b("y"))], Some("y"));
    assert_eq!(l.len(), 1);
    assert_eq!((l[0].table_name.as_str(), l[0].backup_name.as_str()), ("y", "n"));
    assert_eq!(l[0].table_arn, "arn:aws:dynamodb:us-east-1:1:table/orders");
    assert_eq!((l[0].backup_status.as_str(), l[0].backup_creation_ms), ("AVAILABLE", 1));
    assert_eq!(list_backups(vec![Some(b("x")), None], None).len(), 1);
}

#[test]
fn restored_tables_are_like_their_sources() {
    let i = restore_table_from_backup(&description(), "copy");
    assert_eq!(i.table_name, "copy");
    assert_eq!(i.billing_mode, Some(BillingMode::Provisioned));
    assert_eq!(i.global_secondary_indexes.unwrap()[0].index_name, "g");
    assert_eq!(i.local_secondary_indexes.unwrap()[0].index_name, "l");
    assert!(i.stream_specification.is_none());
    assert!(matches!(restore_table_to_point_in_time(), StorageError::Internal(_)));
}

#[test]
fn continuous_backups_setting() {
    let (row, d) = update_continuous_backups(true);
    assert_eq!(row, json("{\"pitr_enabled\":true}"));
    assert_eq!(d.point_in_time_recovery_status, "ENABLED");
    assert_eq!(describe_continuous_backups(Some(&row)), d);
    let d = describe_continuous_backups(None);
    assert_eq!(d.point_in_time_recovery_status, "DISABLED");
    assert_eq!(d.continuous_backups_status, "ENABLED");
}

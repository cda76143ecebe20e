//! The library against a small table service in memory.

use std::collections::BTreeMap;

use extenddb_storage_bigtable::bigtable::{
    BigtableClient, CheckAndMutateRowRequest, EndKey, MutateRowRequest, Mutation, ReadRowsRequest,
    Row, RowCell, StartKey,
};
use extenddb_storage_bigtable::catalog::{catalog_records, catalog_value, Catalog};
use extenddb_storage_bigtable::bootstrapper::{
    is_catalog_initialized, read_catalog_version, run_catalog_migrations,
};
use extenddb_storage_bigtable::engine::{
    group_reads, needs_existing, scan_plan_page, table_full_meta_for_raw, transact_get_items,
    BaseWrite, BigtableEngine, PutPlan, QueryPlan, TableMeta,
};
use extenddb_storage_bigtable::error::StorageError;
use extenddb_storage_bigtable::filter::{Filter, RowFilter};
use extenddb_storage_bigtable::gsi::{shadow_table_id, Projection, ProjectionType};
use extenddb_storage_bigtable::gsi_worker::{
    reconcile_gsi_base_to_shadow, reconcile_gsi_shadow_to_base, reconcile_shadow_item_with_base,
    repair_target,
};
use extenddb_storage_bigtable::item_ops::{
    batch_entries, batch_items, found_item, found_with_version, ItemOps,
};
use extenddb_storage_bigtable::keys::{
    idempotency, table_meta, table_meta_scan_prefix, VERSION,
};
use extenddb_storage_bigtable::metadata::{describe_ttl, update_ttl};
use extenddb_storage_bigtable::query_scan::{
    build_range_for_index, lsi_page, query_page, CompareOp, Expr, KeyCondition, PathElement, SortKeyCondition,
};
use extenddb_storage_bigtable::shadows::change_requests;
use extenddb_storage_bigtable::sweeper::{
    rollback_end, sweep_once, sweep_page, sweep_start, RollbackEnd, SweepAction,
};
use extenddb_storage_bigtable::table::{
    AttributeDefinition, BillingMode, StreamSpecification, StreamViewType, TableKeyInfo,
    TableStatus,
};
use extenddb_storage_bigtable::tables::{
    check_new_table, create_table, describe_table, list_tables, new_table_id, table_key_info,
    table_record, CreateTableInput, GsiInput, LsiInput,
};
use extenddb_storage_bigtable::transact::{
    found_state, IntentAttempts, IntentStep, ParticipantRow, TxnCoordinator, TXN_LOG_TABLE,
};
use extenddb_storage_bigtable::transact_write::{
    applied_token_record, check_token, derive_txn_id, evaluate_conditions, prepare_changes,
    resume_txn, OwnedTxnOp, ResolvedOp, Resume, TransactWriteOp, TxnDecision,
};
use extenddb_storage_bigtable::ttl_key::{NUM_SHARDS, TTL_INDEX_TABLE};
use extenddb_storage_bigtable::ttl_worker::{
    delete_ttl_index_entry_raw, due_action, due_item, shard_start, sweep_shard, DueAction,
};
use extenddb_storage_bigtable::txn::{TxnAction, TxnDriver, TxnSignal};
use extenddb_storage_bigtable::value::{
    AttributeValue, Item, KeySchemaElement, KeyType, StringSet,
};

// ---------------------------------------------------------------------------
// The service
// ---------------------------------------------------------------------------

#[derive(Clone)]
struct Cell {
    family: String,
    qualifier: Vec<u8>,
    value: Vec<u8>,
    timestamp: i64,
}

#[derive(Default)]
struct Service {
    tables: BTreeMap<String, BTreeMap<Vec<u8>, Vec<Cell>>>,
    now: i64,
}

fn pattern_matches(p: &[u8], s: &[u8]) -> bool {
    let p = p.strip_prefix(b"^").unwrap_or(p);
    let p = p.strip_suffix(b"$").unwrap_or(p);
    match p.strip_suffix(b".*") {
        Some(head) => s.starts_with(head) && !s[head.len()..].contains(&b'\n'),
        None => p == s,
    }
}

fn passed(f: &RowFilter, row: &[Cell]) -> Vec<Cell> {
    let keep = |test: &dyn Fn(&Cell) -> bool| row.iter().filter(|c| test(c)).cloned().collect();
    match &f.filter {
        None | Some(Filter::PassAllFilter(_)) => row.to_vec(),
        Some(Filter::BlockAllFilter(_)) => Vec::new(),
        Some(Filter::Chain(c)) => {
            c.filters.iter().fold(row.to_vec(), |cells, f| passed(f, &cells))
        }
        Some(Filter::Interleave(c)) => c.filters.iter().flat_map(|f| passed(f, row)).collect(),
        Some(Filter::Condition(c)) => {
            if passed(&c.predicate_filter, row).is_empty() {
                passed(&c.false_filter, row)
            } else {
                passed(&c.true_filter, row)
            }
        }
        Some(Filter::FamilyNameRegexFilter(p)) => {
            keep(&|c: &Cell| pattern_matches(p.as_bytes(), c.family.as_bytes()))
        }
        Some(Filter::ColumnQualifierRegexFilter(p)) => {
            keep(&|c: &Cell| pattern_matches(p, &c.qualifier))
        }
        Some(Filter::ValueRegexFilter(p)) => keep(&|c: &Cell| pattern_matches(p, &c.value)),
        Some(Filter::TimestampRangeFilter(t)) => keep(&|c: &Cell| {
            c.timestamp >= t.start_timestamp_micros
                && (t.end_timestamp_micros == 0 || c.timestamp < t.end_timestamp_micros)
        }),
        Some(Filter::CellsPerColumnLimitFilter(n)) => {
            let mut out: Vec<Cell> = Vec::new();
            for c in row {
                let same = |d: &&Cell| d.family == c.family && d.qualifier == c.qualifier;
                if (out.iter().filter(same).count() as i32) < *n {
                    out.push(c.clone());
                }
            }
            out
        }
    }
}

impl Service {
    fn mutate(&mut self, table: &str, key: &[u8], mutations: &[Mutation]) {
        let now = self.now;
        let row = self.tables.entry(table.to_string()).or_default().entry(key.to_vec()).or_default();
        for m in mutations {
            match m {
                Mutation::SetCell { family_name, column_qualifier, timestamp_micros, value } => {
                    let timestamp = if *timestamp_micros == -1 { now } else { *timestamp_micros };
                    row.insert(
                        0,
                        Cell {
                            family: family_name.clone(),
                            qualifier: column_qualifier.clone(),
                            value: value.clone(),
                            timestamp,
                        },
                    );
                }
                Mutation::DeleteFromFamily { family_name } => {
                    row.retain(|c| c.family != *family_name)
                }
                Mutation::DeleteFromColumn { family_name, column_qualifier } => {
                    row.retain(|c| c.family != *family_name || c.qualifier != *column_qualifier)
                }
                Mutation::DeleteFromRow => row.clear(),
            }
        }
        if row.is_empty() {
            self.tables.get_mut(table).unwrap().remove(key);
        }
    }

    fn mutate_row(&mut self, r: &MutateRowRequest) {
        self.mutate(&r.table_name, &r.row_key, &r.mutations);
    }

    fn check_and_mutate_row(&mut self, r: &CheckAndMutateRowRequest) -> bool {
        let row = self
            .tables
            .get(&r.table_name)
            .and_then(|t| t.get(&r.row_key))
            .cloned()
            .unwrap_or_default();
        let matched = !passed(&r.predicate_filter, &row).is_empty();
        let m = if matched { &r.true_mutations } else { &r.false_mutations };
        self.mutate(&r.table_name, &r.row_key, m);
        matched
    }

    fn read_rows(&self, r: &ReadRowsRequest) -> Vec<Row> {
        let mut out: Vec<Row> = Vec::new();
        let empty = BTreeMap::new();
        for (key, cells) in self.tables.get(&r.table_name).unwrap_or(&empty) {
            let in_ranges = r.row_ranges.iter().any(|g| {
                (match &g.start_key {
                    StartKey::Unbounded => true,
                    StartKey::Closed(k) => key >= k,
                    StartKey::Open(k) => key > k,
                }) && (match &g.end_key {
                    EndKey::Unbounded => true,
                    EndKey::Closed(k) => key <= k,
                    EndKey::Open(k) => key < k,
                })
            });
            if !in_ranges && !r.row_keys.contains(key) {
                continue;
            }
            let cells: Vec<RowCell> = passed(&r.filter, cells)
                .into_iter()
                .map(|c| RowCell {
                    family_name: c.family,
                    qualifier: c.qualifier,
                    value: c.value,
                    timestamp_micros: c.timestamp,
                })
                .collect();
            if !cells.is_empty() {
                out.push(Row { key: key.clone(), cells });
            }
        }
        if r.reversed {
            out.reverse();
        }
        if r.rows_limit > 0 {
            out.truncate(r.rows_limit as usize);
        }
        out
    }
}

// ---------------------------------------------------------------------------
// A table
// ---------------------------------------------------------------------------

const ACCOUNT: &str = "000000000001";

fn ks(name: &str, kt: KeyType) -> KeySchemaElement {
    KeySchemaElement { attribute_name: name.into(), key_type: kt }
}

fn client() -> BigtableClient {
    BigtableClient {
        project_id: "p".into(),
        instance_id: "i".into(),
        emulator_host: None,
        credentials_path: None,
        app_profile_id: None,
    }
}

fn item(attributes: &[(&str, AttributeValue)]) -> Item {
    let mut i = Item::new();
    for (n, v) in attributes {
        i.insert(n.to_string(), v.clone());
    }
    i
}

fn s(v: &str) -> AttributeValue {
    AttributeValue::S(v.to_string())
}

fn n(v: &str) -> AttributeValue {
    AttributeValue::N(v.to_string())
}

struct World {
    service: Service,
    engine: BigtableEngine,
    meta: TableMeta,
    info: TableKeyInfo,
}

fn world(ttl: Option<&str>) -> World {
    let id = new_table_id();
    let input = CreateTableInput {
        table_name: "orders".into(),
        key_schema: vec![ks("pk", KeyType::Hash), ks("sk", KeyType::Range)],
        attribute_definitions: Vec::new(),
        billing_mode: None,
        provisioned_throughput: None,
        global_secondary_indexes: Some(vec![GsiInput {
            index_name: "by_city".into(),
            key_schema: vec![ks("city", KeyType::Hash), ks("age", KeyType::Range)],
            projection: Projection {
                projection_type: ProjectionType::All,
                non_key_attributes: None,
            },
            provisioned_throughput: None,
        }]),
        local_secondary_indexes: Some(vec![LsiInput {
            index_name: "by_rank".into(),
            key_schema: vec![ks("pk", KeyType::Hash), ks("rank", KeyType::Range)],
            projection: Projection {
                projection_type: ProjectionType::All,
                non_key_attributes: None,
            },
        }]),
        stream_specification: Some(StreamSpecification {
            stream_enabled: true,
            stream_view_type: Some(StreamViewType::NewAndOldImages),
        }),
        deletion_protection_enabled: None,
        on_demand_throughput: None,
    };
    let plan = create_table(ACCOUNT, input, &id, 1_700_000_000, "2024-01-01T00:00:00Z");
    let info = table_key_info(&plan.description, ACCOUNT, "orders");
    World {
        service: Service { tables: BTreeMap::new(), now: 1_700_000_000_000_000 },
        engine: BigtableEngine::new(client(), client(), 60),
        meta: TableMeta {
            data_table: plan.data_table,
            description: plan.description,
            ttl_attr: ttl.map(str::to_string),
        },
        info,
    }
}

impl World {
    fn get(&self, key: &Item) -> Option<Item> {
        let q = self.engine.get_item(&self.info, &self.meta, key).unwrap();
        found_item(&self.service.read_rows(&q)).unwrap()
    }

    fn table(&self, short: &str) -> usize {
        self.service.tables.get(&client().full_table_name(short)).map(|t| t.len()).unwrap_or(0)
    }

    fn shadow(&self) -> String {
        shadow_table_id(&self.meta.data_table, "by_city")
    }

    fn put(&mut self, i: &Item, condition: Option<bool>) -> Result<Option<Item>, StorageError> {
        assert!(needs_existing(&self.meta, condition.is_some(), true));
        let existing = self.get(i);
        let plan = self.engine.put_item(
            &self.info,
            &self.meta,
            i,
            existing.as_ref(),
            condition.map(Ok),
            true,
            self.service.now,
        )?;
        match &plan.write.base {
            BaseWrite::Guarded(g) => {
                let matched = self.service.check_and_mutate_row(&g.request);
                g.outcome(matched)?;
            }
            BaseWrite::Plain(_) => panic!("a put is guarded"),
        }
        for q in plan.write.shadows? {
            self.service.mutate_row(&q);
        }
        for q in plan.ttl? {
            self.service.mutate_row(&q);
        }
        Ok(plan.old)
    }

    fn delete(&mut self, key: &Item) -> Result<Option<Item>, StorageError> {
        let existing = self.get(key);
        let plan = self.engine.delete_item(
            &self.info,
            &self.meta,
            key,
            existing.as_ref(),
            None,
            true,
            self.service.now,
        )?;
        let matched = self.service.check_and_mutate_row(&plan.write.request);
        plan.write.outcome(matched)?;
        for q in plan.shadows? {
            self.service.mutate_row(&q);
        }
        for q in plan.ttl? {
            self.service.mutate_row(&q);
        }
        Ok(plan.old)
    }

    fn query(
        &self,
        pk: &str,
        cond: Option<SortKeyCondition>,
        forward: bool,
        limit: Option<i64>,
        start: Option<&Item>,
        index: Option<&str>,
    ) -> (Vec<Item>, Option<Item>) {
        let kc = KeyCondition {
            pk_path: vec![PathElement::Attribute("pk".into())],
            pk_value: Expr::Placeholder(Ok(s(pk))),
            sk_condition: cond,
        };
        match self
            .engine
            .query(&self.info, &self.meta, &kc, forward, limit, start, index)
            .unwrap()
        {
            QueryPlan::Rows(q) => query_page(&self.service.read_rows(&q), limit).unwrap(),
            QueryPlan::Lsi { request, sk_name } => lsi_page(
                &self.service.read_rows(&request),
                &self.info.key_schema,
                &sk_name,
                kc.sk_condition.as_ref(),
                forward,
                limit,
                start,
            )
            .unwrap(),
        }
    }
}

fn order(pk: &str, sk: &str) -> Item {
    item(&[("pk", s(pk)), ("sk", s(sk))])
}

// ---------------------------------------------------------------------------
// Single rows
// ---------------------------------------------------------------------------

#[test]
fn items_are_written_read_and_deleted() {
    let mut w = world(None);
    let i = item(&[("pk", s("a")), ("sk", s("1")), ("x", n("7"))]);
    assert_eq!(w.put(&i, None), Ok(None));
    assert_eq!(w.get(&order("a", "1")), Some(i.clone()));
    // The new item replaces the old one whole.
    let j = item(&[("pk", s("a")), ("sk", s("1")), ("y", n("8"))]);
    assert_eq!(w.put(&j, None), Ok(Some(i)));
    assert_eq!(w.get(&order("a", "1")), Some(j.clone()));
    assert_eq!(w.put(&j, Some(false)), Err(StorageError::ConditionFailed(Some(j.clone()))));
    assert_eq!(w.delete(&order("a", "1")), Ok(Some(j)));
    assert_eq!(w.get(&order("a", "1")), None);
    assert_eq!(w.delete(&order("a", "1")), Ok(None));
}

#[test]
fn of_two_writers_with_one_version_the_second_fails() {
    let mut w = world(None);
    let i = order("a", "1");
    let c = client();
    let ops = ItemOps::new(&c, &w.meta.data_table, 60);
    let schema = &w.info.key_schema;
    // The row must not be there.
    let (g, v) = ops.put(schema, &i, None, true, w.service.now).unwrap();
    assert_eq!(v, 1);
    let matched = w.service.check_and_mutate_row(&g.request);
    assert_eq!(g.outcome(matched), Ok(()));
    let (g, _) = ops.put(schema, &i, None, true, w.service.now).unwrap();
    let matched = w.service.check_and_mutate_row(&g.request);
    assert_eq!(
        g.outcome(matched),
        Err(StorageError::TransactionConflict(
            "concurrent transaction holds an intent on this row or row already exists".into()
        ))
    );
    let q = ops.get_with_version(schema, &i).unwrap();
    let (found, version) = found_with_version(&w.service.read_rows(&q)).unwrap();
    assert_eq!(found, Some(i.clone()));
    assert_eq!(version, Some(1));
    // Two writers saw version 1.
    let (first, v) = ops.put(schema, &i, Some(1), true, w.service.now).unwrap();
    let (second, _) = ops.put(schema, &i, Some(1), true, w.service.now).unwrap();
    assert_eq!(v, 2);
    let matched = w.service.check_and_mutate_row(&first.request);
    assert_eq!(first.outcome(matched), Ok(()));
    let matched = w.service.check_and_mutate_row(&second.request);
    assert_eq!(
        second.outcome(matched),
        Err(StorageError::TransactionConflict(
            "concurrent transaction holds an intent on this row or row version changed".into()
        ))
    );
    // A deletion by the right version goes through, and takes the version too.
    let d = ops.delete(schema, &i, Some(2), true, w.service.now).unwrap();
    let matched = w.service.check_and_mutate_row(&d.request);
    assert_eq!(d.outcome(matched), Ok(()));
    let q = ops.get_with_version(schema, &i).unwrap();
    assert_eq!(found_with_version(&w.service.read_rows(&q)), Ok((None, None)));
}

#[test]
fn versions_of_eight_digits_are_read_as_written() {
    let mut w = world(None);
    let i = order("a", "1");
    let c = client();
    let ops = ItemOps::new(&c, &w.meta.data_table, 60);
    let schema = &w.info.key_schema;
    let q = ops.put_unconditional(schema, &i, 9_999_999).unwrap();
    w.service.mutate_row(&q);
    let mut version = 9_999_999u64;
    for _ in 0..3 {
        w.service.now += 1;
        let (g, next) = ops.put(schema, &i, Some(version), true, w.service.now).unwrap();
        assert_eq!(next, version + 1);
        let matched = w.service.check_and_mutate_row(&g.request);
        assert_eq!(g.outcome(matched), Ok(()));
        let q = ops.get_with_version(schema, &i).unwrap();
        assert_eq!(
            found_with_version(&w.service.read_rows(&q)),
            Ok((Some(i.clone()), Some(next)))
        );
        version = next;
    }
    assert_eq!(version, 10_000_002);
    let q = ops.get_with_version(schema, &order("a", "2")).unwrap();
    assert_eq!(found_with_version(&w.service.read_rows(&q)), Ok((None, None)));
}

#[test]
fn a_batch_reads_what_single_reads_give() {
    let mut w = world(None);
    for k in ["1", "2", "3"] {
        w.put(&item(&[("pk", s("a")), ("sk", s(k)), ("x", n(k))]), None).unwrap();
    }
    let c = client();
    let ops = ItemOps::new(&c, &w.meta.data_table, 60);
    let keys: Vec<Item> = ["3", "1", "9", "3"].iter().map(|k| order("a", k)).collect();
    let q = ops.batch_get(&w.info.key_schema, &keys).unwrap().unwrap();
    let batch = batch_items(&w.service.read_rows(&q), &w.info.key_schema, &keys).unwrap();
    let single: Vec<Option<Item>> = keys.iter().map(|k| w.get(k)).collect();
    assert_eq!(batch, single);
    assert_eq!(batch.iter().filter(|i| i.is_some()).count(), 3);
}

#[test]
fn pages_of_a_scan_make_the_scan() {
    let mut w = world(None);
    for k in 0..12 {
        w.put(&item(&[("pk", s("p")), ("sk", n(&k.to_string()))]), None).unwrap();
    }
    let page = |limit: Option<i64>, start: Option<&Item>| {
        let plan = w.engine.scan(&w.info, &w.meta, limit, start, None).unwrap();
        let rows = w.service.read_rows(&plan.request);
        scan_plan_page(&plan, &rows, limit, None, None).unwrap()
    };
    let (all, none) = page(None, None);
    assert_eq!((all.len(), none), (12, None));
    for limit in [1, 5, 6, 12, 20] {
        let mut joined: Vec<Item> = Vec::new();
        let mut start: Option<Item> = None;
        loop {
            let (items, last) = page(Some(limit), start.as_ref());
            assert_eq!(last.is_some(), items.len() as i64 == limit);
            joined.extend(items);
            match last {
                Some(k) => start = Some(k),
                None => break,
            }
        }
        assert_eq!(joined, all);
    }
}

#[test]
fn several_rows_are_read_in_the_order_of_the_keys() {
    let mut w = world(None);
    for k in ["3", "1", "2"] {
        w.put(&order("a", k), None).unwrap();
    }
    let c = client();
    let ops = ItemOps::new(&c, &w.meta.data_table, 60);
    let keys = vec![order("a", "2"), order("a", "9"), order("a", "1")];
    let q = ops.batch_get(&w.info.key_schema, &keys).unwrap().unwrap();
    assert_eq!(q.rows_limit, 3);
    let rows = w.service.read_rows(&q);
    assert_eq!(
        batch_items(&rows, &w.info.key_schema, &keys).unwrap(),
        vec![Some(order("a", "2")), None, Some(order("a", "1"))]
    );
    assert_eq!(ops.batch_get(&w.info.key_schema, &[]), Ok(None));
    // With the transaction that has marked a row.
    let coord = TxnCoordinator::new(&c, 60);
    let p = ParticipantRow { data_table: w.meta.data_table.clone(), row_key: rows[0].key.clone() };
    let place = coord.place_intent("t1", &p, w.service.now);
    assert!(!w.service.check_and_mutate_row(&place));
    let q = ops.batch_get_with_intent_check(&w.info.key_schema, &keys).unwrap().unwrap();
    let rows = w.service.read_rows(&q);
    let entries = batch_entries(&rows, &w.info.key_schema, &keys, 0).unwrap();
    assert_eq!(entries[2].txn_id, Some("t1".to_string()));
    assert_eq!(entries[2].item, Some(order("a", "1")));
    assert_eq!(entries[0].txn_id, None);
    assert_eq!(entries[1].item, None);
}

// ---------------------------------------------------------------------------
// Queries
// ---------------------------------------------------------------------------

fn compare(op: CompareOp, v: AttributeValue) -> Option<SortKeyCondition> {
    Some(SortKeyCondition::Compare { op, value: Expr::Placeholder(Ok(v)) })
}

fn names(items: &[Item], attribute: &str) -> Vec<String> {
    items
        .iter()
        .map(|i| match i.get(attribute) {
            Some(AttributeValue::S(v)) | Some(AttributeValue::N(v)) => v.clone(),
            _ => String::new(),
        })
        .collect()
}

#[test]
fn number_ranges_are_exact() {
    let mut w = world(None);
    for k in ["-10", "-1.5", "0", "2", "10", "100"] {
        w.put(&item(&[("pk", s("a")), ("sk", n(k))]), None).unwrap();
    }
    let q = |op, v: &str| {
        names(&w.query("a", compare(op, n(v)), true, None, None, None).0, "sk")
    };
    assert_eq!(q(CompareOp::Eq, "2"), vec!["2"]);
    assert_eq!(q(CompareOp::Lt, "2"), vec!["-10", "-1.5", "0"]);
    assert_eq!(q(CompareOp::Le, "2"), vec!["-10", "-1.5", "0", "2"]);
    assert_eq!(q(CompareOp::Gt, "2"), vec!["10", "100"]);
    assert_eq!(q(CompareOp::Ge, "2"), vec!["2", "10", "100"]);
    let between = Some(SortKeyCondition::Between {
        low: Expr::Placeholder(Ok(n("-2"))),
        high: Expr::Placeholder(Ok(n("10.0"))),
    });
    assert_eq!(
        names(&w.query("a", between, true, None, None, None).0, "sk"),
        vec!["-1.5", "0", "2", "10"]
    );
    assert_eq!(
        names(&w.query("a", None, false, None, None, None).0, "sk"),
        vec!["100", "10", "2", "0", "-1.5", "-10"]
    );
}

#[test]
fn begins_with_is_exact() {
    let mut w = world(None);
    for k in ["a", "ab", "abc", "b", "ab\u{10FFFF}"] {
        w.put(&order("p", k), None).unwrap();
    }
    let cond = Some(SortKeyCondition::BeginsWith { prefix: Expr::Placeholder(Ok(s("ab"))) });
    assert_eq!(
        names(&w.query("p", cond, true, None, None, None).0, "sk"),
        vec!["ab", "abc", "ab\u{10FFFF}"]
    );
}

#[test]
fn texts_and_bytes_are_queried_in_their_order() {
    let mut w = world(None);
    for k in ["b", "a", "ab", "a\0", ""] {
        w.put(&order("p", k), None).unwrap();
    }
    w.put(&order("q", "a"), None).unwrap();
    let q = |cond| names(&w.query("p", cond, true, None, None, None).0, "sk");
    assert_eq!(q(None), vec!["", "a", "a\0", "ab", "b"]);
    assert_eq!(q(compare(CompareOp::Lt, s("ab"))), vec!["", "a", "a\0"]);
    assert_eq!(q(compare(CompareOp::Ge, s("ab"))), vec!["ab", "b"]);
    assert_eq!(q(compare(CompareOp::Gt, s("ab"))), vec!["b"]);
    assert_eq!(q(compare(CompareOp::Le, s("ab"))), vec!["", "a", "a\0", "ab"]);
}

#[test]
fn pages_follow_each_other() {
    let mut w = world(None);
    for k in ["1", "2", "3", "4", "5"] {
        w.put(&order("p", k), None).unwrap();
    }
    for forward in [true, false] {
        let mut seen: Vec<String> = Vec::new();
        let mut start: Option<Item> = None;
        loop {
            let (items, last) = w.query("p", None, forward, Some(2), start.as_ref(), None);
            seen.extend(names(&items, "sk"));
            match last {
                Some(k) => start = Some(k),
                None => break,
            }
        }
        if !forward {
            seen.reverse();
        }
        assert_eq!(seen, vec!["1", "2", "3", "4", "5"]);
    }
}

#[test]
fn segments_share_out_the_rows() {
    let mut w = world(None);
    for k in 0..40 {
        w.put(&order("p", &format!("{k:02}")), None).unwrap();
    }
    let mut seen: Vec<String> = Vec::new();
    for segment in 0..4 {
        let plan = w.engine.scan(&w.info, &w.meta, None, None, None).unwrap();
        let rows = w.service.read_rows(&plan.request);
        let (items, _) = scan_plan_page(&plan, &rows, None, Some(segment), Some(4)).unwrap();
        seen.extend(names(&items, "sk"));
    }
    seen.sort();
    let expected: Vec<String> = (0..40).map(|k| format!("{k:02}")).collect();
    assert_eq!(seen, expected);
}

#[test]
fn a_scan_page_ends_with_a_key() {
    let mut w = world(None);
    for k in ["1", "2", "3"] {
        w.put(&item(&[("pk", s("p")), ("sk", s(k)), ("x", n("1"))]), None).unwrap();
    }
    let plan = w.engine.scan(&w.info, &w.meta, Some(2), None, None).unwrap();
    let rows = w.service.read_rows(&plan.request);
    let (items, last) = scan_plan_page(&plan, &rows, Some(2), None, None).unwrap();
    assert_eq!(items.len(), 2);
    assert_eq!(last, Some(order("p", "2")));
    let plan = w.engine.scan(&w.info, &w.meta, Some(2), last.as_ref(), None).unwrap();
    let rows = w.service.read_rows(&plan.request);
    let (items, last) = scan_plan_page(&plan, &rows, Some(2), None, None).unwrap();
    assert_eq!(names(&items, "sk"), vec!["3"]);
    assert_eq!(last, None);
}

#[test]
fn a_local_index_sorts_by_its_own_key() {
    let mut w = world(None);
    for (k, rank) in [("1", "30"), ("2", "4"), ("3", "100"), ("4", "-5")] {
        w.put(&item(&[("pk", s("p")), ("sk", s(k)), ("rank", n(rank))]), None).unwrap();
    }
    w.put(&order("p", "5"), None).unwrap();
    let all = w.query("p", None, true, None, None, Some("by_rank")).0;
    assert_eq!(names(&all, "rank"), vec!["-5", "4", "30", "100"]);
    let some = w.query("p", compare(CompareOp::Gt, n("4")), false, None, None, Some("by_rank")).0;
    assert_eq!(names(&some, "rank"), vec!["100", "30"]);
    let (page, last) = w.query("p", None, true, Some(3), None, Some("by_rank"));
    assert_eq!(names(&page, "rank"), vec!["-5", "4", "30"]);
    let (page, last) = w.query("p", None, true, Some(3), last.as_ref(), Some("by_rank"));
    assert_eq!(names(&page, "rank"), vec!["100"]);
    assert_eq!(last, None);
    // A scan by the index drops what is not in it.
    let plan = w.engine.scan(&w.info, &w.meta, None, None, Some("by_rank")).unwrap();
    let rows = w.service.read_rows(&plan.request);
    assert_eq!(scan_plan_page(&plan, &rows, None, None, None).unwrap().0.len(), 4);
    assert_eq!(
        w.engine.scan(&w.info, &w.meta, None, None, Some("nope")),
        Err(StorageError::IndexNotFound("nope".into()))
    );
}

// ---------------------------------------------------------------------------
// Shadow tables and expiry
// ---------------------------------------------------------------------------

fn person(sk: &str, city: Option<&str>, age: &str) -> Item {
    let mut i = item(&[("pk", s("p")), ("sk", s(sk)), ("age", n(age))]);
    if let Some(c) = city {
        i.insert("city".into(), s(c));
    }
    i
}

#[test]
fn shadow_rows_follow_the_items() {
    let mut w = world(None);
    w.put(&person("1", Some("Rome"), "30"), None).unwrap();
    w.put(&person("2", Some("Rome"), "5"), None).unwrap();
    w.put(&person("3", None, "7"), None).unwrap();
    assert_eq!(w.table(&w.shadow()), 2);
    let rome = w.query("Rome", None, true, None, None, Some("by_city")).0;
    assert_eq!(names(&rome, "age"), vec!["5", "30"]);
    // The key changes.
    w.put(&person("1", Some("Oslo"), "31"), None).unwrap();
    assert_eq!(names(&w.query("Rome", None, true, None, None, Some("by_city")).0, "sk"), vec!["2"]);
    assert_eq!(names(&w.query("Oslo", None, true, None, None, Some("by_city")).0, "sk"), vec!["1"]);
    // The key goes.
    w.put(&person("1", None, "31"), None).unwrap();
    assert_eq!(w.table(&w.shadow()), 1);
    w.delete(&order("p", "2")).unwrap();
    assert_eq!(w.table(&w.shadow()), 0);
}

fn entry(sk: &str, age: AttributeValue) -> Item {
    item(&[("pk", s("p")), ("sk", s(sk)), ("city", s("Rome")), ("age", age)])
}

fn between(low: AttributeValue, high: AttributeValue) -> Option<SortKeyCondition> {
    Some(SortKeyCondition::Between {
        low: Expr::Placeholder(Ok(low)),
        high: Expr::Placeholder(Ok(high)),
    })
}

fn begins_with(prefix: AttributeValue) -> Option<SortKeyCondition> {
    Some(SortKeyCondition::BeginsWith { prefix: Expr::Placeholder(Ok(prefix)) })
}

#[test]
fn index_ranges_of_numbers_are_exact() {
    let mut w = world(None);
    for (sk, age) in [("1", "-10"), ("2", "2"), ("3", "2.0"), ("4", "10"), ("5", "0")] {
        w.put(&entry(sk, n(age)), None).unwrap();
    }
    w.put(&person("6", Some("Romeo"), "2"), None).unwrap();
    let q = |cond, forward| {
        names(&w.query("Rome", cond, forward, None, None, Some("by_city")).0, "sk")
    };
    assert_eq!(q(None, true), vec!["1", "5", "2", "3", "4"]);
    assert_eq!(q(None, false), vec!["4", "3", "2", "5", "1"]);
    assert_eq!(q(compare(CompareOp::Eq, n("2")), true), vec!["2", "3"]);
    assert_eq!(q(compare(CompareOp::Eq, n("3")), true), Vec::<String>::new());
    assert_eq!(q(compare(CompareOp::Lt, n("2")), true), vec!["1", "5"]);
    assert_eq!(q(compare(CompareOp::Le, n("2")), true), vec!["1", "5", "2", "3"]);
    assert_eq!(q(compare(CompareOp::Gt, n("2")), true), vec!["4"]);
    assert_eq!(q(compare(CompareOp::Ge, n("2")), true), vec!["2", "3", "4"]);
    assert_eq!(q(compare(CompareOp::Ge, n("2")), false), vec!["4", "3", "2"]);
    assert_eq!(q(between(n("0"), n("2")), true), vec!["5", "2", "3"]);
    assert_eq!(q(between(n("3"), n("1")), true), Vec::<String>::new());
}

#[test]
fn index_ranges_of_text_and_bytes_are_exact() {
    let mut w = world(None);
    let texts = [("1", "a"), ("2", "ab"), ("3", "a\0"), ("4", "a\0b"), ("5", "b"), ("6", "")];
    for (sk, age) in texts {
        w.put(&entry(sk, s(age)), None).unwrap();
    }
    let q = |w: &World, cond| {
        names(&w.query("Rome", cond, true, None, None, Some("by_city")).0, "sk")
    };
    assert_eq!(q(&w, None), vec!["6", "1", "3", "4", "2", "5"]);
    assert_eq!(q(&w, compare(CompareOp::Eq, s("a"))), vec!["1"]);
    assert_eq!(q(&w, compare(CompareOp::Eq, s("a\0"))), vec!["3"]);
    assert_eq!(q(&w, compare(CompareOp::Lt, s("a\0"))), vec!["6", "1"]);
    assert_eq!(q(&w, compare(CompareOp::Le, s("a"))), vec!["6", "1"]);
    assert_eq!(q(&w, compare(CompareOp::Gt, s("a"))), vec!["3", "4", "2", "5"]);
    assert_eq!(q(&w, compare(CompareOp::Ge, s("a\0b"))), vec!["4", "2", "5"]);
    assert_eq!(q(&w, between(s("a\0"), s("ab"))), vec!["3", "4", "2"]);
    assert_eq!(q(&w, begins_with(s("a"))), vec!["1", "3", "4", "2"]);
    assert_eq!(q(&w, begins_with(s("a\0"))), vec!["3", "4"]);
    assert_eq!(q(&w, begins_with(s(""))), vec!["6", "1", "3", "4", "2", "5"]);
    // The trailer behind a prefix has seventeen bytes.
    let mut w = world(None);
    let b = |v: &[u8]| AttributeValue::B(v.to_vec());
    let long = |n: usize| b(&[&[1u8][..], &vec![0xFF; n][..]].concat());
    w.put(&entry("1", long(0)), None).unwrap();
    w.put(&entry("2", long(16)), None).unwrap();
    w.put(&entry("3", long(17)), None).unwrap();
    assert_eq!(q(&w, begins_with(b(&[1]))), vec!["1", "2"]);
    assert_eq!(q(&w, compare(CompareOp::Eq, b(&[1]))), vec!["1"]);
    assert_eq!(q(&w, compare(CompareOp::Gt, b(&[1]))), vec!["2", "3"]);
}

#[test]
fn pages_of_an_index_follow_each_other() {
    let mut w = world(None);
    let ages = [("1", "7"), ("2", "7"), ("3", "-1"), ("4", "7"), ("5", "30"), ("6", "8")];
    for (sk, age) in ages {
        w.put(&entry(sk, n(age)), None).unwrap();
    }
    w.put(&person("9", Some("Rom"), "7"), None).unwrap();
    let cond = || compare(CompareOp::Ge, n("7"));
    for forward in [true, false] {
        let query = |limit, start: Option<&Item>| {
            w.query("Rome", cond(), forward, limit, start, Some("by_city"))
        };
        let all = query(None, None).0;
        let mut expected = vec!["1", "2", "4", "6", "5"];
        if !forward {
            expected.reverse();
        }
        assert_eq!(names(&all, "sk"), expected);
        for limit in [1, 2, 5, 6] {
            let mut joined: Vec<Item> = Vec::new();
            let mut start: Option<Item> = None;
            loop {
                let (items, last) = query(Some(limit), start.as_ref());
                assert_eq!(last.is_some(), items.len() as i64 == limit);
                joined.extend(items);
                match last {
                    Some(k) => start = Some(k),
                    None => break,
                }
            }
            assert_eq!(joined, all);
        }
        // The key of an entry is enough to go on.
        let key = entry("4", n("7.0"));
        let rest = query(None, Some(&key)).0;
        assert_eq!(
            names(&rest, "sk"),
            if forward { vec!["6", "5"] } else { vec!["2", "1"] }
        );
    }
    // Without the index sort key there is no entry to go on behind.
    let kc = KeyCondition {
        pk_path: vec![PathElement::Attribute("city".into())],
        pk_value: Expr::Placeholder(Ok(s("Rome"))),
        sk_condition: None,
    };
    let start = item(&[("pk", s("p")), ("sk", s("4")), ("city", s("Rome"))]);
    assert_eq!(
        w.engine.query(&w.info, &w.meta, &kc, true, None, Some(&start), Some("by_city")),
        Err(StorageError::Validation("missing key attr age".into()))
    );
}

#[test]
fn pages_of_an_index_scan_make_the_scan() {
    let mut w = world(None);
    for (sk, city, age) in
        [("1", "Rome", "7"), ("2", "Oslo", "7"), ("3", "Rome", "7"), ("4", "Rome", "1")]
    {
        w.put(&person(sk, Some(city), age), None).unwrap();
    }
    w.put(&person("5", None, "7"), None).unwrap();
    let page = |limit: Option<i64>, start: Option<&Item>| {
        let plan = w.engine.scan(&w.info, &w.meta, limit, start, Some("by_city")).unwrap();
        let rows = w.service.read_rows(&plan.request);
        scan_plan_page(&plan, &rows, limit, None, None).unwrap()
    };
    let all = page(None, None).0;
    assert_eq!(names(&all, "sk"), vec!["2", "4", "1", "3"]);
    assert_eq!(page(Some(1), None).1, Some(person("2", Some("Oslo"), "7")));
    for limit in [1, 2, 3, 4, 5] {
        let mut joined: Vec<Item> = Vec::new();
        let mut start: Option<Item> = None;
        loop {
            let (items, last) = page(Some(limit), start.as_ref());
            joined.extend(items);
            match last {
                Some(k) => start = Some(k),
                None => break,
            }
        }
        assert_eq!(joined, all);
    }
}

#[test]
fn bounds_of_an_index_are_those_of_its_keys() {
    let head = |rest: &[u8]| [&b"S\0\0\0\x01pS"[..], rest].concat();
    let plus = |b: Vec<u8>| [&b[..], &[0xFF; 17][..]].concat();
    let range = |cond: Option<SortKeyCondition>| {
        build_range_for_index(&s("p"), cond.as_ref()).unwrap()
    };
    let exact = head(b"a\0\xFFb\0\0");
    let start = b"S\0\0\0\x01p".to_vec();
    let end = plus(start.clone());
    let of = |op| range(compare(op, s("a\0b")));
    assert_eq!(range(None), (start.clone(), end.clone(), false));
    assert_eq!(of(CompareOp::Eq), (exact.clone(), plus(exact.clone()), false));
    assert_eq!(of(CompareOp::Lt), (start.clone(), exact.clone(), true));
    assert_eq!(of(CompareOp::Le), (start, plus(exact.clone()), false));
    assert_eq!(of(CompareOp::Gt), (plus(exact.clone()), end.clone(), false));
    assert_eq!(of(CompareOp::Ge), (exact.clone(), end, false));
    assert_eq!(
        range(between(s("a"), s("a\0b"))),
        (head(b"a\0\0"), plus(exact), false)
    );
    let prefix = head(b"a\0\xFF");
    assert_eq!(range(begins_with(s("a\0"))), (prefix.clone(), plus(prefix), false));
    assert_eq!(
        build_range_for_index(&s("p"), compare(CompareOp::Ne, s("a")).as_ref()),
        Err(StorageError::Validation("Ne not valid in KeyConditionExpression for SK".into()))
    );
    assert_eq!(
        build_range_for_index(&s("p"), begins_with(n("1")).as_ref()),
        Err(StorageError::Validation("begins_with prefix must be S/B".into()))
    );
}

#[test]
fn shadow_tables_are_repaired() {
    let mut w = world(None);
    w.put(&person("1", Some("Rome"), "30"), None).unwrap();
    w.put(&person("2", Some("Oslo"), "5"), None).unwrap();
    let gsi = &w.meta.description.global_secondary_indexes.as_ref().unwrap()[0];
    let shadow = w.shadow();
    let full = client().full_table_name(&shadow);
    // One entry is lost, and one is superfluous.
    let lost = w.service.tables.get_mut(&full).unwrap().pop_last().unwrap();
    let mut stray = lost.0.clone();
    stray.push(7);
    let plan = w.engine.scan(&w.info, &w.meta, None, None, Some("by_city")).unwrap();
    let rows = w.service.read_rows(&plan.request);
    let items = scan_plan_page(&plan, &rows, None, None, None).unwrap().0;
    assert_eq!(reconcile_gsi_shadow_to_base(&items, &w.info.key_schema).len(), 1);
    // The row that a shadow row belongs to is gone.
    let c = reconcile_shadow_item_with_base(
        &w.info.key_schema,
        &w.meta.data_table,
        gsi,
        &items[0],
        None,
    )
    .unwrap();
    for q in change_requests(&client(), &c).unwrap() {
        w.service.mutate_row(&q);
    }
    assert_eq!(w.table(&shadow), 0);
    // From the table to the shadow table.
    let plan = w.engine.scan(&w.info, &w.meta, None, None, None).unwrap();
    let rows = w.service.read_rows(&plan.request);
    let items = scan_plan_page(&plan, &rows, None, None, None).unwrap().0;
    let targets = reconcile_gsi_base_to_shadow(&items, gsi, &w.info.key_schema);
    assert_eq!(targets.len(), 2);
    for t in targets {
        let expected = t.expected.clone();
        let c = repair_target(t, None, &shadow).unwrap();
        for q in change_requests(&client(), &[c]).unwrap() {
            w.service.mutate_row(&q);
        }
        // What is as it should be needs no repair.
        let again = reconcile_gsi_base_to_shadow(&[expected.clone()], gsi, &w.info.key_schema);
        for t in again {
            assert!(repair_target(t, Some(&expected), &shadow).is_none());
        }
    }
    assert_eq!(w.table(&shadow), 2);
    assert_eq!(names(&w.query("Rome", None, true, None, None, Some("by_city")).0, "sk"), vec!["1"]);
}

#[test]
fn expired_items_are_swept() {
    let mut w = world(Some("expires"));
    let mk = |sk: &str, at: &str| item(&[("pk", s("p")), ("sk", s(sk)), ("expires", n(at))]);
    w.put(&mk("1", "100"), None).unwrap();
    w.put(&mk("2", "200"), None).unwrap();
    w.put(&order("p", "3"), None).unwrap();
    assert_eq!(w.table(TTL_INDEX_TABLE), 2);
    // The time changes.
    w.put(&mk("2", "300"), None).unwrap();
    assert_eq!(w.table(TTL_INDEX_TABLE), 2);
    for now in [99i64, 250, 300] {
        for shard in 0..NUM_SHARDS {
            let mut pager = shard_start(shard);
            loop {
                let q = sweep_shard(&client(), &pager, shard, now);
                let rows = w.service.read_rows(&q);
                for row in &rows {
                    let due = due_item(row, now).unwrap();
                    assert_eq!(due.table_name, "orders");
                    match due_action(&due, Some(&w.info)) {
                        DueAction::DeleteItem { key } => {
                            w.delete(&key).unwrap();
                        }
                        DueAction::DeleteEntry => panic!("the key can be read"),
                    }
                    assert_eq!(due_action(&due, None), DueAction::DeleteEntry);
                    w.service.mutate_row(&delete_ttl_index_entry_raw(&client(), &row.key));
                }
                if !pager.advance(&rows) {
                    break;
                }
            }
        }
        assert_eq!(w.get(&order("p", "1")).is_some(), now < 100);
        assert_eq!(w.get(&order("p", "2")).is_some(), now < 300);
    }
    assert!(w.get(&order("p", "3")).is_some());
    assert_eq!(w.table(TTL_INDEX_TABLE), 0);
}

// ---------------------------------------------------------------------------
// Transactions
// ---------------------------------------------------------------------------

/// Runs a transaction of operations, each with what its condition gives, up to
/// an action at which it breaks off.
fn transact(
    w: &mut World,
    txn_id: &str,
    ops: &[TransactWriteOp<'_>],
    conditions: &[Option<Result<bool, String>>],
    break_off: Option<TxnAction>,
) -> Option<Result<(), StorageError>> {
    let resolved: Vec<ResolvedOp> = ops
        .iter()
        .map(|op| {
            let op = OwnedTxnOp::from(op);
            let participant = op.participant(&w.meta.data_table).unwrap();
            ResolvedOp { op, meta: meta_copy(&w.meta), participant }
        })
        .collect();
    run(&mut w.service, &w.engine, txn_id, &resolved, conditions, break_off)
}

/// Runs a transaction against the service.
fn run(
    service: &mut Service,
    engine: &BigtableEngine,
    txn_id: &str,
    resolved: &[ResolvedOp],
    conditions: &[Option<Result<bool, String>>],
    break_off: Option<TxnAction>,
) -> Option<Result<(), StorageError>> {
    let c = client();
    let coord = TxnCoordinator::new(&c, 60);
    let participants: Vec<ParticipantRow> = resolved.iter().map(|r| r.participant.clone()).collect();
    let mut driver = TxnDriver::new(participants.len());
    let mut existing: Vec<Option<Item>> = Vec::new();
    let mut updated: Vec<Option<Result<Item, String>>> = Vec::new();
    loop {
        let action = driver.action();
        if Some(action) == break_off {
            return None;
        }
        let mut signal = TxnSignal::Done;
        let mut error = None;
        let mut reasons = None;
        match action {
            TxnAction::Open => {
                let q = coord.open(txn_id, &participants, service.now).unwrap();
                service.check_and_mutate_row(&q);
            }
            TxnAction::Place { at } => {
                let mut tries = IntentAttempts::new();
                loop {
                    let q = coord.place_intent(txn_id, &participants[at], service.now);
                    let matched = service.check_and_mutate_row(&q);
                    match tries.step(matched, 0) {
                        IntentStep::Placed => break,
                        IntentStep::Conflict => {
                            signal = TxnSignal::Refused;
                            break;
                        }
                        IntentStep::Retry { .. } => {}
                    }
                }
            }
            TxnAction::Clear { at } => {
                service.mutate_row(&coord.clear_intent(txn_id, &participants[at]));
            }
            TxnAction::Sleep { .. } => {}
            TxnAction::Drop => service.mutate_row(&coord.drop(txn_id)),
            TxnAction::MarkAborted => service.mutate_row(&coord.aborted(txn_id)),
            TxnAction::Evaluate => {
                existing = resolved
                    .iter()
                    .map(|r| {
                        let key = r.op.lookup_key();
                        let q = engine.get_item(&r.op.key_info, &r.meta, key).unwrap();
                        found_item(&service.read_rows(&q)).unwrap()
                    })
                    .collect();
                updated = resolved.iter().map(|_| None).collect();
                match evaluate_conditions(&existing, conditions) {
                    TxnDecision::Proceed => {}
                    TxnDecision::Cancel(r) => {
                        signal = TxnSignal::ConditionsFailed;
                        reasons = Some(r);
                    }
                    TxnDecision::Abort(e) => {
                        signal = TxnSignal::EvaluationFailed;
                        error = Some(e);
                    }
                }
            }
            TxnAction::Commit => {
                let changes = prepare_changes(resolved, &existing, &updated).unwrap();
                service.mutate_row(&coord.commit(txn_id, &changes, Some(b"[]".to_vec())).unwrap());
            }
            TxnAction::Apply => {
                for (i, r) in resolved.iter().enumerate() {
                    let plan = engine
                        .apply_op(r, existing[i].as_ref(), &updated[i], service.now)
                        .unwrap();
                    for q in plan.base.into_iter().chain(plan.shadows.unwrap()).chain(plan.ttl.unwrap())
                    {
                        service.mutate_row(&q);
                    }
                }
            }
            TxnAction::Emit => {}
            TxnAction::MarkCleaned => service.mutate_row(&coord.cleaned(txn_id)),
            TxnAction::RecordToken => {}
            TxnAction::Stop => return Some(driver.finish()),
        }
        driver.step(signal, error, reasons);
    }
}

fn meta_copy(m: &TableMeta) -> TableMeta {
    let w = world(None);
    TableMeta {
        data_table: m.data_table.clone(),
        description: w.meta.description,
        ttl_attr: m.ttl_attr.clone(),
    }
}

fn intents(w: &World) -> usize {
    w.service
        .tables
        .get(&client().full_table_name(&w.meta.data_table))
        .map(|t| {
            t.values().flatten().filter(|c| c.qualifier.starts_with(b"intent:")).count()
        })
        .unwrap_or(0)
}

#[test]
fn transactions_go_through_whole() {
    let mut w = world(None);
    w.put(&person("old", Some("Rome"), "1"), None).unwrap();
    let info = w.info.clone();
    let a = person("1", Some("Oslo"), "2");
    let gone = order("p", "old");
    let ops = [
        TransactWriteOp::Put { key_info: &info, item: &a },
        TransactWriteOp::Delete { key_info: &info, key: &gone },
    ];
    assert_eq!(transact(&mut w, "t1", &ops, &[None, Some(Ok(true))], None), Some(Ok(())));
    assert_eq!(w.get(&order("p", "1")), Some(a.clone()));
    assert_eq!(w.get(&gone), None);
    assert_eq!(intents(&w), 0);
    assert_eq!(w.table(TXN_LOG_TABLE), 0);
    assert_eq!(names(&w.query("Oslo", None, true, None, None, Some("by_city")).0, "sk"), vec!["1"]);
    assert!(w.query("Rome", None, true, None, None, Some("by_city")).0.is_empty());
}

#[test]
fn transactions_are_rolled_back_whole() {
    let mut w = world(None);
    let info = w.info.clone();
    let (a, b) = (order("p", "1"), order("p", "2"));
    let ops = [
        TransactWriteOp::Put { key_info: &info, item: &a },
        TransactWriteOp::Put { key_info: &info, item: &b },
    ];
    let r = transact(&mut w, "t1", &ops, &[None, Some(Ok(false))], None).unwrap();
    match r {
        Err(StorageError::TransactionCanceled(reasons)) => {
            assert_eq!(reasons[0].code, "None");
            assert_eq!(reasons[1].code, "ConditionalCheckFailed");
            assert_eq!(reasons[1].message.as_deref(), Some("The conditional request failed"));
        }
        other => panic!("expected a cancellation, got {other:?}"),
    }
    assert_eq!(w.get(&a), None);
    assert_eq!(intents(&w), 0);
    assert_eq!(w.table(TXN_LOG_TABLE), 0);
    // A condition that cannot be evaluated.
    let r = transact(&mut w, "t2", &ops, &[Some(Err("bad".into())), None], None).unwrap();
    assert_eq!(r, Err(StorageError::Validation("condition evaluation: bad".into())));
    assert_eq!(intents(&w), 0);
}

#[test]
fn a_row_belongs_to_one_transaction_at_a_time() {
    let mut w = world(None);
    let info = w.info.clone();
    let (a, b) = (order("p", "1"), order("p", "2"));
    let first = [TransactWriteOp::Put { key_info: &info, item: &b }];
    assert_eq!(transact(&mut w, "t1", &first, &[None], Some(TxnAction::Evaluate)), None);
    assert_eq!(intents(&w), 1);
    let both = [
        TransactWriteOp::Put { key_info: &info, item: &a },
        TransactWriteOp::Put { key_info: &info, item: &b },
    ];
    match transact(&mut w, "t2", &both, &[None, None], None).unwrap() {
        Err(StorageError::TransactionCanceled(reasons)) => {
            assert_eq!(reasons.len(), 2);
            assert_eq!(reasons[0].code, "None");
            assert_eq!(reasons[1].code, "TransactionConflict");
        }
        other => panic!("expected a cancellation, got {other:?}"),
    }
    // Only the intent of the first is left, and a plain write is refused too.
    assert_eq!(intents(&w), 1);
    assert_eq!(
        w.put(&b, None),
        Err(StorageError::TransactionConflict(
            "concurrent transaction holds an intent on this row".into()
        ))
    );
    // Once the intent is stale, the row is free.
    w.service.now += 61_000_000;
    assert_eq!(w.put(&b, None), Ok(None));
}

#[test]
fn recovery_finishes_what_was_broken_off() {
    let mut w = world(None);
    let info = w.info.clone();
    let (a, b) = (person("1", Some("Rome"), "3"), order("p", "2"));
    let ops = [TransactWriteOp::Put { key_info: &info, item: &a }];
    // One was committed, the other was not.
    assert_eq!(transact(&mut w, "t1", &ops, &[None], Some(TxnAction::Apply)), None);
    let ops = [TransactWriteOp::Put { key_info: &info, item: &b }];
    assert_eq!(transact(&mut w, "t2", &ops, &[None], Some(TxnAction::Commit)), None);
    assert_eq!(intents(&w), 2);
    let c = client();
    let coord = TxnCoordinator::new(&c, 60);
    let t1 = found_state(&w.service.read_rows(&coord.get_state("t1"))).unwrap().unwrap();
    assert_eq!(t1.state, "COMMITTED");
    assert_eq!(resume_txn(Some(&t1.state)), Ok(Resume::RollForward));
    let t2 = found_state(&w.service.read_rows(&coord.get_state("t2"))).unwrap().unwrap();
    assert_eq!(t2.state, "PENDING");
    assert_eq!(found_state(&w.service.read_rows(&coord.get_state("t3"))), Ok(None));
    // Nothing is stale yet.
    let sweep = |w: &mut World| {
        let cutoff = w.service.now - 60_000_000;
        let mut done = Vec::new();
        let mut pager = sweep_start();
        loop {
            let rows = w.service.read_rows(&sweep_page(&c, &pager));
            for action in sweep_once(&rows, cutoff) {
                match action {
                    SweepAction::Skip => {}
                    SweepAction::Drop { txn_id } => {
                        done.push(format!("drop {txn_id}"));
                        w.service.mutate_row(&coord.drop(&txn_id));
                    }
                    SweepAction::RollBack { txn_id, participants, was_pending } => {
                        for p in &participants {
                            w.service.mutate_row(&coord.clear_intent(&txn_id, p));
                        }
                        assert_eq!(rollback_end(true, was_pending), RollbackEnd::Drop);
                        w.service.mutate_row(&coord.drop(&txn_id));
                        done.push(format!("back {txn_id}"));
                    }
                    SweepAction::RollForward { txn_id, state } => {
                        let f = w.engine.roll_forward(&txn_id, &state).unwrap();
                        assert_eq!(f.stream_records, Some(b"[]".to_vec()));
                        for q in f.changes.iter().chain(&f.changes).chain(&f.clears) {
                            w.service.mutate_row(q);
                        }
                        w.service.mutate_row(&f.cleaned);
                        w.service.mutate_row(&f.dropped);
                        done.push(format!("forward {txn_id}"));
                    }
                }
            }
            if !pager.advance(&rows) {
                break;
            }
        }
        done
    };
    assert!(sweep(&mut w).is_empty());
    w.service.now += 61_000_000;
    assert_eq!(sweep(&mut w), vec!["forward t1", "back t2"]);
    assert_eq!(w.get(&order("p", "1")), Some(a));
    assert_eq!(w.get(&b), None);
    assert_eq!(intents(&w), 0);
    assert_eq!(w.table(TXN_LOG_TABLE), 0);
    assert_eq!(names(&w.query("Rome", None, true, None, None, Some("by_city")).0, "sk"), vec!["1"]);
    // What is done is dropped.
    w.service.mutate_row(&coord.cleaned("t9"));
    let open = coord.open("t8", &[], w.service.now).unwrap();
    w.service.check_and_mutate_row(&open);
    w.service.mutate_row(&coord.cleaned("t8"));
    assert_eq!(sweep(&mut w), vec!["drop t8"]);
}

#[test]
fn a_transaction_opens_once() {
    let mut w = world(None);
    let c = client();
    let coord = TxnCoordinator::new(&c, 60);
    let id = derive_txn_id("token");
    assert_eq!(id, "3c469e9d6c5875d37a43f353d4f88e61fcf812c66eee3457465a40b0da4153e0");
    let p = [ParticipantRow { data_table: "d".into(), row_key: vec![0, 255, 7] }];
    let q = coord.open(&id, &p, 5).unwrap();
    assert!(!w.service.check_and_mutate_row(&q));
    assert!(w.service.check_and_mutate_row(&q));
    let t = found_state(&w.service.read_rows(&coord.get_state(&id))).unwrap().unwrap();
    assert_eq!(t.participants.unwrap(), p.to_vec());
    assert_eq!(t.mutations, None);
}

// ---------------------------------------------------------------------------
// The catalog
// ---------------------------------------------------------------------------

#[test]
fn records_of_the_catalog_read_back() {
    let mut w = world(None);
    let c = client();
    let cat = Catalog::new(&c);
    let v: serde_json::Value = serde_json::from_str("{\"b\":[1,-2,true,null],\"a\":\"x\"}").unwrap();
    w.service.mutate_row(&cat.put("user:1:ann", &v).unwrap());
    w.service.now += 1;
    let v2: serde_json::Value = serde_json::from_str("{\"n\":2}").unwrap();
    w.service.mutate_row(&cat.put("user:1:ann", &v2).unwrap());
    w.service.mutate_row(&cat.put("user:1:bob", &v).unwrap());
    w.service.mutate_row(&cat.put("user:10:cy", &v).unwrap());
    assert_eq!(catalog_value(&w.service.read_rows(&cat.get("user:1:ann"))), Some(v2));
    assert_eq!(catalog_value(&w.service.read_rows(&cat.get("user:1:zoe"))), None);
    let rows = w.service.read_rows(&cat.scan_prefix("user:1:"));
    let found = catalog_records(&rows).unwrap();
    let keys: Vec<&str> = found.iter().map(|(k, _)| k.as_str()).collect();
    assert_eq!(keys, vec!["user:1:ann", "user:1:bob"]);
    for q in cat.delete_prefix(&rows).unwrap() {
        w.service.mutate_row(&q);
    }
    assert!(w.service.read_rows(&cat.scan_prefix("user:1:")).is_empty());
    // What a row holds does not matter: a lock goes too.
    let lock = cat.try_lock("a", "node", w.service.now, 1000);
    w.service.check_and_mutate_row(&lock);
    let rows = w.service.read_rows(&cat.scan_prefix("lock:"));
    assert_eq!((rows.len(), catalog_records(&rows).unwrap().len()), (1, 0));
    for q in cat.delete_prefix(&rows).unwrap() {
        w.service.mutate_row(&q);
    }
    assert!(w.service.read_rows(&cat.scan_prefix("lock:")).is_empty());
    assert_eq!(cat.delete_prefix(&[]), Ok(vec![]));
    let odd = Row { key: vec![0xFF], cells: vec![] };
    assert!(cat.delete_prefix(&[odd]).unwrap_err().starts_with("catalog scan key: invalid utf-8"));
    w.service.mutate_row(&cat.delete("user:10:cy"));
    assert!(w.service.read_rows(&cat.scan_prefix("user:")).is_empty());
}

#[test]
fn locks_exclude_until_the_lease_is_over() {
    let mut w = world(None);
    let c = client();
    let cat = Catalog::new(&c);
    let now = w.service.now;
    assert!(!w.service.check_and_mutate_row(&cat.try_lock("l", "node-a", now, 100)));
    assert!(w.service.check_and_mutate_row(&cat.try_lock("l", "node-b", now + 100, 100)));
    // Only the owner releases it.
    assert!(!w.service.check_and_mutate_row(&cat.release_lock("l", "node-b")));
    assert!(w.service.check_and_mutate_row(&cat.try_lock("l", "node-b", now + 1, 100)));
    assert!(w.service.check_and_mutate_row(&cat.release_lock("l", "node-a")));
    assert!(!w.service.check_and_mutate_row(&cat.try_lock("l", "node-b", now + 1, 100)));
    // The lease of the second is over too.
    assert!(!w.service.check_and_mutate_row(&cat.try_lock("l", "node-a", now + 102, 100)));
}

// ---------------------------------------------------------------------------
// Whole scenarios
// ---------------------------------------------------------------------------

type Condition<'a> = Option<&'a dyn Fn(Option<&Item>) -> bool>;

/// A deployment with tables by their names.
struct Db {
    service: Service,
    engine: BigtableEngine,
    tables: BTreeMap<String, (Box<dyn Fn() -> CreateTableInput>, String)>,
}

fn db() -> Db {
    let mut d = Db {
        service: Service { tables: BTreeMap::new(), now: 1_700_000_000_000_000 },
        engine: BigtableEngine::new(client(), client(), 60),
        tables: BTreeMap::new(),
    };
    d.put_row(VERSION, &run_catalog_migrations("now"));
    d
}

fn input(
    name: &str,
    schema: &[(&str, KeyType, &str)],
    gsis: Option<Vec<GsiInput>>,
) -> CreateTableInput {
    CreateTableInput {
        table_name: name.to_string(),
        key_schema: schema.iter().map(|(n, kt, _)| ks(n, *kt)).collect(),
        attribute_definitions: schema
            .iter()
            .map(|(n, _, t)| AttributeDefinition {
                attribute_name: n.to_string(),
                attribute_type: t.to_string(),
            })
            .collect(),
        billing_mode: Some(BillingMode::PayPerRequest),
        provisioned_throughput: None,
        global_secondary_indexes: gsis,
        local_secondary_indexes: None,
        stream_specification: None,
        deletion_protection_enabled: Some(false),
        on_demand_throughput: None,
    }
}

impl Db {
    fn row(&self, key: &str) -> Option<serde_json::Value> {
        let c = client();
        catalog_value(&self.service.read_rows(&Catalog::new(&c).get(key)))
    }

    fn put_row(&mut self, key: &str, row: &serde_json::Value) {
        let c = client();
        self.service.mutate_row(&Catalog::new(&c).put(key, row).unwrap());
        self.service.now += 1;
    }

    fn create(&mut self, input: impl Fn() -> CreateTableInput + 'static) -> TableKeyInfo {
        let name = input().table_name;
        let key = table_meta(ACCOUNT, &name);
        check_new_table(self.row(&key).as_ref(), &name).unwrap();
        self.tables.insert(name.clone(), (Box::new(input), new_table_id()));
        let meta = self.meta(&name);
        let description = serde_json::Value::String(name.clone());
        self.put_row(&key, &table_record(&description, &meta.data_table));
        table_key_info(&meta.description, ACCOUNT, &name)
    }

    fn meta(&self, name: &str) -> TableMeta {
        let (input, id) = &self.tables[name];
        let plan = create_table(ACCOUNT, input(), id, 1_700_000_000, "label");
        let ttl_attr = match self.row(&table_meta(ACCOUNT, name)) {
            Some(row) => table_full_meta_for_raw(Some(&row), name).unwrap().ttl_attr,
            None => None,
        };
        TableMeta { data_table: plan.data_table, description: plan.description, ttl_attr }
    }

    fn get_item(&self, info: &TableKeyInfo, key: &Item) -> Option<Item> {
        let q = self.engine.get_item(info, &self.meta(&info.table_name), key).unwrap();
        found_item(&self.service.read_rows(&q)).unwrap()
    }

    fn make(&mut self, plan: PutPlan) -> Result<(Option<Item>, Option<Item>), StorageError> {
        let BaseWrite::Guarded(g) = &plan.write.base else {
            panic!("the write is guarded");
        };
        let matched = self.service.check_and_mutate_row(&g.request);
        g.outcome(matched)?;
        for q in plan.write.shadows?.iter().chain(plan.ttl?.iter()) {
            self.service.mutate_row(q);
        }
        Ok((plan.old, plan.new))
    }

    fn put_item(
        &mut self,
        info: &TableKeyInfo,
        item: &Item,
        condition: Condition<'_>,
    ) -> Result<Option<Item>, StorageError> {
        let meta = self.meta(&info.table_name);
        let existing = if needs_existing(&meta, condition.is_some(), false) {
            self.get_item(info, item)
        } else {
            None
        };
        let evaluated = condition.map(|c| Ok(c(existing.as_ref())));
        let now = self.service.now;
        let plan =
            self.engine.put_item(info, &meta, item, existing.as_ref(), evaluated, false, now)?;
        Ok(self.make(plan)?.0)
    }

    fn update_item(
        &mut self,
        info: &TableKeyInfo,
        key: &Item,
        update: &dyn Fn(&Item) -> Item,
        condition: Condition<'_>,
    ) -> Result<(Option<Item>, Option<Item>), StorageError> {
        let meta = self.meta(&info.table_name);
        let existing = self.get_item(info, key);
        let evaluated = condition.map(|c| Ok(c(existing.as_ref())));
        let new = update(&BigtableEngine::update_base(existing.as_ref(), key));
        let now = self.service.now;
        let plan = self.engine.update_item(
            info,
            &meta,
            existing.as_ref(),
            evaluated,
            Ok(new),
            true,
            true,
            now,
        )?;
        self.make(plan)
    }

    fn delete_item(
        &mut self,
        info: &TableKeyInfo,
        key: &Item,
        condition: Condition<'_>,
    ) -> Result<Option<Item>, StorageError> {
        let meta = self.meta(&info.table_name);
        let existing = self.get_item(info, key);
        let evaluated = condition.map(|c| Ok(c(existing.as_ref())));
        let now = self.service.now;
        let plan =
            self.engine.delete_item(info, &meta, key, existing.as_ref(), evaluated, true, now)?;
        let matched = self.service.check_and_mutate_row(&plan.write.request);
        plan.write.outcome(matched)?;
        for q in plan.shadows?.iter().chain(plan.ttl?.iter()) {
            self.service.mutate_row(q);
        }
        Ok(plan.old)
    }

    fn query(
        &self,
        info: &TableKeyInfo,
        pk: (&str, AttributeValue),
        sk_condition: Option<SortKeyCondition>,
        forward: bool,
        index: Option<&str>,
    ) -> Vec<Item> {
        let kc = KeyCondition {
            pk_path: vec![PathElement::Attribute(pk.0.to_string())],
            pk_value: Expr::Placeholder(Ok(pk.1)),
            sk_condition,
        };
        let meta = self.meta(&info.table_name);
        match self.engine.query(info, &meta, &kc, forward, None, None, index).unwrap() {
            QueryPlan::Rows(q) => query_page(&self.service.read_rows(&q), None).unwrap().0,
            QueryPlan::Lsi { .. } => panic!("there is no such index"),
        }
    }

    fn scan(
        &self,
        info: &TableKeyInfo,
        limit: i64,
        start: Option<&Item>,
    ) -> (Vec<Item>, Option<Item>) {
        let meta = self.meta(&info.table_name);
        let plan = self.engine.scan(info, &meta, Some(limit), start, None).unwrap();
        let rows = self.service.read_rows(&plan.request);
        scan_plan_page(&plan, &rows, Some(limit), None, None).unwrap()
    }

    fn transact_write_items(
        &mut self,
        ops: &[TransactWriteOp<'_>],
        conditions: &[Condition<'_>],
        token: Option<(&str, &str)>,
    ) -> Result<(), StorageError> {
        let txn_id = match token {
            Some((token, fingerprint)) => {
                check_token(self.row(&idempotency(token)).as_ref(), fingerprint)?;
                derive_txn_id(token)
            }
            None => TxnCoordinator::new_txn_id(),
        };
        let resolved: Vec<ResolvedOp> = ops
            .iter()
            .map(|op| {
                let op = OwnedTxnOp::from(op);
                let meta = self.meta(&op.key_info.table_name);
                let participant = op.participant(&meta.data_table).unwrap();
                ResolvedOp { op, meta, participant }
            })
            .collect();
        let evaluated: Vec<Option<Result<bool, String>>> = conditions
            .iter()
            .zip(&resolved)
            .map(|(c, r)| {
                let existing = self.get_item(&r.op.key_info, r.op.lookup_key());
                c.map(|c| Ok(c(existing.as_ref())))
            })
            .collect();
        run(&mut self.service, &self.engine, &txn_id, &resolved, &evaluated, None).unwrap()?;
        if let Some((token, fingerprint)) = token {
            self.put_row(&idempotency(token), &applied_token_record(fingerprint, 1_700_000_000));
        }
        Ok(())
    }

    fn transact_get_items(&self, ops: &[(&TableKeyInfo, &Item)]) -> Vec<Option<Item>> {
        let tables: Vec<String> =
            ops.iter().map(|(i, _)| self.meta(&i.table_name).data_table).collect();
        let groups = group_reads(&tables);
        let c = client();
        let results: Vec<Vec<Option<Item>>> = groups
            .iter()
            .map(|g| {
                let keys: Vec<Item> = g.positions.iter().map(|i| ops[*i].1.clone()).collect();
                let schema = &ops[g.positions[0]].0.key_schema;
                let q = ItemOps::new(&c, &g.data_table, 60).batch_get(schema, &keys).unwrap();
                let rows = self.service.read_rows(&q.unwrap());
                batch_items(&rows, schema, &keys).unwrap()
            })
            .collect();
        transact_get_items(&groups, &results, &tables)
    }

    /// Deletes the items of a table whose time has come.
    fn sweep(&mut self, info: &TableKeyInfo, now: i64) {
        for shard in 0..NUM_SHARDS {
            let mut pager = shard_start(shard);
            loop {
                let q = sweep_shard(&client(), &pager, shard, now);
                let rows = self.service.read_rows(&q);
                for row in &rows {
                    let due = due_item(row, now).unwrap();
                    if let DueAction::DeleteItem { key } = due_action(&due, Some(info)) {
                        self.delete_item(info, &key, None).unwrap();
                    }
                    self.service.mutate_row(&delete_ttl_index_entry_raw(&client(), &row.key));
                }
                if !pager.advance(&rows) {
                    break;
                }
            }
        }
    }
}

#[test]
fn test_bootstrapping_and_table_lifecycle() {
    let mut d = db();
    assert!(is_catalog_initialized(Ok(d.row(VERSION))), "catalog should be initialized");
    assert_eq!(read_catalog_version(d.row(VERSION).as_ref()), Some("0.1.0".to_string()));
    let name = "tbl_lifecycle";
    let info = d.create(|| {
        input("tbl_lifecycle", &[("pk", KeyType::Hash, "S"), ("sk", KeyType::Range, "S")], None)
    });
    let desc = d.meta(name).description;
    assert_eq!(desc.table_name, name);
    assert_eq!(desc.table_status, TableStatus::Active);
    let row = d.row(&table_meta(ACCOUNT, name));
    let described = describe_table(row.as_ref(), Ok(desc), name).expect("describe_table failed");
    assert_eq!(described.table_name, name);
    assert_eq!(described.key_schema.len(), 2);
    let c = client();
    let prefix = table_meta_scan_prefix(ACCOUNT);
    let rows = d.service.read_rows(&Catalog::new(&c).scan_prefix(&prefix));
    let keys: Vec<String> =
        catalog_records(&rows).unwrap().into_iter().map(|(k, _)| k).collect();
    let (names, _) = list_tables(&keys, None, None);
    assert!(names.contains(&name.to_string()), "created table should appear in list_tables");
    assert_eq!(info.table_name, name);
    assert_eq!(info.key_schema.len(), 2);
}

#[test]
fn test_guarded_single_row_crud() {
    let mut d = db();
    let info = d.create(|| {
        input("tbl_crud", &[("pk", KeyType::Hash, "S"), ("sk", KeyType::Range, "S")], None)
    });
    let mut tags = StringSet::new();
    tags.insert("admin".to_string());
    tags.insert("eng".to_string());
    let i = item(&[
        ("pk", s("user#1")),
        ("sk", s("profile")),
        ("name", s("Alice")),
        ("age", n("30")),
        ("counter", n("100")),
        ("active", AttributeValue::Bool(true)),
        ("tags", AttributeValue::SS(tags)),
    ]);
    let old = d.put_item(&info, &i, None).expect("put_item failed");
    assert!(old.is_none());
    let key = item(&[("pk", s("user#1")), ("sk", s("profile"))]);
    let fetched = d.get_item(&info, &key).expect("item not found");
    assert_eq!(fetched.get("name"), Some(&s("Alice")));
    assert_eq!(fetched.get("age"), Some(&n("30")));
    assert_eq!(fetched.get("counter"), Some(&n("100")));
    assert_eq!(fetched.get("active"), Some(&AttributeValue::Bool(true)));
    // attribute_not_exists(pk)
    let not_exists = |e: Option<&Item>| !e.map(|i| i.contains_key("pk")).unwrap_or(false);
    let ccf = d.put_item(&info, &i, Some(&not_exists));
    assert!(
        matches!(ccf, Err(StorageError::ConditionFailed(_))),
        "expected ConditionFailed, got {ccf:?}"
    );
    // SET age = :new_age, email = :email, counter = counter + :inc REMOVE active
    let update = |base: &Item| {
        let mut new = Item::new();
        for at in 0..base.len() {
            if base.name_at(at) != "active" {
                new.insert(base.name_at(at).clone(), base.value_at(at).clone());
            }
        }
        let counter = match base.get("counter") {
            Some(AttributeValue::N(v)) => v.parse::<i64>().unwrap(),
            _ => panic!("expected N attribute"),
        };
        new.insert("age".to_string(), n("31"));
        new.insert("email".to_string(), s("alice@example.com"));
        new.insert("counter".to_string(), n(&(counter + 25).to_string()));
        new
    };
    // age = :expected_age
    let expected_age = |e: Option<&Item>| e.and_then(|i| i.get("age")) == Some(&n("30"));
    let (old, new) = d
        .update_item(&info, &key, &update, Some(&expected_age))
        .expect("guarded update_item failed");
    let old = old.expect("expected old item");
    assert_eq!(old.get("age"), Some(&n("30")));
    let new = new.expect("expected new item");
    assert_eq!(new.get("age"), Some(&n("31")));
    assert_eq!(new.get("counter"), Some(&n("125")));
    assert_eq!(new.get("email"), Some(&s("alice@example.com")));
    assert!(!new.contains_key("active"));
    let upd_fail = d.update_item(&info, &key, &update, Some(&expected_age));
    assert!(
        matches!(upd_fail, Err(StorageError::ConditionFailed(_))),
        "expected ConditionFailed on update"
    );
    let del_fail = d.delete_item(&info, &key, Some(&expected_age));
    assert!(
        matches!(del_fail, Err(StorageError::ConditionFailed(_))),
        "expected ConditionFailed on delete"
    );
    let del_ok = d.delete_item(&info, &key, None).expect("delete_item failed");
    assert!(del_ok.is_some());
    assert!(d.get_item(&info, &key).is_none());
}

#[test]
fn test_transact_write_items_and_rollback() {
    let mut d = db();
    let info1 = d.create(|| input("tbl_tx_orders", &[("order_id", KeyType::Hash, "S")], None));
    let info2 = d.create(|| input("tbl_tx_inventory", &[("item_id", KeyType::Hash, "S")], None));
    let order_item = item(&[("order_id", s("ord#1001")), ("total", n("250"))]);
    let inv_item = item(&[("item_id", s("prod#50")), ("stock", n("99"))]);
    let ops = [
        TransactWriteOp::Put { key_info: &info1, item: &order_item },
        TransactWriteOp::Put { key_info: &info2, item: &inv_item },
    ];
    let token = format!("tok-{}", new_table_id());
    d.transact_write_items(&ops, &[None, None], Some((&token, "fp-ord1001")))
        .expect("transact_write_items across distinct tables failed");
    let ord_key = item(&[("order_id", s("ord#1001"))]);
    assert!(d.get_item(&info1, &ord_key).is_some());
    let inv_key = item(&[("item_id", s("prod#50"))]);
    assert!(d.get_item(&info2, &inv_key).is_some());
    let replay = d.transact_write_items(&[], &[], Some((&token, "fp-ord1001")));
    assert!(matches!(replay, Err(StorageError::IdempotentReplay)));
    let mismatch = d.transact_write_items(&[], &[], Some((&token, "fp-mismatch")));
    assert!(matches!(mismatch, Err(StorageError::IdempotentMismatch)));
    let fetched = d.transact_get_items(&[(&info1, &ord_key), (&info2, &inv_key)]);
    assert_eq!(fetched.len(), 2);
    assert!(fetched[0].is_some());
    assert!(fetched[1].is_some());
    let order_item2 = item(&[("order_id", s("ord#1002")), ("total", n("500"))]);
    let missing = item(&[("item_id", s("prod#9999"))]);
    // attribute_exists(item_id)
    let exists = |e: Option<&Item>| e.map(|i| i.contains_key("item_id")).unwrap_or(false);
    let rollback_ops = [
        TransactWriteOp::Put { key_info: &info1, item: &order_item2 },
        TransactWriteOp::ConditionCheck { key_info: &info2, key: &missing },
    ];
    let failed = d.transact_write_items(&rollback_ops, &[None, Some(&exists)], None);
    assert!(failed.is_err(), "transaction should fail due to condition check failure");
    assert!(
        d.get_item(&info1, &item(&[("order_id", s("ord#1002"))])).is_none(),
        "order_item2 must have been rolled back and not exist in table"
    );
}

#[test]
fn test_decimal_number_keys_and_range_scan() {
    let mut d = db();
    let info = d.create(|| {
        input(
            "tbl_decimal_keys",
            &[("sensor_id", KeyType::Hash, "S"), ("reading", KeyType::Range, "N")],
            None,
        )
    });
    let readings = [
        "-1000.5", "-100.5", "-50.25", "-1.0", "0", "0.005", "0.5", "1.0", "10.5", "100.0",
        "999.99", "1000.5",
    ];
    for r in readings {
        let i = item(&[("sensor_id", s("sensor#1")), ("reading", n(r)), ("status", s("OK"))]);
        d.put_item(&info, &i, None).unwrap();
    }
    // sensor_id = :sid AND reading BETWEEN :lo AND :hi
    let between = || {
        Some(SortKeyCondition::Between {
            low: Expr::Placeholder(Ok(n("-50.25"))),
            high: Expr::Placeholder(Ok(n("10.5"))),
        })
    };
    let sid = || ("sensor_id", s("sensor#1"));
    let expected = vec!["-50.25", "-1.0", "0", "0.005", "0.5", "1.0", "10.5"];
    let actual = names(&d.query(&info, sid(), between(), true, None), "reading");
    assert_eq!(actual, expected, "readings must match numerical sort order");
    let mut rev_expected = expected.clone();
    rev_expected.reverse();
    let rev_actual = names(&d.query(&info, sid(), between(), false, None), "reading");
    assert_eq!(rev_actual, rev_expected, "reverse scan must match reversed numerical order");
    let (first, last_key) = d.scan(&info, 6, None);
    assert_eq!(first.len(), 6);
    assert!(last_key.is_some());
    let (second, _) = d.scan(&info, 10, last_key.as_ref());
    assert_eq!(second.len(), 6);
}

#[test]
fn test_gsi_shadow_table_operations_and_query() {
    let mut d = db();
    let index = "DepartmentSalaryIndex";
    let info = d.create(|| {
        let gsi = GsiInput {
            index_name: "DepartmentSalaryIndex".to_string(),
            key_schema: vec![ks("department", KeyType::Hash), ks("salary", KeyType::Range)],
            projection: Projection {
                projection_type: ProjectionType::All,
                non_key_attributes: None,
            },
            provisioned_throughput: None,
        };
        input("tbl_gsi_test", &[("emp_id", KeyType::Hash, "S")], Some(vec![gsi]))
    });
    for (id, department, salary, name) in [
        ("emp#1", "Engineering", "120000", "Alice"),
        ("emp#2", "Engineering", "150000", "Bob"),
        ("emp#3", "Sales", "90000", "Carol"),
    ] {
        let i = item(&[
            ("emp_id", s(id)),
            ("department", s(department)),
            ("salary", n(salary)),
            ("name", s(name)),
        ]);
        d.put_item(&info, &i, None).unwrap();
    }
    let of = |d: &Db, department: &str| {
        let l = d.query(&info, ("department", s(department)), None, true, Some(index));
        names(&l, "emp_id")
    };
    assert_eq!(of(&d, "Engineering"), vec!["emp#1", "emp#2"]);
    // SET department = :new_dept, salary = :new_salary
    let update = |base: &Item| {
        let mut new = base.clone();
        new.insert("department".to_string(), s("Management"));
        new.insert("salary".to_string(), n("175000"));
        new
    };
    d.update_item(&info, &item(&[("emp_id", s("emp#1"))]), &update, None)
        .expect("update emp1 failed");
    assert_eq!(of(&d, "Engineering"), vec!["emp#2"]);
    assert_eq!(of(&d, "Management"), vec!["emp#1"]);
    d.delete_item(&info, &item(&[("emp_id", s("emp#2"))]), None).expect("delete emp2 failed");
    assert_eq!(of(&d, "Engineering").len(), 0);
}

#[test]
fn test_ttl_index_operations() {
    let mut d = db();
    let info = d.create(|| input("tbl_ttl", &[("session_id", KeyType::Hash, "S")], None));
    let key = table_meta(ACCOUNT, "tbl_ttl");
    let row = update_ttl(d.row(&key), "tbl_ttl", "expires_at", true).expect("update_ttl failed");
    d.put_row(&key, &row);
    let ttl = describe_ttl(d.row(&key).as_ref(), "tbl_ttl").expect("describe_ttl failed");
    assert!(ttl.enabled);
    assert_eq!(ttl.attribute_name, Some("expires_at".to_string()));
    let expired = item(&[
        ("session_id", s("sess#expired")),
        ("expires_at", n("1000")),
        ("data", s("temp_token")),
    ]);
    d.put_item(&info, &expired, None).unwrap();
    let valid = item(&[
        ("session_id", s("sess#active")),
        ("expires_at", n("9999999999")),
        ("data", s("permanent_token")),
    ]);
    d.put_item(&info, &valid, None).unwrap();
    let permanent = item(&[("session_id", s("sess#permanent")), ("data", s("no_ttl_token"))]);
    d.put_item(&info, &permanent, None).unwrap();
    d.sweep(&info, 1_700_000_000);
    let there = |id: &str| d.get_item(&info, &item(&[("session_id", s(id))])).is_some();
    assert!(!there("sess#expired"), "expired session must be deleted by TTL worker sweep");
    assert!(there("sess#active"), "active session must not be deleted");
    assert!(there("sess#permanent"), "permanent session must not be deleted");
}

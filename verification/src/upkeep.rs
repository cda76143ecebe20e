//! Upkeep of the catalog and of the indexes: records, locks, expiry and repair.

use vstd::prelude::*;
use vstd::string::*;
use vstd::utf8::{encode_utf8, is_ascii_chars, is_ascii_chars_encode_utf8};

use crate::backups::restores_table;
use crate::bigtable::{
    applied, checked, column_count, in_column, in_range, newest, row_deletion, table_path,
    BigtableClient, BoundView, CellView, MutView, RowView,
};
use crate::bootstrapper::table_names;
use crate::catalog::{
    catalog_mutation, lemma_lock_patterns, lock_filter_matches, lock_request, owner_filter,
    prefix_scan_exact, record_found, record_mutations, record_read, unlock_request, CATALOG_TABLE,
    CF, QUALIFIER,
};
use crate::engine::{table_row, ttl_attribute, TableRowView};
use crate::error::ErrView;
use crate::filter::{
    cell_passes, cells_passing, lemma_cells_passing, matches_row, passed, passed_chain, unanchored,
    FilterView,
};
use crate::gsi::{projected, shadow_key};
use crate::gsi_worker::{base_keys, repair_row, shadow_targets, target_repair};
use crate::json::{
    json_bytes, json_field, json_parsed, json_record, member, reads_as, text_field, truth_field,
    JsonView,
};
use crate::listings::{ends_with_name, lemma_name, lemma_named};
use crate::metadata::{
    account_named, all_expiring, expiring, expiring_of, tag_members, tags_json, tags_of,
    tags_read_back, ttl_updated,
};
use crate::random::{is_hex, is_uuid};
use crate::row_key::row_key;
use crate::stored::{
    answer, cells_at, changed, changes_touch_one_row, is_table, lemma_answer_key,
    lemma_record_cell,
};
use crate::sweeper::log_range;
use crate::table::{definition_views, IndexView, TableDescription};
use crate::tables::{describes, makes_gsi, makes_lsi, table_arn, CreateTableInput};
use crate::transact::{coordinator_key, PayloadView};
use crate::transact_write::{applied_record, resumed_record, token_check};
use crate::value::{key_attributes_lookup, lookup, ItemView, SchemaView};

verus! {

// ---------------------------------------------------------------------------
// The catalog
// ---------------------------------------------------------------------------

/// A record that was put into the catalog is read back by its key, and no other
/// row is touched.
pub proof fn catalog_records_read_back(
    t: Seq<RowView>,
    client: BigtableClient,
    key: Seq<char>,
    value: JsonView,
    now: int,
    other: Seq<u8>,
)
    requires
        is_table(t),
        json_parsed(json_bytes(value)) == reads_as(value),
    ensures
        ({
            let q = catalog_mutation(client, key, record_mutations(value));
            let after = changed(t, q, now);
            &&& q.table == table_path(client.project_id@, client.instance_id@, CATALOG_TABLE@)
            &&& record_read(client, key).table == q.table
            &&& record_found(answer(after, record_read(client, key))) == Some(value)
            &&& other != encode_utf8(key) ==> cells_at(after, other) == cells_at(t, other)
        }),
{
    let q = catalog_mutation(client, key, record_mutations(value));
    let k = encode_utf8(key);
    let after = changed(t, q, now);
    changes_touch_one_row(t, q, now, k);
    changes_touch_one_row(t, q, now, other);
    lemma_record_cell(cells_at(t, k), value, now);
    lemma_answer_key(after, record_read(client, key), k);
}

/// A record that was deleted from the catalog is not found, and no other row is
/// touched.
pub proof fn deleted_records_are_gone(
    t: Seq<RowView>,
    client: BigtableClient,
    key: Seq<char>,
    now: int,
    other: Seq<u8>,
)
    requires
        is_table(t),
    ensures
        ({
            let q = catalog_mutation(client, key, row_deletion());
            let after = changed(t, q, now);
            &&& q.table == table_path(client.project_id@, client.instance_id@, CATALOG_TABLE@)
            &&& record_found(answer(after, record_read(client, key))) is None
            &&& other != encode_utf8(key) ==> cells_at(after, other) == cells_at(t, other)
        }),
{
    let q = catalog_mutation(client, key, row_deletion());
    let k = encode_utf8(key);
    let after = changed(t, q, now);
    changes_touch_one_row(t, q, now, k);
    changes_touch_one_row(t, q, now, other);
    assert(row_deletion().drop_last() =~= Seq::<MutView>::empty());
    assert(applied(cells_at(t, k), row_deletion(), now) =~= Seq::<CellView>::empty());
    lemma_answer_key(after, record_read(client, key), k);
}

/// All cells pass a filter that each of them passes.
proof fn lemma_all_pass(f: FilterView, row: Seq<CellView>)
    requires
        forall|i: int| 0 <= i < row.len() ==> cell_passes(f, #[trigger] row[i]),
    ensures
        cells_passing(f, row) == row,
    decreases row.len(),
{
    if row.len() > 0 {
        let d = row.drop_last();
        assert forall|i: int| 0 <= i < d.len() implies cell_passes(f, #[trigger] d[i]) by {
            assert(d[i] == row[i]);
        }
        lemma_all_pass(f, d);
        assert(row[row.len() - 1] == row.last());
        assert(row =~= d.push(row.last()));
    }
}

/// The newest cell of a row with one column is its first.
proof fn lemma_newest_first(row: Seq<CellView>, family: Seq<char>, qualifier: Seq<u8>)
    requires
        row.len() > 0,
        forall|i: int| 0 <= i < row.len() ==> in_column(#[trigger] row[i], family, qualifier),
    ensures
        newest(row, 1) == seq![row[0]],
        column_count(row, family, qualifier) == row.len(),
    decreases row.len(),
{
    let d = row.drop_last();
    assert(row.last() == row[row.len() - 1]);
    if d.len() > 0 {
        assert forall|i: int| 0 <= i < d.len() implies in_column(
            #[trigger] d[i],
            family,
            qualifier,
        ) by {
            assert(d[i] == row[i]);
        }
        lemma_newest_first(d, family, qualifier);
        assert(newest(row, 1) =~= seq![row[0]]);
    } else {
        assert(newest(d, 1) =~= Seq::<CellView>::empty());
        assert(column_count(d, family, qualifier) == 0);
        assert(newest(row, 1) =~= seq![row[0]]);
    }
}

/// A lock is released by its owner and by no one else: the row of the lock goes where
/// its newest cell names the owner, and stays as it is where it names another.
pub proof fn locks_are_released_by_their_owners(
    client: BigtableClient,
    row: Seq<CellView>,
    name: Seq<char>,
    owner: Seq<char>,
    now: int,
)
    requires
        row.len() > 0,
        forall|i: int|
            0 <= i < row.len() ==> in_column(#[trigger] row[i], CF@, encode_utf8(QUALIFIER@)),
        is_uuid(owner),
    ensures
        unlock_request(client, name, owner).key == encode_utf8("lock:"@ + name),
        checked(row, unlock_request(client, name, owner), now) == if row[0].value == encode_utf8(
            owner,
        ) {
            Seq::empty()
        } else {
            row
        },
{
    let fam = FilterView::Family(CF@);
    let qual = FilterView::Qualifier(encode_utf8(QUALIFIER@));
    let one = FilterView::Limit(1);
    let val = FilterView::Value(encode_utf8(owner));
    let l = seq![fam, qual, one, val];
    reveal_with_fuel(passed_chain, 6);
    assert(passed(owner_filter(owner), row) == passed_chain(l, row));
    assert(l.drop_last() =~= seq![fam, qual, one]);
    assert(l.drop_last().drop_last() =~= seq![fam, qual]);
    assert(l.drop_last().drop_last().drop_last() =~= seq![fam]);
    assert forall|i: int| 0 <= i < row.len() implies cell_passes(fam, #[trigger] row[i])
        && cell_passes(qual, row[i]) by {
        lemma_lock_patterns(row[i]);
    }
    lemma_all_pass(fam, row);
    lemma_all_pass(qual, row);
    lemma_newest_first(row, CF@, encode_utf8(QUALIFIER@));
    let b = encode_utf8(owner);
    assert(is_ascii_chars(owner));
    is_ascii_chars_encode_utf8(owner);
    assert(is_hex(owner[0]) && is_hex(owner[35]));
    assert(b[0] == owner[0] as u8 && b[35] == owner[35] as u8);
    assert(unanchored(b) == b);
    let first = seq![row[0]];
    assert(passed_chain(l, row) == cells_passing(val, first));
    assert(first.contains(row[0]) && first[0] == row[0]);
    lemma_cells_passing(val, first, row[0]);
    if cells_passing(val, first).len() > 0 {
        let c = cells_passing(val, first)[0];
        assert(cells_passing(val, first).contains(c));
        lemma_cells_passing(val, first, c);
    }
    assert(row_deletion().drop_last() =~= Seq::<MutView>::empty());
    assert(applied(row, row_deletion(), now) =~= Seq::<CellView>::empty());
}

/// A lock that is free is given to who asks for it, until the lease ends. A lock that
/// is held stays as it is, whoever asks. It is held exactly as long as one of its
/// leases has not ended.
pub proof fn locks_are_given_when_free(
    client: BigtableClient,
    row: Seq<CellView>,
    name: Seq<char>,
    owner: Seq<char>,
    now: int,
    lease: int,
)
    requires
        0 <= now + lease,
    ensures
        ({
            let q = lock_request(client, name, owner, now, lease);
            let held = exists|i: int|
                0 <= i < row.len() && in_column(#[trigger] row[i], CF@, encode_utf8(QUALIFIER@))
                    && row[i].timestamp >= now;
            let after = checked(row, q, now);
            &&& q.table == table_path(client.project_id@, client.instance_id@, CATALOG_TABLE@)
            &&& q.key == encode_utf8("lock:"@ + name)
            &&& matches_row(q.predicate, row) <==> held
            &&& held ==> after == row
            &&& !held ==> after == seq![
                CellView {
                    family: CF@,
                    qualifier: encode_utf8(QUALIFIER@),
                    value: encode_utf8(owner),
                    timestamp: now + lease,
                },
            ] + row
        }),
{
    lock_filter_matches(row, now);
    let m = lock_request(client, name, owner, now, lease).if_false;
    assert(m.drop_last() =~= Seq::<MutView>::empty());
    assert(applied(row, m.drop_last(), now) == row);
}

// ---------------------------------------------------------------------------
// Expiry
// ---------------------------------------------------------------------------

/// Items are made to expire, or not, only in a table that is there; what was set is
/// then what operations go by, and all else in the row stays.
pub proof fn expiry_is_set(
    m: Seq<(Seq<char>, JsonView)>,
    table: Seq<char>,
    attribute: Seq<char>,
    enabled: bool,
    name: Seq<char>,
)
    requires
        name != "ttl"@,
    ensures
        ttl_updated(None, table, attribute, enabled) == Err::<JsonView, ErrView>(
            ErrView::TableNotFound(table),
        ),
        ttl_updated(Some(JsonView::Object(m)), table, attribute, enabled) matches Ok(row) && {
            &&& ttl_attribute(row) == if enabled {
                Some(attribute)
            } else {
                None
            }
            &&& crate::engine::ttl_setting(row) == (enabled, Some(attribute))
            &&& json_field(row, name) == json_field(JsonView::Object(m), name)
        },
{
    crate::metadata::ttl_reads_back(m, attribute, enabled, name);
}

/// Items of a table expire by an attribute exactly where its row says that they do, and
/// by which.
pub proof fn expiry_is_off_unless_set(row: JsonView, attribute: Seq<char>)
    ensures
        ttl_attribute(row) == Some(attribute) <==> (json_field(row, "ttl"@) matches Some(t)
            && truth_field(t, "enabled"@) == Some(true) && text_field(t, "attribute"@) == Some(
            attribute,
        )),
{
}

/// The row of a table tells where its items are, how it is described and by which
/// attribute its items expire, if they do. Without a row there is no table.
pub proof fn rows_tell_of_their_tables(row: JsonView, name: Seq<char>, attribute: Seq<char>)
    ensures
        table_row(None, name) == Err::<TableRowView, ErrView>(ErrView::TableNotFound(name)),
        table_row(Some(row), name) is Ok <==> text_field(row, "data_table"@) is Some,
        table_row(Some(row), name) matches Ok(t) ==> {
            &&& Some(t.data_table) == text_field(row, "data_table"@)
            &&& json_field(row, "description"@) matches Some(d) ==> t.description == d
            &&& t.ttl_attr == Some(attribute) <==> (json_field(row, "ttl"@) matches Some(x)
                && truth_field(x, "enabled"@) == Some(true) && text_field(x, "attribute"@) == Some(
                attribute,
            ))
        },
{
}

/// The tables whose items expire are exactly those whose rows say so, each with
/// its name and its attribute.
pub proof fn expiring_tables_are_listed(
    rows: Seq<(Seq<char>, JsonView)>,
    name: Seq<char>,
    attribute: Seq<char>,
)
    ensures
        expiring(rows).contains((name, attribute)) <==> exists|i: int|
            0 <= i < rows.len() && ttl_attribute((#[trigger] rows[i]).1) == Some(attribute)
                && ends_with_name(rows[i].0, name),
    decreases rows.len(),
{
    if rows.len() > 0 {
        let d = rows.drop_last();
        let n = rows.len() - 1;
        let r = rows[n];
        assert(r == rows.last());
        expiring_tables_are_listed(d, name, attribute);
        let (a, b) = (expiring(d), expiring(rows));
        lemma_named(r.0);
        if b.contains((name, attribute)) {
            let j = choose|j: int| 0 <= j < b.len() && b[j] == (name, attribute);
            if j < a.len() {
                assert(a[j] == b[j]);
                assert(a.contains((name, attribute)));
                let i = choose|i: int|
                    0 <= i < d.len() && ttl_attribute((#[trigger] d[i]).1) == Some(attribute)
                        && ends_with_name(d[i].0, name);
                assert(rows[i] == d[i]);
            } else {
                assert(ends_with_name(rows[n].0, name));
            }
        }
        if exists|i: int|
            0 <= i < rows.len() && ttl_attribute((#[trigger] rows[i]).1) == Some(attribute)
                && ends_with_name(rows[i].0, name) {
            let i = choose|i: int|
                0 <= i < rows.len() && ttl_attribute((#[trigger] rows[i]).1) == Some(attribute)
                    && ends_with_name(rows[i].0, name);
            if i < n {
                assert(d[i] == rows[i]);
                let j = choose|j: int| 0 <= j < a.len() && a[j] == (name, attribute);
                assert(b[j] == (name, attribute));
            } else {
                lemma_name(r.0, name);
                assert(b[b.len() - 1] == (name, attribute));
            }
        }
    }
}

/// The expiring tables of several accounts are those of each, account by account,
/// under the name that the key of its row gives.
pub proof fn expiring_tables_add_up(
    accounts: Seq<(String, Vec<(String, serde_json::Value)>)>,
    account: (String, Vec<(String, serde_json::Value)>),
    id: Seq<char>,
)
    requires
        account.0@ == "acct:"@ + id,
    ensures
        all_expiring(Seq::empty()).len() == 0,
        all_expiring(accounts.push(account)) == all_expiring(accounts) + expiring(
            crate::catalog::record_views(account.1@),
        ).map_values(|p: (Seq<char>, Seq<char>)| (id, p.0, p.1)),
{
    let l = accounts.push(account);
    assert(l.drop_last() =~= accounts);
    assert(l.last() == account);
    let key = "acct:"@ + id;
    let n = "acct:"@.len() as int;
    assert(key.subrange(0, n) =~= "acct:"@);
    assert(key.skip(n) =~= id);
    assert(account_named(key) == id);
    let rows = crate::catalog::record_views(account.1@);
    assert(expiring_of(key, rows) =~= expiring(rows).map_values(
        |p: (Seq<char>, Seq<char>)| (id, p.0, p.1),
    ));
}

// ---------------------------------------------------------------------------
// Repair of indexes
// ---------------------------------------------------------------------------

/// The entries that an index ought to have are those of exactly the items that
/// have its keys, in order, each at its key and with what the index keeps of it.
pub proof fn each_item_ought_to_have_its_entry(
    items: Seq<ItemView>,
    g: IndexView,
    base: SchemaView,
)
    ensures
        shadow_targets(items, g, base) == items.filter(
            |x: ItemView| shadow_key(x, g.schema, base) matches Ok(Some(_)),
        ).map_values(
            |x: ItemView|
                (
                    shadow_key(x, g.schema, base)->Ok_0->0,
                    projected(x, g.projection, base, g.schema),
                ),
        ),
    decreases items.len(),
{
    reveal(Seq::filter);
    let p = |x: ItemView| shadow_key(x, g.schema, base) matches Ok(Some(_));
    let e = |x: ItemView|
        (shadow_key(x, g.schema, base)->Ok_0->0, projected(x, g.projection, base, g.schema));
    if items.len() > 0 {
        let d = items.drop_last();
        each_item_ought_to_have_its_entry(d, g, base);
        let f = d.filter(p);
        assert(f.push(items.last()).map_values(e) =~= f.map_values(e).push(e(items.last())));
    } else {
        assert(shadow_targets(items, g, base) =~= items.filter(p).map_values(e));
    }
}

/// An entry is written anew exactly where it is missing or differs from what it
/// ought to be; then it is as it ought to be.
pub proof fn entries_are_repaired_where_they_differ(
    key: Seq<u8>,
    expected: ItemView,
    found: Option<ItemView>,
    table: Seq<char>,
)
    ensures
        target_repair(key, expected, found, table) is None <==> found == Some(expected),
        target_repair(key, expected, found, table) matches Some(m) ==> {
            &&& m.participant.table == table
            &&& m.participant.key == key
            &&& m.payload == (PayloadView::Put { item: expected })
        },
{
}

/// The rows that shadow rows belong to are looked up by the attributes of the
/// table's key, all of them and no others, one for each shadow row.
pub proof fn shadow_rows_lead_to_their_rows(
    items: Seq<ItemView>,
    base: SchemaView,
    i: int,
    name: Seq<char>,
)
    requires
        0 <= i < items.len(),
    ensures
        base_keys(items, base).len() == items.len(),
        row_key(base_keys(items, base)[i], base) == row_key(items[i], base),
        lookup(base_keys(items, base)[i], name) == if exists|k: int|
            0 <= k < base.len() && (#[trigger] base[k]).0 == name {
            lookup(items[i], name)
        } else {
            None
        },
{
    key_attributes_lookup(items[i], base, name);
    crate::queries::keys_address_items(items[i], base);
}

/// The row of a table tells the repair of its indexes the name of the table, its
/// data table and its description.
pub proof fn rows_tell_what_to_repair(account: Seq<char>, name: Seq<char>, row: JsonView)
    requires
        !account.contains(':'),
        !name.contains(':'),
    ensures
        ({
            let key = "table_meta:"@ + account + ":"@ + name;
            &&& repair_row(key, row) is Some <==> text_field(row, "data_table"@) is Some
                && json_field(row, "description"@) is Some
            &&& repair_row(key, row) matches Some((t, d, v)) ==> t == name && Some(d) == text_field(
                row,
                "data_table"@,
            ) && Some(v) == json_field(row, "description"@)
        }),
{
    let l = seq!["table_meta"@, account, name];
    reveal_strlit("table_meta");
    reveal_strlit("table_meta:");
    reveal_strlit(":");
    assert(!"table_meta"@.contains(':'));
    assert("table_meta:"@ =~= "table_meta"@ + seq![':']);
    crate::config::split_undoes_join(l, ':');
    reveal_with_fuel(crate::config::joined, 4);
    assert(l.skip(1) =~= seq![account, name]);
    assert(l.skip(1).skip(1) =~= seq![name]);
    assert("table_meta:"@ + account + ":"@ + name =~= crate::config::joined(l, ':'));
}

/// Of each table with a name, a list of all tables holds the account, a slash and
/// the name.
pub proof fn all_tables_are_named(
    account: Seq<char>,
    keys: Seq<Seq<char>>,
    key: Seq<char>,
    name: Seq<char>,
)
    requires
        ends_with_name(key, name),
    ensures
        table_names(account, Seq::empty()).len() == 0,
        table_names(account, keys.push(key)) == table_names(account, keys).push(
            account + "/"@ + name,
        ),
{
    lemma_name(key, name);
    assert(keys.push(key).drop_last() =~= keys);
}

// ---------------------------------------------------------------------------
// Backups and tokens
// ---------------------------------------------------------------------------

/// A table that is restored from a backup is like the table that was backed up, but
/// for its name: it has the same key, the same definitions of attributes, the same way
/// of billing and the same indexes, each with its name, its key and its projection, in
/// the same order. It has no stream and is not protected.
pub proof fn restored_tables_are_alike(
    source: TableDescription,
    name: Seq<char>,
    input: CreateTableInput,
    restored: TableDescription,
    account: Seq<char>,
    id: Seq<char>,
    now: int,
    label: Seq<char>,
)
    requires
        restores_table(input, source, name),
        describes(restored, account, input, id, now, label),
    ensures
        restored.table_name@ == name,
        restored.schema() == source.schema(),
        definition_views(restored.attribute_definitions@) == definition_views(
            source.attribute_definitions@,
        ),
        source.billing_mode_summary matches Some(s) ==> restored.billing_mode_summary->0.billing_mode
            == s.billing_mode,
        restored.on_demand_throughput == source.on_demand_throughput,
        restored.latest_stream_arn is None,
        !restored.deletion_protection_enabled,
        restored.gsis() == source.gsis(),
        restored.lsis() == source.lsis(),
        restored.global_secondary_indexes is Some <==> source.global_secondary_indexes is Some,
        restored.local_secondary_indexes is Some <==> source.local_secondary_indexes is Some,
{
    let arn = table_arn(account, input.table_name@);
    if let Some(l) = source.global_secondary_indexes {
        let i = input.global_secondary_indexes->0@;
        let r = restored.global_secondary_indexes->0@;
        assert forall|k: int| 0 <= k < l@.len() implies (#[trigger] r[k])@ == l@[k]@ by {
            assert(makes_gsi(r[k], i[k], arn));
            assert(i[k].index_name@ == l@[k].index_name@);
        }
        assert(restored.gsis() =~= source.gsis());
    } else {
        assert(restored.gsis() =~= source.gsis());
    }
    if let Some(l) = source.local_secondary_indexes {
        let i = input.local_secondary_indexes->0@;
        let r = restored.local_secondary_indexes->0@;
        assert forall|k: int| 0 <= k < l@.len() implies (#[trigger] r[k])@ == l@[k]@ by {
            assert(makes_lsi(r[k], i[k], arn));
            assert(i[k].index_name@ == l@[k].index_name@);
        }
        assert(restored.lsis() =~= source.lsis());
    } else {
        assert(restored.lsis() =~= source.lsis());
    }
}

/// A request token whose transaction is under way, or went through, is known by its
/// record: the same request is a replay and another one a mismatch. The record of one
/// under way names the transaction.
pub proof fn tokens_are_remembered(
    fingerprint: Seq<char>,
    asked: Seq<char>,
    txn: Seq<char>,
    at: int,
)
    ensures
        ({
            let answer = Err::<(), ErrView>(
                if asked == fingerprint {
                    ErrView::IdempotentReplay
                } else {
                    ErrView::IdempotentMismatch
                },
            );
            &&& token_check(Some(applied_record(fingerprint, at)), asked) == answer
            &&& token_check(Some(resumed_record(fingerprint, txn)), asked) == answer
        }),
        text_field(resumed_record(fingerprint, txn), "txn_id"@) == Some(txn),
        text_field(applied_record(fingerprint, at), "txn_id"@) is None,
{
    reveal_strlit("applied_at");
    reveal_strlit("fingerprint");
    reveal_strlit("txn_id");
    assert("fingerprint"@.len() != "applied_at"@.len());
    assert("fingerprint"@.len() != "txn_id"@.len());
    assert("applied_at"@.len() != "txn_id"@.len());
    reveal_with_fuel(crate::json::member, 3);
    let a = seq![
        ("applied_at"@, JsonView::Number(crate::text::signed_decimal(at))),
        ("fingerprint"@, JsonView::Str(fingerprint)),
    ];
    assert(a.drop_last() =~= seq![a[0]]);
    assert(a.drop_last().drop_last() =~= Seq::<(Seq<char>, JsonView)>::empty());
    let b = seq![("fingerprint"@, JsonView::Str(fingerprint)), ("txn_id"@, JsonView::Str(txn))];
    assert(b.drop_last() =~= seq![b[0]]);
}

/// The tags that are listed are exactly the members of the record that are texts, in
/// their order.
pub proof fn tags_are_listed(m: Seq<(Seq<char>, JsonView)>)
    ensures
        tags_of(m) == m.filter(|e: (Seq<char>, JsonView)| e.1 is Str).map_values(
            |e: (Seq<char>, JsonView)| (e.0, e.1->Str_0),
        ),
        tag_members(None).len() == 0,
        tag_members(Some(JsonView::Object(m))) == m,
    decreases m.len(),
{
    reveal(Seq::filter);
    let p = |e: (Seq<char>, JsonView)| e.1 is Str;
    let f = |e: (Seq<char>, JsonView)| (e.0, e.1->Str_0);
    if m.len() > 0 {
        let d = m.drop_last();
        tags_are_listed(d);
        let k = d.filter(p);
        assert(k.push(m.last()).map_values(f) =~= k.map_values(f).push(f(m.last())));
    } else {
        assert(tags_of(m) =~= m.filter(p).map_values(f));
    }
}

/// A sweep of the log goes through exactly the rows of transactions.
pub proof fn sweeps_see_every_transaction(txn: Seq<char>, key: Seq<char>)
    ensures
        ({
            let r = log_range(BoundView::Closed(encode_utf8("txn:"@)));
            &&& in_range(coordinator_key(txn), r)
            &&& in_range(encode_utf8(key), r) <==> encode_utf8("txn:"@).is_prefix_of(
                encode_utf8(key),
            )
        }),
{
    prefix_scan_exact("txn:"@, key);
    prefix_scan_exact("txn:"@, "txn:"@ + txn);
    crate::text::lemma_encode_concat("txn:"@, txn);
    let a = encode_utf8("txn:"@);
    let b = encode_utf8("txn:"@ + txn);
    assert(b.subrange(0, a.len() as int) =~= a);
}

/// A tag that was given has the value that it was given last, and a tag that was not
/// stays as it was.
pub proof fn given_tags_are_kept(
    m: Seq<(Seq<char>, JsonView)>,
    tags: Seq<(Seq<char>, Seq<char>)>,
    i: int,
    other: Seq<char>,
)
    requires
        0 <= i < tags.len(),
        forall|j: int| i < j < tags.len() ==> (#[trigger] tags[j]).0 != tags[i].0,
        forall|j: int| 0 <= j < tags.len() ==> (#[trigger] tags[j]).0 != other,
    ensures
        json_field(json_record(m + tags_json(tags)), tags[i].0) == Some(JsonView::Str(tags[i].1)),
        json_field(json_record(m + tags_json(tags)), other) == member(m, other),
{
    let l = tags_json(tags);
    tags_read_back(m, tags, tags[i].0);
    tags_read_back(m, tags, other);
    lemma_last_member(l, i, tags[i].0);
    lemma_not_member(l, other);
}

proof fn lemma_last_member(l: Seq<(Seq<char>, JsonView)>, i: int, name: Seq<char>)
    requires
        0 <= i < l.len(),
        l[i].0 == name,
        forall|j: int| i < j < l.len() ==> (#[trigger] l[j]).0 != name,
    ensures
        member(l, name) == Some(l[i].1),
    decreases l.len(),
{
    assert(l.last() == l[l.len() - 1]);
    if i < l.len() - 1 {
        let d = l.drop_last();
        assert(d[i] == l[i]);
        lemma_last_member(d, i, name);
    }
}

proof fn lemma_not_member(l: Seq<(Seq<char>, JsonView)>, name: Seq<char>)
    requires
        forall|j: int| 0 <= j < l.len() ==> (#[trigger] l[j]).0 != name,
    ensures
        member(l, name) is None,
    decreases l.len(),
{
    if l.len() > 0 {
        assert(l.last() == l[l.len() - 1]);
        lemma_not_member(l.drop_last(), name);
    }
}

} // verus!

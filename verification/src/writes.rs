//! What puts, updates and deletions leave behind, and what reads find then.

use vstd::prelude::*;
use vstd::string::*;
use vstd::utf8::encode_utf8;

use crate::bigtable::{
    applied, mutated, newest, row_deletion, table_path, BigtableClient, CellView, MutView,
    MutateView, RowView,
};
use crate::engine::{
    guarded_delete, guarded_put, item_read, reads_first, ttl_requests, BigtableEngine,
};
use crate::error::ErrView;
use crate::filter::matches_row;
use crate::item_ops::{
    cells_hold, condition_result, delete_effect, found, guard_matches, has_active_intent,
    item_readable, put_effect, row_item,
};
use crate::row_key::row_key;
use crate::shadows::{shadow_change, shadow_changes, ttl_change};
use crate::stored::{
    answer, cells_at, changed, changed_all, changes_touch_one_row, check_applied, is_table,
    lemma_answer_key,
};
use crate::table::IndexView;
use crate::text::parse_signed;
use crate::transact::PartMutView;
use crate::ttl_key::{ttl_key, ttl_key_round_trip};
use crate::value::{item_sorted, lookup, AttrView, ItemView, SchemaView};

verus! {

/// A read of a key gives the item of the row with that key, and none where there
/// is no such row.
pub proof fn gets_read_the_row(
    t: Seq<RowView>,
    engine: BigtableEngine,
    table: Seq<char>,
    key: Seq<u8>,
)
    requires
        is_table(t),
    ensures
        item_read(engine, table, key).table == table_path(
            engine.client.project_id@,
            engine.client.instance_id@,
            table,
        ),
        found(answer(t, item_read(engine, table, key))) == match row_item(
            newest(cells_at(t, key), 1),
        ) {
            Ok(i) => Ok::<(Option<ItemView>, Option<nat>), ErrView>(
                (
                    if i.len() == 0 {
                        None
                    } else {
                        Some(i)
                    },
                    crate::item_ops::row_version(newest(cells_at(t, key), 1)),
                ),
            ),
            Err(e) => Err(e),
        },
{
    let q = item_read(engine, table, key);
    lemma_answer_key(t, q, key);
    if cells_at(t, key).len() == 0 {
        assert(newest(cells_at(t, key), 1) =~= Seq::<CellView>::empty());
    }
}

/// A put goes through exactly where no transaction holds the row by an intent that
/// is not stale. Then a read of the key gives the item, whole, and no other row is
/// touched. Where it does not go through, every row is as it was.
pub proof fn puts_take_effect(
    t: Seq<RowView>,
    engine: BigtableEngine,
    table: Seq<char>,
    key: Seq<u8>,
    item: ItemView,
    now: int,
    at: int,
    other: Seq<u8>,
)
    requires
        is_table(t),
        item.len() > 0,
        item_sorted(item),
        item_readable(item),
        cells_hold(item),
    ensures
        ({
            let w = guarded_put(engine, table, key, item, now);
            let held = has_active_intent(
                cells_at(t, key),
                now - engine.intent_timeout_secs * 1_000_000,
            );
            let after = check_applied(t, w.request, at);
            &&& w.request.table == table_path(
                engine.client.project_id@,
                engine.client.instance_id@,
                table,
            )
            &&& w.request.key == key
            &&& matches_row(w.request.predicate, cells_at(t, key)) <==> held
            &&& is_table(after)
            &&& held ==> cells_at(after, other) == cells_at(t, other)
            &&& other != key ==> cells_at(after, other) == cells_at(t, other)
            &&& !held ==> row_item(newest(cells_at(after, key), 1)) == Ok::<ItemView, ErrView>(item)
        }),
{
    let w = guarded_put(engine, table, key, item, now).request;
    let row = cells_at(t, key);
    guard_matches(row, now - engine.intent_timeout_secs * 1_000_000, None, false);
    let mutations = if matches_row(w.predicate, row) {
        w.if_true
    } else {
        w.if_false
    };
    let q = MutateView { table: w.table, profile: w.profile, key, mutations };
    changes_touch_one_row(t, q, at, other);
    changes_touch_one_row(t, q, at, key);
    put_effect(row, item, 1, at);
}

/// A deletion goes through exactly where no transaction holds the row by an intent
/// that is not stale. Then a read of the key finds no item, and no other row is
/// touched. Where it does not go through, every row is as it was.
pub proof fn deletions_take_effect(
    t: Seq<RowView>,
    engine: BigtableEngine,
    table: Seq<char>,
    key: Seq<u8>,
    now: int,
    at: int,
    other: Seq<u8>,
)
    requires
        is_table(t),
    ensures
        ({
            let w = guarded_delete(engine, table, key, now);
            let held = has_active_intent(
                cells_at(t, key),
                now - engine.intent_timeout_secs * 1_000_000,
            );
            let after = check_applied(t, w.request, at);
            &&& w.request.table == table_path(
                engine.client.project_id@,
                engine.client.instance_id@,
                table,
            )
            &&& w.request.key == key
            &&& matches_row(w.request.predicate, cells_at(t, key)) <==> held
            &&& is_table(after)
            &&& held ==> cells_at(after, other) == cells_at(t, other)
            &&& other != key ==> cells_at(after, other) == cells_at(t, other)
            &&& !held ==> found(answer(after, item_read(engine, table, key))) == Ok::<
                (Option<ItemView>, Option<nat>),
                ErrView,
            >((None, None))
        }),
{
    let w = guarded_delete(engine, table, key, now).request;
    let row = cells_at(t, key);
    guard_matches(row, now - engine.intent_timeout_secs * 1_000_000, None, false);
    let mutations = if matches_row(w.predicate, row) {
        w.if_true
    } else {
        w.if_false
    };
    let q = MutateView { table: w.table, profile: w.profile, key, mutations };
    changes_touch_one_row(t, q, at, other);
    changes_touch_one_row(t, q, at, key);
    gets_read_the_row(changed(t, q, at), engine, table, key);
    delete_effect(row, at);
}

/// A condition lets a write through where there is none or it held. Where it did
/// not hold the write fails with the item that is there; where it could not be
/// evaluated, with what was said of it.
pub proof fn conditions_gate_writes(
    existing: Option<ItemView>,
    evaluated: Option<Result<bool, Seq<char>>>,
)
    ensures
        condition_result(existing, evaluated) is Ok <==> (evaluated is None || evaluated == Some(
            Ok::<bool, Seq<char>>(true),
        )),
        evaluated == Some(Ok::<bool, Seq<char>>(false)) ==> condition_result(existing, evaluated)
            == Err::<(), ErrView>(ErrView::ConditionFailed(existing)),
        evaluated matches Some(Err(m)) ==> condition_result(existing, evaluated) == Err::<
            (),
            ErrView,
        >(ErrView::Validation("condition evaluation: "@ + m)),
{
}

/// The changes that follow a write are those of every index, none missing and none
/// besides: they can be made exactly where those of each index can.
#[verifier::rlimit(60)]
#[verifier::spinoff_prover]
pub proof fn every_index_follows(
    new: Option<ItemView>,
    old: Option<ItemView>,
    gsis: Seq<IndexView>,
    base: SchemaView,
    data_table: Seq<char>,
)
    ensures
        shadow_changes(new, old, gsis, base, data_table) is Ok <==> forall|i: int|
            0 <= i < gsis.len() ==> shadow_change(
                new,
                old,
                #[trigger] gsis[i],
                base,
                data_table,
            ) is Ok,
        shadow_changes(new, old, gsis, base, data_table) matches Ok(l) ==> {
            &&& forall|i: int, m: PartMutView|
                0 <= i < gsis.len() && (#[trigger] shadow_change(
                    new,
                    old,
                    gsis[i],
                    base,
                    data_table,
                )->Ok_0.contains(m)) ==> l.contains(m)
            &&& forall|j: int|
                0 <= j < l.len() ==> #[trigger] some_index_asks(
                    l[j],
                    new,
                    old,
                    gsis,
                    base,
                    data_table,
                )
        },
    decreases gsis.len(),
{
    if gsis.len() > 0 {
        let d = gsis.drop_last();
        let n = gsis.len() - 1;
        every_index_follows(new, old, d, base, data_table);
        assert(gsis[n] == gsis.last());
        if shadow_changes(new, old, d, base, data_table) is Err {
            let i = choose|i: int|
                0 <= i < d.len() && shadow_change(
                    new,
                    old,
                    #[trigger] d[i],
                    base,
                    data_table,
                ) is Err;
            assert(gsis[i] == d[i]);
            assert(shadow_change(new, old, gsis[i], base, data_table) is Err);
        } else {
            assert forall|i: int| 0 <= i < n implies shadow_change(
                new,
                old,
                #[trigger] gsis[i],
                base,
                data_table,
            ) is Ok by {
                assert(gsis[i] == d[i]);
            }
            let a = shadow_changes(new, old, d, base, data_table)->Ok_0;
            if let Ok(c) = shadow_change(new, old, gsis[n], base, data_table) {
                let l = a + c;
                assert forall|i: int, m: PartMutView|
                    0 <= i < gsis.len() && (#[trigger] shadow_change(
                        new,
                        old,
                        gsis[i],
                        base,
                        data_table,
                    )->Ok_0.contains(m)) implies l.contains(m) by {
                    if i < n {
                        assert(gsis[i] == d[i]);
                        assert(shadow_change(new, old, d[i], base, data_table)->Ok_0.contains(m));
                        let k = choose|k: int| 0 <= k < a.len() && a[k] == m;
                        assert(l[k] == m);
                    } else {
                        let k = choose|k: int| 0 <= k < c.len() && c[k] == m;
                        assert(l[a.len() + k] == m);
                    }
                }
                assert forall|j: int| 0 <= j < l.len() implies #[trigger] some_index_asks(
                    l[j],
                    new,
                    old,
                    gsis,
                    base,
                    data_table,
                ) by {
                    if j < a.len() {
                        assert(l[j] == a[j]);
                        assert(some_index_asks(a[j], new, old, d, base, data_table));
                        let i = choose|i: int|
                            0 <= i < d.len() && shadow_change(
                                new,
                                old,
                                #[trigger] d[i],
                                base,
                                data_table,
                            )->Ok_0.contains(a[j]);
                        assert(gsis[i] == d[i]);
                    } else {
                        assert(l[j] == c[j - a.len()]);
                        assert(c.contains(l[j]));
                        assert(gsis[n] == gsis.last());
                    }
                }
            }
        }
    }
}

/// Whether a change is one that follows in one of the indexes.
pub open spec fn some_index_asks(
    m: PartMutView,
    new: Option<ItemView>,
    old: Option<ItemView>,
    gsis: Seq<IndexView>,
    base: SchemaView,
    data_table: Seq<char>,
) -> bool {
    exists|i: int|
        0 <= i < gsis.len() && shadow_change(
            new,
            old,
            #[trigger] gsis[i],
            base,
            data_table,
        )->Ok_0.contains(m)
}

/// The entry of an item in the index of expiry times, where the attribute holds a
/// time.
pub open spec fn expiry_entry(
    item: Option<ItemView>,
    attribute: Seq<char>,
    schema: SchemaView,
    account: Seq<char>,
    table: Seq<char>,
) -> Option<Seq<u8>> {
    match item {
        Some(i) => match lookup(i, attribute) {
            Some(AttrView::N(s)) => match parse_signed(s, i64::MIN as int, i64::MAX as int) {
                Some(e) => Some(ttl_key(account, table, row_key(i, schema)->Ok_0, e)),
                None => None,
            },
            _ => None,
        },
        None => None,
    }
}

/// The index of expiry times follows the items. Where expiry times are on, the
/// item that is there after a change has its entry, if its attribute holds a time,
/// and the entry of the item that was there before is gone, unless it is the same.
/// No other entry is touched. Where they are off nothing is.
#[verifier::rlimit(40)]
pub proof fn expiry_entries_follow(
    t: Seq<RowView>,
    client: BigtableClient,
    new: Option<ItemView>,
    old: Option<ItemView>,
    attribute: Option<Seq<char>>,
    schema: SchemaView,
    account: Seq<char>,
    table: Seq<char>,
    now: int,
    other: Seq<u8>,
)
    requires
        is_table(t),
        encode_utf8(account).len() < 256,
        encode_utf8(table).len() < 256,
        ttl_change(new, old, attribute, schema, account, table) is Ok,
        new matches Some(n) ==> row_key(n, schema) is Ok,
        old matches Some(o) ==> row_key(o, schema) is Ok,
        new is Some && old is Some ==> row_key(new->0, schema) == row_key(old->0, schema),
        attribute matches Some(a) ==> (expiry_entry(old, a, schema, account, table) matches Some(k)
            ==> cells_at(t, k).len() > 0),
    ensures
        ({
            let l = ttl_requests(
                client,
                ttl_change(new, old, attribute, schema, account, table),
            )->Ok_0;
            let after = changed_all(t, l, now);
            &&& is_table(after)
            &&& attribute is None ==> l.len() == 0
            &&& attribute matches Some(a) ==> {
                let is = expiry_entry(new, a, schema, account, table);
                let was = expiry_entry(old, a, schema, account, table);
                &&& is matches Some(k) ==> cells_at(after, k).len() > 0
                &&& was matches Some(k) ==> (is != was ==> cells_at(after, k).len() == 0)
                &&& is != Some(other) && was != Some(other) ==> cells_at(after, other) == cells_at(
                    t,
                    other,
                )
            }
        }),
{
    let l = ttl_requests(
        client,
        ttl_change(new, old, attribute, schema, account, table),
    )->Ok_0;
    reveal_with_fuel(changed_all, 3);
    if let Some(a) = attribute {
        let is = expiry_entry(new, a, schema, account, table);
        let was = expiry_entry(old, a, schema, account, table);
        let was_time = crate::shadows::opt_expiry(old, a);
        let is_time = crate::shadows::opt_expiry(new, a);
        if was_time != is_time {
            if let Some(e) = was_time {
                ttl_key_round_trip(account, table, row_key(old->0, schema)->Ok_0, e);
            }
            if let Some(e) = is_time {
                ttl_key_round_trip(account, table, row_key(new->0, schema)->Ok_0, e);
            }
            assert(is != was);
            lemma_entries(t, client, was, is, now, other);
        }
    }
}

proof fn lemma_entries(
    t: Seq<RowView>,
    client: BigtableClient,
    gone: Option<Seq<u8>>,
    come: Option<Seq<u8>>,
    now: int,
    other: Seq<u8>,
)
    requires
        is_table(t),
        gone != come,
    ensures
        ({
            let l = ttl_requests(client, Ok((gone, come)))->Ok_0;
            let after = changed_all(t, l, now);
            &&& is_table(after)
            &&& come matches Some(k) ==> cells_at(after, k).len() > 0
            &&& gone matches Some(k) ==> cells_at(after, k).len() == 0
            &&& gone != Some(other) && come != Some(other) ==> cells_at(after, other) == cells_at(
                t,
                other,
            )
        }),
{
    let l = ttl_requests(client, Ok((gone, come)))->Ok_0;
    let none = Seq::<MutateView>::empty();
    reveal_with_fuel(changed_all, 3);
    let t1 = match gone {
        Some(k) => {
            let q = crate::shadows::ttl_entry_view(client, k, false);
            changes_touch_one_row(t, q, now, k);
            changes_touch_one_row(t, q, now, other);
            assert(row_deletion().drop_last() =~= Seq::<MutView>::empty());
            assert(applied(cells_at(t, k), row_deletion(), now) =~= Seq::<CellView>::empty());
            changed(t, q, now)
        },
        None => t,
    };
    match come {
        Some(k) => {
            let q = crate::shadows::ttl_entry_view(client, k, true);
            changes_touch_one_row(t1, q, now, k);
            changes_touch_one_row(t1, q, now, other);
            let m = q.mutations;
            let row = cells_at(t1, k);
            assert(m.drop_last() =~= Seq::<MutView>::empty());
            assert(applied(row, m.drop_last(), now) == row);
            assert(applied(row, m, now) == mutated(row, m.last(), now));
            assert(applied(row, m, now).len() > 0);
            if gone is Some {
                changes_touch_one_row(t1, q, now, gone->0);
                assert(l.drop_last() =~= seq![crate::shadows::ttl_entry_view(client, gone->0, false)]);
                assert(l.drop_last().drop_last() =~= none);
            } else {
                assert(l.drop_last() =~= none);
            }
        },
        None => {
            if gone is Some {
                assert(l.drop_last() =~= none);
            }
        },
    }
}

/// Where the item that is there need not be read before a write, nothing depends
/// on it: not what follows in the indexes, nor the index of expiry times.
pub proof fn unread_items_matter_not(
    meta: crate::engine::TableMeta,
    has_condition: bool,
    return_old: bool,
    new: Option<ItemView>,
    there: Option<ItemView>,
    schema: SchemaView,
    account: Seq<char>,
    table: Seq<char>,
)
    requires
        !reads_first(meta, has_condition, return_old),
    ensures
        !has_condition,
        !return_old,
        meta.description.latest_stream_arn is None,
        shadow_changes(new, there, meta.description.gsis(), schema, meta.data_table@)
            == shadow_changes(new, None, meta.description.gsis(), schema, meta.data_table@),
        ttl_change(new, there, crate::text::opt_view(meta.ttl_attr), schema, account, table)
            == ttl_change(new, None, crate::text::opt_view(meta.ttl_attr), schema, account, table),
{
}

} // verus!

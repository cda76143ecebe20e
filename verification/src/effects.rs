//! What the plans of writes reach: the row of the item, the indexes of its table
//! and the index of expiry times.

use vstd::prelude::*;
use vstd::string::*;
use vstd::utf8::encode_utf8;

use crate::bigtable::{
    applied, newest, newest_of, row_deletion, table_path, BigtableClient, CellView, MutView,
    MutateView, RowView,
};
use crate::engine::{
    item_read, plans_delete, plans_put, BaseWrite, BigtableEngine, DeletePlan, PutPlan, TableMeta,
};
use crate::error::ErrView;
use crate::gsi::{projected, shadow_key, shadow_table};
use crate::item_ops::{cells_hold, found, has_active_intent, item_readable, row_item};
use crate::row_key::row_key;
use crate::shadows::{
    change_request_views, change_view, mutate_views, payload_mutations, shadow_change,
    shadow_changes,
};
use crate::stored::{answer, cells_at, changed, changed_all, check_applied, is_table};
use crate::table::{IndexView, KeyInfoView};
use crate::text::opt_view;
use crate::transact::{
    lemma_state_set, log_read, log_text, PartMutView, PartView, PayloadView, TxnView,
    INTENT_FAMILY, TXN_LOG_TABLE,
};
use crate::transact_write::{
    goes_forward, kind_key, plans_change, ApplyPlan, ResolvedOp, RollForward,
};
use crate::transactions::{
    committed_deletions_take_effect, committed_puts_take_effect, every_intent_is_cleared,
};
use crate::value::{item_sorted, ItemView, SchemaView};
use crate::writes::{
    deletions_take_effect, every_index_follows, expiry_entries_follow, expiry_entry,
    puts_take_effect,
};

verus! {

/// Whether the requests make an index follow a change: the item that is there after
/// it gets its entry, with what the index keeps of it, and the entry of the item
/// that was there before goes, unless it is the same.
pub open spec fn index_follows(
    l: Seq<MutateView>,
    client: BigtableClient,
    new: Option<ItemView>,
    old: Option<ItemView>,
    g: IndexView,
    base: SchemaView,
    data_table: Seq<char>,
) -> bool {
    let path = table_path(
        client.project_id@,
        client.instance_id@,
        shadow_table(data_table, g.name),
    );
    let is = match new {
        Some(n) => shadow_key(n, g.schema, base)->Ok_0,
        None => None,
    };
    let was = match old {
        Some(o) => shadow_key(o, g.schema, base)->Ok_0,
        None => None,
    };
    &&& is matches Some(k) ==> l.contains(
        MutateView {
            table: path,
            profile: client.profile(),
            key: k,
            mutations: payload_mutations(
                PayloadView::Put { item: projected(new->0, g.projection, base, g.schema) },
            ),
        },
    )
    &&& was matches Some(k) ==> (is != was ==> l.contains(
        MutateView {
            table: path,
            profile: client.profile(),
            key: k,
            mutations: row_deletion(),
        },
    ))
}

/// Whether the requests make the index of expiry times follow a change: of the two
/// items each has its entry there exactly if it is there after the change.
pub open spec fn expiry_follows(
    t: Seq<RowView>,
    l: Seq<MutateView>,
    new: Option<ItemView>,
    old: Option<ItemView>,
    attribute: Option<Seq<char>>,
    key_info: KeyInfoView,
    at: int,
) -> bool {
    let after = changed_all(t, l, at);
    match attribute {
        None => l.len() == 0,
        Some(a) => {
            let is = expiry_entry(
                new,
                a,
                key_info.schema,
                key_info.account_id,
                key_info.table_name,
            );
            let was = expiry_entry(
                old,
                a,
                key_info.schema,
                key_info.account_id,
                key_info.table_name,
            );
            &&& is matches Some(k) ==> cells_at(after, k).len() > 0
            &&& was matches Some(k) ==> (is != was ==> cells_at(after, k).len() == 0)
        },
    }
}

/// Whether the index of expiry times has what it should have of the items before a
/// change, which are of one row.
pub open spec fn expiry_held(
    t: Seq<RowView>,
    new: Option<ItemView>,
    old: Option<ItemView>,
    attribute: Option<Seq<char>>,
    key_info: KeyInfoView,
) -> bool {
    &&& is_table(t)
    &&& encode_utf8(key_info.account_id).len() < 256
    &&& encode_utf8(key_info.table_name).len() < 256
    &&& new matches Some(n) ==> row_key(n, key_info.schema) is Ok
    &&& old matches Some(o) ==> row_key(o, key_info.schema) is Ok
    &&& new is Some && old is Some ==> row_key(new->0, key_info.schema) == row_key(
        old->0,
        key_info.schema,
    )
    &&& attribute matches Some(a) ==> (expiry_entry(
        old,
        a,
        key_info.schema,
        key_info.account_id,
        key_info.table_name,
    ) matches Some(k) ==> cells_at(t, k).len() > 0)
}

#[verifier::rlimit(40)]
proof fn lemma_index_follows(
    client: BigtableClient,
    new: Option<ItemView>,
    old: Option<ItemView>,
    gsis: Seq<IndexView>,
    base: SchemaView,
    data_table: Seq<char>,
    i: int,
)
    requires
        shadow_changes(new, old, gsis, base, data_table) is Ok,
        0 <= i < gsis.len(),
    ensures
        index_follows(
            change_request_views(client, shadow_changes(new, old, gsis, base, data_table)->Ok_0),
            client,
            new,
            old,
            gsis[i],
            base,
            data_table,
        ),
{
    let c = shadow_changes(new, old, gsis, base, data_table)->Ok_0;
    let l = change_request_views(client, c);
    let g = gsis[i];
    every_index_follows(new, old, gsis, base, data_table);
    let s = shadow_change(new, old, g, base, data_table);
    assert(s is Ok);
    let table = shadow_table(data_table, g.name);
    assert forall|m: PartMutView| #[trigger] s->Ok_0.contains(m) implies l.contains(
        change_view(client, m),
    ) by {
        assert(c.contains(m));
        let j = choose|j: int| 0 <= j < c.len() && c[j] == m;
        assert(l[j] == change_view(client, m));
    }
    let n: int = s->Ok_0.len() as int;
    if let Some(o) = old {
        if let Ok(Some(k)) = shadow_key(o, g.schema, base) {
            let m = PartMutView {
                participant: PartView { table, key: k },
                payload: PayloadView::Delete,
            };
            if n > 0 && s->Ok_0[0] == m {
                assert(s->Ok_0.contains(m));
            }
        }
    }
    if let Some(x) = new {
        if let Ok(Some(k)) = shadow_key(x, g.schema, base) {
            let m = PartMutView {
                participant: PartView { table, key: k },
                payload: PayloadView::Put { item: projected(x, g.projection, base, g.schema) },
            };
            assert(s->Ok_0[n - 1] == m);
            assert(s->Ok_0.contains(m));
        }
    }
}

/// The plan of a put or an update is whole. Once its write is made, unless a
/// transaction holds the row, the row of the item holds the new item. Every index
/// follows, and so does the index of expiry times.
#[verifier::rlimit(40)]
pub proof fn put_plans_are_whole(
    plan: PutPlan,
    engine: BigtableEngine,
    key_info: KeyInfoView,
    meta: TableMeta,
    new: ItemView,
    old: Option<ItemView>,
    now: int,
    t: Seq<RowView>,
    times: Seq<RowView>,
    at: int,
    i: int,
)
    requires
        plans_put(plan, engine, key_info, meta, new, old, now),
        plan.write.shadows is Ok,
        plan.ttl is Ok,
        is_table(t),
        new.len() > 0,
        item_sorted(new),
        item_readable(new),
        cells_hold(new),
        expiry_held(times, Some(new), old, opt_view(meta.ttl_attr), key_info),
    ensures
        ({
            let k = row_key(new, key_info.schema)->Ok_0;
            &&& row_key(new, key_info.schema) is Ok
            &&& plan.write.base matches BaseWrite::Guarded(g) && g@.request.table == table_path(
                engine.client.project_id@,
                engine.client.instance_id@,
                meta.data_table@,
            ) && (!has_active_intent(
                cells_at(t, k),
                now - engine.intent_timeout_secs * 1_000_000,
            ) ==> row_item(newest(cells_at(check_applied(t, g@.request, at), k), 1)) == Ok::<
                ItemView,
                ErrView,
            >(new))
        }),
        0 <= i < meta.description.gsis().len() ==> index_follows(
            mutate_views(plan.write.shadows->Ok_0@),
            engine.client,
            Some(new),
            old,
            meta.description.gsis()[i],
            key_info.schema,
            meta.data_table@,
        ),
        expiry_follows(
            times,
            mutate_views(plan.ttl->Ok_0@),
            Some(new),
            old,
            opt_view(meta.ttl_attr),
            key_info,
            at,
        ),
{
    let k = row_key(new, key_info.schema)->Ok_0;
    puts_take_effect(t, engine, meta.data_table@, k, new, now, at, k);
    if 0 <= i < meta.description.gsis().len() {
        lemma_index_follows(
            engine.client,
            Some(new),
            old,
            meta.description.gsis(),
            key_info.schema,
            meta.data_table@,
            i,
        );
    }
    expiry_entries_follow(
        times,
        engine.client,
        Some(new),
        old,
        opt_view(meta.ttl_attr),
        key_info.schema,
        key_info.account_id,
        key_info.table_name,
        at,
        k,
    );
}

/// The plan of a deletion is whole. Once its write is made, unless a transaction
/// holds the row, there is no item in the row. Of the item that was there, every
/// index loses its entry, and so does the index of expiry times.
#[verifier::rlimit(40)]
pub proof fn delete_plans_are_whole(
    plan: DeletePlan,
    engine: BigtableEngine,
    key_info: KeyInfoView,
    meta: TableMeta,
    key: ItemView,
    old: Option<ItemView>,
    now: int,
    t: Seq<RowView>,
    times: Seq<RowView>,
    at: int,
    i: int,
)
    requires
        plans_delete(plan, engine, key_info, meta, key, old, now),
        plan.shadows is Ok,
        plan.ttl is Ok,
        is_table(t),
        expiry_held(times, None, old, opt_view(meta.ttl_attr), key_info),
    ensures
        ({
            let k = row_key(key, key_info.schema)->Ok_0;
            &&& row_key(key, key_info.schema) is Ok
            &&& plan.write@.request.table == table_path(
                engine.client.project_id@,
                engine.client.instance_id@,
                meta.data_table@,
            )
            &&& !has_active_intent(
                cells_at(t, k),
                now - engine.intent_timeout_secs * 1_000_000,
            ) ==> found(
                answer(
                    check_applied(t, plan.write@.request, at),
                    item_read(engine, meta.data_table@, k),
                ),
            ) == Ok::<(Option<ItemView>, Option<nat>), ErrView>((None, None))
        }),
        0 <= i < meta.description.gsis().len() ==> index_follows(
            mutate_views(plan.shadows->Ok_0@),
            engine.client,
            None,
            old,
            meta.description.gsis()[i],
            key_info.schema,
            meta.data_table@,
        ),
        expiry_follows(
            times,
            mutate_views(plan.ttl->Ok_0@),
            None,
            old,
            opt_view(meta.ttl_attr),
            key_info,
            at,
        ),
{
    let k = row_key(key, key_info.schema)->Ok_0;
    deletions_take_effect(t, engine, meta.data_table@, k, now, at, k);
    if old is Some && 0 <= i < meta.description.gsis().len() {
        lemma_index_follows(
            engine.client,
            None,
            old,
            meta.description.gsis(),
            key_info.schema,
            meta.data_table@,
            i,
        );
    }
    expiry_entries_follow(
        times,
        engine.client,
        None,
        old,
        opt_view(meta.ttl_attr),
        key_info.schema,
        key_info.account_id,
        key_info.table_name,
        at,
        k,
    );
}

/// The plan of an operation of a committed transaction is whole: the row of the item
/// then holds the new item, or none. Every index follows, and so does the index of
/// expiry times.
#[verifier::rlimit(40)]
pub proof fn apply_plans_are_whole(
    plan: ApplyPlan,
    engine: BigtableEngine,
    r: ResolvedOp,
    new: Option<ItemView>,
    old: Option<ItemView>,
    now: int,
    t: Seq<RowView>,
    times: Seq<RowView>,
    at: int,
    i: int,
)
    requires
        plans_change(plan, engine, r, new, old, now),
        plan.shadows is Ok,
        plan.ttl is Ok,
        is_table(t),
        0 <= now <= u64::MAX,
        new matches Some(n) ==> n.len() > 0 && item_sorted(n) && item_readable(n) && cells_hold(n),
        expiry_held(times, new, old, opt_view(r.meta.ttl_attr), r.op.key_info@),
    ensures
        plan.base matches Some(q) && ({
            let k = match new {
                Some(n) => row_key(n, r.op.key_info@.schema),
                None => row_key(kind_key(r.op.kind@), r.op.key_info@.schema),
            };
            &&& k is Ok
            &&& q@.table == table_path(
                engine.client.project_id@,
                engine.client.instance_id@,
                r.meta.data_table@,
            )
            &&& found(
                answer(changed(t, q@, at), item_read(engine, r.meta.data_table@, k->Ok_0)),
            ) matches Ok(f) && f.0 == new
        }),
        0 <= i < r.meta.description.gsis().len() ==> index_follows(
            mutate_views(plan.shadows->Ok_0@),
            engine.client,
            new,
            old,
            r.meta.description.gsis()[i],
            r.op.key_info@.schema,
            r.meta.data_table@,
        ),
        expiry_follows(
            times,
            mutate_views(plan.ttl->Ok_0@),
            new,
            old,
            opt_view(r.meta.ttl_attr),
            r.op.key_info@,
            at,
        ),
{
    let info = r.op.key_info@;
    match new {
        Some(n) => {
            let k = row_key(n, info.schema)->Ok_0;
            committed_puts_take_effect(t, engine, r.meta.data_table@, k, n, now, at, k);
        },
        None => {
            let k = row_key(kind_key(r.op.kind@), info.schema)->Ok_0;
            committed_deletions_take_effect(t, engine, r.meta.data_table@, k, at, k);
        },
    }
    if 0 <= i < r.meta.description.gsis().len() {
        lemma_index_follows(
            engine.client,
            new,
            old,
            r.meta.description.gsis(),
            info.schema,
            r.meta.data_table@,
            i,
        );
    }
    expiry_entries_follow(
        times,
        engine.client,
        new,
        old,
        opt_view(r.meta.ttl_attr),
        info.schema,
        info.account_id,
        info.table_name,
        at,
        Seq::empty(),
    );
}

/// A committed transaction is taken to its end as it is in the log: every change is
/// made, in its row, in the order of the log; every row is cleared of the intent; the
/// stream records are those of the log; and the row of the log goes.
#[verifier::rlimit(40)]
pub proof fn rolling_forward_is_whole(
    f: RollForward,
    client: BigtableClient,
    txn: Seq<char>,
    state: TxnView,
    row: Seq<CellView>,
    at: int,
    i: int,
)
    requires
        goes_forward(f, client, txn, state),
    ensures
        state.mutations matches Some(l) ==> {
            &&& f.changes@.len() == l.len()
            &&& 0 <= i < l.len() ==> {
                let q = f.changes@[i]@;
                &&& q.table == table_path(
                    client.project_id@,
                    client.instance_id@,
                    l[i].participant.table,
                )
                &&& q.key == l[i].participant.key
                &&& q.mutations == payload_mutations(l[i].payload)
            }
        },
        state.mutations is None ==> f.changes@.len() == 0,
        state.participants matches Some(p) ==> {
            &&& f.clears@.len() == p.len()
            &&& 0 <= i < p.len() ==> {
                let q = f.clears@[i]@;
                &&& q.table == table_path(client.project_id@, client.instance_id@, p[i].table)
                &&& q.key == p[i].key
                &&& newest_of(
                    applied(row, q.mutations, at),
                    INTENT_FAMILY@,
                    encode_utf8("intent:"@ + txn),
                ) is None
            }
        },
        state.participants is None ==> f.clears@.len() == 0,
        match f.stream_records {
            Some(b) => Some(b@),
            None => None,
        } == state.stream_records,
        f.cleaned@.key == encode_utf8("txn:"@ + txn),
        f.dropped@.key == encode_utf8("txn:"@ + txn),
        f.dropped@.table == table_path(client.project_id@, client.instance_id@, TXN_LOG_TABLE@),
        log_text(log_read(applied(row, f.cleaned@.mutations, at)), "state"@) == Some("CLEANED"@),
        applied(row, f.dropped@.mutations, at).len() == 0,
{
    let v = mutate_views(f.changes@);
    let w = mutate_views(f.clears@);
    if let Some(l) = state.mutations {
        assert(v.len() == l.len());
        if 0 <= i < l.len() {
            assert(v[i] == f.changes@[i]@);
            assert(v[i] == change_view(client, l[i]));
        }
    } else {
        assert(v.len() == 0);
    }
    if let Some(p) = state.participants {
        assert(w.len() == p.len());
        if 0 <= i < p.len() {
            assert(w[i] == f.clears@[i]@);
            every_intent_is_cleared(client, txn, p, i, row, at);
        }
    } else {
        assert(w.len() == 0);
    }
    lemma_state_set(row, "CLEANED"@, at);
    assert(row_deletion().drop_last() =~= Seq::<MutView>::empty());
    assert(applied(row, row_deletion(), at) =~= Seq::<CellView>::empty());
}

} // verus!

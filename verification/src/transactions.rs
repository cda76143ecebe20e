//! What transactions do as a whole: which changes they make, and what becomes of
//! requests that are made again.

use vstd::prelude::*;
use vstd::string::*;
use vstd::utf8::encode_utf8;

use crate::bigtable::{
    checked, lemma_newest_of_concat, newest_of, table_path, BigtableClient, RowView,
};
use crate::engine::{plain_put, BigtableEngine};
use crate::error::ErrView;
use crate::filter::matches_row;
use crate::hash::sha256;
use crate::item_ops::{cells_hold, delete_effect, found, item_readable, put_effect};
use crate::json::{text_field, JsonView};
use crate::shadows::shadow_changes;
use crate::stored::{answer, cells_at, changed, changes_touch_one_row, is_table};
use crate::streams::{record_of, StreamEventName};
use crate::text::{digit_char, hex_digits, hex_of};
use crate::transact::{
    clear_intent_effect, intent_column, intent_presence_matches, intent_request, is_intent,
    PartMutView, PartView, PayloadView, INTENT_FAMILY,
};
use crate::transact_write::{
    clear_views, kind_key, op_changes, op_stream_record, pending_next, plain_delete, resumed_txn,
    token_check, token_txn_id, txn_changes, KindView, PendingView, PendingWait, ResolvedOp, Resume,
};
use crate::value::{item_sorted, Item, ItemView};
use crate::writes::gets_read_the_row;

verus! {

// ---------------------------------------------------------------------------
// Requests that are made again
// ---------------------------------------------------------------------------

/// A request token that is not known lets the request through. One that is known
/// never does: with the fingerprint that was recorded the request is a replay, and
/// with any other it is refused.
pub proof fn tokens_let_through_once(prior: Option<JsonView>, fingerprint: Seq<char>)
    ensures
        token_check(prior, fingerprint) is Ok <==> prior is None,
        prior matches Some(v) ==> (text_field(v, "fingerprint"@) == Some(fingerprint)
            ==> token_check(prior, fingerprint) == Err::<(), ErrView>(ErrView::IdempotentReplay)),
        prior matches Some(v) ==> (text_field(v, "fingerprint"@) matches Some(f) && f != fingerprint
            ==> token_check(prior, fingerprint) == Err::<(), ErrView>(ErrView::IdempotentMismatch)),
{
}

/// A transaction that is found in the log is never begun again. It is rolled
/// forward exactly where it is committed, waited for where it is pending, and only
/// recorded where it is over; in any other state the request fails.
pub proof fn found_transactions_are_taken_up(state: Option<Seq<char>>)
    ensures
        resumed_txn(state) == Ok::<Resume, ErrView>(Resume::Begin) <==> state is None,
        resumed_txn(state) == Ok::<Resume, ErrView>(Resume::RollForward) <==> state == Some(
            "COMMITTED"@,
        ),
        resumed_txn(state) == Ok::<Resume, ErrView>(Resume::Wait) <==> state == Some("PENDING"@),
        resumed_txn(state) == Ok::<Resume, ErrView>(Resume::Record) <==> state == Some("CLEANED"@),
        resumed_txn(state) matches Err(e) ==> e is TransactionConflict,
{
    lemma_states();
}

proof fn lemma_states()
    ensures
        "PENDING"@ != "COMMITTED"@,
        "PENDING"@ != "CLEANED"@,
        "COMMITTED"@ != "CLEANED"@,
{
    reveal_strlit("PENDING");
    reveal_strlit("COMMITTED");
    reveal_strlit("CLEANED");
    assert("PENDING"@[0] != "COMMITTED"@[0]);
    assert("PENDING"@[0] != "CLEANED"@[0]);
    assert("COMMITTED"@.len() != "CLEANED"@.len());
}

/// Whoever waits for a transaction records the token exactly where it is over, or
/// gone with its token recorded, and rolls it forward exactly where it is
/// committed. The wait goes on only while it is pending, at most four times, each
/// time at least twice as long as before. Otherwise the request fails.
pub proof fn waits_end_well(
    w: PendingWait,
    state: Option<Seq<char>>,
    token_recorded: bool,
    jitter: u64,
)
    ensures
        ({
            let p = pending_next(w, state, token_recorded, jitter);
            &&& p is Record <==> state == Some("CLEANED"@) || (state is None && token_recorded)
            &&& p is RollForward <==> state == Some("COMMITTED"@)
            &&& p is Sleep <==> state == Some("PENDING"@) && w.attempts < 4
            &&& p matches PendingView::Sleep { ms } ==> ms >= 2 * w.delay_ms && ms == 2 * w.delay_ms
                + jitter
            &&& p matches PendingView::Fail(e) ==> e is TransactionConflict
        }),
{
    lemma_states();
}

// ---------------------------------------------------------------------------
// Changes
// ---------------------------------------------------------------------------

/// The change of its own row that an operation asks for; none where it only checks
/// a condition.
pub open spec fn own_change(r: ResolvedOp, updated: Option<Result<Item, String>>) -> Option<
    PartMutView,
> {
    match r.op.kind@ {
        KindView::Put { item } => Some(
            PartMutView { participant: r.participant@, payload: PayloadView::Put { item } },
        ),
        KindView::Delete { .. } => Some(
            PartMutView { participant: r.participant@, payload: PayloadView::Delete },
        ),
        KindView::Update { .. } => Some(
            PartMutView {
                participant: r.participant@,
                payload: PayloadView::Put { item: updated->0->Ok_0@ },
            },
        ),
        KindView::ConditionCheck { .. } => None,
    }
}

/// The item that an operation leaves in its row.
pub open spec fn left_by(r: ResolvedOp, updated: Option<Result<Item, String>>) -> Option<ItemView> {
    match r.op.kind@ {
        KindView::Put { item } => Some(item),
        KindView::Update { .. } => Some(updated->0->Ok_0@),
        _ => None,
    }
}

/// The changes that follow an operation in the indexes of its table; none where it
/// only checks a condition.
pub open spec fn index_changes(
    r: ResolvedOp,
    existing: Option<ItemView>,
    updated: Option<Result<Item, String>>,
) -> Result<Seq<PartMutView>, ErrView> {
    if r.op.kind is ConditionCheck {
        Ok(Seq::empty())
    } else {
        shadow_changes(
            left_by(r, updated),
            existing,
            r.meta.description.gsis(),
            r.op.key_info@.schema,
            r.meta.data_table@,
        )
    }
}

/// Whether an update could not be evaluated.
pub open spec fn update_failed(r: ResolvedOp, updated: Option<Result<Item, String>>) -> bool {
    r.op.kind is Update && updated matches Some(Err(_))
}

/// Whether a change is asked for by an operation.
pub open spec fn op_asks(
    m: PartMutView,
    r: ResolvedOp,
    existing: Option<ItemView>,
    updated: Option<Result<Item, String>>,
) -> bool {
    own_change(r, updated) == Some(m) || index_changes(r, existing, updated)->Ok_0.contains(m)
}

/// Whether a change is asked for by one of the operations.
pub open spec fn some_op_asks(
    m: PartMutView,
    ops: Seq<ResolvedOp>,
    existing: Seq<Option<ItemView>>,
    updated: Seq<Option<Result<Item, String>>>,
) -> bool {
    exists|i: int|
        0 <= i < ops.len() && op_asks(m, #[trigger] ops[i], existing[i], updated[i])
}

proof fn lemma_op_changes(
    r: ResolvedOp,
    existing: Option<ItemView>,
    updated: Option<Result<Item, String>>,
)
    requires
        r.op.kind is Update ==> updated is Some,
    ensures
        op_changes(r, existing, updated) is Ok <==> !update_failed(r, updated) && index_changes(
            r,
            existing,
            updated,
        ) is Ok,
        op_changes(r, existing, updated) matches Ok(l) ==> forall|m: PartMutView|
            l.contains(m) <==> #[trigger] op_asks(m, r, existing, updated),
{
    if let Ok(l) = op_changes(r, existing, updated) {
        let c = index_changes(r, existing, updated)->Ok_0;
        if !(r.op.kind is ConditionCheck) {
            let own = own_change(r, updated)->0;
            assert(l =~= seq![own] + c);
            assert forall|m: PartMutView| l.contains(m) <==> #[trigger] op_asks(
                m,
                r,
                existing,
                updated,
            ) by {
                if l.contains(m) {
                    let k = choose|k: int| 0 <= k < l.len() && l[k] == m;
                    if k > 0 {
                        assert(c[k - 1] == m);
                    }
                }
                if own == m {
                    assert(l[0] == m);
                }
                if c.contains(m) {
                    let k = choose|k: int| 0 <= k < c.len() && c[k] == m;
                    assert(l[k + 1] == m);
                }
            }
        }
    }
}

/// A transaction commits the changes of every operation, none missing and none
/// besides: a put leaves its item, an update what it made of the item, a deletion
/// nothing, each in its own row and in every index of its table; a check of a
/// condition changes nothing. They can be prepared exactly where each update could
/// be evaluated and each index can follow.
pub proof fn every_operation_is_made(
    ops: Seq<ResolvedOp>,
    existing: Seq<Option<ItemView>>,
    updated: Seq<Option<Result<Item, String>>>,
)
    requires
        existing.len() >= ops.len(),
        updated.len() >= ops.len(),
        forall|i: int|
            0 <= i < ops.len() && (#[trigger] ops[i]).op.kind is Update ==> updated[i] is Some,
    ensures
        txn_changes(ops, existing, updated) is Ok <==> forall|i: int|
            0 <= i < ops.len() ==> !update_failed(#[trigger] ops[i], updated[i]) && index_changes(
                ops[i],
                existing[i],
                updated[i],
            ) is Ok,
        txn_changes(ops, existing, updated) matches Ok(l) ==> forall|m: PartMutView|
            l.contains(m) <==> #[trigger] some_op_asks(m, ops, existing, updated),
    decreases ops.len(),
{
    if ops.len() > 0 {
        let d = ops.drop_last();
        let n = ops.len() - 1;
        assert forall|i: int| 0 <= i < d.len() && (#[trigger] d[i]).op.kind is Update implies
            updated[i] is Some by {
            assert(d[i] == ops[i]);
        }
        every_operation_is_made(d, existing, updated);
        assert(ops[n].op.kind is Update ==> updated[n] is Some);
        lemma_op_changes(ops[n], existing[n], updated[n]);
        if txn_changes(d, existing, updated) is Err {
            let i = choose|i: int|
                0 <= i < d.len() && !(!update_failed(#[trigger] d[i], updated[i])
                    && index_changes(d[i], existing[i], updated[i]) is Ok);
            assert(ops[i] == d[i]);
        } else {
            assert forall|i: int| 0 <= i < n implies !update_failed(#[trigger] ops[i], updated[i])
                && index_changes(ops[i], existing[i], updated[i]) is Ok by {
                assert(ops[i] == d[i]);
            }
            if let Ok(c) = op_changes(ops[n], existing[n], updated[n]) {
                let a = txn_changes(d, existing, updated)->Ok_0;
                let l = a + c;
                assert forall|m: PartMutView| l.contains(m) <==> #[trigger] some_op_asks(
                    m,
                    ops,
                    existing,
                    updated,
                ) by {
                    lemma_joined(a, c, m);
                    if some_op_asks(m, ops, existing, updated) {
                        let i = choose|i: int|
                            0 <= i < ops.len() && op_asks(
                                m,
                                #[trigger] ops[i],
                                existing[i],
                                updated[i],
                            );
                        if i < n {
                            assert(d[i] == ops[i]);
                            assert(some_op_asks(m, d, existing, updated));
                        }
                    }
                    if a.contains(m) {
                        assert(some_op_asks(m, d, existing, updated));
                        let i = choose|i: int|
                            0 <= i < d.len() && op_asks(
                                m,
                                #[trigger] d[i],
                                existing[i],
                                updated[i],
                            );
                        assert(ops[i] == d[i]);
                    }
                    if c.contains(m) {
                        assert(op_asks(m, ops[n], existing[n], updated[n]));
                    }
                }
            }
        }
    }
}

proof fn lemma_joined<T>(a: Seq<T>, c: Seq<T>, m: T)
    ensures
        (a + c).contains(m) <==> a.contains(m) || c.contains(m),
{
    let l = a + c;
    if l.contains(m) {
        let k = choose|k: int| 0 <= k < l.len() && l[k] == m;
        if k < a.len() {
            assert(a[k] == m);
        } else {
            assert(c[k - a.len()] == m);
        }
    }
    if a.contains(m) {
        let k = choose|k: int| 0 <= k < a.len() && a[k] == m;
        assert(l[k] == m);
    }
    if c.contains(m) {
        let k = choose|k: int| 0 <= k < c.len() && c[k] == m;
        assert(l[a.len() + k] == m);
    }
}

/// The row of an operation is that of the item that it puts, or of its key.
pub proof fn operations_go_by_their_keys(k: KindView)
    ensures
        k matches KindView::Put { item } ==> kind_key(k) == item,
        k matches KindView::Delete { key } ==> kind_key(k) == key,
        k matches KindView::Update { key } ==> kind_key(k) == key,
        k matches KindView::ConditionCheck { key } ==> kind_key(k) == key,
{
}

/// A committed put goes through whatever intents the row carries: a read of the key
/// then gives the item, whole, and no other row is touched.
pub proof fn committed_puts_take_effect(
    t: Seq<RowView>,
    engine: BigtableEngine,
    table: Seq<char>,
    key: Seq<u8>,
    item: ItemView,
    now: int,
    at: int,
    other: Seq<u8>,
)
    requires
        is_table(t),
        0 <= now <= u64::MAX,
        item_sorted(item),
        item_readable(item),
        cells_hold(item),
        item.len() > 0,
    ensures
        ({
            let q = plain_put(engine, table, key, item, now);
            let after = changed(t, q, at);
            &&& q.table == table_path(
                engine.client.project_id@,
                engine.client.instance_id@,
                table,
            )
            &&& is_table(after)
            &&& found(answer(after, crate::engine::item_read(engine, table, key))) == Ok::<
                (Option<ItemView>, Option<nat>),
                ErrView,
            >((Some(item), Some(now as nat)))
            &&& other != key ==> cells_at(after, other) == cells_at(t, other)
        }),
{
    let q = plain_put(engine, table, key, item, now);
    changes_touch_one_row(t, q, at, key);
    changes_touch_one_row(t, q, at, other);
    put_effect(cells_at(t, key), item, now as nat, at);
    gets_read_the_row(changed(t, q, at), engine, table, key);
}

/// A committed deletion goes through whatever intents the row carries: a read of
/// the key then finds nothing, and no other row is touched.
pub proof fn committed_deletions_take_effect(
    t: Seq<RowView>,
    engine: BigtableEngine,
    table: Seq<char>,
    key: Seq<u8>,
    at: int,
    other: Seq<u8>,
)
    requires
        is_table(t),
    ensures
        ({
            let q = plain_delete(engine, table, key);
            let after = changed(t, q, at);
            &&& q.table == table_path(
                engine.client.project_id@,
                engine.client.instance_id@,
                table,
            )
            &&& is_table(after)
            &&& found(answer(after, crate::engine::item_read(engine, table, key))) == Ok::<
                (Option<ItemView>, Option<nat>),
                ErrView,
            >((None, None))
            &&& other != key ==> cells_at(after, other) == cells_at(t, other)
        }),
{
    let q = plain_delete(engine, table, key);
    changes_touch_one_row(t, q, at, key);
    changes_touch_one_row(t, q, at, other);
    delete_effect(cells_at(t, key), at);
    gets_read_the_row(changed(t, q, at), engine, table, key);
}

/// The intents of a transaction are cleared in every row that takes part, in its
/// own table, and only those of that transaction.
pub proof fn every_intent_is_cleared(
    client: BigtableClient,
    txn: Seq<char>,
    parts: Seq<PartView>,
    i: int,
    row: Seq<crate::bigtable::CellView>,
    at: int,
)
    requires
        0 <= i < parts.len(),
    ensures
        ({
            let q = clear_views(client, txn, parts)[i];
            let after = crate::bigtable::applied(row, q.mutations, at);
            &&& clear_views(client, txn, parts).len() == parts.len()
            &&& q.table == table_path(client.project_id@, client.instance_id@, parts[i].table)
            &&& q.key == parts[i].key
            &&& newest_of(after, INTENT_FAMILY@, intent_column(txn)) is None
            &&& forall|f: Seq<char>, c: Seq<u8>|
                f != INTENT_FAMILY@ || c != intent_column(txn) ==> #[trigger] newest_of(after, f, c)
                    == newest_of(row, f, c)
        }),
{
    clear_intent_effect(client, row, txn, parts[i], at);
}

/// An operation leaves a record in the stream of its table exactly where the table
/// has a stream and the operation changes something. The record is that of its
/// change, under the name of that stream: a put or an update of an item that was
/// there modifies it, of one that was not inserts it, and a deletion removes it.
pub proof fn operations_leave_records(
    r: ResolvedOp,
    existing: Option<ItemView>,
    updated: Option<Result<Item, String>>,
    seq: Seq<char>,
    event_id: Seq<char>,
    created: int,
)
    requires
        r.op.kind is Update ==> updated is Some,
    ensures
        ({
            let d = r.meta.description;
            let streams = d.latest_stream_arn is Some && (
            d.stream_specification matches Some(s) && s.stream_enabled && s.stream_view_type is Some);
            let changes = !(r.op.kind is ConditionCheck) && !update_failed(r, updated) && (
            existing is Some || left_by(r, updated) is Some);
            let out = op_stream_record(r, existing, updated, seq, event_id, created);
            &&& out is Some <==> streams && changes
            &&& out matches Some((arn, x)) ==> {
                &&& arn == d.latest_stream_arn->0@
                &&& Some(x) == record_of(
                    d.stream_specification->0,
                    r.op.key_info@.schema,
                    existing,
                    left_by(r, updated),
                    seq,
                    event_id,
                    created,
                )
                &&& x.event_name == StreamEventName::Remove <==> r.op.kind is Delete
                &&& x.event_name == StreamEventName::Insert <==> existing is None
            }
        }),
{
    if let Some(s) = r.meta.description.stream_specification {
        crate::streams::records_tell_the_change(
            s,
            r.op.key_info@.schema,
            existing,
            left_by(r, updated),
            seq,
            event_id,
            created,
            Seq::empty(),
        );
    }
}

proof fn lemma_hex_pair(a: u8, b: u8)
    ensures
        hex_digits(a as nat, 2).len() == 2,
        hex_digits(a as nat, 2) == hex_digits(b as nat, 2) ==> a == b,
{
    reveal_with_fuel(hex_digits, 3);
    let (x, y) = (hex_digits(a as nat, 2), hex_digits(b as nat, 2));
    assert(x.len() == 2);
    assert(x[1] == digit_char(a as nat % 16));
    assert(y[1] == digit_char(b as nat % 16));
    assert(x[0] == digit_char(a as nat / 16 % 16));
    assert(y[0] == digit_char(b as nat / 16 % 16));
}

proof fn lemma_hex_injective(a: Seq<u8>, b: Seq<u8>)
    requires
        a.len() == b.len(),
    ensures
        hex_of(a).len() == 2 * a.len(),
        hex_of(b).len() == 2 * b.len(),
        hex_of(a) == hex_of(b) ==> a == b,
    decreases a.len(),
{
    if a.len() > 0 {
        lemma_hex_injective(a.drop_last(), b.drop_last());
        lemma_hex_pair(a.last(), b.last());
        lemma_hex_pair(b.last(), a.last());
        if hex_of(a) == hex_of(b) {
            let n = hex_of(a.drop_last()).len() as int;
            assert(hex_of(a).take(n) =~= hex_of(a.drop_last()));
            assert(hex_of(b).take(n) =~= hex_of(b.drop_last()));
            assert(hex_of(a).skip(n) =~= hex_digits(a.last() as nat, 2));
            assert(hex_of(b).skip(n) =~= hex_digits(b.last() as nat, 2));
            assert(a =~= a.drop_last().push(a.last()));
            assert(b =~= b.drop_last().push(b.last()));
        }
    } else {
        assert(a =~= b);
    }
}

/// The transaction of a token is named by the whole digest of the token: two tokens
/// name the same one exactly if their digests agree.
pub proof fn tokens_name_their_transactions(a: Seq<char>, b: Seq<char>)
    requires
        sha256(encode_utf8(a)).len() == sha256(encode_utf8(b)).len(),
    ensures
        token_txn_id(a) == token_txn_id(b) <==> sha256(encode_utf8(a)) == sha256(encode_utf8(b)),
        token_txn_id(a).len() == 2 * sha256(encode_utf8(a)).len(),
{
    lemma_hex_injective(sha256(encode_utf8(a)), sha256(encode_utf8(b)));
}

/// An intent is placed on a row where no other is, and on that row alone: it is then
/// the newest cell of its own column, and the other columns stay. Where the row has an
/// intent that is not too old, nothing is placed.
pub proof fn intents_are_placed_on_free_rows(
    client: BigtableClient,
    row: Seq<crate::bigtable::CellView>,
    txn: Seq<char>,
    p: PartView,
    cutoff: int,
    now: int,
    family: Seq<char>,
    column: Seq<u8>,
)
    ensures
        ({
            let q = intent_request(client, txn, p, cutoff);
            let taken = exists|i: int|
                0 <= i < row.len() && #[trigger] is_intent(row[i], cutoff);
            let after = checked(row, q, now);
            &&& q.table == table_path(client.project_id@, client.instance_id@, p.table)
            &&& q.key == p.key
            &&& matches_row(q.predicate, row) <==> taken
            &&& taken ==> after == row
            &&& !taken ==> (newest_of(after, INTENT_FAMILY@, intent_column(txn)) matches Some(c)
                && c.timestamp == now && c.value == encode_utf8(txn))
            &&& !taken && (family != INTENT_FAMILY@ || column != intent_column(txn)) ==> newest_of(
                after,
                family,
                column,
            ) == newest_of(row, family, column)
        }),
{
    intent_presence_matches(row, cutoff);
    let m = intent_request(client, txn, p, cutoff).if_false;
    assert(m.drop_last() =~= Seq::<crate::bigtable::MutView>::empty());
    assert(crate::bigtable::applied(row, m.drop_last(), now) == row);
    let c = crate::bigtable::CellView {
        family: INTENT_FAMILY@,
        qualifier: intent_column(txn),
        value: encode_utf8(txn),
        timestamp: now,
    };
    let first = seq![c];
    assert(crate::bigtable::applied(row, m, now) == first + row);
    lemma_newest_of_concat(first, row, INTENT_FAMILY@, intent_column(txn));
    lemma_newest_of_concat(first, row, family, column);
    assert(first.drop_last() =~= Seq::<crate::bigtable::CellView>::empty());
    assert(newest_of(first.drop_last(), family, column) is None);
    assert(newest_of(first.drop_last(), INTENT_FAMILY@, intent_column(txn)) is None);
}

} // verus!

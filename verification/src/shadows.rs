//! Changes that follow from the change of an item: in the shadow tables of the
//! global secondary indexes, and in the index of expiry times.

use vstd::prelude::*;
use vstd::string::*;

use crate::bigtable::{
    applied, delete_row_mutations, mut_views, mutated, newest, row_deletion, set_cell,
    set_cell_view, table_path, BigtableClient, CellView, MutView, MutateRowRequest, MutateView,
    Mutation,
};
use crate::bytes::bytes_eq;
use crate::error::{ErrView, StorageError};
use crate::gsi::{
    opt_bytes, project_for_shadow, projected, shadow_key, shadow_row_key_for_item, shadow_table,
    shadow_table_id,
};
use crate::item_ops::{
    item_mutations, item_readable, item_to_mutations, opt_ref_view, replace_effect, row_item,
    same_intents, ItemOps,
};
use crate::row_key::row_key;
use crate::table::{gsi_views, GsiDescription, IndexView};
use crate::text::{parse_i64, parse_signed};
use crate::transact::{
    part_mut_views, PartMutView, PartView, ParticipantMutation, ParticipantRow, PayloadView,
    TxnOpPayload,
};
use crate::ttl_key::{encode_ttl_key, ttl_key, TTL_INDEX_TABLE};
use crate::value::{
    lookup, schema_view, AttrView, AttributeValue, Item, ItemView, KeySchemaElement, SchemaView,
};

verus! {

// ---------------------------------------------------------------------------
// Shadow rows
// ---------------------------------------------------------------------------

/// The key of an item in an index, where there is an item and it has one.
pub open spec fn opt_shadow_key(item: Option<ItemView>, g: IndexView, base: SchemaView) -> Result<
    Option<Seq<u8>>,
    ErrView,
> {
    match item {
        Some(i) => shadow_key(i, g.schema, base),
        None => Ok(None),
    }
}

/// The deletion of a shadow row.
pub open spec fn shadow_deletion(table: Seq<char>, key: Seq<u8>) -> PartMutView {
    PartMutView { participant: PartView { table, key }, payload: PayloadView::Delete }
}

/// The changes of the shadow table of one index: the old row goes unless the
/// new one takes its place, and the new one is written. An item without a key
/// of the index has no row.
pub open spec fn shadow_change(
    new: Option<ItemView>,
    old: Option<ItemView>,
    g: IndexView,
    base: SchemaView,
    data_table: Seq<char>,
) -> Result<Seq<PartMutView>, ErrView> {
    let table = shadow_table(data_table, g.name);
    match opt_shadow_key(new, g, base) {
        Err(e) => Err(e),
        Ok(new_key) => match opt_shadow_key(old, g, base) {
            Err(e) => Err(e),
            Ok(old_key) => {
                let gone = match old_key {
                    Some(k) => if new_key == Some(k) {
                        Seq::empty()
                    } else {
                        seq![shadow_deletion(table, k)]
                    },
                    None => Seq::empty(),
                };
                match (new_key, new) {
                    (Some(k), Some(n)) => Ok(
                        gone.push(
                            PartMutView {
                                participant: PartView { table, key: k },
                                payload: PayloadView::Put {
                                    item: projected(n, g.projection, base, g.schema),
                                },
                            },
                        ),
                    ),
                    _ => Ok(gone),
                }
            },
        },
    }
}

/// The changes of the shadow tables of all indexes.
pub open spec fn shadow_changes(
    new: Option<ItemView>,
    old: Option<ItemView>,
    gsis: Seq<IndexView>,
    base: SchemaView,
    data_table: Seq<char>,
) -> Result<Seq<PartMutView>, ErrView>
    decreases gsis.len(),
{
    if gsis.len() == 0 {
        Ok(Seq::empty())
    } else {
        match shadow_changes(new, old, gsis.drop_last(), base, data_table) {
            Err(e) => Err(e),
            Ok(l) => match shadow_change(new, old, gsis.last(), base, data_table) {
                Err(e) => Err(e),
                Ok(c) => Ok(l + c),
            },
        }
    }
}

fn key_of(
    item: Option<&Item>,
    g: &GsiDescription,
    base_key_schema: &[KeySchemaElement],
) -> (r: Result<Option<Vec<u8>>, StorageError>)
    ensures
        match r {
            Ok(k) => opt_shadow_key(opt_ref_view(item), g@, schema_view(base_key_schema@)) == Ok::<
                Option<Seq<u8>>,
                ErrView,
            >(opt_bytes(k)),
            Err(e) => opt_shadow_key(opt_ref_view(item), g@, schema_view(base_key_schema@))
                == Err::<Option<Seq<u8>>, ErrView>(e@),
        },
{
    match item {
        Some(i) => shadow_row_key_for_item(i, g.key_schema.as_slice(), base_key_schema),
        None => Ok(None),
    }
}

fn plan_shadow_change(
    new: Option<&Item>,
    old: Option<&Item>,
    g: &GsiDescription,
    base_key_schema: &[KeySchemaElement],
    data_table: &str,
) -> (r: Result<Vec<ParticipantMutation>, StorageError>)
    ensures
        match r {
            Ok(c) => shadow_change(
                opt_ref_view(new),
                opt_ref_view(old),
                g@,
                schema_view(base_key_schema@),
                data_table@,
            ) == Ok::<Seq<PartMutView>, ErrView>(part_mut_views(c@)),
            Err(e) => shadow_change(
                opt_ref_view(new),
                opt_ref_view(old),
                g@,
                schema_view(base_key_schema@),
                data_table@,
            ) == Err::<Seq<PartMutView>, ErrView>(e@),
        },
{
    let new_key = match key_of(new, g, base_key_schema) {
        Ok(k) => k,
        Err(e) => return Err(e),
    };
    let old_key = match key_of(old, g, base_key_schema) {
        Ok(k) => k,
        Err(e) => return Err(e),
    };
    let mut out: Vec<ParticipantMutation> = Vec::new();
    let ghost none = Seq::<PartMutView>::empty();
    assert(part_mut_views(out@) =~= none);
    if let Some(k) = old_key {
        let stays = match &new_key {
            Some(n) => bytes_eq(n.as_slice(), k.as_slice()),
            None => false,
        };
        if !stays {
            let ghost key = k@;
            out.push(
                ParticipantMutation {
                    participant: ParticipantRow {
                        data_table: shadow_table_id(data_table, g.index_name.as_str()),
                        row_key: k,
                    },
                    payload: TxnOpPayload::Delete,
                },
            );
            assert(part_mut_views(out@) =~= seq![
                shadow_deletion(shadow_table(data_table@, g@.name), key),
            ]);
        }
    }
    if let Some(k) = new_key {
        if let Some(n) = new {
            let item = project_for_shadow(
                n,
                &g.projection,
                base_key_schema,
                g.key_schema.as_slice(),
            );
            let c = ParticipantMutation {
                participant: ParticipantRow {
                    data_table: shadow_table_id(data_table, g.index_name.as_str()),
                    row_key: k,
                },
                payload: TxnOpPayload::Put { item },
            };
            let ghost before = part_mut_views(out@);
            let ghost added = c@;
            out.push(c);
            assert(part_mut_views(out@) =~= before.push(added));
        }
    }
    Ok(out)
}

proof fn lemma_shadow_changes_error(
    new: Option<ItemView>,
    old: Option<ItemView>,
    gsis: Seq<IndexView>,
    base: SchemaView,
    data_table: Seq<char>,
    n: int,
)
    requires
        0 <= n <= gsis.len(),
        shadow_changes(new, old, gsis.take(n), base, data_table) is Err,
    ensures
        shadow_changes(new, old, gsis, base, data_table) == shadow_changes(
            new,
            old,
            gsis.take(n),
            base,
            data_table,
        ),
    decreases gsis.len(),
{
    if n < gsis.len() {
        assert(gsis.drop_last().take(n) =~= gsis.take(n));
        lemma_shadow_changes_error(new, old, gsis.drop_last(), base, data_table, n);
    } else {
        assert(gsis.take(n) =~= gsis);
    }
}

/// Plans the changes of the shadow tables that follow from the change of an
/// item.
pub fn plan_shadow_changes(
    new: Option<&Item>,
    old: Option<&Item>,
    gsis: &[GsiDescription],
    base_key_schema: &[KeySchemaElement],
    data_table: &str,
) -> (r: Result<Vec<ParticipantMutation>, StorageError>)
    ensures
        match r {
            Ok(c) => shadow_changes(
                opt_ref_view(new),
                opt_ref_view(old),
                gsi_views(gsis@),
                schema_view(base_key_schema@),
                data_table@,
            ) == Ok::<Seq<PartMutView>, ErrView>(part_mut_views(c@)),
            Err(e) => shadow_changes(
                opt_ref_view(new),
                opt_ref_view(old),
                gsi_views(gsis@),
                schema_view(base_key_schema@),
                data_table@,
            ) == Err::<Seq<PartMutView>, ErrView>(e@),
        },
{
    let ghost all = gsi_views(gsis@);
    let ghost base = schema_view(base_key_schema@);
    let ghost nv = opt_ref_view(new);
    let ghost ov = opt_ref_view(old);
    let mut out: Vec<ParticipantMutation> = Vec::new();
    let mut i: usize = 0;
    assert(part_mut_views(out@) =~= Seq::empty());
    while i < gsis.len()
        invariant
            i <= gsis.len(),
            all == gsi_views(gsis@),
            base == schema_view(base_key_schema@),
            nv == opt_ref_view(new),
            ov == opt_ref_view(old),
            shadow_changes(nv, ov, all.take(i as int), base, data_table@) == Ok::<
                Seq<PartMutView>,
                ErrView,
            >(part_mut_views(out@)),
        decreases gsis.len() - i,
    {
        proof {
            assert(all.take(i + 1).drop_last() =~= all.take(i as int));
            assert(all.take(i + 1).last() == gsis@[i as int]@);
        }
        let mut c = match plan_shadow_change(new, old, &gsis[i], base_key_schema, data_table) {
            Ok(c) => c,
            Err(e) => {
                proof {
                    lemma_shadow_changes_error(nv, ov, all, base, data_table@, i + 1);
                }
                return Err(e);
            },
        };
        let ghost before = part_mut_views(out@);
        let ghost added = part_mut_views(c@);
        out.append(&mut c);
        assert(part_mut_views(out@) =~= before + added);
        i = i + 1;
    }
    assert(all.take(i as int) =~= all);
    Ok(out)
}

/// The shadow rows after changes.
pub open spec fn shadow_rows(
    rows: vstd::map::Map<(Seq<char>, Seq<u8>), ItemView>,
    changes: Seq<PartMutView>,
) -> vstd::map::Map<(Seq<char>, Seq<u8>), ItemView>
    decreases changes.len(),
{
    if changes.len() == 0 {
        rows
    } else {
        let before = shadow_rows(rows, changes.drop_last());
        let c = changes.last();
        let at = (c.participant.table, c.participant.key);
        match c.payload {
            PayloadView::Put { item } => before.insert(at, item),
            PayloadView::Delete => before.remove(at),
        }
    }
}

/// The shadow rows of an index follow its items: afterwards the row of the new
/// item is there, that of the old item is not unless it is the same row, and no
/// other row has changed.
pub proof fn shadows_follow(
    rows: vstd::map::Map<(Seq<char>, Seq<u8>), ItemView>,
    new: Option<ItemView>,
    old: Option<ItemView>,
    g: IndexView,
    base: SchemaView,
    data_table: Seq<char>,
)
    requires
        shadow_change(new, old, g, base, data_table) is Ok,
    ensures
        ({
            let after = shadow_rows(rows, shadow_change(new, old, g, base, data_table)->Ok_0);
            let table = shadow_table(data_table, g.name);
            let new_key = opt_shadow_key(new, g, base)->Ok_0;
            let old_key = opt_shadow_key(old, g, base)->Ok_0;
            &&& new_key matches Some(k) ==> after.dom().contains((table, k)) && after[(table, k)]
                == projected(new->0, g.projection, base, g.schema)
            &&& old_key is Some && new_key != old_key ==> !after.dom().contains((table, old_key->0))
            &&& forall|t: Seq<char>, k: Seq<u8>|
                (t != table || (new_key != Some(k) && old_key != Some(k))) ==> (
                #[trigger] after.dom().contains((t, k)) <==> rows.dom().contains((t, k)))
                    && after[(t, k)] == rows[(t, k)]
        }),
{
    let changes = shadow_change(new, old, g, base, data_table)->Ok_0;
    let new_key = opt_shadow_key(new, g, base)->Ok_0;
    let old_key = opt_shadow_key(old, g, base)->Ok_0;
    reveal_with_fuel(shadow_rows, 3);
    if changes.len() == 2 {
        assert(changes.drop_last().drop_last() =~= Seq::<PartMutView>::empty());
    }
    assert(changes.len() <= 2);
}

// ---------------------------------------------------------------------------
// Requests
// ---------------------------------------------------------------------------

/// The mutations of a change.
pub open spec fn payload_mutations(p: PayloadView) -> Seq<MutView> {
    match p {
        PayloadView::Put { item } => item_mutations(item, true),
        PayloadView::Delete => row_deletion(),
    }
}

/// The request of a change.
pub open spec fn change_view(client: BigtableClient, c: PartMutView) -> MutateView {
    MutateView {
        table: table_path(client.project_id@, client.instance_id@, c.participant.table),
        profile: client.profile(),
        key: c.participant.key,
        mutations: payload_mutations(c.payload),
    }
}

pub open spec fn change_request_views(client: BigtableClient, l: Seq<PartMutView>) -> Seq<MutateView> {
    l.map_values(|c: PartMutView| change_view(client, c))
}

pub open spec fn mutate_views(l: Seq<MutateRowRequest>) -> Seq<MutateView> {
    l.map_values(|r: MutateRowRequest| r@)
}

/// The mutations leave what a change says in any row: they may be made again.
pub open spec fn makes_change(m: Seq<MutView>, p: PayloadView) -> bool {
    match p {
        PayloadView::Put { item } => forall|row: Seq<CellView>, now: int|
            row_item(newest(#[trigger] applied(row, m, now), 1)) == Ok::<ItemView, ErrView>(item)
                && same_intents(applied(row, m, now), row),
        PayloadView::Delete => forall|row: Seq<CellView>, now: int|
            (#[trigger] applied(row, m, now)).len() == 0,
    }
}

/// Whether a change can be read back from the cells that it writes.
pub open spec fn payload_readable(p: PayloadView) -> bool {
    match p {
        PayloadView::Put { item } => item_readable(item),
        PayloadView::Delete => true,
    }
}

/// The request of a change: an item replaces what the row held, and a deletion
/// takes the whole row.
pub fn change_request(client: &BigtableClient, c: &ParticipantMutation) -> (r: Result<
    MutateRowRequest,
    StorageError,
>)
    ensures
        r matches Ok(q) && q@ == change_view(*client, c@) && (payload_readable(c@.payload)
            ==> makes_change(q@.mutations, c@.payload)),
{
    proof {
        let m = row_deletion();
        assert(m.drop_last() =~= Seq::<MutView>::empty());
        assert forall|row: Seq<CellView>, now: int| (#[trigger] applied(row, m, now)).len() == 0 by {
            assert(applied(row, m, now) == mutated(applied(row, m.drop_last(), now), m.last(), now));
        }
    }
    let ops = ItemOps::new(client, c.participant.data_table.as_str(), 0);
    let mutations = match &c.payload {
        TxnOpPayload::Put { item } => match item_to_mutations(item, true) {
            Ok(m) => {
                proof {
                    if item_readable(item@) {
                        let w = item_mutations(item@, true);
                        assert forall|row: Seq<CellView>, now: int|
                            row_item(newest(#[trigger] applied(row, w, now), 1)) == Ok::<
                                ItemView,
                                ErrView,
                            >(item@) && same_intents(applied(row, w, now), row) by {
                            replace_effect(row, item@, now);
                        }
                    }
                }
                m
            },
            Err(e) => return Err(e),
        },
        TxnOpPayload::Delete => delete_row_mutations(),
    };
    let key = crate::bytes::bytes_copy(c.participant.row_key.as_slice());
    Ok(ops.mutate_cells(key, mutations))
}

/// The requests of changes, in order.
pub fn change_requests(client: &BigtableClient, l: &[ParticipantMutation]) -> (r: Result<
    Vec<MutateRowRequest>,
    StorageError,
>)
    ensures
        r matches Ok(q) && mutate_views(q@) == change_request_views(*client, part_mut_views(l@)),
{
    let ghost goal = change_request_views(*client, part_mut_views(l@));
    let mut out: Vec<MutateRowRequest> = Vec::new();
    let mut i: usize = 0;
    assert(mutate_views(out@) =~= goal.take(0));
    while i < l.len()
        invariant
            i <= l.len(),
            goal == change_request_views(*client, part_mut_views(l@)),
            mutate_views(out@) == goal.take(i as int),
        decreases l.len() - i,
    {
        let q = match change_request(client, &l[i]) {
            Ok(q) => q,
            Err(e) => return Err(e),
        };
        let ghost added = q@;
        let ghost before = mutate_views(out@);
        out.push(q);
        i = i + 1;
        assert(mutate_views(out@) =~= before.push(added));
        assert(goal.take(i as int) =~= before.push(added));
    }
    assert(goal.take(i as int) =~= goal);
    Ok(out)
}

// ---------------------------------------------------------------------------
// Expiry times
// ---------------------------------------------------------------------------

/// When an item expires: the number that the attribute holds.
pub open spec fn ttl_expiry(item: ItemView, attribute: Seq<char>) -> Option<int> {
    match lookup(item, attribute) {
        Some(AttrView::N(s)) => parse_signed(s, i64::MIN as int, i64::MAX as int),
        _ => None,
    }
}

pub open spec fn opt_int(v: Option<i64>) -> Option<int> {
    match v {
        Some(n) => Some(n as int),
        None => None,
    }
}

/// When an item expires.
pub fn get_ttl_expiry(item: &Item, attr_name: &str) -> (r: Option<i64>)
    ensures
        opt_int(r) == ttl_expiry(item@, attr_name@),
{
    match item.get(attr_name) {
        Some(AttributeValue::N(s)) => parse_i64(s.as_str()),
        _ => None,
    }
}

pub open spec fn opt_expiry(item: Option<ItemView>, attribute: Seq<char>) -> Option<int> {
    match item {
        Some(i) => ttl_expiry(i, attribute),
        None => None,
    }
}

/// The key of an item in the index of expiry times.
pub open spec fn expiry_key(
    item: Option<ItemView>,
    expiry: Option<int>,
    schema: SchemaView,
    account: Seq<char>,
    table: Seq<char>,
) -> Result<Option<Seq<u8>>, ErrView> {
    match (item, expiry) {
        (Some(i), Some(e)) => match row_key(i, schema) {
            Ok(k) => Ok(Some(ttl_key(account, table, k, e))),
            Err(e) => Err(e),
        },
        _ => Ok(None),
    }
}

/// What changes in the index of expiry times: the key that goes, and the key
/// that comes. Nothing changes where the time stays.
pub open spec fn ttl_change(
    new: Option<ItemView>,
    old: Option<ItemView>,
    attribute: Option<Seq<char>>,
    schema: SchemaView,
    account: Seq<char>,
    table: Seq<char>,
) -> Result<(Option<Seq<u8>>, Option<Seq<u8>>), ErrView> {
    match attribute {
        None => Ok((None, None)),
        Some(a) => {
            let was = opt_expiry(old, a);
            let is = opt_expiry(new, a);
            if was == is {
                Ok((None, None))
            } else {
                match expiry_key(old, was, schema, account, table) {
                    Err(e) => Err(e),
                    Ok(gone) => match expiry_key(new, is, schema, account, table) {
                        Err(e) => Err(e),
                        Ok(come) => Ok((gone, come)),
                    },
                }
            }
        },
    }
}

/// The change of an entry of the index of expiry times.
pub open spec fn ttl_entry_view(client: BigtableClient, key: Seq<u8>, insert: bool) -> MutateView {
    MutateView {
        table: table_path(client.project_id@, client.instance_id@, TTL_INDEX_TABLE@),
        profile: Seq::empty(),
        key,
        mutations: if insert {
            seq![set_cell_view("d"@, Seq::empty(), Seq::empty())]
        } else {
            row_deletion()
        },
    }
}

fn ttl_entry_request(client: &BigtableClient, key: Vec<u8>, mutations: Vec<Mutation>) -> (r:
    MutateRowRequest)
    ensures
        r@ == (MutateView {
            table: table_path(client.project_id@, client.instance_id@, TTL_INDEX_TABLE@),
            profile: Seq::empty(),
            key: key@,
            mutations: mut_views(mutations@),
        }),
{
    let r = MutateRowRequest {
        table_name: client.full_table_name(TTL_INDEX_TABLE),
        app_profile_id: String::new(),
        row_key: key,
        mutations,
    };
    assert(r@.profile =~= Seq::<char>::empty());
    r
}

/// The request that puts an item into the index of expiry times.
pub fn insert_ttl_index_entry(
    client: &BigtableClient,
    account_id: &str,
    table_name: &str,
    base_row_key: &[u8],
    expiry: i64,
) -> (r: MutateRowRequest)
    ensures
        r@ == ttl_entry_view(
            *client,
            ttl_key(account_id@, table_name@, base_row_key@, expiry as int),
            true,
        ),
{
    let key = encode_ttl_key(account_id, table_name, base_row_key, expiry);
    let empty: Vec<u8> = Vec::new();
    let m = vec![set_cell("d", empty.as_slice(), Vec::new())];
    proof {
        assert(empty@ =~= Seq::<u8>::empty());
        assert(mut_views(m@) =~= seq![set_cell_view("d"@, Seq::empty(), Seq::empty())]);
    }
    ttl_entry_request(client, key, m)
}

/// The request that takes an item out of the index of expiry times.
pub fn delete_ttl_index_entry(
    client: &BigtableClient,
    account_id: &str,
    table_name: &str,
    base_row_key: &[u8],
    expiry: i64,
) -> (r: MutateRowRequest)
    ensures
        r@ == ttl_entry_view(
            *client,
            ttl_key(account_id@, table_name@, base_row_key@, expiry as int),
            false,
        ),
{
    let key = encode_ttl_key(account_id, table_name, base_row_key, expiry);
    ttl_entry_request(client, key, delete_row_mutations())
}

} // verus!

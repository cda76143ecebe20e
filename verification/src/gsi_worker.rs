//! Repair of shadow tables.
//!
//! Each shadow row is held against the row of its table, and each row of a
//! table against its shadow row. What does not fit is deleted, written or
//! written anew.

use serde_json::Value;
use vstd::prelude::*;
use vstd::string::*;

use crate::bytes::bytes_eq;
use crate::error::{ErrView, StorageError};
use crate::gsi::{
    project_for_shadow, projected, shadow_key, shadow_row_key_for_item, shadow_table,
    shadow_table_id,
};
use crate::item_ops::opt_ref_view;
use crate::json::{get_text, json_clone, json_field, json_get, json_view, text_field, JsonView};
use crate::shadows::{shadow_deletion, shadow_rows};
use crate::table::{GsiDescription, IndexView};
use crate::text::{split_all, split_text, strip_prefix, text, views, without_prefix};
use crate::transact::{
    part_mut_views, PartMutView, PartView, ParticipantMutation, ParticipantRow, PayloadView,
    TxnOpPayload,
};
use crate::value::{
    extract_key, item_eq, item_views, key_attributes, schema_view, Item, ItemView,
    KeySchemaElement, SchemaView,
};

verus! {

/// The lock that a node holds while it repairs.
pub const GSI_LOCK: &'static str = "gsi_reconciler";

/// How many rows are read at a time.
pub const SCAN_BATCH: i64 = 200;

/// The account that a row of the catalog is for.
pub fn account_of(key: &str) -> (r: Option<String>)
    ensures
        crate::text::opt_view(r) == strip_prefix(key@, "acct:"@),
{
    without_prefix(key, "acct:")
}

/// The table that a row of the catalog is for: the last of three parts.
pub open spec fn table_of(key: Seq<char>) -> Option<Seq<char>> {
    let parts = split_all(key, ':');
    if parts.len() == 3 {
        Some(parts[2])
    } else {
        None
    }
}

/// What is needed of the row of a table to repair its indexes.
#[derive(Debug)]
pub struct RepairRow {
    pub table_name: String,
    pub data_table: String,
    pub description: Value,
}

/// What a row of the catalog says of a table whose indexes are repaired; rows
/// that say it otherwise are passed over.
pub open spec fn repair_row(key: Seq<char>, row: JsonView) -> Option<
    (Seq<char>, Seq<char>, JsonView),
> {
    match (table_of(key), text_field(row, "data_table"@), json_field(row, "description"@)) {
        (Some(t), Some(d), Some(v)) => Some((t, d, v)),
        _ => None,
    }
}

/// Reads the row of a table for the repair of its indexes.
pub fn sweep_once(key: &str, row: &Value) -> (r: Option<RepairRow>)
    ensures
        repair_row(key@, json_view(*row)) == match r {
            Some(x) => Some((x.table_name@, x.data_table@, json_view(x.description))),
            None => None,
        },
{
    let parts = split_text(key, ':');
    assert(views(parts@).len() == parts@.len());
    if parts.len() != 3 {
        return None;
    }
    assert(views(parts@)[2] == parts@[2]@);
    let table_name = text(parts[2].as_str());
    let data_table = match get_text(row, "data_table") {
        Some(t) => t,
        None => return None,
    };
    match json_get(row, "description") {
        Some(d) => Some(RepairRow { table_name, data_table, description: json_clone(d) }),
        None => None,
    }
}

/// The keys of the rows that shadow rows belong to.
pub open spec fn base_keys(items: Seq<ItemView>, base: SchemaView) -> Seq<ItemView> {
    items.map_values(|i: ItemView| key_attributes(i, base))
}

/// Takes the keys of the rows that shadow rows belong to.
pub fn reconcile_gsi_shadow_to_base(items: &[Item], base_key_schema: &[KeySchemaElement]) -> (r: Vec<
    Item,
>)
    ensures
        item_views(r@) == base_keys(item_views(items@), schema_view(base_key_schema@)),
{
    let ghost goal = base_keys(item_views(items@), schema_view(base_key_schema@));
    let mut out: Vec<Item> = Vec::new();
    let mut i: usize = 0;
    assert(item_views(out@) =~= goal.take(0));
    while i < items.len()
        invariant
            i <= items.len(),
            goal == base_keys(item_views(items@), schema_view(base_key_schema@)),
            item_views(out@) == goal.take(i as int),
        decreases items.len() - i,
    {
        let k = extract_key(&items[i], base_key_schema);
        let ghost added = k@;
        let ghost before = item_views(out@);
        out.push(k);
        i = i + 1;
        assert(item_views(out@) =~= before.push(added));
        assert(goal.take(i as int) =~= before.push(added));
    }
    assert(goal.take(i as int) =~= goal);
    out
}

/// Why a shadow row was not repaired.
#[derive(Debug, PartialEq, Eq)]
pub enum RepairError {
    /// The key of the shadow row cannot be made.
    ShadowKey(StorageError),
    /// The shadow row has no key of the index.
    MissingKeys,
    /// The key that the row should have cannot be made.
    NewShadowKey(StorageError),
}

/// What a [`RepairError`] is.
pub enum RepairErrView {
    ShadowKey(ErrView),
    MissingKeys,
    NewShadowKey(ErrView),
}

impl RepairError {
    pub open spec fn view(&self) -> RepairErrView {
        match self {
            RepairError::ShadowKey(e) => RepairErrView::ShadowKey(e@),
            RepairError::MissingKeys => RepairErrView::MissingKeys,
            RepairError::NewShadowKey(e) => RepairErrView::NewShadowKey(e@),
        }
    }
}

/// The write of a shadow row.
pub open spec fn shadow_write(table: Seq<char>, key: Seq<u8>, item: ItemView) -> PartMutView {
    PartMutView { participant: PartView { table, key }, payload: PayloadView::Put { item } }
}

/// What repairs a shadow row, by the row that it belongs to.
pub open spec fn shadow_repair(
    shadow: ItemView,
    row: Option<ItemView>,
    g: IndexView,
    base: SchemaView,
    data_table: Seq<char>,
) -> Result<Seq<PartMutView>, RepairErrView> {
    let table = shadow_table(data_table, g.name);
    match shadow_key(shadow, g.schema, base) {
        Err(e) => Err(RepairErrView::ShadowKey(e)),
        Ok(None) => Err(RepairErrView::MissingKeys),
        Ok(Some(k)) => match row {
            None => Ok(seq![shadow_deletion(table, k)]),
            Some(r) => {
                let wanted = projected(r, g.projection, base, g.schema);
                match shadow_key(r, g.schema, base) {
                    Err(e) => Err(RepairErrView::NewShadowKey(e)),
                    Ok(new) => if new == Some(k) {
                        if wanted == shadow {
                            Ok(Seq::empty())
                        } else {
                            Ok(seq![shadow_write(table, k, wanted)])
                        }
                    } else {
                        match new {
                            Some(n) => Ok(
                                seq![shadow_deletion(table, k), shadow_write(table, n, wanted)],
                            ),
                            None => Ok(seq![shadow_deletion(table, k)]),
                        }
                    },
                }
            },
        },
    }
}

fn deletion(table: &str, key: Vec<u8>) -> (r: ParticipantMutation)
    ensures
        r@ == shadow_deletion(table@, key@),
{
    ParticipantMutation {
        participant: ParticipantRow { data_table: text(table), row_key: key },
        payload: TxnOpPayload::Delete,
    }
}

fn write(table: &str, key: Vec<u8>, item: Item) -> (r: ParticipantMutation)
    ensures
        r@ == shadow_write(table@, key@, item@),
{
    ParticipantMutation {
        participant: ParticipantRow { data_table: text(table), row_key: key },
        payload: TxnOpPayload::Put { item },
    }
}

/// Holds a shadow row against the row that it belongs to and plans what repairs
/// it.
pub fn reconcile_shadow_item_with_base(
    base_key_schema: &[KeySchemaElement],
    data_table: &str,
    gsi: &GsiDescription,
    shadow_item: &Item,
    base_row: Option<&Item>,
) -> (r: Result<Vec<ParticipantMutation>, RepairError>)
    ensures
        match r {
            Ok(c) => shadow_repair(
                shadow_item@,
                opt_ref_view(base_row),
                gsi@,
                schema_view(base_key_schema@),
                data_table@,
            ) == Ok::<Seq<PartMutView>, RepairErrView>(part_mut_views(c@)),
            Err(e) => shadow_repair(
                shadow_item@,
                opt_ref_view(base_row),
                gsi@,
                schema_view(base_key_schema@),
                data_table@,
            ) == Err::<Seq<PartMutView>, RepairErrView>(e@),
        },
{
    let key = match shadow_row_key_for_item(
        shadow_item,
        gsi.key_schema.as_slice(),
        base_key_schema,
    ) {
        Ok(Some(k)) => k,
        Ok(None) => return Err(RepairError::MissingKeys),
        Err(e) => return Err(RepairError::ShadowKey(e)),
    };
    let table = shadow_table_id(data_table, gsi.index_name.as_str());
    let mut out: Vec<ParticipantMutation> = Vec::new();
    assert(part_mut_views(out@) =~= Seq::<PartMutView>::empty());
    let ghost k = key@;
    let ghost t = table@;
    let row = match base_row {
        None => {
            out.push(deletion(table.as_str(), key));
            assert(part_mut_views(out@) =~= seq![shadow_deletion(t, k)]);
            return Ok(out);
        },
        Some(r) => r,
    };
    let wanted = project_for_shadow(
        row,
        &gsi.projection,
        base_key_schema,
        gsi.key_schema.as_slice(),
    );
    let new_key = match shadow_row_key_for_item(row, gsi.key_schema.as_slice(), base_key_schema) {
        Ok(n) => n,
        Err(e) => return Err(RepairError::NewShadowKey(e)),
    };
    let ghost w = wanted@;
    let same = match &new_key {
        Some(n) => bytes_eq(n.as_slice(), key.as_slice()),
        None => false,
    };
    if same {
        if !item_eq(&wanted, shadow_item) {
            out.push(write(table.as_str(), key, wanted));
            assert(part_mut_views(out@) =~= seq![shadow_write(t, k, w)]);
        }
    } else {
        out.push(deletion(table.as_str(), key));
        assert(part_mut_views(out@) =~= seq![shadow_deletion(t, k)]);
        if let Some(n) = new_key {
            let ghost nk = n@;
            out.push(write(table.as_str(), n, wanted));
            assert(part_mut_views(out@) =~= seq![shadow_deletion(t, k), shadow_write(t, nk, w)]);
        }
    }
    Ok(out)
}

/// A row of a table that has a shadow row: the shadow row's key and what it
/// should hold.
#[derive(Debug, PartialEq, Eq)]
pub struct ShadowTarget {
    pub key: Vec<u8>,
    pub expected: Item,
}

/// What a [`ShadowTarget`] is.
pub open spec fn target_view(t: ShadowTarget) -> (Seq<u8>, ItemView) {
    (t.key@, t.expected@)
}

pub open spec fn target_views(l: Seq<ShadowTarget>) -> Seq<(Seq<u8>, ItemView)> {
    l.map_values(|t: ShadowTarget| target_view(t))
}

/// The shadow rows that the rows of a table should have. Rows without a key of
/// the index have none.
pub open spec fn shadow_targets(items: Seq<ItemView>, g: IndexView, base: SchemaView) -> Seq<
    (Seq<u8>, ItemView),
>
    decreases items.len(),
{
    if items.len() == 0 {
        Seq::empty()
    } else {
        let rest = shadow_targets(items.drop_last(), g, base);
        match shadow_key(items.last(), g.schema, base) {
            Ok(Some(k)) => rest.push((k, projected(items.last(), g.projection, base, g.schema))),
            _ => rest,
        }
    }
}

/// Finds the shadow rows that the rows of a table should have.
pub fn reconcile_gsi_base_to_shadow(
    items: &[Item],
    gsi: &GsiDescription,
    base_key_schema: &[KeySchemaElement],
) -> (r: Vec<ShadowTarget>)
    ensures
        target_views(r@) == shadow_targets(
            item_views(items@),
            gsi@,
            schema_view(base_key_schema@),
        ),
{
    let ghost all = item_views(items@);
    let ghost base = schema_view(base_key_schema@);
    let mut out: Vec<ShadowTarget> = Vec::new();
    let mut i: usize = 0;
    assert(target_views(out@) =~= Seq::empty());
    while i < items.len()
        invariant
            i <= items.len(),
            all == item_views(items@),
            base == schema_view(base_key_schema@),
            target_views(out@) == shadow_targets(all.take(i as int), gsi@, base),
        decreases items.len() - i,
    {
        proof {
            assert(all.take(i + 1).drop_last() =~= all.take(i as int));
            assert(all.take(i + 1).last() == items@[i as int]@);
        }
        if let Ok(Some(key)) = shadow_row_key_for_item(
            &items[i],
            gsi.key_schema.as_slice(),
            base_key_schema,
        ) {
            let expected = project_for_shadow(
                &items[i],
                &gsi.projection,
                base_key_schema,
                gsi.key_schema.as_slice(),
            );
            let t = ShadowTarget { key, expected };
            let ghost added = target_view(t);
            let ghost before = target_views(out@);
            out.push(t);
            assert(target_views(out@) =~= before.push(added));
        }
        i = i + 1;
    }
    assert(all.take(i as int) =~= all);
    out
}

/// What repairs a shadow row that was read, or is missing.
pub open spec fn target_repair(
    key: Seq<u8>,
    expected: ItemView,
    found: Option<ItemView>,
    table: Seq<char>,
) -> Option<PartMutView> {
    if found == Some(expected) {
        None
    } else {
        Some(shadow_write(table, key, expected))
    }
}

/// Plans what repairs a shadow row: it is written unless it is as it should be.
pub fn repair_target(target: ShadowTarget, found: Option<&Item>, shadow_table: &str) -> (r: Option<
    ParticipantMutation,
>)
    ensures
        target_repair(target.key@, target.expected@, opt_ref_view(found), shadow_table@)
            == match r {
            Some(c) => Some(c@),
            None => None,
        },
{
    let fits = match found {
        Some(i) => item_eq(i, &target.expected),
        None => false,
    };
    if fits {
        None
    } else {
        Some(write(shadow_table, target.key, target.expected))
    }
}

// ---------------------------------------------------------------------------
// What a repair achieves
// ---------------------------------------------------------------------------

/// After the repair of a shadow row, the index is as the row that it belongs to
/// wants it: the row's entry is there, and the entry that was found is not
/// unless it is that one.
pub proof fn repair_restores(
    rows: vstd::map::Map<(Seq<char>, Seq<u8>), ItemView>,
    shadow: ItemView,
    row: Option<ItemView>,
    g: IndexView,
    base: SchemaView,
    data_table: Seq<char>,
)
    requires
        shadow_repair(shadow, row, g, base, data_table) is Ok,
        ({
            let at = (
                shadow_table(data_table, g.name),
                shadow_key(shadow, g.schema, base)->Ok_0->0,
            );
            rows.dom().contains(at) && rows[at] == shadow
        }),
    ensures
        ({
            let table = shadow_table(data_table, g.name);
            let old = shadow_key(shadow, g.schema, base)->Ok_0->0;
            let after = shadow_rows(
                rows,
                shadow_repair(shadow, row, g, base, data_table)->Ok_0,
            );
            match row {
                None => !after.dom().contains((table, old)),
                Some(r) => match shadow_key(r, g.schema, base)->Ok_0 {
                    Some(k) => after.dom().contains((table, k)) && after[(table, k)] == projected(
                        r,
                        g.projection,
                        base,
                        g.schema,
                    ) && (k != old ==> !after.dom().contains((table, old))),
                    None => !after.dom().contains((table, old)),
                },
            }
        }),
{
    reveal_with_fuel(shadow_rows, 3);
    let c = shadow_repair(shadow, row, g, base, data_table)->Ok_0;
    if c.len() == 2 {
        assert(c.drop_last().drop_last() =~= Seq::<PartMutView>::empty());
    }
}

/// A shadow row that is as it should be needs no repair, so that a repair that
/// is made again changes nothing.
pub proof fn repaired_needs_no_repair(
    row: ItemView,
    g: IndexView,
    base: SchemaView,
    data_table: Seq<char>,
)
    requires
        shadow_key(row, g.schema, base) is Ok,
        shadow_key(row, g.schema, base)->Ok_0 is Some,
    ensures
        shadow_repair(
            projected(row, g.projection, base, g.schema),
            Some(row),
            g,
            base,
            data_table,
        ) == Ok::<Seq<PartMutView>, RepairErrView>(Seq::empty()),
{
    crate::gsi::projection_keeps_keys(row, g.projection, g.schema, base);
}

} // verus!

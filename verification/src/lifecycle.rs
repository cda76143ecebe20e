//! Tables from their creation to their deletion: what is known of them, and where
//! their indexes are found.

use vstd::prelude::*;
use vstd::string::*;

use crate::error::ErrView;
use crate::json::{text_field, JsonView};
use crate::streams::StreamMeta;
use crate::table::{
    gsi_views, index_named, lsi_views, BillingMode, IndexInfoView, IndexType, IndexView,
    TableDescription, TableStatus,
};
use crate::tables::{
    deletable, describes, found_index, key_information, makes_gsi, makes_lsi, makes_stream,
    shadow_names, table_with_id, updated_description, wants_stream, CreateTableInput,
};
use crate::text::opt_view;
use crate::value::schema_view;

verus! {

/// An index is found exactly where one has the name, and it is the first that has
/// it.
pub proof fn indexes_are_found_by_name(l: Seq<IndexView>, name: Seq<char>)
    ensures
        index_named(l, name) is None <==> forall|i: int|
            0 <= i < l.len() ==> (#[trigger] l[i]).name != name,
        index_named(l, name) matches Some(x) ==> x.name == name && exists|i: int|
            0 <= i < l.len() && (#[trigger] l[i]) == x && forall|j: int|
                0 <= j < i ==> (#[trigger] l[j]).name != name,
    decreases l.len(),
{
    if l.len() > 0 {
        let r = l.skip(1);
        indexes_are_found_by_name(r, name);
        if l[0].name != name {
            if let Some(x) = index_named(r, name) {
                let i = choose|i: int|
                    0 <= i < r.len() && (#[trigger] r[i]) == x && forall|j: int|
                        0 <= j < i ==> (#[trigger] r[j]).name != name;
                assert(l[i + 1] == x);
                assert forall|j: int| 0 <= j < i + 1 implies (#[trigger] l[j]).name != name by {
                    if j > 0 {
                        assert(r[j - 1].name != name);
                    }
                }
            } else {
                assert forall|i: int| 0 <= i < l.len() implies (#[trigger] l[i]).name != name by {
                    if i > 0 {
                        assert(r[i - 1].name != name);
                    }
                }
            }
        } else {
            assert(l[0] == index_named(l, name)->0);
        }
    }
}

/// Whether one of the indexes has the name.
pub open spec fn has_index(l: Seq<IndexView>, name: Seq<char>) -> bool {
    exists|i: int| 0 <= i < l.len() && (#[trigger] l[i]).name == name
}

/// Whether what is known is that of one of the indexes with the name.
pub open spec fn is_of_index(x: IndexInfoView, l: Seq<IndexView>, name: Seq<char>) -> bool {
    exists|i: int|
        0 <= i < l.len() && (#[trigger] l[i]).name == name && l[i].schema == x.schema
            && l[i].projection == x.projection
}

/// What is known of an index by its name is that of the global secondary index
/// with the name, or of the local one where there is no global one; and nothing
/// where there is none of either.
pub proof fn indexes_are_known_by_name(d: TableDescription, name: Seq<char>)
    ensures
        found_index(d, name) is Ok <==> has_index(d.gsis(), name) || has_index(d.lsis(), name),
        !has_index(d.gsis(), name) && !has_index(d.lsis(), name) ==> found_index(d, name) == Err::<
            IndexInfoView,
            ErrView,
        >(ErrView::IndexNotFound(name)),
        found_index(d, name) matches Ok(x) ==> {
            &&& x.name == name
            &&& x.id == d.table_id@ + "::"@ + name
            &&& x.kind == IndexType::Gsi <==> has_index(d.gsis(), name)
            &&& has_index(d.gsis(), name) ==> is_of_index(x, d.gsis(), name)
            &&& !has_index(d.gsis(), name) ==> is_of_index(x, d.lsis(), name)
        },
{
    let (g, l) = (d.gsis(), d.lsis());
    indexes_are_found_by_name(g, name);
    indexes_are_found_by_name(l, name);
    if let Some(x) = index_named(g, name) {
        let i = choose|i: int| 0 <= i < g.len() && (#[trigger] g[i]) == x;
        assert(g[i].name == name);
        assert(has_index(g, name));
        assert(is_of_index(found_index(d, name)->Ok_0, g, name));
    } else {
        assert(!has_index(g, name));
        if let Some(x) = index_named(l, name) {
            let i = choose|i: int| 0 <= i < l.len() && (#[trigger] l[i]) == x;
            assert(l[i].name == name);
            assert(has_index(l, name));
            assert(is_of_index(found_index(d, name)->Ok_0, l, name));
        }
    }
}

/// A table is found by its identifier exactly where one has it, and it is the
/// first that has it.
pub proof fn tables_are_found_by_identifier(l: Seq<Option<TableDescription>>, id: Seq<char>)
    ensures
        ({
            let at = table_with_id(l, id);
            &&& 0 <= at <= l.len()
            &&& at < l.len() ==> (l[at] matches Some(d) && d.table_id@ == id)
            &&& forall|i: int|
                0 <= i < at ==> !((#[trigger] l[i]) matches Some(d) && d.table_id@ == id)
        }),
    decreases l.len(),
{
    if l.len() > 0 && !(l[0] matches Some(d) && d.table_id@ == id) {
        let r = l.skip(1);
        tables_are_found_by_identifier(r, id);
        let at = table_with_id(l, id);
        if at < l.len() {
            assert(r[at - 1] == l[at]);
        }
        assert forall|i: int| 0 <= i < at implies !((#[trigger] l[i]) matches Some(d)
            && d.table_id@ == id) by {
            if i > 0 {
                assert(l[i] == r[i - 1]);
            }
        }
    }
}

/// A table is deleted exactly where it has a row that names its data table, its
/// description can be read, and it is not protected. Nothing deletes a protected
/// table.
pub proof fn protected_tables_stay(
    row: Option<JsonView>,
    parsed: Result<TableDescription, String>,
    name: Seq<char>,
)
    ensures
        deletable(row, parsed, name) is Ok <==> (row matches Some(v) && text_field(
            v,
            "data_table"@,
        ) is Some && parsed is Ok && !parsed->Ok_0.deletion_protection_enabled),
        deletable(row, parsed, name) matches Ok(t) ==> Some(t) == text_field(
            row->0,
            "data_table"@,
        ),
        row is None ==> deletable(row, parsed, name) == Err::<Seq<char>, ErrView>(
            ErrView::TableNotFound(name),
        ),
        row is Some && parsed is Ok && parsed->Ok_0.deletion_protection_enabled ==> deletable(
            row,
            parsed,
            name,
        ) == Err::<Seq<char>, ErrView>(ErrView::DeletionProtected(name)),
{
}

/// A change of a table changes what is given and nothing else: how it is paid for,
/// with the time of the change, and whether it is protected from deletion.
pub proof fn changes_are_as_given(
    d: TableDescription,
    billing: Option<BillingMode>,
    protection: Option<bool>,
    now: i64,
)
    ensures
        ({
            let u = updated_description(d, billing, protection, now);
            &&& billing matches Some(b) ==> (u.billing_mode_summary matches Some(s)
                && s.billing_mode == b && s.last_update_to_pay_per_request == Some(now))
            &&& billing is None ==> u.billing_mode_summary == d.billing_mode_summary
            &&& protection matches Some(p) ==> u.deletion_protection_enabled == p
            &&& protection is None ==> u.deletion_protection_enabled
                == d.deletion_protection_enabled
            &&& u.table_name == d.table_name
            &&& u.key_schema == d.key_schema
            &&& u.attribute_definitions == d.attribute_definitions
            &&& u.table_status == d.table_status
            &&& u.creation_date_time == d.creation_date_time
            &&& u.table_size_bytes == d.table_size_bytes
            &&& u.item_count == d.item_count
            &&& u.table_arn == d.table_arn
            &&& u.table_id == d.table_id
            &&& u.provisioned_throughput == d.provisioned_throughput
            &&& u.global_secondary_indexes == d.global_secondary_indexes
            &&& u.local_secondary_indexes == d.local_secondary_indexes
            &&& u.stream_specification == d.stream_specification
            &&& u.latest_stream_arn == d.latest_stream_arn
            &&& u.latest_stream_label == d.latest_stream_label
            &&& u.on_demand_throughput == d.on_demand_throughput
        }),
{
}

/// A new table is as it was asked for: active and empty, with its name, its keys
/// and its indexes, protected only where that was asked for, and with a stream
/// exactly where one was enabled. Operations then go by those keys and indexes.
pub proof fn new_tables_are_as_asked(
    d: TableDescription,
    account: Seq<char>,
    i: CreateTableInput,
    id: Seq<char>,
    now: int,
    label: Seq<char>,
)
    requires
        describes(d, account, i, id, now, label),
    ensures
        d.table_name@ == i.table_name@,
        d.table_id@ == id,
        d.table_arn@ == "arn:aws:dynamodb:us-east-1:"@ + account + ":table/"@ + i.table_name@,
        d.table_status == TableStatus::Active,
        d.item_count == 0 && d.table_size_bytes == 0,
        d.creation_date_time == now,
        d.deletion_protection_enabled <==> i.deletion_protection_enabled == Some(true),
        d.stream_specification == i.stream_specification,
        d.latest_stream_arn is Some <==> (i.stream_specification matches Some(s)
            && s.stream_enabled),
        d.latest_stream_arn matches Some(a) ==> a@ == "arn:aws:dynamodb:us-east-1:"@ + account
            + ":table/"@ + i.table_name@ + "/stream/"@ + label,
        opt_view(d.latest_stream_label) == if d.latest_stream_arn is Some {
            Some(label)
        } else {
            None
        },
        i.billing_mode matches Some(b) ==> d.billing_mode_summary->0.billing_mode == b,
        i.billing_mode is None ==> d.billing_mode_summary->0.billing_mode
            == BillingMode::PayPerRequest,
        d.provisioned_throughput.read_capacity_units == match i.provisioned_throughput {
            Some(t) => t.read_capacity_units,
            None => 0,
        },
        d.provisioned_throughput.write_capacity_units == match i.provisioned_throughput {
            Some(t) => t.write_capacity_units,
            None => 0,
        },
        d.attribute_definitions@ == i.attribute_definitions@,
        ({
            let info = key_information(d, account, i.table_name@);
            &&& info.table_name == i.table_name@
            &&& info.account_id == account
            &&& info.table_id == id
            &&& info.schema == schema_view(i.key_schema@)
            &&& info.base_schema == schema_view(i.key_schema@)
            &&& info.has_lsi <==> i.local_secondary_indexes is Some
            &&& info.stream == i.stream_specification
            &&& i.global_secondary_indexes matches Some(l) ==> {
                &&& info.gsis.len() == l@.len()
                &&& forall|k: int|
                    0 <= k < l@.len() ==> {
                        &&& (#[trigger] info.gsis[k]).name == l@[k].index_name@
                        &&& info.gsis[k].schema == schema_view(l@[k].key_schema@)
                        &&& info.gsis[k].projection == l@[k].projection@
                        &&& info.gsis[k].kind == IndexType::Gsi
                    }
            }
            &&& i.local_secondary_indexes matches Some(l) ==> {
                &&& info.lsis.len() == l@.len()
                &&& forall|k: int|
                    0 <= k < l@.len() ==> {
                        &&& (#[trigger] info.lsis[k]).name == l@[k].index_name@
                        &&& info.lsis[k].schema == schema_view(l@[k].key_schema@)
                        &&& info.lsis[k].projection == l@[k].projection@
                        &&& info.lsis[k].kind == IndexType::Lsi
                    }
            }
            &&& i.global_secondary_indexes is None ==> info.gsis.len() == 0
            &&& i.local_secondary_indexes is None ==> info.lsis.len() == 0
        }),
{
    let info = key_information(d, account, i.table_name@);
    if let Some(l) = i.global_secondary_indexes {
        let g = d.global_secondary_indexes->0@;
        assert forall|k: int| 0 <= k < l@.len() implies {
            &&& (#[trigger] info.gsis[k]).name == l@[k].index_name@
            &&& info.gsis[k].schema == schema_view(l@[k].key_schema@)
            &&& info.gsis[k].projection == l@[k].projection@
            &&& info.gsis[k].kind == IndexType::Gsi
        } by {
            assert(makes_gsi(g[k], l@[k], d.table_arn@));
            assert(gsi_views(g)[k] == g[k]@);
        }
    }
    if let Some(l) = i.local_secondary_indexes {
        let g = d.local_secondary_indexes->0@;
        assert forall|k: int| 0 <= k < l@.len() implies {
            &&& (#[trigger] info.lsis[k]).name == l@[k].index_name@
            &&& info.lsis[k].schema == schema_view(l@[k].key_schema@)
            &&& info.lsis[k].projection == l@[k].projection@
            &&& info.lsis[k].kind == IndexType::Lsi
        } by {
            assert(makes_lsi(g[k], l@[k], d.table_arn@));
            assert(lsi_views(g)[k] == g[k]@);
        }
    }
}

/// A new table has a shadow table for each of its global secondary indexes, and a
/// new stream is that of its table, with the view that was asked for.
pub proof fn new_tables_have_what_they_need(
    data_table: Seq<char>,
    m: StreamMeta,
    account: Seq<char>,
    i: CreateTableInput,
    label: Seq<char>,
)
    ensures
        i.global_secondary_indexes matches Some(l) ==> shadow_names(
            data_table,
            i.global_secondary_indexes,
        ).len() == l@.len() && forall|k: int|
            0 <= k < l@.len() ==> (#[trigger] shadow_names(
                data_table,
                i.global_secondary_indexes,
            )[k]) == crate::gsi::shadow_table(data_table, l@[k].index_name@),
        wants_stream(i.stream_specification) <==> (i.stream_specification matches Some(s)
            && s.stream_enabled),
        makes_stream(m, account, i, label) && i.stream_specification is Some ==> {
            &&& m.stream_arn@ == "arn:aws:dynamodb:us-east-1:"@ + account + ":table/"@
                + i.table_name@ + "/stream/"@ + label
            &&& m.stream_label@ == label
            &&& m.table_name@ == i.table_name@
            &&& schema_view(m.key_schema@) == schema_view(i.key_schema@)
            &&& i.stream_specification->0.stream_view_type matches Some(v) ==> m.stream_view_type
                == v
        },
{
}

} // verus!

//! Where queries and scans go, how segments share out a scan, and what filters
//! keep.

use vstd::prelude::*;
use vstd::string::*;

use crate::bigtable::{table_path, RowView};
use crate::engine::{
    grouped, in_groups, placed, query_plan, scan_plan, scan_plan_result, BigtableEngine,
    QueryPlanView, ReadGroup, ScanPlanView, TableMeta,
};
use crate::error::ErrView;
use crate::gsi::shadow_table;
use crate::item_ops::row_item;
use crate::lifecycle::{has_index, indexes_are_found_by_name};
use crate::query_scan::{
    filtered, having, in_segment, index_query_read, index_scan_read, items_in, lsi_read,
    query_read, scan_read, scan_result, KeyCondition, PageView,
};
use crate::table::{index_named, IndexView};
use crate::value::{key_name, lookup, Item, ItemView, KeyType, SchemaView};

verus! {

/// The resource name of a table of an engine.
pub open spec fn located(engine: BigtableEngine, table: Seq<char>) -> Seq<char> {
    table_path(engine.client.project_id@, engine.client.instance_id@, table)
}

/// The first index with a name.
pub open spec fn first_named(l: Seq<IndexView>, name: Seq<char>, x: IndexView) -> bool {
    x.name == name && exists|i: int|
        0 <= i < l.len() && (#[trigger] l[i]) == x && forall|j: int|
            0 <= j < i ==> (#[trigger] l[j]).name != name
}

/// A query without an index reads the table. One by a global secondary index reads
/// the shadow table of that index, by the keys of the index. One by a local
/// secondary index reads the table, by the sort key of the index. One by any other
/// name fails.
pub proof fn queries_go_where_they_belong(
    engine: BigtableEngine,
    schema: SchemaView,
    meta: TableMeta,
    kc: KeyCondition,
    forward: bool,
    limit: Option<i64>,
    start: Option<ItemView>,
    name: Seq<char>,
)
    ensures
        match query_read(
            located(engine, meta.data_table@),
            schema,
            kc.pk_path@,
            kc.pk_value@,
            kc.sort_condition(),
            forward,
            limit,
            start,
        ) {
            Ok(q) => query_plan(engine, schema, meta, kc, forward, limit, start, None) == Ok::<
                QueryPlanView,
                ErrView,
            >(QueryPlanView::Rows(q)),
            Err(e) => query_plan(engine, schema, meta, kc, forward, limit, start, None) == Err::<
                QueryPlanView,
                ErrView,
            >(e),
        },
        has_index(meta.description.gsis(), name) ==> exists|g: IndexView|
            #![trigger first_named(meta.description.gsis(), name, g)]
            first_named(meta.description.gsis(), name, g) && match index_query_read(
                located(engine, shadow_table(meta.data_table@, name)),
                g.schema,
                schema,
                kc.pk_path@,
                kc.pk_value@,
                kc.sort_condition(),
                forward,
                limit,
                start,
            ) {
                Ok(q) => query_plan(engine, schema, meta, kc, forward, limit, start, Some(name))
                    == Ok::<QueryPlanView, ErrView>(QueryPlanView::Rows(q)),
                Err(e) => query_plan(engine, schema, meta, kc, forward, limit, start, Some(name))
                    == Err::<QueryPlanView, ErrView>(e),
            },
        !has_index(meta.description.gsis(), name) && has_index(meta.description.lsis(), name)
            ==> exists|l: IndexView|
            #![trigger first_named(meta.description.lsis(), name, l)]
            first_named(meta.description.lsis(), name, l) && match lsi_read(
                located(engine, meta.data_table@),
                l.schema,
                kc.pk_path@,
                kc.pk_value@,
            ) {
                Ok((q, sk)) => key_name(l.schema, KeyType::Range) == Some(sk) && query_plan(
                    engine,
                    schema,
                    meta,
                    kc,
                    forward,
                    limit,
                    start,
                    Some(name),
                ) == Ok::<QueryPlanView, ErrView>(
                    QueryPlanView::Lsi { request: q, sk_name: sk },
                ),
                Err(e) => query_plan(engine, schema, meta, kc, forward, limit, start, Some(name))
                    == Err::<QueryPlanView, ErrView>(e),
            },
        !has_index(meta.description.gsis(), name) && !has_index(meta.description.lsis(), name)
            ==> query_plan(engine, schema, meta, kc, forward, limit, start, Some(name)) == Err::<
            QueryPlanView,
            ErrView,
        >(ErrView::IndexNotFound(name)),
{
    lemma_index_choice(meta, name);
}

proof fn lemma_index_choice(meta: TableMeta, name: Seq<char>)
    ensures
        has_index(meta.description.gsis(), name) <==> index_named(
            meta.description.gsis(),
            name,
        ) is Some,
        has_index(meta.description.lsis(), name) <==> index_named(
            meta.description.lsis(),
            name,
        ) is Some,
        index_named(meta.description.gsis(), name) matches Some(g) ==> first_named(
            meta.description.gsis(),
            name,
            g,
        ),
        index_named(meta.description.lsis(), name) matches Some(l) ==> first_named(
            meta.description.lsis(),
            name,
            l,
        ),
{
    indexes_are_found_by_name(meta.description.gsis(), name);
    indexes_are_found_by_name(meta.description.lsis(), name);
}

/// A scan without an index, or by a local secondary index, reads the table; one by
/// a global secondary index reads the shadow table of that index. One by any other
/// name fails.
pub proof fn scans_go_where_they_belong(
    engine: BigtableEngine,
    schema: SchemaView,
    meta: TableMeta,
    limit: Option<i64>,
    start: Option<ItemView>,
    name: Seq<char>,
)
    ensures
        match scan_read(located(engine, meta.data_table@), schema, limit, start) {
            Ok(q) => scan_plan(engine, schema, meta, limit, start, None) == Ok::<
                ScanPlanView,
                ErrView,
            >(ScanPlanView { request: q, lsi: None, schema }),
            Err(e) => scan_plan(engine, schema, meta, limit, start, None) == Err::<
                ScanPlanView,
                ErrView,
            >(e),
        },
        has_index(meta.description.gsis(), name) ==> exists|g: IndexView|
            #![trigger first_named(meta.description.gsis(), name, g)]
            first_named(meta.description.gsis(), name, g) && match index_scan_read(
                located(engine, shadow_table(meta.data_table@, name)),
                g.schema,
                schema,
                limit,
                start,
            ) {
                Ok(q) => scan_plan(engine, schema, meta, limit, start, Some(name)) == Ok::<
                    ScanPlanView,
                    ErrView,
                >(ScanPlanView { request: q, lsi: None, schema: g.schema + schema }),
                Err(e) => scan_plan(engine, schema, meta, limit, start, Some(name)) == Err::<
                    ScanPlanView,
                    ErrView,
                >(e),
            },
        !has_index(meta.description.gsis(), name) && has_index(meta.description.lsis(), name)
            ==> exists|l: IndexView|
            #![trigger first_named(meta.description.lsis(), name, l)]
            first_named(meta.description.lsis(), name, l) && match scan_read(
                located(engine, meta.data_table@),
                schema,
                limit,
                start,
            ) {
                Ok(q) => scan_plan(engine, schema, meta, limit, start, Some(name)) == Ok::<
                    ScanPlanView,
                    ErrView,
                >(ScanPlanView { request: q, lsi: Some(l.schema), schema }),
                Err(e) => scan_plan(engine, schema, meta, limit, start, Some(name)) == Err::<
                    ScanPlanView,
                    ErrView,
                >(e),
            },
        !has_index(meta.description.gsis(), name) && !has_index(meta.description.lsis(), name)
            ==> scan_plan(engine, schema, meta, limit, start, Some(name)) == Err::<
            ScanPlanView,
            ErrView,
        >(ErrView::IndexNotFound(name)),
{
    lemma_index_choice(meta, name);
}

/// A scan by a local secondary index gives, of the items that a scan of the table
/// gives, exactly those that have the sort key of the index, in the same order, and
/// ends with the same key.
pub proof fn local_index_scans_keep_what_has_the_key(
    plan: ScanPlanView,
    rows: Seq<RowView>,
    limit: Option<i64>,
    segment: Option<i64>,
    total: Option<i64>,
    name: Seq<char>,
)
    requires
        plan.lsi matches Some(l) && key_name(l, KeyType::Range) == Some(name),
    ensures
        ({
            let whole = ScanPlanView { lsi: None, ..plan };
            match scan_plan_result(whole, rows, limit, segment, total) {
                Ok((items, last)) => scan_plan_result(plan, rows, limit, segment, total) == Ok::<
                    PageView,
                    ErrView,
                >((items.filter(|x: ItemView| lookup(x, name) is Some), last)),
                Err(e) => scan_plan_result(plan, rows, limit, segment, total) == Err::<
                    PageView,
                    ErrView,
                >(e),
            }
        }),
{
    if let Ok((items, _)) = scan_result(rows, plan.schema, limit, segment, total) {
        lemma_having(items, name);
    }
}

proof fn lemma_having(items: Seq<ItemView>, name: Seq<char>)
    ensures
        having(items, name) == items.filter(|x: ItemView| lookup(x, name) is Some),
    decreases items.len(),
{
    reveal(Seq::filter);
    if items.len() > 0 {
        lemma_having(items.drop_last(), name);
    } else {
        assert(having(items, name) =~= items);
    }
}

// ---------------------------------------------------------------------------
// Segments
// ---------------------------------------------------------------------------

/// A segment of a scan holds exactly the items of its rows, in order.
pub proof fn segments_hold_their_rows(
    rows: Seq<RowView>,
    schema: SchemaView,
    total: i64,
    segment: i64,
)
    requires
        total >= 1,
        0 <= segment < total,
        forall|i: int|
            0 <= i < rows.len() ==> (row_item((#[trigger] rows[i]).cells) matches Ok(x) && x.len()
                > 0),
    ensures
        scan_result(rows, schema, None, Some(segment), Some(total)) == Ok::<PageView, ErrView>(
            (
                rows.filter(|r: RowView| belongs(r.key, total, segment)).map_values(
                    |r: RowView| row_item(r.cells)->Ok_0,
                ),
                None,
            ),
        ),
{
    assert(segment as int % total as int == segment) by (nonlinear_arith)
        requires
            0 <= segment < total,
    ;
    lemma_segment_items(rows, total, segment);
}

/// Each row is in exactly one of the segments of a scan, so together they make the
/// scan: none is missing and none is there twice.
pub proof fn segments_share_out(key: Seq<u8>, total: i64)
    requires
        total >= 1,
    ensures
        exists|s: i64| 0 <= s < total && #[trigger] belongs(key, total, s),
        forall|s: i64, u: i64|
            0 <= s < total && 0 <= u < total && #[trigger] belongs(key, total, s)
                && #[trigger] belongs(key, total, u) ==> s == u,
{
    crate::query_scan::segments_partition(key, total as u64);
    let s = choose|s: u64| s < total as u64 && #[trigger] in_segment(key, total as u64, s);
    assert(belongs(key, total, s as i64));
    assert forall|s: i64, u: i64|
        0 <= s < total && 0 <= u < total && #[trigger] belongs(key, total, s)
            && #[trigger] belongs(key, total, u) implies s == u by {
        assert(in_segment(key, total as u64, s as u64));
        assert(in_segment(key, total as u64, u as u64));
    }
}

/// Whether a row is in a segment.
pub open spec fn belongs(key: Seq<u8>, total: i64, segment: i64) -> bool {
    in_segment(key, total as u64, segment as u64)
}

#[verifier::rlimit(40)]
proof fn lemma_segment_items(rows: Seq<RowView>, total: i64, segment: i64)
    requires
        total >= 1,
        0 <= segment < total,
        forall|i: int|
            0 <= i < rows.len() ==> (row_item((#[trigger] rows[i]).cells) matches Ok(x) && x.len()
                > 0),
    ensures
        items_in(rows, total as u64, segment as u64) == Ok::<Seq<ItemView>, ErrView>(
            rows.filter(|r: RowView| belongs(r.key, total, segment)).map_values(
                |r: RowView| row_item(r.cells)->Ok_0,
            ),
        ),
    decreases rows.len(),
{
    reveal(Seq::filter);
    let p = |r: RowView| belongs(r.key, total, segment);
    let e = |r: RowView| row_item(r.cells)->Ok_0;
    if rows.len() > 0 {
        let d = rows.drop_last();
        let n = rows.len() - 1;
        assert forall|i: int| 0 <= i < d.len() implies (row_item((#[trigger] d[i]).cells) matches Ok(
            x,
        ) && x.len() > 0) by {
            assert(d[i] == rows[i]);
        }
        lemma_segment_items(d, total, segment);
        let r = rows[n];
        assert(r == rows.last());
        assert(row_item(r.cells) is Ok);
        let f = d.filter(p);
        assert(f.push(r).map_values(e) =~= f.map_values(e).push(e(r)));
    } else {
        assert(rows.filter(p).map_values(e) =~= Seq::<ItemView>::empty());
    }
}

// ---------------------------------------------------------------------------
// Filters
// ---------------------------------------------------------------------------

/// Items with what a filter gave on each.
pub open spec fn judged(items: Seq<ItemView>, results: Seq<Result<bool, String>>) -> Seq<
    (ItemView, Result<bool, String>),
> {
    Seq::new(items.len(), |i: int| (items[i], results[i]))
}

/// A filter keeps exactly the items on which it held, in order. It fails exactly
/// where it could not be evaluated on one of them, with what was said of the first.
pub proof fn filters_keep_what_held(items: Seq<ItemView>, results: Seq<Result<bool, String>>)
    requires
        items.len() == results.len(),
    ensures
        filtered(items, results) is Ok <==> forall|i: int|
            0 <= i < results.len() ==> (#[trigger] results[i]) is Ok,
        filtered(items, results) matches Ok(l) ==> l == judged(items, results).filter(
            |p: (ItemView, Result<bool, String>)| p.1 == Ok::<bool, String>(true),
        ).map_values(|p: (ItemView, Result<bool, String>)| p.0),
        filtered(items, results) matches Err(e) ==> exists|i: int|
            {
                &&& 0 <= i < results.len()
                &&& (#[trigger] results[i]) matches Err(m) && e == ErrView::Validation(
                    "filter expression evaluation: "@ + m@,
                )
                &&& forall|j: int| 0 <= j < i ==> (#[trigger] results[j]) is Ok
            },
{
    lemma_filtered(items, results);
}

proof fn lemma_filtered(items: Seq<ItemView>, results: Seq<Result<bool, String>>)
    requires
        items.len() <= results.len(),
    ensures
        filtered(items, results) is Ok <==> forall|i: int|
            0 <= i < items.len() ==> (#[trigger] results[i]) is Ok,
        filtered(items, results) matches Ok(l) ==> l == judged(items, results).filter(
            |p: (ItemView, Result<bool, String>)| p.1 == Ok::<bool, String>(true),
        ).map_values(|p: (ItemView, Result<bool, String>)| p.0),
        filtered(items, results) matches Err(e) ==> exists|i: int|
            {
                &&& 0 <= i < items.len()
                &&& (#[trigger] results[i]) matches Err(m) && e == ErrView::Validation(
                    "filter expression evaluation: "@ + m@,
                )
                &&& forall|j: int| 0 <= j < i ==> (#[trigger] results[j]) is Ok
            },
    decreases items.len(),
{
    reveal(Seq::filter);
    let p = |p: (ItemView, Result<bool, String>)| p.1 == Ok::<bool, String>(true);
    let e = |p: (ItemView, Result<bool, String>)| p.0;
    let z = judged(items, results);
    if items.len() > 0 {
        let d = items.drop_last();
        let n = items.len() - 1;
        lemma_filtered(d, results);
        assert(z.drop_last() =~= judged(d, results));
        assert(z.last() == (items[n], results[n]));
        let f = z.drop_last().filter(p);
        assert(f.push(z.last()).map_values(e) =~= f.map_values(e).push(items[n]));
        match results[n] {
            Ok(b) => {
                assert(b ==> results[n] == Ok::<bool, String>(true));
            },
            Err(_) => {
                assert(results[n] is Err);
            },
        }
    } else {
        assert(z.filter(p).map_values(e) =~= Seq::<ItemView>::empty());
    }
}

// ---------------------------------------------------------------------------
// Transactional reads
// ---------------------------------------------------------------------------

/// Each operation of a transactional read gets what was read for it: the result
/// stands at its position, and was read from its table.
pub proof fn each_read_gets_its_own(
    groups: Seq<ReadGroup>,
    results: Seq<Vec<Option<Item>>>,
    out: Seq<Option<ItemView>>,
    tables: Seq<Seq<char>>,
    i: int,
)
    requires
        grouped(groups, tables, tables.len() as int),
        placed(groups, results, out),
        0 <= i < tables.len(),
    ensures
        exists|g: int, p: int|
            {
                &&& 0 <= g < groups.len()
                &&& 0 <= p < groups[g].positions@.len()
                &&& #[trigger] groups[g].positions@[p] == i
                &&& groups[g].data_table@ == tables[i]
                &&& out[i] == crate::value::opt_item_view(results[g]@[p])
            },
        forall|g: int, h: int|
            0 <= g < groups.len() && 0 <= h < groups.len() && (
            #[trigger] groups[g]).data_table@ == (#[trigger] groups[h]).data_table@ ==> g == h,
{
    assert(in_groups(groups, i));
    let (g, p) = choose|g: int, p: int|
        0 <= g < groups.len() && 0 <= p < groups[g].positions@.len()
            && #[trigger] groups[g].positions@[p] == i;
    assert(tables[groups[g].positions@[p] as int] == groups[g].data_table@);
    assert(out[groups[g].positions@[p] as int] == crate::value::opt_item_view(results[g]@[p]));
    assert forall|g: int, h: int|
        0 <= g < groups.len() && 0 <= h < groups.len() && (#[trigger] groups[g]).data_table@ == (
        #[trigger] groups[h]).data_table@ implies g == h by {
        if g < h {
            assert(groups[g].data_table@ != groups[h].data_table@);
        } else if h < g {
            assert(groups[h].data_table@ != groups[g].data_table@);
        }
    }
}

/// A query gives the items of the rows that hold one, in the order of the rows. A row
/// without attributes holds none.
pub proof fn rows_without_attributes_hold_no_items(rows: Seq<RowView>)
    requires
        forall|i: int| 0 <= i < rows.len() ==> row_item((#[trigger] rows[i]).cells) is Ok,
    ensures
        items_in(rows, 1, 0) == Ok::<Seq<ItemView>, ErrView>(
            rows.filter(|r: RowView| row_item(r.cells)->Ok_0.len() > 0).map_values(
                |r: RowView| row_item(r.cells)->Ok_0,
            ),
        ),
    decreases rows.len(),
{
    reveal(Seq::filter);
    let p = |r: RowView| row_item(r.cells)->Ok_0.len() > 0;
    let e = |r: RowView| row_item(r.cells)->Ok_0;
    if rows.len() > 0 {
        let d = rows.drop_last();
        assert forall|i: int| 0 <= i < d.len() implies row_item((#[trigger] d[i]).cells) is Ok by {
            assert(d[i] == rows[i]);
        }
        rows_without_attributes_hold_no_items(d);
        assert(rows.last() == rows[rows.len() - 1]);
        let f = d.filter(p);
        assert(f.push(rows.last()).map_values(e) =~= f.map_values(e).push(e(rows.last())));
    } else {
        assert(rows.filter(p).map_values(e) =~= Seq::<ItemView>::empty());
    }
}

} // verus!

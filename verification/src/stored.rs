//! Tables as the service holds them, and what reads and writes of whole tables
//! come to.

use vstd::prelude::*;
use vstd::string::*;
use vstd::utf8::encode_utf8;

use crate::bigtable::{
    applied, in_range, lemma_newest_of_concat, lemma_newest_of_newest, newest, newest_of,
    row_deletion, table_path, BigtableClient, CellView, CheckView, MutView, MutateView, RangeView,
    ReadView, RowView,
};
use crate::bytes::{lex_asymmetric, lex_lt, lex_total, lex_transitive};
use crate::catalog::{
    catalog_mutation, keys_found, prefix_keys, prefix_scan_exact, record_cell, record_found,
    record_mutations, record_read, records_found, row_removal, CATALOG_TABLE, CF, QUALIFIER,
};
use crate::engine::{table_row, TableRowView};
use crate::error::ErrView;
use crate::filter::{matches_row, passed, FilterView};
use crate::item_ops::{
    batch_found, cells_hold, entries_for, entry_for, found, guarded, item_readable,
    lemma_key_nonempty, present, put_effect, put_mutations, read_back, row_entries, row_item,
    row_keys, rows_read, ItemOps,
};
use crate::json::{json_bytes, json_parsed, reads_as, JsonView};
use crate::query_scan::range_read;
use crate::row_key::row_key;
use crate::sorting::{in_text_order, text_order};
use crate::tables::{firsts, key_tables, new_table_row, table_page, tables_after};
use crate::text::rsplit_once;
use crate::value::{item_sorted, ItemView, SchemaView};

verus! {

// ---------------------------------------------------------------------------
// What a read gives
// ---------------------------------------------------------------------------

/// Whether rows are those of a table: they are in the order of their keys, no key
/// occurs twice, and none is without cells.
pub open spec fn is_table(t: Seq<RowView>) -> bool {
    &&& forall|i: int, j: int|
        0 <= i < j < t.len() ==> lex_lt((#[trigger] t[i]).key, (#[trigger] t[j]).key)
    &&& forall|i: int| 0 <= i < t.len() ==> (#[trigger] t[i]).cells.len() > 0
}

/// Whether a read asks for the row with a key: it is one of its keys, or in one
/// of its ranges. A read without either asks for all rows.
pub open spec fn asked_for(key: Seq<u8>, q: ReadView) -> bool {
    ||| q.keys.len() == 0 && q.ranges.len() == 0
    ||| q.keys.contains(key)
    ||| exists|i: int| 0 <= i < q.ranges.len() && in_range(key, #[trigger] q.ranges[i])
}

/// What a filter shows of a row.
pub open spec fn shown(r: RowView, f: FilterView) -> RowView {
    RowView { key: r.key, cells: passed(f, r.cells) }
}

pub open spec fn shown_all(rows: Seq<RowView>, f: FilterView) -> Seq<RowView> {
    rows.map_values(|r: RowView| shown(r, f))
}

/// The rows that a read asks for, as far as its filter shows something of them.
pub open spec fn matching(t: Seq<RowView>, q: ReadView) -> Seq<RowView>
    decreases t.len(),
{
    if t.len() == 0 {
        Seq::empty()
    } else {
        let rest = matching(t.drop_last(), q);
        let r = shown(t.last(), q.filter);
        if asked_for(r.key, q) && r.cells.len() > 0 {
            rest.push(r)
        } else {
            rest
        }
    }
}

/// What a read of a table gives: the rows in the order of their keys, or the
/// other way round, and no more than the limit.
pub open spec fn answer(t: Seq<RowView>, q: ReadView) -> Seq<RowView> {
    let found = if q.reversed {
        matching(t, q).reverse()
    } else {
        matching(t, q)
    };
    if 0 < q.limit < found.len() {
        found.take(q.limit)
    } else {
        found
    }
}

/// The condition on keys that a read makes.
pub open spec fn asks(q: ReadView) -> spec_fn(Seq<u8>) -> bool {
    |k: Seq<u8>| asked_for(k, q)
}

/// The rows whose keys meet a condition.
pub open spec fn rows_where(t: Seq<RowView>, p: spec_fn(Seq<u8>) -> bool) -> Seq<RowView>
    decreases t.len(),
{
    if t.len() == 0 {
        Seq::empty()
    } else {
        let rest = rows_where(t.drop_last(), p);
        if p(t.last().key) {
            rest.push(t.last())
        } else {
            rest
        }
    }
}

proof fn lemma_newest_nonempty(row: Seq<CellView>)
    requires
        row.len() > 0,
    ensures
        newest(row, 1).len() > 0,
    decreases row.len(),
{
    if row.len() > 1 {
        lemma_newest_nonempty(row.drop_last());
    } else {
        assert(row.drop_last().len() == 0);
    }
}

proof fn lemma_is_table_front(t: Seq<RowView>)
    requires
        is_table(t),
        t.len() > 0,
    ensures
        is_table(t.drop_last()),
{
    let d = t.drop_last();
    assert forall|i: int, j: int| 0 <= i < j < d.len() implies lex_lt(
        (#[trigger] d[i]).key,
        (#[trigger] d[j]).key,
    ) by {
        assert(lex_lt(t[i].key, t[j].key));
    }
    assert forall|i: int| 0 <= i < d.len() implies (#[trigger] d[i]).cells.len() > 0 by {
        assert(t[i].cells.len() > 0);
    }
}

/// A read of the newest cells shows every row that it asks for.
pub proof fn lemma_matching(t: Seq<RowView>, q: ReadView)
    requires
        is_table(t),
        q.filter == FilterView::Limit(1),
    ensures
        matching(t, q) == shown_all(rows_where(t, asks(q)), q.filter),
    decreases t.len(),
{
    if t.len() > 0 {
        lemma_is_table_front(t);
        lemma_matching(t.drop_last(), q);
        lemma_newest_nonempty(t.last().cells);
        let rest = rows_where(t.drop_last(), asks(q));
        assert(shown_all(rest.push(t.last()), q.filter) =~= shown_all(rest, q.filter).push(
            shown(t.last(), q.filter),
        ));
    } else {
        assert(matching(t, q) =~= shown_all(rows_where(t, asks(q)), q.filter));
    }
}

/// A read of one range asks for the keys in it.
pub proof fn lemma_one_range(q: ReadView, range: RangeView, key: Seq<u8>)
    requires
        q.keys.len() == 0,
        q.ranges == seq![range],
    ensures
        asked_for(key, q) <==> in_range(key, range),
{
    assert(q.ranges[0] == range);
}

/// Where a condition holds from a row on, the rows that meet it are those from
/// there on.
pub proof fn lemma_rows_tail(t: Seq<RowView>, p: spec_fn(Seq<u8>) -> bool, i: int)
    requires
        0 <= i <= t.len(),
        forall|j: int| 0 <= j < t.len() ==> (p((#[trigger] t[j]).key) <==> j >= i),
    ensures
        rows_where(t, p) == t.skip(i),
    decreases t.len(),
{
    if t.len() > 0 {
        let d = t.drop_last();
        let k = if i == t.len() {
            i - 1
        } else {
            i
        };
        assert forall|j: int| 0 <= j < d.len() implies (p((#[trigger] d[j]).key) <==> j >= k) by {
            assert(d[j] == t[j]);
        }
        lemma_rows_tail(d, p, k);
        assert(t.last() == t[t.len() - 1]);
        if i < t.len() {
            assert(t.skip(i) =~= d.skip(i).push(t.last()));
        } else {
            assert(t.skip(i) =~= d.skip(k));
        }
    } else {
        assert(t.skip(i) =~= rows_where(t, p));
    }
}

// ---------------------------------------------------------------------------
// Tables of items
// ---------------------------------------------------------------------------

/// The item that a row holds.
pub open spec fn item_of(r: RowView) -> ItemView {
    row_item(newest(r.cells, 1))->Ok_0
}

pub open spec fn items_of(rows: Seq<RowView>) -> Seq<ItemView> {
    rows.map_values(|r: RowView| item_of(r))
}

/// The rows whose keys meet a condition are rows of the table, in its order.
pub proof fn lemma_rows_where(t: Seq<RowView>, p: spec_fn(Seq<u8>) -> bool)
    requires
        is_table(t),
    ensures
        is_table(rows_where(t, p)),
        forall|i: int|
            0 <= i < rows_where(t, p).len() ==> t.contains(#[trigger] rows_where(t, p)[i]) && p(
                rows_where(t, p)[i].key,
            ),
        forall|i: int|
            0 <= i < t.len() && p((#[trigger] t[i]).key) ==> rows_where(t, p).contains(t[i]),
    decreases t.len(),
{
    if t.len() > 0 {
        let d = t.drop_last();
        lemma_is_table_front(t);
        lemma_rows_where(d, p);
        let r = rows_where(d, p);
        let w = rows_where(t, p);
        assert forall|i: int| 0 <= i < t.len() && p((#[trigger] t[i]).key) implies w.contains(
            t[i],
        ) by {
            if i < d.len() {
                assert(d[i] == t[i]);
                let j = choose|j: int| 0 <= j < r.len() && r[j] == d[i];
                assert(w[j] == t[i]);
            } else {
                assert(w[w.len() - 1] == t[i]);
            }
        }
        assert forall|i: int| 0 <= i < w.len() implies t.contains(#[trigger] w[i]) && p(
            w[i].key,
        ) by {
            if i < r.len() {
                assert(w[i] == r[i]);
                let j = choose|j: int| 0 <= j < d.len() && d[j] == r[i];
                assert(t[j] == w[i]);
            } else {
                assert(t[t.len() - 1] == w[i]);
            }
        }
        assert forall|i: int, j: int| 0 <= i < j < w.len() implies lex_lt(
            (#[trigger] w[i]).key,
            (#[trigger] w[j]).key,
        ) by {
            assert(w[i] == r[i]);
            if j < r.len() {
                assert(w[j] == r[j]);
            } else {
                let m = choose|m: int| 0 <= m < d.len() && d[m] == r[i];
                assert(t[m] == w[i]);
                assert(t[t.len() - 1] == w[j]);
            }
        }
        assert forall|i: int| 0 <= i < w.len() implies (#[trigger] w[i]).cells.len() > 0 by {
            let j = choose|j: int| 0 <= j < t.len() && t[j] == w[i];
            assert(t[j].cells.len() > 0);
        }
    }
}

// ---------------------------------------------------------------------------
// Reads by key
// ---------------------------------------------------------------------------

/// The cells of the row with a key; none where there is no such row.
pub open spec fn cells_at(t: Seq<RowView>, key: Seq<u8>) -> Seq<CellView>
    decreases t.len(),
{
    if t.len() == 0 {
        Seq::empty()
    } else if t.last().key == key {
        t.last().cells
    } else {
        cells_at(t.drop_last(), key)
    }
}

proof fn lemma_cells_at(t: Seq<RowView>, key: Seq<u8>)
    requires
        is_table(t),
    ensures
        forall|i: int|
            0 <= i < t.len() && (#[trigger] t[i]).key == key ==> t[i].cells == cells_at(t, key),
        (forall|i: int| 0 <= i < t.len() ==> (#[trigger] t[i]).key != key) <==> cells_at(
            t,
            key,
        ).len() == 0,
    decreases t.len(),
{
    if t.len() > 0 {
        let d = t.drop_last();
        let n = t.len() - 1;
        lemma_is_table_front(t);
        lemma_cells_at(d, key);
        assert(t[n].cells.len() > 0);
        assert forall|i: int| 0 <= i < t.len() && (#[trigger] t[i]).key == key implies t[i].cells
            == cells_at(t, key) by {
            if i < n {
                assert(d[i] == t[i]);
                if t[n].key == key {
                    assert(lex_lt(t[i].key, t[n].key));
                    lex_asymmetric(key, key);
                }
            }
        }
        if cells_at(t, key).len() == 0 {
            assert forall|i: int| 0 <= i < t.len() implies (#[trigger] t[i]).key != key by {
                if i < n {
                    assert(d[i] == t[i]);
                }
            }
        } else if t[n].key != key {
            let i = choose|i: int| 0 <= i < d.len() && (#[trigger] d[i]).key == key;
            assert(t[i].key == key);
        }
    }
}

/// Rows of a table with one key are one row.
proof fn lemma_one_row(t: Seq<RowView>, key: Seq<u8>)
    requires
        is_table(t),
        forall|i: int| 0 <= i < t.len() ==> (#[trigger] t[i]).key == key,
    ensures
        t.len() <= 1,
{
    if t.len() > 1 {
        assert(lex_lt(t[0].key, t[1].key));
        lex_asymmetric(key, key);
    }
}

/// What a read of the newest cells of one row gives.
pub proof fn lemma_answer_key(t: Seq<RowView>, q: ReadView, key: Seq<u8>)
    requires
        is_table(t),
        q.keys == seq![key],
        q.ranges.len() == 0,
        q.limit == 1,
        q.filter == FilterView::Limit(1),
        !q.reversed,
    ensures
        answer(t, q) == if cells_at(t, key).len() == 0 {
            Seq::empty()
        } else {
            seq![RowView { key, cells: newest(cells_at(t, key), 1) }]
        },
{
    let rows = rows_where(t, asks(q));
    assert forall|k: Seq<u8>| asked_for(k, q) <==> k == key by {
        assert(seq![key][0] == key);
        assert(seq![key].contains(key));
    }
    lemma_matching(t, q);
    lemma_rows_where(t, asks(q));
    lemma_one_row(rows, key);
    lemma_cells_at(t, key);
    let a = answer(t, q);
    assert(a == shown_all(rows, q.filter));
    if rows.len() == 1 {
        let i = choose|i: int| 0 <= i < t.len() && t[i] == rows[0];
        assert(a[0] == RowView { key, cells: newest(cells_at(t, key), 1) });
        assert(a =~= seq![RowView { key, cells: newest(cells_at(t, key), 1) }]);
    } else {
        assert forall|i: int| 0 <= i < t.len() implies (#[trigger] t[i]).key != key by {
            if t[i].key == key {
                assert(rows.contains(t[i]));
            }
        }
        assert(a =~= Seq::<RowView>::empty());
    }
}

/// A read of one row gives what its cells hold; of a row that is not there it
/// gives neither item nor version.
pub proof fn single_read_exact(t: Seq<RowView>, ops: ItemOps, key: Seq<u8>)
    requires
        is_table(t),
    ensures
        found(answer(t, rows_read(ops, seq![key]))) == read_back(cells_at(t, key)),
        cells_at(t, key).len() == 0 ==> found(answer(t, rows_read(ops, seq![key]))) == Ok::<
            (Option<ItemView>, Option<nat>),
            ErrView,
        >((None, None)),
{
    lemma_answer_key(t, rows_read(ops, seq![key]), key);
    if cells_at(t, key).len() == 0 {
        assert(newest(cells_at(t, key), 1) =~= Seq::<CellView>::empty());
    }
}

/// Rows with different keys that all are among some keys are no more than those.
proof fn lemma_no_more_rows(rows: Seq<RowView>, keys: Seq<Seq<u8>>)
    requires
        is_table(rows),
        forall|i: int| 0 <= i < rows.len() ==> keys.contains((#[trigger] rows[i]).key),
    ensures
        rows.len() <= keys.len(),
{
    let names = rows.map_values(|r: RowView| r.key);
    assert forall|i: int, j: int| 0 <= i < names.len() && 0 <= j < names.len() && i != j implies
        names[i] != names[j] by {
        if i < j {
            assert(lex_lt(rows[i].key, rows[j].key));
        } else {
            assert(lex_lt(rows[j].key, rows[i].key));
        }
        if names[i] == names[j] {
            lex_asymmetric(names[i], names[i]);
        }
    }
    names.unique_seq_to_set();
    keys.lemma_cardinality_of_set();
    assert forall|k: Seq<u8>| names.to_set().contains(k) implies keys.to_set().contains(k) by {
        let i = choose|i: int| 0 <= i < names.len() && names[i] == k;
        assert(rows[i].key == k);
    }
    vstd::set_lib::lemma_len_subset(names.to_set(), keys.to_set());
}

/// Whether the newest cells of rows can be read.
pub open spec fn is_readable(t: Seq<RowView>) -> bool {
    forall|i: int| 0 <= i < t.len() ==> row_item(newest((#[trigger] t[i]).cells, 1)) is Ok
}

/// What is read of readable rows, by their keys.
proof fn lemma_entries(rows: Seq<RowView>, cutoff: int)
    requires
        is_readable(rows),
    ensures
        row_entries(shown_all(rows, FilterView::Limit(1)), cutoff) matches Ok(l) && l.len()
            == rows.len() && forall|i: int|
            0 <= i < l.len() ==> (#[trigger] l[i]).0 == rows[i].key && l[i].1.0 == present(
                item_of(rows[i]),
            ),
    decreases rows.len(),
{
    let f = FilterView::Limit(1);
    if rows.len() > 0 {
        let d = rows.drop_last();
        assert forall|i: int| 0 <= i < d.len() implies row_item(
            newest((#[trigger] d[i]).cells, 1),
        ) is Ok by {
            assert(d[i] == rows[i]);
        }
        lemma_entries(d, cutoff);
        let s = shown_all(rows, f);
        assert(s.drop_last() =~= shown_all(d, f));
        assert(s.last() == shown(rows[rows.len() - 1], f));
    }
}

/// What is found under a key among entries whose keys are those of rows.
proof fn lemma_entry_for(
    rows: Seq<RowView>,
    l: Seq<(Seq<u8>, (Option<ItemView>, Option<Seq<char>>))>,
    key: Seq<u8>,
)
    requires
        is_table(rows),
        l.len() == rows.len(),
        forall|i: int|
            0 <= i < l.len() ==> (#[trigger] l[i]).0 == rows[i].key && l[i].1.0 == present(
                item_of(rows[i]),
            ),
    ensures
        entry_for(l, key).0 == if cells_at(rows, key).len() == 0 {
            None
        } else {
            present(row_item(newest(cells_at(rows, key), 1))->Ok_0)
        },
    decreases l.len(),
{
    if l.len() > 0 {
        let d = rows.drop_last();
        lemma_is_table_front(rows);
        assert(l.last() == l[l.len() - 1]);
        assert(rows[rows.len() - 1].cells.len() > 0);
        assert forall|i: int| 0 <= i < l.drop_last().len() implies (#[trigger] l.drop_last()[i]).0
            == d[i].key && l.drop_last()[i].1.0 == present(item_of(d[i])) by {
            assert(l.drop_last()[i] == l[i]);
            assert(d[i] == rows[i]);
        }
        lemma_entry_for(d, l.drop_last(), key);
    }
}

proof fn lemma_entries_for(
    l: Seq<(Seq<u8>, (Option<ItemView>, Option<Seq<char>>))>,
    keys: Seq<Seq<u8>>,
)
    ensures
        entries_for(l, keys).len() == keys.len(),
        forall|i: int|
            0 <= i < keys.len() ==> #[trigger] entries_for(l, keys)[i] == entry_for(l, keys[i]),
    decreases keys.len(),
{
    if keys.len() > 0 {
        let d = keys.drop_last();
        lemma_entries_for(l, d);
        assert forall|i: int| 0 <= i < keys.len() implies #[trigger] entries_for(l, keys)[i]
            == entry_for(l, keys[i]) by {
            if i < d.len() {
                assert(entries_for(l, d)[i] == entry_for(l, d[i]));
            }
        }
    }
}

/// Rows that a condition on keys picks have the cells that the table has under
/// their keys.
proof fn lemma_cells_where(t: Seq<RowView>, p: spec_fn(Seq<u8>) -> bool, key: Seq<u8>)
    ensures
        cells_at(rows_where(t, p), key) == if p(key) {
            cells_at(t, key)
        } else {
            Seq::empty()
        },
    decreases t.len(),
{
    if t.len() > 0 {
        lemma_cells_where(t.drop_last(), p, key);
        let rest = rows_where(t.drop_last(), p);
        assert(rest.push(t.last()).drop_last() =~= rest);
    }
}

/// The item that a read of one row gives, where there is one.
pub open spec fn single_item(t: Seq<RowView>, ops: ItemOps, key: Seq<u8>) -> Result<
    Option<ItemView>,
    ErrView,
> {
    match found(answer(t, rows_read(ops, seq![key]))) {
        Ok(f) => Ok(f.0),
        Err(e) => Err(e),
    }
}

/// Whether a read of several rows gives, one for one, the items that reads of the
/// single rows give.
pub open spec fn agree(
    t: Seq<RowView>,
    ops: ItemOps,
    keys: Seq<Seq<u8>>,
    l: Seq<(Option<ItemView>, Option<Seq<char>>)>,
) -> bool {
    l.len() == keys.len() && forall|i: int|
        0 <= i < keys.len() ==> single_item(t, ops, keys[i]) == Ok::<Option<ItemView>, ErrView>(
            (#[trigger] l[i]).0,
        )
}

/// A read of several rows gives what reads of the single rows give, in the order
/// of the keys; a key that is given twice is answered twice.
#[verifier::rlimit(40)]
pub proof fn batch_reads_agree(
    t: Seq<RowView>,
    ops: ItemOps,
    keys: Seq<ItemView>,
    schema: SchemaView,
    cutoff: int,
)
    requires
        is_table(t),
        row_keys(keys, schema) is Ok,
        is_readable(rows_where(t, asks(rows_read(ops, row_keys(keys, schema)->Ok_0)))),
    ensures
        ({
            let k = row_keys(keys, schema)->Ok_0;
            &&& batch_found(answer(t, rows_read(ops, k)), keys, schema, cutoff) is Ok
            &&& agree(
                t,
                ops,
                k,
                batch_found(answer(t, rows_read(ops, k)), keys, schema, cutoff)->Ok_0,
            )
            &&& k.len() == keys.len()
            &&& forall|i: int|
                0 <= i < k.len() ==> row_key(#[trigger] keys[i], schema) == Ok::<Seq<u8>, ErrView>(
                    k[i],
                )
        }),
{
    let k = row_keys(keys, schema)->Ok_0;
    let q = rows_read(ops, k);
    let p = asks(q);
    let rows = rows_where(t, p);
    lemma_row_keys(keys, schema);
    lemma_matching(t, q);
    lemma_rows_where(t, p);
    if k.len() > 0 {
        assert forall|i: int| 0 <= i < rows.len() implies k.contains((#[trigger] rows[i]).key) by {
            assert(p(rows[i].key));
        }
        lemma_no_more_rows(rows, k);
    }
    assert(answer(t, q) == shown_all(rows, q.filter));
    lemma_entries(rows, cutoff);
    let e = row_entries(answer(t, q), cutoff)->Ok_0;
    lemma_entries_for(e, k);
    let l = entries_for(e, k);
    assert(batch_found(answer(t, q), keys, schema, cutoff)->Ok_0 == l);
    assert forall|i: int| 0 <= i < k.len() implies single_item(t, ops, k[i]) == Ok::<
        Option<ItemView>,
        ErrView,
    >((#[trigger] l[i]).0) by {
        lemma_entry_for(rows, e, k[i]);
        lemma_cells_where(t, p, k[i]);
        assert(k.contains(k[i]));
        assert(p(k[i]));
        lemma_cells_at(t, k[i]);
        single_read_exact(t, ops, k[i]);
        let c = cells_at(t, k[i]);
        if c.len() == 0 {
            assert(newest(c, 1) =~= Seq::<CellView>::empty());
        } else {
            let j = choose|j: int| 0 <= j < t.len() && (#[trigger] t[j]).key == k[i];
            let m = choose|m: int| 0 <= m < rows.len() && rows[m] == t[j];
            assert(row_item(newest(rows[m].cells, 1)) is Ok);
        }
    }
}

proof fn lemma_row_keys(keys: Seq<ItemView>, schema: SchemaView)
    requires
        row_keys(keys, schema) is Ok,
    ensures
        row_keys(keys, schema)->Ok_0.len() == keys.len(),
        forall|i: int|
            0 <= i < keys.len() ==> row_key(#[trigger] keys[i], schema) == Ok::<Seq<u8>, ErrView>(
                row_keys(keys, schema)->Ok_0[i],
            ),
    decreases keys.len(),
{
    if keys.len() > 0 {
        let d = keys.drop_last();
        lemma_row_keys(d, schema);
        assert forall|i: int| 0 <= i < keys.len() implies row_key(#[trigger] keys[i], schema)
            == Ok::<Seq<u8>, ErrView>(row_keys(keys, schema)->Ok_0[i]) by {
            if i < d.len() {
                assert(d[i] == keys[i]);
            }
        }
    }
}

// ---------------------------------------------------------------------------
// Changes
// ---------------------------------------------------------------------------

/// The condition that a key is another than the given one.
pub open spec fn other_than(key: Seq<u8>) -> spec_fn(Seq<u8>) -> bool {
    |k: Seq<u8>| k != key
}

/// The table with a row more, in its place.
pub open spec fn with_row(t: Seq<RowView>, r: RowView) -> Seq<RowView>
    decreases t.len(),
{
    if t.len() == 0 || lex_lt(t.last().key, r.key) {
        t.push(r)
    } else {
        with_row(t.drop_last(), r).push(t.last())
    }
}

/// The table after a change of a row. A row that is left without cells is gone.
pub open spec fn changed(t: Seq<RowView>, q: MutateView, now: int) -> Seq<RowView> {
    let cells = applied(cells_at(t, q.key), q.mutations, now);
    let rest = rows_where(t, other_than(q.key));
    if cells.len() == 0 {
        rest
    } else {
        with_row(rest, RowView { key: q.key, cells })
    }
}

/// The table after changes, one after the other.
pub open spec fn changed_all(t: Seq<RowView>, l: Seq<MutateView>, now: int) -> Seq<RowView>
    decreases l.len(),
{
    if l.len() == 0 {
        t
    } else {
        changed(changed_all(t, l.drop_last(), now), l.last(), now)
    }
}

proof fn lemma_with_row(t: Seq<RowView>, r: RowView, key: Seq<u8>)
    requires
        is_table(t),
        r.cells.len() > 0,
        forall|i: int| 0 <= i < t.len() ==> (#[trigger] t[i]).key != r.key,
    ensures
        is_table(with_row(t, r)),
        forall|i: int|
            0 <= i < with_row(t, r).len() ==> #[trigger] with_row(t, r)[i] == r || t.contains(
                with_row(t, r)[i],
            ),
        cells_at(with_row(t, r), key) == if key == r.key {
            r.cells
        } else {
            cells_at(t, key)
        },
    decreases t.len(),
{
    let w = with_row(t, r);
    if t.len() == 0 || lex_lt(t.last().key, r.key) {
        assert(w.drop_last() =~= t);
        assert forall|i: int| 0 <= i < w.len() implies #[trigger] w[i] == r || t.contains(w[i]) by {
            if i < t.len() {
                assert(t[i] == w[i]);
            }
        }
        assert forall|i: int, j: int| 0 <= i < j < w.len() implies lex_lt(
            (#[trigger] w[i]).key,
            (#[trigger] w[j]).key,
        ) by {
            assert(w[i] == t[i]);
            if j < t.len() {
                assert(w[j] == t[j]);
            } else if i < t.len() - 1 {
                assert(lex_lt(t[i].key, t[t.len() - 1].key));
                lex_transitive(t[i].key, t.last().key, r.key);
            }
        }
        assert forall|i: int| 0 <= i < w.len() implies (#[trigger] w[i]).cells.len() > 0 by {
            if i < t.len() {
                assert(t[i].cells.len() > 0);
            }
        }
    } else {
        let d = t.drop_last();
        let n = t.len() - 1;
        lemma_is_table_front(t);
        assert forall|i: int| 0 <= i < d.len() implies (#[trigger] d[i]).key != r.key by {
            assert(d[i] == t[i]);
        }
        lemma_with_row(d, r, key);
        let v = with_row(d, r);
        assert(w.drop_last() =~= v);
        assert(t[n].key != r.key);
        lex_total(t[n].key, r.key);
        assert forall|i: int| 0 <= i < w.len() implies #[trigger] w[i] == r || t.contains(w[i]) by {
            if i < v.len() {
                assert(w[i] == v[i]);
                if v[i] != r {
                    let j = choose|j: int| 0 <= j < d.len() && d[j] == v[i];
                    assert(t[j] == w[i]);
                }
            } else {
                assert(t[n] == w[i]);
            }
        }
        assert forall|i: int, j: int| 0 <= i < j < w.len() implies lex_lt(
            (#[trigger] w[i]).key,
            (#[trigger] w[j]).key,
        ) by {
            assert(w[i] == v[i]);
            if j < v.len() {
                assert(w[j] == v[j]);
            } else if v[i] != r {
                let m = choose|m: int| 0 <= m < d.len() && d[m] == v[i];
                assert(lex_lt(t[m].key, t[n].key));
            }
        }
        assert forall|i: int| 0 <= i < w.len() implies (#[trigger] w[i]).cells.len() > 0 by {
            if i < v.len() {
                assert(v[i].cells.len() > 0);
            } else {
                assert(t[n].cells.len() > 0);
            }
        }
    }
}

/// A change of a row makes of its cells what its mutations say, and leaves all
/// other rows as they were.
pub proof fn changes_touch_one_row(t: Seq<RowView>, q: MutateView, now: int, key: Seq<u8>)
    requires
        is_table(t),
    ensures
        is_table(changed(t, q, now)),
        cells_at(changed(t, q, now), key) == if key == q.key {
            applied(cells_at(t, q.key), q.mutations, now)
        } else {
            cells_at(t, key)
        },
{
    let cells = applied(cells_at(t, q.key), q.mutations, now);
    let p = other_than(q.key);
    let rest = rows_where(t, p);
    lemma_rows_where(t, p);
    lemma_cells_where(t, p, key);
    if cells.len() > 0 {
        let r = RowView { key: q.key, cells };
        assert forall|i: int| 0 <= i < rest.len() implies (#[trigger] rest[i]).key != r.key by {
            assert(p(rest[i].key));
        }
        lemma_with_row(rest, r, key);
    } else {
        assert(cells =~= Seq::<CellView>::empty());
    }
}

/// The rows after a change of a row are the changed one and others that were there.
pub proof fn lemma_changed_rows(t: Seq<RowView>, q: MutateView, now: int)
    requires
        is_table(t),
    ensures
        is_table(changed(t, q, now)),
        forall|i: int|
            0 <= i < changed(t, q, now).len() ==> {
                let r = #[trigger] changed(t, q, now)[i];
                if r.key == q.key {
                    r.cells == applied(cells_at(t, q.key), q.mutations, now)
                } else {
                    t.contains(r)
                }
            },
{
    let cells = applied(cells_at(t, q.key), q.mutations, now);
    let p = other_than(q.key);
    let rest = rows_where(t, p);
    let w = changed(t, q, now);
    changes_touch_one_row(t, q, now, q.key);
    lemma_rows_where(t, p);
    let r = RowView { key: q.key, cells };
    if cells.len() > 0 {
        assert forall|i: int| 0 <= i < rest.len() implies (#[trigger] rest[i]).key != r.key by {
            assert(p(rest[i].key));
        }
        lemma_with_row(rest, r, q.key);
    }
    assert forall|i: int| 0 <= i < w.len() implies ({
        let x = #[trigger] w[i];
        if x.key == q.key {
            x.cells == cells
        } else {
            t.contains(x)
        }
    }) by {
        let x = w[i];
        if cells.len() == 0 || x != r {
            let j = choose|j: int| 0 <= j < rest.len() && rest[j] == x;
            assert(rest[j] == x);
            assert(p(rest[j].key));
        }
    }
}

/// What was put is read: after a write of an item with a version, a read of its
/// key gives the item and that version.
pub proof fn puts_read_back(
    t: Seq<RowView>,
    ops: ItemOps,
    item: ItemView,
    key: ItemView,
    schema: SchemaView,
    version: u64,
    now: int,
)
    requires
        is_table(t),
        row_key(item, schema) is Ok,
        row_key(key, schema) == row_key(item, schema),
        item_sorted(item),
        item_readable(item),
        cells_hold(item),
    ensures
        ({
            let k = row_key(key, schema)->Ok_0;
            let after = changed(t, ops.mutation_of(k, put_mutations(item, version as nat)), now);
            found(answer(after, rows_read(ops, seq![k]))) == Ok::<
                (Option<ItemView>, Option<nat>),
                ErrView,
            >((Some(item), Some(version as nat)))
        }),
{
    let k = row_key(key, schema)->Ok_0;
    let q = ops.mutation_of(k, put_mutations(item, version as nat));
    changes_touch_one_row(t, q, now, k);
    single_read_exact(changed(t, q, now), ops, k);
    lemma_key_nonempty(item, schema);
    put_effect(cells_at(t, k), item, version as nat, now);
}

/// The table after a change that goes by a predicate.
pub open spec fn check_applied(t: Seq<RowView>, c: CheckView, now: int) -> Seq<RowView> {
    let mutations = if matches_row(c.predicate, cells_at(t, c.key)) {
        c.if_true
    } else {
        c.if_false
    };
    changed(t, MutateView { table: c.table, profile: c.profile, key: c.key, mutations }, now)
}

/// What a guarded put wrote is read: where its guard did not match, a read of its
/// key gives the item and the version that the put reported. Where it matched,
/// every row is as it was.
pub proof fn guarded_puts_read_back(
    t: Seq<RowView>,
    ops: ItemOps,
    item: ItemView,
    key: ItemView,
    schema: SchemaView,
    cutoff: int,
    expected: Option<nat>,
    conditional: bool,
    version: u64,
    now: int,
)
    requires
        is_table(t),
        row_key(item, schema) is Ok,
        row_key(key, schema) == row_key(item, schema),
        item_sorted(item),
        item_readable(item),
        cells_hold(item),
    ensures
        ({
            let k = row_key(key, schema)->Ok_0;
            let w = guarded(
                ops.full_table_name@,
                ops.client.profile(),
                k,
                cutoff,
                expected,
                conditional,
                put_mutations(item, version as nat),
            ).request;
            let after = check_applied(t, w, now);
            &&& !matches_row(w.predicate, cells_at(t, k)) ==> found(
                answer(after, rows_read(ops, seq![k])),
            ) == Ok::<(Option<ItemView>, Option<nat>), ErrView>(
                (Some(item), Some(version as nat)),
            )
            &&& matches_row(w.predicate, cells_at(t, k)) ==> forall|other: Seq<u8>|
                #[trigger] cells_at(after, other) == cells_at(t, other)
        }),
{
    let k = row_key(key, schema)->Ok_0;
    let w = guarded(
        ops.full_table_name@,
        ops.client.profile(),
        k,
        cutoff,
        expected,
        conditional,
        put_mutations(item, version as nat),
    ).request;
    let after = check_applied(t, w, now);
    if matches_row(w.predicate, cells_at(t, k)) {
        let q = MutateView { table: w.table, profile: w.profile, key: k, mutations: w.if_true };
        assert forall|other: Seq<u8>| #[trigger] cells_at(after, other) == cells_at(t, other) by {
            changes_touch_one_row(t, q, now, other);
        }
    } else {
        puts_read_back(t, ops, item, key, schema, version, now);
    }
}

// ---------------------------------------------------------------------------
// Deletion by prefix
// ---------------------------------------------------------------------------

/// Whether the keys of all rows are text.
pub open spec fn keyed_by_text(t: Seq<RowView>) -> bool {
    forall|i: int| 0 <= i < t.len() ==> vstd::utf8::valid_utf8((#[trigger] t[i]).key)
}

/// The condition that a key begins with a prefix.
pub open spec fn begins(prefix: Seq<char>) -> spec_fn(Seq<u8>) -> bool {
    |k: Seq<u8>| encode_utf8(prefix).is_prefix_of(k)
}

/// The deletions of rows of the catalog.
pub open spec fn removals(client: BigtableClient, rows: Seq<RowView>) -> Seq<MutateView> {
    rows.map_values(|r: RowView| row_removal(client, r.key))
}

proof fn lemma_removed(
    t: Seq<RowView>,
    client: BigtableClient,
    rows: Seq<RowView>,
    now: int,
    key: Seq<u8>,
)
    requires
        is_table(t),
    ensures
        is_table(changed_all(t, removals(client, rows), now)),
        cells_at(changed_all(t, removals(client, rows), now), key) == if exists|i: int|
            0 <= i < rows.len() && (#[trigger] rows[i]).key == key {
            Seq::empty()
        } else {
            cells_at(t, key)
        },
    decreases rows.len(),
{
    let l = removals(client, rows);
    if rows.len() > 0 {
        let d = rows.drop_last();
        lemma_removed(t, client, d, now, key);
        assert(l.drop_last() =~= removals(client, d));
        let q = l.last();
        let before = changed_all(t, l.drop_last(), now);
        changes_touch_one_row(before, q, now, key);
        assert(row_deletion().drop_last() =~= Seq::<MutView>::empty());
        assert(applied(cells_at(before, q.key), row_deletion(), now) =~= Seq::<CellView>::empty());
        assert(q.key == rows[rows.len() - 1].key);
        if exists|i: int| 0 <= i < rows.len() && (#[trigger] rows[i]).key == key {
            let i = choose|i: int| 0 <= i < rows.len() && (#[trigger] rows[i]).key == key;
            if i < d.len() {
                assert(d[i].key == key);
            }
        }
        if exists|i: int| 0 <= i < d.len() && (#[trigger] d[i]).key == key {
            let i = choose|i: int| 0 <= i < d.len() && (#[trigger] d[i]).key == key;
            assert(rows[i].key == key);
        }
    }
}

proof fn lemma_keys_found(rows: Seq<RowView>)
    requires
        keyed_by_text(rows),
    ensures
        keys_found(rows) is Ok,
    decreases rows.len(),
{
    if rows.len() > 0 {
        let d = rows.drop_last();
        assert forall|i: int| 0 <= i < d.len() implies vstd::utf8::valid_utf8(
            (#[trigger] d[i]).key,
        ) by {
            assert(d[i] == rows[i]);
        }
        lemma_keys_found(d);
        assert(vstd::utf8::valid_utf8(rows[rows.len() - 1].key));
    }
}

/// Deleting what a scan of a prefix finds deletes all rows whose keys begin with
/// the prefix, whatever they hold, as many as the scan found; all other rows stay
/// as they were.
pub proof fn prefixes_are_deleted(
    t: Seq<RowView>,
    client: BigtableClient,
    table: Seq<char>,
    prefix: Seq<char>,
    now: int,
)
    requires
        is_table(t),
        keyed_by_text(t),
    ensures
        ({
            let q = range_read(table, prefix_keys(prefix), 0, FilterView::Limit(1), false);
            let rows = answer(t, q);
            let after = changed_all(t, removals(client, rows), now);
            &&& keys_found(rows) is Ok
            &&& rows.len() == rows_where(t, begins(prefix)).len()
            &&& is_table(after)
            &&& forall|i: int| 0 <= i < after.len() ==> !begins(prefix)((#[trigger] after[i]).key)
            &&& forall|k: Seq<u8>|
                !begins(prefix)(k) ==> #[trigger] cells_at(after, k) == cells_at(t, k)
        }),
{
    let q = range_read(table, prefix_keys(prefix), 0, FilterView::Limit(1), false);
    let rows = answer(t, q);
    let p = asks(q);
    let found = rows_where(t, p);
    let after = changed_all(t, removals(client, rows), now);
    lemma_matching(t, q);
    lemma_rows_where(t, p);
    assert(rows == shown_all(found, q.filter));
    assert forall|i: int| 0 <= i < t.len() implies (p((#[trigger] t[i]).key) <==> begins(prefix)(
        t[i].key,
    )) by {
        lemma_one_range(q, prefix_keys(prefix), t[i].key);
        vstd::utf8::decode_utf8_encode_utf8(t[i].key);
        prefix_scan_exact(prefix, vstd::utf8::decode_utf8(t[i].key));
    }
    lemma_same_rows(t, p, begins(prefix));
    assert forall|i: int| 0 <= i < rows.len() implies vstd::utf8::valid_utf8(
        (#[trigger] rows[i]).key,
    ) && begins(prefix)(rows[i].key) by {
        assert(rows[i].key == found[i].key);
        let j = choose|j: int| 0 <= j < t.len() && t[j] == found[i];
        assert(vstd::utf8::valid_utf8(t[j].key));
        assert(p(t[j].key));
    }
    lemma_keys_found(rows);
    lemma_removed(t, client, rows, now, Seq::empty());
    assert forall|i: int| 0 <= i < after.len() implies !begins(prefix)(
        (#[trigger] after[i]).key,
    ) by {
        let k = after[i].key;
        lemma_removed(t, client, rows, now, k);
        lemma_cells_at(after, k);
        assert(after[i].cells.len() > 0);
        lemma_cells_at(t, k);
        let j = choose|j: int| 0 <= j < t.len() && (#[trigger] t[j]).key == k;
        if begins(prefix)(k) {
            assert(p(t[j].key));
            let m = choose|m: int| 0 <= m < found.len() && found[m] == t[j];
            assert(rows[m].key == k);
        }
    }
    assert forall|k: Seq<u8>| !begins(prefix)(k) implies #[trigger] cells_at(after, k) == cells_at(
        t,
        k,
    ) by {
        lemma_removed(t, client, rows, now, k);
    }
}

/// Conditions that agree on the keys of a table pick the same rows.
pub proof fn lemma_same_rows(
    t: Seq<RowView>,
    p: spec_fn(Seq<u8>) -> bool,
    q: spec_fn(Seq<u8>) -> bool,
)
    requires
        forall|i: int| 0 <= i < t.len() ==> (p((#[trigger] t[i]).key) <==> q(t[i].key)),
    ensures
        rows_where(t, p) == rows_where(t, q),
    decreases t.len(),
{
    if t.len() > 0 {
        let d = t.drop_last();
        assert forall|i: int| 0 <= i < d.len() implies (p((#[trigger] d[i]).key) <==> q(
            d[i].key,
        )) by {
            assert(d[i] == t[i]);
        }
        lemma_same_rows(d, p, q);
        assert(t.last() == t[t.len() - 1]);
    }
}

// ---------------------------------------------------------------------------
// New tables
// ---------------------------------------------------------------------------

/// The key of the row of a table in the catalog.
pub open spec fn table_key(account: Seq<char>, name: Seq<char>) -> Seq<char> {
    "table_meta:"@ + account + ":"@ + name
}

/// The catalog after the row of a new table was written.
pub open spec fn with_table(
    t: Seq<RowView>,
    client: BigtableClient,
    account: Seq<char>,
    name: Seq<char>,
    row: JsonView,
    now: int,
) -> Seq<RowView> {
    changed(t, catalog_mutation(client, table_key(account, name), record_mutations(row)), now)
}

/// The keys of records.
pub open spec fn record_keys(l: Seq<(Seq<char>, JsonView)>) -> Seq<Seq<char>> {
    l.map_values(|e: (Seq<char>, JsonView)| e.0)
}

/// The tables of an account that a listing gives.
pub open spec fn tables_listed(t: Seq<RowView>, table: Seq<char>, account: Seq<char>) -> Seq<
    Seq<char>,
> {
    let q = range_read(
        table,
        prefix_keys("table_meta:"@ + account + ":"@),
        0,
        FilterView::Limit(1),
        false,
    );
    table_page(tables_after(record_keys(records_found(answer(t, q))->Ok_0), None), None).0
}

/// Records of rows whose keys are text are found, each under its key.
proof fn lemma_records(rows: Seq<RowView>, i: int, v: JsonView)
    requires
        keyed_by_text(rows),
        0 <= i < rows.len(),
        record_cell(rows[i].cells) matches Some(c) && json_parsed(c.value) == reads_as(v),
    ensures
        records_found(rows) matches Ok(l) && l.contains((vstd::utf8::decode_utf8(rows[i].key), v)),
    decreases rows.len(),
{
    let d = rows.drop_last();
    assert forall|j: int| 0 <= j < d.len() implies vstd::utf8::valid_utf8((#[trigger] d[j]).key) by {
        assert(d[j] == rows[j]);
    }
    assert(vstd::utf8::valid_utf8(rows[rows.len() - 1].key));
    let e = (vstd::utf8::decode_utf8(rows[i].key), v);
    if i < d.len() {
        assert(d[i] == rows[i]);
        lemma_records(d, i, v);
        let l = records_found(d)->Ok_0;
        let j = choose|j: int| 0 <= j < l.len() && l[j] == e;
        assert(records_found(rows)->Ok_0[j] == e);
    } else {
        lemma_records_ok(d);
        let l = records_found(d)->Ok_0;
        assert(records_found(rows)->Ok_0 == l.push(e));
        assert(l.push(e)[l.len() as int] == e);
    }
}

proof fn lemma_records_ok(rows: Seq<RowView>)
    requires
        keyed_by_text(rows),
    ensures
        records_found(rows) is Ok,
    decreases rows.len(),
{
    if rows.len() > 0 {
        let d = rows.drop_last();
        assert forall|j: int| 0 <= j < d.len() implies vstd::utf8::valid_utf8(
            (#[trigger] d[j]).key,
        ) by {
            assert(d[j] == rows[j]);
        }
        assert(vstd::utf8::valid_utf8(rows[rows.len() - 1].key));
        lemma_records_ok(d);
    }
}

/// A table whose row is among those that a listing goes by is listed.
proof fn lemma_listed(keys: Seq<Seq<char>>, i: int, name: Seq<char>)
    requires
        0 <= i < keys.len(),
        rsplit_once(keys[i], ':') matches Some((_, last)) && last == name,
    ensures
        tables_after(keys, None).contains(name),
{
    lemma_key_tables(keys, i, name);
    let l = key_tables(keys);
    let s = in_text_order(l);
    text_order(l);
    vstd::seq_lib::to_multiset_contains(l, (name, ()));
    vstd::seq_lib::to_multiset_contains(s, (name, ()));
    let j = choose|j: int| 0 <= j < s.len() && s[j] == (name, ());
    assert(firsts(s)[j] == name);
}

proof fn lemma_key_tables(keys: Seq<Seq<char>>, i: int, name: Seq<char>)
    requires
        0 <= i < keys.len(),
        rsplit_once(keys[i], ':') matches Some((_, last)) && last == name,
    ensures
        key_tables(keys).contains((name, ())),
    decreases keys.len(),
{
    let d = keys.drop_last();
    let rest = key_tables(d);
    if i < d.len() {
        assert(d[i] == keys[i]);
        lemma_key_tables(d, i, name);
        let j = choose|j: int| 0 <= j < rest.len() && rest[j] == (name, ());
        assert(key_tables(keys)[j] == (name, ()));
    } else {
        assert(rest.push((name, ()))[rest.len() as int] == (name, ()));
    }
}

/// The last part of the key of a table's row is its name, where that holds no
/// colon.
proof fn lemma_table_key(account: Seq<char>, name: Seq<char>)
    requires
        !name.contains(':'),
    ensures
        rsplit_once(table_key(account, name), ':') matches Some((_, last)) && last == name,
{
    reveal_strlit(":");
    let s = table_key(account, name);
    let i = s.len() - name.len() - 1;
    assert(s[i] == ':');
    assert forall|j: int| i < j < s.len() implies s[j] != ':' by {
        assert(s[j] == name[j - i - 1]);
        assert(name.contains(name[j - i - 1]));
    }
    crate::text::lemma_last_index_is(s, ':', i);
    assert(s.skip(i + 1) =~= name);
}

/// A table that was created is there: a read of its row gives the row that was
/// written, which says what the table was made with, so that it is described by
/// it and not created again; a listing of its account holds its name; and all
/// other rows of the catalog are as they were.
#[verifier::rlimit(40)]
pub proof fn new_tables_are_known(
    t: Seq<RowView>,
    client: BigtableClient,
    account: Seq<char>,
    name: Seq<char>,
    description: JsonView,
    data_table: Seq<char>,
    now: int,
)
    requires
        is_table(t),
        keyed_by_text(t),
        !name.contains(':'),
        json_parsed(json_bytes(new_table_row(description, data_table))) == reads_as(
            new_table_row(description, data_table),
        ),
    ensures
        ({
            let row = new_table_row(description, data_table);
            let key = table_key(account, name);
            let after = with_table(t, client, account, name, row, now);
            let table = table_path(client.project_id@, client.instance_id@, CATALOG_TABLE@);
            &&& record_found(answer(after, record_read(client, key))) == Some(row)
            &&& table_row(Some(row), name) == Ok::<TableRowView, ErrView>(
                TableRowView { data_table, description, ttl_attr: None },
            )
            &&& tables_listed(after, table, account).contains(name)
            &&& forall|k: Seq<u8>|
                k != encode_utf8(key) ==> #[trigger] cells_at(after, k) == cells_at(t, k)
        }),
{
    let row = new_table_row(description, data_table);
    let key = table_key(account, name);
    let k = encode_utf8(key);
    let m = catalog_mutation(client, key, record_mutations(row));
    let after = with_table(t, client, account, name, row, now);
    let table = table_path(client.project_id@, client.instance_id@, CATALOG_TABLE@);
    crate::tables::new_table_reads_back(description, data_table, name);
    changes_touch_one_row(t, m, now, k);
    lemma_record_cell(cells_at(t, k), row, now);
    let cells = cells_at(after, k);
    assert(cells.len() > 0);
    lemma_answer_key(after, record_read(client, key), k);
    assert forall|o: Seq<u8>| o != k implies #[trigger] cells_at(after, o) == cells_at(t, o) by {
        changes_touch_one_row(t, m, now, o);
    }
    lemma_text_keys_kept(t, key, after);
    // The row is among those that a listing goes by.
    let prefix = "table_meta:"@ + account + ":"@;
    let q = range_read(table, prefix_keys(prefix), 0, FilterView::Limit(1), false);
    let p = asks(q);
    let found = rows_where(after, p);
    lemma_matching(after, q);
    lemma_rows_where(after, p);
    lemma_cells_at(after, k);
    let j = choose|j: int| 0 <= j < after.len() && (#[trigger] after[j]).key == k;
    lemma_one_range(q, prefix_keys(prefix), k);
    prefix_scan_exact(prefix, key);
    crate::text::lemma_encode_concat(prefix, name);
    assert(key == prefix + name);
    assert((encode_utf8(prefix) + encode_utf8(name)).subrange(0, encode_utf8(prefix).len() as int)
        =~= encode_utf8(prefix));
    assert(p(after[j].key));
    let i = choose|i: int| 0 <= i < found.len() && found[i] == after[j];
    let rows = answer(after, q);
    assert(rows == shown_all(found, q.filter));
    assert forall|n: int| 0 <= n < rows.len() implies vstd::utf8::valid_utf8(
        (#[trigger] rows[n]).key,
    ) by {
        assert(rows[n].key == found[n].key);
        let x = choose|x: int| 0 <= x < after.len() && after[x] == found[n];
        assert(vstd::utf8::valid_utf8(after[x].key));
    }
    assert(rows[i].cells == newest(cells, 1));
    lemma_records(rows, i, row);
    vstd::utf8::encode_utf8_decode_utf8(key);
    let l = records_found(rows)->Ok_0;
    let n = choose|n: int| 0 <= n < l.len() && l[n] == (key, row);
    assert(record_keys(l)[n] == key);
    lemma_table_key(account, name);
    lemma_listed(record_keys(l), n, name);
}

/// A row that a record was written to holds it.
pub proof fn lemma_record_cell(row: Seq<CellView>, value: JsonView, now: int)
    ensures
        applied(row, record_mutations(value), now).len() > 0,
        record_cell(newest(applied(row, record_mutations(value), now), 1)) matches Some(c)
            && c.value == json_bytes(value),
{
    let m = record_mutations(value);
    let q = encode_utf8(QUALIFIER@);
    let c = CellView { family: CF@, qualifier: q, value: json_bytes(value), timestamp: now };
    assert(m.drop_last() =~= Seq::<MutView>::empty());
    assert(applied(row, m.drop_last(), now) == row);
    let after = applied(row, m, now);
    assert(after == seq![c] + row);
    lemma_newest_of_concat(seq![c], row, CF@, q);
    assert(seq![c].drop_last() =~= Seq::<CellView>::empty());
    assert(newest_of(seq![c].drop_last(), CF@, q) is None);
    lemma_newest_of_newest(after, CF@, q);
}

/// A table whose rows, but for one with a text as key, were there before is keyed
/// by text if it was before.
proof fn lemma_text_keys_kept(t: Seq<RowView>, key: Seq<char>, after: Seq<RowView>)
    requires
        is_table(t),
        is_table(after),
        keyed_by_text(t),
        forall|k: Seq<u8>|
            k != encode_utf8(key) ==> #[trigger] cells_at(after, k) == cells_at(t, k),
    ensures
        keyed_by_text(after),
{
    assert forall|i: int| 0 <= i < after.len() implies vstd::utf8::valid_utf8(
        (#[trigger] after[i]).key,
    ) by {
        let k = after[i].key;
        if k == encode_utf8(key) {
            vstd::utf8::encode_utf8_valid_utf8(key);
        } else {
            lemma_cells_at(after, k);
            lemma_cells_at(t, k);
            assert(after[i].cells.len() > 0);
            assert(cells_at(after, k) == cells_at(t, k));
            let j = choose|j: int| 0 <= j < t.len() && (#[trigger] t[j]).key == k;
            assert(vstd::utf8::valid_utf8(t[j].key));
        }
    }
}

} // verus!

//! What queries and scans of whole tables and indexes give, page by page.

use vstd::prelude::*;
use vstd::utf8::encode_utf8;

use crate::bigtable::{
    applied, in_range, newest, row_deletion, BigtableClient, CellView, MutView, MutateView,
    RangeView, ReadView, RowView,
};
use crate::bytes::{
    lex_asymmetric, lex_common_prefix, lex_le, lex_lt, lex_lt_at, lex_total, lex_transitive,
    lex_witness,
};
use crate::error::ErrView;
use crate::filter::{matches_row, FilterView};
use crate::gsi::{
    base_part, escape_preserves_order, escape_preserves_prefix, escaped, escaped_below,
    escaped_terminated, index_sort_order, projected, projection_keeps_keys, shadow_key,
    shadow_table,
};
use crate::item_ops::{
    cells_hold, guarded, item_readable, lemma_key_nonempty, put_effect, put_mutations,
    replace_effect, row_item, ItemOps,
};
use crate::number::{encoding_prefix_free, encoding_preserves_order, parse_number};
use crate::query_scan::{
    behind_key, bounded, bounds_by, compares, directed, expr_value, index_bounds, index_query_read,
    index_scan_read, items_in, lemma_behind_key, lemma_key_name_found, lemma_text_bytes,
    limit_or_none, number_compares, path_name, prefix_part, query_bounds, query_read, query_result,
    resumed, resumes_backward, resumes_forward, scan_read, scan_result, sort_part, CompareOp,
    CondView, ExprView, PageView, PathElement,
};
use crate::row_key::{
    delimited, item_part, key_part, lemma_partition, part_fits, partition_end, partition_range,
    partition_start, prefix_range, row_key, upper_trailer,
};
use crate::shadows::{
    change_request_views, change_view, opt_shadow_key, shadow_change, shadow_deletion,
};
use crate::stored::{
    answer, asks, cells_at, changed, changed_all, changes_touch_one_row, check_applied, is_table,
    item_of, items_of, lemma_changed_rows, lemma_matching, lemma_one_range, lemma_rows_tail,
    lemma_rows_where, lemma_same_rows, rows_where, shown_all,
};
use crate::table::IndexView;
use crate::transact::{PartMutView, PartView, PayloadView};
use crate::value::{
    item_sorted, key_attributes, key_attributes_lookup, key_name, lookup, AttrView, ItemView,
    KeyType, SchemaView,
};

verus! {

// ---------------------------------------------------------------------------
// Tables of items
// ---------------------------------------------------------------------------

/// Whether a row holds an item that has an attribute.
pub open spec fn shows_item(r: RowView) -> bool {
    row_item(newest(r.cells, 1)) matches Ok(x) && x.len() > 0
}

/// Whether every row of a table holds an item that has an attribute.
pub open spec fn shows_items(t: Seq<RowView>) -> bool {
    is_table(t) && forall|i: int| 0 <= i < t.len() ==> shows_item(#[trigger] t[i])
}

/// Whether a row holds an item, and has its key.
pub open spec fn holds_item(r: RowView, schema: SchemaView) -> bool {
    row_item(newest(r.cells, 1)) matches Ok(x) && row_key(x, schema) == Ok::<Seq<u8>, ErrView>(
        r.key,
    )
}

/// Whether every row of a table holds an item, and has its key.
pub open spec fn holds_items(t: Seq<RowView>, schema: SchemaView) -> bool {
    is_table(t) && forall|i: int| 0 <= i < t.len() ==> holds_item(#[trigger] t[i], schema)
}

/// Whether a row is an entry of an index: it holds what is kept of an item, and
/// has the key of its entry.
pub open spec fn holds_entry(r: RowView, gsi: SchemaView, base: SchemaView) -> bool {
    row_item(newest(r.cells, 1)) matches Ok(x) && shadow_key(x, gsi, base) == Ok::<
        Option<Seq<u8>>,
        ErrView,
    >(Some(r.key))
}

/// Whether every row of a shadow table is an entry of the index.
pub open spec fn holds_entries(t: Seq<RowView>, gsi: SchemaView, base: SchemaView) -> bool {
    is_table(t) && forall|i: int| 0 <= i < t.len() ==> holds_entry(#[trigger] t[i], gsi, base)
}

proof fn lemma_items_shown(t: Seq<RowView>, schema: SchemaView)
    requires
        holds_items(t, schema),
    ensures
        shows_items(t),
{
    assert forall|i: int| 0 <= i < t.len() implies shows_item(#[trigger] t[i]) by {
        assert(holds_item(t[i], schema));
        lemma_key_nonempty(item_of(t[i]), schema);
    }
}

proof fn lemma_entries_shown(t: Seq<RowView>, gsi: SchemaView, base: SchemaView)
    requires
        holds_entries(t, gsi, base),
    ensures
        shows_items(t),
{
    assert forall|i: int| 0 <= i < t.len() implies shows_item(#[trigger] t[i]) by {
        assert(holds_entry(t[i], gsi, base));
        if item_of(t[i]).len() == 0 {
            assert(lookup(item_of(t[i]), key_name(gsi, KeyType::Hash)->0) is None);
        }
    }
}

/// The items of rows that hold items.
proof fn lemma_items(rows: Seq<RowView>)
    requires
        forall|i: int| 0 <= i < rows.len() ==> shows_item(#[trigger] rows[i]),
    ensures
        items_in(shown_all(rows, FilterView::Limit(1)), 1, 0) == Ok::<Seq<ItemView>, ErrView>(
            items_of(rows),
        ),
    decreases rows.len(),
{
    let f = FilterView::Limit(1);
    let s = shown_all(rows, f);
    if rows.len() > 0 {
        let d = rows.drop_last();
        assert forall|i: int| 0 <= i < d.len() implies shows_item(#[trigger] d[i]) by {
            assert(d[i] == rows[i]);
        }
        lemma_items(d);
        assert(s.drop_last() =~= shown_all(d, f));
        assert(shows_item(rows[rows.len() - 1]));
        assert(items_of(rows) =~= items_of(d).push(item_of(rows.last())));
    } else {
        assert(items_of(rows) =~= Seq::<ItemView>::empty());
    }
}

/// The key attributes of an item have the row key of the item.
pub proof fn keys_address_items(item: ItemView, schema: SchemaView)
    ensures
        row_key(key_attributes(item, schema), schema) == row_key(item, schema),
{
    if let Some(n) = key_name(schema, KeyType::Hash) {
        lemma_key_name_found(schema, KeyType::Hash, n);
        key_attributes_lookup(item, schema, n);
    }
    if let Some(n) = key_name(schema, KeyType::Range) {
        lemma_key_name_found(schema, KeyType::Range, n);
        key_attributes_lookup(item, schema, n);
    }
}

/// The attributes of an item that an entry's key is made of have the key of the
/// item's entry.
pub proof fn keys_address_entries(item: ItemView, gsi: SchemaView, base: SchemaView)
    ensures
        shadow_key(key_attributes(item, gsi + base), gsi, base) == shadow_key(item, gsi, base),
{
    lemma_entry_lookup(item, gsi, base, KeyType::Hash);
    lemma_entry_lookup(item, gsi, base, KeyType::Range);
}

proof fn lemma_entry_lookup(item: ItemView, gsi: SchemaView, base: SchemaView, part: KeyType)
    ensures
        key_name(gsi, part) matches Some(n) ==> lookup(key_attributes(item, gsi + base), n)
            == lookup(item, n),
        key_name(base, part) matches Some(n) ==> lookup(key_attributes(item, gsi + base), n)
            == lookup(item, n),
{
    let all = gsi + base;
    if let Some(n) = key_name(gsi, part) {
        lemma_key_name_found(gsi, part, n);
        let i = choose|i: int| 0 <= i < gsi.len() && (#[trigger] gsi[i]).0 == n;
        assert(all[i].0 == n);
        key_attributes_lookup(item, all, n);
    }
    if let Some(n) = key_name(base, part) {
        lemma_key_name_found(base, part, n);
        let i = choose|i: int| 0 <= i < base.len() && (#[trigger] base[i]).0 == n;
        assert(all[gsi.len() + i].0 == n);
        key_attributes_lookup(item, all, n);
    }
}

/// A guarded put leaves a table of items one, whether it goes through or not.
pub proof fn puts_keep_items(
    t: Seq<RowView>,
    ops: ItemOps,
    item: ItemView,
    schema: SchemaView,
    cutoff: int,
    expected: Option<nat>,
    conditional: bool,
    version: u64,
    now: int,
)
    requires
        holds_items(t, schema),
        row_key(item, schema) is Ok,
        item_sorted(item),
        item_readable(item),
        cells_hold(item),
    ensures
        holds_items(
            check_applied(
                t,
                guarded(
                    ops.full_table_name@,
                    ops.client.profile(),
                    row_key(item, schema)->Ok_0,
                    cutoff,
                    expected,
                    conditional,
                    put_mutations(item, version as nat),
                ).request,
                now,
            ),
            schema,
        ),
{
    let k = row_key(item, schema)->Ok_0;
    let c = guarded(
        ops.full_table_name@,
        ops.client.profile(),
        k,
        cutoff,
        expected,
        conditional,
        put_mutations(item, version as nat),
    ).request;
    let mutations = if matches_row(c.predicate, cells_at(t, k)) {
        c.if_true
    } else {
        c.if_false
    };
    let q = MutateView { table: c.table, profile: c.profile, key: k, mutations };
    let after = changed(t, q, now);
    lemma_changed_rows(t, q, now);
    lemma_key_nonempty(item, schema);
    put_effect(cells_at(t, k), item, version as nat, now);
    assert forall|i: int| 0 <= i < after.len() implies holds_item(#[trigger] after[i], schema) by {
        let r = after[i];
        if r.key == k && !matches_row(c.predicate, cells_at(t, k)) {
            assert(r.cells == applied(cells_at(t, k), put_mutations(item, version as nat), now));
        } else {
            if r.key == k {
                assert(r.cells == cells_at(t, k));
                assert(r.cells.len() > 0);
                lemma_row_at(t, k);
                assert(t.contains(r));
            }
            let j = choose|j: int| 0 <= j < t.len() && t[j] == r;
            assert(holds_item(t[j], schema));
        }
    }
}

/// Where there are cells there is a row.
proof fn lemma_row_at(t: Seq<RowView>, key: Seq<u8>)
    requires
        cells_at(t, key).len() > 0,
    ensures
        t.contains((RowView { key, cells: cells_at(t, key) })),
    decreases t.len(),
{
    let r = RowView { key, cells: cells_at(t, key) };
    let n = t.len() - 1;
    if t.last().key == key {
        assert(t[n] == r);
    } else {
        let d = t.drop_last();
        lemma_row_at(d, key);
        let j = choose|j: int| 0 <= j < d.len() && d[j] == r;
        assert(t[j] == r);
    }
}

/// A change of a row that writes an entry or takes it away leaves a shadow table
/// one of entries.
proof fn lemma_entry_change(
    t: Seq<RowView>,
    client: BigtableClient,
    c: PartMutView,
    gsi: SchemaView,
    base: SchemaView,
    now: int,
)
    requires
        holds_entries(t, gsi, base),
        c.payload matches PayloadView::Put { item } ==> {
            &&& item_sorted(item)
            &&& item_readable(item)
            &&& cells_hold(item)
            &&& shadow_key(item, gsi, base) == Ok::<Option<Seq<u8>>, ErrView>(
                Some(c.participant.key),
            )
        },
    ensures
        holds_entries(changed(t, change_view(client, c), now), gsi, base),
        c.payload matches PayloadView::Put { item } ==> row_item(
            newest(cells_at(changed(t, change_view(client, c), now), c.participant.key), 1),
        ) == Ok::<ItemView, ErrView>(item),
        c.payload is Delete ==> cells_at(
            changed(t, change_view(client, c), now),
            c.participant.key,
        ).len() == 0,
{
    let q = change_view(client, c);
    let after = changed(t, q, now);
    let row = cells_at(t, q.key);
    lemma_changed_rows(t, q, now);
    changes_touch_one_row(t, q, now, q.key);
    match c.payload {
        PayloadView::Put { item } => {
            replace_effect(row, item, now);
        },
        PayloadView::Delete => {
            assert(row_deletion().drop_last() =~= Seq::<MutView>::empty());
            assert(applied(row, row_deletion(), now) =~= Seq::<CellView>::empty());
        },
    }
    assert forall|i: int| 0 <= i < after.len() implies holds_entry(#[trigger] after[i], gsi, base) by {
        let r = after[i];
        assert(r.cells.len() > 0);
        if r.key != q.key {
            let j = choose|j: int| 0 <= j < t.len() && t[j] == r;
            assert(holds_entry(t[j], gsi, base));
        }
    }
}

/// What follows a write in the shadow table of an index leaves it one of entries.
/// Then the new item has its entry, with what the index keeps of it, and the old
/// one has none where its key in the index was another.
#[verifier::rlimit(40)]
pub proof fn changes_keep_entries(
    t: Seq<RowView>,
    client: BigtableClient,
    new: Option<ItemView>,
    old: Option<ItemView>,
    g: IndexView,
    base: SchemaView,
    data_table: Seq<char>,
    now: int,
)
    requires
        holds_entries(t, g.schema, base),
        shadow_change(new, old, g, base, data_table) is Ok,
        new matches Some(x) ==> {
            let p = projected(x, g.projection, base, g.schema);
            item_sorted(p) && item_readable(p) && cells_hold(p)
        },
    ensures
        ({
            let after = changed_all(
                t,
                change_request_views(client, shadow_change(new, old, g, base, data_table)->Ok_0),
                now,
            );
            let new_key = opt_shadow_key(new, g, base)->Ok_0;
            let old_key = opt_shadow_key(old, g, base)->Ok_0;
            &&& holds_entries(after, g.schema, base)
            &&& new_key matches Some(k) ==> row_item(newest(cells_at(after, k), 1)) == Ok::<
                ItemView,
                ErrView,
            >(projected(new->0, g.projection, base, g.schema))
            &&& old_key is Some && new_key != old_key ==> cells_at(after, old_key->0).len() == 0
        }),
{
    let new_key = opt_shadow_key(new, g, base)->Ok_0;
    let old_key = opt_shadow_key(old, g, base)->Ok_0;
    let table = shadow_table(data_table, g.name);
    let goes = old_key is Some && new_key != old_key;
    let gone = shadow_deletion(table, old_key->0);
    let put = PartMutView {
        participant: PartView { table, key: new_key->0 },
        payload: PayloadView::Put { item: projected(new->0, g.projection, base, g.schema) },
    };
    let t1 = if goes {
        changed(t, change_view(client, gone), now)
    } else {
        t
    };
    lemma_changes_made(t, client, gone, put, now);
    if goes {
        lemma_entry_change(t, client, gone, g.schema, base, now);
    }
    if new_key is Some {
        projection_keeps_keys(new->0, g.projection, g.schema, base);
        lemma_entry_change(t1, client, put, g.schema, base, now);
        if goes {
            changes_touch_one_row(t1, change_view(client, put), now, old_key->0);
        }
    }
}

/// No change, one change and two changes of a table.
proof fn lemma_changes_made(
    t: Seq<RowView>,
    client: BigtableClient,
    a: PartMutView,
    b: PartMutView,
    now: int,
)
    ensures
        changed_all(t, change_request_views(client, Seq::empty()), now) == t,
        changed_all(t, change_request_views(client, seq![a]), now) == changed(
            t,
            change_view(client, a),
            now,
        ),
        changed_all(t, change_request_views(client, Seq::empty().push(b)), now) == changed(
            t,
            change_view(client, b),
            now,
        ),
        changed_all(t, change_request_views(client, seq![a].push(b)), now) == changed(
            changed(t, change_view(client, a), now),
            change_view(client, b),
            now,
        ),
{
    let none = Seq::<MutateView>::empty();
    let (p, q) = (change_view(client, a), change_view(client, b));
    reveal_with_fuel(changed_all, 3);
    assert(change_request_views(client, Seq::empty()) =~= none);
    assert(change_request_views(client, seq![a]) =~= seq![p]);
    assert(change_request_views(client, Seq::empty().push(b)) =~= seq![q]);
    assert(change_request_views(client, seq![a].push(b)) =~= seq![p, q]);
    assert(seq![p].drop_last() =~= none);
    assert(seq![q].drop_last() =~= none);
    assert(seq![p, q].drop_last() =~= seq![p]);
}

// ---------------------------------------------------------------------------
// Pages
// ---------------------------------------------------------------------------

/// Where a page ends that begins behind the first `i` of `n` items.
pub open spec fn page_end(n: int, i: int, limit: Option<i64>) -> int {
    match limit {
        Some(l) => if i + l < n {
            i + l
        } else {
            n
        },
        None => n,
    }
}

/// Where a reader goes on who has seen the first `i` items: with the key of the
/// last of them.
pub open spec fn seen(
    items: Seq<ItemView>,
    key: spec_fn(ItemView) -> ItemView,
    i: int,
) -> Option<ItemView> {
    if i == 0 {
        None
    } else {
        Some(key(items[i - 1]))
    }
}

/// The page for a reader who has seen the first `i` items. It ends with the key of
/// its last item if, and only if, it has as many items as the limit says.
pub open spec fn page_at(
    items: Seq<ItemView>,
    key: spec_fn(ItemView) -> ItemView,
    limit: Option<i64>,
    i: int,
) -> PageView {
    let e = page_end(items.len() as int, i, limit);
    (
        items.subrange(i, e),
        if limit matches Some(l) && e - i == l {
            seen(items, key, e)
        } else {
            None
        },
    )
}

/// Pages one after the other, each going on with the key that the one before ended
/// with; nothing where more than `pages` come after the first.
pub open spec fn pages_joined(
    page: spec_fn(Option<ItemView>) -> Result<PageView, ErrView>,
    start: Option<ItemView>,
    pages: nat,
) -> Option<Seq<ItemView>>
    decreases pages,
{
    match page(start) {
        Err(_) => None,
        Ok((items, None)) => Some(items),
        Ok((items, Some(key))) => if pages == 0 {
            None
        } else {
            match pages_joined(page, Some(key), (pages - 1) as nat) {
                None => None,
                Some(rest) => Some(items + rest),
            }
        },
    }
}

/// Pages that follow each other, joined, are all items.
proof fn lemma_pages(
    page: spec_fn(Option<ItemView>) -> Result<PageView, ErrView>,
    items: Seq<ItemView>,
    key: spec_fn(ItemView) -> ItemView,
    limit: i64,
    i: int,
    pages: nat,
)
    requires
        limit >= 1,
        0 <= i <= items.len(),
        pages >= items.len() - i,
        forall|j: int|
            0 <= j <= items.len() ==> page(#[trigger] seen(items, key, j)) == Ok::<
                PageView,
                ErrView,
            >(page_at(items, key, Some(limit), j)),
    ensures
        pages_joined(page, seen(items, key, i), pages) == Some(items.skip(i)),
    decreases pages,
{
    let e = page_end(items.len() as int, i, Some(limit));
    assert(page(seen(items, key, i)) == Ok::<PageView, ErrView>(
        page_at(items, key, Some(limit), i),
    ));
    if e - i == limit {
        lemma_pages(page, items, key, limit, e, (pages - 1) as nat);
        assert(items.skip(i) =~= items.subrange(i, e) + items.skip(e));
    } else {
        assert(items.skip(i) =~= items.subrange(i, e));
    }
}

/// The condition that a key is in a range.
pub open spec fn within(range: RangeView) -> spec_fn(Seq<u8>) -> bool {
    |k: Seq<u8>| in_range(k, range)
}

/// Rows in the direction of a read.
pub open spec fn directed_rows(rows: Seq<RowView>, forward: bool) -> Seq<RowView> {
    if forward {
        rows
    } else {
        rows.reverse()
    }
}

/// A condition within a condition picks of the rows that the latter picks.
proof fn lemma_rows_within(
    t: Seq<RowView>,
    outer: spec_fn(Seq<u8>) -> bool,
    inner: spec_fn(Seq<u8>) -> bool,
    both: spec_fn(Seq<u8>) -> bool,
)
    requires
        forall|i: int|
            0 <= i < t.len() ==> (both((#[trigger] t[i]).key) <==> outer(t[i].key) && inner(
                t[i].key,
            )),
    ensures
        rows_where(t, both) == rows_where(rows_where(t, outer), inner),
    decreases t.len(),
{
    if t.len() > 0 {
        let d = t.drop_last();
        assert forall|i: int| 0 <= i < d.len() implies (both((#[trigger] d[i]).key) <==> outer(
            d[i].key,
        ) && inner(d[i].key)) by {
            assert(d[i] == t[i]);
        }
        lemma_rows_within(d, outer, inner, both);
        assert(t.last() == t[t.len() - 1]);
        let r = rows_where(d, outer);
        assert(r.push(t.last()).drop_last() =~= r);
        assert(r.push(t.last()).last() == t.last());
    }
}

/// Where a condition holds up to a row, the rows that meet it are those up to
/// there.
proof fn lemma_rows_head(t: Seq<RowView>, p: spec_fn(Seq<u8>) -> bool, i: int)
    requires
        0 <= i <= t.len(),
        forall|j: int| 0 <= j < t.len() ==> (p((#[trigger] t[j]).key) <==> j < i),
    ensures
        rows_where(t, p) == t.take(i),
    decreases t.len(),
{
    if t.len() > 0 {
        let d = t.drop_last();
        let k = if i == t.len() {
            i - 1
        } else {
            i
        };
        assert forall|j: int| 0 <= j < d.len() implies (p((#[trigger] d[j]).key) <==> j < k) by {
            assert(d[j] == t[j]);
        }
        lemma_rows_head(d, p, k);
        assert(t.last() == t[t.len() - 1]);
        if i == t.len() {
            assert(t.take(i) =~= d.take(k).push(t.last()));
        } else {
            assert(t.take(i) =~= d.take(k));
        }
    } else {
        assert(t.take(i) =~= rows_where(t, p));
    }
}

/// In a table a key is behind another exactly where its row is.
proof fn lemma_row_order(t: Seq<RowView>, i: int, j: int)
    requires
        is_table(t),
        0 <= i < t.len(),
        0 <= j < t.len(),
    ensures
        lex_lt(t[i].key, t[j].key) <==> i < j,
{
    if i < j {
        assert(lex_lt(t[i].key, t[j].key));
    } else {
        if j < i {
            assert(lex_lt(t[j].key, t[i].key));
        }
        lex_asymmetric(t[i].key, t[j].key);
    }
}

/// What a read of the newest cells of the rows in a range gives.
proof fn lemma_answer(t: Seq<RowView>, q: ReadView, rows: Seq<RowView>, forward: bool)
    requires
        is_table(t),
        q.filter == FilterView::Limit(1),
        q.reversed == !forward,
        q.limit >= 0,
        rows_where(t, asks(q)) == rows,
    ensures
        ({
            let d = directed_rows(rows, forward);
            answer(t, q) == shown_all(
                if 0 < q.limit < d.len() {
                    d.take(q.limit)
                } else {
                    d
                },
                q.filter,
            )
        }),
{
    lemma_matching(t, q);
    let d = directed_rows(rows, forward);
    if !forward {
        assert(shown_all(rows, q.filter).reverse() =~= shown_all(d, q.filter));
    }
    assert(shown_all(d, q.filter).len() == d.len());
    if 0 < q.limit < d.len() {
        assert(shown_all(d, q.filter).take(q.limit) =~= shown_all(d.take(q.limit), q.filter));
    }
}

/// The rows that are left of those in a range for a reader who has seen the first
/// `i` in one direction.
proof fn lemma_rows_left(
    t: Seq<RowView>,
    q: ReadView,
    b: (Seq<u8>, Seq<u8>, bool),
    forward: bool,
    i: int,
)
    requires
        is_table(t),
        ({
            let rows = rows_where(t, within(bounded(b.0, b.1, b.2)));
            let d = directed_rows(rows, forward);
            &&& 0 <= i <= rows.len()
            &&& q.keys.len() == 0
            &&& q.ranges == seq![
                resumed(
                    b,
                    forward,
                    if i == 0 {
                        None
                    } else {
                        Some(d[i - 1].key)
                    },
                ),
            ]
        }),
    ensures
        ({
            let rows = rows_where(t, within(bounded(b.0, b.1, b.2)));
            rows_where(t, asks(q)) == if forward {
                rows.skip(i)
            } else {
                rows.take(rows.len() - i)
            }
        }),
{
    let whole = within(bounded(b.0, b.1, b.2));
    let rows = rows_where(t, whole);
    let d = directed_rows(rows, forward);
    let n = rows.len() as int;
    let range = q.ranges[0];
    lemma_rows_where(t, whole);
    if i == 0 {
        assert forall|j: int| 0 <= j < t.len() implies (asks(q)((#[trigger] t[j]).key) <==> whole(
            t[j].key,
        )) by {
            lemma_one_range(q, range, t[j].key);
        }
        lemma_same_rows(t, asks(q), whole);
        assert(rows.skip(0) =~= rows);
        assert(rows.take(n) =~= rows);
    } else {
        let k = d[i - 1].key;
        let inner = if forward {
            |x: Seq<u8>| lex_lt(k, x)
        } else {
            |x: Seq<u8>| lex_lt(x, k)
        };
        let at = if forward {
            i - 1
        } else {
            n - i
        };
        assert(rows[at].key == k);
        assert(whole(k));
        assert forall|j: int| 0 <= j < t.len() implies (asks(q)((#[trigger] t[j]).key) <==> whole(
            t[j].key,
        ) && inner(t[j].key)) by {
            lemma_one_range(q, range, t[j].key);
            if forward {
                resumes_forward(b, k, t[j].key);
            } else {
                resumes_backward(b, k, t[j].key);
            }
        }
        lemma_rows_within(t, whole, inner, asks(q));
        if forward {
            assert forall|j: int| 0 <= j < n implies (inner((#[trigger] rows[j]).key) <==> j >= i) by {
                lemma_row_order(rows, at, j);
            }
            lemma_rows_tail(rows, inner, i);
        } else {
            assert forall|j: int| 0 <= j < n implies (inner((#[trigger] rows[j]).key) <==> j < n
                - i) by {
                lemma_row_order(rows, j, at);
            }
            lemma_rows_head(rows, inner, n - i);
        }
    }
}

/// A page of the rows in a range, for a reader who has seen the first `i` in one
/// direction.
#[verifier::rlimit(40)]
proof fn lemma_range_page(
    t: Seq<RowView>,
    q: ReadView,
    b: (Seq<u8>, Seq<u8>, bool),
    forward: bool,
    limit: Option<i64>,
    i: int,
)
    requires
        shows_items(t),
        limit matches Some(l) ==> l >= 1,
        q.filter == FilterView::Limit(1),
        q.reversed == !forward,
        q.limit == limit_or_none(limit),
        q.keys.len() == 0,
        ({
            let rows = rows_where(t, within(bounded(b.0, b.1, b.2)));
            let d = directed_rows(rows, forward);
            &&& 0 <= i <= rows.len()
            &&& q.ranges == seq![
                resumed(
                    b,
                    forward,
                    if i == 0 {
                        None
                    } else {
                        Some(d[i - 1].key)
                    },
                ),
            ]
        }),
    ensures
        ({
            let rows = rows_where(t, within(bounded(b.0, b.1, b.2)));
            let d = items_of(directed_rows(rows, forward));
            items_in(answer(t, q), 1, 0) == Ok::<Seq<ItemView>, ErrView>(
                d.subrange(i, page_end(d.len() as int, i, limit)),
            )
        }),
{
    let whole = within(bounded(b.0, b.1, b.2));
    let rows = rows_where(t, whole);
    let d = directed_rows(rows, forward);
    let n = rows.len() as int;
    let e = page_end(n, i, limit);
    let left = if forward {
        rows.skip(i)
    } else {
        rows.take(n - i)
    };
    lemma_rows_left(t, q, b, forward, i);
    lemma_answer(t, q, left, forward);
    let dl = directed_rows(left, forward);
    assert(dl =~= d.skip(i));
    let shown_rows = if 0 < q.limit < dl.len() {
        dl.take(q.limit)
    } else {
        dl
    };
    assert(shown_rows =~= d.subrange(i, e));
    lemma_rows_where(t, whole);
    assert forall|j: int| 0 <= j < shown_rows.len() implies shows_item(
        #[trigger] shown_rows[j],
    ) by {
        let at = if forward {
            i + j
        } else {
            n - 1 - i - j
        };
        assert(shown_rows[j] == rows[at]);
        let m = choose|m: int| 0 <= m < t.len() && t[m] == rows[at];
        assert(shows_item(t[m]));
    }
    lemma_items(shown_rows);
    assert(items_of(shown_rows) =~= items_of(d).subrange(i, e));
}

// ---------------------------------------------------------------------------
// Scans
// ---------------------------------------------------------------------------

/// The key with which a page of a scan ends.
pub open spec fn scan_key(schema: SchemaView) -> spec_fn(ItemView) -> ItemView {
    |x: ItemView| key_attributes(x, schema)
}

/// The key of the row before `i`.
pub open spec fn key_before(t: Seq<RowView>, i: int) -> Option<Seq<u8>> {
    if i == 0 {
        None
    } else {
        Some(t[i - 1].key)
    }
}

proof fn lemma_behind_row(t: Seq<RowView>, i: int, j: int)
    requires
        is_table(t),
        0 <= i <= t.len(),
        0 <= j < t.len(),
    ensures
        in_range(t[j].key, behind_key(key_before(t, i))) <==> j >= i,
{
    let key = t[j].key;
    if i == 0 {
        if key.len() > 0 {
            assert(lex_lt_at(Seq::<u8>::empty(), key, 0));
        } else {
            assert(key =~= Seq::<u8>::empty());
        }
    } else {
        lemma_behind_key(t[i - 1].key, key);
        lemma_row_order(t, i - 1, j);
    }
}

/// The items of a page of all rows, for a reader who has seen the first `i`.
proof fn lemma_scan_items(t: Seq<RowView>, q: ReadView, limit: Option<i64>, i: int)
    requires
        shows_items(t),
        limit matches Some(l) ==> l >= 1,
        q.filter == FilterView::Limit(1),
        !q.reversed,
        q.limit == limit_or_none(limit),
        q.keys.len() == 0,
        0 <= i <= t.len(),
        q.ranges == seq![behind_key(key_before(t, i))],
    ensures
        items_in(answer(t, q), 1, 0) == Ok::<Seq<ItemView>, ErrView>(
            items_of(t).subrange(i, page_end(t.len() as int, i, limit)),
        ),
{
    let range = q.ranges[0];
    let e = page_end(t.len() as int, i, limit);
    assert forall|j: int| 0 <= j < t.len() implies (asks(q)((#[trigger] t[j]).key) <==> j >= i) by {
        lemma_one_range(q, range, t[j].key);
        lemma_behind_row(t, i, j);
    }
    lemma_rows_tail(t, asks(q), i);
    lemma_answer(t, q, t.skip(i), true);
    let rows = if 0 < q.limit < t.skip(i).len() {
        t.skip(i).take(q.limit)
    } else {
        t.skip(i)
    };
    assert(rows =~= t.subrange(i, e));
    assert forall|j: int| 0 <= j < rows.len() implies shows_item(#[trigger] rows[j]) by {
        assert(rows[j] == t[i + j]);
    }
    lemma_items(rows);
    assert(items_of(rows) =~= items_of(t).subrange(i, e));
}

/// The page that the items of a scan make.
proof fn lemma_scan_result(
    rows: Seq<RowView>,
    schema: SchemaView,
    limit: Option<i64>,
    items: Seq<ItemView>,
    i: int,
)
    requires
        limit matches Some(l) ==> l >= 1,
        0 <= i <= items.len(),
        items_in(rows, 1, 0) == Ok::<Seq<ItemView>, ErrView>(
            items.subrange(i, page_end(items.len() as int, i, limit)),
        ),
    ensures
        scan_result(rows, schema, limit, None, None) == Ok::<PageView, ErrView>(
            page_at(items, scan_key(schema), limit, i),
        ),
{
}

/// A page of a scan begins behind the items that were seen, misses none and
/// repeats none. It ends with the key of its last item if, and only if, it has as
/// many items as the limit says.
pub proof fn scan_page_follows(
    t: Seq<RowView>,
    table: Seq<char>,
    schema: SchemaView,
    limit: Option<i64>,
    i: int,
)
    requires
        holds_items(t, schema),
        limit matches Some(l) ==> l >= 1,
        0 <= i <= t.len(),
    ensures
        scan_read(table, schema, limit, seen(items_of(t), scan_key(schema), i)) matches Ok(q)
            && scan_result(answer(t, q), schema, limit, None, None) == Ok::<PageView, ErrView>(
            page_at(items_of(t), scan_key(schema), limit, i),
        ),
{
    if i > 0 {
        assert(holds_item(t[i - 1], schema));
        keys_address_items(item_of(t[i - 1]), schema);
    }
    let q = scan_read(table, schema, limit, seen(items_of(t), scan_key(schema), i))->Ok_0;
    lemma_items_shown(t, schema);
    lemma_scan_items(t, q, limit, i);
    lemma_scan_result(answer(t, q), schema, limit, items_of(t), i);
}

/// A page of a scan of an index begins behind the entries that were seen, misses
/// none and repeats none. It ends with the key of its last entry, which is that in
/// the index and that in the table, if, and only if, it has as many entries as the
/// limit says.
pub proof fn index_scan_page_follows(
    t: Seq<RowView>,
    table: Seq<char>,
    gsi: SchemaView,
    base: SchemaView,
    limit: Option<i64>,
    i: int,
)
    requires
        holds_entries(t, gsi, base),
        limit matches Some(l) ==> l >= 1,
        0 <= i <= t.len(),
    ensures
        index_scan_read(
            table,
            gsi,
            base,
            limit,
            seen(items_of(t), scan_key(gsi + base), i),
        ) matches Ok(q) && scan_result(answer(t, q), gsi + base, limit, None, None) == Ok::<
            PageView,
            ErrView,
        >(page_at(items_of(t), scan_key(gsi + base), limit, i)),
{
    if i > 0 {
        assert(holds_entry(t[i - 1], gsi, base));
        keys_address_entries(item_of(t[i - 1]), gsi, base);
    }
    let start = seen(items_of(t), scan_key(gsi + base), i);
    let q = index_scan_read(table, gsi, base, limit, start)->Ok_0;
    lemma_entries_shown(t, gsi, base);
    lemma_scan_items(t, q, limit, i);
    lemma_scan_result(answer(t, q), gsi + base, limit, items_of(t), i);
}

/// A page of a scan that goes on behind a key.
#[verifier::opaque]
pub open spec fn scan_page(
    t: Seq<RowView>,
    table: Seq<char>,
    schema: SchemaView,
    limit: Option<i64>,
) -> spec_fn(Option<ItemView>) -> Result<PageView, ErrView> {
    |start: Option<ItemView>|
        match scan_read(table, schema, limit, start) {
            Err(e) => Err(e),
            Ok(q) => scan_result(answer(t, q), schema, limit, None, None),
        }
}

/// A page of a scan of an index that goes on behind a key.
#[verifier::opaque]
pub open spec fn index_scan_page(
    t: Seq<RowView>,
    table: Seq<char>,
    gsi: SchemaView,
    base: SchemaView,
    limit: Option<i64>,
) -> spec_fn(Option<ItemView>) -> Result<PageView, ErrView> {
    |start: Option<ItemView>|
        match index_scan_read(table, gsi, base, limit, start) {
            Err(e) => Err(e),
            Ok(q) => scan_result(answer(t, q), gsi + base, limit, None, None),
        }
}

/// The pages of a scan, joined, are the whole scan: all items, in the order of
/// their row keys, none missing and none twice.
#[verifier::rlimit(40)]
pub proof fn pages_make_the_scan(
    t: Seq<RowView>,
    table: Seq<char>,
    schema: SchemaView,
    limit: i64,
)
    requires
        holds_items(t, schema),
        limit >= 1,
    ensures
        pages_joined(scan_page(t, table, schema, Some(limit)), None, t.len()) == Some(items_of(t)),
        scan_page(t, table, schema, None)(None) == Ok::<PageView, ErrView>((items_of(t), None)),
{
    reveal(scan_page);
    let items = items_of(t);
    let key = scan_key(schema);
    let page = scan_page(t, table, schema, Some(limit));
    assert forall|j: int| 0 <= j <= items.len() implies page(#[trigger] seen(items, key, j)) == Ok::<
        PageView,
        ErrView,
    >(page_at(items, key, Some(limit), j)) by {
        scan_page_follows(t, table, schema, Some(limit), j);
    }
    lemma_pages(page, items, key, limit, 0, t.len());
    assert(items.skip(0) =~= items);
    scan_page_follows(t, table, schema, None, 0);
    assert(items.subrange(0, t.len() as int) =~= items);
}

/// The pages of a scan of an index, joined, are the whole scan: all entries, in
/// the order of the index, none missing and none twice.
#[verifier::rlimit(40)]
pub proof fn pages_make_the_index_scan(
    t: Seq<RowView>,
    table: Seq<char>,
    gsi: SchemaView,
    base: SchemaView,
    limit: i64,
)
    requires
        holds_entries(t, gsi, base),
        limit >= 1,
    ensures
        pages_joined(index_scan_page(t, table, gsi, base, Some(limit)), None, t.len()) == Some(
            items_of(t),
        ),
        index_scan_page(t, table, gsi, base, None)(None) == Ok::<PageView, ErrView>(
            (items_of(t), None),
        ),
{
    reveal(index_scan_page);
    let items = items_of(t);
    let key = scan_key(gsi + base);
    let page = index_scan_page(t, table, gsi, base, Some(limit));
    assert forall|j: int| 0 <= j <= items.len() implies page(#[trigger] seen(items, key, j)) == Ok::<
        PageView,
        ErrView,
    >(page_at(items, key, Some(limit), j)) by {
        index_scan_page_follows(t, table, gsi, base, Some(limit), j);
    }
    lemma_pages(page, items, key, limit, 0, t.len());
    assert(items.skip(0) =~= items);
    index_scan_page_follows(t, table, gsi, base, None, 0);
    assert(items.subrange(0, t.len() as int) =~= items);
}

// ---------------------------------------------------------------------------
// Sort keys and conditions
// ---------------------------------------------------------------------------

/// Whether two values are of one type that keys can have.
pub open spec fn same_type(a: AttrView, b: AttrView) -> bool {
    match (a, b) {
        (AttrView::S(_), AttrView::S(_)) => true,
        (AttrView::N(_), AttrView::N(_)) => true,
        (AttrView::B(_), AttrView::B(_)) => true,
        _ => false,
    }
}

/// Whether values of one type meet a comparison: numbers by what they are worth,
/// texts by their UTF-8 bytes, bytes as they are.
pub open spec fn value_compares(op: CompareOp, a: AttrView, b: AttrView) -> bool {
    match (a, b) {
        (AttrView::N(x), AttrView::N(y)) => number_compares(
            op,
            parse_number(x)->Ok_0,
            parse_number(y)->Ok_0,
        ),
        (AttrView::S(x), AttrView::S(y)) => compares(op, encode_utf8(x), encode_utf8(y)),
        (AttrView::B(x), AttrView::B(y)) => compares(op, x, y),
        _ => false,
    }
}

/// Whether a text or bytes begin with others.
pub open spec fn value_begins(a: AttrView, b: AttrView) -> bool {
    match (a, b) {
        (AttrView::S(x), AttrView::S(y)) => encode_utf8(y).is_prefix_of(encode_utf8(x)),
        (AttrView::B(x), AttrView::B(y)) => y.is_prefix_of(x),
        _ => false,
    }
}

/// The value of an operand that can be a key.
pub open spec fn operand(e: ExprView) -> Option<AttrView> {
    match expr_value(e) {
        Ok(v) => if key_part(v) is Ok {
            Some(v)
        } else {
            None
        },
        Err(_) => None,
    }
}

/// Whether a condition is one that a query can put.
pub open spec fn well_formed(cond: CondView) -> bool {
    match cond {
        CondView::Compare { op, value } => op != CompareOp::Ne && operand(value) is Some,
        CondView::Between { low, high } => operand(low) is Some && operand(high) is Some,
        CondView::BeginsWith { prefix } => operand(prefix) matches Some(p) && !(p is N),
    }
}

/// Whether a sort key meets a condition.
pub open spec fn sort_meets(v: AttrView, cond: CondView) -> bool {
    match cond {
        CondView::Compare { op, value } => value_compares(op, v, operand(value)->0),
        CondView::Between { low, high } => value_compares(CompareOp::Ge, v, operand(low)->0)
            && value_compares(CompareOp::Le, v, operand(high)->0),
        CondView::BeginsWith { prefix } => value_begins(v, operand(prefix)->0),
    }
}

/// The bytes that a value has in row keys.
pub open spec fn key_bytes(v: AttrView) -> Seq<u8> {
    key_part(v)->Ok_0.1
}

/// Whether bytes continue others so that the trailer behind the others includes
/// them.
pub open spec fn continues(a: Seq<u8>, b: Seq<u8>) -> bool {
    b.is_prefix_of(a) && a != b && lex_le(a.skip(b.len() as int), upper_trailer())
}

/// Whether bytes that continue a prefix are included by the trailer behind it: in
/// row keys of a table the continuation stands as it is, in those of an index it
/// is escaped and more follows.
pub open spec fn within_trailer(a: Seq<u8>, b: Seq<u8>, index: bool) -> bool {
    b.is_prefix_of(a) ==> if index {
        !upper_trailer().is_prefix_of(a.skip(b.len() as int))
    } else {
        lex_le(a.skip(b.len() as int), upper_trailer())
    }
}

/// Whether the bounds of a condition decide on a sort key. The operands must be of
/// its type. In a table, where nothing ends a sort key, a text or bytes that continue
/// the operand are not told from it. The trailer behind a prefix includes what
/// continues it, but for bytes that go on with as many `0xFF` as the trailer has.
pub open spec fn decided(v: AttrView, cond: CondView, index: bool) -> bool {
    match cond {
        CondView::Compare { op, value } => {
            let o = operand(value)->0;
            &&& same_type(v, o)
            &&& op == CompareOp::Lt || op == CompareOp::Ge || v is N || index || !continues(
                key_bytes(v),
                key_bytes(o),
            )
        },
        CondView::Between { low, high } => {
            let (l, h) = (operand(low)->0, operand(high)->0);
            &&& same_type(v, l)
            &&& same_type(v, h)
            &&& v is N || index || !continues(key_bytes(v), key_bytes(h))
        },
        CondView::BeginsWith { prefix } => {
            let o = operand(prefix)->0;
            &&& same_type(v, o)
            &&& v is S || within_trailer(key_bytes(v), key_bytes(o), index)
        },
    }
}

/// Values of one type compare as their bytes do.
pub proof fn lemma_value_bytes(op: CompareOp, a: AttrView, b: AttrView)
    requires
        same_type(a, b),
        key_part(a) is Ok,
        key_part(b) is Ok,
    ensures
        key_part(a)->Ok_0.0 == key_part(b)->Ok_0.0,
        value_compares(op, a, b) == compares(op, key_bytes(a), key_bytes(b)),
{
    if let AttrView::N(x) = a {
        encoding_preserves_order(x, b->N_0);
        encoding_preserves_order(b->N_0, x);
    }
}

/// How a row key lies to the bound that an operand makes.
pub open spec fn placed(key: Seq<u8>, exact: Seq<u8>, a: Seq<u8>, b: Seq<u8>) -> bool {
    &&& lex_le(exact, key) <==> lex_le(b, a)
    &&& lex_lt(key, exact) <==> lex_lt(a, b)
}

/// How a row key lies to the bound that an operand makes, with the trailer.
pub open spec fn placed_behind(key: Seq<u8>, exact: Seq<u8>, a: Seq<u8>, b: Seq<u8>) -> bool {
    &&& lex_le(key, exact + upper_trailer()) <==> lex_le(a, b)
    &&& lex_le(exact + upper_trailer(), key) <==> lex_lt(b, a)
}

pub proof fn lemma_not_less(a: Seq<u8>, b: Seq<u8>)
    ensures
        lex_le(a, b) <==> !lex_lt(b, a),
{
    lex_total(a, b);
    lex_asymmetric(a, b);
    lex_asymmetric(b, a);
}

/// Row keys of a table lie to a bound as their sort keys lie to the operand.
proof fn lemma_table_placed(head: Seq<u8>, a: Seq<u8>, b: Seq<u8>)
    ensures
        placed(head + a, head + b, a, b),
        !continues(a, b) ==> placed_behind(head + a, head + b, a, b),
{
    let t = upper_trailer();
    lex_common_prefix(head, a, b);
    lemma_not_less(b, a);
    lemma_not_less(head + b, head + a);
    if !continues(a, b) {
        assert((head + b) + t =~= head + (b + t));
        lex_common_prefix(head, a, b + t);
        lex_common_prefix(head, b + t, a);
        lemma_not_less(head + a, head + (b + t));
        lemma_not_less(head + (b + t), head + a);
        lemma_not_less(a, b);
        if a == b {
            assert(lex_lt_at(a, b + t, a.len() as int));
            lex_asymmetric(a, b + t);
            lex_asymmetric(a, b);
        } else if lex_lt(a, b) {
            let i = lex_witness(a, b);
            assert(lex_lt_at(a, b + t, i));
            lex_asymmetric(a, b + t);
        } else {
            lex_total(a, b);
            prefix_range(b, a);
            if b.is_prefix_of(a) {
                lemma_not_less(a, b + t);
            } else {
                let i = lex_witness(b, a);
                if i == b.len() {
                    assert(a.subrange(0, i) =~= b);
                }
                assert(lex_lt_at(b + t, a, i));
            }
            lex_asymmetric(b + t, a);
        }
    }
}

/// Row keys of an index lie to a bound as their sort keys lie to the operand.
proof fn lemma_index_placed(head: Seq<u8>, a: Seq<u8>, b: Seq<u8>, q: Seq<u8>)
    requires
        q.len() > 0,
        q[0] < 0xFF,
    ensures
        placed(head + escaped_terminated(a) + q, head + escaped_terminated(b), a, b),
        placed_behind(head + escaped_terminated(a) + q, head + escaped_terminated(b), a, b),
{
    let t = upper_trailer();
    let none = Seq::<u8>::empty();
    let (ea, eb) = (escaped_terminated(a), escaped_terminated(b));
    let key = head + ea + q;
    let exact = head + eb;
    assert(key =~= head + (ea + q));
    assert(exact + t =~= head + (eb + t));
    assert(eb + none =~= eb);
    lemma_not_less(exact, key);
    lemma_not_less(key, exact + t);
    lemma_not_less(b, a);
    lemma_not_less(a, b);
    lemma_not_less(exact + t, key);
    lex_total(a, b);
    lex_asymmetric(a, b);
    lex_common_prefix(head, ea + q, eb);
    lex_common_prefix(head, eb, ea + q);
    lex_common_prefix(head, ea + q, eb + t);
    lex_common_prefix(head, eb + t, ea + q);
    if lex_lt(a, b) {
        escape_preserves_order(a, b, q, none);
        escape_preserves_order(a, b, q, t);
        lex_asymmetric(ea + q, eb + t);
    } else if lex_lt(b, a) {
        escape_preserves_order(b, a, none, q);
        escape_preserves_order(b, a, t, q);
        lex_asymmetric(eb, ea + q);
        lex_asymmetric(eb + t, ea + q);
    } else {
        let n = eb.len() as int;
        assert(lex_lt_at(eb, ea + q, n));
        assert((eb + q)[n] == q[0]);
        assert((eb + t)[n] == 0xFF);
        assert(lex_lt_at(eb + q, eb + t, n));
        lex_asymmetric(eb, ea + q);
        lex_asymmetric(eb + q, eb + t);
    }
}

/// The row key that a partition continues with a sort key; in an index more
/// follows.
pub open spec fn sorted_key(start: Seq<u8>, v: AttrView, q: Seq<u8>, index: bool) -> Seq<u8> {
    start + sort_part(key_part(v)->Ok_0, index) + q
}

/// What may follow a sort key: nothing in a table, in an index the key of the base
/// row.
pub open spec fn follows(q: Seq<u8>, index: bool) -> bool {
    if index {
        q.len() > 0 && q[0] < 0xFF
    } else {
        q.len() == 0
    }
}

/// A key that continues a partition lies in it, with or without the trailer.
proof fn lemma_bound_inside(start: Seq<u8>, s: Seq<u8>)
    requires
        s.len() > 0,
        s[0] < 0xFF,
    ensures
        lex_lt(start, start + s),
        lex_lt(start, start + s + upper_trailer()),
        lex_lt(start + s, start + upper_trailer()),
        lex_lt(start + s + upper_trailer(), start + upper_trailer()),
{
    let e = start + s;
    let z = start + upper_trailer();
    let n = start.len() as int;
    assert(e[n] == s[0]);
    assert(z[n] == 0xFF);
    assert(lex_lt_at(start, e, n));
    assert(lex_lt_at(start, e + upper_trailer(), n));
    assert forall|j: int| 0 <= j < n implies e[j] == z[j] by {}
    assert(lex_lt_at(e, z, n));
    assert forall|j: int| 0 <= j < n implies (e + upper_trailer())[j] == z[j] by {}
    assert((e + upper_trailer())[n] == s[0]);
    assert(lex_lt_at(e + upper_trailer(), z, n));
}

/// The bounds of a condition lie within the partition.
proof fn lemma_bounds_inside(start: Seq<u8>, cond: Option<CondView>, index: bool)
    requires
        cond matches Some(c) ==> well_formed(c),
    ensures
        bounds_by(start, cond, index) matches Ok(b) && lex_le(start, b.0) && lex_le(
            b.1,
            start + upper_trailer(),
        ),
{
    match cond {
        None => {},
        Some(CondView::Compare { op, value }) => {
            lemma_bound_inside(start, sort_part(key_part(operand(value)->0)->Ok_0, index));
        },
        Some(CondView::Between { low, high }) => {
            lemma_bound_inside(start, sort_part(key_part(operand(low)->0)->Ok_0, index));
            lemma_bound_inside(start, sort_part(key_part(operand(high)->0)->Ok_0, index));
        },
        Some(CondView::BeginsWith { prefix }) => {
            lemma_bound_inside(start, prefix_part(key_part(operand(prefix)->0)->Ok_0, index));
        },
    }
}

/// How a row key lies to the bound that an operand makes.
proof fn lemma_placed(start: Seq<u8>, v: AttrView, o: AttrView, q: Seq<u8>, index: bool)
    requires
        key_part(v) is Ok,
        key_part(o) is Ok,
        same_type(v, o),
        follows(q, index),
    ensures
        ({
            let key = sorted_key(start, v, q, index);
            let exact = start + sort_part(key_part(o)->Ok_0, index);
            &&& placed(key, exact, key_bytes(v), key_bytes(o))
            &&& v is N || index || !continues(key_bytes(v), key_bytes(o)) ==> placed_behind(
                key,
                exact,
                key_bytes(v),
                key_bytes(o),
            )
        }),
{
    let (a, b) = (key_bytes(v), key_bytes(o));
    let tag = key_part(v)->Ok_0.0;
    let head = start + seq![tag];
    let key = sorted_key(start, v, q, index);
    let exact = start + sort_part(key_part(o)->Ok_0, index);
    lemma_value_bytes(CompareOp::Eq, v, o);
    if index {
        assert(key =~= head + escaped_terminated(a) + q);
        assert(exact =~= head + escaped_terminated(b));
        lemma_index_placed(head, a, b, q);
    } else {
        assert(key =~= head + a);
        assert(exact =~= head + b);
        lemma_table_placed(head, a, b);
        if v is N && b.is_prefix_of(a) {
            encoding_prefix_free(o->N_0, v->N_0);
        }
    }
}

/// The bounds of a comparison include a row of the partition exactly where its
/// sort key meets it.
proof fn lemma_comparison(
    start: Seq<u8>,
    v: AttrView,
    op: CompareOp,
    value: ExprView,
    q: Seq<u8>,
    index: bool,
)
    requires
        key_part(v) is Ok,
        follows(q, index),
        well_formed((CondView::Compare { op, value })),
        decided(v, (CondView::Compare { op, value }), index),
    ensures
        bounds_by(start, Some((CondView::Compare { op, value })), index) matches Ok(b)
            && (in_range(sorted_key(start, v, q, index), bounded(b.0, b.1, b.2))
            <==> sort_meets(v, (CondView::Compare { op, value }))),
{
    let o = operand(value)->0;
    let key = sorted_key(start, v, q, index);
    let (x, y) = (key_bytes(v), key_bytes(o));
    lemma_placed(start, v, o, q, index);
    lemma_value_bytes(op, v, o);
    lemma_key_inside(start, v, q, index);
    lemma_not_less(x, y);
    lemma_not_less(y, x);
}

proof fn lemma_key_inside(start: Seq<u8>, v: AttrView, q: Seq<u8>, index: bool)
    requires
        key_part(v) is Ok,
    ensures
        lex_le(start, sorted_key(start, v, q, index)),
        lex_le(sorted_key(start, v, q, index), start + upper_trailer()),
{
    let s = sort_part(key_part(v)->Ok_0, index) + q;
    assert(sorted_key(start, v, q, index) =~= start + s);
    lemma_bound_inside(start, s);
}

/// The bounds of a prefix include a row of the partition exactly where its sort
/// key begins with it.
proof fn lemma_prefixed(start: Seq<u8>, v: AttrView, prefix: ExprView, q: Seq<u8>, index: bool)
    requires
        key_part(v) is Ok,
        follows(q, index),
        well_formed((CondView::BeginsWith { prefix })),
        decided(v, (CondView::BeginsWith { prefix }), index),
    ensures
        bounds_by(start, Some((CondView::BeginsWith { prefix })), index) matches Ok(b)
            && (in_range(sorted_key(start, v, q, index), bounded(b.0, b.1, b.2))
            <==> sort_meets(v, (CondView::BeginsWith { prefix }))),
{
    let o = operand(prefix)->0;
    let (a, b) = (key_bytes(v), key_bytes(o));
    let tag = key_part(v)->Ok_0.0;
    let head = start + seq![tag];
    let key = sorted_key(start, v, q, index);
    let bound = start + prefix_part(key_part(o)->Ok_0, index);
    let n = b.len() as int;
    let t = upper_trailer();
    lemma_value_bytes(CompareOp::Eq, v, o);
    prefix_range(bound, key);
    if let AttrView::S(s) = v {
        lemma_text_bytes(s);
        if b.is_prefix_of(a) {
            let rest = a.skip(n);
            if rest.len() > 0 {
                assert(rest[0] == a[n]);
            }
            assert(lex_lt_at(rest, t, 0));
            if t.is_prefix_of(rest) {
                assert(rest.subrange(0, t.len() as int)[0] == rest[0]);
                assert(t[0] == 0xFF);
            }
        }
    }
    if index {
        let k = escaped_terminated(a) + q;
        assert(key =~= head + k);
        assert(bound =~= head + escaped(b));
        lemma_head_prefix(head, escaped(b), k);
        escape_preserves_prefix(b, a, q);
        if b.is_prefix_of(a) {
            let rest = escaped_terminated(a.skip(n)) + q;
            assert(k.skip(escaped(b).len() as int) =~= rest);
            assert(key.skip(bound.len() as int) =~= rest);
            escaped_below(a.skip(n), q, t);
        }
    } else {
        assert(key =~= head + a);
        assert(bound =~= head + b);
        lemma_head_prefix(head, b, a);
        if b.is_prefix_of(a) {
            assert(key.skip(bound.len() as int) =~= a.skip(n));
        }
    }
}

proof fn lemma_head_prefix(head: Seq<u8>, b: Seq<u8>, a: Seq<u8>)
    ensures
        (head + b).is_prefix_of(head + a) <==> b.is_prefix_of(a),
{
    let (p, k) = (head + b, head + a);
    if p.is_prefix_of(k) {
        assert forall|i: int| 0 <= i < b.len() implies b[i] == a[i] by {
            assert(p[head.len() + i] == k.subrange(0, p.len() as int)[head.len() + i]);
        }
        assert(a.subrange(0, b.len() as int) =~= b);
    }
    if b.is_prefix_of(a) {
        assert forall|i: int| 0 <= i < b.len() implies b[i] == a[i] by {
            assert(b[i] == a.subrange(0, b.len() as int)[i]);
        }
        assert(k.subrange(0, p.len() as int) =~= p);
    }
}

/// The bounds of a condition include a row of the partition exactly where its sort
/// key meets the condition.
proof fn lemma_condition(start: Seq<u8>, v: AttrView, cond: CondView, q: Seq<u8>, index: bool)
    requires
        key_part(v) is Ok,
        follows(q, index),
        well_formed(cond),
        decided(v, cond, index),
    ensures
        bounds_by(start, Some(cond), index) matches Ok(b) && (in_range(
            sorted_key(start, v, q, index),
            bounded(b.0, b.1, b.2),
        ) <==> sort_meets(v, cond)),
{
    match cond {
        CondView::Compare { op, value } => {
            lemma_comparison(start, v, op, value, q, index);
        },
        CondView::Between { low, high } => {
            lemma_comparison(start, v, CompareOp::Ge, low, q, index);
            lemma_comparison(start, v, CompareOp::Le, high, q, index);
            lemma_key_inside(start, v, q, index);
        },
        CondView::BeginsWith { prefix } => {
            lemma_prefixed(start, v, prefix, q, index);
        },
    }
}

// ---------------------------------------------------------------------------
// Queries
// ---------------------------------------------------------------------------

/// The part of an item's row key that its partition key makes.
pub open spec fn partition_part(item: ItemView, schema: SchemaView) -> Result<
    (u8, Seq<u8>),
    ErrView,
> {
    item_part(item, key_name(schema, KeyType::Hash)->0, "missing key attr "@)
}

/// The sort key of an item.
pub open spec fn sort_value(item: ItemView, schema: SchemaView) -> AttrView {
    lookup(item, key_name(schema, KeyType::Range)->0)->0
}

/// Whether an item is in the partition `pk` and its sort key meets a condition.
pub open spec fn selected(
    item: ItemView,
    schema: SchemaView,
    pk: AttrView,
    cond: Option<CondView>,
) -> bool {
    &&& partition_part(item, schema) == key_part(pk)
    &&& cond matches Some(c) ==> sort_meets(sort_value(item, schema), c)
}

/// The items of rows that are in the partition `pk` and whose sort keys meet a
/// condition, in the order of the rows.
pub open spec fn selection(
    t: Seq<RowView>,
    schema: SchemaView,
    pk: AttrView,
    cond: Option<CondView>,
) -> Seq<ItemView>
    decreases t.len(),
{
    if t.len() == 0 {
        Seq::empty()
    } else {
        let rest = selection(t.drop_last(), schema, pk, cond);
        if selected(item_of(t.last()), schema, pk, cond) {
            rest.push(item_of(t.last()))
        } else {
            rest
        }
    }
}

/// Whether the partition keys of items have a length that their row keys can hold.
pub open spec fn partitions_fit(t: Seq<RowView>, schema: SchemaView) -> bool {
    forall|i: int| 0 <= i < t.len() ==> part_fits(partition_part(item_of(#[trigger] t[i]), schema))
}

/// Whether a query has no condition, or one that decides on the sort key of each
/// item of the partition.
pub open spec fn query_decides(
    t: Seq<RowView>,
    schema: SchemaView,
    pk: AttrView,
    cond: Option<CondView>,
    index: bool,
) -> bool {
    cond matches Some(c) ==> {
        &&& well_formed(c)
        &&& key_name(schema, KeyType::Range) is Some
        &&& forall|i: int|
            0 <= i < t.len() && partition_part(item_of(#[trigger] t[i]), schema) == key_part(pk)
                ==> decided(sort_value(item_of(t[i]), schema), c, index)
    }
}

proof fn lemma_le_transitive(a: Seq<u8>, b: Seq<u8>, c: Seq<u8>)
    requires
        lex_le(a, b),
        lex_le(b, c),
    ensures
        lex_le(a, c),
{
    if a != b && b != c {
        lex_transitive(a, b, c);
    }
}

/// A key outside a partition is outside the bounds of each condition in it.
proof fn lemma_outside(start: Seq<u8>, cond: Option<CondView>, key: Seq<u8>, index: bool)
    requires
        cond matches Some(c) ==> well_formed(c),
        !(lex_le(start, key) && lex_le(key, start + upper_trailer())),
    ensures
        bounds_by(start, cond, index) matches Ok(b) && !in_range(key, bounded(b.0, b.1, b.2)),
{
    lemma_bounds_inside(start, cond, index);
    let b = bounds_by(start, cond, index)->Ok_0;
    if in_range(key, bounded(b.0, b.1, b.2)) {
        lemma_le_transitive(start, b.0, key);
        lemma_le_transitive(key, b.1, start + upper_trailer());
        assert(false);
    }
}

/// The range of a query of a table includes a row exactly where it selects it.
proof fn lemma_query_row(item: ItemView, schema: SchemaView, pk: AttrView, cond: Option<CondView>)
    requires
        row_key(item, schema) is Ok,
        part_fits(partition_part(item, schema)),
        key_part(pk) is Ok,
        part_fits(key_part(pk)),
        cond matches Some(c) ==> well_formed(c) && key_name(schema, KeyType::Range) is Some && (
        partition_part(item, schema) == key_part(pk) ==> decided(
            sort_value(item, schema),
            c,
            false,
        )),
    ensures
        query_bounds(pk, cond) matches Ok(b) && (in_range(
            row_key(item, schema)->Ok_0,
            bounded(b.0, b.1, b.2),
        ) <==> selected(item, schema, pk, cond)),
{
    let k = row_key(item, schema)->Ok_0;
    let start = delimited(key_part(pk)->Ok_0);
    partition_range(pk, item, schema);
    if partition_part(item, schema) == key_part(pk) {
        if let Some(c) = cond {
            let v = sort_value(item, schema);
            let none = Seq::<u8>::empty();
            assert(k =~= sorted_key(start, v, none, false));
            lemma_condition(start, v, c, none, false);
        }
    } else {
        lemma_outside(start, cond, k, false);
    }
}

/// The key of an entry.
proof fn lemma_entry_key(item: ItemView, gsi: SchemaView, base: SchemaView)
    requires
        shadow_key(item, gsi, base) matches Ok(Some(_)),
    ensures
        ({
            let k = shadow_key(item, gsi, base)->Ok_0->0;
            let p = partition_part(item, gsi)->Ok_0;
            let q = base_part(item, base)->Ok_0;
            &&& partition_part(item, gsi) is Ok
            &&& p.1.len() < 0x1_0000_0000
            &&& follows(q, true)
            &&& key_name(gsi, KeyType::Range) is None ==> k == delimited(p) + q
            &&& key_name(gsi, KeyType::Range) is Some ==> key_part(sort_value(item, gsi)) is Ok
                && k == sorted_key(delimited(p), sort_value(item, gsi), q, true)
        }),
{
    let k = shadow_key(item, gsi, base)->Ok_0->0;
    let p = partition_part(item, gsi)->Ok_0;
    let q = base_part(item, base)->Ok_0;
    assert(k.len() >= delimited(p).len());
    assert(delimited(p).len() >= p.1.len());
}

/// The bounds of a partition of an index enclose exactly the entries of that
/// partition.
pub proof fn index_partition_range(
    pk: AttrView,
    item: ItemView,
    gsi: SchemaView,
    base: SchemaView,
)
    requires
        key_part(pk) is Ok,
        part_fits(key_part(pk)),
        shadow_key(item, gsi, base) matches Ok(Some(_)),
    ensures
        in_range(
            shadow_key(item, gsi, base)->Ok_0->0,
            bounded(partition_start(pk)->Ok_0, partition_end(pk)->Ok_0, false),
        ) <==> key_part(lookup(item, key_name(gsi, KeyType::Hash)->0)->0) == key_part(pk),
{
    let k = shadow_key(item, gsi, base)->Ok_0->0;
    let p = partition_part(item, gsi)->Ok_0;
    let q = base_part(item, base)->Ok_0;
    lemma_entry_key(item, gsi, base);
    let rest = match key_name(gsi, KeyType::Range) {
        None => q,
        Some(_) => sort_part(key_part(sort_value(item, gsi))->Ok_0, true) + q,
    };
    assert(k =~= delimited(p) + rest);
    lemma_partition(key_part(pk)->Ok_0, p, rest);
}

/// The range of a query of an index includes an entry exactly where it selects it.
proof fn lemma_query_entry(
    item: ItemView,
    gsi: SchemaView,
    base: SchemaView,
    pk: AttrView,
    cond: Option<CondView>,
)
    requires
        shadow_key(item, gsi, base) matches Ok(Some(_)),
        key_part(pk) is Ok,
        part_fits(key_part(pk)),
        cond matches Some(c) ==> well_formed(c) && key_name(gsi, KeyType::Range) is Some && (
        partition_part(item, gsi) == key_part(pk) ==> decided(sort_value(item, gsi), c, true)),
    ensures
        index_bounds(pk, cond) matches Ok(b) && (in_range(
            shadow_key(item, gsi, base)->Ok_0->0,
            bounded(b.0, b.1, b.2),
        ) <==> selected(item, gsi, pk, cond)),
{
    let k = shadow_key(item, gsi, base)->Ok_0->0;
    let start = delimited(key_part(pk)->Ok_0);
    lemma_entry_key(item, gsi, base);
    index_partition_range(pk, item, gsi, base);
    if partition_part(item, gsi) == key_part(pk) {
        if let Some(c) = cond {
            lemma_condition(
                start,
                sort_value(item, gsi),
                c,
                base_part(item, base)->Ok_0,
                true,
            );
        }
    } else {
        lemma_outside(start, cond, k, true);
    }
}

/// The rows that a query asks for hold the items that it selects.
proof fn lemma_selection(
    t: Seq<RowView>,
    schema: SchemaView,
    pk: AttrView,
    cond: Option<CondView>,
    p: spec_fn(Seq<u8>) -> bool,
)
    requires
        forall|i: int|
            0 <= i < t.len() ==> (p((#[trigger] t[i]).key) <==> selected(
                item_of(t[i]),
                schema,
                pk,
                cond,
            )),
    ensures
        items_of(rows_where(t, p)) == selection(t, schema, pk, cond),
    decreases t.len(),
{
    if t.len() > 0 {
        let d = t.drop_last();
        assert forall|i: int| 0 <= i < d.len() implies (p((#[trigger] d[i]).key) <==> selected(
            item_of(d[i]),
            schema,
            pk,
            cond,
        )) by {
            assert(d[i] == t[i]);
        }
        lemma_selection(d, schema, pk, cond, p);
        assert(t.last() == t[t.len() - 1]);
        let r = rows_where(d, p);
        assert(items_of(r.push(t.last())) =~= items_of(r).push(item_of(t.last())));
    } else {
        assert(items_of(rows_where(t, p)) =~= Seq::<ItemView>::empty());
    }
}

/// The key with which a page of a query ends: its last item.
pub open spec fn itself() -> spec_fn(ItemView) -> ItemView {
    |x: ItemView| x
}

/// The page that the items of a query make.
proof fn lemma_query_result(rows: Seq<RowView>, limit: Option<i64>, items: Seq<ItemView>, i: int)
    requires
        limit matches Some(l) ==> l >= 1,
        0 <= i <= items.len(),
        items_in(rows, 1, 0) == Ok::<Seq<ItemView>, ErrView>(
            items.subrange(i, page_end(items.len() as int, i, limit)),
        ),
    ensures
        query_result(rows, limit) == Ok::<PageView, ErrView>(page_at(items, itself(), limit, i)),
{
}

/// Whether bounds include a row exactly where a query selects it.
pub open spec fn bounds_select(
    t: Seq<RowView>,
    schema: SchemaView,
    pk: AttrView,
    cond: Option<CondView>,
    b: (Seq<u8>, Seq<u8>, bool),
) -> bool {
    forall|i: int|
        0 <= i < t.len() ==> (in_range((#[trigger] t[i]).key, bounded(b.0, b.1, b.2)) <==> selected(
            item_of(t[i]),
            schema,
            pk,
            cond,
        ))
}

/// The rows that are within bounds, in the direction of a query.
pub open spec fn rows_between(
    t: Seq<RowView>,
    b: (Seq<u8>, Seq<u8>, bool),
    forward: bool,
) -> Seq<RowView> {
    directed_rows(rows_where(t, within(bounded(b.0, b.1, b.2))), forward)
}

/// The rows within the bounds of a query are rows of the table that hold what it
/// selects.
proof fn lemma_rows_between(
    t: Seq<RowView>,
    schema: SchemaView,
    pk: AttrView,
    cond: Option<CondView>,
    b: (Seq<u8>, Seq<u8>, bool),
    forward: bool,
)
    requires
        is_table(t),
        bounds_select(t, schema, pk, cond, b),
    ensures
        items_of(rows_between(t, b, forward)) == directed(
            selection(t, schema, pk, cond),
            forward,
        ),
        forall|i: int|
            0 <= i < rows_between(t, b, forward).len() ==> t.contains(
                #[trigger] rows_between(t, b, forward)[i],
            ) && selected(item_of(rows_between(t, b, forward)[i]), schema, pk, cond),
{
    let p = within(bounded(b.0, b.1, b.2));
    let rows = rows_where(t, p);
    let d = rows_between(t, b, forward);
    assert forall|i: int| 0 <= i < t.len() implies (p((#[trigger] t[i]).key) <==> selected(
        item_of(t[i]),
        schema,
        pk,
        cond,
    )) by {}
    lemma_selection(t, schema, pk, cond, p);
    lemma_rows_where(t, p);
    if !forward {
        assert(items_of(d) =~= items_of(rows).reverse());
    }
    assert forall|i: int| 0 <= i < d.len() implies t.contains(#[trigger] d[i]) && selected(
        item_of(d[i]),
        schema,
        pk,
        cond,
    ) by {
        let at = if forward {
            i
        } else {
            rows.len() - 1 - i
        };
        assert(d[i] == rows[at]);
        let j = choose|j: int| 0 <= j < t.len() && t[j] == rows[at];
        assert(p(t[j].key));
    }
}

/// A page of a query, for a reader who has seen the first `i` items.
proof fn lemma_query_page(
    t: Seq<RowView>,
    q: ReadView,
    schema: SchemaView,
    pk: AttrView,
    cond: Option<CondView>,
    b: (Seq<u8>, Seq<u8>, bool),
    forward: bool,
    limit: Option<i64>,
    i: int,
)
    requires
        shows_items(t),
        bounds_select(t, schema, pk, cond, b),
        limit matches Some(l) ==> l >= 1,
        q.filter == FilterView::Limit(1),
        q.reversed == !forward,
        q.limit == limit_or_none(limit),
        q.keys.len() == 0,
        0 <= i <= selection(t, schema, pk, cond).len(),
        q.ranges == seq![resumed(b, forward, key_before(rows_between(t, b, forward), i))],
    ensures
        query_result(answer(t, q), limit) == Ok::<PageView, ErrView>(
            page_at(directed(selection(t, schema, pk, cond), forward), itself(), limit, i),
        ),
{
    let rows = rows_where(t, within(bounded(b.0, b.1, b.2)));
    let sel = directed(selection(t, schema, pk, cond), forward);
    lemma_rows_between(t, schema, pk, cond, b, forward);
    assert(items_of(rows_between(t, b, forward)).len() == sel.len());
    assert(rows.len() == sel.len());
    lemma_range_page(t, q, b, forward, limit, i);
    lemma_query_result(answer(t, q), limit, sel, i);
}

/// A page of a query begins behind the items that were seen, misses none and
/// repeats none: joined, the pages hold exactly the items of the partition whose
/// sort keys meet the condition. A page ends with its last item if, and only if, it
/// has as many items as the limit says.
pub proof fn query_page_follows(
    t: Seq<RowView>,
    table: Seq<char>,
    schema: SchemaView,
    path: Seq<PathElement>,
    pk: AttrView,
    cond: Option<CondView>,
    forward: bool,
    limit: Option<i64>,
    i: int,
)
    requires
        holds_items(t, schema),
        partitions_fit(t, schema),
        query_decides(t, schema, pk, cond, false),
        path_name(path) is Ok,
        key_part(pk) is Ok,
        part_fits(key_part(pk)),
        limit matches Some(l) ==> l >= 1,
        0 <= i <= selection(t, schema, pk, cond).len(),
    ensures
        query_read(
            table,
            schema,
            path,
            ExprView::Placeholder(Ok(pk)),
            cond,
            forward,
            limit,
            seen(directed(selection(t, schema, pk, cond), forward), itself(), i),
        ) matches Ok(q) && query_result(answer(t, q), limit) == Ok::<PageView, ErrView>(
            page_at(directed(selection(t, schema, pk, cond), forward), itself(), limit, i),
        ),
{
    let sel = directed(selection(t, schema, pk, cond), forward);
    let b = lemma_query_selects(t, schema, pk, cond);
    lemma_rows_between(t, schema, pk, cond, b, forward);
    let d = rows_between(t, b, forward);
    assert(items_of(d).len() == sel.len());
    if i > 0 {
        assert(sel[i - 1] == item_of(d[i - 1]));
        let j = choose|j: int| 0 <= j < t.len() && t[j] == d[i - 1];
        assert(holds_item(t[j], schema));
    }
    let q = query_read(
        table,
        schema,
        path,
        ExprView::Placeholder(Ok(pk)),
        cond,
        forward,
        limit,
        seen(sel, itself(), i),
    )->Ok_0;
    lemma_items_shown(t, schema);
    lemma_query_page(t, q, schema, pk, cond, b, forward, limit, i);
}

/// The bounds of a query of a table.
proof fn lemma_query_selects(
    t: Seq<RowView>,
    schema: SchemaView,
    pk: AttrView,
    cond: Option<CondView>,
) -> (b: (Seq<u8>, Seq<u8>, bool))
    requires
        holds_items(t, schema),
        partitions_fit(t, schema),
        query_decides(t, schema, pk, cond, false),
        key_part(pk) is Ok,
        part_fits(key_part(pk)),
    ensures
        query_bounds(pk, cond) == Ok::<(Seq<u8>, Seq<u8>, bool), ErrView>(b),
        bounds_select(t, schema, pk, cond, b),
{
    lemma_bounds_inside(delimited(key_part(pk)->Ok_0), cond, false);
    let b = query_bounds(pk, cond)->Ok_0;
    assert forall|i: int| 0 <= i < t.len() implies (in_range(
        (#[trigger] t[i]).key,
        bounded(b.0, b.1, b.2),
    ) <==> selected(item_of(t[i]), schema, pk, cond)) by {
        assert(holds_item(t[i], schema));
        lemma_query_row(item_of(t[i]), schema, pk, cond);
    }
    b
}

/// The bounds of a query of an index.
proof fn lemma_index_selects(
    t: Seq<RowView>,
    gsi: SchemaView,
    base: SchemaView,
    pk: AttrView,
    cond: Option<CondView>,
) -> (b: (Seq<u8>, Seq<u8>, bool))
    requires
        holds_entries(t, gsi, base),
        query_decides(t, gsi, pk, cond, true),
        key_part(pk) is Ok,
        part_fits(key_part(pk)),
    ensures
        index_bounds(pk, cond) == Ok::<(Seq<u8>, Seq<u8>, bool), ErrView>(b),
        bounds_select(t, gsi, pk, cond, b),
{
    lemma_bounds_inside(delimited(key_part(pk)->Ok_0), cond, true);
    let b = index_bounds(pk, cond)->Ok_0;
    assert forall|i: int| 0 <= i < t.len() implies (in_range(
        (#[trigger] t[i]).key,
        bounded(b.0, b.1, b.2),
    ) <==> selected(item_of(t[i]), gsi, pk, cond)) by {
        assert(holds_entry(t[i], gsi, base));
        lemma_query_entry(item_of(t[i]), gsi, base, pk, cond);
    }
    b
}

/// A page of a query of an index begins behind the entries that were seen, misses
/// none and repeats none: joined, the pages hold exactly the entries of the
/// partition whose index sort keys meet the condition. A page ends with its last
/// entry if, and only if, it has as many entries as the limit says.
pub proof fn index_query_page_follows(
    t: Seq<RowView>,
    table: Seq<char>,
    gsi: SchemaView,
    base: SchemaView,
    path: Seq<PathElement>,
    pk: AttrView,
    cond: Option<CondView>,
    forward: bool,
    limit: Option<i64>,
    i: int,
)
    requires
        holds_entries(t, gsi, base),
        query_decides(t, gsi, pk, cond, true),
        path_name(path) is Ok,
        key_part(pk) is Ok,
        part_fits(key_part(pk)),
        limit matches Some(l) ==> l >= 1,
        0 <= i <= selection(t, gsi, pk, cond).len(),
    ensures
        index_query_read(
            table,
            gsi,
            base,
            path,
            ExprView::Placeholder(Ok(pk)),
            cond,
            forward,
            limit,
            seen(directed(selection(t, gsi, pk, cond), forward), itself(), i),
        ) matches Ok(q) && query_result(answer(t, q), limit) == Ok::<PageView, ErrView>(
            page_at(directed(selection(t, gsi, pk, cond), forward), itself(), limit, i),
        ),
{
    let sel = directed(selection(t, gsi, pk, cond), forward);
    let b = lemma_index_selects(t, gsi, base, pk, cond);
    lemma_rows_between(t, gsi, pk, cond, b, forward);
    let d = rows_between(t, b, forward);
    assert(items_of(d).len() == sel.len());
    if i > 0 {
        assert(sel[i - 1] == item_of(d[i - 1]));
        let j = choose|j: int| 0 <= j < t.len() && t[j] == d[i - 1];
        assert(holds_entry(t[j], gsi, base));
    }
    let q = index_query_read(
        table,
        gsi,
        base,
        path,
        ExprView::Placeholder(Ok(pk)),
        cond,
        forward,
        limit,
        seen(sel, itself(), i),
    )->Ok_0;
    lemma_entries_shown(t, gsi, base);
    lemma_query_page(t, q, gsi, pk, cond, b, forward, limit, i);
}

/// A page of a query of a table that goes on behind an item.
#[verifier::opaque]
pub open spec fn query_page(
    t: Seq<RowView>,
    table: Seq<char>,
    schema: SchemaView,
    path: Seq<PathElement>,
    pk: AttrView,
    cond: Option<CondView>,
    forward: bool,
    limit: Option<i64>,
) -> spec_fn(Option<ItemView>) -> Result<PageView, ErrView> {
    |start: Option<ItemView>|
        match query_read(
            table,
            schema,
            path,
            ExprView::Placeholder(Ok(pk)),
            cond,
            forward,
            limit,
            start,
        ) {
            Err(e) => Err(e),
            Ok(q) => query_result(answer(t, q), limit),
        }
}

/// A page of a query of an index that goes on behind an entry.
#[verifier::opaque]
pub open spec fn index_query_page(
    t: Seq<RowView>,
    table: Seq<char>,
    gsi: SchemaView,
    base: SchemaView,
    path: Seq<PathElement>,
    pk: AttrView,
    cond: Option<CondView>,
    forward: bool,
    limit: Option<i64>,
) -> spec_fn(Option<ItemView>) -> Result<PageView, ErrView> {
    |start: Option<ItemView>|
        match index_query_read(
            table,
            gsi,
            base,
            path,
            ExprView::Placeholder(Ok(pk)),
            cond,
            forward,
            limit,
            start,
        ) {
            Err(e) => Err(e),
            Ok(q) => query_result(answer(t, q), limit),
        }
}

/// Whether the sort keys of items, where they are of one type, ascend; `strictly`,
/// if none is there twice.
pub open spec fn ascending(items: Seq<ItemView>, schema: SchemaView, strictly: bool) -> bool {
    forall|i: int, j: int|
        0 <= i < j < items.len() && same_type(
            sort_value(#[trigger] items[i], schema),
            sort_value(#[trigger] items[j], schema),
        ) ==> value_compares(
            if strictly {
                CompareOp::Lt
            } else {
                CompareOp::Le
            },
            sort_value(items[i], schema),
            sort_value(items[j], schema),
        )
}

/// A query of a table gives exactly the items of the partition whose sort keys
/// meet the condition, in ascending order of the sort keys; backwards it gives the
/// same items the other way round. So do its pages, joined.
pub proof fn query_exact(
    t: Seq<RowView>,
    table: Seq<char>,
    schema: SchemaView,
    path: Seq<PathElement>,
    pk: AttrView,
    cond: Option<CondView>,
    forward: bool,
    limit: i64,
)
    requires
        holds_items(t, schema),
        partitions_fit(t, schema),
        query_decides(t, schema, pk, cond, false),
        path_name(path) is Ok,
        key_part(pk) is Ok,
        part_fits(key_part(pk)),
        limit >= 1,
    ensures
        query_page(t, table, schema, path, pk, cond, forward, None)(None) == Ok::<
            PageView,
            ErrView,
        >((directed(selection(t, schema, pk, cond), forward), None)),
        pages_joined(
            query_page(t, table, schema, path, pk, cond, forward, Some(limit)),
            None,
            selection(t, schema, pk, cond).len(),
        ) == Some(directed(selection(t, schema, pk, cond), forward)),
        key_name(schema, KeyType::Range) is Some ==> ascending(
            selection(t, schema, pk, cond),
            schema,
            true,
        ),
{
    reveal(query_page);
    let sel = directed(selection(t, schema, pk, cond), forward);
    let page = query_page(t, table, schema, path, pk, cond, forward, Some(limit));
    assert forall|j: int| 0 <= j <= sel.len() implies page(#[trigger] seen(sel, itself(), j))
        == Ok::<PageView, ErrView>(page_at(sel, itself(), Some(limit), j)) by {
        query_page_follows(t, table, schema, path, pk, cond, forward, Some(limit), j);
    }
    lemma_pages(page, sel, itself(), limit, 0, sel.len());
    assert(sel.skip(0) =~= sel);
    query_page_follows(t, table, schema, path, pk, cond, forward, None, 0);
    assert(sel.subrange(0, sel.len() as int) =~= sel);
    if key_name(schema, KeyType::Range) is Some {
        lemma_query_ascending(t, schema, pk, cond);
    }
}

proof fn lemma_query_ascending(
    t: Seq<RowView>,
    schema: SchemaView,
    pk: AttrView,
    cond: Option<CondView>,
)
    requires
        holds_items(t, schema),
        partitions_fit(t, schema),
        query_decides(t, schema, pk, cond, false),
        key_part(pk) is Ok,
        part_fits(key_part(pk)),
        key_name(schema, KeyType::Range) is Some,
    ensures
        ascending(selection(t, schema, pk, cond), schema, true),
{
    let b = lemma_query_selects(t, schema, pk, cond);
    lemma_rows_between(t, schema, pk, cond, b, true);
    lemma_rows_where(t, within(bounded(b.0, b.1, b.2)));
    let l = selection(t, schema, pk, cond);
    let rows = rows_between(t, b, true);
    let start = delimited(key_part(pk)->Ok_0);
    assert forall|i: int, j: int|
        0 <= i < j < l.len() && same_type(
            sort_value(#[trigger] l[i], schema),
            sort_value(#[trigger] l[j], schema),
        ) implies value_compares(
        CompareOp::Lt,
        sort_value(l[i], schema),
        sort_value(l[j], schema),
    ) by {
        assert(l[i] == item_of(rows[i]) && l[j] == item_of(rows[j]));
        let m = choose|m: int| 0 <= m < t.len() && t[m] == rows[i];
        let n = choose|n: int| 0 <= n < t.len() && t[n] == rows[j];
        assert(holds_item(t[m], schema));
        assert(holds_item(t[n], schema));
        let (v, w) = (sort_value(l[i], schema), sort_value(l[j], schema));
        let none = Seq::<u8>::empty();
        assert(rows[i].key =~= sorted_key(start, v, none, false));
        assert(rows[j].key =~= start + sort_part(key_part(w)->Ok_0, false));
        lemma_placed(start, v, w, none, false);
        lemma_value_bytes(CompareOp::Lt, v, w);
        assert(lex_lt(rows[i].key, rows[j].key));
    }
}

/// A query of an index gives exactly the entries of the partition whose index sort
/// keys meet the condition, in ascending order of the index sort keys; backwards
/// it gives the same entries the other way round. So do its pages, joined.
pub proof fn index_query_exact(
    t: Seq<RowView>,
    table: Seq<char>,
    gsi: SchemaView,
    base: SchemaView,
    path: Seq<PathElement>,
    pk: AttrView,
    cond: Option<CondView>,
    forward: bool,
    limit: i64,
)
    requires
        holds_entries(t, gsi, base),
        query_decides(t, gsi, pk, cond, true),
        path_name(path) is Ok,
        key_part(pk) is Ok,
        part_fits(key_part(pk)),
        limit >= 1,
    ensures
        index_query_page(t, table, gsi, base, path, pk, cond, forward, None)(None) == Ok::<
            PageView,
            ErrView,
        >((directed(selection(t, gsi, pk, cond), forward), None)),
        pages_joined(
            index_query_page(t, table, gsi, base, path, pk, cond, forward, Some(limit)),
            None,
            selection(t, gsi, pk, cond).len(),
        ) == Some(directed(selection(t, gsi, pk, cond), forward)),
        key_name(gsi, KeyType::Range) is Some ==> ascending(
            selection(t, gsi, pk, cond),
            gsi,
            false,
        ),
{
    reveal(index_query_page);
    let sel = directed(selection(t, gsi, pk, cond), forward);
    let page = index_query_page(t, table, gsi, base, path, pk, cond, forward, Some(limit));
    assert forall|j: int| 0 <= j <= sel.len() implies page(#[trigger] seen(sel, itself(), j))
        == Ok::<PageView, ErrView>(page_at(sel, itself(), Some(limit), j)) by {
        index_query_page_follows(t, table, gsi, base, path, pk, cond, forward, Some(limit), j);
    }
    lemma_pages(page, sel, itself(), limit, 0, sel.len());
    assert(sel.skip(0) =~= sel);
    index_query_page_follows(t, table, gsi, base, path, pk, cond, forward, None, 0);
    assert(sel.subrange(0, sel.len() as int) =~= sel);
    if key_name(gsi, KeyType::Range) is Some {
        lemma_index_ascending(t, gsi, base, pk, cond);
    }
}

proof fn lemma_index_ascending(
    t: Seq<RowView>,
    gsi: SchemaView,
    base: SchemaView,
    pk: AttrView,
    cond: Option<CondView>,
)
    requires
        holds_entries(t, gsi, base),
        query_decides(t, gsi, pk, cond, true),
        key_part(pk) is Ok,
        part_fits(key_part(pk)),
        key_name(gsi, KeyType::Range) is Some,
    ensures
        ascending(selection(t, gsi, pk, cond), gsi, false),
{
    let b = lemma_index_selects(t, gsi, base, pk, cond);
    lemma_rows_between(t, gsi, pk, cond, b, true);
    lemma_rows_where(t, within(bounded(b.0, b.1, b.2)));
    let l = selection(t, gsi, pk, cond);
    let rows = rows_between(t, b, true);
    assert forall|i: int, j: int|
        0 <= i < j < l.len() && same_type(
            sort_value(#[trigger] l[i], gsi),
            sort_value(#[trigger] l[j], gsi),
        ) implies value_compares(CompareOp::Le, sort_value(l[i], gsi), sort_value(l[j], gsi)) by {
        assert(l[i] == item_of(rows[i]) && l[j] == item_of(rows[j]));
        let m = choose|m: int| 0 <= m < t.len() && t[m] == rows[i];
        let n = choose|n: int| 0 <= n < t.len() && t[n] == rows[j];
        assert(holds_entry(t[m], gsi, base));
        assert(holds_entry(t[n], gsi, base));
        lemma_entries_ordered(l[i], l[j], gsi, base);
        assert(lex_lt(rows[i].key, rows[j].key));
    }
}

/// Of two entries of a partition, the first in the index does not have the greater
/// index sort key.
proof fn lemma_entries_ordered(x: ItemView, y: ItemView, gsi: SchemaView, base: SchemaView)
    requires
        shadow_key(x, gsi, base) matches Ok(Some(_)),
        shadow_key(y, gsi, base) matches Ok(Some(_)),
        key_name(gsi, KeyType::Range) is Some,
        partition_part(x, gsi) == partition_part(y, gsi),
        same_type(sort_value(x, gsi), sort_value(y, gsi)),
        lex_lt(shadow_key(x, gsi, base)->Ok_0->0, shadow_key(y, gsi, base)->Ok_0->0),
    ensures
        value_compares(CompareOp::Le, sort_value(x, gsi), sort_value(y, gsi)),
{
    let (v, w) = (sort_value(x, gsi), sort_value(y, gsi));
    let kx = shadow_key(x, gsi, base)->Ok_0->0;
    let ky = shadow_key(y, gsi, base)->Ok_0->0;
    lemma_entry_key(x, gsi, base);
    lemma_entry_key(y, gsi, base);
    index_sort_order(y, x, gsi, base, key_name(gsi, KeyType::Range)->0);
    lex_asymmetric(kx, ky);
    lemma_value_bytes(CompareOp::Le, v, w);
    lemma_value_bytes(CompareOp::Lt, w, v);
    lemma_not_less(key_bytes(v), key_bytes(w));
}

} // verus!

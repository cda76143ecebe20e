//! What queries of local secondary indexes give.

use vstd::prelude::*;
use vstd::string::*;
use vstd::utf8::{encode_utf8, is_ascii_chars_encode_utf8};

use crate::bigtable::{in_range, newest, CellView, RowView};
use crate::bytes::{lex_le, lex_lt};
use crate::error::ErrView;
use crate::filter::{
    byte, cells_passing, lemma_cells_passing, passed, passed_chain, unanchored, FilterView,
};
use crate::lists::{lemma_filter_count, lemma_filter_member, lemma_reverse_count};
use crate::queries::{
    key_bytes, lemma_not_less, lemma_value_bytes, operand, page_at, page_end, same_type, seen,
    sort_meets, value_compares, well_formed,
};
use crate::query_scan::{
    attribute_filter, behind, directed, having, in_order, items_in, lemma_key_name_found,
    lemma_lsi_key, lemma_place_of, limited, lsi_items, lsi_key, lsi_read, lsi_result, order_bytes,
    ordered, ordering, passes, path_name, same_place, sk_passing, sk_test, CompareOp, CondView,
    ExprView, PageView, PathElement,
};
use crate::row_key::{item_part, key_part, part_fits, partition_range, row_key};
use crate::text::lemma_encode_concat;
use crate::value::{
    item_put_lookup, item_sorted, key_attributes, key_attributes_lookup, key_name, lookup,
    AttrView, ItemView, KeyType, SchemaView,
};

verus! {

/// Whether the operands of a condition are of the type of a sort key.
pub open spec fn operands_of_type(v: AttrView, cond: CondView) -> bool {
    match cond {
        CondView::Compare { op, value } => same_type(v, operand(value)->0),
        CondView::Between { low, high } => same_type(v, operand(low)->0) && same_type(
            v,
            operand(high)->0,
        ),
        CondView::BeginsWith { prefix } => same_type(v, operand(prefix)->0),
    }
}

/// Whether an index that sorts by `name` can hold an item, and a condition can be
/// put to it.
pub open spec fn indexable(item: ItemView, name: Seq<char>, cond: Option<CondView>) -> bool {
    lookup(item, name) matches Some(v) ==> {
        &&& key_part(v) is Ok
        &&& cond matches Some(c) ==> operands_of_type(v, c)
    }
}

/// Whether an item is in the index that sorts by `name`, and meets the condition.
pub open spec fn wanted(name: Seq<char>, cond: Option<CondView>) -> spec_fn(ItemView) -> bool {
    |x: ItemView|
        lookup(x, name) is Some && (cond matches Some(c) ==> sort_meets(lookup(x, name)->0, c))
}

/// Whether the sort keys of items, where they are of one type, never descend, or
/// backwards never ascend.
pub open spec fn sorted_in_direction(items: Seq<ItemView>, name: Seq<char>, forward: bool) -> bool {
    forall|i: int, j: int|
        0 <= i < j < items.len() && same_type(
            lookup(#[trigger] items[i], name)->0,
            lookup(#[trigger] items[j], name)->0,
        ) ==> value_compares(
            if forward {
                CompareOp::Le
            } else {
                CompareOp::Ge
            },
            lookup(items[i], name)->0,
            lookup(items[j], name)->0,
        )
}

spec fn has(name: Seq<char>) -> spec_fn(ItemView) -> bool {
    |x: ItemView| lookup(x, name) is Some
}

proof fn lemma_having(items: Seq<ItemView>, name: Seq<char>)
    ensures
        having(items, name) == items.filter(has(name)),
    decreases items.len(),
{
    reveal(Seq::filter);
    if items.len() > 0 {
        lemma_having(items.drop_last(), name);
    } else {
        assert(having(items, name) =~= items);
    }
}

proof fn lemma_condition(v: AttrView, c: CondView)
    requires
        key_part(v) is Ok,
        well_formed(c),
        operands_of_type(v, c),
    ensures
        sk_test(c) is Ok,
        passes(sk_test(c)->Ok_0, v) == Ok::<bool, ErrView>(sort_meets(v, c)),
{
    match c {
        CondView::Compare { op, value } => {
            lemma_value_bytes(op, v, operand(value)->0);
        },
        CondView::Between { low, high } => {
            lemma_value_bytes(CompareOp::Ge, v, operand(low)->0);
            lemma_value_bytes(CompareOp::Le, v, operand(high)->0);
        },
        CondView::BeginsWith { prefix } => {},
    }
}

proof fn lemma_passing(items: Seq<ItemView>, name: Seq<char>, c: CondView)
    requires
        well_formed(c),
        forall|i: int| 0 <= i < items.len() ==> indexable(#[trigger] items[i], name, Some(c)),
    ensures
        sk_test(c) is Ok,
        sk_passing(items, name, sk_test(c)->Ok_0) == Ok::<Seq<ItemView>, ErrView>(
            items.filter(wanted(name, Some(c))),
        ),
    decreases items.len(),
{
    reveal(Seq::filter);
    assert(sk_test(c) is Ok);
    if items.len() > 0 {
        let d = items.drop_last();
        assert forall|i: int| 0 <= i < d.len() implies indexable(#[trigger] d[i], name, Some(c)) by {
            assert(d[i] == items[i]);
        }
        lemma_passing(d, name, c);
        let x = items[items.len() - 1];
        assert(indexable(x, name, Some(c)));
        if let Some(v) = lookup(x, name) {
            lemma_condition(v, c);
        }
    } else {
        assert(items.filter(wanted(name, Some(c))) =~= Seq::<ItemView>::empty());
    }
}

proof fn lemma_in_order_filter(items: Seq<ItemView>, name: Seq<char>, p: spec_fn(ItemView) -> bool)
    requires
        in_order(items, name),
    ensures
        in_order(items.filter(p), name),
    decreases items.len(),
{
    reveal(Seq::filter);
    if items.len() > 0 {
        let d = items.drop_last();
        assert forall|i: int, j: int| 0 <= i < j < d.len() implies !lex_lt(
            order_bytes(#[trigger] d[j], name),
            order_bytes(#[trigger] d[i], name),
        ) by {
            assert(d[i] == items[i] && d[j] == items[j]);
        }
        lemma_in_order_filter(d, name, p);
        let f = d.filter(p);
        let r = items.filter(p);
        let n = items.len() - 1;
        assert forall|i: int, j: int| 0 <= i < j < r.len() implies !lex_lt(
            order_bytes(#[trigger] r[j], name),
            order_bytes(#[trigger] r[i], name),
        ) by {
            assert(r[i] == f[i]);
            if j < f.len() {
                assert(r[j] == f[j]);
            } else {
                lemma_filter_member(d, p, i);
                let m = choose|m: int| 0 <= m < d.len() && d[m] == f[i];
                assert(items[m] == f[i] && items[n] == r[j]);
            }
        }
    }
}

/// A query of a local secondary index gives exactly the items that have the sort
/// key of the index and meet the condition, each as often as it is there, in
/// ascending order of that sort key; backwards, with a condition or without, it
/// gives the same items the other way round, and so in descending order.
pub proof fn local_index_query_exact(
    rows: Seq<RowView>,
    base: SchemaView,
    name: Seq<char>,
    cond: Option<CondView>,
    forward: bool,
)
    requires
        items_in(rows, 1, 0) is Ok,
        cond matches Some(c) ==> well_formed(c),
        forall|i: int|
            0 <= i < items_in(rows, 1, 0)->Ok_0.len() ==> indexable(
                #[trigger] items_in(rows, 1, 0)->Ok_0[i],
                name,
                cond,
            ),
    ensures
        lsi_result(rows, base, name, cond, forward, None, None) matches Ok((items, last)) && {
            &&& last is None
            &&& forall|x: ItemView| #[trigger]
                items.to_multiset().count(x) == if lookup(x, name) is Some && (cond matches Some(c)
                    ==> sort_meets(lookup(x, name)->0, c)) {
                    items_in(rows, 1, 0)->Ok_0.to_multiset().count(x)
                } else {
                    0
                }
            &&& sorted_in_direction(items, name, forward)
            &&& lsi_result(rows, base, name, cond, !forward, None, None) == Ok::<PageView, ErrView>(
                (items.reverse(), None),
            )
        },
{
    let l = items_in(rows, 1, 0)->Ok_0;
    let h = having(l, name);
    let sorted = ordered(h, name);
    lemma_having(l, name);
    ordering(h, name);
    let kept = match cond {
        None => sorted,
        Some(c) => sorted.filter(wanted(name, cond)),
    };
    assert forall|x: ItemView| sorted.contains(x) implies l.contains(x) && lookup(
        x,
        name,
    ) is Some by {
        lemma_filter_count(l, has(name), x);
        sorted.to_multiset_ensures();
        l.to_multiset_ensures();
        h.to_multiset_ensures();
        assert(sorted.to_multiset().count(x) > 0);
        assert(h.to_multiset().count(x) > 0);
    }
    assert forall|i: int| 0 <= i < sorted.len() implies indexable(#[trigger] sorted[i], name, cond) by {
        assert(sorted.contains(sorted[i]));
        let j = choose|j: int| 0 <= j < l.len() && l[j] == sorted[i];
        assert(indexable(l[j], name, cond));
    }
    if let Some(c) = cond {
        lemma_passing(sorted, name, c);
        lemma_in_order_filter(sorted, name, wanted(name, cond));
    }
    assert(lsi_items(rows, name, cond, true) == Ok::<Seq<ItemView>, ErrView>(kept));
    let items = directed(kept, forward);
    assert(directed(kept, !forward) =~= items.reverse());
    assert forall|x: ItemView| #[trigger]
        items.to_multiset().count(x) == if wanted(name, cond)(x) {
            l.to_multiset().count(x)
        } else {
            0
        } by {
        lemma_filter_count(l, has(name), x);
        if cond is Some {
            lemma_filter_count(sorted, wanted(name, cond), x);
        }
        lemma_reverse_count(kept, x);
    }
    assert forall|i: int, j: int|
        0 <= i < j < items.len() && same_type(
            lookup(#[trigger] items[i], name)->0,
            lookup(#[trigger] items[j], name)->0,
        ) implies value_compares(
        if forward {
            CompareOp::Le
        } else {
            CompareOp::Ge
        },
        lookup(items[i], name)->0,
        lookup(items[j], name)->0,
    ) by {
        let n = kept.len() - 1;
        let (a, b) = if forward {
            (i, j)
        } else {
            (n - j, n - i)
        };
        lemma_kept_order(sorted, kept, name, cond, a, b);
        let (v, w) = (lookup(kept[a], name)->0, lookup(kept[b], name)->0);
        lemma_value_bytes(CompareOp::Le, v, w);
        lemma_value_bytes(CompareOp::Ge, w, v);
    }
}

proof fn lemma_kept_order(
    sorted: Seq<ItemView>,
    kept: Seq<ItemView>,
    name: Seq<char>,
    cond: Option<CondView>,
    a: int,
    b: int,
)
    requires
        forall|i: int| 0 <= i < sorted.len() ==> indexable(#[trigger] sorted[i], name, cond),
        forall|x: ItemView| sorted.contains(x) ==> lookup(x, name) is Some,
        in_order(kept, name),
        kept == sorted || kept == sorted.filter(wanted(name, cond)),
        0 <= a < b < kept.len(),
    ensures
        lookup(kept[a], name) is Some,
        lookup(kept[b], name) is Some,
        key_part(lookup(kept[a], name)->0) is Ok,
        key_part(lookup(kept[b], name)->0) is Ok,
        lex_le(key_bytes(lookup(kept[a], name)->0), key_bytes(lookup(kept[b], name)->0)),
{
    if kept != sorted {
        lemma_filter_member(sorted, wanted(name, cond), a);
        lemma_filter_member(sorted, wanted(name, cond), b);
    }
    let i = choose|i: int| 0 <= i < sorted.len() && sorted[i] == kept[a];
    let j = choose|j: int| 0 <= j < sorted.len() && sorted[j] == kept[b];
    assert(sorted.contains(kept[a]) && sorted.contains(kept[b]));
    assert(indexable(sorted[i], name, cond));
    assert(indexable(sorted[j], name, cond));
    assert(!lex_lt(order_bytes(kept[b], name), order_bytes(kept[a], name)));
    lemma_not_less(order_bytes(kept[a], name), order_bytes(kept[b], name));
}

/// The key with which a page of a local secondary index ends.
pub open spec fn lsi_last(base: SchemaView, name: Seq<char>) -> spec_fn(ItemView) -> ItemView {
    |x: ItemView| lsi_key(x, base, name)
}

/// A page of a query of a local secondary index begins behind the items that were
/// seen, misses none and repeats none. It ends with a key if, and only if, it has
/// as many items as the limit says. That key holds exactly the attributes of the
/// table's key and the sort key of the index. The items must differ in the sort
/// key of the index or that of the table.
pub proof fn local_index_page_follows(
    rows: Seq<RowView>,
    base: SchemaView,
    name: Seq<char>,
    cond: Option<CondView>,
    forward: bool,
    limit: Option<i64>,
    i: int,
)
    requires
        lsi_result(rows, base, name, cond, forward, None, None) is Ok,
        limit matches Some(l) ==> l >= 1,
        ({
            let all = lsi_result(rows, base, name, cond, forward, None, None)->Ok_0.0;
            &&& 0 <= i <= all.len()
            &&& forall|j: int| 0 <= j < all.len() ==> item_sorted(#[trigger] all[j])
            &&& forall|j: int, k: int|
                0 <= j < k < all.len() ==> lookup(#[trigger] all[j], name) != lookup(
                    #[trigger] all[k],
                    name,
                ) || (key_name(base, KeyType::Range) matches Some(n) && lookup(all[j], n) != lookup(
                    all[k],
                    n,
                ))
        }),
    ensures
        ({
            let all = lsi_result(rows, base, name, cond, forward, None, None)->Ok_0.0;
            lsi_result(
                rows,
                base,
                name,
                cond,
                forward,
                limit,
                seen(all, lsi_last(base, name), i),
            ) == Ok::<PageView, ErrView>(page_at(all, lsi_last(base, name), limit, i))
        }),
{
    let all = lsi_result(rows, base, name, cond, forward, None, None)->Ok_0.0;
    let sk = key_name(base, KeyType::Range);
    assert(lsi_items(rows, name, cond, forward) == Ok::<Seq<ItemView>, ErrView>(all));
    let start = seen(all, lsi_last(base, name), i);
    if i > 0 {
        let last = all[i - 1];
        let key = lsi_key(last, base, name);
        assert(item_sorted(last));
        lemma_lsi_key(last, base, name, name);
        if let Some(n) = sk {
            lemma_key_name_found(base, KeyType::Range, n);
            lemma_lsi_key(last, base, name, n);
        }
        assert forall|j: int| 0 <= j < i - 1 implies !same_place(#[trigger] all[j], key, name, sk) by {
            assert(all[i - 1] == last);
        }
        lemma_place_of(all, key, name, sk, i - 1);
    }
    let rest = behind(all, start, name, sk);
    assert(rest =~= all.skip(i));
    let e = page_end(all.len() as int, i, limit);
    let page = limited(rest, limit, base, name);
    assert(page.0 =~= all.subrange(i, e));
}

/// The key with which a page ends has the attributes of the table's key and the
/// sort key of the index, as the last item has them, and no others.
pub proof fn local_index_keys(item: ItemView, base: SchemaView, name: Seq<char>, other: Seq<char>)
    requires
        item_sorted(item),
    ensures
        lookup(lsi_key(item, base, name), other) == if other == name || exists|i: int|
            0 <= i < base.len() && (#[trigger] base[i]).0 == other {
            lookup(item, other)
        } else {
            None
        },
{
    key_attributes_lookup(item, base, other);
    if let Some(v) = lookup(item, name) {
        item_put_lookup(key_attributes(item, base), name, v, other);
    }
}

/// A query of a local index reads the whole partition, in the order of its rows, and
/// of its rows exactly those that have the attribute that the index sorts by, each
/// with the newest cell of every column.
#[verifier::rlimit(40)]
pub proof fn local_index_reads_the_partition(
    table: Seq<char>,
    lsi: SchemaView,
    path: Seq<PathElement>,
    pk: AttrView,
    item: ItemView,
    schema: SchemaView,
    cells: Seq<CellView>,
)
    requires
        path_name(path) is Ok,
        key_name(lsi, KeyType::Range) is Some,
        key_part(pk) is Ok,
        row_key(item, schema) is Ok,
        part_fits(key_part(pk)),
        part_fits(item_part(item, key_name(schema, KeyType::Hash)->0, "missing key attr "@)),
        ({
            let b = encode_utf8(key_name(lsi, KeyType::Range)->0);
            b.len() > 0 && b[b.len() - 1] != byte('*')
        }),
    ensures
        lsi_read(table, lsi, path, ExprView::Placeholder(Ok(pk))) matches Ok((q, name)) && {
            &&& Some(name) == key_name(lsi, KeyType::Range)
            &&& q.table == table
            &&& q.keys.len() == 0
            &&& q.ranges.len() == 1
            &&& q.limit == 0
            &&& !q.reversed
            &&& in_range(row_key(item, schema)->Ok_0, q.ranges[0]) <==> item_part(
                item,
                key_name(schema, KeyType::Hash)->0,
                "missing key attr "@,
            ) == key_part(pk)
            &&& passed(q.filter, cells) == if exists|i: int|
                0 <= i < cells.len() && (#[trigger] cells[i]).qualifier == encode_utf8(name) {
                newest(cells, 1)
            } else {
                Seq::empty()
            }
        },
{
    partition_range(pk, item, schema);
    let name = key_name(lsi, KeyType::Range)->0;
    let b = encode_utf8(name);
    let s = encode_utf8("^"@ + name + "$"@);
    reveal_strlit("^");
    reveal_strlit("$");
    lemma_encode_concat("^"@ + name, "$"@);
    lemma_encode_concat("^"@, name);
    is_ascii_chars_encode_utf8("^"@);
    is_ascii_chars_encode_utf8("$"@);
    assert("^"@[0] == '^' && "$"@[0] == '$');
    assert(s.len() == b.len() + 2);
    assert(s[0] == byte('^'));
    assert(s.last() == byte('$'));
    assert(s.skip(1).drop_last() =~= b);
    assert(s.skip(1).last() == byte('$'));
    assert(unanchored(s) == b);
    let q = FilterView::Qualifier(s);
    let f = FilterView::Condition {
        predicate: Box::new(q),
        if_true: Box::new(FilterView::PassAll(true)),
        if_false: Box::new(FilterView::BlockAll(true)),
    };
    let l = seq![f, FilterView::Limit(1)];
    reveal_with_fuel(passed_chain, 4);
    reveal_with_fuel(passed, 4);
    assert(l.drop_last() =~= seq![f]);
    assert(l.drop_last().drop_last() =~= Seq::<FilterView>::empty());
    let found = cells_passing(q, cells);
    assert(passed(attribute_filter(name), cells) == passed_chain(l, cells));
    if found.len() > 0 {
        let c = found[0];
        assert(found.contains(c));
        lemma_cells_passing(q, cells, c);
        let i = choose|i: int| 0 <= i < cells.len() && cells[i] == c;
        assert(cells[i].qualifier == b);
    }
    if exists|i: int| 0 <= i < cells.len() && (#[trigger] cells[i]).qualifier == b {
        let i = choose|i: int| 0 <= i < cells.len() && (#[trigger] cells[i]).qualifier == b;
        assert(cells.contains(cells[i]));
        lemma_cells_passing(q, cells, cells[i]);
        assert(found.len() > 0);
    }
    assert(newest(Seq::<CellView>::empty(), 1) =~= Seq::<CellView>::empty());
}

} // verus!

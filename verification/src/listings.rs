//! What lists hold: records of streams, streams and tables.

use vstd::prelude::*;
use vstd::string::*;

use crate::error::ErrView;
use crate::lists::lemma_filter_member;
use crate::sorting::{
    after_text, in_text_order, is_in_order, listing_exact, text_behind, text_order,
};
use crate::stream_engine::{
    greatest_sequence, read_records, records_after, shard_id, shard_ids_round_trip, shard_result,
    stream_page, summaries, RecordRow,
};
use crate::streams::{StreamMeta, StreamRecord};
use crate::tables::{key_tables, table_page, tables_after};
use crate::text::{
    last_index, lemma_last_index, lemma_last_index_is, rsplit_once, str_less, str_less_asymmetric,
    str_less_transitive,
};

verus! {

/// Whether a key ends with a colon and a name, in which there is no colon.
pub open spec fn ends_with_name(key: Seq<char>, name: Seq<char>) -> bool {
    &&& !name.contains(':')
    &&& exists|head: Seq<char>| key == #[trigger] (head + seq![':'] + name)
}

pub proof fn lemma_name(key: Seq<char>, name: Seq<char>)
    requires
        ends_with_name(key, name),
    ensures
        rsplit_once(key, ':') matches Some((_, s)) && s == name,
{
    let head = choose|head: Seq<char>| key == #[trigger] (head + seq![':'] + name);
    let i = head.len() as int;
    assert(key[i] == ':');
    assert forall|j: int| i < j < key.len() implies key[j] != ':' by {
        assert(key[j] == name[j - i - 1]);
        if key[j] == ':' {
            assert(name.contains(':'));
        }
    }
    lemma_last_index_is(key, ':', i);
    assert(key.skip(i + 1) =~= name);
}

pub proof fn lemma_named(key: Seq<char>)
    ensures
        rsplit_once(key, ':') matches Some((_, s)) ==> ends_with_name(key, s),
{
    lemma_last_index(key, ':');
    let i = last_index(key, ':');
    if i >= 0 {
        let s = key.skip(i + 1);
        if s.contains(':') {
            let j = choose|j: int| 0 <= j < s.len() && s[j] == ':';
            assert(key[i + 1 + j] == ':');
        }
        assert(key =~= key.take(i) + seq![':'] + s);
    }
}

// ---------------------------------------------------------------------------
// Records of a stream
// ---------------------------------------------------------------------------

/// The sequence number of a record.
pub open spec fn number_of(x: StreamRecord) -> Seq<char> {
    x.dynamodb.sequence_number@
}

/// Whether a row has a record whose sequence number is behind the given one.
pub open spec fn is_behind(row: RecordRow, after: Option<Seq<char>>) -> bool {
    row.record matches Some(x) && text_behind(after, number_of(x))
}

/// Whether the keys of rows end with the sequence numbers of their records.
pub open spec fn keyed_by_number(rows: Seq<RecordRow>) -> bool {
    forall|i: int|
        0 <= i < rows.len() ==> ((#[trigger] rows[i]).record matches Some(x) ==> ends_with_name(
            rows[i].key@,
            number_of(x),
        ))
}

spec fn wanted(after: Option<Seq<char>>) -> spec_fn(RecordRow) -> bool {
    |r: RecordRow| is_behind(r, after)
}

spec fn entry() -> spec_fn(RecordRow) -> (Seq<char>, StreamRecord) {
    |r: RecordRow| (number_of(r.record->0), r.record->0)
}

proof fn lemma_records_after(rows: Seq<RecordRow>, after: Option<Seq<char>>)
    requires
        keyed_by_number(rows),
    ensures
        records_after(rows, after) == rows.filter(wanted(after)).map_values(entry()),
    decreases rows.len(),
{
    reveal(Seq::filter);
    if rows.len() > 0 {
        let d = rows.drop_last();
        let n = rows.len() - 1;
        assert forall|i: int| 0 <= i < d.len() implies ((#[trigger] d[i]).record matches Some(x)
            ==> ends_with_name(d[i].key@, number_of(x))) by {
            assert(d[i] == rows[i]);
        }
        lemma_records_after(d, after);
        let r = rows[n];
        assert(r == rows.last());
        let f = d.filter(wanted(after));
        if let Some(x) = r.record {
            lemma_name(r.key@, number_of(x));
            assert(f.push(r).map_values(entry()) =~= f.map_values(entry()).push((number_of(x), x)));
        }
    } else {
        assert(records_after(rows, after) =~= rows.filter(wanted(after)).map_values(entry()));
    }
}

/// Reading a stream behind a sequence number gives exactly the records with
/// greater sequence numbers, each once for each of its rows, in the order of their
/// sequence numbers; with a limit, the first of them.
pub proof fn records_are_read_in_order(rows: Seq<RecordRow>, after: Option<Seq<char>>, limit: i64)
    requires
        keyed_by_number(rows),
    ensures
        ({
            let all = read_records(rows, after, 0);
            &&& is_in_order(all)
            &&& all.len() == rows.filter(|r: RecordRow| is_behind(r, after)).len()
            &&& forall|i: int|
                0 <= i < rows.len() && is_behind(#[trigger] rows[i], after) ==> all.contains(
                    (number_of(rows[i].record->0), rows[i].record->0),
                )
            &&& forall|j: int|
                0 <= j < all.len() ==> (#[trigger] all[j]).0 == number_of(all[j].1) && text_behind(
                    after,
                    all[j].0,
                ) && exists|i: int|
                    0 <= i < rows.len() && (#[trigger] rows[i]).record == Some(all[j].1)
            &&& limit <= 0 ==> read_records(rows, after, limit) == all
            &&& 0 < limit <= all.len() ==> read_records(rows, after, limit) == all.take(limit as int)
            &&& limit > all.len() ==> read_records(rows, after, limit) == all
        }),
{
    let l = records_after(rows, after);
    let all = read_records(rows, after, 0);
    let p = wanted(after);
    let f = rows.filter(p);
    assert(p =~= |r: RecordRow| is_behind(r, after));
    lemma_records_after(rows, after);
    text_order(l);
    l.to_multiset_ensures();
    all.to_multiset_ensures();
    assert(all.len() == l.len());
    broadcast use vstd::seq_lib::group_filter_ensures;

    assert forall|i: int|
        0 <= i < rows.len() && is_behind(#[trigger] rows[i], after) implies all.contains(
        (number_of(rows[i].record->0), rows[i].record->0),
    ) by {
        assert(p(rows[i]));
        assert(f.contains(rows[i]));
        let k = choose|k: int| 0 <= k < f.len() && f[k] == rows[i];
        let x = (number_of(rows[i].record->0), rows[i].record->0);
        assert(l[k] == x);
        assert(l.to_multiset().count(x) > 0);
    }
    assert forall|j: int| 0 <= j < all.len() implies (#[trigger] all[j]).0 == number_of(all[j].1)
        && text_behind(after, all[j].0) && exists|i: int|
        0 <= i < rows.len() && (#[trigger] rows[i]).record == Some(all[j].1) by {
        assert(all.contains(all[j]));
        assert(all.to_multiset().count(all[j]) > 0);
        assert(l.contains(all[j]));
        let k = choose|k: int| 0 <= k < l.len() && l[k] == all[j];
        assert(l[k] == entry()(f[k]));
        lemma_filter_member(rows, p, k);
        let i = choose|i: int| 0 <= i < rows.len() && rows[i] == f[k];
        assert(rows[i].record == Some(all[j].1));
    }
    if limit == all.len() {
        assert(all.take(limit as int) =~= all);
    }
}

/// The latest sequence number of a shard is that of one of its rows, and no row
/// has a greater one. There is none exactly where no key has a sequence number.
#[verifier::rlimit(40)]
pub proof fn the_latest_number_is_greatest(keys: Seq<Seq<char>>)
    ensures
        greatest_sequence(keys) matches Some(m) ==> (exists|i: int|
            0 <= i < keys.len() && ends_with_name(#[trigger] keys[i], m)),
        forall|i: int, s: Seq<char>|
            0 <= i < keys.len() && #[trigger] ends_with_name(keys[i], s) ==> (greatest_sequence(
                keys,
            ) matches Some(m) && !str_less(m, s)),
    decreases keys.len(),
{
    if keys.len() > 0 {
        let d = keys.drop_last();
        let n = keys.len() - 1;
        let k = keys[n];
        the_latest_number_is_greatest(d);
        lemma_named(k);
        if let Some(m) = greatest_sequence(d) {
            let i = choose|i: int| 0 <= i < d.len() && ends_with_name(#[trigger] d[i], m);
            assert(ends_with_name(keys[i], m));
        }
        assert(k == keys.last());
        assert forall|i: int, s: Seq<char>|
            0 <= i < keys.len() && #[trigger] ends_with_name(keys[i], s) implies (
        greatest_sequence(keys) matches Some(m) && !str_less(m, s)) by {
            if i < n {
                assert(ends_with_name(d[i], s));
                let m = greatest_sequence(d)->0;
                if let Some((_, z)) = rsplit_once(k, ':') {
                    if str_less(m, z) && str_less(z, s) {
                        str_less_transitive(m, z, s);
                    }
                }
            } else {
                lemma_name(k, s);
                str_less_asymmetric(s, s);
            }
        }
        if let Some((_, z)) = rsplit_once(k, ':') {
            assert(ends_with_name(keys[n], z));
        }
    }
}

/// A shard is accepted exactly where the stream is there and the shard is one of
/// it: the identifiers of the shards of other streams are refused.
pub proof fn shards_belong_to_their_streams(
    arn: Seq<char>,
    other: Seq<char>,
    shard: Seq<char>,
    there: bool,
)
    requires
        forall|j: int|
            0 <= j < other.len() ==> !(#[trigger] other[j] == '~' && (j + 1 == other.len() || other[j
                + 1] == '~')),
    ensures
        shard_result(arn, shard_id(other, shard), there) is Ok <==> (other == arn && there),
        other != arn ==> shard_result(arn, shard_id(other, shard), there) == Err::<(), ErrView>(
            ErrView::Validation("shard does not belong to stream"@),
        ),
        other == arn && !there ==> shard_result(arn, shard_id(other, shard), there) == Err::<
            (),
            ErrView,
        >(ErrView::Validation("Stream not found: "@ + arn)),
{
    shard_ids_round_trip(other, shard);
}

// ---------------------------------------------------------------------------
// Streams
// ---------------------------------------------------------------------------

/// Whether a stream could be read and is that of a table, if one is asked for.
pub open spec fn is_stream_of(m: Option<StreamMeta>, table: Option<Seq<char>>) -> bool {
    m matches Some(s) && (table matches Some(t) ==> s.table_name@ == t)
}

/// The streams that are collected are exactly those of the table, or all where no
/// table is asked for, each with its name, its label and its table.
pub proof fn streams_are_collected(l: Seq<Option<StreamMeta>>, table: Option<Seq<char>>)
    ensures
        summaries(l, table) == l.filter(|m: Option<StreamMeta>| is_stream_of(m, table)).map_values(
            |m: Option<StreamMeta>|
                (m->0.stream_arn@, (m->0.stream_label@, m->0.table_name@)),
        ),
    decreases l.len(),
{
    reveal(Seq::filter);
    let p = |m: Option<StreamMeta>| is_stream_of(m, table);
    let e = |m: Option<StreamMeta>| (m->0.stream_arn@, (m->0.stream_label@, m->0.table_name@));
    if l.len() > 0 {
        let d = l.drop_last();
        streams_are_collected(d, table);
        let f = d.filter(p);
        assert(f.push(l.last()).map_values(e) =~= f.map_values(e).push(e(l.last())));
    } else {
        assert(summaries(l, table) =~= l.filter(p).map_values(e));
    }
}

/// A list of streams holds exactly those whose names are behind the given one,
/// each as often as it is there, in the order of their names. With a limit it holds
/// the first of them, and the name of the last, with which to go on, exactly where
/// there are more.
pub proof fn streams_are_listed<T>(
    l: Seq<(Seq<char>, T)>,
    start: Option<Seq<char>>,
    limit: i64,
)
    ensures
        ({
            let all = stream_page(l, start, 0).0;
            &&& stream_page(l, start, 0).1 is None
            &&& is_in_order(all)
            &&& forall|x: (Seq<char>, T)| #[trigger]
                all.to_multiset().count(x) == if text_behind(start, x.0) {
                    l.to_multiset().count(x)
                } else {
                    0
                }
            &&& limit > 0 && all.len() > limit ==> stream_page(l, start, limit) == (
                all.take(limit as int),
                Some(all[limit - 1].0),
            )
            &&& limit <= 0 || all.len() <= limit ==> stream_page(l, start, limit) == (
                all,
                None::<Seq<char>>,
            )
        }),
{
    listing_exact(l, start);
}

// ---------------------------------------------------------------------------
// Tables
// ---------------------------------------------------------------------------

proof fn lemma_key_tables(keys: Seq<Seq<char>>)
    ensures
        forall|i: int, name: Seq<char>|
            0 <= i < keys.len() && #[trigger] ends_with_name(keys[i], name) ==> key_tables(
                keys,
            ).contains((name, ())),
        forall|j: int|
            0 <= j < key_tables(keys).len() ==> exists|i: int|
                0 <= i < keys.len() && ends_with_name(
                    #[trigger] keys[i],
                    (#[trigger] key_tables(keys)[j]).0,
                ),
    decreases keys.len(),
{
    if keys.len() > 0 {
        let d = keys.drop_last();
        let n = keys.len() - 1;
        let k = keys[n];
        assert(k == keys.last());
        lemma_key_tables(d);
        lemma_named(k);
        let (a, b) = (key_tables(d), key_tables(keys));
        assert forall|i: int, name: Seq<char>|
            0 <= i < keys.len() && #[trigger] ends_with_name(keys[i], name) implies b.contains(
            (name, ()),
        ) by {
            if i < n {
                assert(ends_with_name(d[i], name));
                let j = choose|j: int| 0 <= j < a.len() && a[j] == (name, ());
                assert(b[j] == (name, ()));
            } else {
                lemma_name(k, name);
                assert(b[b.len() - 1] == (name, ()));
            }
        }
        assert forall|j: int| 0 <= j < b.len() implies exists|i: int|
            0 <= i < keys.len() && ends_with_name(#[trigger] keys[i], (#[trigger] b[j]).0) by {
            if j < a.len() {
                assert(b[j] == a[j]);
                let i = choose|i: int| 0 <= i < d.len() && ends_with_name(#[trigger] d[i], a[j].0);
                assert(ends_with_name(keys[i], b[j].0));
            } else {
                assert(ends_with_name(keys[n], b[j].0));
            }
        }
    }
}

/// The tables of an account are listed by the names with which the keys of their
/// rows end: exactly those behind the given one, in order. With a limit the list
/// holds the first of them, and the last of these, with which to go on, exactly
/// where there are more.
pub proof fn tables_are_listed(
    keys: Seq<Seq<char>>,
    start: Option<Seq<char>>,
    limit: Option<i64>,
    name: Seq<char>,
)
    requires
        limit matches Some(l) ==> l > 0,
    ensures
        ({
            let all = tables_after(keys, start);
            let page = table_page(all, limit);
            &&& all.contains(name) <==> text_behind(start, name) && exists|i: int|
                0 <= i < keys.len() && ends_with_name(#[trigger] keys[i], name)
            &&& forall|i: int, j: int|
                0 <= i < j < all.len() ==> !str_less(#[trigger] all[j], #[trigger] all[i])
            &&& page.0 == match limit {
                Some(l) => if l < all.len() {
                    all.take(l as int)
                } else {
                    all
                },
                None => all,
            }
            &&& page.1 is Some <==> page.0.len() < all.len()
            &&& page.1 matches Some(last) ==> last == page.0.last()
        }),
{
    let k = key_tables(keys);
    let s = after_text(in_text_order(k), start);
    let all = tables_after(keys, start);
    listing_exact(k, start);
    lemma_key_tables(keys);
    k.to_multiset_ensures();
    s.to_multiset_ensures();
    if all.contains(name) {
        let i = choose|i: int| 0 <= i < all.len() && all[i] == name;
        assert(s[i] == (name, ()));
        assert(s.contains((name, ())));
        assert(s.to_multiset().count((name, ())) > 0);
        assert(k.contains((name, ())));
        let j = choose|j: int| 0 <= j < k.len() && k[j] == (name, ());
        assert(k[j].0 == name);
    }
    if text_behind(start, name) && exists|i: int|
        0 <= i < keys.len() && ends_with_name(#[trigger] keys[i], name) {
        assert(k.contains((name, ())));
        assert(s.to_multiset().count((name, ())) > 0);
        assert(s.contains((name, ())));
        let i = choose|i: int| 0 <= i < s.len() && s[i] == (name, ());
        assert(all[i] == name);
    }
    assert forall|i: int, j: int| 0 <= i < j < all.len() implies !str_less(
        #[trigger] all[j],
        #[trigger] all[i],
    ) by {
        assert(all[i] == s[i].0 && all[j] == s[j].0);
    }
}

} // verus!

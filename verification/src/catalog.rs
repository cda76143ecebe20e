//! The catalog: records in JSON, one row each, in the family `c` under the
//! column `j`. [`crate::keys`] says how the rows are named.

use serde_json::Value;
use vstd::prelude::*;
use vstd::string::*;
use vstd::utf8::{encode_utf8, is_ascii_chars_encode_utf8};

use crate::bigtable::{
    applied, cell_views, checked, delete_row_mutations, in_column, in_range,
    lemma_newest_of_concat, lemma_newest_of_newest, mut_views, newest, newest_of, row_deletion,
    row_views, set_cell, set_cell_view, table_path, BigtableClient, BoundView, CellView,
    CheckAndMutateRowRequest, CheckView, EndKey, MutView, MutateRowRequest, MutateView, Mutation,
    RangeView, ReadRowsRequest, ReadView, Row, RowCell, RowView, StartKey,
};
use crate::bytes::{bytes_eq, lex_asymmetric, lex_lt_at, lex_witness};
use crate::filter::{
    cell_passes, cells_passing, chain, family_filter, lemma_cells_passing, lemma_filter_views,
    matches_row, newest_filter, passed, passed_chain, qualifier_filter, since_filter, unanchored,
    value_filter, FilterView,
};
use crate::json::{
    json_bytes, json_from_slice, json_parsed, json_plain, json_to_vec, json_view, reads_as,
    JsonView,
};
use crate::query_scan::{lemma_text_bytes, range_read, read_range};
use crate::text::{cat2, decode_text, str_eq, text, text_bytes, utf8_decoded, utf8_injective};

verus! {

/// The table of the catalog.
pub const CATALOG_TABLE: &'static str = "__extenddb_catalog__";

/// The family of records.
pub const CF: &'static str = "c";

/// The column of records.
pub const QUALIFIER: &'static str = "j";

/// The first cell that holds a record.
pub open spec fn record_cell(cells: Seq<CellView>) -> Option<CellView> {
    newest_of(cells, CF@, encode_utf8(QUALIFIER@))
}

fn find_record(cells: &[RowCell]) -> (r: Option<&RowCell>)
    ensures
        record_cell(cell_views(cells@)) == match r {
            Some(c) => Some(c@),
            None => None,
        },
{
    let ghost all = cell_views(cells@);
    let mut i: usize = 0;
    while i < cells.len()
        invariant
            i <= cells.len(),
            all == cell_views(cells@),
            record_cell(all.take(i as int)) is None,
        decreases cells.len() - i,
    {
        let c = &cells[i];
        proof {
            assert(all.take(i + 1).drop_last() =~= all.take(i as int));
            assert(all.take(i + 1).last() == c@);
        }
        if str_eq(c.family_name.as_str(), CF) && bytes_eq(
            c.qualifier.as_slice(),
            QUALIFIER.as_bytes(),
        ) {
            proof {
                assert(all =~= all.take(i + 1) + all.skip(i + 1));
                lemma_newest_of_concat(
                    all.take(i + 1),
                    all.skip(i + 1),
                    CF@,
                    encode_utf8(QUALIFIER@),
                );
            }
            return Some(c);
        }
        i = i + 1;
    }
    assert(all.take(i as int) =~= all);
    None
}

/// The record that came back for a key: that of the first row that has one.
pub open spec fn record_found(rows: Seq<RowView>) -> Option<JsonView>
    decreases rows.len(),
{
    if rows.len() == 0 {
        None
    } else {
        match record_cell(rows[0].cells) {
            Some(c) => match json_parsed(c.value) {
                Ok(v) => Some(v),
                Err(_) => None,
            },
            None => record_found(rows.skip(1)),
        }
    }
}

pub open spec fn opt_json(v: Option<Value>) -> Option<JsonView> {
    match v {
        Some(x) => Some(json_view(x)),
        None => None,
    }
}

/// Takes the record from the rows that came back for a key. A record that is
/// no JSON is as good as none.
pub fn catalog_value(rows: &[Row]) -> (r: Option<Value>)
    ensures
        opt_json(r) == record_found(row_views(rows@)),
{
    let ghost all = row_views(rows@);
    let mut i: usize = 0;
    assert(all.skip(0) =~= all);
    while i < rows.len()
        invariant
            i <= rows.len(),
            all == row_views(rows@),
            record_found(all.skip(i as int)) == record_found(all),
        decreases rows.len() - i,
    {
        assert(all.skip(i as int)[0] == rows@[i as int]@);
        match find_record(rows[i].cells.as_slice()) {
            Some(c) => {
                return match json_from_slice(c.value.as_slice()) {
                    Ok(v) => Some(v),
                    Err(_) => None,
                };
            },
            None => {},
        }
        assert(all.skip(i as int).skip(1) =~= all.skip(i + 1));
        i = i + 1;
    }
    None
}

/// The records that a scan gives, by their keys. Records that are no JSON are
/// left out.
pub open spec fn records_found(rows: Seq<RowView>) -> Result<Seq<(Seq<char>, JsonView)>, Seq<char>>
    decreases rows.len(),
{
    if rows.len() == 0 {
        Ok(Seq::empty())
    } else {
        match records_found(rows.drop_last()) {
            Err(e) => Err(e),
            Ok(l) => match utf8_decoded(rows.last().key) {
                Err(m) => Err("catalog scan key: "@ + m),
                Ok(key) => match record_cell(rows.last().cells) {
                    Some(c) => match json_parsed(c.value) {
                        Ok(v) => Ok(l.push((key, v))),
                        Err(_) => Ok(l),
                    },
                    None => Ok(l),
                },
            },
        }
    }
}

pub open spec fn record_views(l: Seq<(String, Value)>) -> Seq<(Seq<char>, JsonView)> {
    l.map_values(|e: (String, Value)| (e.0@, json_view(e.1)))
}

proof fn lemma_records_error(rows: Seq<RowView>, n: int)
    requires
        0 <= n <= rows.len(),
        records_found(rows.take(n)) is Err,
    ensures
        records_found(rows) == records_found(rows.take(n)),
    decreases rows.len(),
{
    if n < rows.len() {
        assert(rows.drop_last().take(n) =~= rows.take(n));
        lemma_records_error(rows.drop_last(), n);
    } else {
        assert(rows.take(n) =~= rows);
    }
}

/// Takes the records from the rows that came back for a scan.
pub fn catalog_records(rows: &[Row]) -> (r: Result<Vec<(String, Value)>, String>)
    ensures
        match r {
            Ok(l) => records_found(row_views(rows@)) == Ok::<
                Seq<(Seq<char>, JsonView)>,
                Seq<char>,
            >(record_views(l@)),
            Err(e) => records_found(row_views(rows@)) == Err::<
                Seq<(Seq<char>, JsonView)>,
                Seq<char>,
            >(e@),
        },
{
    let ghost all = row_views(rows@);
    let mut out: Vec<(String, Value)> = Vec::new();
    let mut i: usize = 0;
    assert(record_views(out@) =~= Seq::empty());
    while i < rows.len()
        invariant
            i <= rows.len(),
            all == row_views(rows@),
            records_found(all.take(i as int)) == Ok::<Seq<(Seq<char>, JsonView)>, Seq<char>>(
                record_views(out@),
            ),
        decreases rows.len() - i,
    {
        proof {
            assert(all.take(i + 1).drop_last() =~= all.take(i as int));
            assert(all.take(i + 1).last() == rows@[i as int]@);
        }
        let key = match decode_text(rows[i].key.as_slice()) {
            Ok(k) => k,
            Err(m) => {
                proof {
                    lemma_records_error(all, i + 1);
                }
                return Err(cat2("catalog scan key: ", m.as_str()));
            },
        };
        if let Some(c) = find_record(rows[i].cells.as_slice()) {
            if let Ok(v) = json_from_slice(c.value.as_slice()) {
                let ghost before = record_views(out@);
                let ghost added = (key@, json_view(v));
                out.push((key, v));
                assert(record_views(out@) =~= before.push(added));
            }
        }
        i = i + 1;
    }
    assert(all.take(i as int) =~= all);
    Ok(out)
}

/// The keys of the rows that a scan gives.
pub open spec fn keys_found(rows: Seq<RowView>) -> Result<Seq<Seq<char>>, Seq<char>>
    decreases rows.len(),
{
    if rows.len() == 0 {
        Ok(Seq::empty())
    } else {
        match keys_found(rows.drop_last()) {
            Err(e) => Err(e),
            Ok(l) => match utf8_decoded(rows.last().key) {
                Err(m) => Err("catalog scan key: "@ + m),
                Ok(key) => Ok(l.push(key)),
            },
        }
    }
}

proof fn lemma_keys_error(rows: Seq<RowView>, n: int)
    requires
        0 <= n <= rows.len(),
        keys_found(rows.take(n)) is Err,
    ensures
        keys_found(rows) == keys_found(rows.take(n)),
    decreases rows.len(),
{
    if n < rows.len() {
        assert(rows.drop_last().take(n) =~= rows.take(n));
        lemma_keys_error(rows.drop_last(), n);
    } else {
        assert(rows.take(n) =~= rows);
    }
}

// ---------------------------------------------------------------------------
// Requests
// ---------------------------------------------------------------------------

/// The deletion of a row of the catalog.
pub open spec fn row_removal(client: BigtableClient, key: Seq<u8>) -> MutateView {
    MutateView {
        table: table_path(client.project_id@, client.instance_id@, CATALOG_TABLE@),
        profile: Seq::empty(),
        key,
        mutations: row_deletion(),
    }
}

/// A change of a row of the catalog.
pub open spec fn catalog_mutation(client: BigtableClient, key: Seq<char>, m: Seq<MutView>) -> MutateView {
    MutateView {
        table: table_path(client.project_id@, client.instance_id@, CATALOG_TABLE@),
        profile: Seq::empty(),
        key: encode_utf8(key),
        mutations: m,
    }
}

/// The mutations that write a record.
pub open spec fn record_mutations(value: JsonView) -> Seq<MutView> {
    seq![set_cell_view(CF@, encode_utf8(QUALIFIER@), json_bytes(value))]
}

/// The read of a record.
pub open spec fn record_read(client: BigtableClient, key: Seq<char>) -> ReadView {
    ReadView {
        table: table_path(client.project_id@, client.instance_id@, CATALOG_TABLE@),
        profile: Seq::empty(),
        keys: seq![encode_utf8(key)],
        ranges: Seq::empty(),
        limit: 1,
        filter: FilterView::Limit(1),
        reversed: false,
    }
}

/// The range of the keys that begin with a prefix.
pub open spec fn prefix_keys(prefix: Seq<char>) -> RangeView {
    RangeView {
        start: BoundView::Closed(encode_utf8(prefix)),
        end: BoundView::Closed(encode_utf8(prefix).push(0xFF)),
    }
}

/// What a read of a row of the catalog gives.
pub open spec fn record_rows(row: Seq<CellView>) -> Seq<RowView> {
    seq![RowView { key: Seq::empty(), cells: newest(row, 1) }]
}

/// A read of a row of the catalog after the record was written gives it back.
pub open spec fn record_kept(m: Seq<MutView>, value: JsonView) -> bool {
    forall|row: Seq<CellView>, now: int| #![trigger applied(row, m, now)]
        record_found(record_rows(applied(row, m, now))) == Some(value)
}

proof fn lemma_record_kept(value: JsonView)
    requires
        json_parsed(json_bytes(value)) == reads_as(value),
    ensures
        record_kept(record_mutations(value), value),
{
    let m = record_mutations(value);
    let q = encode_utf8(QUALIFIER@);
    assert forall|row: Seq<CellView>, now: int| #![trigger applied(row, m, now)]
        record_found(record_rows(applied(row, m, now))) == Some(value) by {
        let c = CellView { family: CF@, qualifier: q, value: json_bytes(value), timestamp: now };
        assert(m.drop_last() =~= Seq::<MutView>::empty());
        assert(applied(row, m.drop_last(), now) == row);
        let after = applied(row, m, now);
        assert(after == seq![c] + row);
        lemma_newest_of_concat(seq![c], row, CF@, q);
        assert(seq![c].drop_last() =~= Seq::<CellView>::empty());
        assert(newest_of(seq![c].drop_last(), CF@, q) is None);
        lemma_newest_of_newest(after, CF@, q);
    }
}

/// The filter for a lock that is held at the time `now`.
pub open spec fn lock_filter(now: int) -> FilterView {
    FilterView::Chain(
        seq![
            FilterView::Family(CF@),
            FilterView::Qualifier(encode_utf8(QUALIFIER@)),
            FilterView::Timestamps { start: now, end: 0 },
        ],
    )
}

/// The filter for a lock that was last taken by an owner.
pub open spec fn owner_filter(owner: Seq<char>) -> FilterView {
    FilterView::Chain(
        seq![
            FilterView::Family(CF@),
            FilterView::Qualifier(encode_utf8(QUALIFIER@)),
            FilterView::Limit(1),
            FilterView::Value(encode_utf8(owner)),
        ],
    )
}

/// The request for a lock.
pub open spec fn lock_request(
    client: BigtableClient,
    name: Seq<char>,
    owner: Seq<char>,
    now: int,
    lease: int,
) -> CheckView {
    CheckView {
        table: table_path(client.project_id@, client.instance_id@, CATALOG_TABLE@),
        profile: Seq::empty(),
        key: encode_utf8("lock:"@ + name),
        predicate: lock_filter(now),
        if_true: Seq::empty(),
        if_false: seq![
            MutView::SetCell {
                family: CF@,
                qualifier: encode_utf8(QUALIFIER@),
                timestamp: now + lease,
                value: encode_utf8(owner),
            },
        ],
    }
}

/// The release of a lock.
pub open spec fn unlock_request(
    client: BigtableClient,
    name: Seq<char>,
    owner: Seq<char>,
) -> CheckView {
    CheckView {
        table: table_path(client.project_id@, client.instance_id@, CATALOG_TABLE@),
        profile: Seq::empty(),
        key: encode_utf8("lock:"@ + name),
        predicate: owner_filter(owner),
        if_true: row_deletion(),
        if_false: Seq::empty(),
    }
}

/// The catalog.
pub struct Catalog<'c> {
    pub client: &'c BigtableClient,
}

impl<'c> Catalog<'c> {
    pub fn new(client: &'c BigtableClient) -> (r: Catalog<'c>)
        ensures
            r.client == client,
    {
        Catalog { client }
    }

    fn full_table(&self) -> (r: String)
        ensures
            r@ == table_path(self.client.project_id@, self.client.instance_id@, CATALOG_TABLE@),
    {
        self.client.full_table_name(CATALOG_TABLE)
    }

    fn mutation(&self, row_key: &str, mutations: Vec<Mutation>) -> (r: MutateRowRequest)
        ensures
            r@ == catalog_mutation(*self.client, row_key@, mut_views(mutations@)),
    {
        let r = MutateRowRequest {
            table_name: self.full_table(),
            app_profile_id: String::new(),
            row_key: text_bytes(row_key),
            mutations,
        };
        assert(r@.profile =~= Seq::<char>::empty());
        r
    }

    /// The request that writes a record. It reads back as it is.
    pub fn put(&self, row_key: &str, value: &Value) -> (r: Result<MutateRowRequest, String>)
        ensures
            r matches Ok(q) && q@ == catalog_mutation(
                *self.client,
                row_key@,
                record_mutations(json_view(*value)),
            ) && (json_plain(json_view(*value), 127) ==> record_kept(
                q@.mutations,
                json_view(*value),
            )),
    {
        let payload = match json_to_vec(value) {
            Ok(b) => b,
            Err(e) => return Err(cat2("catalog put json: ", e.as_str())),
        };
        proof {
            if json_plain(json_view(*value), 127) {
                lemma_record_kept(json_view(*value));
            }
        }
        let m = vec![set_cell(CF, QUALIFIER.as_bytes(), payload)];
        assert(mut_views(m@) =~= record_mutations(json_view(*value)));
        Ok(self.mutation(row_key, m))
    }

    /// The read of a record. [`catalog_value`] takes it from what comes back.
    pub fn get(&self, row_key: &str) -> (r: ReadRowsRequest)
        ensures
            r@ == record_read(*self.client, row_key@),
    {
        let r = ReadRowsRequest {
            table_name: self.full_table(),
            app_profile_id: String::new(),
            row_keys: vec![text_bytes(row_key)],
            row_ranges: Vec::new(),
            rows_limit: 1,
            filter: newest_filter(),
            reversed: false,
        };
        proof {
            assert(r@.profile =~= Seq::<char>::empty());
            assert(r@.keys =~= seq![encode_utf8(row_key@)]);
            assert(r@.ranges =~= Seq::<RangeView>::empty());
        }
        r
    }

    /// The request that deletes a record.
    pub fn delete(&self, row_key: &str) -> (r: MutateRowRequest)
        ensures
            r@ == catalog_mutation(*self.client, row_key@, row_deletion()),
    {
        self.mutation(row_key, delete_row_mutations())
    }

    /// The read of all records whose keys begin with a prefix.
    /// [`catalog_records`] takes them from what comes back.
    pub fn scan_prefix(&self, prefix: &str) -> (r: ReadRowsRequest)
        ensures
            r@ == range_read(
                table_path(self.client.project_id@, self.client.instance_id@, CATALOG_TABLE@),
                prefix_keys(prefix@),
                0,
                FilterView::Limit(1),
                false,
            ),
    {
        let mut end = text_bytes(prefix);
        end.push(0xFF);
        read_range(
            self.full_table().as_str(),
            StartKey::Closed(text_bytes(prefix)),
            EndKey::Closed(end),
            0,
            newest_filter(),
            false,
        )
    }

    /// The requests that delete the rows that a scan has found, whatever they
    /// hold: one for each row, in order. A row whose key is no text stops it.
    pub fn delete_prefix(&self, rows: &[Row]) -> (r: Result<Vec<MutateRowRequest>, String>)
        ensures
            match r {
                Ok(l) => keys_found(row_views(rows@)) is Ok && l@.len() == rows@.len() && forall|
                    i: int,
                |
                    0 <= i < l@.len() ==> (#[trigger] l@[i])@ == row_removal(
                        *self.client,
                        rows@[i]@.key,
                    ),
                Err(e) => keys_found(row_views(rows@)) == Err::<Seq<Seq<char>>, Seq<char>>(e@),
            },
    {
        let ghost all = row_views(rows@);
        let mut out: Vec<MutateRowRequest> = Vec::new();
        let mut i: usize = 0;
        while i < rows.len()
            invariant
                i <= rows.len(),
                all == row_views(rows@),
                out@.len() == i,
                keys_found(all.take(i as int)) is Ok,
                forall|j: int|
                    0 <= j < i ==> (#[trigger] out@[j])@ == row_removal(
                        *self.client,
                        rows@[j]@.key,
                    ),
            decreases rows.len() - i,
        {
            proof {
                assert(all.take(i + 1).drop_last() =~= all.take(i as int));
                assert(all.take(i + 1).last() == rows@[i as int]@);
            }
            let key = match decode_text(rows[i].key.as_slice()) {
                Ok(k) => k,
                Err(m) => {
                    proof {
                        lemma_keys_error(all, i + 1);
                    }
                    return Err(cat2("catalog scan key: ", m.as_str()));
                },
            };
            proof {
                vstd::utf8::decode_utf8_encode_utf8(rows@[i as int]@.key);
            }
            out.push(self.delete(key.as_str()));
            i = i + 1;
        }
        assert(all.take(i as int) =~= all);
        Ok(out)
    }

    /// The request for a lock: where its filter matches, it is held.
    pub fn try_lock(&self, lock_name: &str, owner: &str, now_micros: i64, lease_micros: i64) -> (r:
        CheckAndMutateRowRequest)
        requires
            i64::MIN <= now_micros + lease_micros <= i64::MAX,
        ensures
            r@ == lock_request(
                *self.client,
                lock_name@,
                owner@,
                now_micros as int,
                lease_micros as int,
            ),
    {
        let filters = vec![
            family_filter(CF),
            qualifier_filter(QUALIFIER.as_bytes()),
            since_filter(now_micros),
        ];
        proof {
            lemma_filter_views(filters@);
        }
        let r = CheckAndMutateRowRequest {
            table_name: self.full_table(),
            app_profile_id: String::new(),
            row_key: text_bytes(cat2("lock:", lock_name).as_str()),
            predicate_filter: chain(filters),
            true_mutations: Vec::new(),
            false_mutations: vec![
                Mutation::SetCell {
                    family_name: text(CF),
                    column_qualifier: text_bytes(QUALIFIER),
                    timestamp_micros: now_micros + lease_micros,
                    value: text_bytes(owner),
                },
            ],
        };
        proof {
            let goal = lock_request(
                *self.client,
                lock_name@,
                owner@,
                now_micros as int,
                lease_micros as int,
            );
            assert(r@.profile =~= Seq::<char>::empty());
            assert(r@.if_true =~= Seq::<MutView>::empty());
            assert(r@.if_false =~= goal.if_false);
        }
        r
    }

    /// The release of a lock: it goes only where the owner was the last to take
    /// it.
    pub fn release_lock(&self, lock_name: &str, owner: &str) -> (r: CheckAndMutateRowRequest)
        ensures
            r@ == unlock_request(*self.client, lock_name@, owner@),
    {
        let filters = vec![
            family_filter(CF),
            qualifier_filter(QUALIFIER.as_bytes()),
            newest_filter(),
            value_filter(owner.as_bytes()),
        ];
        proof {
            lemma_filter_views(filters@);
        }
        let r = CheckAndMutateRowRequest {
            table_name: self.full_table(),
            app_profile_id: String::new(),
            row_key: text_bytes(cat2("lock:", lock_name).as_str()),
            predicate_filter: chain(filters),
            true_mutations: delete_row_mutations(),
            false_mutations: Vec::new(),
        };
        proof {
            assert(r@.profile =~= Seq::<char>::empty());
            assert(r@.if_false =~= Seq::<MutView>::empty());
        }
        r
    }
}

// ---------------------------------------------------------------------------
// What the requests do
// ---------------------------------------------------------------------------

/// A scan of a prefix sees exactly the rows whose keys begin with it.
pub proof fn prefix_scan_exact(prefix: Seq<char>, key: Seq<char>)
    ensures
        in_range(encode_utf8(key), prefix_keys(prefix)) <==> encode_utf8(prefix).is_prefix_of(
            encode_utf8(key),
        ),
{
    let p = encode_utf8(prefix);
    let k = encode_utf8(key);
    let e = p.push(0xFF);
    lemma_text_bytes(key);
    if p.is_prefix_of(k) {
        assert(k.subrange(0, p.len() as int) =~= p);
        assert forall|j: int| 0 <= j < p.len() implies p[j] == k[j] by {
            assert(k.subrange(0, p.len() as int)[j] == k[j]);
        }
        if k.len() == p.len() {
            assert(k =~= p);
        } else {
            assert(lex_lt_at(p, k, p.len() as int));
        }
        assert(lex_lt_at(k, e, p.len() as int));
    } else if in_range(k, prefix_keys(prefix)) {
        assert(p != k) by {
            assert(k.subrange(0, k.len() as int) =~= k);
        }
        let i = lex_witness(p, k);
        if i == p.len() {
            assert(k.subrange(0, p.len() as int) =~= p);
            assert(false);
        }
        assert(lex_lt_at(e, k, i));
        lex_asymmetric(e, k);
        assert(false);
    }
}

pub proof fn lemma_lock_patterns(c: CellView)
    ensures
        cell_passes(FilterView::Family(CF@), c) <==> c.family == CF@,
        cell_passes(FilterView::Qualifier(encode_utf8(QUALIFIER@)), c) <==> c.qualifier
            == encode_utf8(QUALIFIER@),
{
    reveal_strlit("c");
    reveal_strlit("j");
    is_ascii_chars_encode_utf8("c"@);
    is_ascii_chars_encode_utf8("j"@);
    assert("c"@[0] == 'c');
    assert("j"@[0] == 'j');
    assert(unanchored(encode_utf8("c"@)) == encode_utf8("c"@));
    assert(unanchored(encode_utf8("j"@)) == encode_utf8("j"@));
    if encode_utf8(c.family) == encode_utf8("c"@) {
        utf8_injective(c.family, "c"@);
    }
}

/// What the filter of a request for a lock finds.
pub proof fn lock_filter_matches(row: Seq<CellView>, now: int)
    ensures
        matches_row(lock_filter(now), row) <==> exists|i: int|
            0 <= i < row.len() && in_column(#[trigger] row[i], CF@, encode_utf8(QUALIFIER@))
                && row[i].timestamp >= now,
{
    let fam = FilterView::Family(CF@);
    let qual = FilterView::Qualifier(encode_utf8(QUALIFIER@));
    let since = FilterView::Timestamps { start: now, end: 0 };
    let l = seq![fam, qual, since];
    reveal_with_fuel(passed_chain, 5);
    assert(passed(lock_filter(now), row) == passed_chain(l, row));
    assert(l.drop_last() =~= seq![fam, qual]);
    assert(l.drop_last().drop_last() =~= seq![fam]);
    let a = cells_passing(fam, row);
    let b = cells_passing(qual, a);
    let r = cells_passing(since, b);
    assert(passed_chain(l, row) == r);
    if r.len() > 0 {
        let c = r[0];
        assert(r.contains(c));
        lemma_cells_passing(since, b, c);
        lemma_cells_passing(qual, a, c);
        lemma_cells_passing(fam, row, c);
        lemma_lock_patterns(c);
        let i = choose|i: int| 0 <= i < row.len() && row[i] == c;
        assert(in_column(row[i], CF@, encode_utf8(QUALIFIER@)));
    }
    if exists|i: int|
        0 <= i < row.len() && in_column(#[trigger] row[i], CF@, encode_utf8(QUALIFIER@))
            && row[i].timestamp >= now {
        let i = choose|i: int|
            0 <= i < row.len() && in_column(#[trigger] row[i], CF@, encode_utf8(QUALIFIER@))
                && row[i].timestamp >= now;
        let c = row[i];
        lemma_lock_patterns(c);
        assert(row.contains(c));
        lemma_cells_passing(fam, row, c);
        lemma_cells_passing(qual, a, c);
        lemma_cells_passing(since, b, c);
    }
}

/// Until its lease is over, a lock that was taken is not given to another.
pub proof fn lock_excludes(
    client: BigtableClient,
    row: Seq<CellView>,
    name: Seq<char>,
    owner: Seq<char>,
    now: int,
    lease: int,
    later: int,
)
    requires
        0 <= now,
        0 <= lease,
        later <= now + lease,
        !matches_row(lock_filter(now), row),
    ensures
        matches_row(
            lock_filter(later),
            checked(row, lock_request(client, name, owner, now, lease), now),
        ),
{
    let q = lock_request(client, name, owner, now, lease);
    let after = checked(row, q, now);
    let m = q.if_false;
    assert(m.drop_last() =~= Seq::<MutView>::empty());
    assert(applied(row, m.drop_last(), now) == row);
    let c = CellView {
        family: CF@,
        qualifier: encode_utf8(QUALIFIER@),
        value: encode_utf8(owner),
        timestamp: now + lease,
    };
    assert(after == seq![c] + row);
    assert(after[0] == c);
    assert(in_column(after[0], CF@, encode_utf8(QUALIFIER@)));
    lock_filter_matches(after, later);
}

} // verus!

//! Reading, writing and deleting items in a data table.
//!
//! An item is a row. Its attributes are the cells of the family `d`, one
//! column each. The family `m` holds the row's version in the column `v` and
//! the marks (intents) of transactions that are about to change the row.

use vstd::prelude::*;
use vstd::string::*;
use vstd::utf8::{encode_utf8, is_ascii_chars, is_ascii_chars_encode_utf8};

use crate::bigtable::{
    applied, cell_views, delete_from_column, delete_from_family, in_column, key_views,
    lemma_applied_concat, lemma_newest_cells, lemma_newest_of_column, lemma_newest_of_concat,
    lemma_without_column, lemma_without_family, mut_views, newest, newest_of, row_views, set_cell,
    set_cell_view, table_path, without_column, without_family, BigtableClient, CellView,
    CheckAndMutateRowRequest, CheckView, MutView, MutateRowRequest, MutateView, Mutation,
    RangeView, ReadRowsRequest, ReadView, Row, RowCell, RowView,
};
use crate::bytes::{be_value, bytes_copy, bytes_eq, read_u64_be};
use crate::cell::{cell_bytes, cell_readable, cell_value};
use crate::error::{internal, invalid, ErrView, StorageError};
use crate::filter::{
    block_all_filter, byte, cell_passes, cells_passing, chain, condition, family_filter,
    interleave, lemma_anchored, lemma_cells_passing, lemma_filter_views, lemma_newest_of_passing,
    matches_row, newest_filter, pass_all_filter, passed, passed_any, passed_chain,
    qualifier_filter, since_filter, unanchored, value_filter, FilterView, RowFilter,
};
use crate::row_key::{encode_key, row_key};
use crate::sorted::lemma_sorted_put_at;
use crate::text::{
    cat2, cat3, decimal, decimal_round_trip, decode_text, is_digit, numeral_round_trip, parse_u64,
    parse_unsigned, str_eq, strip_prefix, text, text_bytes, u64_text, utf8_decoded, utf8_injective,
    utf8_round_trip, without_prefix,
};
use crate::value::{
    copy_item, entry_key, item_put, item_sorted, item_views, key_name, opt_item_view, schema_view,
    AttrView, Item, ItemView, KeySchemaElement, KeyType, SchemaView,
};

verus! {

/// The family of attribute cells.
pub const FAMILY_DATA: &'static str = "d";

/// The family of the row version and of intents.
pub const FAMILY_META: &'static str = "m";

/// The column of the row version in the family `m`.
pub const QUALIFIER_VERSION: &'static str = "v";

/// What the columns of intents begin with in the family `m`.
pub const QUALIFIER_INTENT_PREFIX: &'static str = "intent:";

// ---------------------------------------------------------------------------
// Row versions
// ---------------------------------------------------------------------------

/// Whether bytes are the digits of a numeral.
pub open spec fn digit_bytes(b: Seq<u8>) -> bool {
    forall|i: int| 0 <= i < b.len() ==> 0x30 <= #[trigger] b[i] <= 0x39
}

/// The version that a cell holds: eight bytes that are not all digits are a
/// number, most significant byte first, and all else is a numeral.
pub open spec fn version_of(b: Seq<u8>) -> Option<nat> {
    if b.len() == 8 && !digit_bytes(b) {
        Some(be_value(b))
    } else {
        match utf8_decoded(b) {
            Ok(s) => parse_unsigned(s, u64::MAX as nat),
            Err(_) => None,
        }
    }
}

pub open spec fn opt_nat(v: Option<u64>) -> Option<nat> {
    match v {
        Some(n) => Some(n as nat),
        None => None,
    }
}

fn are_digits(b: &[u8]) -> (r: bool)
    ensures
        r == digit_bytes(b@),
{
    let mut i: usize = 0;
    while i < b.len()
        invariant
            i <= b.len(),
            forall|j: int| 0 <= j < i ==> 0x30 <= #[trigger] b@[j] <= 0x39,
        decreases b.len() - i,
    {
        if b[i] < 0x30 || b[i] > 0x39 {
            return false;
        }
        i = i + 1;
    }
    true
}

/// Decodes a row version from the bytes of its cell.
pub fn decode_version(bytes: &[u8]) -> (r: Option<u64>)
    ensures
        opt_nat(r) == version_of(bytes@),
{
    if bytes.len() == 8 && !are_digits(bytes) {
        proof {
            assert(bytes@.subrange(0, 8) =~= bytes@);
        }
        Some(read_u64_be(bytes, 0))
    } else {
        match decode_text(bytes) {
            Ok(s) => parse_u64(s.as_str()),
            Err(_) => None,
        }
    }
}

/// The bytes that a row version is written as.
pub open spec fn version_bytes(v: nat) -> Seq<u8> {
    encode_utf8(decimal(v))
}

pub proof fn lemma_decimal_ascii(v: nat)
    ensures
        is_ascii_chars(decimal(v)),
        decimal(v).len() > 0,
        is_digit(decimal(v).last()),
        version_bytes(v).len() == decimal(v).len(),
        digit_bytes(version_bytes(v)),
{
    decimal_round_trip(v);
    let d = decimal(v);
    assert forall|i: int| 0 <= i < d.len() implies '\0' <= #[trigger] d[i] <= '\u{7f}' by {
        assert(is_digit(d[i]));
    }
    is_ascii_chars_encode_utf8(d);
    assert forall|i: int| 0 <= i < version_bytes(v).len() implies 0x30 <= #[trigger] version_bytes(
        v,
    )[i] <= 0x39 by {
        assert(is_digit(d[i]));
        assert(d[i] as u8 == version_bytes(v)[i]);
    }
}

/// A version reads back as it was written.
pub proof fn version_round_trip(v: u64)
    ensures
        version_of(version_bytes(v as nat)) == Some(v as nat),
{
    lemma_decimal_ascii(v as nat);
    utf8_round_trip(decimal(v as nat));
    numeral_round_trip(v as int, 0, u64::MAX as int);
}

// ---------------------------------------------------------------------------
// Filters
// ---------------------------------------------------------------------------

pub open spec fn larger(a: int, b: int) -> int {
    if a >= b {
        a
    } else {
        b
    }
}

/// The filter for intents that are not older than `cutoff`.
pub open spec fn active_intent_filter(cutoff: int) -> FilterView {
    FilterView::Chain(
        seq![
            FilterView::Family("^m$"@),
            FilterView::Qualifier(encode_utf8("^intent:.*"@)),
            FilterView::Limit(1),
            FilterView::Timestamps { start: larger(cutoff, 0), end: 0 },
        ],
    )
}

/// A filter that matches any active intent in the family `m`.
pub fn build_active_intent_filter(cutoff_micros: i64) -> (r: RowFilter)
    ensures
        r@ == active_intent_filter(cutoff_micros as int),
{
    let start: i64 = if cutoff_micros >= 0 {
        cutoff_micros
    } else {
        0
    };
    let v = vec![
        family_filter("^m$"),
        qualifier_filter("^intent:.*".as_bytes()),
        newest_filter(),
        since_filter(start),
    ];
    proof {
        lemma_filter_views(v@);
    }
    chain(v)
}

/// The filter for a row version.
pub open spec fn version_match_filter(v: nat) -> FilterView {
    FilterView::Chain(
        seq![
            FilterView::Family("^m$"@),
            FilterView::Qualifier(encode_utf8("^v$"@)),
            FilterView::Limit(1),
            FilterView::Value(encode_utf8("^"@ + decimal(v) + "$"@)),
        ],
    )
}

/// A filter that matches the row version `expected_version`. The newest version
/// is picked before its value is looked at.
pub fn build_version_match_filter(expected_version: u64) -> (r: RowFilter)
    ensures
        r@ == version_match_filter(expected_version as nat),
{
    let pattern = cat3("^", u64_text(expected_version).as_str(), "$");
    let v = vec![
        family_filter("^m$"),
        qualifier_filter("^v$".as_bytes()),
        newest_filter(),
        value_filter(pattern.as_str().as_bytes()),
    ];
    proof {
        lemma_filter_views(v@);
    }
    chain(v)
}

/// The filter for any other row version.
pub open spec fn version_mismatch_filter(v: nat) -> FilterView {
    FilterView::Condition {
        predicate: Box::new(version_match_filter(v)),
        if_true: Box::new(FilterView::BlockAll(true)),
        if_false: Box::new(FilterView::PassAll(true)),
    }
}

/// A filter that matches a row with another version, or without one.
pub fn build_version_mismatch_filter(expected_version: u64) -> (r: RowFilter)
    ensures
        r@ == version_mismatch_filter(expected_version as nat),
{
    condition(
        build_version_match_filter(expected_version),
        block_all_filter(),
        pass_all_filter(),
    )
}

/// The filter for what speaks against a change of a row that had a version.
pub open spec fn occ_conflict_filter(cutoff: int, v: nat) -> FilterView {
    FilterView::Interleave(seq![active_intent_filter(cutoff), version_mismatch_filter(v)])
}

/// A filter that matches where a row may not be changed on the ground that it
/// had the given version: there is an active intent, or another version.
pub fn build_occ_conflict_filter(cutoff_micros: i64, expected_version: u64) -> (r: RowFilter)
    ensures
        r@ == occ_conflict_filter(cutoff_micros as int, expected_version as nat),
{
    let v = vec![
        build_active_intent_filter(cutoff_micros),
        build_version_mismatch_filter(expected_version),
    ];
    proof {
        lemma_filter_views(v@);
    }
    interleave(v)
}

pub open spec fn version_presence_filter() -> FilterView {
    FilterView::Chain(
        seq![
            FilterView::Family("^m$"@),
            FilterView::Qualifier(encode_utf8("^v$"@)),
            FilterView::Limit(1),
        ],
    )
}

pub open spec fn data_presence_filter() -> FilterView {
    FilterView::Chain(seq![FilterView::Family("^d$"@), FilterView::Limit(1)])
}

/// The filter for what speaks against a change of a row that was not there.
pub open spec fn row_presence_filter(cutoff: int) -> FilterView {
    FilterView::Interleave(
        seq![active_intent_filter(cutoff), version_presence_filter(), data_presence_filter()],
    )
}

/// A filter that matches where there is an active intent, a version or an
/// attribute.
pub fn build_row_presence_conflict_filter(cutoff_micros: i64) -> (r: RowFilter)
    ensures
        r@ == row_presence_filter(cutoff_micros as int),
{
    let version = vec![family_filter("^m$"), qualifier_filter("^v$".as_bytes()), newest_filter()];
    let attributes = vec![family_filter("^d$"), newest_filter()];
    proof {
        lemma_filter_views(version@);
        lemma_filter_views(attributes@);
    }
    let v = vec![build_active_intent_filter(cutoff_micros), chain(version), chain(attributes)];
    proof {
        lemma_filter_views(v@);
    }
    interleave(v)
}

/// Whether a column of the family `m` is one of an intent.
pub open spec fn intent_qualifier(q: Seq<u8>) -> bool {
    let p = encode_utf8(QUALIFIER_INTENT_PREFIX@);
    p.is_prefix_of(q) && forall|i: int| p.len() <= i < q.len() ==> #[trigger] q[i] != byte('\n')
}

/// Whether a row carries an intent that is not older than `cutoff`.
pub open spec fn has_active_intent(row: Seq<CellView>, cutoff: int) -> bool {
    exists|q: Seq<u8>|
        intent_qualifier(q) && match #[trigger] newest_of(row, FAMILY_META@, q) {
            Some(c) => c.timestamp >= cutoff && c.timestamp >= 0,
            None => false,
        }
}

/// The newest version cell of a row.
pub open spec fn version_cell(row: Seq<CellView>) -> Option<CellView> {
    newest_of(row, FAMILY_META@, encode_utf8(QUALIFIER_VERSION@))
}

/// Whether the newest version of a row is `v`.
pub open spec fn has_version(row: Seq<CellView>, v: nat) -> bool {
    match version_cell(row) {
        Some(c) => c.value == version_bytes(v),
        None => false,
    }
}

/// Whether a row has an attribute.
pub open spec fn has_data(row: Seq<CellView>) -> bool {
    exists|i: int| 0 <= i < row.len() && (#[trigger] row[i]).family == FAMILY_DATA@
}

proof fn lemma_intent_pattern()
    ensures
        forall|c: CellView| #[trigger]
            cell_passes(FilterView::Qualifier(encode_utf8("^intent:.*"@)), c) <==>
                intent_qualifier(c.qualifier),
        !intent_qualifier(encode_utf8(QUALIFIER_VERSION@)),
{
    reveal_strlit("v");
    reveal_strlit("intent:");
    reveal_strlit("^intent:.*");
    let p = "^intent:.*"@;
    let lit = "intent:"@;
    is_ascii_chars_encode_utf8(p);
    is_ascii_chars_encode_utf8(lit);
    let b = encode_utf8(p);
    assert(p[0] == '^' && p[8] == '.' && p[9] == '*');
    assert(b[0] == byte('^') && b[8] == byte('.') && b[9] == byte('*'));
    assert(b.skip(1).last() == b[9]);
    let u = unanchored(b);
    assert(u == b.skip(1));
    assert forall|i: int| 0 <= i < 7 implies u.take(7)[i] == encode_utf8(lit)[i] by {
        assert(p[i + 1] == lit[i]);
    }
    assert(u.take(7) =~= encode_utf8(lit));
    assert forall|c: CellView| #[trigger]
        cell_passes(FilterView::Qualifier(encode_utf8("^intent:.*"@)), c) <==> intent_qualifier(
            c.qualifier,
        ) by {
        assert(u[7] == b[8] && u[8] == b[9]);
    }
    is_ascii_chars_encode_utf8("v"@);
}

proof fn lemma_patterns()
    ensures
        forall|c: CellView| #[trigger]
            cell_passes(FilterView::Family("^m$"@), c) <==> c.family == FAMILY_META@,
        forall|c: CellView| #[trigger]
            cell_passes(FilterView::Family("^d$"@), c) <==> c.family == FAMILY_DATA@,
        forall|c: CellView| #[trigger]
            cell_passes(FilterView::Qualifier(encode_utf8("^v$"@)), c) <==> c.qualifier
                == encode_utf8(QUALIFIER_VERSION@),
        forall|c: CellView| #[trigger]
            cell_passes(FilterView::Qualifier(encode_utf8("^intent:.*"@)), c) <==>
                intent_qualifier(c.qualifier),
        FAMILY_META@ != FAMILY_DATA@,
        !intent_qualifier(encode_utf8(QUALIFIER_VERSION@)),
{
    reveal_strlit("^");
    reveal_strlit("$");
    reveal_strlit("m");
    reveal_strlit("d");
    reveal_strlit("v");
    reveal_strlit("^m$");
    reveal_strlit("^d$");
    reveal_strlit("^v$");
    assert("^m$"@ =~= "^"@ + "m"@ + "$"@);
    assert("^d$"@ =~= "^"@ + "d"@ + "$"@);
    assert("^v$"@ =~= "^"@ + "v"@ + "$"@);
    assert(FAMILY_META@[0] != FAMILY_DATA@[0]);
    assert forall|c: CellView| #[trigger]
        cell_passes(FilterView::Family("^m$"@), c) <==> c.family == FAMILY_META@ by {
        lemma_anchored("m"@, encode_utf8(c.family));
        if encode_utf8(c.family) == encode_utf8("m"@) {
            utf8_injective(c.family, "m"@);
        }
    }
    assert forall|c: CellView| #[trigger]
        cell_passes(FilterView::Family("^d$"@), c) <==> c.family == FAMILY_DATA@ by {
        lemma_anchored("d"@, encode_utf8(c.family));
        if encode_utf8(c.family) == encode_utf8("d"@) {
            utf8_injective(c.family, "d"@);
        }
    }
    assert forall|c: CellView| #[trigger]
        cell_passes(FilterView::Qualifier(encode_utf8("^v$"@)), c) <==> c.qualifier
            == encode_utf8(QUALIFIER_VERSION@) by {
        lemma_anchored("v"@, c.qualifier);
    }
    lemma_intent_pattern();
}

/// What the filter for active intents finds.
pub proof fn active_intent_matches(row: Seq<CellView>, cutoff: int)
    ensures
        matches_row(active_intent_filter(cutoff), row) <==> has_active_intent(row, cutoff),
{
    lemma_patterns();
    let fam = FilterView::Family("^m$"@);
    let qual = FilterView::Qualifier(encode_utf8("^intent:.*"@));
    let since = FilterView::Timestamps { start: larger(cutoff, 0), end: 0 };
    let l = seq![fam, qual, FilterView::Limit(1), since];
    reveal_with_fuel(passed_chain, 5);
    assert(l.drop_last() =~= seq![fam, qual, FilterView::Limit(1)]);
    assert(l.drop_last().drop_last() =~= seq![fam, qual]);
    assert(l.drop_last().drop_last().drop_last() =~= seq![fam]);
    let a = cells_passing(fam, row);
    let b = cells_passing(qual, a);
    let n = newest(b, 1);
    let r = cells_passing(since, n);
    assert(passed_chain(l, row) == r);
    if r.len() > 0 {
        let c = r[0];
        assert(r.contains(c));
        lemma_cells_passing(since, n, c);
        lemma_newest_cells(b, c);
        lemma_newest_of_column(b, c.family, c.qualifier);
        lemma_cells_passing(qual, a, c);
        lemma_cells_passing(fam, row, c);
        lemma_newest_of_passing(qual, a, c.family, c.qualifier);
        lemma_newest_of_passing(fam, row, c.family, c.qualifier);
        lemma_newest_of_column(a, c.family, c.qualifier);
        lemma_newest_of_column(row, c.family, c.qualifier);
        assert(newest_of(row, FAMILY_META@, c.qualifier) == Some(c));
        assert(intent_qualifier(c.qualifier));
    }
    if has_active_intent(row, cutoff) {
        let q = choose|q: Seq<u8>|
            intent_qualifier(q) && match #[trigger] newest_of(row, FAMILY_META@, q) {
                Some(c) => c.timestamp >= cutoff && c.timestamp >= 0,
                None => false,
            };
        let c = newest_of(row, FAMILY_META@, q).unwrap();
        lemma_newest_of_column(row, FAMILY_META@, q);
        lemma_newest_of_passing(fam, row, c.family, c.qualifier);
        lemma_newest_of_passing(qual, a, c.family, c.qualifier);
        lemma_newest_cells(b, c);
        lemma_cells_passing(since, n, c);
    }
}

/// What the filter for a version finds.
pub proof fn version_matches(row: Seq<CellView>, v: nat)
    ensures
        matches_row(version_match_filter(v), row) <==> has_version(row, v),
{
    lemma_patterns();
    lemma_decimal_ascii(v);
    let fam = FilterView::Family("^m$"@);
    let qual = FilterView::Qualifier(encode_utf8("^v$"@));
    let val = FilterView::Value(encode_utf8("^"@ + decimal(v) + "$"@));
    let l = seq![fam, qual, FilterView::Limit(1), val];
    reveal_with_fuel(passed_chain, 5);
    assert(l.drop_last() =~= seq![fam, qual, FilterView::Limit(1)]);
    assert(l.drop_last().drop_last() =~= seq![fam, qual]);
    assert(l.drop_last().drop_last().drop_last() =~= seq![fam]);
    let a = cells_passing(fam, row);
    let b = cells_passing(qual, a);
    let n = newest(b, 1);
    let r = cells_passing(val, n);
    assert(passed_chain(l, row) == r);
    if r.len() > 0 {
        let c = r[0];
        assert(r.contains(c));
        lemma_cells_passing(val, n, c);
        lemma_anchored(decimal(v), c.value);
        lemma_version_newest(row, c);
    }
    if has_version(row, v) {
        let c = version_cell(row).unwrap();
        lemma_newest_of_column(row, FAMILY_META@, encode_utf8(QUALIFIER_VERSION@));
        lemma_anchored(decimal(v), c.value);
        lemma_version_newest(row, c);
        lemma_cells_passing(val, n, c);
    }
}

proof fn lemma_version_newest(row: Seq<CellView>, c: CellView)
    ensures
        newest(
            cells_passing(
                FilterView::Qualifier(encode_utf8("^v$"@)),
                cells_passing(FilterView::Family("^m$"@), row),
            ),
            1,
        ).contains(c) <==> version_cell(row) == Some(c),
{
    lemma_patterns();
    let fam = FilterView::Family("^m$"@);
    let qual = FilterView::Qualifier(encode_utf8("^v$"@));
    let a = cells_passing(fam, row);
    let b = cells_passing(qual, a);
    lemma_newest_cells(b, c);
    lemma_newest_of_passing(qual, a, c.family, c.qualifier);
    lemma_newest_of_passing(fam, row, c.family, c.qualifier);
    lemma_newest_of_column(a, c.family, c.qualifier);
    lemma_newest_of_column(row, c.family, c.qualifier);
    lemma_newest_of_column(row, FAMILY_META@, encode_utf8(QUALIFIER_VERSION@));
}

proof fn lemma_passed_one(f: FilterView, row: Seq<CellView>)
    ensures
        passed_any(seq![f], row) == passed(f, row),
{
    let l = seq![f];
    assert(passed_any(l, row) == passed_any(l.drop_last(), row) + passed(f, row));
    assert(l.drop_last() =~= Seq::<FilterView>::empty());
    assert(passed_any(l.drop_last(), row) =~= Seq::<CellView>::empty());
    assert(Seq::<CellView>::empty() + passed(f, row) =~= passed(f, row));
}

/// What the filter for another version finds in a row that is there.
pub proof fn version_mismatch_matches(row: Seq<CellView>, v: nat)
    requires
        row.len() > 0,
    ensures
        matches_row(version_mismatch_filter(v), row) <==> !has_version(row, v),
{
    version_matches(row, v);
    reveal_with_fuel(passed, 2);
    let none = FilterView::BlockAll(true);
    assert(passed(none, row).len() == 0);
    assert(passed(FilterView::PassAll(true), row) == row);
}

/// A row that is there may be changed on the ground that it had a version
/// exactly if it has no active intent and still has that version.
pub proof fn occ_conflict_matches(row: Seq<CellView>, cutoff: int, v: nat)
    requires
        row.len() > 0,
    ensures
        matches_row(occ_conflict_filter(cutoff, v), row) <==> has_active_intent(row, cutoff)
            || !has_version(row, v),
{
    active_intent_matches(row, cutoff);
    version_mismatch_matches(row, v);
    let l = seq![active_intent_filter(cutoff), version_mismatch_filter(v)];
    assert(l.drop_last() =~= seq![active_intent_filter(cutoff)]);
    lemma_passed_one(active_intent_filter(cutoff), row);
    assert(passed(occ_conflict_filter(cutoff, v), row) == passed_any(l, row));
    assert(passed_any(l, row) == passed_any(l.drop_last(), row) + passed(l.last(), row));
}

/// A row may be changed on the ground that it was not there exactly if it has
/// no active intent, no version and no attribute.
pub proof fn row_presence_matches(row: Seq<CellView>, cutoff: int)
    ensures
        matches_row(row_presence_filter(cutoff), row) <==> has_active_intent(row, cutoff)
            || version_cell(row) is Some || has_data(row),
{
    lemma_patterns();
    active_intent_matches(row, cutoff);
    let fam = FilterView::Family("^m$"@);
    let qual = FilterView::Qualifier(encode_utf8("^v$"@));
    let one = FilterView::Limit(1);
    let lv = seq![fam, qual, one];
    reveal_with_fuel(passed_chain, 4);
    assert(lv.drop_last() =~= seq![fam, qual]);
    assert(lv.drop_last().drop_last() =~= seq![fam]);
    let nv = newest(cells_passing(qual, cells_passing(fam, row)), 1);
    assert(passed_chain(lv, row) == nv);
    if nv.len() > 0 {
        assert(nv.contains(nv[0]));
        lemma_version_newest(row, nv[0]);
    }
    if let Some(c) = version_cell(row) {
        lemma_version_newest(row, c);
    }
    let dfam = FilterView::Family("^d$"@);
    let ld = seq![dfam, one];
    assert(ld.drop_last() =~= seq![dfam]);
    let b = cells_passing(dfam, row);
    let nd = newest(b, 1);
    assert(passed_chain(ld, row) == nd);
    if nd.len() > 0 {
        let c = nd[0];
        assert(nd.contains(c));
        lemma_newest_cells(b, c);
        lemma_newest_of_column(b, c.family, c.qualifier);
        lemma_cells_passing(dfam, row, c);
        let i = choose|i: int| 0 <= i < row.len() && row[i] == c;
        assert(row[i].family == FAMILY_DATA@);
    }
    if has_data(row) {
        let i = choose|i: int| 0 <= i < row.len() && (#[trigger] row[i]).family == FAMILY_DATA@;
        let c = row[i];
        assert(row.contains(c));
        lemma_newest_of_passing(dfam, row, c.family, c.qualifier);
        lemma_newest_of_column(row, c.family, c.qualifier);
        assert(in_column(row[i], c.family, c.qualifier));
        let m = newest_of(row, c.family, c.qualifier).unwrap();
        lemma_newest_cells(b, m);
        assert(nd.contains(m));
    }
    let l = seq![active_intent_filter(cutoff), version_presence_filter(), data_presence_filter()];
    let m = l.drop_last();
    assert(m =~= seq![active_intent_filter(cutoff), version_presence_filter()]);
    assert(m.drop_last() =~= seq![active_intent_filter(cutoff)]);
    lemma_passed_one(active_intent_filter(cutoff), row);
    assert(passed(version_presence_filter(), row) == nv);
    assert(passed(data_presence_filter(), row) == nd);
    assert(passed(row_presence_filter(cutoff), row) == passed_any(l, row));
    assert(passed_any(l, row) == passed_any(m, row) + passed(l.last(), row));
    assert(passed_any(m, row) == passed_any(m.drop_last(), row) + passed(m.last(), row));
}

// ---------------------------------------------------------------------------
// What a row holds
// ---------------------------------------------------------------------------

/// The item that the cells of a row hold.
pub open spec fn row_item(cells: Seq<CellView>) -> Result<ItemView, ErrView>
    decreases cells.len(),
{
    if cells.len() == 0 {
        Ok(Seq::empty())
    } else {
        match row_item(cells.drop_last()) {
            Err(e) => Err(e),
            Ok(item) => {
                let c = cells.last();
                if c.family == FAMILY_DATA@ {
                    match utf8_decoded(c.qualifier) {
                        Err(m) => Err(ErrView::Internal("decode qualifier: "@ + m)),
                        Ok(name) => match cell_value(c.value) {
                            Err(e) => Err(e),
                            Ok(v) => Ok(item_put(item, name, v)),
                        },
                    }
                } else {
                    Ok(item)
                }
            },
        }
    }
}

/// The version that the cells of a row hold.
pub open spec fn row_version(cells: Seq<CellView>) -> Option<nat>
    decreases cells.len(),
{
    if cells.len() == 0 {
        None
    } else if in_column(cells.last(), FAMILY_META@, encode_utf8(QUALIFIER_VERSION@)) {
        version_of(cells.last().value)
    } else {
        row_version(cells.drop_last())
    }
}

/// The transaction whose intent a cell is, where it is one that is not older
/// than `cutoff`.
pub open spec fn cell_intent(c: CellView, cutoff: int) -> Option<Seq<char>> {
    if c.family == FAMILY_META@ && c.timestamp >= cutoff {
        match utf8_decoded(c.qualifier) {
            Ok(q) => strip_prefix(q, QUALIFIER_INTENT_PREFIX@),
            Err(_) => None,
        }
    } else {
        None
    }
}

/// The transaction that has an intent in the cells of a row.
pub open spec fn row_intent(cells: Seq<CellView>, cutoff: int) -> Option<Seq<char>>
    decreases cells.len(),
{
    if cells.len() == 0 {
        None
    } else {
        match cell_intent(cells.last(), cutoff) {
            Some(t) => Some(t),
            None => row_intent(cells.drop_last(), cutoff),
        }
    }
}

/// The item, where there is an attribute.
pub open spec fn present(item: ItemView) -> Option<ItemView> {
    if item.len() == 0 {
        None
    } else {
        Some(item)
    }
}

/// Reads the item that the cells of a row hold.
pub fn read_item(cells: &[RowCell]) -> (r: Result<Item, StorageError>)
    ensures
        match r {
            Ok(i) => row_item(cell_views(cells@)) == Ok::<ItemView, ErrView>(i@),
            Err(e) => row_item(cell_views(cells@)) == Err::<ItemView, ErrView>(e@),
        },
{
    let ghost all = cell_views(cells@);
    let mut item = Item::new();
    let mut i: usize = 0;
    while i < cells.len()
        invariant
            i <= cells.len(),
            all == cell_views(cells@),
            row_item(all.take(i as int)) == Ok::<ItemView, ErrView>(item@),
        decreases cells.len() - i,
    {
        let c = &cells[i];
        proof {
            assert(all.take(i + 1).drop_last() =~= all.take(i as int));
            assert(all.take(i + 1).last() == c@);
        }
        if str_eq(c.family_name.as_str(), FAMILY_DATA) {
            let name = match decode_text(c.qualifier.as_slice()) {
                Ok(n) => n,
                Err(m) => {
                    proof {
                        lemma_row_item_error(all, i + 1);
                    }
                    return Err(internal(cat2("decode qualifier: ", m.as_str()).as_str()));
                },
            };
            let value = match crate::cell::decode(c.value.as_slice()) {
                Ok(v) => v,
                Err(e) => {
                    proof {
                        lemma_row_item_error(all, i + 1);
                    }
                    return Err(e);
                },
            };
            item.insert(name, value);
        }
        i = i + 1;
    }
    assert(all.take(i as int) =~= all);
    Ok(item)
}

proof fn lemma_row_item_error(cells: Seq<CellView>, n: int)
    requires
        0 <= n <= cells.len(),
        row_item(cells.take(n)) is Err,
    ensures
        row_item(cells) == row_item(cells.take(n)),
    decreases cells.len(),
{
    if n < cells.len() {
        assert(cells.drop_last().take(n) =~= cells.take(n));
        lemma_row_item_error(cells.drop_last(), n);
    } else {
        assert(cells.take(n) =~= cells);
    }
}

/// Reads the version that the cells of a row hold.
pub fn read_version(cells: &[RowCell]) -> (r: Option<u64>)
    ensures
        opt_nat(r) == row_version(cell_views(cells@)),
{
    let ghost all = cell_views(cells@);
    let mut version: Option<u64> = None;
    let mut i: usize = 0;
    while i < cells.len()
        invariant
            i <= cells.len(),
            all == cell_views(cells@),
            opt_nat(version) == row_version(all.take(i as int)),
        decreases cells.len() - i,
    {
        let c = &cells[i];
        proof {
            assert(all.take(i + 1).drop_last() =~= all.take(i as int));
            assert(all.take(i + 1).last() == c@);
        }
        if str_eq(c.family_name.as_str(), FAMILY_META) && bytes_eq(
            c.qualifier.as_slice(),
            QUALIFIER_VERSION.as_bytes(),
        ) {
            version = decode_version(c.value.as_slice());
        }
        i = i + 1;
    }
    assert(all.take(i as int) =~= all);
    version
}

/// Reads which transaction has an intent in the cells of a row.
pub fn read_intent(cells: &[RowCell], cutoff_micros: i64) -> (r: Option<String>)
    ensures
        crate::text::opt_view(r) == row_intent(cell_views(cells@), cutoff_micros as int),
{
    let ghost all = cell_views(cells@);
    let mut txn: Option<String> = None;
    let mut i: usize = 0;
    while i < cells.len()
        invariant
            i <= cells.len(),
            all == cell_views(cells@),
            crate::text::opt_view(txn) == row_intent(all.take(i as int), cutoff_micros as int),
        decreases cells.len() - i,
    {
        let c = &cells[i];
        proof {
            assert(all.take(i + 1).drop_last() =~= all.take(i as int));
            assert(all.take(i + 1).last() == c@);
        }
        if str_eq(c.family_name.as_str(), FAMILY_META) && c.timestamp_micros >= cutoff_micros {
            if let Ok(q) = decode_text(c.qualifier.as_slice()) {
                if let Some(t) = without_prefix(q.as_str(), QUALIFIER_INTENT_PREFIX) {
                    txn = Some(t);
                }
            }
        }
        i = i + 1;
    }
    assert(all.take(i as int) =~= all);
    txn
}

/// What is found of the one row that was asked for.
pub open spec fn found(rows: Seq<RowView>) -> Result<(Option<ItemView>, Option<nat>), ErrView> {
    if rows.len() == 0 {
        Ok((None, None))
    } else {
        match row_item(rows[0].cells) {
            Ok(i) => Ok((present(i), row_version(rows[0].cells))),
            Err(e) => Err(e),
        }
    }
}

/// Takes the item and its version from the rows that came back for one key.
pub fn found_with_version(rows: &[Row]) -> (r: Result<(Option<Item>, Option<u64>), StorageError>)
    ensures
        match r {
            Ok((i, v)) => found(row_views(rows@)) == Ok::<
                (Option<ItemView>, Option<nat>),
                ErrView,
            >((opt_item_view(i), opt_nat(v))),
            Err(e) => found(row_views(rows@)) == Err::<(Option<ItemView>, Option<nat>), ErrView>(
                e@,
            ),
        },
{
    if rows.len() == 0 {
        return Ok((None, None));
    }
    assert(row_views(rows@)[0] == rows@[0]@);
    let cells = rows[0].cells.as_slice();
    match read_item(cells) {
        Err(e) => Err(e),
        Ok(item) => {
            let version = read_version(cells);
            if item.is_empty() {
                Ok((None, version))
            } else {
                Ok((Some(item), version))
            }
        },
    }
}

/// Takes the item from the rows that came back for one key.
pub fn found_item(rows: &[Row]) -> (r: Result<Option<Item>, StorageError>)
    ensures
        match r {
            Ok(i) => found(row_views(rows@)) matches Ok(f) && f.0 == opt_item_view(i),
            Err(e) => found(row_views(rows@)) == Err::<(Option<ItemView>, Option<nat>), ErrView>(
                e@,
            ),
        },
{
    match found_with_version(rows) {
        Ok((item, _)) => Ok(item),
        Err(e) => Err(e),
    }
}

// ---------------------------------------------------------------------------
// Several rows
// ---------------------------------------------------------------------------

/// What was read of one row: its item, where there is one, and the transaction
/// with an active intent.
pub open spec fn row_entry(cells: Seq<CellView>, cutoff: int) -> Result<
    (Option<ItemView>, Option<Seq<char>>),
    ErrView,
> {
    match row_item(cells) {
        Ok(i) => Ok((present(i), row_intent(cells, cutoff))),
        Err(e) => Err(e),
    }
}

/// What was read of each row, by its key.
pub open spec fn row_entries(rows: Seq<RowView>, cutoff: int) -> Result<
    Seq<(Seq<u8>, (Option<ItemView>, Option<Seq<char>>))>,
    ErrView,
>
    decreases rows.len(),
{
    if rows.len() == 0 {
        Ok(Seq::empty())
    } else {
        match row_entries(rows.drop_last(), cutoff) {
            Err(e) => Err(e),
            Ok(l) => match row_entry(rows.last().cells, cutoff) {
                Err(e) => Err(e),
                Ok(x) => Ok(l.push((rows.last().key, x))),
            },
        }
    }
}

/// What was read under a key: nothing where no row has it.
pub open spec fn entry_for(
    l: Seq<(Seq<u8>, (Option<ItemView>, Option<Seq<char>>))>,
    key: Seq<u8>,
) -> (Option<ItemView>, Option<Seq<char>>)
    decreases l.len(),
{
    if l.len() == 0 {
        (None, None)
    } else if l.last().0 == key {
        l.last().1
    } else {
        entry_for(l.drop_last(), key)
    }
}

/// The row keys of keys.
pub open spec fn row_keys(keys: Seq<ItemView>, schema: SchemaView) -> Result<Seq<Seq<u8>>, ErrView>
    decreases keys.len(),
{
    if keys.len() == 0 {
        Ok(Seq::empty())
    } else {
        match row_keys(keys.drop_last(), schema) {
            Err(e) => Err(e),
            Ok(l) => match row_key(keys.last(), schema) {
                Err(e) => Err(e),
                Ok(k) => Ok(l.push(k)),
            },
        }
    }
}

/// What was read under each of several keys.
pub open spec fn entries_for(
    l: Seq<(Seq<u8>, (Option<ItemView>, Option<Seq<char>>))>,
    keys: Seq<Seq<u8>>,
) -> Seq<(Option<ItemView>, Option<Seq<char>>)>
    decreases keys.len(),
{
    if keys.len() == 0 {
        Seq::empty()
    } else {
        entries_for(l, keys.drop_last()).push(entry_for(l, keys.last()))
    }
}

/// What several keys give, in the order of the keys.
pub open spec fn batch_found(
    rows: Seq<RowView>,
    keys: Seq<ItemView>,
    schema: SchemaView,
    cutoff: int,
) -> Result<Seq<(Option<ItemView>, Option<Seq<char>>)>, ErrView> {
    match row_entries(rows, cutoff) {
        Err(e) => Err(e),
        Ok(l) => match row_keys(keys, schema) {
            Err(e) => Err(e),
            Ok(k) => Ok(entries_for(l, k)),
        },
    }
}

/// What was read of a row.
#[derive(Debug, PartialEq, Eq)]
pub struct RowEntry {
    pub item: Option<Item>,
    pub txn_id: Option<String>,
}

impl RowEntry {
    pub open spec fn view(&self) -> (Option<ItemView>, Option<Seq<char>>) {
        (opt_item_view(self.item), crate::text::opt_view(self.txn_id))
    }
}

pub open spec fn entry_views(l: Seq<RowEntry>) -> Seq<(Option<ItemView>, Option<Seq<char>>)> {
    l.map_values(|e: RowEntry| e@)
}

pub open spec fn keyed_views(l: Seq<(Vec<u8>, RowEntry)>) -> Seq<
    (Seq<u8>, (Option<ItemView>, Option<Seq<char>>)),
> {
    l.map_values(|e: (Vec<u8>, RowEntry)| (e.0@, e.1@))
}

/// Encodes keys.
pub fn encode_keys(keys: &[Item], key_schema: &[KeySchemaElement]) -> (r: Result<
    Vec<Vec<u8>>,
    StorageError,
>)
    ensures
        match r {
            Ok(k) => row_keys(item_views(keys@), schema_view(key_schema@)) == Ok::<
                Seq<Seq<u8>>,
                ErrView,
            >(key_views(k@)),
            Err(e) => row_keys(item_views(keys@), schema_view(key_schema@)) == Err::<
                Seq<Seq<u8>>,
                ErrView,
            >(e@),
        },
{
    let ghost all = item_views(keys@);
    let ghost schema = schema_view(key_schema@);
    let mut out: Vec<Vec<u8>> = Vec::new();
    let mut i: usize = 0;
    assert(key_views(out@) =~= Seq::<Seq<u8>>::empty());
    while i < keys.len()
        invariant
            i <= keys.len(),
            all == item_views(keys@),
            schema == schema_view(key_schema@),
            row_keys(all.take(i as int), schema) == Ok::<Seq<Seq<u8>>, ErrView>(key_views(out@)),
        decreases keys.len() - i,
    {
        proof {
            assert(all.take(i + 1).drop_last() =~= all.take(i as int));
            assert(all.take(i + 1).last() == keys@[i as int]@);
        }
        match encode_key(&keys[i], key_schema) {
            Ok(k) => {
                let ghost before = key_views(out@);
                out.push(k);
                assert(key_views(out@) =~= before.push(k@));
            },
            Err(e) => {
                proof {
                    lemma_row_keys_error(all, schema, i + 1);
                }
                return Err(e);
            },
        }
        i = i + 1;
    }
    assert(all.take(i as int) =~= all);
    Ok(out)
}

proof fn lemma_row_keys_error(keys: Seq<ItemView>, schema: SchemaView, n: int)
    requires
        0 <= n <= keys.len(),
        row_keys(keys.take(n), schema) is Err,
    ensures
        row_keys(keys, schema) == row_keys(keys.take(n), schema),
    decreases keys.len(),
{
    if n < keys.len() {
        assert(keys.drop_last().take(n) =~= keys.take(n));
        lemma_row_keys_error(keys.drop_last(), schema, n);
    } else {
        assert(keys.take(n) =~= keys);
    }
}

proof fn lemma_row_entries_error(rows: Seq<RowView>, cutoff: int, n: int)
    requires
        0 <= n <= rows.len(),
        row_entries(rows.take(n), cutoff) is Err,
    ensures
        row_entries(rows, cutoff) == row_entries(rows.take(n), cutoff),
    decreases rows.len(),
{
    if n < rows.len() {
        assert(rows.drop_last().take(n) =~= rows.take(n));
        lemma_row_entries_error(rows.drop_last(), cutoff, n);
    } else {
        assert(rows.take(n) =~= rows);
    }
}

fn read_entries(rows: &[Row], cutoff_micros: i64) -> (r: Result<
    Vec<(Vec<u8>, RowEntry)>,
    StorageError,
>)
    ensures
        match r {
            Ok(l) => row_entries(row_views(rows@), cutoff_micros as int) == Ok::<
                Seq<(Seq<u8>, (Option<ItemView>, Option<Seq<char>>))>,
                ErrView,
            >(keyed_views(l@)),
            Err(e) => row_entries(row_views(rows@), cutoff_micros as int) == Err::<
                Seq<(Seq<u8>, (Option<ItemView>, Option<Seq<char>>))>,
                ErrView,
            >(e@),
        },
{
    let ghost all = row_views(rows@);
    let mut out: Vec<(Vec<u8>, RowEntry)> = Vec::new();
    let mut i: usize = 0;
    assert(keyed_views(out@) =~= Seq::empty());
    while i < rows.len()
        invariant
            i <= rows.len(),
            all == row_views(rows@),
            row_entries(all.take(i as int), cutoff_micros as int) == Ok::<
                Seq<(Seq<u8>, (Option<ItemView>, Option<Seq<char>>))>,
                ErrView,
            >(keyed_views(out@)),
        decreases rows.len() - i,
    {
        proof {
            assert(all.take(i + 1).drop_last() =~= all.take(i as int));
            assert(all.take(i + 1).last() == rows@[i as int]@);
        }
        let cells = rows[i].cells.as_slice();
        let item = match read_item(cells) {
            Ok(item) => item,
            Err(e) => {
                proof {
                    lemma_row_entries_error(all, cutoff_micros as int, i + 1);
                }
                return Err(e);
            },
        };
        let txn_id = read_intent(cells, cutoff_micros);
        let item = if item.is_empty() {
            None
        } else {
            Some(item)
        };
        let entry = RowEntry { item, txn_id };
        let key = bytes_copy(rows[i].key.as_slice());
        let ghost before = keyed_views(out@);
        let ghost added = (key@, entry@);
        out.push((key, entry));
        assert(keyed_views(out@) =~= before.push(added));
        i = i + 1;
    }
    assert(all.take(i as int) =~= all);
    Ok(out)
}

fn find_entry(l: &Vec<(Vec<u8>, RowEntry)>, key: &[u8]) -> (r: RowEntry)
    ensures
        r@ == entry_for(keyed_views(l@), key@),
{
    let ghost all = keyed_views(l@);
    let mut i: usize = l.len();
    assert(all.take(i as int) =~= all);
    while i > 0
        invariant
            i <= l.len(),
            all == keyed_views(l@),
            entry_for(all, key@) == entry_for(all.take(i as int), key@),
        decreases i,
    {
        i = i - 1;
        let e = &l[i];
        proof {
            assert(all.take(i + 1).last() == (e.0@, e.1@));
            assert(all.take(i + 1).drop_last() =~= all.take(i as int));
        }
        if bytes_eq(e.0.as_slice(), key) {
            let item = match &e.1.item {
                Some(x) => Some(copy_item(x)),
                None => None,
            };
            return RowEntry { item, txn_id: crate::text::opt_text(&e.1.txn_id) };
        }
    }
    assert(all.take(0) =~= Seq::empty());
    RowEntry { item: None, txn_id: None }
}

/// Puts the rows that came back for several keys in the order of the keys, each
/// with the transaction that has an active intent on it.
pub fn batch_entries(
    rows: &[Row],
    key_schema: &[KeySchemaElement],
    keys: &[Item],
    cutoff_micros: i64,
) -> (r: Result<Vec<RowEntry>, StorageError>)
    ensures
        match r {
            Ok(l) => batch_found(
                row_views(rows@),
                item_views(keys@),
                schema_view(key_schema@),
                cutoff_micros as int,
            ) == Ok::<Seq<(Option<ItemView>, Option<Seq<char>>)>, ErrView>(entry_views(l@)),
            Err(e) => batch_found(
                row_views(rows@),
                item_views(keys@),
                schema_view(key_schema@),
                cutoff_micros as int,
            ) == Err::<Seq<(Option<ItemView>, Option<Seq<char>>)>, ErrView>(e@),
        },
{
    let entries = match read_entries(rows, cutoff_micros) {
        Ok(l) => l,
        Err(e) => return Err(e),
    };
    let encoded = match encode_keys(keys, key_schema) {
        Ok(k) => k,
        Err(e) => return Err(e),
    };
    let ghost all = key_views(encoded@);
    let mut out: Vec<RowEntry> = Vec::new();
    let mut i: usize = 0;
    assert(entry_views(out@) =~= entries_for(keyed_views(entries@), all.take(0)));
    while i < encoded.len()
        invariant
            i <= encoded.len(),
            all == key_views(encoded@),
            entry_views(out@) == entries_for(keyed_views(entries@), all.take(i as int)),
        decreases encoded.len() - i,
    {
        proof {
            assert(all.take(i + 1).drop_last() =~= all.take(i as int));
            assert(all.take(i + 1).last() == encoded@[i as int]@);
        }
        let e = find_entry(&entries, encoded[i].as_slice());
        let ghost before = entry_views(out@);
        let ghost added = e@;
        out.push(e);
        assert(entry_views(out@) =~= before.push(added));
        i = i + 1;
    }
    assert(all.take(i as int) =~= all);
    Ok(out)
}

/// The items alone.
pub open spec fn entry_items(l: Seq<(Option<ItemView>, Option<Seq<char>>)>) -> Seq<
    Option<ItemView>,
> {
    l.map_values(|e: (Option<ItemView>, Option<Seq<char>>)| e.0)
}

pub open spec fn opt_item_views(l: Seq<Option<Item>>) -> Seq<Option<ItemView>> {
    l.map_values(|i: Option<Item>| opt_item_view(i))
}

/// Puts the rows that came back for several keys in the order of the keys.
pub fn batch_items(rows: &[Row], key_schema: &[KeySchemaElement], keys: &[Item]) -> (r: Result<
    Vec<Option<Item>>,
    StorageError,
>)
    ensures
        match r {
            Ok(l) => batch_found(
                row_views(rows@),
                item_views(keys@),
                schema_view(key_schema@),
                i64::MAX as int,
            ) matches Ok(f) && opt_item_views(l@) == entry_items(f),
            Err(e) => batch_found(
                row_views(rows@),
                item_views(keys@),
                schema_view(key_schema@),
                i64::MAX as int,
            ) == Err::<Seq<(Option<ItemView>, Option<Seq<char>>)>, ErrView>(e@),
        },
{
    let entries = match batch_entries(rows, key_schema, keys, i64::MAX) {
        Ok(l) => l,
        Err(e) => return Err(e),
    };
    let ghost all = entry_views(entries@);
    let mut left = crate::lists::reversed(entries);
    let ghost n = all.len();
    let mut out: Vec<Option<Item>> = Vec::new();
    assert(opt_item_views(out@) =~= entry_items(all.take(0)));
    assert forall|j: int| 0 <= j < left@.len() implies (#[trigger] left@[j])@ == all[n - 1 - j] by {
    }
    while left.len() > 0
        invariant
            n == all.len(),
            left@.len() + out@.len() == n,
            forall|j: int| 0 <= j < left@.len() ==> (#[trigger] left@[j])@ == all[n - 1 - j],
            opt_item_views(out@) == entry_items(all.take(out@.len() as int)),
        decreases left.len(),
    {
        let ghost k = out@.len() as int;
        assert(left@[left@.len() - 1]@ == all[k]);
        let ghost old_left = left@;
        let e = left.pop().unwrap();
        assert forall|j: int| 0 <= j < left@.len() implies (#[trigger] left@[j])@ == all[n - 1
            - j] by {
            assert(left@[j] == old_left[j]);
        }
        let ghost before = opt_item_views(out@);
        let ghost added = opt_item_view(e.item);
        out.push(e.item);
        assert(opt_item_views(out@) =~= before.push(added));
        assert(entry_items(all.take(k + 1)) =~= entry_items(all.take(k)).push(added));
    }
    assert(all.take(n as int) =~= all);
    Ok(out)
}

// ---------------------------------------------------------------------------
// Mutations
// ---------------------------------------------------------------------------

/// The mutations that write the attributes of an item.
pub open spec fn item_cells_set(item: ItemView) -> Seq<MutView>
    decreases item.len(),
{
    if item.len() == 0 {
        Seq::empty()
    } else {
        item_cells_set(item.drop_last()).push(
            set_cell_view(FAMILY_DATA@, encode_utf8(item.last().0), cell_bytes(item.last().1)),
        )
    }
}

/// The mutations that turn a row into an item.
pub open spec fn item_mutations(item: ItemView, replace: bool) -> Seq<MutView> {
    if replace {
        seq![MutView::DeleteFromFamily { family: FAMILY_DATA@ }] + item_cells_set(item)
    } else {
        item_cells_set(item)
    }
}

/// The mutation that writes a version.
pub open spec fn version_set(v: nat) -> MutView {
    set_cell_view(FAMILY_META@, encode_utf8(QUALIFIER_VERSION@), version_bytes(v))
}

/// The mutations that write an item and its version in place of what a row
/// held.
pub open spec fn put_mutations(item: ItemView, version: nat) -> Seq<MutView> {
    item_mutations(item, true).push(version_set(version))
}

/// The mutations that delete an item and its version, and nothing else.
pub open spec fn delete_mutations() -> Seq<MutView> {
    seq![
        MutView::DeleteFromFamily { family: FAMILY_DATA@ },
        MutView::DeleteFromColumn {
            family: FAMILY_META@,
            qualifier: encode_utf8(QUALIFIER_VERSION@),
        },
    ]
}

/// Every attribute of the item that can be read back from its cell is.
pub open spec fn cells_hold(item: ItemView) -> bool {
    forall|i: int|
        0 <= i < item.len() && cell_readable(item[i].1) ==> cell_value(
            cell_bytes(#[trigger] item[i].1),
        ) == Ok::<AttrView, ErrView>(item[i].1)
}

/// All attributes can be read back from their cells.
pub open spec fn item_readable(item: ItemView) -> bool {
    forall|i: int| 0 <= i < item.len() ==> cell_readable(#[trigger] item[i].1)
}

/// The mutations that write an item. With `delete_row_first` they begin with
/// the deletion of all attributes, so that the item replaces what was there.
pub fn item_to_mutations(item: &Item, delete_row_first: bool) -> (r: Result<
    Vec<Mutation>,
    StorageError,
>)
    ensures
        r matches Ok(m) && mut_views(m@) == item_mutations(item@, delete_row_first),
        cells_hold(item@),
        item_sorted(item@),
{
    let mut out: Vec<Mutation> = Vec::new();
    if delete_row_first {
        out.push(delete_from_family(FAMILY_DATA));
    }
    let n = item.len();
    let mut i: usize = 0;
    let ghost head = if delete_row_first {
        seq![MutView::DeleteFromFamily { family: FAMILY_DATA@ }]
    } else {
        Seq::empty()
    };
    assert(mut_views(out@) =~= head + item_cells_set(item@.take(0)));
    while i < n
        invariant
            i <= n,
            n == item@.len(),
            mut_views(out@) == head + item_cells_set(item@.take(i as int)),
            forall|j: int|
                0 <= j < i && cell_readable(item@[j].1) ==> cell_value(
                    cell_bytes(#[trigger] item@[j].1),
                ) == Ok::<AttrView, ErrView>(item@[j].1),
        decreases n - i,
    {
        proof {
            assert(item@.take(i + 1).drop_last() =~= item@.take(i as int));
            assert(item@.take(i + 1).last() == item@[i as int]);
        }
        let value = match crate::cell::encode(item.value_at(i)) {
            Ok(b) => b,
            Err(e) => return Err(e),
        };
        let m = set_cell(FAMILY_DATA, item.name_at(i).as_str().as_bytes(), value);
        let ghost added = m@;
        let ghost before = mut_views(out@);
        out.push(m);
        proof {
            assert(mut_views(out@) =~= before.push(added));
            assert(mut_views(out@) =~= head + item_cells_set(item@.take(i + 1)));
        }
        i = i + 1;
    }
    assert(item@.take(i as int) =~= item@);
    assert(!delete_row_first ==> head + item_cells_set(item@) =~= item_cells_set(item@));
    Ok(out)
}

/// The mutations that write an item and its version.
pub fn versioned_mutations(item: &Item, version: u64) -> (r: Result<Vec<Mutation>, StorageError>)
    ensures
        r matches Ok(m) && mut_views(m@) == put_mutations(item@, version as nat),
        cells_hold(item@),
        item_sorted(item@),
{
    let mut m = match item_to_mutations(item, true) {
        Ok(m) => m,
        Err(e) => return Err(e),
    };
    let v = set_cell(
        FAMILY_META,
        QUALIFIER_VERSION.as_bytes(),
        text_bytes(u64_text(version).as_str()),
    );
    let ghost added = v@;
    let ghost before = mut_views(m@);
    m.push(v);
    assert(mut_views(m@) =~= before.push(added));
    Ok(m)
}

/// The mutations that delete an item and its version.
pub fn deletion_mutations() -> (r: Vec<Mutation>)
    ensures
        mut_views(r@) == delete_mutations(),
{
    let r = vec![
        delete_from_family(FAMILY_DATA),
        delete_from_column(FAMILY_META, QUALIFIER_VERSION.as_bytes()),
    ];
    assert(mut_views(r@) =~= delete_mutations());
    r
}

// ---------------------------------------------------------------------------
// What they do to a row
// ---------------------------------------------------------------------------

/// A row as a read of the newest cells gives it.
pub open spec fn read_back(row: Seq<CellView>) -> Result<
    (Option<ItemView>, Option<nat>),
    ErrView,
> {
    found(seq![RowView { key: Seq::empty(), cells: newest(row, 1) }])
}

/// The intents of a row are those of another.
pub open spec fn same_intents(a: Seq<CellView>, b: Seq<CellView>) -> bool {
    forall|q: Seq<u8>|
        q != encode_utf8(QUALIFIER_VERSION@) ==> #[trigger] newest_of(a, FAMILY_META@, q)
            == newest_of(b, FAMILY_META@, q)
}

/// The cell of an attribute that was written at the time `now`.
pub open spec fn attribute_cell(e: (Seq<char>, AttrView), now: int) -> CellView {
    CellView {
        family: FAMILY_DATA@,
        qualifier: encode_utf8(e.0),
        value: cell_bytes(e.1),
        timestamp: now,
    }
}

/// The cells of an item that was written at the time `now`, the last attribute
/// first.
pub open spec fn item_cells(item: ItemView, now: int) -> Seq<CellView>
    decreases item.len(),
{
    if item.len() == 0 {
        Seq::empty()
    } else {
        seq![attribute_cell(item.last(), now)] + item_cells(item.drop_last(), now)
    }
}

proof fn lemma_item_cells(item: ItemView, now: int)
    ensures
        item_cells(item, now).len() == item.len(),
        forall|i: int|
            0 <= i < item.len() ==> #[trigger] item_cells(item, now)[i] == attribute_cell(
                item[item.len() - 1 - i],
                now,
            ),
    decreases item.len(),
{
    if item.len() > 0 {
        lemma_item_cells(item.drop_last(), now);
        assert forall|i: int| 0 <= i < item.len() implies #[trigger] item_cells(item, now)[i]
            == attribute_cell(item[item.len() - 1 - i], now) by {
            if i > 0 {
                assert(item_cells(item, now)[i] == item_cells(item.drop_last(), now)[i - 1]);
            }
        }
    }
}

proof fn lemma_item_cells_applied(row: Seq<CellView>, item: ItemView, now: int)
    ensures
        applied(row, item_cells_set(item), now) == item_cells(item, now) + row,
    decreases item.len(),
{
    if item.len() == 0 {
        assert(item_cells(item, now) + row =~= row);
    } else {
        let d = item.drop_last();
        lemma_item_cells_applied(row, d, now);
        let l = item_cells_set(item);
        assert(l.drop_last() =~= item_cells_set(d));
        assert(applied(row, l, now) =~= item_cells(item, now) + row);
    }
}

/// A row after an item was written.
proof fn lemma_put_applied(row: Seq<CellView>, item: ItemView, version: nat, now: int)
    ensures
        applied(row, put_mutations(item, version), now) == seq![
            CellView {
                family: FAMILY_META@,
                qualifier: encode_utf8(QUALIFIER_VERSION@),
                value: version_bytes(version),
                timestamp: now,
            },
        ] + item_cells(item, now) + without_family(row, FAMILY_DATA@),
{
    let first = seq![MutView::DeleteFromFamily { family: FAMILY_DATA@ }];
    let all = put_mutations(item, version);
    assert(all.drop_last() =~= first + item_cells_set(item));
    lemma_applied_concat(row, first, item_cells_set(item), now);
    assert(first.drop_last() =~= Seq::<MutView>::empty());
    assert(applied(row, first.drop_last(), now) == row);
    assert(applied(row, first, now) == without_family(row, FAMILY_DATA@));
    lemma_item_cells_applied(without_family(row, FAMILY_DATA@), item, now);
    assert(applied(row, all, now) =~= seq![
        CellView {
            family: FAMILY_META@,
            qualifier: encode_utf8(QUALIFIER_VERSION@),
            value: version_bytes(version),
            timestamp: now,
        },
    ] + item_cells(item, now) + without_family(row, FAMILY_DATA@));
}

/// No two cells of `s` are in the same column.
pub open spec fn one_per_column(s: Seq<CellView>) -> bool {
    forall|i: int, j: int|
        0 <= i < j < s.len() ==> !in_column(#[trigger] s[j], (#[trigger] s[i]).family, s[i].qualifier)
}

proof fn lemma_newest_all(s: Seq<CellView>)
    requires
        one_per_column(s),
    ensures
        newest(s, 1) == s,
    decreases s.len(),
{
    if s.len() > 0 {
        let d = s.drop_last();
        let l = s.last();
        assert(one_per_column(d)) by {
            assert forall|i: int, j: int| 0 <= i < j < d.len() implies !in_column(
                #[trigger] d[j],
                (#[trigger] d[i]).family,
                d[i].qualifier,
            ) by {
                assert(d[i] == s[i] && d[j] == s[j]);
            }
        }
        lemma_newest_all(d);
        lemma_newest_of_column(d, l.family, l.qualifier);
        if newest_of(d, l.family, l.qualifier) is Some {
            let c = newest_of(d, l.family, l.qualifier).unwrap();
            let i = choose|i: int| 0 <= i < d.len() && d[i] == c;
            assert(s[i] == c && s[s.len() - 1] == l);
            assert(!in_column(s[s.len() - 1], s[i].family, s[i].qualifier));
            assert(false);
        }
        assert(newest(s, 1) =~= s);
    }
}

/// Cells that say nothing of an item or a version leave what is before them.
proof fn lemma_neutral(a: Seq<CellView>, b: Seq<CellView>)
    requires
        forall|i: int| 0 <= i < b.len() ==> (#[trigger] b[i]).family != FAMILY_DATA@,
        forall|i: int|
            0 <= i < b.len() ==> !in_column(
                #[trigger] b[i],
                FAMILY_META@,
                encode_utf8(QUALIFIER_VERSION@),
            ),
    ensures
        row_item(a + b) == row_item(a),
        row_version(a + b) == row_version(a),
    decreases b.len(),
{
    if b.len() > 0 {
        let d = b.drop_last();
        assert forall|i: int| 0 <= i < d.len() implies (#[trigger] d[i]).family != FAMILY_DATA@
            && !in_column(d[i], FAMILY_META@, encode_utf8(QUALIFIER_VERSION@)) by {
            assert(d[i] == b[i]);
        }
        lemma_neutral(a, d);
        assert((a + b).drop_last() =~= a + d);
        assert((a + b).last() == b[b.len() - 1]);
    } else {
        assert(a + b =~= a);
    }
}

/// The newest cells of columns that `a` begins with are those of `a`.
proof fn lemma_newest_concat(a: Seq<CellView>, b: Seq<CellView>) -> (rest: Seq<CellView>)
    requires
        one_per_column(a),
    ensures
        newest(a + b, 1) == a + rest,
        forall|i: int| 0 <= i < rest.len() ==> b.contains(#[trigger] rest[i]),
        forall|i: int|
            0 <= i < rest.len() ==> column_free(a, #[trigger] rest[i]),
    decreases b.len(),
{
    if b.len() == 0 {
        lemma_newest_all(a);
        assert(a + b =~= a);
        assert(a + Seq::<CellView>::empty() =~= a);
        Seq::empty()
    } else {
        let d = b.drop_last();
        let l = b.last();
        let r = lemma_newest_concat(a, d);
        assert((a + b).drop_last() =~= a + d);
        assert((a + b).last() == l);
        assert forall|i: int| 0 <= i < r.len() implies b.contains(#[trigger] r[i]) by {
            let k = choose|k: int| 0 <= k < d.len() && d[k] == r[i];
            assert(b[k] == r[i]);
        }
        if crate::bigtable::column_count(a + d, l.family, l.qualifier) < 1 {
            lemma_newest_of_column(a + d, l.family, l.qualifier);
            lemma_newest_of_concat(a, d, l.family, l.qualifier);
            let rest = r.push(l);
            assert(a + rest =~= (a + r).push(l));
            assert(b[b.len() - 1] == l);
            assert(column_free(a, l));
            rest
        } else {
            r
        }
    }
}

/// No cell of `a` is in the column of `c`.
pub open spec fn column_free(a: Seq<CellView>, c: CellView) -> bool {
    newest_of(a, c.family, c.qualifier) is None
}

proof fn lemma_families()
    ensures
        FAMILY_META@ != FAMILY_DATA@,
{
    reveal_strlit("m");
    reveal_strlit("d");
    assert(FAMILY_META@[0] != FAMILY_DATA@[0]);
}

/// An attribute before all others goes to the front.
proof fn lemma_put_front(item: ItemView, at: int)
    requires
        item_sorted(item),
        0 <= at < item.len(),
    ensures
        item_put(item.skip(at + 1), item[at].0, item[at].1) == item.skip(at),
{
    let e = item[at];
    let rest = item.skip(at + 1);
    assert(crate::sorted::sorted_by(rest, entry_key())) by {
        assert forall|i: int, j: int| 0 <= i < j < rest.len() implies crate::bytes::lex_lt(
            entry_key()(#[trigger] rest[i]),
            entry_key()(#[trigger] rest[j]),
        ) by {
            assert(rest[i] == item[at + 1 + i] && rest[j] == item[at + 1 + j]);
        }
    }
    if rest.len() > 0 {
        assert(rest[0] == item[at + 1]);
        assert(crate::bytes::lex_lt(entry_key()(item[at]), entry_key()(item[at + 1])));
        crate::bytes::lex_asymmetric(entry_key()(item[at]), entry_key()(item[at + 1]));
    }
    lemma_sorted_put_at(rest, e, entry_key(), 0);
    assert(item.skip(at) =~= rest.insert(0, e));
    assert((e.0, e.1) == e);
}

/// What reading one more attribute gives.
proof fn lemma_row_item_attribute(
    cells: Seq<CellView>,
    item: ItemView,
    e: (Seq<char>, AttrView),
    now: int,
)
    requires
        row_item(cells) == Ok::<ItemView, ErrView>(item),
        cell_value(cell_bytes(e.1)) == Ok::<AttrView, ErrView>(e.1),
    ensures
        row_item(cells.push(attribute_cell(e, now))) == Ok::<ItemView, ErrView>(
            item_put(item, e.0, e.1),
        ),
{
    let s = cells.push(attribute_cell(e, now));
    assert(s.drop_last() =~= cells);
    utf8_round_trip(e.0);
}

/// The cells of an item, of which the last attribute comes first, hold it.
proof fn lemma_item_cells_read(head: Seq<CellView>, item: ItemView, now: int, k: nat)
    requires
        head.len() <= 1,
        head.len() == 1 ==> head[0].family == FAMILY_META@,
        item_sorted(item),
        item_readable(item),
        cells_hold(item),
        k <= item.len(),
    ensures
        row_item(head + item_cells(item, now).take(k as int)) == Ok::<ItemView, ErrView>(
            item.skip(item.len() - k),
        ),
    decreases k,
{
    lemma_item_cells(item, now);
    let cells = item_cells(item, now);
    let s = head + cells.take(k as int);
    if k == 0 {
        lemma_families();
        assert(item.skip(item.len() as int) =~= Seq::empty());
        assert(s =~= head);
        if head.len() == 1 {
            assert(head.drop_last() =~= Seq::<CellView>::empty());
            assert(row_item(head.drop_last()) == Ok::<ItemView, ErrView>(Seq::empty()));
        }
    } else {
        let at = item.len() - k;
        let before = head + cells.take(k - 1);
        lemma_item_cells_read(head, item, now, (k - 1) as nat);
        assert(cells[k - 1] == attribute_cell(item[at], now));
        assert(s =~= before.push(attribute_cell(item[at], now)));
        assert(cell_readable(item[at].1));
        lemma_row_item_attribute(before, item.skip(at + 1), item[at], now);
        lemma_put_front(item, at);
    }
}

proof fn lemma_item_columns(head: CellView, item: ItemView, now: int)
    requires
        head.family == FAMILY_META@,
        item_sorted(item),
    ensures
        one_per_column(seq![head] + item_cells(item, now)),
{
    lemma_patterns();
    lemma_item_cells(item, now);
    let s = seq![head] + item_cells(item, now);
    assert forall|i: int, j: int| 0 <= i < j < s.len() implies !in_column(
        #[trigger] s[j],
        (#[trigger] s[i]).family,
        s[i].qualifier,
    ) by {
        let n = item.len();
        assert(s[j] == item_cells(item, now)[j - 1]);
        if i > 0 {
            assert(s[i] == item_cells(item, now)[i - 1]);
            let a = item[n - i];
            let b = item[n - j];
            assert(crate::bytes::lex_lt(entry_key()(b), entry_key()(a)));
            if encode_utf8(a.0) == encode_utf8(b.0) {
                crate::bytes::lex_asymmetric(encode_utf8(a.0), encode_utf8(b.0));
            }
        }
    }
}

/// A row that an item was written to holds that item and its version, and the
/// intents that it held before. Of an item without attributes nothing is held.
pub proof fn put_effect(row: Seq<CellView>, item: ItemView, version: nat, now: int)
    requires
        version <= u64::MAX,
        item_sorted(item),
        item_readable(item),
        cells_hold(item),
    ensures
        read_back(applied(row, put_mutations(item, version), now)) == Ok::<
            (Option<ItemView>, Option<nat>),
            ErrView,
        >((present(item), Some(version))),
        item.len() > 0 ==> read_back(applied(row, put_mutations(item, version), now)) == Ok::<
            (Option<ItemView>, Option<nat>),
            ErrView,
        >((Some(item), Some(version))),
        has_version(applied(row, put_mutations(item, version), now), version),
        same_intents(applied(row, put_mutations(item, version), now), row),
{
    lemma_patterns();
    version_round_trip(version as u64);
    let head = CellView {
        family: FAMILY_META@,
        qualifier: encode_utf8(QUALIFIER_VERSION@),
        value: version_bytes(version),
        timestamp: now,
    };
    let kept = without_family(row, FAMILY_DATA@);
    let a = seq![head] + item_cells(item, now);
    let after = a + kept;
    lemma_put_applied(row, item, version, now);
    lemma_item_columns(head, item, now);
    lemma_without_family(row, FAMILY_DATA@);
    let rest = lemma_newest_concat(a, kept);
    lemma_head_version(head, item, now);
    assert forall|i: int| 0 <= i < rest.len() implies (#[trigger] rest[i]).family != FAMILY_DATA@
        && !in_column(rest[i], FAMILY_META@, encode_utf8(QUALIFIER_VERSION@)) by {
        let k = choose|k: int| 0 <= k < kept.len() && kept[k] == rest[i];
        assert(kept[k].family != FAMILY_DATA@);
        assert(column_free(a, rest[i]));
    }
    lemma_neutral(a, rest);
    lemma_item_cells(item, now);
    lemma_item_cells_read(seq![head], item, now, item.len());
    assert(item_cells(item, now).take(item.len() as int) =~= item_cells(item, now));
    assert(item.skip(0) =~= item);
    assert(row_item(newest(after, 1)) == Ok::<ItemView, ErrView>(item));
    assert forall|q: Seq<u8>| q != encode_utf8(QUALIFIER_VERSION@) implies #[trigger] newest_of(
        after,
        FAMILY_META@,
        q,
    ) == newest_of(row, FAMILY_META@, q) by {
        lemma_newest_of_concat(a, kept, FAMILY_META@, q);
        lemma_newest_of_column(a, FAMILY_META@, q);
        if newest_of(a, FAMILY_META@, q) is Some {
            let c = newest_of(a, FAMILY_META@, q).unwrap();
            let i = choose|i: int| 0 <= i < a.len() && a[i] == c;
            if i > 0 {
                assert(a[i] == item_cells(item, now)[i - 1]);
            }
            assert(false);
        }
    }
    lemma_newest_of_concat(a, kept, FAMILY_META@, encode_utf8(QUALIFIER_VERSION@));
}

/// A row whose attributes were replaced by an item holds that item.
pub proof fn replace_effect(row: Seq<CellView>, item: ItemView, now: int)
    requires
        item_sorted(item),
        item_readable(item),
        cells_hold(item),
    ensures
        row_item(newest(applied(row, item_mutations(item, true), now), 1)) == Ok::<
            ItemView,
            ErrView,
        >(item),
        same_intents(applied(row, item_mutations(item, true), now), row),
{
    lemma_patterns();
    let first = seq![MutView::DeleteFromFamily { family: FAMILY_DATA@ }];
    let kept = without_family(row, FAMILY_DATA@);
    let cells = item_cells(item, now);
    let after = cells + kept;
    lemma_applied_concat(row, first, item_cells_set(item), now);
    assert(first.drop_last() =~= Seq::<MutView>::empty());
    assert(applied(row, first.drop_last(), now) == row);
    assert(applied(row, first, now) == kept);
    lemma_item_cells_applied(kept, item, now);
    lemma_without_family(row, FAMILY_DATA@);
    lemma_item_cells(item, now);
    let head = CellView {
        family: FAMILY_META@,
        qualifier: Seq::empty(),
        value: Seq::empty(),
        timestamp: now,
    };
    lemma_item_columns(head, item, now);
    let all = seq![head] + cells;
    assert forall|i: int, j: int| 0 <= i < j < cells.len() implies !in_column(
        #[trigger] cells[j],
        (#[trigger] cells[i]).family,
        cells[i].qualifier,
    ) by {
        assert(all[i + 1] == cells[i] && all[j + 1] == cells[j]);
    }
    let rest = lemma_newest_concat(cells, kept);
    lemma_item_only(cells, rest, kept);
    let none = Seq::<CellView>::empty();
    lemma_item_cells_read(none, item, now, item.len());
    assert(none + cells.take(item.len() as int) =~= cells);
    assert(item.skip(0) =~= item);
    assert forall|q: Seq<u8>| q != encode_utf8(QUALIFIER_VERSION@) implies #[trigger] newest_of(
        after,
        FAMILY_META@,
        q,
    ) == newest_of(row, FAMILY_META@, q) by {
        lemma_newest_of_concat(cells, kept, FAMILY_META@, q);
        lemma_newest_of_column(cells, FAMILY_META@, q);
    }
}

/// Cells without attributes leave the item of those before them.
proof fn lemma_item_only(a: Seq<CellView>, b: Seq<CellView>, kept: Seq<CellView>)
    requires
        forall|i: int| 0 <= i < b.len() ==> kept.contains(#[trigger] b[i]),
        forall|i: int| 0 <= i < kept.len() ==> (#[trigger] kept[i]).family != FAMILY_DATA@,
    ensures
        row_item(a + b) == row_item(a),
    decreases b.len(),
{
    if b.len() > 0 {
        let d = b.drop_last();
        assert forall|i: int| 0 <= i < d.len() implies kept.contains(#[trigger] d[i]) by {
            assert(d[i] == b[i]);
        }
        lemma_item_only(a, d, kept);
        assert((a + b).drop_last() =~= a + d);
        assert((a + b).last() == b[b.len() - 1]);
        assert(kept.contains(b[b.len() - 1]));
    } else {
        assert(a + b =~= a);
    }
}

proof fn lemma_head_version(head: CellView, item: ItemView, now: int)
    requires
        in_column(head, FAMILY_META@, encode_utf8(QUALIFIER_VERSION@)),
    ensures
        newest_of(
            seq![head] + item_cells(item, now),
            FAMILY_META@,
            encode_utf8(QUALIFIER_VERSION@),
        ) == Some(head),
        row_version(seq![head] + item_cells(item, now)) == version_of(head.value),
{
    lemma_patterns();
    let h = seq![head];
    let q = encode_utf8(QUALIFIER_VERSION@);
    lemma_newest_of_concat(h, item_cells(item, now), FAMILY_META@, q);
    assert(h.drop_last() =~= Seq::<CellView>::empty());
    assert(newest_of(h.drop_last(), FAMILY_META@, q) is None);
    assert(newest_of(h, FAMILY_META@, q) == Some(head));
    lemma_item_cells(item, now);
    lemma_version_of_data(h, item_cells(item, now));
    assert(row_version(h) == version_of(head.value));
}

proof fn lemma_version_of_data(a: Seq<CellView>, b: Seq<CellView>)
    requires
        forall|i: int| 0 <= i < b.len() ==> (#[trigger] b[i]).family == FAMILY_DATA@,
    ensures
        row_version(a + b) == row_version(a),
    decreases b.len(),
{
    lemma_patterns();
    if b.len() > 0 {
        let d = b.drop_last();
        assert forall|i: int| 0 <= i < d.len() implies (#[trigger] d[i]).family
            == FAMILY_DATA@ by {
            assert(d[i] == b[i]);
        }
        lemma_version_of_data(a, d);
        assert((a + b).drop_last() =~= a + d);
        assert((a + b).last() == b[b.len() - 1]);
    } else {
        assert(a + b =~= a);
    }
}

/// A row that an item was deleted from holds neither item nor version, and the
/// intents that it held before.
pub proof fn delete_effect(row: Seq<CellView>, now: int)
    ensures
        read_back(applied(row, delete_mutations(), now)) == Ok::<
            (Option<ItemView>, Option<nat>),
            ErrView,
        >((None, None)),
        same_intents(applied(row, delete_mutations(), now), row),
{
    lemma_patterns();
    let q = encode_utf8(QUALIFIER_VERSION@);
    let l = delete_mutations();
    let a = without_family(row, FAMILY_DATA@);
    let b = without_column(a, FAMILY_META@, q);
    assert(l.drop_last() =~= seq![MutView::DeleteFromFamily { family: FAMILY_DATA@ }]);
    assert(l.drop_last().drop_last() =~= Seq::<MutView>::empty());
    assert(applied(row, l.drop_last().drop_last(), now) == row);
    assert(applied(row, l.drop_last(), now) == a);
    assert(applied(row, l, now) == b);
    lemma_without_family(row, FAMILY_DATA@);
    lemma_without_column(a, FAMILY_META@, q);
    let n = newest(b, 1);
    assert forall|i: int| 0 <= i < n.len() implies (#[trigger] n[i]).family != FAMILY_DATA@
        && !in_column(n[i], FAMILY_META@, q) by {
        assert(n.contains(n[i]));
        lemma_newest_cells(b, n[i]);
        assert(newest_of(b, n[i].family, n[i].qualifier) is Some);
        assert(newest_of(a, n[i].family, n[i].qualifier) is Some);
    }
    let none = Seq::<CellView>::empty();
    lemma_neutral(none, n);
    assert(none + n =~= n);
    assert(row_item(none) == Ok::<ItemView, ErrView>(Seq::empty()));
}

// ---------------------------------------------------------------------------
// Guarded writes
// ---------------------------------------------------------------------------

/// The filter for what speaks against a write. A write on condition goes by the
/// version that the row had when the condition was looked at.
pub open spec fn guard_filter(cutoff: int, expected: Option<nat>, conditional: bool) -> FilterView {
    if !conditional {
        active_intent_filter(cutoff)
    } else {
        match expected {
            Some(v) => occ_conflict_filter(cutoff, v),
            None => row_presence_filter(cutoff),
        }
    }
}

/// What a write is refused with.
pub open spec fn conflict_text(expected: Option<nat>, conditional: bool) -> Seq<char> {
    if !conditional {
        "concurrent transaction holds an intent on this row"@
    } else if expected is Some {
        "concurrent transaction holds an intent on this row or row version changed"@
    } else {
        "concurrent transaction holds an intent on this row or row already exists"@
    }
}

/// What speaks against a write.
pub open spec fn write_conflict(
    row: Seq<CellView>,
    cutoff: int,
    expected: Option<nat>,
    conditional: bool,
) -> bool {
    has_active_intent(row, cutoff) || (conditional && match expected {
        Some(v) => !has_version(row, v),
        None => version_cell(row) is Some || has_data(row),
    })
}

/// The guard of a write matches exactly where something speaks against it. A
/// row that had a version must be there.
pub proof fn guard_matches(
    row: Seq<CellView>,
    cutoff: int,
    expected: Option<nat>,
    conditional: bool,
)
    requires
        conditional && expected is Some ==> row.len() > 0,
    ensures
        matches_row(guard_filter(cutoff, expected, conditional), row) <==> write_conflict(
            row,
            cutoff,
            expected,
            conditional,
        ),
{
    active_intent_matches(row, cutoff);
    if conditional {
        match expected {
            Some(v) => {
                occ_conflict_matches(row, cutoff, v);
            },
            None => {
                row_presence_matches(row, cutoff);
            },
        }
    }
}

/// Of two writers that saw the same version, only the first succeeds: once the
/// one has written, the guard of the other matches.
pub proof fn stale_writer_conflicts(
    row: Seq<CellView>,
    item: ItemView,
    version: nat,
    now: int,
    cutoff: int,
)
    ensures
        matches_row(
            guard_filter(cutoff, Some(version), true),
            applied(row, put_mutations(item, version + 1), now),
        ),
{
    let head = CellView {
        family: FAMILY_META@,
        qualifier: encode_utf8(QUALIFIER_VERSION@),
        value: version_bytes(version + 1),
        timestamp: now,
    };
    let after = applied(row, put_mutations(item, version + 1), now);
    lemma_put_applied(row, item, version + 1, now);
    lemma_head_version(head, item, now);
    lemma_newest_of_concat(
        seq![head] + item_cells(item, now),
        without_family(row, FAMILY_DATA@),
        FAMILY_META@,
        encode_utf8(QUALIFIER_VERSION@),
    );
    if version_bytes(version) == version_bytes(version + 1) {
        utf8_injective(decimal(version), decimal(version + 1));
        crate::text::lemma_decimal_injective(version, version + 1);
    }
    guard_matches(after, cutoff, Some(version), true);
}

/// The mutations leave the item and the version in any row, and the intents as
/// they were.
pub open spec fn writes_item(m: Seq<MutView>, item: ItemView, version: nat) -> bool {
    forall|row: Seq<CellView>, now: int|
        read_back(#[trigger] applied(row, m, now)) == Ok::<
            (Option<ItemView>, Option<nat>),
            ErrView,
        >((Some(item), Some(version))) && same_intents(applied(row, m, now), row)
}

/// The mutations leave neither item nor version in any row, and the intents as
/// they were.
pub open spec fn deletes_item(m: Seq<MutView>) -> bool {
    forall|row: Seq<CellView>, now: int|
        read_back(#[trigger] applied(row, m, now)) == Ok::<
            (Option<ItemView>, Option<nat>),
            ErrView,
        >((None, None)) && same_intents(applied(row, m, now), row)
}

/// A write that goes through unless its guard matches.
#[derive(Debug, PartialEq, Eq)]
pub struct GuardedWrite {
    pub request: CheckAndMutateRowRequest,
    pub conflict: String,
}

/// What a [`GuardedWrite`] is.
pub struct GuardView {
    pub request: CheckView,
    pub conflict: Seq<char>,
}

impl GuardedWrite {
    pub open spec fn view(&self) -> GuardView {
        GuardView { request: self.request@, conflict: self.conflict@ }
    }

    /// The result of the write, by whether the guard matched.
    pub fn outcome(&self, predicate_matched: bool) -> (r: Result<(), StorageError>)
        ensures
            match r {
                Ok(_) => !predicate_matched,
                Err(e) => predicate_matched && e@ == ErrView::TransactionConflict(self.conflict@),
            },
    {
        if predicate_matched {
            Err(StorageError::TransactionConflict(text(self.conflict.as_str())))
        } else {
            Ok(())
        }
    }
}

/// A guarded write of the given mutations.
pub open spec fn guarded(
    table: Seq<char>,
    profile: Seq<char>,
    key: Seq<u8>,
    cutoff: int,
    expected: Option<nat>,
    conditional: bool,
    mutations: Seq<MutView>,
) -> GuardView {
    GuardView {
        request: CheckView {
            table,
            profile,
            key,
            predicate: guard_filter(cutoff, expected, conditional),
            if_true: Seq::empty(),
            if_false: mutations,
        },
        conflict: conflict_text(expected, conditional),
    }
}

// ---------------------------------------------------------------------------
// The operations of a table
// ---------------------------------------------------------------------------

/// The age from which an intent is stale is a number of microseconds, and the
/// time that it leads back to too.
pub open spec fn intent_time_fits(timeout_secs: u64, now: int) -> bool {
    timeout_secs * 1_000_000 <= i64::MAX && now - timeout_secs * 1_000_000 >= i64::MIN
}

/// The time before which intents are stale.
pub open spec fn intent_cutoff(timeout_secs: u64, now: int) -> int {
    now - timeout_secs * 1_000_000
}

/// Finds the time before which intents are stale.
pub fn cutoff_micros(timeout_secs: u64, now_micros: i64) -> (r: i64)
    requires
        intent_time_fits(timeout_secs, now_micros as int),
    ensures
        r == intent_cutoff(timeout_secs, now_micros as int),
{
    let timeout: i64 = (timeout_secs * 1_000_000) as i64;
    now_micros - timeout
}

/// The version after the one that a row had.
pub open spec fn next_version(expected: Option<nat>) -> nat {
    match expected {
        Some(v) => v + 1,
        None => 1,
    }
}

/// A table that items are read from and written to.
pub struct ItemOps<'a> {
    pub client: &'a BigtableClient,
    pub full_table_name: String,
    pub intent_timeout_secs: u64,
}

/// A read of the newest cells of rows.
pub open spec fn rows_read(ops: ItemOps, keys: Seq<Seq<u8>>) -> ReadView {
    ReadView {
        table: ops.full_table_name@,
        profile: ops.client.profile(),
        keys,
        ranges: Seq::empty(),
        limit: keys.len() as int,
        filter: FilterView::Limit(1),
        reversed: false,
    }
}

impl<'a> ItemOps<'a> {
    pub fn new(client: &'a BigtableClient, data_table_short: &str, intent_timeout_secs: u64) -> (r:
        ItemOps<'a>)
        ensures
            r.client == client,
            r.full_table_name@ == table_path(
                client.project_id@,
                client.instance_id@,
                data_table_short@,
            ),
            r.intent_timeout_secs == intent_timeout_secs,
    {
        ItemOps {
            client,
            full_table_name: client.full_table_name(data_table_short),
            intent_timeout_secs,
        }
    }

    fn read_keys(&self, row_keys: Vec<Vec<u8>>) -> (r: ReadRowsRequest)
        requires
            row_keys@.len() <= i64::MAX,
        ensures
            r@ == rows_read(*self, key_views(row_keys@)),
    {
        let limit: i64 = row_keys.len() as i64;
        let r = ReadRowsRequest {
            table_name: text(self.full_table_name.as_str()),
            app_profile_id: self.client.app_profile(),
            row_keys,
            row_ranges: Vec::new(),
            rows_limit: limit,
            filter: newest_filter(),
            reversed: false,
        };
        assert(r@.ranges =~= Seq::<RangeView>::empty());
        r
    }

    /// The read of the row of a key. [`found_with_version`] takes the item and
    /// its version from what comes back.
    pub fn get_with_version(&self, key_schema: &[KeySchemaElement], key: &Item) -> (r: Result<
        ReadRowsRequest,
        StorageError,
    >)
        ensures
            match r {
                Ok(q) => row_key(key@, schema_view(key_schema@)) matches Ok(k) && q@ == rows_read(
                    *self,
                    seq![k],
                ),
                Err(e) => row_key(key@, schema_view(key_schema@)) == Err::<Seq<u8>, ErrView>(e@),
            },
    {
        match encode_key(key, key_schema) {
            Ok(k) => {
                let keys = vec![k];
                assert(key_views(keys@) =~= seq![k@]);
                Ok(self.read_keys(keys))
            },
            Err(e) => Err(e),
        }
    }

    /// The read of the row of a key. [`found_item`] takes the item from what
    /// comes back.
    pub fn get(&self, key_schema: &[KeySchemaElement], key: &Item) -> (r: Result<
        ReadRowsRequest,
        StorageError,
    >)
        ensures
            match r {
                Ok(q) => row_key(key@, schema_view(key_schema@)) matches Ok(k) && q@ == rows_read(
                    *self,
                    seq![k],
                ),
                Err(e) => row_key(key@, schema_view(key_schema@)) == Err::<Seq<u8>, ErrView>(e@),
            },
    {
        self.get_with_version(key_schema, key)
    }

    /// The read of the rows of several keys, or none where there is no key.
    /// [`batch_items`] puts what comes back in the order of the keys.
    pub fn batch_get(&self, key_schema: &[KeySchemaElement], keys: &[Item]) -> (r: Result<
        Option<ReadRowsRequest>,
        StorageError,
    >)
        requires
            keys@.len() <= i64::MAX,
        ensures
            match r {
                Ok(None) => keys@.len() == 0,
                Ok(Some(q)) => keys@.len() > 0 && (row_keys(
                    item_views(keys@),
                    schema_view(key_schema@),
                ) matches Ok(k) && q@ == rows_read(*self, k)),
                Err(e) => keys@.len() > 0 && row_keys(item_views(keys@), schema_view(key_schema@))
                    == Err::<Seq<Seq<u8>>, ErrView>(e@),
            },
    {
        if keys.len() == 0 {
            return Ok(None);
        }
        match encode_keys(keys, key_schema) {
            Ok(k) => {
                proof {
                    lemma_row_keys_len(item_views(keys@), schema_view(key_schema@));
                }
                Ok(Some(self.read_keys(k)))
            },
            Err(e) => Err(e),
        }
    }

    /// The read of the rows of several keys together with their intents.
    /// [`batch_entries`] puts what comes back in the order of the keys.
    pub fn batch_get_with_intent_check(
        &self,
        key_schema: &[KeySchemaElement],
        keys: &[Item],
    ) -> (r: Result<Option<ReadRowsRequest>, StorageError>)
        requires
            keys@.len() <= i64::MAX,
        ensures
            match r {
                Ok(None) => keys@.len() == 0,
                Ok(Some(q)) => keys@.len() > 0 && (row_keys(
                    item_views(keys@),
                    schema_view(key_schema@),
                ) matches Ok(k) && q@ == rows_read(*self, k)),
                Err(e) => keys@.len() > 0 && row_keys(item_views(keys@), schema_view(key_schema@))
                    == Err::<Seq<Seq<u8>>, ErrView>(e@),
            },
    {
        self.batch_get(key_schema, keys)
    }

    fn guarded_write(
        &self,
        key: Vec<u8>,
        cutoff: i64,
        expected_version: Option<u64>,
        is_conditional: bool,
        mutations: Vec<Mutation>,
    ) -> (r: GuardedWrite)
        ensures
            r@ == guarded(
                self.full_table_name@,
                self.client.profile(),
                key@,
                cutoff as int,
                opt_nat(expected_version),
                is_conditional,
                mut_views(mutations@),
            ),
    {
        let (predicate_filter, conflict) = if is_conditional {
            match expected_version {
                Some(v) => (
                    build_occ_conflict_filter(cutoff, v),
                    text(
                        "concurrent transaction holds an intent on this row or row version changed",
                    ),
                ),
                None => (
                    build_row_presence_conflict_filter(cutoff),
                    text(
                        "concurrent transaction holds an intent on this row or row already exists",
                    ),
                ),
            }
        } else {
            (
                build_active_intent_filter(cutoff),
                text("concurrent transaction holds an intent on this row"),
            )
        };
        let r = GuardedWrite {
            request: CheckAndMutateRowRequest {
                table_name: text(self.full_table_name.as_str()),
                app_profile_id: self.client.app_profile(),
                row_key: key,
                predicate_filter,
                true_mutations: Vec::new(),
                false_mutations: mutations,
            },
            conflict,
        };
        assert(r.request@.if_true =~= Seq::<MutView>::empty());
        r
    }

    /// A guarded write of an item, and the version that it gives to the row.
    ///
    /// Without `is_conditional` only an active intent speaks against it. With
    /// it, so does a version other than `expected_version`, or, where none is
    /// expected, any version or attribute.
    pub fn put(
        &self,
        key_schema: &[KeySchemaElement],
        item: &Item,
        expected_version: Option<u64>,
        is_conditional: bool,
        now_micros: i64,
    ) -> (r: Result<(GuardedWrite, u64), StorageError>)
        requires
            intent_time_fits(self.intent_timeout_secs, now_micros as int),
            expected_version != Some(u64::MAX),
        ensures
            match r {
                Ok((w, v)) => v == next_version(opt_nat(expected_version)) && (row_key(
                    item@,
                    schema_view(key_schema@),
                ) matches Ok(k) && w@ == guarded(
                    self.full_table_name@,
                    self.client.profile(),
                    k,
                    intent_cutoff(self.intent_timeout_secs, now_micros as int),
                    opt_nat(expected_version),
                    is_conditional,
                    put_mutations(item@, v as nat),
                )) && (item_readable(item@) ==> writes_item(w@.request.if_false, item@, v as nat)),
                Err(e) => row_key(item@, schema_view(key_schema@)) == Err::<Seq<u8>, ErrView>(e@),
            },
    {
        let key = match encode_key(item, key_schema) {
            Ok(k) => k,
            Err(e) => return Err(e),
        };
        let cutoff = cutoff_micros(self.intent_timeout_secs, now_micros);
        let version: u64 = match expected_version {
            Some(v) => v + 1,
            None => 1,
        };
        let mutations = match versioned_mutations(item, version) {
            Ok(m) => m,
            Err(e) => return Err(e),
        };
        proof {
            lemma_key_nonempty(item@, schema_view(key_schema@));
            lemma_writes_item(item@, version as nat);
        }
        Ok(
            (
                self.guarded_write(key, cutoff, expected_version, is_conditional, mutations),
                version,
            ),
        )
    }

    /// A guarded deletion. Intents are kept.
    pub fn delete(
        &self,
        key_schema: &[KeySchemaElement],
        key: &Item,
        expected_version: Option<u64>,
        is_conditional: bool,
        now_micros: i64,
    ) -> (r: Result<GuardedWrite, StorageError>)
        requires
            intent_time_fits(self.intent_timeout_secs, now_micros as int),
        ensures
            match r {
                Ok(w) => (row_key(key@, schema_view(key_schema@)) matches Ok(k) && w@ == guarded(
                    self.full_table_name@,
                    self.client.profile(),
                    k,
                    intent_cutoff(self.intent_timeout_secs, now_micros as int),
                    opt_nat(expected_version),
                    is_conditional,
                    delete_mutations(),
                )) && deletes_item(w@.request.if_false),
                Err(e) => row_key(key@, schema_view(key_schema@)) == Err::<Seq<u8>, ErrView>(e@),
            },
    {
        let k = match encode_key(key, key_schema) {
            Ok(k) => k,
            Err(e) => return Err(e),
        };
        let cutoff = cutoff_micros(self.intent_timeout_secs, now_micros);
        proof {
            lemma_deletes_item();
        }
        Ok(
            self.guarded_write(
                k,
                cutoff,
                expected_version,
                is_conditional,
                deletion_mutations(),
            ),
        )
    }

    /// A change of a row that nothing speaks against.
    pub open spec fn mutation_of(&self, key: Seq<u8>, mutations: Seq<MutView>) -> MutateView {
        MutateView {
            table: self.full_table_name@,
            profile: self.client.profile(),
            key,
            mutations,
        }
    }

    /// A write of an item that nothing speaks against. The version that it
    /// gives to the row is the time.
    pub fn put_unconditional(
        &self,
        key_schema: &[KeySchemaElement],
        item: &Item,
        now_micros: u64,
    ) -> (r: Result<MutateRowRequest, StorageError>)
        ensures
            match r {
                Ok(q) => (row_key(item@, schema_view(key_schema@)) matches Ok(k) && q@
                    == self.mutation_of(k, put_mutations(item@, now_micros as nat))) && (
                item_readable(item@) ==> writes_item(q@.mutations, item@, now_micros as nat)),
                Err(e) => row_key(item@, schema_view(key_schema@)) == Err::<Seq<u8>, ErrView>(e@),
            },
    {
        let key = match encode_key(item, key_schema) {
            Ok(k) => k,
            Err(e) => return Err(e),
        };
        let mutations = match versioned_mutations(item, now_micros) {
            Ok(m) => m,
            Err(e) => return Err(e),
        };
        proof {
            lemma_key_nonempty(item@, schema_view(key_schema@));
            lemma_writes_item(item@, now_micros as nat);
        }
        Ok(self.mutate_cells(key, mutations))
    }

    /// A deletion that nothing speaks against.
    pub fn delete_unconditional(&self, key_schema: &[KeySchemaElement], key: &Item) -> (r: Result<
        MutateRowRequest,
        StorageError,
    >)
        ensures
            match r {
                Ok(q) => (row_key(key@, schema_view(key_schema@)) matches Ok(k) && q@
                    == self.mutation_of(k, delete_mutations())) && deletes_item(q@.mutations),
                Err(e) => row_key(key@, schema_view(key_schema@)) == Err::<Seq<u8>, ErrView>(e@),
            },
    {
        let k = match encode_key(key, key_schema) {
            Ok(k) => k,
            Err(e) => return Err(e),
        };
        proof {
            lemma_deletes_item();
        }
        Ok(self.mutate_cells(k, deletion_mutations()))
    }

    /// The given mutations of the row with the given key.
    pub fn mutate_cells(&self, row_key_bytes: Vec<u8>, mutations: Vec<Mutation>) -> (r:
        MutateRowRequest)
        ensures
            r@ == self.mutation_of(row_key_bytes@, mut_views(mutations@)),
    {
        MutateRowRequest {
            table_name: text(self.full_table_name.as_str()),
            app_profile_id: self.client.app_profile(),
            row_key: row_key_bytes,
            mutations,
        }
    }

    /// The mutations that write an item. With `delete_row_first` the item
    /// replaces what the row held.
    pub fn item_to_mutations(&self, item: &Item, delete_row_first: bool) -> (r: Result<
        Vec<Mutation>,
        StorageError,
    >)
        ensures
            r matches Ok(m) && mut_views(m@) == item_mutations(item@, delete_row_first),
    {
        item_to_mutations(item, delete_row_first)
    }
}

proof fn lemma_row_keys_len(keys: Seq<ItemView>, schema: SchemaView)
    ensures
        row_keys(keys, schema) matches Ok(k) ==> k.len() == keys.len(),
    decreases keys.len(),
{
    if keys.len() > 0 {
        lemma_row_keys_len(keys.drop_last(), schema);
    }
}

/// An item that has a row key has an attribute.
pub proof fn lemma_key_nonempty(item: ItemView, schema: SchemaView)
    requires
        row_key(item, schema) is Ok,
    ensures
        item.len() > 0,
{
    if item.len() == 0 {
        let name = key_name(schema, KeyType::Hash)->0;
        assert(crate::value::lookup(item, name) is None);
    }
}

proof fn lemma_writes_item(item: ItemView, version: nat)
    requires
        version <= u64::MAX,
        item.len() > 0,
        cells_hold(item),
        item_sorted(item),
    ensures
        item_readable(item) ==> writes_item(put_mutations(item, version), item, version),
{
    if item_readable(item) {
        let m = put_mutations(item, version);
        assert forall|row: Seq<CellView>, now: int|
            read_back(#[trigger] applied(row, m, now)) == Ok::<
                (Option<ItemView>, Option<nat>),
                ErrView,
            >((Some(item), Some(version))) && same_intents(applied(row, m, now), row) by {
            put_effect(row, item, version, now);
        }
    }
}

proof fn lemma_deletes_item()
    ensures
        deletes_item(delete_mutations()),
{
    let m = delete_mutations();
    assert forall|row: Seq<CellView>, now: int|
        read_back(#[trigger] applied(row, m, now)) == Ok::<
            (Option<ItemView>, Option<nat>),
            ErrView,
        >((None, None)) && same_intents(applied(row, m, now), row) by {
        delete_effect(row, now);
    }
}

// ---------------------------------------------------------------------------
// Conditions and updates
// ---------------------------------------------------------------------------

/// What evaluating a condition comes to; `None` where there is no condition.
pub open spec fn condition_result(
    existing: Option<ItemView>,
    evaluated: Option<Result<bool, Seq<char>>>,
) -> Result<(), ErrView> {
    match evaluated {
        None => Ok(()),
        Some(Ok(true)) => Ok(()),
        Some(Ok(false)) => Err(ErrView::ConditionFailed(existing)),
        Some(Err(m)) => Err(ErrView::Validation("condition evaluation: "@ + m)),
    }
}

pub open spec fn evaluation_view(e: Option<Result<bool, String>>) -> Option<
    Result<bool, Seq<char>>,
> {
    match e {
        None => None,
        Some(Ok(b)) => Some(Ok(b)),
        Some(Err(m)) => Some(Err(m@)),
    }
}

pub open spec fn opt_ref_view(i: Option<&Item>) -> Option<ItemView> {
    match i {
        Some(x) => Some(x@),
        None => None,
    }
}

/// Goes on where a condition holds or there is none. The condition was
/// evaluated on the existing item, or on an empty one where there is none.
pub fn check_condition(existing: Option<&Item>, evaluated: Option<Result<bool, String>>) -> (r:
    Result<(), StorageError>)
    ensures
        match r {
            Ok(_) => condition_result(opt_ref_view(existing), evaluation_view(evaluated)) == Ok::<
                (),
                ErrView,
            >(()),
            Err(e) => condition_result(opt_ref_view(existing), evaluation_view(evaluated))
                == Err::<(), ErrView>(e@),
        },
{
    match evaluated {
        None => Ok(()),
        Some(Ok(true)) => Ok(()),
        Some(Ok(false)) => Err(
            StorageError::ConditionFailed(
                match existing {
                    Some(i) => Some(copy_item(i)),
                    None => None,
                },
            ),
        ),
        Some(Err(m)) => Err(invalid(cat2("condition evaluation: ", m.as_str()).as_str())),
    }
}

/// What applying an update to an item comes to.
pub fn apply_update_actions(updated: Result<Item, String>) -> (r: Result<Item, StorageError>)
    ensures
        match updated {
            Ok(i) => r matches Ok(x) && x@ == i@,
            Err(m) => r matches Err(e) && e@ == ErrView::Validation(
                "update expression evaluation: "@ + m@,
            ),
        },
{
    match updated {
        Ok(i) => Ok(i),
        Err(m) => Err(invalid(cat2("update expression evaluation: ", m.as_str()).as_str())),
    }
}

/// A write that expects a version leaves the one after it, and a write that expects
/// no row the first.
pub proof fn versions_go_up(expected: Option<nat>)
    ensures
        expected matches Some(v) ==> next_version(expected) == v + 1,
        expected is None ==> next_version(expected) == 1,
{
}

/// Whether a cell is the intent of a transaction that is not older than `cutoff`.
pub open spec fn is_intent_of(c: CellView, txn: Seq<char>, cutoff: int) -> bool {
    c.family == "m"@ && c.timestamp >= cutoff && c.qualifier == encode_utf8("intent:"@ + txn)
}

/// Whether one of the cells is an intent that is not older than `cutoff`.
pub open spec fn some_intent(cells: Seq<CellView>, cutoff: int) -> bool {
    exists|i: int, txn: Seq<char>|
        0 <= i < cells.len() && #[trigger] is_intent_of(cells[i], txn, cutoff)
}

/// A read of a row tells of an intent exactly where the row has one that is not too
/// old, and it names the transaction of such an intent.
pub proof fn intents_are_seen(cells: Seq<CellView>, cutoff: int)
    ensures
        row_intent(cells, cutoff) is Some <==> some_intent(cells, cutoff),
        row_intent(cells, cutoff) matches Some(txn) ==> exists|i: int|
            0 <= i < cells.len() && #[trigger] is_intent_of(cells[i], txn, cutoff),
    decreases cells.len(),
{
    if cells.len() > 0 {
        let d = cells.drop_last();
        let n = cells.len() - 1;
        let c = cells[n];
        assert(c == cells.last());
        intents_are_seen(d, cutoff);
        lemma_cell_intent(c, cutoff);
        if let Some(txn) = cell_intent(c, cutoff) {
            assert(is_intent_of(cells[n], txn, cutoff));
        } else if let Some(txn) = row_intent(d, cutoff) {
            let i = choose|i: int| 0 <= i < d.len() && #[trigger] is_intent_of(d[i], txn, cutoff);
            assert(is_intent_of(cells[i], txn, cutoff));
        } else if some_intent(cells, cutoff) {
            let (i, txn) = choose|i: int, txn: Seq<char>|
                0 <= i < cells.len() && #[trigger] is_intent_of(cells[i], txn, cutoff);
            if i < n {
                assert(is_intent_of(d[i], txn, cutoff));
            }
        }
    }
}

proof fn lemma_cell_intent(c: CellView, cutoff: int)
    ensures
        cell_intent(c, cutoff) matches Some(txn) ==> is_intent_of(c, txn, cutoff),
        cell_intent(c, cutoff) is None ==> forall|txn: Seq<char>| !#[trigger]
            is_intent_of(c, txn, cutoff),
{
    let p = "intent:"@;
    if let Some(txn) = cell_intent(c, cutoff) {
        let q = utf8_decoded(c.qualifier)->Ok_0;
        vstd::utf8::decode_utf8_encode_utf8(c.qualifier);
        assert(q =~= p + txn) by {
            assert(q.subrange(0, p.len() as int) =~= p);
        }
    } else {
        assert forall|txn: Seq<char>| !#[trigger] is_intent_of(c, txn, cutoff) by {
            if is_intent_of(c, txn, cutoff) {
                utf8_round_trip(p + txn);
                assert((p + txn).subrange(0, p.len() as int) =~= p);
                assert(p.is_prefix_of(p + txn));
            }
        }
    }
}

} // verus!

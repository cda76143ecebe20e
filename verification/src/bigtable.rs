//! Bigtable rows, mutations and requests, and what they mean.
//!
//! The types hold what a request to Bigtable says and what a response holds.
//! The spec functions are a model of the service: a row is the sequence of its
//! cells, those of one column with the newest first.

use vstd::prelude::*;

use crate::bytes::bytes_copy;
use crate::filter::{FilterView, RowFilter};
use crate::text::{opt_text, opt_view, text};

verus! {

// ---------------------------------------------------------------------------
// Cells and mutations
// ---------------------------------------------------------------------------

/// A cell of a row.
#[derive(Debug, PartialEq, Eq)]
pub struct RowCell {
    pub family_name: String,
    pub qualifier: Vec<u8>,
    pub value: Vec<u8>,
    pub timestamp_micros: i64,
}

/// What a cell is.
pub struct CellView {
    pub family: Seq<char>,
    pub qualifier: Seq<u8>,
    pub value: Seq<u8>,
    pub timestamp: int,
}

impl RowCell {
    pub open spec fn view(&self) -> CellView {
        CellView {
            family: self.family_name@,
            qualifier: self.qualifier@,
            value: self.value@,
            timestamp: self.timestamp_micros as int,
        }
    }
}

pub open spec fn cell_views(c: Seq<RowCell>) -> Seq<CellView> {
    c.map_values(|x: RowCell| x@)
}

/// A row as it was read.
#[derive(Debug, PartialEq, Eq)]
pub struct Row {
    pub key: Vec<u8>,
    pub cells: Vec<RowCell>,
}

/// What a [`Row`] is.
pub struct RowView {
    pub key: Seq<u8>,
    pub cells: Seq<CellView>,
}

impl Row {
    pub open spec fn view(&self) -> RowView {
        RowView { key: self.key@, cells: cell_views(self.cells@) }
    }
}

pub open spec fn row_views(r: Seq<Row>) -> Seq<RowView> {
    r.map_values(|x: Row| x@)
}

/// A change of a row.
#[derive(Debug, PartialEq, Eq)]
pub enum Mutation {
    /// Writes a cell. The timestamp -1 stands for the time of the server.
    SetCell {
        family_name: String,
        column_qualifier: Vec<u8>,
        timestamp_micros: i64,
        value: Vec<u8>,
    },
    /// Deletes all cells of a family.
    DeleteFromFamily { family_name: String },
    /// Deletes all cells of a column.
    DeleteFromColumn { family_name: String, column_qualifier: Vec<u8> },
    /// Deletes all cells.
    DeleteFromRow,
}

/// What a [`Mutation`] is.
pub enum MutView {
    SetCell { family: Seq<char>, qualifier: Seq<u8>, timestamp: int, value: Seq<u8> },
    DeleteFromFamily { family: Seq<char> },
    DeleteFromColumn { family: Seq<char>, qualifier: Seq<u8> },
    DeleteFromRow,
}

impl Mutation {
    pub open spec fn view(&self) -> MutView {
        match self {
            Mutation::SetCell { family_name, column_qualifier, timestamp_micros, value } =>
                MutView::SetCell {
                    family: family_name@,
                    qualifier: column_qualifier@,
                    timestamp: *timestamp_micros as int,
                    value: value@,
                },
            Mutation::DeleteFromFamily { family_name } => MutView::DeleteFromFamily {
                family: family_name@,
            },
            Mutation::DeleteFromColumn { family_name, column_qualifier } =>
                MutView::DeleteFromColumn { family: family_name@, qualifier: column_qualifier@ },
            Mutation::DeleteFromRow => MutView::DeleteFromRow,
        }
    }
}

pub open spec fn mut_views(m: Seq<Mutation>) -> Seq<MutView> {
    m.map_values(|x: Mutation| x@)
}

/// A mutation that writes a cell at the time of the server.
pub open spec fn set_cell_view(family: Seq<char>, qualifier: Seq<u8>, value: Seq<u8>) -> MutView {
    MutView::SetCell { family, qualifier, timestamp: -1, value }
}

/// Builds a mutation that writes a cell at the time of the server.
pub fn set_cell(family: &str, qualifier: &[u8], value: Vec<u8>) -> (r: Mutation)
    ensures
        r@ == set_cell_view(family@, qualifier@, value@),
{
    Mutation::SetCell {
        family_name: text(family),
        column_qualifier: bytes_copy(qualifier),
        timestamp_micros: -1,
        value,
    }
}

/// Builds a mutation that deletes a family.
pub fn delete_from_family(family: &str) -> (r: Mutation)
    ensures
        r@ == (MutView::DeleteFromFamily { family: family@ }),
{
    Mutation::DeleteFromFamily { family_name: text(family) }
}

/// Builds a mutation that deletes a column.
pub fn delete_from_column(family: &str, qualifier: &[u8]) -> (r: Mutation)
    ensures
        r@ == (MutView::DeleteFromColumn { family: family@, qualifier: qualifier@ }),
{
    Mutation::DeleteFromColumn {
        family_name: text(family),
        column_qualifier: bytes_copy(qualifier),
    }
}

/// The one mutation that deletes a whole row.
pub open spec fn row_deletion() -> Seq<MutView> {
    seq![MutView::DeleteFromRow]
}

/// Builds the list with the one mutation that deletes a whole row.
pub fn delete_row_mutations() -> (r: Vec<Mutation>)
    ensures
        mut_views(r@) == row_deletion(),
{
    let mut v: Vec<Mutation> = Vec::new();
    v.push(Mutation::DeleteFromRow);
    assert(mut_views(v@) =~= row_deletion());
    v
}

// ---------------------------------------------------------------------------
// What mutations do
// ---------------------------------------------------------------------------

/// `row` without the cells of a family.
pub open spec fn without_family(row: Seq<CellView>, family: Seq<char>) -> Seq<CellView>
    decreases row.len(),
{
    if row.len() == 0 {
        Seq::empty()
    } else if row.last().family != family {
        without_family(row.drop_last(), family).push(row.last())
    } else {
        without_family(row.drop_last(), family)
    }
}

/// Whether a cell is in the given column.
pub open spec fn in_column(c: CellView, family: Seq<char>, qualifier: Seq<u8>) -> bool {
    c.family == family && c.qualifier == qualifier
}

/// `row` without the cells of a column.
pub open spec fn without_column(
    row: Seq<CellView>,
    family: Seq<char>,
    qualifier: Seq<u8>,
) -> Seq<CellView>
    decreases row.len(),
{
    if row.len() == 0 {
        Seq::empty()
    } else if !in_column(row.last(), family, qualifier) {
        without_column(row.drop_last(), family, qualifier).push(row.last())
    } else {
        without_column(row.drop_last(), family, qualifier)
    }
}

/// The row after a mutation at the time `now`.
pub open spec fn mutated(row: Seq<CellView>, m: MutView, now: int) -> Seq<CellView> {
    match m {
        MutView::SetCell { family, qualifier, timestamp, value } => seq![
            CellView {
                family,
                qualifier,
                value,
                timestamp: if timestamp == -1 {
                    now
                } else {
                    timestamp
                },
            },
        ] + row,
        MutView::DeleteFromFamily { family } => without_family(row, family),
        MutView::DeleteFromColumn { family, qualifier } => without_column(row, family, qualifier),
        MutView::DeleteFromRow => Seq::empty(),
    }
}

/// The row after mutations, one after the other.
pub open spec fn applied(row: Seq<CellView>, m: Seq<MutView>, now: int) -> Seq<CellView>
    decreases m.len(),
{
    if m.len() == 0 {
        row
    } else {
        mutated(applied(row, m.drop_last(), now), m.last(), now)
    }
}

/// How many cells of the row are in the given column.
pub open spec fn column_count(row: Seq<CellView>, family: Seq<char>, qualifier: Seq<u8>) -> nat
    decreases row.len(),
{
    if row.len() == 0 {
        0
    } else {
        column_count(row.drop_last(), family, qualifier) + if in_column(
            row.last(),
            family,
            qualifier,
        ) {
            1nat
        } else {
            0nat
        }
    }
}

/// The newest `n` cells of each column.
pub open spec fn newest(row: Seq<CellView>, n: int) -> Seq<CellView>
    decreases row.len(),
{
    if row.len() == 0 {
        Seq::empty()
    } else {
        let c = row.last();
        let rest = newest(row.drop_last(), n);
        if column_count(row.drop_last(), c.family, c.qualifier) < n {
            rest.push(c)
        } else {
            rest
        }
    }
}

/// The newest cell of a column, where the row has one.
pub open spec fn newest_of(row: Seq<CellView>, family: Seq<char>, qualifier: Seq<u8>) -> Option<
    CellView,
>
    decreases row.len(),
{
    if row.len() == 0 {
        None
    } else {
        match newest_of(row.drop_last(), family, qualifier) {
            Some(c) => Some(c),
            None => if in_column(row.last(), family, qualifier) {
                Some(row.last())
            } else {
                None
            },
        }
    }
}

pub proof fn lemma_newest_of_column(row: Seq<CellView>, family: Seq<char>, qualifier: Seq<u8>)
    ensures
        newest_of(row, family, qualifier) matches Some(c) ==> in_column(c, family, qualifier)
            && row.contains(c),
        newest_of(row, family, qualifier) is None <==> column_count(row, family, qualifier) == 0,
        newest_of(row, family, qualifier) is None ==> forall|i: int|
            0 <= i < row.len() ==> !in_column(#[trigger] row[i], family, qualifier),
    decreases row.len(),
{
    if row.len() > 0 {
        let d = row.drop_last();
        lemma_newest_of_column(d, family, qualifier);
        if let Some(c) = newest_of(d, family, qualifier) {
            let i = choose|i: int| 0 <= i < d.len() && d[i] == c;
            assert(row[i] == c);
        } else {
            assert(row[row.len() - 1] == row.last());
            assert forall|i: int| newest_of(row, family, qualifier) is None && 0 <= i
                < row.len() implies !in_column(#[trigger] row[i], family, qualifier) by {
                if i < d.len() {
                    assert(d[i] == row[i]);
                }
            }
        }
    }
}

/// The newest cells of all columns are the cells that are the newest of their
/// column.
pub proof fn lemma_newest_cells(row: Seq<CellView>, c: CellView)
    ensures
        newest(row, 1).contains(c) <==> newest_of(row, c.family, c.qualifier) == Some(c),
    decreases row.len(),
{
    if row.len() > 0 {
        let d = row.drop_last();
        let l = row.last();
        lemma_newest_cells(d, c);
        lemma_newest_of_column(d, l.family, l.qualifier);
        lemma_newest_of_column(d, c.family, c.qualifier);
        crate::filter::lemma_push_contains(newest(d, 1), l, c);
    }
}

/// The newest cell of a column is still the newest among the newest.
pub proof fn lemma_newest_of_newest(row: Seq<CellView>, family: Seq<char>, qualifier: Seq<u8>)
    ensures
        newest_of(newest(row, 1), family, qualifier) == newest_of(row, family, qualifier),
    decreases row.len(),
{
    if row.len() > 0 {
        let d = row.drop_last();
        let l = row.last();
        lemma_newest_of_newest(d, family, qualifier);
        lemma_newest_of_column(d, l.family, l.qualifier);
        if column_count(d, l.family, l.qualifier) < 1 {
            assert(newest(d, 1).push(l).drop_last() =~= newest(d, 1));
        }
    }
}

/// What deleting a family leaves.
pub proof fn lemma_without_family(row: Seq<CellView>, gone: Seq<char>)
    ensures
        forall|i: int|
            0 <= i < without_family(row, gone).len() ==> (#[trigger] without_family(
                row,
                gone,
            )[i]).family != gone,
        forall|family: Seq<char>, qualifier: Seq<u8>| #[trigger]
            newest_of(without_family(row, gone), family, qualifier) == if family == gone {
                None
            } else {
                newest_of(row, family, qualifier)
            },
    decreases row.len(),
{
    if row.len() > 0 {
        let d = row.drop_last();
        lemma_without_family(d, gone);
        if row.last().family != gone {
            let k = without_family(d, gone);
            assert(k.push(row.last()).drop_last() =~= k);
            assert forall|i: int| 0 <= i < without_family(row, gone).len() implies (
            #[trigger] without_family(row, gone)[i]).family != gone by {
                if i < k.len() {
                    assert(k[i] == without_family(row, gone)[i]);
                }
            }
        }
        assert forall|family: Seq<char>, qualifier: Seq<u8>| #[trigger]
            newest_of(without_family(row, gone), family, qualifier) == if family == gone {
                None
            } else {
                newest_of(row, family, qualifier)
            } by {
            assert(newest_of(without_family(d, gone), family, qualifier) == if family == gone {
                None
            } else {
                newest_of(d, family, qualifier)
            });
        }
    }
}

/// What deleting a column leaves.
pub proof fn lemma_without_column(row: Seq<CellView>, f: Seq<char>, q: Seq<u8>)
    ensures
        forall|family: Seq<char>, qualifier: Seq<u8>| #[trigger]
            newest_of(without_column(row, f, q), family, qualifier) == if family == f
                && qualifier == q {
                None
            } else {
                newest_of(row, family, qualifier)
            },
    decreases row.len(),
{
    if row.len() > 0 {
        let d = row.drop_last();
        lemma_without_column(d, f, q);
        if !in_column(row.last(), f, q) {
            let k = without_column(d, f, q);
            assert(k.push(row.last()).drop_last() =~= k);
        }
        assert forall|family: Seq<char>, qualifier: Seq<u8>| #[trigger]
            newest_of(without_column(row, f, q), family, qualifier) == if family == f && qualifier
                == q {
                None
            } else {
                newest_of(row, family, qualifier)
            } by {
            assert(newest_of(without_column(d, f, q), family, qualifier) == if family == f
                && qualifier == q {
                None
            } else {
                newest_of(d, family, qualifier)
            });
        }
    }
}

/// What is newest after cells were written before those of a row.
pub proof fn lemma_newest_of_concat(
    a: Seq<CellView>,
    b: Seq<CellView>,
    family: Seq<char>,
    qualifier: Seq<u8>,
)
    ensures
        newest_of(a + b, family, qualifier) == match newest_of(a, family, qualifier) {
            Some(c) => Some(c),
            None => newest_of(b, family, qualifier),
        },
    decreases b.len(),
{
    if b.len() > 0 {
        assert((a + b).drop_last() =~= a + b.drop_last());
        lemma_newest_of_concat(a, b.drop_last(), family, qualifier);
    } else {
        assert(a + b =~= a);
    }
}

/// Mutations in two parts.
pub proof fn lemma_applied_concat(row: Seq<CellView>, a: Seq<MutView>, b: Seq<MutView>, now: int)
    ensures
        applied(row, a + b, now) == applied(applied(row, a, now), b, now),
    decreases b.len(),
{
    if b.len() > 0 {
        assert((a + b).drop_last() =~= a + b.drop_last());
        lemma_applied_concat(row, a, b.drop_last(), now);
    } else {
        assert(a + b =~= a);
    }
}

// ---------------------------------------------------------------------------
// Requests
// ---------------------------------------------------------------------------

/// Where a range of row keys begins.
#[derive(Debug, PartialEq, Eq)]
pub enum StartKey {
    Unbounded,
    Closed(Vec<u8>),
    Open(Vec<u8>),
}

/// Where a range of row keys ends.
#[derive(Debug, PartialEq, Eq)]
pub enum EndKey {
    Unbounded,
    Closed(Vec<u8>),
    Open(Vec<u8>),
}

/// A range of row keys.
#[derive(Debug, PartialEq, Eq)]
pub struct RowRange {
    pub start_key: StartKey,
    pub end_key: EndKey,
}

/// A bound of a range.
pub enum BoundView {
    Unbounded,
    Closed(Seq<u8>),
    Open(Seq<u8>),
}

/// What a range is.
pub struct RangeView {
    pub start: BoundView,
    pub end: BoundView,
}

impl RowRange {
    pub open spec fn view(&self) -> RangeView {
        RangeView {
            start: match self.start_key {
                StartKey::Unbounded => BoundView::Unbounded,
                StartKey::Closed(k) => BoundView::Closed(k@),
                StartKey::Open(k) => BoundView::Open(k@),
            },
            end: match self.end_key {
                EndKey::Unbounded => BoundView::Unbounded,
                EndKey::Closed(k) => BoundView::Closed(k@),
                EndKey::Open(k) => BoundView::Open(k@),
            },
        }
    }
}

/// Whether a row key lies in a range.
pub open spec fn in_range(k: Seq<u8>, r: RangeView) -> bool {
    &&& match r.start {
        BoundView::Unbounded => true,
        BoundView::Closed(s) => crate::bytes::lex_le(s, k),
        BoundView::Open(s) => crate::bytes::lex_lt(s, k),
    }
    &&& match r.end {
        BoundView::Unbounded => true,
        BoundView::Closed(e) => crate::bytes::lex_le(k, e),
        BoundView::Open(e) => crate::bytes::lex_lt(k, e),
    }
}

/// A request that reads rows.
#[derive(Debug, PartialEq, Eq)]
pub struct ReadRowsRequest {
    pub table_name: String,
    pub app_profile_id: String,
    pub row_keys: Vec<Vec<u8>>,
    pub row_ranges: Vec<RowRange>,
    pub rows_limit: i64,
    pub filter: RowFilter,
    pub reversed: bool,
}

/// What a [`ReadRowsRequest`] is.
pub struct ReadView {
    pub table: Seq<char>,
    pub profile: Seq<char>,
    pub keys: Seq<Seq<u8>>,
    pub ranges: Seq<RangeView>,
    pub limit: int,
    pub filter: FilterView,
    pub reversed: bool,
}

impl ReadRowsRequest {
    pub open spec fn view(&self) -> ReadView {
        ReadView {
            table: self.table_name@,
            profile: self.app_profile_id@,
            keys: key_views(self.row_keys@),
            ranges: self.row_ranges@.map_values(|r: RowRange| r@),
            limit: self.rows_limit as int,
            filter: self.filter@,
            reversed: self.reversed,
        }
    }
}

pub open spec fn key_views(k: Seq<Vec<u8>>) -> Seq<Seq<u8>> {
    k.map_values(|b: Vec<u8>| b@)
}

/// A request that changes a row.
#[derive(Debug, PartialEq, Eq)]
pub struct MutateRowRequest {
    pub table_name: String,
    pub app_profile_id: String,
    pub row_key: Vec<u8>,
    pub mutations: Vec<Mutation>,
}

/// What a [`MutateRowRequest`] is.
pub struct MutateView {
    pub table: Seq<char>,
    pub profile: Seq<char>,
    pub key: Seq<u8>,
    pub mutations: Seq<MutView>,
}

impl MutateRowRequest {
    pub open spec fn view(&self) -> MutateView {
        MutateView {
            table: self.table_name@,
            profile: self.app_profile_id@,
            key: self.row_key@,
            mutations: mut_views(self.mutations@),
        }
    }
}

/// A request that changes a row one way or the other, depending on whether a
/// filter lets a cell of it pass.
#[derive(Debug, PartialEq, Eq)]
pub struct CheckAndMutateRowRequest {
    pub table_name: String,
    pub app_profile_id: String,
    pub row_key: Vec<u8>,
    pub predicate_filter: RowFilter,
    pub true_mutations: Vec<Mutation>,
    pub false_mutations: Vec<Mutation>,
}

/// What a [`CheckAndMutateRowRequest`] is.
pub struct CheckView {
    pub table: Seq<char>,
    pub profile: Seq<char>,
    pub key: Seq<u8>,
    pub predicate: FilterView,
    pub if_true: Seq<MutView>,
    pub if_false: Seq<MutView>,
}

impl CheckAndMutateRowRequest {
    pub open spec fn view(&self) -> CheckView {
        CheckView {
            table: self.table_name@,
            profile: self.app_profile_id@,
            key: self.row_key@,
            predicate: self.predicate_filter@,
            if_true: mut_views(self.true_mutations@),
            if_false: mut_views(self.false_mutations@),
        }
    }
}

/// The row after a request that checks it.
pub open spec fn checked(row: Seq<CellView>, r: CheckView, now: int) -> Seq<CellView> {
    if crate::filter::matches_row(r.predicate, row) {
        applied(row, r.if_true, now)
    } else {
        applied(row, r.if_false, now)
    }
}

// ---------------------------------------------------------------------------
// The instance
// ---------------------------------------------------------------------------

/// The instance that requests go to.
#[derive(Debug, PartialEq, Eq)]
pub struct BigtableClient {
    pub project_id: String,
    pub instance_id: String,
    pub emulator_host: Option<String>,
    pub credentials_path: Option<String>,
    pub app_profile_id: Option<String>,
}

/// The resource name of an instance.
pub open spec fn instance_path(project: Seq<char>, instance: Seq<char>) -> Seq<char> {
    "projects/"@ + project + "/instances/"@ + instance
}

/// The resource name of a table.
pub open spec fn table_path(project: Seq<char>, instance: Seq<char>, table: Seq<char>) -> Seq<
    char,
> {
    instance_path(project, instance) + "/tables/"@ + table
}

impl BigtableClient {
    /// The resource name of a table of the instance.
    pub fn full_table_name(&self, short: &str) -> (r: String)
        ensures
            r@ == table_path(self.project_id@, self.instance_id@, short@),
    {
        crate::text::cat6(
            "projects/",
            self.project_id.as_str(),
            "/instances/",
            self.instance_id.as_str(),
            "/tables/",
            short,
        )
    }

    /// The resource name of the instance.
    pub fn instance_name(&self) -> (r: String)
        ensures
            r@ == instance_path(self.project_id@, self.instance_id@),
    {
        crate::text::cat4(
            "projects/",
            self.project_id.as_str(),
            "/instances/",
            self.instance_id.as_str(),
        )
    }

    /// The application profile, or the empty string where none is set.
    pub open spec fn profile(&self) -> Seq<char> {
        match self.app_profile_id {
            Some(p) => p@,
            None => Seq::empty(),
        }
    }

    /// The application profile, or the empty string where none is set.
    pub fn app_profile(&self) -> (r: String)
        ensures
            r@ == self.profile(),
    {
        match &self.app_profile_id {
            Some(p) => text(p.as_str()),
            None => String::new(),
        }
    }
}

impl Clone for BigtableClient {
    fn clone(&self) -> (r: BigtableClient)
        ensures
            r.project_id@ == self.project_id@,
            r.instance_id@ == self.instance_id@,
            opt_view(r.emulator_host) == opt_view(self.emulator_host),
            opt_view(r.credentials_path) == opt_view(self.credentials_path),
            opt_view(r.app_profile_id) == opt_view(self.app_profile_id),
    {
        BigtableClient {
            project_id: text(self.project_id.as_str()),
            instance_id: text(self.instance_id.as_str()),
            emulator_host: opt_text(&self.emulator_host),
            credentials_path: opt_text(&self.credentials_path),
            app_profile_id: opt_text(&self.app_profile_id),
        }
    }
}

} // verus!

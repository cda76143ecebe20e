//! Row filters of Bigtable and what they let pass.

use vstd::prelude::*;
use vstd::string::*;
use vstd::utf8::{encode_utf8, is_ascii_chars, is_ascii_chars_encode_utf8};

use crate::bigtable::{lemma_newest_of_column, newest, newest_of, CellView};
use crate::bytes::bytes_copy;
use crate::text::text;

verus! {

// ---------------------------------------------------------------------------
// Filters
// ---------------------------------------------------------------------------

/// A filter. Without a condition it lets everything pass.
#[derive(Debug, PartialEq, Eq)]
pub struct RowFilter {
    pub filter: Option<Filter>,
}

/// What a filter lets pass.
#[derive(Debug, PartialEq, Eq)]
pub enum Filter {
    Chain(Chain),
    Interleave(Interleave),
    Condition(Box<Condition>),
    FamilyNameRegexFilter(String),
    ColumnQualifierRegexFilter(Vec<u8>),
    ValueRegexFilter(Vec<u8>),
    CellsPerColumnLimitFilter(i32),
    TimestampRangeFilter(TimestampRange),
    PassAllFilter(bool),
    BlockAllFilter(bool),
}

/// Filters of which each gets what the one before it lets pass.
#[derive(Debug, PartialEq, Eq)]
pub struct Chain {
    pub filters: Vec<RowFilter>,
}

/// Filters that all get the same cells, and whose results are put together.
#[derive(Debug, PartialEq, Eq)]
pub struct Interleave {
    pub filters: Vec<RowFilter>,
}

/// A choice between two filters, by whether a third lets a cell pass.
#[derive(Debug, PartialEq, Eq)]
pub struct Condition {
    pub predicate_filter: RowFilter,
    pub true_filter: RowFilter,
    pub false_filter: RowFilter,
}

/// Times from a start up to, and without, an end; the end 0 stands for none.
#[derive(Clone, Copy, Debug, PartialEq, Eq)]
pub struct TimestampRange {
    pub start_timestamp_micros: i64,
    pub end_timestamp_micros: i64,
}

/// What a filter is.
pub enum FilterView {
    Unset,
    Chain(Seq<FilterView>),
    Interleave(Seq<FilterView>),
    Condition { predicate: Box<FilterView>, if_true: Box<FilterView>, if_false: Box<FilterView> },
    Family(Seq<char>),
    Qualifier(Seq<u8>),
    Value(Seq<u8>),
    Limit(int),
    Timestamps { start: int, end: int },
    PassAll(bool),
    BlockAll(bool),
}

impl RowFilter {
    pub open spec fn view(&self) -> FilterView
        decreases self,
    {
        match &self.filter {
            None => FilterView::Unset,
            Some(f) => match f {
                Filter::Chain(c) => FilterView::Chain(filter_views(c.filters@)),
                Filter::Interleave(c) => FilterView::Interleave(filter_views(c.filters@)),
                Filter::Condition(c) => FilterView::Condition {
                    predicate: Box::new(c.predicate_filter.view()),
                    if_true: Box::new(c.true_filter.view()),
                    if_false: Box::new(c.false_filter.view()),
                },
                Filter::FamilyNameRegexFilter(p) => FilterView::Family(p@),
                Filter::ColumnQualifierRegexFilter(p) => FilterView::Qualifier(p@),
                Filter::ValueRegexFilter(p) => FilterView::Value(p@),
                Filter::CellsPerColumnLimitFilter(n) => FilterView::Limit(*n as int),
                Filter::TimestampRangeFilter(t) => FilterView::Timestamps {
                    start: t.start_timestamp_micros as int,
                    end: t.end_timestamp_micros as int,
                },
                Filter::PassAllFilter(b) => FilterView::PassAll(*b),
                Filter::BlockAllFilter(b) => FilterView::BlockAll(*b),
            },
        }
    }
}

pub open spec fn filter_views(f: Seq<RowFilter>) -> Seq<FilterView>
    decreases f,
{
    if f.len() == 0 {
        Seq::empty()
    } else {
        filter_views(f.drop_last()).push(f.last().view())
    }
}

/// A filter that consists of the given condition.
pub fn row_filter(f: Filter) -> (r: RowFilter)
    ensures
        r.filter == Some(f),
{
    RowFilter { filter: Some(f) }
}

/// Puts filters into a chain.
pub fn chain(filters: Vec<RowFilter>) -> (r: RowFilter)
    ensures
        r@ == FilterView::Chain(filter_views(filters@)),
{
    row_filter(Filter::Chain(Chain { filters }))
}

/// Interleaves filters.
pub fn interleave(filters: Vec<RowFilter>) -> (r: RowFilter)
    ensures
        r@ == FilterView::Interleave(filter_views(filters@)),
{
    row_filter(Filter::Interleave(Interleave { filters }))
}

/// A choice between two filters.
pub fn condition(predicate_filter: RowFilter, true_filter: RowFilter, false_filter: RowFilter) -> (r:
    RowFilter)
    ensures
        r@ == (FilterView::Condition {
            predicate: Box::new(predicate_filter@),
            if_true: Box::new(true_filter@),
            if_false: Box::new(false_filter@),
        }),
{
    row_filter(
        Filter::Condition(Box::new(Condition { predicate_filter, true_filter, false_filter })),
    )
}

pub fn family_filter(pattern: &str) -> (r: RowFilter)
    ensures
        r@ == FilterView::Family(pattern@),
        r.filter matches Some(Filter::FamilyNameRegexFilter(_)),
{
    row_filter(Filter::FamilyNameRegexFilter(text(pattern)))
}

pub fn qualifier_filter(pattern: &[u8]) -> (r: RowFilter)
    ensures
        r@ == FilterView::Qualifier(pattern@),
        r.filter matches Some(Filter::ColumnQualifierRegexFilter(_)),
{
    row_filter(Filter::ColumnQualifierRegexFilter(bytes_copy(pattern)))
}

pub fn value_filter(pattern: &[u8]) -> (r: RowFilter)
    ensures
        r@ == FilterView::Value(pattern@),
        r.filter matches Some(Filter::ValueRegexFilter(_)),
{
    row_filter(Filter::ValueRegexFilter(bytes_copy(pattern)))
}

/// The newest cell of each column.
pub fn newest_filter() -> (r: RowFilter)
    ensures
        r@ == FilterView::Limit(1),
        r.filter == Some(Filter::CellsPerColumnLimitFilter(1)),
{
    row_filter(Filter::CellsPerColumnLimitFilter(1))
}

/// Cells not older than the given time.
pub fn since_filter(start_timestamp_micros: i64) -> (r: RowFilter)
    ensures
        r@ == (FilterView::Timestamps { start: start_timestamp_micros as int, end: 0 }),
{
    row_filter(
        Filter::TimestampRangeFilter(
            TimestampRange { start_timestamp_micros, end_timestamp_micros: 0 },
        ),
    )
}

pub fn pass_all_filter() -> (r: RowFilter)
    ensures
        r@ == FilterView::PassAll(true),
        r.filter == Some(Filter::PassAllFilter(true)),
{
    row_filter(Filter::PassAllFilter(true))
}

pub fn block_all_filter() -> (r: RowFilter)
    ensures
        r@ == FilterView::BlockAll(true),
        r.filter == Some(Filter::BlockAllFilter(true)),
{
    row_filter(Filter::BlockAllFilter(true))
}

/// The views of up to four filters.
pub proof fn lemma_filter_views(f: Seq<RowFilter>)
    ensures
        f.len() == 2 ==> filter_views(f) == seq![f[0]@, f[1]@],
        f.len() == 3 ==> filter_views(f) == seq![f[0]@, f[1]@, f[2]@],
        f.len() == 4 ==> filter_views(f) == seq![f[0]@, f[1]@, f[2]@, f[3]@],
{
    reveal_with_fuel(filter_views, 5);
    if f.len() == 2 {
        assert(filter_views(f) =~= seq![f[0]@, f[1]@]);
    }
    if f.len() == 3 {
        assert(filter_views(f) =~= seq![f[0]@, f[1]@, f[2]@]);
    }
    if f.len() == 4 {
        assert(filter_views(f) =~= seq![f[0]@, f[1]@, f[2]@, f[3]@]);
    }
}

// ---------------------------------------------------------------------------
// What a filter lets pass
// ---------------------------------------------------------------------------

pub open spec fn byte(c: char) -> u8 {
    c as u8
}

/// A pattern without `^` at its beginning and `$` at its end: patterns match
/// whole names and values in any case.
pub open spec fn unanchored(p: Seq<u8>) -> Seq<u8> {
    let q = if p.len() > 0 && p[0] == byte('^') {
        p.skip(1)
    } else {
        p
    };
    if q.len() > 0 && q.last() == byte('$') {
        q.drop_last()
    } else {
        q
    }
}

/// Whether a pattern matches, for a pattern made of literal bytes, possibly
/// with `.*` behind them, which stands for anything without a line feed.
pub open spec fn pattern_matches(p: Seq<u8>, s: Seq<u8>) -> bool {
    let q = unanchored(p);
    let n = q.len() - 2;
    if n >= 0 && q[n] == byte('.') && q[n + 1] == byte('*') {
        q.take(n).is_prefix_of(s) && forall|i: int|
            n <= i < s.len() ==> #[trigger] s[i] != byte('\n')
    } else {
        s == q
    }
}

/// Whether a filter that looks at one cell at a time lets a cell pass.
pub open spec fn cell_passes(f: FilterView, c: CellView) -> bool {
    match f {
        FilterView::Family(p) => pattern_matches(encode_utf8(p), encode_utf8(c.family)),
        FilterView::Qualifier(p) => pattern_matches(p, c.qualifier),
        FilterView::Value(p) => pattern_matches(p, c.value),
        FilterView::Timestamps { start, end } => start <= c.timestamp && (end == 0 || c.timestamp
            < end),
        _ => true,
    }
}

/// The cells that a filter that looks at one cell at a time lets pass.
pub open spec fn cells_passing(f: FilterView, row: Seq<CellView>) -> Seq<CellView>
    decreases row.len(),
{
    if row.len() == 0 {
        Seq::empty()
    } else if cell_passes(f, row.last()) {
        cells_passing(f, row.drop_last()).push(row.last())
    } else {
        cells_passing(f, row.drop_last())
    }
}

/// The cells that a filter lets pass.
pub open spec fn passed(f: FilterView, row: Seq<CellView>) -> Seq<CellView>
    decreases f,
{
    match f {
        FilterView::Chain(l) => passed_chain(l, row),
        FilterView::Interleave(l) => passed_any(l, row),
        FilterView::Condition { predicate, if_true, if_false } => if passed(*predicate, row).len()
            > 0 {
            passed(*if_true, row)
        } else {
            passed(*if_false, row)
        },
        FilterView::Limit(n) => newest(row, n),
        FilterView::Unset | FilterView::PassAll(_) => row,
        FilterView::BlockAll(_) => Seq::empty(),
        _ => cells_passing(f, row),
    }
}

/// What a chain lets pass.
pub open spec fn passed_chain(l: Seq<FilterView>, row: Seq<CellView>) -> Seq<CellView>
    decreases l,
{
    if l.len() == 0 {
        row
    } else {
        passed(l.last(), passed_chain(l.drop_last(), row))
    }
}

/// What one of several filters lets pass.
pub open spec fn passed_any(l: Seq<FilterView>, row: Seq<CellView>) -> Seq<CellView>
    decreases l,
{
    if l.len() == 0 {
        Seq::empty()
    } else {
        passed_any(l.drop_last(), row) + passed(l.last(), row)
    }
}

/// A filter matches a row where it lets a cell of it pass.
pub open spec fn matches_row(f: FilterView, row: Seq<CellView>) -> bool {
    passed(f, row).len() > 0
}

pub proof fn lemma_cells_passing(f: FilterView, row: Seq<CellView>, c: CellView)
    ensures
        cells_passing(f, row).contains(c) <==> row.contains(c) && cell_passes(f, c),
    decreases row.len(),
{
    if row.len() > 0 {
        let d = row.drop_last();
        lemma_cells_passing(f, d, c);
        assert(row =~= d.push(row.last()));
        lemma_push_contains(d, row.last(), c);
        lemma_push_contains(cells_passing(f, d), row.last(), c);
    }
}

pub proof fn lemma_push_contains(s: Seq<CellView>, x: CellView, c: CellView)
    ensures
        s.push(x).contains(c) <==> s.contains(c) || c == x,
{
    let p = s.push(x);
    if s.contains(c) {
        let i = choose|i: int| 0 <= i < s.len() && s[i] == c;
        assert(p[i] == c);
    }
    if c == x {
        assert(p[s.len() as int] == c);
    }
    if p.contains(c) {
        let i = choose|i: int| 0 <= i < p.len() && p[i] == c;
        if i < s.len() {
            assert(s[i] == c);
        }
    }
}

/// A filter that looks at the column alone keeps the newest cell of each column
/// that it lets pass.
pub proof fn lemma_newest_of_passing(
    f: FilterView,
    row: Seq<CellView>,
    family: Seq<char>,
    qualifier: Seq<u8>,
)
    requires
        f is Family || f is Qualifier,
    ensures
        newest_of(cells_passing(f, row), family, qualifier) == match newest_of(
            row,
            family,
            qualifier,
        ) {
            Some(c) => if cell_passes(f, c) {
                Some(c)
            } else {
                None
            },
            None => None,
        },
    decreases row.len(),
{
    if row.len() > 0 {
        let d = row.drop_last();
        lemma_newest_of_passing(f, d, family, qualifier);
        lemma_newest_of_column(d, family, qualifier);
        if cell_passes(f, row.last()) {
            let k = cells_passing(f, d).push(row.last());
            assert(k.drop_last() =~= cells_passing(f, d));
        }
    }
}

/// The patterns of the form `^literal$` match the literal alone.
pub proof fn lemma_anchored(literal: Seq<char>, s: Seq<u8>)
    requires
        is_ascii_chars(literal),
        literal.len() < 2 || literal.last() != '*',
    ensures
        pattern_matches(encode_utf8("^"@ + literal + "$"@), s) <==> s == encode_utf8(literal),
{
    reveal_strlit("^");
    reveal_strlit("$");
    let p = "^"@ + literal + "$"@;
    assert(is_ascii_chars(p));
    is_ascii_chars_encode_utf8(p);
    is_ascii_chars_encode_utf8(literal);
    let b = encode_utf8(p);
    assert(p[0] == '^' && p[p.len() - 1] == '$');
    assert(b[0] == byte('^'));
    assert(b.skip(1).last() == b[b.len() - 1]);
    assert(b[b.len() - 1] == byte('$'));
    let q = unanchored(b);
    assert(q.len() == literal.len());
    assert forall|i: int| 0 <= i < q.len() implies q[i] == encode_utf8(literal)[i] by {
        assert(q[i] == b[i + 1]);
        assert(p[i + 1] == literal[i]);
    }
    assert(q =~= encode_utf8(literal));
    if q.len() >= 2 {
        let n = q.len() - 1;
        assert(literal[n] as u8 == q[n]);
        assert(literal[n] != '*');
        assert('\0' <= literal[n] <= '\u{7f}');
    }
}

} // verus!

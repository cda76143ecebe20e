//! Queries and scans of a data table.

use vstd::prelude::*;
use vstd::string::*;
use vstd::utf8::{char_is_scalar, encode_scalar, encode_utf8, is_scalar};

use crate::bigtable::{
    in_range, row_views, table_path, BigtableClient, BoundView, EndKey, RangeView, ReadRowsRequest,
    ReadView, Row, RowCell, RowRange, RowView, StartKey,
};
use crate::bytes::{
    bytes_copy, bytes_eq, bytes_lt, bytes_starts_with, fnv1a, fnv1a_hash, lex_asymmetric,
    lex_common_prefix, lex_decided, lex_le, lex_lt, lex_lt_at, lex_total, lex_transitive,
    lex_witness, push_bytes,
};
use crate::error::{invalid, ErrView, StorageError};
use crate::filter::{
    block_all_filter, chain, condition, lemma_filter_views, newest_filter, pass_all_filter,
    qualifier_filter, FilterView,
};
use crate::gsi::{
    escape_bytes, escape_bytes_terminated, escaped, escaped_terminated, shadow_key,
    shadow_row_key_for_item,
};
use crate::item_ops::{opt_ref_view, present, read_item, row_item};
use crate::lists::{lemma_next, reversed};
use crate::number::{
    encoding_prefix_free, encoding_preserves_order, number_eq, number_lt, parse_number, Decimal,
};
use crate::row_key::{
    append_sk_upper_trailer, encode_key, key_part, partition_start, pk_range_end_inclusive,
    pk_range_start, prefix_range, push_undelimited, row_key, sk_tag_and_bytes, undelimited,
    upper_trailer, TAG_B, TAG_S,
};
use crate::text::{cat2, cat3, text, text_bytes};
use crate::value::{
    copy_attr, copy_item, extract_key, find_key, item_put, item_views, key_attributes, key_name,
    lookup, opt_attr_eq, opt_item_view, schema_view, AttrView, AttributeValue, Item, ItemView,
    KeySchemaElement, KeyType, SchemaView,
};

verus! {

// ---------------------------------------------------------------------------
// Key conditions
// ---------------------------------------------------------------------------

/// An operand of a key condition: a placeholder together with what it resolves
/// to, or anything else.
#[derive(Debug, PartialEq, Eq)]
pub enum Expr {
    Placeholder(Result<AttributeValue, String>),
    Other,
}

/// What an operand is.
pub enum ExprView {
    Placeholder(Result<AttrView, Seq<char>>),
    Other,
}

impl Expr {
    pub open spec fn view(&self) -> ExprView {
        match self {
            Expr::Placeholder(Ok(v)) => ExprView::Placeholder(Ok(v@)),
            Expr::Placeholder(Err(m)) => ExprView::Placeholder(Err(m@)),
            Expr::Other => ExprView::Other,
        }
    }
}

/// A comparison.
#[derive(Clone, Copy, Debug, PartialEq, Eq, Structural)]
pub enum CompareOp {
    Eq,
    Ne,
    Lt,
    Le,
    Gt,
    Ge,
}

/// A condition on the sort key.
#[derive(Debug, PartialEq, Eq)]
pub enum SortKeyCondition {
    Compare { op: CompareOp, value: Expr },
    Between { low: Expr, high: Expr },
    BeginsWith { prefix: Expr },
}

/// What a condition on the sort key is.
pub enum CondView {
    Compare { op: CompareOp, value: ExprView },
    Between { low: ExprView, high: ExprView },
    BeginsWith { prefix: ExprView },
}

impl SortKeyCondition {
    pub open spec fn view(&self) -> CondView {
        match self {
            SortKeyCondition::Compare { op, value } => CondView::Compare { op: *op, value: value@ },
            SortKeyCondition::Between { low, high } => CondView::Between { low: low@, high: high@ },
            SortKeyCondition::BeginsWith { prefix } => CondView::BeginsWith { prefix: prefix@ },
        }
    }
}

pub open spec fn opt_cond(c: Option<&SortKeyCondition>) -> Option<CondView> {
    match c {
        Some(x) => Some(x@),
        None => None,
    }
}

/// A part of a path to an attribute.
#[derive(Debug, PartialEq, Eq)]
pub enum PathElement {
    Attribute(String),
    Index(usize),
}

/// The condition of a query.
#[derive(Debug, PartialEq, Eq)]
pub struct KeyCondition {
    pub pk_path: Vec<PathElement>,
    pub pk_value: Expr,
    pub sk_condition: Option<SortKeyCondition>,
}

impl KeyCondition {
    /// The condition on the sort key.
    pub open spec fn sort_condition(&self) -> Option<CondView> {
        match self.sk_condition {
            Some(c) => Some(c@),
            None => None,
        }
    }
}

/// The value of an operand.
pub open spec fn expr_value(e: ExprView) -> Result<AttrView, ErrView> {
    match e {
        ExprView::Placeholder(Ok(v)) => Ok(v),
        ExprView::Placeholder(Err(m)) => Err(ErrView::Validation("placeholder resolve: "@ + m)),
        ExprView::Other => Err(
            ErrView::Validation("key condition values must be placeholders"@),
        ),
    }
}

/// The value of an operand, which must be a placeholder.
pub fn resolve_expr_value(expr: &Expr) -> (r: Result<&AttributeValue, StorageError>)
    ensures
        match r {
            Ok(v) => expr_value(expr@) == Ok::<AttrView, ErrView>(v@),
            Err(e) => expr_value(expr@) == Err::<AttrView, ErrView>(e@),
        },
{
    match expr {
        Expr::Placeholder(Ok(v)) => Ok(v),
        Expr::Placeholder(Err(m)) => Err(
            invalid(cat2("placeholder resolve: ", m.as_str()).as_str()),
        ),
        Expr::Other => Err(invalid("key condition values must be placeholders")),
    }
}

/// The attribute that a path of one element names.
pub open spec fn path_name(path: Seq<PathElement>) -> Result<Seq<char>, ErrView> {
    if path.len() != 1 {
        Err(ErrView::Validation("key condition path must be a single attribute"@))
    } else {
        match path[0] {
            PathElement::Attribute(s) => Ok(s@),
            PathElement::Index(_) => Err(
                ErrView::Validation("key condition path must be an attribute name, not an index"@),
            ),
        }
    }
}

/// Finds the one attribute that a path names.
pub fn path_to_name(path: &[PathElement]) -> (r: Result<String, StorageError>)
    ensures
        match r {
            Ok(s) => path_name(path@) == Ok::<Seq<char>, ErrView>(s@),
            Err(e) => path_name(path@) == Err::<Seq<char>, ErrView>(e@),
        },
{
    if path.len() != 1 {
        return Err(invalid("key condition path must be a single attribute"));
    }
    match &path[0] {
        PathElement::Attribute(s) => Ok(text(s.as_str())),
        PathElement::Index(_) => Err(
            invalid("key condition path must be an attribute name, not an index"),
        ),
    }
}

// ---------------------------------------------------------------------------
// The range of a query
// ---------------------------------------------------------------------------

/// How a sort key stands in row keys: as it is in those of a table, and escaped
/// and ended in those of an index, where the key of the base row follows.
pub open spec fn sort_part(p: (u8, Seq<u8>), index: bool) -> Seq<u8> {
    if index {
        seq![p.0] + escaped_terminated(p.1)
    } else {
        undelimited(p)
    }
}

/// How the beginning of a sort key stands in row keys.
pub open spec fn prefix_part(p: (u8, Seq<u8>), index: bool) -> Seq<u8> {
    if index {
        seq![p.0] + escaped(p.1)
    } else {
        undelimited(p)
    }
}

/// The key of a partition that continues with the given sort key.
pub open spec fn sort_bound(start: Seq<u8>, v: AttrView, index: bool) -> Result<Seq<u8>, ErrView> {
    match key_part(v) {
        Ok(p) => Ok(start + sort_part(p, index)),
        Err(e) => Err(e),
    }
}

/// The key of a partition that continues with the given beginning of a sort
/// key.
pub open spec fn prefix_bound(start: Seq<u8>, v: AttrView, index: bool) -> Result<
    Seq<u8>,
    ErrView,
> {
    match v {
        AttrView::S(s) => Ok(start + prefix_part((TAG_S, encode_utf8(s)), index)),
        AttrView::B(b) => Ok(start + prefix_part((TAG_B, b), index)),
        _ => Err(ErrView::Validation("begins_with prefix must be S/B"@)),
    }
}

/// The bounds of a query within a partition of a table or of an index: the first
/// key, the last, and whether the last is left out.
pub open spec fn bounds_by(start: Seq<u8>, cond: Option<CondView>, index: bool) -> Result<
    (Seq<u8>, Seq<u8>, bool),
    ErrView,
> {
    let end = start + upper_trailer();
    match cond {
        None => Ok((start, end, false)),
        Some(CondView::Compare { op, value }) => match expr_value(value) {
            Err(e) => Err(e),
            Ok(v) => match sort_bound(start, v, index) {
                Err(e) => Err(e),
                Ok(exact) => match op {
                    CompareOp::Eq => Ok((exact, exact + upper_trailer(), false)),
                    CompareOp::Gt => Ok((exact + upper_trailer(), end, false)),
                    CompareOp::Ge => Ok((exact, end, false)),
                    CompareOp::Lt => Ok((start, exact, true)),
                    CompareOp::Le => Ok((start, exact + upper_trailer(), false)),
                    CompareOp::Ne => Err(
                        ErrView::Validation("Ne not valid in KeyConditionExpression for SK"@),
                    ),
                },
            },
        },
        Some(CondView::Between { low, high }) => match expr_value(low) {
            Err(e) => Err(e),
            Ok(lo) => match expr_value(high) {
                Err(e) => Err(e),
                Ok(hi) => match sort_bound(start, hi, index) {
                    Err(e) => Err(e),
                    Ok(h) => match sort_bound(start, lo, index) {
                        Err(e) => Err(e),
                        Ok(l) => Ok((l, h + upper_trailer(), false)),
                    },
                },
            },
        },
        Some(CondView::BeginsWith { prefix }) => match expr_value(prefix) {
            Err(e) => Err(e),
            Ok(v) => match prefix_bound(start, v, index) {
                Err(e) => Err(e),
                Ok(b) => Ok((b, b + upper_trailer(), false)),
            },
        },
    }
}

/// The bounds of a query within a partition of a table.
pub open spec fn bounds_in(start: Seq<u8>, cond: Option<CondView>) -> Result<
    (Seq<u8>, Seq<u8>, bool),
    ErrView,
> {
    bounds_by(start, cond, false)
}

/// The bounds of a query of a table or of an index.
pub open spec fn bounds_of(pk: AttrView, cond: Option<CondView>, index: bool) -> Result<
    (Seq<u8>, Seq<u8>, bool),
    ErrView,
> {
    match partition_start(pk) {
        Err(e) => Err(e),
        Ok(start) => bounds_by(start, cond, index),
    }
}

/// The bounds of a query of a table.
pub open spec fn query_bounds(pk: AttrView, cond: Option<CondView>) -> Result<
    (Seq<u8>, Seq<u8>, bool),
    ErrView,
> {
    bounds_of(pk, cond, false)
}

/// The bounds of a query of an index.
pub open spec fn index_bounds(pk: AttrView, cond: Option<CondView>) -> Result<
    (Seq<u8>, Seq<u8>, bool),
    ErrView,
> {
    bounds_of(pk, cond, true)
}

fn push_sort_part(out: &mut Vec<u8>, tag: u8, bytes: &[u8], index: bool)
    ensures
        final(out)@ == old(out)@ + sort_part((tag, bytes@), index),
{
    if index {
        out.push(tag);
        let e = escape_bytes_terminated(bytes);
        push_bytes(out, e.as_slice());
        assert(out@ =~= old(out)@ + sort_part((tag, bytes@), index));
    } else {
        push_undelimited(out, tag, bytes);
    }
}

fn push_prefix_part(out: &mut Vec<u8>, tag: u8, bytes: &[u8], index: bool)
    ensures
        final(out)@ == old(out)@ + prefix_part((tag, bytes@), index),
{
    if index {
        out.push(tag);
        let e = escape_bytes(bytes);
        push_bytes(out, e.as_slice());
        assert(out@ =~= old(out)@ + prefix_part((tag, bytes@), index));
    } else {
        push_undelimited(out, tag, bytes);
    }
}

fn make_bound(start: &[u8], v: &AttributeValue, index: bool) -> (r: Result<Vec<u8>, StorageError>)
    ensures
        match r {
            Ok(b) => sort_bound(start@, v@, index) == Ok::<Seq<u8>, ErrView>(b@),
            Err(e) => sort_bound(start@, v@, index) == Err::<Seq<u8>, ErrView>(e@),
        },
{
    let (tag, bytes) = match sk_tag_and_bytes(v) {
        Ok(p) => p,
        Err(e) => return Err(e),
    };
    let mut out = bytes_copy(start);
    push_sort_part(&mut out, tag, bytes.as_slice(), index);
    Ok(out)
}

fn with_trailer(b: &[u8]) -> (r: Vec<u8>)
    ensures
        r@ == b@ + upper_trailer(),
{
    let mut out = bytes_copy(b);
    append_sk_upper_trailer(&mut out);
    out
}

fn range_of(
    pk_value: &AttributeValue,
    sk_condition: Option<&SortKeyCondition>,
    index: bool,
) -> (r: Result<(Vec<u8>, Vec<u8>, bool), StorageError>)
    ensures
        match r {
            Ok((s, e, open)) => bounds_of(pk_value@, opt_cond(sk_condition), index) == Ok::<
                (Seq<u8>, Seq<u8>, bool),
                ErrView,
            >((s@, e@, open)),
            Err(e) => bounds_of(pk_value@, opt_cond(sk_condition), index) == Err::<
                (Seq<u8>, Seq<u8>, bool),
                ErrView,
            >(e@),
        },
{
    let start = match pk_range_start(pk_value) {
        Ok(s) => s,
        Err(e) => return Err(e),
    };
    let end = match pk_range_end_inclusive(pk_value) {
        Ok(s) => s,
        Err(e) => return Err(e),
    };
    match sk_condition {
        None => Ok((start, end, false)),
        Some(SortKeyCondition::Compare { op, value }) => {
            let v = match resolve_expr_value(value) {
                Ok(v) => v,
                Err(e) => return Err(e),
            };
            let exact = match make_bound(start.as_slice(), v, index) {
                Ok(b) => b,
                Err(e) => return Err(e),
            };
            let exact_plus = with_trailer(exact.as_slice());
            match op {
                CompareOp::Eq => Ok((exact, exact_plus, false)),
                CompareOp::Gt => Ok((exact_plus, end, false)),
                CompareOp::Ge => Ok((exact, end, false)),
                CompareOp::Lt => Ok((start, exact, true)),
                CompareOp::Le => Ok((start, exact_plus, false)),
                CompareOp::Ne => Err(invalid("Ne not valid in KeyConditionExpression for SK")),
            }
        },
        Some(SortKeyCondition::Between { low, high }) => {
            let lo = match resolve_expr_value(low) {
                Ok(v) => v,
                Err(e) => return Err(e),
            };
            let hi = match resolve_expr_value(high) {
                Ok(v) => v,
                Err(e) => return Err(e),
            };
            let h = match make_bound(start.as_slice(), hi, index) {
                Ok(b) => b,
                Err(e) => return Err(e),
            };
            let l = match make_bound(start.as_slice(), lo, index) {
                Ok(b) => b,
                Err(e) => return Err(e),
            };
            let h_plus = with_trailer(h.as_slice());
            Ok((l, h_plus, false))
        },
        Some(SortKeyCondition::BeginsWith { prefix }) => {
            let v = match resolve_expr_value(prefix) {
                Ok(v) => v,
                Err(e) => return Err(e),
            };
            let mut b = start;
            match v {
                AttributeValue::S(s) => {
                    push_prefix_part(&mut b, TAG_S, s.as_str().as_bytes(), index);
                },
                AttributeValue::B(x) => {
                    push_prefix_part(&mut b, TAG_B, x.as_slice(), index);
                },
                _ => {
                    return Err(invalid("begins_with prefix must be S/B"));
                },
            }
            let e = with_trailer(b.as_slice());
            Ok((b, e, false))
        },
    }
}

/// Finds the bounds of a query of a table: the first key, the last, and whether
/// the last is left out.
pub fn build_range_for_query(
    pk_value: &AttributeValue,
    sk_condition: Option<&SortKeyCondition>,
) -> (r: Result<(Vec<u8>, Vec<u8>, bool), StorageError>)
    ensures
        match r {
            Ok((s, e, open)) => query_bounds(pk_value@, opt_cond(sk_condition)) == Ok::<
                (Seq<u8>, Seq<u8>, bool),
                ErrView,
            >((s@, e@, open)),
            Err(e) => query_bounds(pk_value@, opt_cond(sk_condition)) == Err::<
                (Seq<u8>, Seq<u8>, bool),
                ErrView,
            >(e@),
        },
{
    range_of(pk_value, sk_condition, false)
}

/// Finds the bounds of a query of an index, in whose row keys the sort key is
/// escaped and the key of the base row follows.
pub fn build_range_for_index(
    pk_value: &AttributeValue,
    sk_condition: Option<&SortKeyCondition>,
) -> (r: Result<(Vec<u8>, Vec<u8>, bool), StorageError>)
    ensures
        match r {
            Ok((s, e, open)) => index_bounds(pk_value@, opt_cond(sk_condition)) == Ok::<
                (Seq<u8>, Seq<u8>, bool),
                ErrView,
            >((s@, e@, open)),
            Err(e) => index_bounds(pk_value@, opt_cond(sk_condition)) == Err::<
                (Seq<u8>, Seq<u8>, bool),
                ErrView,
            >(e@),
        },
{
    range_of(pk_value, sk_condition, true)
}

/// The range between bounds.
pub open spec fn bounded(start: Seq<u8>, end: Seq<u8>, end_open: bool) -> RangeView {
    RangeView {
        start: BoundView::Closed(start),
        end: if end_open {
            BoundView::Open(end)
        } else {
            BoundView::Closed(end)
        },
    }
}

/// The later of two keys.
pub open spec fn later(a: Seq<u8>, b: Seq<u8>) -> Seq<u8> {
    if lex_lt(b, a) {
        a
    } else {
        b
    }
}

/// The range of a query that goes on behind the row `resume`.
pub open spec fn resumed(
    bounds: (Seq<u8>, Seq<u8>, bool),
    forward: bool,
    resume: Option<Seq<u8>>,
) -> RangeView {
    match resume {
        None => bounded(bounds.0, bounds.1, bounds.2),
        Some(k) => if forward {
            bounded(later(k.push(0), bounds.0), bounds.1, bounds.2)
        } else {
            bounded(bounds.0, k, true)
        },
    }
}

// ---------------------------------------------------------------------------
// Requests
// ---------------------------------------------------------------------------

/// A table that is queried and scanned.
pub struct QueryScan<'a> {
    pub client: &'a BigtableClient,
    pub full_table_name: String,
}

/// A read of the rows in a range.
pub open spec fn range_read(
    table: Seq<char>,
    range: RangeView,
    limit: int,
    filter: FilterView,
    reversed: bool,
) -> ReadView {
    ReadView {
        table,
        profile: Seq::empty(),
        keys: Seq::empty(),
        ranges: seq![range],
        limit,
        filter,
        reversed,
    }
}

pub open spec fn limit_or_none(limit: Option<i64>) -> int {
    match limit {
        Some(l) => l as int,
        None => 0,
    }
}

/// Builds a read of the rows in a range.
pub fn read_range(
    table: &str,
    start_key: StartKey,
    end_key: EndKey,
    rows_limit: i64,
    filter: crate::filter::RowFilter,
    reversed: bool,
) -> (r: ReadRowsRequest)
    ensures
        r@ == range_read(
            table@,
            (RowRange { start_key, end_key })@,
            rows_limit as int,
            filter@,
            reversed,
        ),
{
    let ghost range = (RowRange { start_key, end_key })@;
    let r = ReadRowsRequest {
        table_name: text(table),
        app_profile_id: String::new(),
        row_keys: Vec::new(),
        row_ranges: vec![RowRange { start_key, end_key }],
        rows_limit,
        filter,
        reversed,
    };
    proof {
        assert(r@.keys =~= Seq::<Seq<u8>>::empty());
        assert(r@.ranges =~= seq![range]);
        assert(r@.profile =~= Seq::<char>::empty());
    }
    r
}

/// Where a query or scan goes on.
pub open spec fn resume_key(key: Option<ItemView>, schema: SchemaView) -> Result<
    Option<Seq<u8>>,
    ErrView,
> {
    match key {
        None => Ok(None),
        Some(k) => match row_key(k, schema) {
            Ok(b) => Ok(Some(b)),
            Err(e) => Err(e),
        },
    }
}

/// The read of a query.
pub open spec fn query_read(
    table: Seq<char>,
    schema: SchemaView,
    path: Seq<PathElement>,
    pk: ExprView,
    cond: Option<CondView>,
    forward: bool,
    limit: Option<i64>,
    start: Option<ItemView>,
) -> Result<ReadView, ErrView> {
    match path_name(path) {
        Err(e) => Err(e),
        Ok(_) => match expr_value(pk) {
            Err(e) => Err(e),
            Ok(v) => match query_bounds(v, cond) {
                Err(e) => Err(e),
                Ok(b) => match resume_key(start, schema) {
                    Err(e) => Err(e),
                    Ok(k) => Ok(
                        range_read(
                            table,
                            resumed(b, forward, k),
                            limit_or_none(limit),
                            FilterView::Limit(1),
                            !forward,
                        ),
                    ),
                },
            },
        },
    }
}

/// Where a query or scan of an index goes on: with the key of the entry that the
/// given attributes make. They must be those of an entry.
pub open spec fn index_resume_key(
    key: Option<ItemView>,
    gsi: SchemaView,
    base: SchemaView,
) -> Result<Option<Seq<u8>>, ErrView> {
    match key {
        None => Ok(None),
        Some(k) => match shadow_key(k, gsi, base) {
            Err(e) => Err(e),
            Ok(Some(b)) => Ok(Some(b)),
            Ok(None) => resume_key(key, gsi),
        },
    }
}

fn index_resume(key: &Item, gsi: &[KeySchemaElement], base: &[KeySchemaElement]) -> (r: Result<
    Vec<u8>,
    StorageError,
>)
    ensures
        match r {
            Ok(b) => index_resume_key(Some(key@), schema_view(gsi@), schema_view(base@)) == Ok::<
                Option<Seq<u8>>,
                ErrView,
            >(Some(b@)),
            Err(e) => index_resume_key(Some(key@), schema_view(gsi@), schema_view(base@)) == Err::<
                Option<Seq<u8>>,
                ErrView,
            >(e@),
        },
{
    match shadow_row_key_for_item(key, gsi, base) {
        Err(e) => Err(e),
        Ok(Some(b)) => Ok(b),
        Ok(None) => encode_key(key, gsi),
    }
}

/// The read of a query of an index.
pub open spec fn index_query_read(
    table: Seq<char>,
    gsi: SchemaView,
    base: SchemaView,
    path: Seq<PathElement>,
    pk: ExprView,
    cond: Option<CondView>,
    forward: bool,
    limit: Option<i64>,
    start: Option<ItemView>,
) -> Result<ReadView, ErrView> {
    match path_name(path) {
        Err(e) => Err(e),
        Ok(_) => match expr_value(pk) {
            Err(e) => Err(e),
            Ok(v) => match index_bounds(v, cond) {
                Err(e) => Err(e),
                Ok(b) => match index_resume_key(start, gsi, base) {
                    Err(e) => Err(e),
                    Ok(k) => Ok(
                        range_read(
                            table,
                            resumed(b, forward, k),
                            limit_or_none(limit),
                            FilterView::Limit(1),
                            !forward,
                        ),
                    ),
                },
            },
        },
    }
}

/// The read of a scan of an index.
pub open spec fn index_scan_read(
    table: Seq<char>,
    gsi: SchemaView,
    base: SchemaView,
    limit: Option<i64>,
    start: Option<ItemView>,
) -> Result<ReadView, ErrView> {
    match index_resume_key(start, gsi, base) {
        Err(e) => Err(e),
        Ok(k) => Ok(range_read(table, behind_key(k), limit_or_none(limit), FilterView::Limit(1), false)),
    }
}

/// The filter for rows that have an attribute, by the newest cell of each
/// column.
pub open spec fn attribute_filter(name: Seq<char>) -> FilterView {
    FilterView::Chain(
        seq![
            FilterView::Condition {
                predicate: Box::new(FilterView::Qualifier(encode_utf8("^"@ + name + "$"@))),
                if_true: Box::new(FilterView::PassAll(true)),
                if_false: Box::new(FilterView::BlockAll(true)),
            },
            FilterView::Limit(1),
        ],
    )
}

/// The read of a query of a local secondary index, which looks through the
/// whole partition, and the sort key of the index.
pub open spec fn lsi_read(
    table: Seq<char>,
    lsi: SchemaView,
    path: Seq<PathElement>,
    pk: ExprView,
) -> Result<(ReadView, Seq<char>), ErrView> {
    match path_name(path) {
        Err(e) => Err(e),
        Ok(_) => match expr_value(pk) {
            Err(e) => Err(e),
            Ok(v) => match key_name(lsi, KeyType::Range) {
                None => Err(ErrView::Validation("LSI missing RANGE key"@)),
                Some(name) => match partition_start(v) {
                    Err(e) => Err(e),
                    Ok(start) => Ok(
                        (
                            range_read(
                                table,
                                bounded(start, start + upper_trailer(), false),
                                0,
                                attribute_filter(name),
                                false,
                            ),
                            name,
                        ),
                    ),
                },
            },
        },
    }
}

/// The range of all keys, or of those behind one.
pub open spec fn behind_key(k: Option<Seq<u8>>) -> RangeView {
    RangeView {
        start: BoundView::Closed(
            match k {
                Some(b) => b.push(0),
                None => Seq::empty(),
            },
        ),
        end: BoundView::Unbounded,
    }
}

/// The read of a scan.
pub open spec fn scan_read(
    table: Seq<char>,
    schema: SchemaView,
    limit: Option<i64>,
    start: Option<ItemView>,
) -> Result<ReadView, ErrView> {
    match resume_key(start, schema) {
        Err(e) => Err(e),
        Ok(k) => Ok(
            range_read(
                table,
                behind_key(k),
                limit_or_none(limit),
                FilterView::Limit(1),
                false,
            ),
        ),
    }
}

impl<'a> QueryScan<'a> {
    pub fn new(client: &'a BigtableClient, data_table_short: &str) -> (r: QueryScan<'a>)
        ensures
            r.client == client,
            r.full_table_name@ == table_path(
                client.project_id@,
                client.instance_id@,
                data_table_short@,
            ),
    {
        QueryScan { client, full_table_name: client.full_table_name(data_table_short) }
    }

    /// The item that consists of the partition key alone.
    pub fn _pk_item(&self, key_schema: &[KeySchemaElement], pk_value: AttributeValue) -> (r: Result<
        Item,
        StorageError,
    >)
        ensures
            match r {
                Ok(i) => key_name(schema_view(key_schema@), KeyType::Hash) matches Some(n) && i@
                    == seq![(n, pk_value@)],
                Err(e) => key_name(schema_view(key_schema@), KeyType::Hash) is None && e@
                    == ErrView::Validation("table has no HASH key"@),
            },
    {
        match find_key(key_schema, KeyType::Hash) {
            Some(n) => {
                let mut m = Item::new();
                m.insert(text(n.as_str()), pk_value);
                Ok(m)
            },
            None => Err(invalid("table has no HASH key")),
        }
    }

    /// The read of a query. [`query_page`] turns what comes back into a page.
    pub fn query(
        &self,
        key_schema: &[KeySchemaElement],
        kc: &KeyCondition,
        forward: bool,
        limit: Option<i64>,
        exclusive_start_key: Option<&Item>,
    ) -> (r: Result<ReadRowsRequest, StorageError>)
        ensures
            match r {
                Ok(q) => query_read(
                    self.full_table_name@,
                    schema_view(key_schema@),
                    kc.pk_path@,
                    kc.pk_value@,
                    kc.sort_condition(),
                    forward,
                    limit,
                    opt_ref_view(exclusive_start_key),
                ) == Ok::<ReadView, ErrView>(q@),
                Err(e) => query_read(
                    self.full_table_name@,
                    schema_view(key_schema@),
                    kc.pk_path@,
                    kc.pk_value@,
                    kc.sort_condition(),
                    forward,
                    limit,
                    opt_ref_view(exclusive_start_key),
                ) == Err::<ReadView, ErrView>(e@),
            },
    {
        let bounds = match self.bounds(kc, false) {
            Ok(b) => b,
            Err(e) => return Err(e),
        };
        let resume: Option<Vec<u8>> = match exclusive_start_key {
            None => None,
            Some(key) => match encode_key(key, key_schema) {
                Ok(k) => Some(k),
                Err(e) => return Err(e),
            },
        };
        Ok(self.bounded_read(bounds, forward, limit, resume))
    }

    /// The bounds of a query of a table or of an index.
    fn bounds(&self, kc: &KeyCondition, index: bool) -> (r: Result<
        (Vec<u8>, Vec<u8>, bool),
        StorageError,
    >)
        ensures
            match r {
                Ok(b) => path_name(kc.pk_path@) is Ok && (expr_value(kc.pk_value@) matches Ok(v)
                    && bounds_of(v, kc.sort_condition(), index) == Ok::<
                    (Seq<u8>, Seq<u8>, bool),
                    ErrView,
                >((b.0@, b.1@, b.2))),
                Err(e) => match (path_name(kc.pk_path@), expr_value(kc.pk_value@)) {
                    (Err(x), _) => x == e@,
                    (Ok(_), Err(x)) => x == e@,
                    (Ok(_), Ok(v)) => bounds_of(v, kc.sort_condition(), index) == Err::<
                        (Seq<u8>, Seq<u8>, bool),
                        ErrView,
                    >(e@),
                },
            },
    {
        if let Err(e) = path_to_name(kc.pk_path.as_slice()) {
            return Err(e);
        }
        match resolve_expr_value(&kc.pk_value) {
            Ok(v) => range_of(v, kc.sk_condition.as_ref(), index),
            Err(e) => Err(e),
        }
    }

    /// The read between bounds, behind the row `resume`.
    fn bounded_read(
        &self,
        bounds: (Vec<u8>, Vec<u8>, bool),
        forward: bool,
        limit: Option<i64>,
        resume: Option<Vec<u8>>,
    ) -> (r: ReadRowsRequest)
        ensures
            r@ == range_read(
                self.full_table_name@,
                resumed((bounds.0@, bounds.1@, bounds.2), forward, crate::gsi::opt_bytes(resume)),
                limit_or_none(limit),
                FilterView::Limit(1),
                !forward,
            ),
    {
        let (mut start, mut end, mut end_open) = bounds;
        if let Some(resume) = resume {
            if forward {
                let mut s = resume;
                s.push(0);
                if bytes_lt(start.as_slice(), s.as_slice()) {
                    start = s;
                }
            } else {
                end = resume;
                end_open = true;
            }
        }
        let limit = match limit {
            Some(l) => l,
            None => 0,
        };
        let end_key = if end_open {
            EndKey::Open(end)
        } else {
            EndKey::Closed(end)
        };
        read_range(
            self.full_table_name.as_str(),
            StartKey::Closed(start),
            end_key,
            limit,
            newest_filter(),
            !forward,
        )
    }

    /// The read of a query of an index, whose shadow table this is.
    /// [`query_page`] turns what comes back into a page.
    pub fn query_index(
        &self,
        gsi_key_schema: &[KeySchemaElement],
        base_key_schema: &[KeySchemaElement],
        kc: &KeyCondition,
        forward: bool,
        limit: Option<i64>,
        exclusive_start_key: Option<&Item>,
    ) -> (r: Result<ReadRowsRequest, StorageError>)
        ensures
            match r {
                Ok(q) => index_query_read(
                    self.full_table_name@,
                    schema_view(gsi_key_schema@),
                    schema_view(base_key_schema@),
                    kc.pk_path@,
                    kc.pk_value@,
                    kc.sort_condition(),
                    forward,
                    limit,
                    opt_ref_view(exclusive_start_key),
                ) == Ok::<ReadView, ErrView>(q@),
                Err(e) => index_query_read(
                    self.full_table_name@,
                    schema_view(gsi_key_schema@),
                    schema_view(base_key_schema@),
                    kc.pk_path@,
                    kc.pk_value@,
                    kc.sort_condition(),
                    forward,
                    limit,
                    opt_ref_view(exclusive_start_key),
                ) == Err::<ReadView, ErrView>(e@),
            },
    {
        let bounds = match self.bounds(kc, true) {
            Ok(b) => b,
            Err(e) => return Err(e),
        };
        let resume: Option<Vec<u8>> = match exclusive_start_key {
            None => None,
            Some(key) => match index_resume(key, gsi_key_schema, base_key_schema) {
                Ok(k) => Some(k),
                Err(e) => return Err(e),
            },
        };
        Ok(self.bounded_read(bounds, forward, limit, resume))
    }

    /// The read of a scan of an index, whose shadow table this is.
    /// [`scan_page`] turns what comes back into a page.
    pub fn scan_index(
        &self,
        gsi_key_schema: &[KeySchemaElement],
        base_key_schema: &[KeySchemaElement],
        limit: Option<i64>,
        exclusive_start_key: Option<&Item>,
    ) -> (r: Result<ReadRowsRequest, StorageError>)
        ensures
            match r {
                Ok(q) => index_scan_read(
                    self.full_table_name@,
                    schema_view(gsi_key_schema@),
                    schema_view(base_key_schema@),
                    limit,
                    opt_ref_view(exclusive_start_key),
                ) == Ok::<ReadView, ErrView>(q@),
                Err(e) => index_scan_read(
                    self.full_table_name@,
                    schema_view(gsi_key_schema@),
                    schema_view(base_key_schema@),
                    limit,
                    opt_ref_view(exclusive_start_key),
                ) == Err::<ReadView, ErrView>(e@),
            },
    {
        let resume: Option<Vec<u8>> = match exclusive_start_key {
            None => None,
            Some(key) => match index_resume(key, gsi_key_schema, base_key_schema) {
                Ok(k) => Some(k),
                Err(e) => return Err(e),
            },
        };
        Ok(self.read_behind(resume, limit))
    }

    /// The read of all rows, or of those behind one.
    fn read_behind(&self, resume: Option<Vec<u8>>, limit: Option<i64>) -> (r: ReadRowsRequest)
        ensures
            r@ == range_read(
                self.full_table_name@,
                behind_key(crate::gsi::opt_bytes(resume)),
                limit_or_none(limit),
                FilterView::Limit(1),
                false,
            ),
    {
        let start: Vec<u8> = match resume {
            Some(k) => {
                let mut s = k;
                s.push(0);
                s
            },
            None => {
                let none: Vec<u8> = Vec::new();
                assert(none@ =~= Seq::<u8>::empty());
                none
            },
        };
        let limit = match limit {
            Some(l) => l,
            None => 0,
        };
        read_range(
            self.full_table_name.as_str(),
            StartKey::Closed(start),
            EndKey::Unbounded,
            limit,
            newest_filter(),
            false,
        )
    }

    /// The read of a query of a local secondary index, and the sort key of the
    /// index. [`lsi_page`] turns what comes back into a page.
    pub fn query_lsi(&self, lsi_key_schema: &[KeySchemaElement], kc: &KeyCondition) -> (r: Result<
        (ReadRowsRequest, String),
        StorageError,
    >)
        ensures
            match r {
                Ok((q, n)) => lsi_read(
                    self.full_table_name@,
                    schema_view(lsi_key_schema@),
                    kc.pk_path@,
                    kc.pk_value@,
                ) == Ok::<(ReadView, Seq<char>), ErrView>((q@, n@)),
                Err(e) => lsi_read(
                    self.full_table_name@,
                    schema_view(lsi_key_schema@),
                    kc.pk_path@,
                    kc.pk_value@,
                ) == Err::<(ReadView, Seq<char>), ErrView>(e@),
            },
    {
        if let Err(e) = path_to_name(kc.pk_path.as_slice()) {
            return Err(e);
        }
        let pk = match resolve_expr_value(&kc.pk_value) {
            Ok(v) => v,
            Err(e) => return Err(e),
        };
        let name = match find_key(lsi_key_schema, KeyType::Range) {
            Some(n) => text(n.as_str()),
            None => return Err(invalid("LSI missing RANGE key")),
        };
        let start = match pk_range_start(pk) {
            Ok(s) => s,
            Err(e) => return Err(e),
        };
        let end = match pk_range_end_inclusive(pk) {
            Ok(s) => s,
            Err(e) => return Err(e),
        };
        let pattern = cat3("^", name.as_str(), "$");
        let filters = vec![
            condition(
                qualifier_filter(pattern.as_str().as_bytes()),
                pass_all_filter(),
                block_all_filter(),
            ),
            newest_filter(),
        ];
        proof {
            lemma_filter_views(filters@);
        }
        Ok(
            (
                read_range(
                    self.full_table_name.as_str(),
                    StartKey::Closed(start),
                    EndKey::Closed(end),
                    0,
                    chain(filters),
                    false,
                ),
                name,
            ),
        )
    }

    /// The read of a scan. [`scan_page`] turns what comes back into a page.
    pub fn scan(
        &self,
        key_schema: &[KeySchemaElement],
        limit: Option<i64>,
        exclusive_start_key: Option<&Item>,
    ) -> (r: Result<ReadRowsRequest, StorageError>)
        ensures
            match r {
                Ok(q) => scan_read(
                    self.full_table_name@,
                    schema_view(key_schema@),
                    limit,
                    opt_ref_view(exclusive_start_key),
                ) == Ok::<ReadView, ErrView>(q@),
                Err(e) => scan_read(
                    self.full_table_name@,
                    schema_view(key_schema@),
                    limit,
                    opt_ref_view(exclusive_start_key),
                ) == Err::<ReadView, ErrView>(e@),
            },
    {
        let resume: Option<Vec<u8>> = match exclusive_start_key {
            None => None,
            Some(key) => match encode_key(key, key_schema) {
                Ok(k) => Some(k),
                Err(e) => return Err(e),
            },
        };
        Ok(self.read_behind(resume, limit))
    }
}

// ---------------------------------------------------------------------------
// Segments
// ---------------------------------------------------------------------------

/// The segment of a row key out of `total`.
pub open spec fn segment_of(key: Seq<u8>, total: u64) -> u64 {
    (fnv1a(key) as int % total as int) as u64
}

/// Finds the segment of a row key out of `total`.
pub fn hash_segment(key: &[u8], total: u64) -> (r: u64)
    requires
        total > 0,
    ensures
        r == segment_of(key@, total),
        r < total,
{
    fnv1a_hash(key) % total
}

/// Whether a row is in a segment. With one segment every row is.
pub open spec fn in_segment(key: Seq<u8>, total: u64, segment: u64) -> bool {
    total <= 1 || segment_of(key, total) == segment
}

/// Every row is in exactly one of the segments.
pub proof fn segments_partition(key: Seq<u8>, total: u64)
    requires
        total > 0,
    ensures
        exists|s: u64| s < total && #[trigger] in_segment(key, total, s),
        forall|s: u64, t: u64|
            s < total && t < total && #[trigger] in_segment(key, total, s) && #[trigger] in_segment(
                key,
                total,
                t,
            ) ==> s == t,
{
    let s = segment_of(key, total);
    assert(0 <= fnv1a(key) as int % total as int && (fnv1a(key) as int % total as int) < total)
        by (nonlinear_arith)
        requires
            total > 0,
    ;
    assert(in_segment(key, total, s));
}

// ---------------------------------------------------------------------------
// Pages
// ---------------------------------------------------------------------------

/// The items of the rows in a segment.
pub open spec fn items_in(rows: Seq<RowView>, total: u64, segment: u64) -> Result<
    Seq<ItemView>,
    ErrView,
>
    decreases rows.len(),
{
    if rows.len() == 0 {
        Ok(Seq::empty())
    } else {
        match items_in(rows.drop_last(), total, segment) {
            Err(e) => Err(e),
            Ok(l) => if !in_segment(rows.last().key, total, segment) {
                Ok(l)
            } else {
                match row_item(rows.last().cells) {
                    Err(e) => Err(e),
                    Ok(i) => if i.len() == 0 {
                        Ok(l)
                    } else {
                        Ok(l.push(i))
                    },
                }
            },
        }
    }
}

proof fn lemma_items_in_error(rows: Seq<RowView>, total: u64, segment: u64, n: int)
    requires
        0 <= n <= rows.len(),
        items_in(rows.take(n), total, segment) is Err,
    ensures
        items_in(rows, total, segment) == items_in(rows.take(n), total, segment),
    decreases rows.len(),
{
    if n < rows.len() {
        assert(rows.drop_last().take(n) =~= rows.take(n));
        lemma_items_in_error(rows.drop_last(), total, segment, n);
    } else {
        assert(rows.take(n) =~= rows);
    }
}

/// Reads the item of a row, where it has an attribute.
pub fn cells_to_item(cells: &[RowCell]) -> (r: Result<Option<Item>, StorageError>)
    ensures
        match r {
            Ok(i) => row_item(crate::bigtable::cell_views(cells@)) matches Ok(x) && opt_item_view(i)
                == present(x),
            Err(e) => row_item(crate::bigtable::cell_views(cells@)) == Err::<ItemView, ErrView>(
                e@,
            ),
        },
{
    match read_item(cells) {
        Ok(i) => if i.is_empty() {
            Ok(None)
        } else {
            Ok(Some(i))
        },
        Err(e) => Err(e),
    }
}

fn read_items(rows: &[Row], total: u64, segment: u64) -> (r: Result<Vec<Item>, StorageError>)
    ensures
        match r {
            Ok(l) => items_in(row_views(rows@), total, segment) == Ok::<Seq<ItemView>, ErrView>(
                item_views(l@),
            ),
            Err(e) => items_in(row_views(rows@), total, segment) == Err::<Seq<ItemView>, ErrView>(
                e@,
            ),
        },
{
    let ghost all = row_views(rows@);
    let mut out: Vec<Item> = Vec::new();
    let mut i: usize = 0;
    assert(item_views(out@) =~= Seq::empty());
    while i < rows.len()
        invariant
            i <= rows.len(),
            all == row_views(rows@),
            items_in(all.take(i as int), total, segment) == Ok::<Seq<ItemView>, ErrView>(
                item_views(out@),
            ),
        decreases rows.len() - i,
    {
        proof {
            assert(all.take(i + 1).drop_last() =~= all.take(i as int));
            assert(all.take(i + 1).last() == rows@[i as int]@);
        }
        if total <= 1 || hash_segment(rows[i].key.as_slice(), total) == segment {
            match cells_to_item(rows[i].cells.as_slice()) {
                Err(e) => {
                    proof {
                        lemma_items_in_error(all, total, segment, i + 1);
                    }
                    return Err(e);
                },
                Ok(None) => {},
                Ok(Some(item)) => {
                    let ghost before = item_views(out@);
                    let ghost added = item@;
                    out.push(item);
                    assert(item_views(out@) =~= before.push(added));
                },
            }
        }
        i = i + 1;
    }
    assert(all.take(i as int) =~= all);
    Ok(out)
}

pub type PageView = (Seq<ItemView>, Option<ItemView>);

pub open spec fn page_view(p: (Vec<Item>, Option<Item>)) -> PageView {
    (item_views(p.0@), opt_item_view(p.1))
}

/// Whether a page is as long as the limit.
pub open spec fn page_full(items: Seq<ItemView>, limit: Option<i64>) -> bool {
    match limit {
        Some(l) => items.len() == l && l > 0,
        None => false,
    }
}

fn is_full(items: &Vec<Item>, limit: Option<i64>) -> (r: bool)
    ensures
        r == page_full(item_views(items@), limit),
{
    match limit {
        Some(l) => l > 0 && items.len() as i128 == l as i128,
        None => false,
    }
}

/// The page of a query: the items, and the last of them where the page is as
/// long as the limit.
pub open spec fn query_result(rows: Seq<RowView>, limit: Option<i64>) -> Result<PageView, ErrView> {
    match items_in(rows, 1, 0) {
        Err(e) => Err(e),
        Ok(l) => Ok(
            (
                l,
                if page_full(l, limit) {
                    Some(l.last())
                } else {
                    None
                },
            ),
        ),
    }
}

/// Turns the rows that came back for a query into a page.
pub fn query_page(rows: &[Row], limit: Option<i64>) -> (r: Result<
    (Vec<Item>, Option<Item>),
    StorageError,
>)
    ensures
        match r {
            Ok(p) => query_result(row_views(rows@), limit) == Ok::<PageView, ErrView>(page_view(p)),
            Err(e) => query_result(row_views(rows@), limit) == Err::<PageView, ErrView>(e@),
        },
{
    let items = match read_items(rows, 1, 0) {
        Ok(l) => l,
        Err(e) => return Err(e),
    };
    let last = if is_full(&items, limit) {
        Some(copy_item(&items[items.len() - 1]))
    } else {
        None
    };
    Ok((items, last))
}

/// How many segments there are.
pub open spec fn segment_total(total_segments: Option<i64>) -> u64 {
    match total_segments {
        Some(t) => if t < 1 {
            1
        } else {
            t as u64
        },
        None => 1,
    }
}

/// Which segment is asked for.
pub open spec fn segment_number(segment: Option<i64>, total: u64) -> u64 {
    match segment {
        Some(s) => if s < 0 {
            0
        } else {
            (s as int % total as int) as u64
        },
        None => 0,
    }
}

/// The page of a scan: the items of the segment, and the key of the last of
/// them where the page is as long as the limit.
pub open spec fn scan_result(
    rows: Seq<RowView>,
    schema: SchemaView,
    limit: Option<i64>,
    segment: Option<i64>,
    total_segments: Option<i64>,
) -> Result<PageView, ErrView> {
    let total = segment_total(total_segments);
    match items_in(rows, total, segment_number(segment, total)) {
        Err(e) => Err(e),
        Ok(l) => Ok(
            (
                l,
                if page_full(l, limit) {
                    Some(key_attributes(l.last(), schema))
                } else {
                    None
                },
            ),
        ),
    }
}

/// Turns the rows that came back for a scan into a page.
pub fn scan_page(
    rows: &[Row],
    key_schema: &[KeySchemaElement],
    limit: Option<i64>,
    segment: Option<i64>,
    total_segments: Option<i64>,
) -> (r: Result<(Vec<Item>, Option<Item>), StorageError>)
    ensures
        match r {
            Ok(p) => scan_result(
                row_views(rows@),
                schema_view(key_schema@),
                limit,
                segment,
                total_segments,
            ) == Ok::<PageView, ErrView>(page_view(p)),
            Err(e) => scan_result(
                row_views(rows@),
                schema_view(key_schema@),
                limit,
                segment,
                total_segments,
            ) == Err::<PageView, ErrView>(e@),
        },
{
    let total: u64 = match total_segments {
        Some(t) => if t < 1 {
            1
        } else {
            t as u64
        },
        None => 1,
    };
    let number: u64 = match segment {
        Some(s) => if s < 0 {
            0
        } else {
            s as u64 % total
        },
        None => 0,
    };
    let items = match read_items(rows, total, number) {
        Ok(l) => l,
        Err(e) => return Err(e),
    };
    let last = if is_full(&items, limit) {
        Some(extract_key(&items[items.len() - 1], key_schema))
    } else {
        None
    };
    Ok((items, last))
}

// ---------------------------------------------------------------------------
// Conditions on the sort key of a local secondary index
// ---------------------------------------------------------------------------

/// A test of an encoded sort key.
pub enum SkTest {
    Compare(CompareOp, Vec<u8>),
    Between(Vec<u8>, Vec<u8>),
    Prefix(Vec<u8>),
}

/// What a test is.
pub enum TestView {
    Compare(CompareOp, Seq<u8>),
    Between(Seq<u8>, Seq<u8>),
    Prefix(Seq<u8>),
}

impl SkTest {
    pub open spec fn view(&self) -> TestView {
        match self {
            SkTest::Compare(op, b) => TestView::Compare(*op, b@),
            SkTest::Between(l, h) => TestView::Between(l@, h@),
            SkTest::Prefix(p) => TestView::Prefix(p@),
        }
    }
}

/// The bytes by which a sort key is compared.
pub open spec fn sort_bytes(v: AttrView) -> Result<Seq<u8>, ErrView> {
    match key_part(v) {
        Ok(p) => Ok(p.1),
        Err(e) => Err(e),
    }
}

pub open spec fn expr_bytes(e: ExprView) -> Result<Seq<u8>, ErrView> {
    match expr_value(e) {
        Ok(v) => sort_bytes(v),
        Err(e) => Err(e),
    }
}

/// The test that a condition stands for.
pub open spec fn sk_test(cond: CondView) -> Result<TestView, ErrView> {
    match cond {
        CondView::Compare { op, value } => match expr_bytes(value) {
            Err(e) => Err(e),
            Ok(b) => if op == CompareOp::Ne {
                Err(ErrView::Validation("Ne not valid in KeyConditionExpression for SK"@))
            } else {
                Ok(TestView::Compare(op, b))
            },
        },
        CondView::Between { low, high } => match expr_bytes(low) {
            Err(e) => Err(e),
            Ok(l) => match expr_bytes(high) {
                Err(e) => Err(e),
                Ok(h) => Ok(TestView::Between(l, h)),
            },
        },
        CondView::BeginsWith { prefix } => match expr_value(prefix) {
            Err(e) => Err(e),
            Ok(AttrView::S(s)) => Ok(TestView::Prefix(encode_utf8(s))),
            Ok(AttrView::B(b)) => Ok(TestView::Prefix(b)),
            Ok(_) => Err(ErrView::Validation("begins_with prefix must be S/B"@)),
        },
    }
}

pub open spec fn compares(op: CompareOp, a: Seq<u8>, b: Seq<u8>) -> bool {
    match op {
        CompareOp::Eq => a == b,
        CompareOp::Ne => a != b,
        CompareOp::Lt => lex_lt(a, b),
        CompareOp::Le => lex_le(a, b),
        CompareOp::Gt => lex_lt(b, a),
        CompareOp::Ge => lex_le(b, a),
    }
}

/// Whether a sort key passes a test.
pub open spec fn passes(t: TestView, v: AttrView) -> Result<bool, ErrView> {
    match t {
        TestView::Compare(op, b) => match sort_bytes(v) {
            Err(e) => Err(e),
            Ok(a) => Ok(compares(op, a, b)),
        },
        TestView::Between(l, h) => match sort_bytes(v) {
            Err(e) => Err(e),
            Ok(a) => Ok(lex_le(l, a) && lex_le(a, h)),
        },
        TestView::Prefix(p) => match v {
            AttrView::S(s) => Ok(p.is_prefix_of(encode_utf8(s))),
            AttrView::B(b) => Ok(p.is_prefix_of(b)),
            _ => Ok(false),
        },
    }
}

/// The items whose sort key passes a test.
pub open spec fn sk_passing(items: Seq<ItemView>, name: Seq<char>, t: TestView) -> Result<
    Seq<ItemView>,
    ErrView,
>
    decreases items.len(),
{
    if items.len() == 0 {
        Ok(Seq::empty())
    } else {
        match sk_passing(items.drop_last(), name, t) {
            Err(e) => Err(e),
            Ok(l) => match lookup(items.last(), name) {
                None => Ok(l),
                Some(v) => match passes(t, v) {
                    Err(e) => Err(e),
                    Ok(keep) => if keep {
                        Ok(l.push(items.last()))
                    } else {
                        Ok(l)
                    },
                },
            },
        }
    }
}

/// The items that meet a condition on a sort key.
pub open spec fn sk_filtered(items: Seq<ItemView>, name: Seq<char>, cond: CondView) -> Result<
    Seq<ItemView>,
    ErrView,
> {
    match sk_test(cond) {
        Err(e) => Err(e),
        Ok(t) => sk_passing(items, name, t),
    }
}

proof fn lemma_sk_passing_error(items: Seq<ItemView>, name: Seq<char>, t: TestView, n: int)
    requires
        0 <= n <= items.len(),
        sk_passing(items.take(n), name, t) is Err,
    ensures
        sk_passing(items, name, t) == sk_passing(items.take(n), name, t),
    decreases items.len(),
{
    if n < items.len() {
        assert(items.drop_last().take(n) =~= items.take(n));
        lemma_sk_passing_error(items.drop_last(), name, t, n);
    } else {
        assert(items.take(n) =~= items);
    }
}

fn encoded_sort_bytes(v: &AttributeValue) -> (r: Result<Vec<u8>, StorageError>)
    ensures
        match r {
            Ok(b) => sort_bytes(v@) == Ok::<Seq<u8>, ErrView>(b@),
            Err(e) => sort_bytes(v@) == Err::<Seq<u8>, ErrView>(e@),
        },
{
    match sk_tag_and_bytes(v) {
        Ok((_, b)) => Ok(b),
        Err(e) => Err(e),
    }
}

fn resolved_bytes(e: &Expr) -> (r: Result<Vec<u8>, StorageError>)
    ensures
        match r {
            Ok(b) => expr_bytes(e@) == Ok::<Seq<u8>, ErrView>(b@),
            Err(x) => expr_bytes(e@) == Err::<Seq<u8>, ErrView>(x@),
        },
{
    match resolve_expr_value(e) {
        Ok(v) => encoded_sort_bytes(v),
        Err(x) => Err(x),
    }
}

fn make_test(cond: &SortKeyCondition) -> (r: Result<SkTest, StorageError>)
    ensures
        match r {
            Ok(t) => sk_test(cond@) == Ok::<TestView, ErrView>(t@),
            Err(e) => sk_test(cond@) == Err::<TestView, ErrView>(e@),
        },
{
    match cond {
        SortKeyCondition::Compare { op, value } => {
            let b = match resolved_bytes(value) {
                Ok(b) => b,
                Err(e) => return Err(e),
            };
            if *op == CompareOp::Ne {
                return Err(invalid("Ne not valid in KeyConditionExpression for SK"));
            }
            Ok(SkTest::Compare(*op, b))
        },
        SortKeyCondition::Between { low, high } => {
            let l = match resolved_bytes(low) {
                Ok(b) => b,
                Err(e) => return Err(e),
            };
            let h = match resolved_bytes(high) {
                Ok(b) => b,
                Err(e) => return Err(e),
            };
            Ok(SkTest::Between(l, h))
        },
        SortKeyCondition::BeginsWith { prefix } => {
            let v = match resolve_expr_value(prefix) {
                Ok(v) => v,
                Err(e) => return Err(e),
            };
            match v {
                AttributeValue::S(s) => Ok(SkTest::Prefix(text_bytes(s.as_str()))),
                AttributeValue::B(b) => Ok(SkTest::Prefix(bytes_copy(b.as_slice()))),
                _ => Err(invalid("begins_with prefix must be S/B")),
            }
        },
    }
}

fn bytes_compare(op: CompareOp, a: &[u8], b: &[u8]) -> (r: bool)
    ensures
        r == compares(op, a@, b@),
{
    proof {
        lex_total(a@, b@);
        lex_asymmetric(a@, b@);
        lex_asymmetric(b@, a@);
    }
    match op {
        CompareOp::Eq => bytes_eq(a, b),
        CompareOp::Ne => !bytes_eq(a, b),
        CompareOp::Lt => bytes_lt(a, b),
        CompareOp::Le => !bytes_lt(b, a),
        CompareOp::Gt => bytes_lt(b, a),
        CompareOp::Ge => !bytes_lt(a, b),
    }
}

fn run_test(t: &SkTest, v: &AttributeValue) -> (r: Result<bool, StorageError>)
    ensures
        match r {
            Ok(b) => passes(t@, v@) == Ok::<bool, ErrView>(b),
            Err(e) => passes(t@, v@) == Err::<bool, ErrView>(e@),
        },
{
    match t {
        SkTest::Compare(op, b) => match encoded_sort_bytes(v) {
            Ok(a) => Ok(bytes_compare(*op, a.as_slice(), b.as_slice())),
            Err(e) => Err(e),
        },
        SkTest::Between(l, h) => match encoded_sort_bytes(v) {
            Ok(a) => Ok(
                bytes_compare(CompareOp::Le, l.as_slice(), a.as_slice()) && bytes_compare(
                    CompareOp::Le,
                    a.as_slice(),
                    h.as_slice(),
                ),
            ),
            Err(e) => Err(e),
        },
        SkTest::Prefix(p) => match v {
            AttributeValue::S(s) => Ok(bytes_starts_with(s.as_str().as_bytes(), p.as_slice())),
            AttributeValue::B(b) => Ok(bytes_starts_with(b.as_slice(), p.as_slice())),
            _ => Ok(false),
        },
    }
}

/// Keeps the items whose sort key `sk_name` meets a condition.
pub fn filter_items_by_sk_condition(items: Vec<Item>, sk_name: &str, cond: &SortKeyCondition) -> (r:
    Result<Vec<Item>, StorageError>)
    ensures
        match r {
            Ok(l) => sk_filtered(item_views(items@), sk_name@, cond@) == Ok::<
                Seq<ItemView>,
                ErrView,
            >(item_views(l@)),
            Err(e) => sk_filtered(item_views(items@), sk_name@, cond@) == Err::<
                Seq<ItemView>,
                ErrView,
            >(e@),
        },
{
    let test = match make_test(cond) {
        Ok(t) => t,
        Err(e) => return Err(e),
    };
    let ghost given = items@;
    let ghost all = item_views(items@);
    let mut left = reversed(items);
    let mut out: Vec<Item> = Vec::new();
    let ghost mut k: int = 0;
    proof {
        assert(given.skip(0) =~= given);
        assert(item_views(out@) =~= Seq::empty());
    }
    while left.len() > 0
        invariant
            0 <= k <= given.len(),
            given == items@,
            all == item_views(given),
            sk_test(cond@) == Ok::<TestView, ErrView>(test@),
            left@ == given.skip(k).reverse(),
            sk_passing(all.take(k), sk_name@, test@) == Ok::<Seq<ItemView>, ErrView>(
                item_views(out@),
            ),
        decreases left.len(),
    {
        proof {
            assert(k < given.len());
            lemma_next(given, k);
            assert(all.take(k + 1).drop_last() =~= all.take(k));
            assert(all.take(k + 1).last() == given[k]@);
        }
        let item = left.pop().unwrap();
        let keep = match item.get(sk_name) {
            None => false,
            Some(v) => match run_test(&test, v) {
                Ok(b) => b,
                Err(e) => {
                    proof {
                        lemma_sk_passing_error(all, sk_name@, test@, k + 1);
                    }
                    return Err(e);
                },
            },
        };
        if keep {
            let ghost before = item_views(out@);
            let ghost added = item@;
            out.push(item);
            assert(item_views(out@) =~= before.push(added));
        }
        proof {
            k = k + 1;
        }
    }
    assert(all.take(k) =~= all);
    Ok(out)
}

// ---------------------------------------------------------------------------
// Pages of a local secondary index
// ---------------------------------------------------------------------------

/// The items that have the attribute `name`.
pub open spec fn having(items: Seq<ItemView>, name: Seq<char>) -> Seq<ItemView>
    decreases items.len(),
{
    if items.len() == 0 {
        Seq::empty()
    } else if lookup(items.last(), name) is Some {
        having(items.drop_last(), name).push(items.last())
    } else {
        having(items.drop_last(), name)
    }
}

/// The bytes by which an item is ordered.
pub open spec fn order_bytes(item: ItemView, name: Seq<char>) -> Seq<u8> {
    match lookup(item, name) {
        Some(v) => match sort_bytes(v) {
            Ok(b) => b,
            Err(_) => Seq::empty(),
        },
        None => Seq::empty(),
    }
}

/// `l` with `x` behind the last item that is not after it.
pub open spec fn order_insert(l: Seq<ItemView>, x: ItemView, name: Seq<char>) -> Seq<ItemView>
    decreases l.len(),
{
    if l.len() == 0 || !lex_lt(order_bytes(x, name), order_bytes(l.last(), name)) {
        l.push(x)
    } else {
        order_insert(l.drop_last(), x, name).push(l.last())
    }
}

/// The items in order of the attribute `name`; those that are level stay as
/// they were.
pub open spec fn ordered(items: Seq<ItemView>, name: Seq<char>) -> Seq<ItemView>
    decreases items.len(),
{
    if items.len() == 0 {
        Seq::empty()
    } else {
        order_insert(ordered(items.drop_last(), name), items.last(), name)
    }
}

/// Whether items are in order of the attribute `name`.
pub open spec fn in_order(l: Seq<ItemView>, name: Seq<char>) -> bool {
    forall|i: int, j: int|
        0 <= i < j < l.len() ==> !lex_lt(
            order_bytes(#[trigger] l[j], name),
            order_bytes(#[trigger] l[i], name),
        )
}

proof fn lemma_order_insert(l: Seq<ItemView>, x: ItemView, name: Seq<char>)
    requires
        in_order(l, name),
    ensures
        in_order(order_insert(l, x, name), name),
        order_insert(l, x, name).to_multiset() =~= l.to_multiset().insert(x),
    decreases l.len(),
{
    broadcast use vstd::seq_lib::group_to_multiset_ensures;

    let r = order_insert(l, x, name);
    let b = order_bytes(x, name);
    if l.len() == 0 || !lex_lt(b, order_bytes(l.last(), name)) {
        assert forall|i: int, j: int| 0 <= i < j < r.len() implies !lex_lt(
            order_bytes(#[trigger] r[j], name),
            order_bytes(#[trigger] r[i], name),
        ) by {
            if j < l.len() {
                assert(r[i] == l[i] && r[j] == l[j]);
            } else {
                assert(r[i] == l[i]);
                let z = order_bytes(l.last(), name);
                if i < l.len() - 1 {
                    assert(!lex_lt(order_bytes(l[l.len() - 1], name), order_bytes(l[i], name)));
                }
                if lex_lt(b, order_bytes(l[i], name)) {
                    lex_total(order_bytes(l[i], name), z);
                    if lex_lt(order_bytes(l[i], name), z) {
                        lex_transitive(b, order_bytes(l[i], name), z);
                    }
                    assert(false);
                }
            }
        }
    } else {
        let d = l.drop_last();
        let q = order_insert(d, x, name);
        assert forall|i: int, j: int| 0 <= i < j < d.len() implies !lex_lt(
            order_bytes(#[trigger] d[j], name),
            order_bytes(#[trigger] d[i], name),
        ) by {
            assert(d[i] == l[i] && d[j] == l[j]);
        }
        lemma_order_insert(d, x, name);
        let z = order_bytes(l.last(), name);
        assert forall|i: int, j: int| 0 <= i < j < r.len() implies !lex_lt(
            order_bytes(#[trigger] r[j], name),
            order_bytes(#[trigger] r[i], name),
        ) by {
            if j < q.len() {
                assert(r[i] == q[i] && r[j] == q[j]);
            } else {
                assert(r[i] == q[i]);
                assert(q.to_multiset().count(q[i]) > 0) by {
                    assert(q.contains(q[i]));
                }
                assert(d.to_multiset().insert(x).count(q[i]) > 0);
                if q[i] == x {
                    lex_asymmetric(b, z);
                } else {
                    assert(d.to_multiset().count(q[i]) > 0);
                    assert(d.contains(q[i]));
                    let k = choose|k: int| 0 <= k < d.len() && d[k] == q[i];
                    assert(l[k] == q[i]);
                    assert(!lex_lt(order_bytes(l[l.len() - 1], name), order_bytes(l[k], name)));
                }
            }
        }
        assert(l =~= d.push(l.last()));
        assert(l.to_multiset() =~= d.to_multiset().insert(l.last()));
        assert(r.to_multiset() =~= q.to_multiset().insert(l.last()));
    }
}

/// Ordering items puts them in order and neither adds nor drops any.
pub proof fn ordering(items: Seq<ItemView>, name: Seq<char>)
    ensures
        in_order(ordered(items, name), name),
        ordered(items, name).to_multiset() == items.to_multiset(),
    decreases items.len(),
{
    broadcast use vstd::seq_lib::group_to_multiset_ensures;

    if items.len() > 0 {
        let d = items.drop_last();
        ordering(d, name);
        lemma_order_insert(ordered(d, name), items.last(), name);
        assert(items =~= d.push(items.last()));
        assert(items.to_multiset() =~= d.to_multiset().insert(items.last()));
    } else {
        assert(ordered(items, name) =~= items);
    }
}

/// Whether an item is the one that a page ended with.
pub open spec fn same_place(
    item: ItemView,
    key: ItemView,
    name: Seq<char>,
    base_sk: Option<Seq<char>>,
) -> bool {
    lookup(item, name) == lookup(key, name) && match base_sk {
        Some(n) => lookup(item, n) == lookup(key, n),
        None => true,
    }
}

/// Where the first item that a page ended with stands, or the number of items.
pub open spec fn place_of(
    items: Seq<ItemView>,
    key: ItemView,
    name: Seq<char>,
    base_sk: Option<Seq<char>>,
) -> int
    decreases items.len(),
{
    if items.len() == 0 {
        0
    } else if same_place(items[0], key, name, base_sk) {
        0
    } else {
        1 + place_of(items.skip(1), key, name, base_sk)
    }
}

/// The items behind the one that the page before ended with.
pub open spec fn behind(
    items: Seq<ItemView>,
    key: Option<ItemView>,
    name: Seq<char>,
    base_sk: Option<Seq<char>>,
) -> Seq<ItemView> {
    match key {
        None => items,
        Some(k) => {
            let p = place_of(items, k, name, base_sk);
            if p < items.len() {
                items.skip(p + 1)
            } else {
                items
            }
        },
    }
}

/// What tells where a page ended: the key of the table and that of the index.
pub open spec fn lsi_key(item: ItemView, base: SchemaView, name: Seq<char>) -> ItemView {
    match lookup(item, name) {
        Some(v) => item_put(key_attributes(item, base), name, v),
        None => key_attributes(item, base),
    }
}

/// The first items up to a limit, and where they ended if the limit was
/// reached.
pub open spec fn limited(
    items: Seq<ItemView>,
    limit: Option<i64>,
    base: SchemaView,
    name: Seq<char>,
) -> PageView {
    match limit {
        Some(l) => if l > 0 && items.len() >= l {
            (items.take(l as int), Some(lsi_key(items[l - 1], base, name)))
        } else {
            (items, None)
        },
        None => (items, None),
    }
}

pub open spec fn directed(items: Seq<ItemView>, forward: bool) -> Seq<ItemView> {
    if forward {
        items
    } else {
        items.reverse()
    }
}

/// The items of a local secondary index that meet the condition, in the order
/// in which they are asked for.
pub open spec fn lsi_items(
    rows: Seq<RowView>,
    name: Seq<char>,
    cond: Option<CondView>,
    forward: bool,
) -> Result<Seq<ItemView>, ErrView> {
    match items_in(rows, 1, 0) {
        Err(e) => Err(e),
        Ok(l) => {
            let sorted = ordered(having(l, name), name);
            match cond {
                None => Ok(directed(sorted, forward)),
                Some(c) => match sk_filtered(sorted, name, c) {
                    Err(e) => Err(e),
                    Ok(f) => Ok(directed(f, forward)),
                },
            }
        },
    }
}

/// The page of a query of a local secondary index.
pub open spec fn lsi_result(
    rows: Seq<RowView>,
    base: SchemaView,
    name: Seq<char>,
    cond: Option<CondView>,
    forward: bool,
    limit: Option<i64>,
    start: Option<ItemView>,
) -> Result<PageView, ErrView> {
    match lsi_items(rows, name, cond, forward) {
        Err(e) => Err(e),
        Ok(l) => Ok(
            limited(behind(l, start, name, key_name(base, KeyType::Range)), limit, base, name),
        ),
    }
}

/// Keeps the items that have the attribute `name`.
pub fn items_having(items: Vec<Item>, name: &str) -> (r: Vec<Item>)
    ensures
        item_views(r@) == having(item_views(items@), name@),
{
    let ghost given = items@;
    let ghost all = item_views(given);
    let mut left = reversed(items);
    let mut out: Vec<Item> = Vec::new();
    let ghost mut k: int = 0;
    proof {
        assert(given.skip(0) =~= given);
        assert(item_views(out@) =~= Seq::empty());
    }
    while left.len() > 0
        invariant
            0 <= k <= given.len(),
            all == item_views(given),
            left@ == given.skip(k).reverse(),
            item_views(out@) == having(all.take(k), name@),
        decreases left.len(),
    {
        proof {
            lemma_next(given, k);
            assert(all.take(k + 1).drop_last() =~= all.take(k));
            assert(all.take(k + 1).last() == given[k]@);
        }
        let item = left.pop().unwrap();
        if item.contains_key(name) {
            let ghost before = item_views(out@);
            let ghost added = item@;
            out.push(item);
            assert(item_views(out@) =~= before.push(added));
        }
        proof {
            k = k + 1;
        }
    }
    assert(all.take(k) =~= all);
    out
}

fn item_order_bytes(item: &Item, name: &str) -> (r: Vec<u8>)
    ensures
        r@ == order_bytes(item@, name@),
{
    match item.get(name) {
        Some(v) => match encoded_sort_bytes(v) {
            Ok(b) => b,
            Err(_) => Vec::new(),
        },
        None => Vec::new(),
    }
}

/// Where `order_insert` puts the new item.
proof fn lemma_order_insert_at(l: Seq<ItemView>, x: ItemView, name: Seq<char>, i: int)
    requires
        0 <= i <= l.len(),
        forall|j: int| i <= j < l.len() ==> lex_lt(
            order_bytes(x, name),
            order_bytes(#[trigger] l[j], name),
        ),
        i > 0 ==> !lex_lt(order_bytes(x, name), order_bytes(l[i - 1], name)),
    ensures
        order_insert(l, x, name) == l.insert(i, x),
    decreases l.len(),
{
    if i == l.len() {
        if l.len() > 0 {
            assert(l[i - 1] == l.last());
        }
        assert(l.insert(i, x) =~= l.push(x));
    } else {
        assert(lex_lt(order_bytes(x, name), order_bytes(l[l.len() - 1], name)));
        let d = l.drop_last();
        assert forall|j: int| i <= j < d.len() implies lex_lt(
            order_bytes(x, name),
            order_bytes(#[trigger] d[j], name),
        ) by {
            assert(d[j] == l[j]);
        }
        lemma_order_insert_at(d, x, name, i);
        assert(l.insert(i, x) =~= d.insert(i, x).push(l.last()));
    }
}

fn sort_items(items: Vec<Item>, name: &str) -> (r: Vec<Item>)
    ensures
        item_views(r@) == ordered(item_views(items@), name@),
{
    let ghost given = items@;
    let ghost all = item_views(given);
    let mut left = reversed(items);
    let mut out: Vec<Item> = Vec::new();
    let ghost mut k: int = 0;
    proof {
        assert(given.skip(0) =~= given);
        assert(item_views(out@) =~= Seq::empty());
    }
    while left.len() > 0
        invariant
            0 <= k <= given.len(),
            all == item_views(given),
            left@ == given.skip(k).reverse(),
            item_views(out@) == ordered(all.take(k), name@),
        decreases left.len(),
    {
        proof {
            lemma_next(given, k);
            assert(all.take(k + 1).drop_last() =~= all.take(k));
            assert(all.take(k + 1).last() == given[k]@);
        }
        let item = left.pop().unwrap();
        let b = item_order_bytes(&item, name);
        let ghost before = item_views(out@);
        let mut i: usize = out.len();
        while i > 0 && bytes_lt(
            b.as_slice(),
            item_order_bytes(&out[i - 1], name).as_slice(),
        )
            invariant
                i <= out.len(),
                before == item_views(out@),
                b@ == order_bytes(item@, name@),
                forall|j: int| i <= j < before.len() ==> lex_lt(
                    b@,
                    order_bytes(#[trigger] before[j], name@),
                ),
            decreases i,
        {
            assert(before[i - 1] == out@[i - 1]@);
            i = i - 1;
        }
        proof {
            if i > 0 {
                assert(before[i - 1] == out@[i - 1]@);
            }
            lemma_order_insert_at(before, item@, name@, i as int);
        }
        let ghost added = item@;
        out.insert(i, item);
        proof {
            assert(item_views(out@) =~= before.insert(i as int, added));
            k = k + 1;
        }
    }
    assert(all.take(k) =~= all);
    out
}

fn at_same_place(item: &Item, key: &Item, name: &str, base_sk: Option<&String>) -> (r: bool)
    ensures
        r == same_place(
            item@,
            key@,
            name@,
            match base_sk {
                Some(n) => Some(n@),
                None => None,
            },
        ),
{
    opt_attr_eq(item.get(name), key.get(name)) && match base_sk {
        Some(n) => opt_attr_eq(item.get(n.as_str()), key.get(n.as_str())),
        None => true,
    }
}

pub proof fn lemma_place_of(
    items: Seq<ItemView>,
    key: ItemView,
    name: Seq<char>,
    base_sk: Option<Seq<char>>,
    i: int,
)
    requires
        0 <= i <= items.len(),
        forall|j: int| 0 <= j < i ==> !same_place(#[trigger] items[j], key, name, base_sk),
        i < items.len() ==> same_place(items[i], key, name, base_sk),
    ensures
        place_of(items, key, name, base_sk) == i,
    decreases items.len(),
{
    if items.len() > 0 {
        if i > 0 {
            assert(!same_place(items[0], key, name, base_sk));
            let s = items.skip(1);
            assert forall|j: int| 0 <= j < i - 1 implies !same_place(
                #[trigger] s[j],
                key,
                name,
                base_sk,
            ) by {
                assert(s[j] == items[j + 1]);
            }
            lemma_place_of(s, key, name, base_sk, i - 1);
        }
    }
}

/// Drops the first `n` items.
fn drop_items(items: Vec<Item>, n: usize) -> (r: Vec<Item>)
    requires
        n <= items@.len(),
    ensures
        r@ == items@.skip(n as int),
{
    let ghost given = items@;
    let mut left = reversed(items);
    let ghost len = left@.len();
    let mut k: usize = 0;
    assert(given.skip(0) =~= given);
    while k < n
        invariant
            k <= n <= given.len(),
            left@ == given.skip(k as int).reverse(),
        decreases n - k,
    {
        proof {
            lemma_next(given, k as int);
        }
        let _ = left.pop();
        k = k + 1;
    }
    let r = reversed(left);
    assert(r@ =~= given.skip(n as int));
    r
}

/// Whether a result holds no item.
pub open spec fn nothing_left(r: Result<PageView, ErrView>) -> bool {
    r matches Ok((items, _)) ==> items.len() == 0
}

/// Turns the rows that came back for a query of a local secondary index with
/// the sort key `lsi_sk_name` into a page. A page of no items has no last item
/// to go on from, so that limit is only for a result without items.
pub fn lsi_page(
    rows: &[Row],
    base_key_schema: &[KeySchemaElement],
    lsi_sk_name: &str,
    sk_condition: Option<&SortKeyCondition>,
    forward: bool,
    limit: Option<i64>,
    exclusive_start_key: Option<&Item>,
) -> (r: Result<(Vec<Item>, Option<Item>), StorageError>)
    requires
        limit == Some(0i64) ==> nothing_left(
            lsi_result(
                row_views(rows@),
                schema_view(base_key_schema@),
                lsi_sk_name@,
                opt_cond(sk_condition),
                forward,
                None,
                opt_ref_view(exclusive_start_key),
            ),
        ),
    ensures
        match r {
            Ok(p) => lsi_result(
                row_views(rows@),
                schema_view(base_key_schema@),
                lsi_sk_name@,
                opt_cond(sk_condition),
                forward,
                limit,
                opt_ref_view(exclusive_start_key),
            ) == Ok::<PageView, ErrView>(page_view(p)),
            Err(e) => lsi_result(
                row_views(rows@),
                schema_view(base_key_schema@),
                lsi_sk_name@,
                opt_cond(sk_condition),
                forward,
                limit,
                opt_ref_view(exclusive_start_key),
            ) == Err::<PageView, ErrView>(e@),
        },
{
    let all = match read_items(rows, 1, 0) {
        Ok(l) => l,
        Err(e) => return Err(e),
    };
    let sorted = sort_items(items_having(all, lsi_sk_name), lsi_sk_name);
    let kept = match sk_condition {
        None => sorted,
        Some(c) => match filter_items_by_sk_condition(sorted, lsi_sk_name, c) {
            Ok(l) => l,
            Err(e) => return Err(e),
        },
    };
    let ghost kept_views = item_views(kept@);
    let directed_items = if forward {
        kept
    } else {
        let r = reversed(kept);
        assert(item_views(r@) =~= kept_views.reverse());
        r
    };
    let ghost found = item_views(directed_items@);
    assert(lsi_items(row_views(rows@), lsi_sk_name@, opt_cond(sk_condition), forward) == Ok::<
        Seq<ItemView>,
        ErrView,
    >(found));
    let items = match exclusive_start_key {
        None => directed_items,
        Some(key) => skip_past(directed_items, key, lsi_sk_name, base_key_schema),
    };
    Ok(limit_items(items, limit, base_key_schema, lsi_sk_name))
}

fn skip_past(
    items: Vec<Item>,
    key: &Item,
    lsi_sk_name: &str,
    base_key_schema: &[KeySchemaElement],
) -> (r: Vec<Item>)
    ensures
        item_views(r@) == behind(
            item_views(items@),
            Some(key@),
            lsi_sk_name@,
            key_name(schema_view(base_key_schema@), KeyType::Range),
        ),
{
    let ghost all = item_views(items@);
    let base_sk = find_key(base_key_schema, KeyType::Range);
    let ghost base = key_name(schema_view(base_key_schema@), KeyType::Range);
    let mut i: usize = 0;
    while i < items.len() && !at_same_place(&items[i], key, lsi_sk_name, base_sk)
        invariant
            i <= items.len(),
            all == item_views(items@),
            base == match base_sk {
                Some(n) => Some(n@),
                None => None,
            },
            forall|j: int| 0 <= j < i ==> !same_place(#[trigger] all[j], key@, lsi_sk_name@, base),
        decreases items.len() - i,
    {
        assert(all[i as int] == items@[i as int]@);
        i = i + 1;
    }
    proof {
        if i < items.len() {
            assert(all[i as int] == items@[i as int]@);
        }
        lemma_place_of(all, key@, lsi_sk_name@, base, i as int);
    }
    if i < items.len() {
        let r = drop_items(items, i + 1);
        assert(item_views(r@) =~= all.skip(i + 1));
        r
    } else {
        items
    }
}

fn limit_items(
    items: Vec<Item>,
    limit: Option<i64>,
    base_key_schema: &[KeySchemaElement],
    lsi_sk_name: &str,
) -> (r: (Vec<Item>, Option<Item>))
    ensures
        page_view(r) == limited(
            item_views(items@),
            limit,
            schema_view(base_key_schema@),
            lsi_sk_name@,
        ),
{
    let ghost all = item_views(items@);
    let l: i64 = match limit {
        Some(l) => l,
        None => return (items, None),
    };
    if l > 0 && items.len() as i128 >= l as i128 {
        let n: usize = l as usize;
        let last = &items[n - 1];
        assert(all[n - 1] == last@);
        let mut key = extract_key(last, base_key_schema);
        if let Some(v) = last.get(lsi_sk_name) {
            key.insert(text(lsi_sk_name), copy_attr(v));
        }
        let mut items = items;
        items.truncate(n);
        assert(item_views(items@) =~= all.take(l as int));
        (items, Some(key))
    } else {
        (items, None)
    }
}

/// The pages of a local secondary index follow each other: with the key that a
/// page ended with, the next one begins behind it, provided that no two items
/// have the same place.
pub proof fn lsi_pages_follow(
    items: Seq<ItemView>,
    limit: i64,
    base: SchemaView,
    name: Seq<char>,
)
    requires
        0 < limit <= items.len(),
        forall|i: int| 0 <= i < items.len() ==> crate::value::item_sorted(#[trigger] items[i]),
        forall|i: int, j: int|
            0 <= i < j < items.len() ==> !same_place(
                #[trigger] items[i],
                #[trigger] items[j],
                name,
                key_name(base, KeyType::Range),
            ),
    ensures
        ({
            let page = limited(items, Some(limit), base, name);
            &&& page.0 == items.take(limit as int)
            &&& page.1 is Some
            &&& behind(items, page.1, name, key_name(base, KeyType::Range)) == items.skip(
                limit as int,
            )
        }),
{
    let k = limit - 1;
    let last = items[k];
    let key = lsi_key(last, base, name);
    let sk = key_name(base, KeyType::Range);
    lemma_lsi_key(last, base, name, name);
    if let Some(n) = sk {
        lemma_key_name_found(base, KeyType::Range, n);
        lemma_lsi_key(last, base, name, n);
    }
    assert(lookup(key, name) == lookup(last, name));
    assert(sk matches Some(n) ==> lookup(key, n) == lookup(last, n));
    assert forall|j: int| 0 <= j < k implies !same_place(#[trigger] items[j], key, name, sk) by {
        assert(!same_place(items[j], items[k], name, sk));
    }
    lemma_place_of(items, key, name, sk, k);
}

pub proof fn lemma_key_name_found(base: SchemaView, part: KeyType, n: Seq<char>)
    requires
        key_name(base, part) == Some(n),
    ensures
        exists|i: int| 0 <= i < base.len() && (#[trigger] base[i]).0 == n,
    decreases base.len(),
{
    if base[0].1 != part {
        let rest = base.skip(1);
        lemma_key_name_found(rest, part, n);
        let i = choose|i: int| 0 <= i < rest.len() && (#[trigger] rest[i]).0 == n;
        assert(base[i + 1].0 == n);
    }
}

pub proof fn lemma_lsi_key(item: ItemView, base: SchemaView, name: Seq<char>, other: Seq<char>)
    requires
        crate::value::item_sorted(item),
        other == name || exists|i: int| 0 <= i < base.len() && (#[trigger] base[i]).0 == other,
    ensures
        lookup(lsi_key(item, base, name), other) == lookup(item, other),
{
    crate::value::key_attributes_lookup(item, base, other);
    if let Some(v) = lookup(item, name) {
        crate::value::item_put_lookup(key_attributes(item, base), name, v, other);
    }
}

// ---------------------------------------------------------------------------
// Filters
// ---------------------------------------------------------------------------

/// The items for which a filter held.
pub open spec fn filtered(items: Seq<ItemView>, results: Seq<Result<bool, String>>) -> Result<
    Seq<ItemView>,
    ErrView,
>
    decreases items.len(),
{
    if items.len() == 0 {
        Ok(Seq::empty())
    } else {
        match filtered(items.drop_last(), results) {
            Err(e) => Err(e),
            Ok(l) => match results[items.len() - 1] {
                Ok(keep) => if keep {
                    Ok(l.push(items.last()))
                } else {
                    Ok(l)
                },
                Err(m) => Err(ErrView::Validation("filter expression evaluation: "@ + m@)),
            },
        }
    }
}

proof fn lemma_filtered_error(items: Seq<ItemView>, results: Seq<Result<bool, String>>, n: int)
    requires
        0 <= n <= items.len(),
        filtered(items.take(n), results) is Err,
    ensures
        filtered(items, results) == filtered(items.take(n), results),
    decreases items.len(),
{
    if n < items.len() {
        assert(items.drop_last().take(n) =~= items.take(n));
        lemma_filtered_error(items.drop_last(), results, n);
    } else {
        assert(items.take(n) =~= items);
    }
}

/// Keeps the items for which a filter held. `results` says for each item what
/// evaluating the filter on it gave.
pub fn apply_filter(items: Vec<Item>, results: &[Result<bool, String>]) -> (r: Result<
    Vec<Item>,
    StorageError,
>)
    requires
        results@.len() == items@.len(),
    ensures
        match r {
            Ok(l) => filtered(item_views(items@), results@) == Ok::<Seq<ItemView>, ErrView>(
                item_views(l@),
            ),
            Err(e) => filtered(item_views(items@), results@) == Err::<Seq<ItemView>, ErrView>(e@),
        },
{
    let ghost given = items@;
    let ghost all = item_views(given);
    let mut left = reversed(items);
    let mut out: Vec<Item> = Vec::new();
    let mut k: usize = 0;
    proof {
        assert(given.skip(0) =~= given);
        assert(item_views(out@) =~= Seq::empty());
    }
    while left.len() > 0
        invariant
            0 <= k <= given.len(),
            given == items@,
            results@.len() == given.len(),
            all == item_views(given),
            left@ == given.skip(k as int).reverse(),
            filtered(all.take(k as int), results@) == Ok::<Seq<ItemView>, ErrView>(
                item_views(out@),
            ),
        decreases left.len(),
    {
        proof {
            lemma_next(given, k as int);
            assert(all.take(k + 1).drop_last() =~= all.take(k as int));
            assert(all.take(k + 1).last() == given[k as int]@);
        }
        let item = left.pop().unwrap();
        match &results[k] {
            Ok(keep) => {
                if *keep {
                    let ghost before = item_views(out@);
                    let ghost added = item@;
                    out.push(item);
                    assert(item_views(out@) =~= before.push(added));
                }
            },
            Err(m) => {
                proof {
                    lemma_filtered_error(all, results@, k + 1);
                }
                return Err(
                    invalid(cat2("filter expression evaluation: ", m.as_str()).as_str()),
                );
            },
        }
        k = k + 1;
    }
    assert(all.take(k as int) =~= all);
    Ok(out)
}

// ---------------------------------------------------------------------------
// What the ranges enclose
// ---------------------------------------------------------------------------

/// The least key behind a key is that key with a zero byte.
pub proof fn lemma_behind_key(k: Seq<u8>, key: Seq<u8>)
    ensures
        lex_le(k.push(0), key) <==> lex_lt(k, key),
{
    let z = k.push(0);
    assert(lex_lt_at(k, z, k.len() as int));
    if lex_lt(z, key) {
        lex_transitive(k, z, key);
    }
    if lex_lt(k, key) {
        let i = lex_witness(k, key);
        if i < k.len() {
            assert forall|j: int| 0 <= j < i implies z[j] == key[j] by {
                assert(k[j] == key[j]);
            }
            assert(lex_lt_at(z, key, i));
        } else if key[i] > 0 {
            assert(lex_lt_at(z, key, i));
        } else if key.len() == i + 1 {
            assert(z =~= key);
        } else {
            assert(lex_lt_at(z, key, i + 1));
        }
    }
}

/// A forward query that goes on behind a row sees exactly the rows of its range
/// that are behind it.
pub proof fn resumes_forward(bounds: (Seq<u8>, Seq<u8>, bool), k: Seq<u8>, key: Seq<u8>)
    ensures
        in_range(key, resumed(bounds, true, Some(k))) <==> in_range(
            key,
            resumed(bounds, true, None),
        ) && lex_lt(k, key),
{
    let z = k.push(0);
    lemma_behind_key(k, key);
    lex_total(z, bounds.0);
    if lex_lt(bounds.0, z) {
        if lex_lt(z, key) {
            lex_transitive(bounds.0, z, key);
        }
    } else {
        if lex_lt(bounds.0, key) && lex_lt(z, bounds.0) {
            lex_transitive(z, bounds.0, key);
        }
    }
}

/// A backward query that goes on before a row of its range sees exactly the
/// rows of its range that are before it.
pub proof fn resumes_backward(bounds: (Seq<u8>, Seq<u8>, bool), k: Seq<u8>, key: Seq<u8>)
    requires
        in_range(k, resumed(bounds, false, None)),
    ensures
        in_range(key, resumed(bounds, false, Some(k))) <==> in_range(
            key,
            resumed(bounds, false, None),
        ) && lex_lt(key, k),
{
    if lex_lt(key, k) && k != bounds.1 {
        lex_transitive(key, k, bounds.1);
    }
}

/// Where neither of two byte strings is the beginning of the other, a trailer
/// only makes the one that it follows greater than itself.
proof fn lemma_trailer(a: Seq<u8>, b: Seq<u8>)
    requires
        a.is_prefix_of(b) ==> a == b,
        b.is_prefix_of(a) ==> a == b,
    ensures
        lex_le(a, b + upper_trailer()) <==> lex_le(a, b),
        lex_le(b + upper_trailer(), a) <==> lex_lt(b, a),
{
    let t = upper_trailer();
    let e = b + t;
    let none = Seq::<u8>::empty();
    lex_total(a, b);
    if a == b {
        assert(lex_lt_at(a, e, a.len() as int));
        lex_asymmetric(a, e);
    } else if lex_lt(a, b) {
        let i = lex_witness(a, b);
        if i == a.len() {
            assert(b.subrange(0, i) =~= a);
            assert(a.is_prefix_of(b));
        }
        lex_decided(a, b, none, t, i);
        assert(a + none =~= a);
        lex_asymmetric(a, e);
        lex_asymmetric(a, b);
    } else {
        let i = lex_witness(b, a);
        if i == b.len() {
            assert(a.subrange(0, i) =~= b);
            assert(b.is_prefix_of(a));
        }
        lex_decided(b, a, t, none, i);
        assert(a + none =~= a);
        lex_asymmetric(e, a);
        lex_asymmetric(b, a);
    }
}

/// Whether a number meets a comparison.
pub open spec fn number_compares(op: CompareOp, a: Decimal, b: Decimal) -> bool {
    match op {
        CompareOp::Eq => number_eq(a, b),
        CompareOp::Ne => !number_eq(a, b),
        CompareOp::Lt => number_lt(a, b),
        CompareOp::Le => number_lt(a, b) || number_eq(a, b),
        CompareOp::Gt => number_lt(b, a),
        CompareOp::Ge => number_lt(b, a) || number_eq(b, a),
    }
}

/// The range of a comparison with a number encloses, of the rows of the
/// partition with a number as sort key, exactly those whose number meets it.
pub proof fn number_range(start: Seq<u8>, op: CompareOp, value: Seq<char>, sk: Seq<char>)
    requires
        op != CompareOp::Ne,
        key_part(AttrView::N(value)) is Ok,
        key_part(AttrView::N(sk)) is Ok,
    ensures
        ({
            let cond = CondView::Compare {
                op,
                value: ExprView::Placeholder(Ok(AttrView::N(value))),
            };
            let b = bounds_in(start, Some(cond));
            let key = start + undelimited(key_part(AttrView::N(sk))->Ok_0);
            &&& b is Ok
            &&& in_range(key, resumed(b->Ok_0, true, None)) <==> number_compares(
                op,
                parse_number(sk)->Ok_0,
                parse_number(value)->Ok_0,
            )
        }),
{
    let pa = key_part(AttrView::N(sk))->Ok_0;
    let pb = key_part(AttrView::N(value))->Ok_0;
    let a = pa.1;
    let b = pb.1;
    let t = upper_trailer();
    let head = start + seq![pa.0];
    let key = start + undelimited(pa);
    let exact = start + undelimited(pb);
    assert(key =~= head + a);
    assert(exact =~= head + b);
    assert(exact + t =~= head + (b + t));
    if a.is_prefix_of(b) {
        encoding_prefix_free(sk, value);
    }
    if b.is_prefix_of(a) {
        encoding_prefix_free(value, sk);
    }
    encoding_preserves_order(sk, value);
    encoding_preserves_order(value, sk);
    lemma_trailer(a, b);
    lex_common_prefix(head, a, b);
    lex_common_prefix(head, b, a);
    lex_common_prefix(head, a, b + t);
    lex_common_prefix(head, b + t, a);
    lemma_concat_equal(head, a, b);
    lemma_concat_equal(head, a, b + t);
    lex_total(a, b);
    lex_asymmetric(a, b);
    lex_asymmetric(b, a);
    // The key lies within the partition.
    assert(lex_lt_at(start, key, start.len() as int));
    let none = Seq::<u8>::empty();
    let end = start + t;
    assert(key[start.len() as int] == pa.0);
    assert(end[start.len() as int] == 0xFF);
    assert forall|j: int| 0 <= j < start.len() implies key[j] == end[j] by {}
    assert(lex_lt_at(key, end, start.len() as int));
}

proof fn lemma_concat_equal(p: Seq<u8>, a: Seq<u8>, b: Seq<u8>)
    ensures
        p + a == p + b <==> a == b,
{
    if p + a == p + b {
        assert((p + a).len() == p.len() + a.len());
        assert((p + b).len() == p.len() + b.len());
        assert forall|i: int| 0 <= i < a.len() implies a[i] == b[i] by {
            assert((p + a)[p.len() + i] == (p + b)[p.len() + i]);
        }
        assert(a =~= b);
    }
}

proof fn lemma_scalar_bytes(c: u32)
    requires
        is_scalar(c),
    ensures
        forall|i: int| 0 <= i < encode_scalar(c).len() ==> #[trigger] encode_scalar(c)[i] < 0xFF,
{
    assert(((c & 0x7F) as u8) < 0xFFu8) by (bit_vector);
    assert((0xC0u8 | ((c >> 6) & 0x1F) as u8) < 0xFF) by (bit_vector);
    assert((0xE0u8 | ((c >> 12) & 0x0F) as u8) < 0xFF) by (bit_vector);
    assert((0xF0u8 | ((c >> 18) & 0x7) as u8) < 0xFF) by (bit_vector);
    assert((0x80u8 | (c & 0x3F) as u8) < 0xFF) by (bit_vector);
    assert((0x80u8 | ((c >> 6) & 0x3F) as u8) < 0xFF) by (bit_vector);
    assert((0x80u8 | ((c >> 12) & 0x3F) as u8) < 0xFF) by (bit_vector);
}

/// No byte of a text is 0xFF.
pub proof fn lemma_text_bytes(s: Seq<char>)
    ensures
        forall|i: int| 0 <= i < encode_utf8(s).len() ==> #[trigger] encode_utf8(s)[i] < 0xFF,
    decreases s.len(),
{
    if s.len() > 0 {
        let first = encode_scalar(s[0] as u32);
        let rest = encode_utf8(s.drop_first());
        char_is_scalar(s[0]);
        lemma_scalar_bytes(s[0] as u32);
        lemma_text_bytes(s.drop_first());
        assert forall|i: int| 0 <= i < encode_utf8(s).len() implies #[trigger] encode_utf8(s)[i]
            < 0xFF by {
            if i < first.len() {
                assert(encode_utf8(s)[i] == first[i]);
            } else {
                assert(encode_utf8(s)[i] == rest[i - first.len()]);
            }
        }
    }
}

/// The range of `begins_with` encloses, of the rows of the partition with text
/// as sort key, exactly those whose text begins with the given one.
pub proof fn prefix_range_of_text(start: Seq<u8>, prefix: Seq<char>, sk: Seq<char>)
    ensures
        ({
            let cond = CondView::BeginsWith {
                prefix: ExprView::Placeholder(Ok(AttrView::S(prefix))),
            };
            let b = bounds_in(start, Some(cond));
            let key = start + undelimited(key_part(AttrView::S(sk))->Ok_0);
            &&& b is Ok
            &&& in_range(key, resumed(b->Ok_0, true, None)) <==> encode_utf8(prefix).is_prefix_of(
                encode_utf8(sk),
            )
        }),
{
    let a = encode_utf8(sk);
    let p = encode_utf8(prefix);
    let bound = start + undelimited((TAG_S, p));
    let key = start + undelimited((TAG_S, a));
    let head = start + seq![TAG_S];
    assert(bound =~= head + p);
    assert(key =~= head + a);
    prefix_range(bound, key);
    lemma_text_bytes(sk);
    if bound.is_prefix_of(key) {
        let rest = key.skip(bound.len() as int);
        if rest.len() > 0 {
            assert(rest[0] == a[p.len() as int]);
            assert(lex_lt_at(rest, upper_trailer(), 0));
        } else {
            assert(lex_lt_at(rest, upper_trailer(), 0));
        }
        assert forall|i: int| 0 <= i < p.len() implies p[i] == a[i] by {
            assert(bound[head.len() + i] == key[head.len() + i]);
        }
        assert(a.subrange(0, p.len() as int) =~= p);
    }
    if p.is_prefix_of(a) {
        assert(a =~= p + a.skip(p.len() as int));
        assert(key.subrange(0, bound.len() as int) =~= bound);
        assert(bound.is_prefix_of(key));
    }
}

} // verus!

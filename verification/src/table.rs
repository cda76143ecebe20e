//! Descriptions of tables and of their indexes.

use vstd::prelude::*;

use crate::gsi::{Projection, ProjectionView};
use crate::text::{str_eq, text};
use crate::value::{copy_schema, schema_view, KeySchemaElement, SchemaView};

verus! {

/// A global secondary index.
#[derive(Debug, PartialEq, Eq)]
pub struct GsiDescription {
    pub index_name: String,
    pub key_schema: Vec<KeySchemaElement>,
    pub projection: Projection,
    pub index_status: String,
    pub provisioned_throughput: Option<Throughput>,
    pub index_size_bytes: i64,
    pub item_count: i64,
    pub index_arn: String,
}

/// A local secondary index.
#[derive(Debug, PartialEq, Eq)]
pub struct LsiDescription {
    pub index_name: String,
    pub key_schema: Vec<KeySchemaElement>,
    pub projection: Projection,
    pub index_size_bytes: i64,
    pub item_count: i64,
    pub index_arn: String,
}

/// What an index is named, what its key is, and what it copies.
pub struct IndexView {
    pub name: Seq<char>,
    pub schema: SchemaView,
    pub projection: ProjectionView,
}

impl GsiDescription {
    pub open spec fn view(&self) -> IndexView {
        IndexView {
            name: self.index_name@,
            schema: schema_view(self.key_schema@),
            projection: self.projection@,
        }
    }
}

impl LsiDescription {
    pub open spec fn view(&self) -> IndexView {
        IndexView {
            name: self.index_name@,
            schema: schema_view(self.key_schema@),
            projection: self.projection@,
        }
    }
}

pub open spec fn gsi_views(l: Seq<GsiDescription>) -> Seq<IndexView> {
    l.map_values(|g: GsiDescription| g@)
}

pub open spec fn lsi_views(l: Seq<LsiDescription>) -> Seq<IndexView> {
    l.map_values(|g: LsiDescription| g@)
}

/// The first index with the given name.
pub open spec fn index_named(l: Seq<IndexView>, name: Seq<char>) -> Option<IndexView>
    decreases l.len(),
{
    if l.len() == 0 {
        None
    } else if l[0].name == name {
        Some(l[0])
    } else {
        index_named(l.skip(1), name)
    }
}

/// Finds the first global secondary index with the given name.
pub fn find_gsi<'a>(l: &'a [GsiDescription], name: &str) -> (r: Option<&'a GsiDescription>)
    ensures
        index_named(gsi_views(l@), name@) == match r {
            Some(g) => Some(g@),
            None => None,
        },
        r matches Some(g) ==> g.index_name@ == name@,
{
    let ghost v = gsi_views(l@);
    let mut i: usize = 0;
    assert(v.skip(0) =~= v);
    while i < l.len()
        invariant
            i <= l.len(),
            v == gsi_views(l@),
            index_named(v.skip(i as int), name@) == index_named(v, name@),
        decreases l.len() - i,
    {
        assert(v.skip(i as int)[0] == l@[i as int]@);
        if str_eq(l[i].index_name.as_str(), name) {
            return Some(&l[i]);
        }
        assert(v.skip(i as int).skip(1) =~= v.skip(i + 1));
        i = i + 1;
    }
    None
}

/// Finds the first local secondary index with the given name.
pub fn find_lsi<'a>(l: &'a [LsiDescription], name: &str) -> (r: Option<&'a LsiDescription>)
    ensures
        index_named(lsi_views(l@), name@) == match r {
            Some(g) => Some(g@),
            None => None,
        },
        r matches Some(g) ==> g.index_name@ == name@,
{
    let ghost v = lsi_views(l@);
    let mut i: usize = 0;
    assert(v.skip(0) =~= v);
    while i < l.len()
        invariant
            i <= l.len(),
            v == lsi_views(l@),
            index_named(v.skip(i as int), name@) == index_named(v, name@),
        decreases l.len() - i,
    {
        assert(v.skip(i as int)[0] == l@[i as int]@);
        if str_eq(l[i].index_name.as_str(), name) {
            return Some(&l[i]);
        }
        assert(v.skip(i as int).skip(1) =~= v.skip(i + 1));
        i = i + 1;
    }
    None
}

/// Read and write capacity.
#[derive(Clone, Copy, Debug, PartialEq, Eq)]
pub struct Throughput {
    pub read_capacity_units: i64,
    pub write_capacity_units: i64,
    pub number_of_decreases_today: i64,
}

/// Read and write capacity that is asked for.
#[derive(Clone, Copy, Debug, PartialEq, Eq)]
pub struct ThroughputInput {
    pub read_capacity_units: i64,
    pub write_capacity_units: i64,
}

/// How a table is paid for.
#[derive(Clone, Copy, Debug, PartialEq, Eq, Structural)]
pub enum BillingMode {
    PayPerRequest,
    Provisioned,
}

/// How a table is paid for, and since when, in seconds.
#[derive(Clone, Copy, Debug, PartialEq, Eq)]
pub struct BillingModeSummary {
    pub billing_mode: BillingMode,
    pub last_update_to_pay_per_request: Option<i64>,
}

/// Limits of requests of a table that is paid per request.
#[derive(Clone, Copy, Debug, PartialEq, Eq)]
pub struct OnDemandThroughput {
    pub max_read_request_units: Option<i64>,
    pub max_write_request_units: Option<i64>,
}

/// The type of an attribute.
#[derive(Debug, PartialEq, Eq)]
pub struct AttributeDefinition {
    pub attribute_name: String,
    pub attribute_type: String,
}

impl AttributeDefinition {
    pub open spec fn view(&self) -> (Seq<char>, Seq<char>) {
        (self.attribute_name@, self.attribute_type@)
    }
}

pub open spec fn definition_views(l: Seq<AttributeDefinition>) -> Seq<(Seq<char>, Seq<char>)> {
    l.map_values(|d: AttributeDefinition| d@)
}

/// Copies attribute definitions.
pub fn copy_definitions(l: &[AttributeDefinition]) -> (r: Vec<AttributeDefinition>)
    ensures
        definition_views(r@) == definition_views(l@),
{
    let mut out: Vec<AttributeDefinition> = Vec::new();
    let mut i: usize = 0;
    let ghost all = definition_views(l@);
    assert(definition_views(out@) =~= all.take(0));
    while i < l.len()
        invariant
            i <= l.len(),
            all == definition_views(l@),
            definition_views(out@) == all.take(i as int),
        decreases l.len() - i,
    {
        let d = AttributeDefinition {
            attribute_name: text(l[i].attribute_name.as_str()),
            attribute_type: text(l[i].attribute_type.as_str()),
        };
        let ghost added = d@;
        let ghost before = definition_views(out@);
        out.push(d);
        i = i + 1;
        assert(definition_views(out@) =~= before.push(added));
        assert(all.take(i as int) =~= before.push(added));
    }
    assert(all.take(i as int) =~= all);
    out
}

/// Which images a stream record holds.
#[derive(Clone, Copy, Debug, PartialEq, Eq, Structural)]
pub enum StreamViewType {
    KeysOnly,
    NewImage,
    OldImage,
    NewAndOldImages,
}

/// Whether a table has a stream, and which images its records hold.
#[derive(Clone, Copy, Debug, PartialEq, Eq)]
pub struct StreamSpecification {
    pub stream_enabled: bool,
    pub stream_view_type: Option<StreamViewType>,
}

#[derive(Clone, Copy, Debug, PartialEq, Eq, Structural)]
pub enum TableStatus {
    Active,
    Deleting,
}

/// A table. Times are in seconds.
#[derive(Debug, PartialEq, Eq)]
pub struct TableDescription {
    pub table_name: String,
    pub key_schema: Vec<KeySchemaElement>,
    pub attribute_definitions: Vec<AttributeDefinition>,
    pub table_status: TableStatus,
    pub creation_date_time: i64,
    pub table_size_bytes: i64,
    pub item_count: i64,
    pub table_arn: String,
    pub table_id: String,
    pub provisioned_throughput: Throughput,
    pub billing_mode_summary: Option<BillingModeSummary>,
    pub global_secondary_indexes: Option<Vec<GsiDescription>>,
    pub local_secondary_indexes: Option<Vec<LsiDescription>>,
    pub stream_specification: Option<StreamSpecification>,
    pub latest_stream_arn: Option<String>,
    pub latest_stream_label: Option<String>,
    pub deletion_protection_enabled: bool,
    pub on_demand_throughput: Option<OnDemandThroughput>,
}

impl TableDescription {
    /// The global secondary indexes.
    pub open spec fn gsis(&self) -> Seq<IndexView> {
        match self.global_secondary_indexes {
            Some(l) => gsi_views(l@),
            None => Seq::empty(),
        }
    }

    /// The local secondary indexes.
    pub open spec fn lsis(&self) -> Seq<IndexView> {
        match self.local_secondary_indexes {
            Some(l) => lsi_views(l@),
            None => Seq::empty(),
        }
    }

    pub open spec fn schema(&self) -> SchemaView {
        schema_view(self.key_schema@)
    }
}

/// Which kind of index an index is.
#[derive(Clone, Copy, Debug, PartialEq, Eq, Structural)]
pub enum IndexType {
    Gsi,
    Lsi,
}

/// What is known of an index.
#[derive(Debug, PartialEq, Eq)]
pub struct IndexInfo {
    pub index_name: String,
    pub index_id: String,
    pub index_type: IndexType,
    pub key_schema: Vec<KeySchemaElement>,
    pub projection: Projection,
}

/// What an [`IndexInfo`] is.
pub struct IndexInfoView {
    pub name: Seq<char>,
    pub id: Seq<char>,
    pub kind: IndexType,
    pub schema: SchemaView,
    pub projection: ProjectionView,
}

impl IndexInfo {
    pub open spec fn view(&self) -> IndexInfoView {
        IndexInfoView {
            name: self.index_name@,
            id: self.index_id@,
            kind: self.index_type,
            schema: schema_view(self.key_schema@),
            projection: self.projection@,
        }
    }
}

pub open spec fn info_views(l: Seq<IndexInfo>) -> Seq<IndexInfoView> {
    l.map_values(|i: IndexInfo| i@)
}

/// What an operation needs to know of a table.
#[derive(Debug, PartialEq, Eq)]
pub struct TableKeyInfo {
    pub table_name: String,
    pub account_id: String,
    pub table_id: String,
    pub key_schema: Vec<KeySchemaElement>,
    pub base_key_schema: Vec<KeySchemaElement>,
    pub attribute_definitions: Vec<AttributeDefinition>,
    pub has_lsi: bool,
    pub global_secondary_indexes: Vec<IndexInfo>,
    pub local_secondary_indexes: Vec<IndexInfo>,
    pub stream_specification: Option<StreamSpecification>,
}

/// What a [`TableKeyInfo`] is.
pub struct KeyInfoView {
    pub table_name: Seq<char>,
    pub account_id: Seq<char>,
    pub table_id: Seq<char>,
    pub schema: SchemaView,
    pub base_schema: SchemaView,
    pub definitions: Seq<(Seq<char>, Seq<char>)>,
    pub has_lsi: bool,
    pub gsis: Seq<IndexInfoView>,
    pub lsis: Seq<IndexInfoView>,
    pub stream: Option<StreamSpecification>,
}

impl TableKeyInfo {
    pub open spec fn view(&self) -> KeyInfoView {
        KeyInfoView {
            table_name: self.table_name@,
            account_id: self.account_id@,
            table_id: self.table_id@,
            schema: schema_view(self.key_schema@),
            base_schema: schema_view(self.base_key_schema@),
            definitions: definition_views(self.attribute_definitions@),
            has_lsi: self.has_lsi,
            gsis: info_views(self.global_secondary_indexes@),
            lsis: info_views(self.local_secondary_indexes@),
            stream: self.stream_specification,
        }
    }
}

impl Clone for IndexInfo {
    fn clone(&self) -> (r: IndexInfo)
        ensures
            r@ == self@,
    {
        IndexInfo {
            index_name: text(self.index_name.as_str()),
            index_id: text(self.index_id.as_str()),
            index_type: self.index_type,
            key_schema: copy_schema(self.key_schema.as_slice()),
            projection: self.projection.clone(),
        }
    }
}

/// Copies what is known of indexes.
pub fn copy_infos(l: &[IndexInfo]) -> (r: Vec<IndexInfo>)
    ensures
        info_views(r@) == info_views(l@),
{
    let mut out: Vec<IndexInfo> = Vec::new();
    let mut i: usize = 0;
    let ghost all = info_views(l@);
    assert(info_views(out@) =~= all.take(0));
    while i < l.len()
        invariant
            i <= l.len(),
            all == info_views(l@),
            info_views(out@) == all.take(i as int),
        decreases l.len() - i,
    {
        let x = l[i].clone();
        let ghost added = x@;
        let ghost before = info_views(out@);
        out.push(x);
        i = i + 1;
        assert(info_views(out@) =~= before.push(added));
        assert(all.take(i as int) =~= before.push(added));
    }
    assert(all.take(i as int) =~= all);
    out
}

impl Clone for TableKeyInfo {
    fn clone(&self) -> (r: TableKeyInfo)
        ensures
            r@ == self@,
    {
        TableKeyInfo {
            table_name: text(self.table_name.as_str()),
            account_id: text(self.account_id.as_str()),
            table_id: text(self.table_id.as_str()),
            key_schema: copy_schema(self.key_schema.as_slice()),
            base_key_schema: copy_schema(self.base_key_schema.as_slice()),
            attribute_definitions: copy_definitions(self.attribute_definitions.as_slice()),
            has_lsi: self.has_lsi,
            global_secondary_indexes: copy_infos(self.global_secondary_indexes.as_slice()),
            local_secondary_indexes: copy_infos(self.local_secondary_indexes.as_slice()),
            stream_specification: self.stream_specification,
        }
    }
}

} // verus!

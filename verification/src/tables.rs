//! Creating, changing and listing tables.

use serde_json::Value;
use vstd::prelude::*;
use vstd::string::*;

use crate::engine::{
    data_table, data_table_id, names_data_table, opt_str, row_description, table_row, ttl_setting,
    TableRowView,
};
use crate::error::{internal, ErrView, StorageError};
use crate::gsi::{shadow_table, shadow_table_id, Projection};
use crate::json::{
    get_text, json_clone, json_null, json_record, json_view, member, no_members, record_member,
    record_of_members, set_field, text_field, with_field, with_member, with_text, with_truth,
    JsonView,
};
use crate::sorting::{after_text, in_text_order, keep_after, keyed, sort_by_text};
use crate::streams::{build_stream_arn, stream_arn, StreamMeta};
use crate::table::{
    copy_definitions, definition_views, find_gsi, find_lsi, gsi_views, index_named, info_views,
    lsi_views, AttributeDefinition, BillingMode, BillingModeSummary, GsiDescription, IndexInfo,
    IndexInfoView, IndexType, IndexView, KeyInfoView, LsiDescription, OnDemandThroughput,
    StreamSpecification, StreamViewType, TableDescription, TableKeyInfo, TableStatus, Throughput,
    ThroughputInput,
};
use crate::text::{cat2, cat3, cat4, opt_view, rsplit_once, split_at_last, str_eq, text, views};
use crate::value::{copy_schema, schema_view, KeySchemaElement};

verus! {

// ---------------------------------------------------------------------------
// Creating
// ---------------------------------------------------------------------------

/// A global secondary index that is asked for.
#[derive(Debug, PartialEq, Eq)]
pub struct GsiInput {
    pub index_name: String,
    pub key_schema: Vec<KeySchemaElement>,
    pub projection: Projection,
    pub provisioned_throughput: Option<ThroughputInput>,
}

/// A local secondary index that is asked for.
#[derive(Debug, PartialEq, Eq)]
pub struct LsiInput {
    pub index_name: String,
    pub key_schema: Vec<KeySchemaElement>,
    pub projection: Projection,
}

/// A table that is asked for.
#[derive(Debug, PartialEq, Eq)]
pub struct CreateTableInput {
    pub table_name: String,
    pub key_schema: Vec<KeySchemaElement>,
    pub attribute_definitions: Vec<AttributeDefinition>,
    pub billing_mode: Option<BillingMode>,
    pub provisioned_throughput: Option<ThroughputInput>,
    pub global_secondary_indexes: Option<Vec<GsiInput>>,
    pub local_secondary_indexes: Option<Vec<LsiInput>>,
    pub stream_specification: Option<StreamSpecification>,
    pub deletion_protection_enabled: Option<bool>,
    pub on_demand_throughput: Option<OnDemandThroughput>,
}

/// The name of a table.
pub open spec fn table_arn(account: Seq<char>, table: Seq<char>) -> Seq<char> {
    "arn:aws:dynamodb:us-east-1:"@ + account + ":table/"@ + table
}

/// The throughput that a table or index is given.
pub open spec fn given_throughput(t: ThroughputInput) -> Throughput {
    Throughput {
        read_capacity_units: t.read_capacity_units,
        write_capacity_units: t.write_capacity_units,
        number_of_decreases_today: 0,
    }
}

fn make_throughput(t: &ThroughputInput) -> (r: Throughput)
    ensures
        r == given_throughput(*t),
{
    Throughput {
        read_capacity_units: t.read_capacity_units,
        write_capacity_units: t.write_capacity_units,
        number_of_decreases_today: 0,
    }
}

/// Whether an index is the one that was asked for, and is empty.
pub open spec fn makes_gsi(g: GsiDescription, i: GsiInput, arn: Seq<char>) -> bool {
    &&& g@ == (IndexView {
        name: i.index_name@,
        schema: schema_view(i.key_schema@),
        projection: i.projection@,
    })
    &&& g.index_status@ == "ACTIVE"@
    &&& g.provisioned_throughput == match i.provisioned_throughput {
        Some(t) => Some(given_throughput(t)),
        None => None,
    }
    &&& g.index_size_bytes == 0
    &&& g.item_count == 0
    &&& g.index_arn@ == arn + "/index/"@ + i.index_name@
}

/// Whether an index is the one that was asked for, and is empty.
pub open spec fn makes_lsi(l: LsiDescription, i: LsiInput, arn: Seq<char>) -> bool {
    &&& l@ == (IndexView {
        name: i.index_name@,
        schema: schema_view(i.key_schema@),
        projection: i.projection@,
    })
    &&& l.index_size_bytes == 0
    &&& l.item_count == 0
    &&& l.index_arn@ == arn + "/index/"@ + i.index_name@
}

/// Whether indexes are those that were asked for.
pub open spec fn makes_gsis(
    l: Option<Vec<GsiDescription>>,
    i: Option<Vec<GsiInput>>,
    arn: Seq<char>,
) -> bool {
    match i {
        None => l is None,
        Some(inputs) => l is Some && l->0@.len() == inputs@.len() && forall|k: int|
            0 <= k < inputs@.len() ==> makes_gsi(#[trigger] l->0@[k], inputs@[k], arn),
    }
}

/// Whether indexes are those that were asked for.
pub open spec fn makes_lsis(
    l: Option<Vec<LsiDescription>>,
    i: Option<Vec<LsiInput>>,
    arn: Seq<char>,
) -> bool {
    match i {
        None => l is None,
        Some(inputs) => l is Some && l->0@.len() == inputs@.len() && forall|k: int|
            0 <= k < inputs@.len() ==> makes_lsi(#[trigger] l->0@[k], inputs@[k], arn),
    }
}

fn make_gsis(inputs: &Option<Vec<GsiInput>>, arn: &str) -> (r: Option<Vec<GsiDescription>>)
    ensures
        makes_gsis(r, *inputs, arn@),
{
    let l = match inputs {
        Some(l) => l,
        None => return None,
    };
    let mut out: Vec<GsiDescription> = Vec::new();
    let mut i: usize = 0;
    while i < l.len()
        invariant
            i <= l.len(),
            out@.len() == i,
            forall|k: int| 0 <= k < i ==> makes_gsi(#[trigger] out@[k], l@[k], arn@),
        decreases l.len() - i,
    {
        let g = &l[i];
        out.push(
            GsiDescription {
                index_name: text(g.index_name.as_str()),
                key_schema: copy_schema(g.key_schema.as_slice()),
                projection: g.projection.clone(),
                index_status: text("ACTIVE"),
                provisioned_throughput: match &g.provisioned_throughput {
                    Some(t) => Some(make_throughput(t)),
                    None => None,
                },
                index_size_bytes: 0,
                item_count: 0,
                index_arn: cat3(arn, "/index/", g.index_name.as_str()),
            },
        );
        i = i + 1;
    }
    Some(out)
}

fn make_lsis(inputs: &Option<Vec<LsiInput>>, arn: &str) -> (r: Option<Vec<LsiDescription>>)
    ensures
        makes_lsis(r, *inputs, arn@),
{
    let l = match inputs {
        Some(l) => l,
        None => return None,
    };
    let mut out: Vec<LsiDescription> = Vec::new();
    let mut i: usize = 0;
    while i < l.len()
        invariant
            i <= l.len(),
            out@.len() == i,
            forall|k: int| 0 <= k < i ==> makes_lsi(#[trigger] out@[k], l@[k], arn@),
        decreases l.len() - i,
    {
        let x = &l[i];
        out.push(
            LsiDescription {
                index_name: text(x.index_name.as_str()),
                key_schema: copy_schema(x.key_schema.as_slice()),
                projection: x.projection.clone(),
                index_size_bytes: 0,
                item_count: 0,
                index_arn: cat3(arn, "/index/", x.index_name.as_str()),
            },
        );
        i = i + 1;
    }
    Some(out)
}

/// Whether a table gets a stream.
pub open spec fn wants_stream(s: Option<StreamSpecification>) -> bool {
    match s {
        Some(x) => x.stream_enabled,
        None => false,
    }
}

/// Whether a description is that of the table that was asked for: active, empty
/// and with the stream that it wants.
pub open spec fn describes(
    d: TableDescription,
    account: Seq<char>,
    i: CreateTableInput,
    table_id: Seq<char>,
    now: int,
    label: Seq<char>,
) -> bool {
    let arn = table_arn(account, i.table_name@);
    &&& d.table_name@ == i.table_name@
    &&& d.key_schema@ == i.key_schema@
    &&& d.attribute_definitions@ == i.attribute_definitions@
    &&& d.table_status == TableStatus::Active
    &&& d.creation_date_time == now
    &&& d.table_size_bytes == 0
    &&& d.item_count == 0
    &&& d.table_arn@ == arn
    &&& d.table_id@ == table_id
    &&& d.provisioned_throughput == match i.provisioned_throughput {
        Some(t) => given_throughput(t),
        None => given_throughput(
            ThroughputInput { read_capacity_units: 0, write_capacity_units: 0 },
        ),
    }
    &&& d.billing_mode_summary == Some(
        BillingModeSummary {
            billing_mode: match i.billing_mode {
                Some(b) => b,
                None => BillingMode::PayPerRequest,
            },
            last_update_to_pay_per_request: None,
        },
    )
    &&& makes_gsis(d.global_secondary_indexes, i.global_secondary_indexes, arn)
    &&& makes_lsis(d.local_secondary_indexes, i.local_secondary_indexes, arn)
    &&& d.stream_specification == i.stream_specification
    &&& opt_view(d.latest_stream_arn) == if wants_stream(i.stream_specification) {
        Some(stream_arn(account, i.table_name@, label))
    } else {
        None
    }
    &&& opt_view(d.latest_stream_label) == if wants_stream(i.stream_specification) {
        Some(label)
    } else {
        None
    }
    &&& d.deletion_protection_enabled == (i.deletion_protection_enabled == Some(true))
    &&& d.on_demand_throughput == i.on_demand_throughput
}

/// Whether a stream is that of the table that was asked for.
pub open spec fn makes_stream(
    m: StreamMeta,
    account: Seq<char>,
    i: CreateTableInput,
    label: Seq<char>,
) -> bool {
    &&& m.stream_arn@ == stream_arn(account, i.table_name@, label)
    &&& m.stream_label@ == label
    &&& m.stream_view_type == match i.stream_specification->0.stream_view_type {
        Some(v) => v,
        None => StreamViewType::NewAndOldImages,
    }
    &&& m.table_name@ == i.table_name@
    &&& m.table_arn@ == table_arn(account, i.table_name@)
    &&& schema_view(m.key_schema@) == schema_view(i.key_schema@)
}

/// What a new table needs: its data table, a shadow table for each global
/// secondary index, its description, and its stream.
#[derive(Debug, PartialEq, Eq)]
pub struct CreatePlan {
    pub data_table: String,
    pub shadow_tables: Vec<String>,
    pub description: TableDescription,
    pub stream: Option<StreamMeta>,
}

/// The shadow tables of indexes.
pub open spec fn shadow_names(data_table: Seq<char>, gsis: Option<Vec<GsiInput>>) -> Seq<Seq<char>> {
    match gsis {
        Some(l) => l@.map_values(|g: GsiInput| shadow_table(data_table, g.index_name@)),
        None => Seq::empty(),
    }
}

/// A table may be created only where there is none of its name.
pub fn check_new_table(existing: Option<&Value>, table_name: &str) -> (r: Result<(), StorageError>)
    ensures
        match r {
            Ok(_) => existing is None,
            Err(e) => existing is Some && e@ == ErrView::TableAlreadyExists(table_name@),
        },
{
    match existing {
        None => Ok(()),
        Some(_) => Err(StorageError::TableAlreadyExists(text(table_name))),
    }
}

/// Plans a new table. `table_id` is its identifier, and `stream_label` the label
/// of its stream, if it gets one.
pub fn create_table(
    account_id: &str,
    input: CreateTableInput,
    table_id: &str,
    now_secs: i64,
    stream_label: &str,
) -> (r: CreatePlan)
    requires
        names_data_table(table_id@),
    ensures
        r.data_table@ == data_table(table_id@),
        views(r.shadow_tables@) == shadow_names(
            data_table(table_id@),
            input.global_secondary_indexes,
        ),
        describes(
            r.description,
            account_id@,
            input,
            table_id@,
            now_secs as int,
            stream_label@,
        ),
        match r.stream {
            Some(m) => wants_stream(input.stream_specification) && makes_stream(
                m,
                account_id@,
                input,
                stream_label@,
            ),
            None => !wants_stream(input.stream_specification),
        },
{
    let data_table = data_table_id(table_id);
    let mut shadow_tables: Vec<String> = Vec::new();
    assert(views(shadow_tables@) =~= Seq::<Seq<char>>::empty());
    if let Some(l) = &input.global_secondary_indexes {
        let ghost goal = shadow_names(data_table@, input.global_secondary_indexes);
        let mut i: usize = 0;
        assert(views(shadow_tables@) =~= goal.take(0));
        while i < l.len()
            invariant
                i <= l.len(),
                goal == l@.map_values(|g: GsiInput| shadow_table(data_table@, g.index_name@)),
                views(shadow_tables@) == goal.take(i as int),
            decreases l.len() - i,
        {
            let t = shadow_table_id(data_table.as_str(), l[i].index_name.as_str());
            let ghost added = t@;
            let ghost before = views(shadow_tables@);
            shadow_tables.push(t);
            i = i + 1;
            assert(views(shadow_tables@) =~= before.push(added));
            assert(goal.take(i as int) =~= before.push(added));
        }
        assert(goal.take(i as int) =~= goal);
    }
    let arn = cat4("arn:aws:dynamodb:us-east-1:", account_id, ":table/", input.table_name.as_str());
    let gsis = make_gsis(&input.global_secondary_indexes, arn.as_str());
    let lsis = make_lsis(&input.local_secondary_indexes, arn.as_str());
    let throughput = match &input.provisioned_throughput {
        Some(t) => make_throughput(t),
        None => Throughput {
            read_capacity_units: 0,
            write_capacity_units: 0,
            number_of_decreases_today: 0,
        },
    };
    let billing_mode = match input.billing_mode {
        Some(b) => b,
        None => BillingMode::PayPerRequest,
    };
    let stream = match &input.stream_specification {
        Some(s) => if s.stream_enabled {
            let view = match s.stream_view_type {
                Some(v) => v,
                None => StreamViewType::NewAndOldImages,
            };
            Some(
                StreamMeta {
                    stream_arn: build_stream_arn(
                        account_id,
                        input.table_name.as_str(),
                        stream_label,
                    ),
                    stream_label: text(stream_label),
                    stream_view_type: view,
                    table_name: text(input.table_name.as_str()),
                    table_arn: text(arn.as_str()),
                    key_schema: copy_schema(input.key_schema.as_slice()),
                },
            )
        } else {
            None
        },
        None => None,
    };
    let (latest_stream_arn, latest_stream_label) = match &stream {
        Some(m) => (Some(text(m.stream_arn.as_str())), Some(text(m.stream_label.as_str()))),
        None => (None, None),
    };
    let deletion_protection_enabled = match input.deletion_protection_enabled {
        Some(b) => b,
        None => false,
    };
    let description = TableDescription {
        table_name: text(input.table_name.as_str()),
        key_schema: input.key_schema,
        attribute_definitions: input.attribute_definitions,
        table_status: TableStatus::Active,
        creation_date_time: now_secs,
        table_size_bytes: 0,
        item_count: 0,
        table_arn: arn,
        table_id: text(table_id),
        provisioned_throughput: throughput,
        billing_mode_summary: Some(
            BillingModeSummary { billing_mode, last_update_to_pay_per_request: None },
        ),
        global_secondary_indexes: gsis,
        local_secondary_indexes: lsis,
        stream_specification: input.stream_specification,
        latest_stream_arn,
        latest_stream_label,
        deletion_protection_enabled,
        on_demand_throughput: input.on_demand_throughput,
    };
    CreatePlan { data_table, shadow_tables, description, stream }
}

/// Makes up the identifier of a table.
pub fn new_table_id() -> (r: String)
    ensures
        crate::random::is_uuid(r@),
        names_data_table(r@),
{
    let r = crate::random::uuid_text();
    proof {
        lemma_uuid_names(r@);
    }
    r
}

proof fn lemma_without_concat(a: Seq<char>, b: Seq<char>, c: char)
    ensures
        crate::text::without_char(a + b, c) == crate::text::without_char(a, c)
            + crate::text::without_char(b, c),
    decreases b.len(),
{
    if b.len() > 0 {
        assert((a + b).drop_last() =~= a + b.drop_last());
        lemma_without_concat(a, b.drop_last(), c);
        assert(crate::text::without_char(a + b, c) =~= crate::text::without_char(a, c)
            + crate::text::without_char(b, c));
    } else {
        assert(a + b =~= a);
        assert(crate::text::without_char(a, c) + crate::text::without_char(b, c)
            =~= crate::text::without_char(a, c));
    }
}

proof fn lemma_without_none(a: Seq<char>, c: char)
    requires
        forall|i: int| 0 <= i < a.len() ==> a[i] != c,
    ensures
        crate::text::without_char(a, c) == a,
    decreases a.len(),
{
    if a.len() > 0 {
        let d = a.drop_last();
        assert forall|i: int| 0 <= i < d.len() implies d[i] != c by {
            assert(d[i] == a[i]);
        }
        lemma_without_none(d, c);
        assert(a[a.len() - 1] != c);
        assert(d.push(a.last()) =~= a);
    } else {
        assert(crate::text::without_char(a, c) =~= a);
    }
}

proof fn lemma_uuid_names(s: Seq<char>)
    requires
        crate::random::is_uuid(s),
    ensures
        names_data_table(s),
{
    let a = s.subrange(0, 8);
    let b = s.subrange(8, 9);
    let c = s.subrange(9, 13);
    let d = s.subrange(13, 24);
    let e = s.subrange(24, 36);
    assert forall|i: int| 0 <= i < a.len() implies a[i] != '-' by {
        assert(crate::random::is_hex(s[i]));
    }
    assert forall|i: int| 0 <= i < c.len() implies c[i] != '-' by {
        assert(crate::random::is_hex(s[9 + i]));
    }
    assert forall|i: int| 0 <= i < e.len() implies e[i] != '-' by {
        assert(crate::random::is_hex(s[24 + i]));
    }
    lemma_without_none(a, '-');
    lemma_without_none(c, '-');
    lemma_without_none(e, '-');
    assert(s =~= a + b + c + d + e);
    lemma_without_concat(a + b + c + d, e, '-');
    lemma_without_concat(a + b + c, d, '-');
    lemma_without_concat(a + b, c, '-');
    lemma_without_concat(a, b, '-');
    assert forall|i: int| 0 <= i < s.len() implies '\0' <= #[trigger] s[i] <= '\u{7f}' by {
        if !(i == 8 || i == 13 || i == 18 || i == 23) {
            assert(crate::random::is_hex(s[i]));
        }
    }
}

/// The row of a new table.
pub open spec fn new_table_row(description: JsonView, data_table: Seq<char>) -> JsonView {
    json_record(
        seq![
            ("description"@, description),
            ("data_table"@, JsonView::Str(data_table)),
            (
                "ttl"@,
                json_record(
                    seq![("enabled"@, JsonView::Bool(false)), ("attribute"@, JsonView::Null)],
                ),
            ),
        ],
    )
}

proof fn lemma_table_names()
    ensures
        "description"@ != "data_table"@,
        "description"@ != "ttl"@,
        "data_table"@ != "ttl"@,
        "enabled"@ != "attribute"@,
{
    reveal_strlit("description");
    reveal_strlit("data_table");
    reveal_strlit("ttl");
    reveal_strlit("enabled");
    reveal_strlit("attribute");
    assert("description"@.len() == 11 && "data_table"@.len() == 10 && "ttl"@.len() == 3);
    assert("enabled"@.len() == 7 && "attribute"@.len() == 9);
}

/// The row of a new table says what it was made with, and that no items expire.
pub proof fn new_table_reads_back(
    description: JsonView,
    data_table: Seq<char>,
    table_name: Seq<char>,
)
    ensures
        table_row(Some(new_table_row(description, data_table)), table_name) == Ok::<
            TableRowView,
            ErrView,
        >(TableRowView { data_table, description, ttl_attr: None }),
        ttl_setting(new_table_row(description, data_table)) == (false, None::<Seq<char>>),
{
    lemma_table_names();
    let t = seq![("enabled"@, JsonView::Bool(false)), ("attribute"@, JsonView::Null)];
    let s = seq![
        ("description"@, description),
        ("data_table"@, JsonView::Str(data_table)),
        ("ttl"@, json_record(t)),
    ];
    record_member(s, "description"@);
    record_member(s, "data_table"@);
    record_member(s, "ttl"@);
    record_member(t, "enabled"@);
    record_member(t, "attribute"@);
    reveal_with_fuel(member, 4);
    assert(s.drop_last().last() == s[1]);
    assert(s.drop_last().drop_last().last() == s[0]);
    assert(t.drop_last().last() == t[0]);
}

/// Builds the row of a new table. The description comes in JSON.
pub fn table_record(description: &Value, data_table: &str) -> (r: Value)
    ensures
        json_view(r) == new_table_row(json_view(*description), data_table@),
{
    let t = with_truth(no_members(), "enabled", false);
    let t = with_member(t, "attribute", json_null());
    assert(crate::json::member_views(t@) =~= seq![
        ("enabled"@, JsonView::Bool(false)),
        ("attribute"@, JsonView::Null),
    ]);
    let ttl = record_of_members(t);
    let ghost tv = json_view(ttl);
    let m = with_member(no_members(), "description", json_clone(description));
    let m = with_text(m, "data_table", data_table);
    let m = with_member(m, "ttl", ttl);
    assert(crate::json::member_views(m@) =~= seq![
        ("description"@, json_view(*description)),
        ("data_table"@, JsonView::Str(data_table@)),
        ("ttl"@, tv),
    ]);
    record_of_members(m)
}

// ---------------------------------------------------------------------------
// Deleting and changing
// ---------------------------------------------------------------------------

/// The table to delete, or why it is not deleted: there must be a row, its
/// description must be readable and must allow it, and it must name the data
/// table.
pub open spec fn deletable(
    row: Option<JsonView>,
    parsed: Result<TableDescription, String>,
    name: Seq<char>,
) -> Result<Seq<char>, ErrView> {
    match row {
        None => Err(ErrView::TableNotFound(name)),
        Some(v) => match parsed {
            Err(m) => Err(ErrView::Internal("catalog deserialize: "@ + m@)),
            Ok(d) => if d.deletion_protection_enabled {
                Err(ErrView::DeletionProtected(name))
            } else {
                match text_field(v, "data_table"@) {
                    None => Err(ErrView::Internal("missing data_table in catalog row"@)),
                    Some(t) => Ok(t),
                }
            },
        },
    }
}

/// Finds the data table to delete, and the description to return. `parsed` is
/// what reading the description in the row gave.
pub fn delete_table(
    row: Option<&Value>,
    parsed: Result<TableDescription, String>,
    table_name: &str,
) -> (r: Result<(String, TableDescription), StorageError>)
    ensures
        match r {
            Ok((t, d)) => deletable(crate::engine::opt_json_ref(row), parsed, table_name@) == Ok::<
                Seq<char>,
                ErrView,
            >(t@) && d == (TableDescription { table_status: TableStatus::Deleting, ..parsed->Ok_0 }),
            Err(e) => deletable(crate::engine::opt_json_ref(row), parsed, table_name@) == Err::<
                Seq<char>,
                ErrView,
            >(e@),
        },
{
    let v = match row {
        Some(v) => v,
        None => return Err(StorageError::TableNotFound(text(table_name))),
    };
    let d = match crate::engine::parsed_description(parsed) {
        Ok(d) => d,
        Err(e) => return Err(e),
    };
    if d.deletion_protection_enabled {
        return Err(StorageError::DeletionProtected(text(table_name)));
    }
    match get_text(v, "data_table") {
        Some(t) => {
            let mut d = d;
            d.table_status = TableStatus::Deleting;
            Ok((t, d))
        },
        None => Err(internal("missing data_table in catalog row")),
    }
}

/// The description of a table, where it has a row.
pub fn describe_table(
    row: Option<&Value>,
    parsed: Result<TableDescription, String>,
    table_name: &str,
) -> (r: Result<TableDescription, StorageError>)
    ensures
        match r {
            Ok(d) => row is Some && parsed == Ok::<TableDescription, String>(d),
            Err(e) => if row is None {
                e@ == ErrView::TableNotFound(table_name@)
            } else {
                parsed matches Err(m) && e@ == ErrView::Internal("catalog deserialize: "@ + m@)
            },
        },
{
    match row {
        None => Err(StorageError::TableNotFound(text(table_name))),
        Some(_) => crate::engine::parsed_description(parsed),
    }
}

/// The description of a table after a change.
pub open spec fn updated_description(
    d: TableDescription,
    billing_mode: Option<BillingMode>,
    deletion_protection: Option<bool>,
    now: i64,
) -> TableDescription {
    TableDescription {
        billing_mode_summary: match billing_mode {
            Some(b) => Some(
                BillingModeSummary {
                    billing_mode: b,
                    last_update_to_pay_per_request: Some(now),
                },
            ),
            None => d.billing_mode_summary,
        },
        deletion_protection_enabled: match deletion_protection {
            Some(p) => p,
            None => d.deletion_protection_enabled,
        },
        ..d
    }
}

/// Changes how a table is paid for and whether it may be deleted; what is not
/// given stays.
pub fn update_table(
    description: TableDescription,
    billing_mode: Option<BillingMode>,
    deletion_protection_enabled: Option<bool>,
    now_secs: i64,
) -> (r: TableDescription)
    ensures
        r == updated_description(
            description,
            billing_mode,
            deletion_protection_enabled,
            now_secs,
        ),
{
    let mut d = description;
    if let Some(b) = billing_mode {
        d.billing_mode_summary = Some(
            BillingModeSummary { billing_mode: b, last_update_to_pay_per_request: Some(now_secs) },
        );
    }
    if let Some(p) = deletion_protection_enabled {
        d.deletion_protection_enabled = p;
    }
    d
}

/// Writes a description into the row of a table.
pub fn update_table_row(row: Value, description: Value) -> (r: Value)
    ensures
        json_view(r) == with_field(json_view(row), "description"@, json_view(description)),
{
    set_field(row, "description", description)
}

/// A changed row has the new description, and all else in it stays.
pub proof fn updated_row_reads_back(m: Seq<(Seq<char>, JsonView)>, description: JsonView)
    requires
        crate::sorted::sorted_by(m, crate::json::member_key()),
    ensures
        ({
            let row = with_field(JsonView::Object(m), "description"@, description);
            &&& row_description(row) == description
            &&& text_field(row, "data_table"@) == text_field(JsonView::Object(m), "data_table"@)
            &&& ttl_setting(row) == ttl_setting(JsonView::Object(m))
        }),
{
    lemma_table_names();
    let p = m.push(("description"@, description));
    record_member(p, "description"@);
    record_member(p, "data_table"@);
    record_member(p, "ttl"@);
    assert(p.drop_last() =~= m);
}

// ---------------------------------------------------------------------------
// Listing
// ---------------------------------------------------------------------------

/// The tables that rows are for: the last parts of their keys.
pub open spec fn key_tables(keys: Seq<Seq<char>>) -> Seq<(Seq<char>, ())>
    decreases keys.len(),
{
    if keys.len() == 0 {
        Seq::empty()
    } else {
        match rsplit_once(keys.last(), ':') {
            Some((_, name)) => key_tables(keys.drop_last()).push((name, ())),
            None => key_tables(keys.drop_last()),
        }
    }
}

pub open spec fn firsts(l: Seq<(Seq<char>, ())>) -> Seq<Seq<char>> {
    l.map_values(|e: (Seq<char>, ())| e.0)
}

/// The tables of an account in order, behind the one that is given.
pub open spec fn tables_after(keys: Seq<Seq<char>>, start: Option<Seq<char>>) -> Seq<Seq<char>> {
    firsts(after_text(in_text_order(key_tables(keys)), start))
}

/// A page of tables: the first ones up to a limit, and the last of them where
/// there are more.
pub open spec fn table_page(names: Seq<Seq<char>>, limit: Option<i64>) -> (
    Seq<Seq<char>>,
    Option<Seq<char>>,
) {
    match limit {
        Some(l) => if 0 <= l < names.len() {
            (
                names.take(l as int),
                if l > 0 {
                    Some(names[l - 1])
                } else {
                    None
                },
            )
        } else {
            (names, None)
        },
        None => (names, None),
    }
}

/// Lists the tables of an account by the keys of their rows.
pub fn list_tables(keys: &[String], exclusive_start: Option<&str>, limit: Option<i64>) -> (r: (
    Vec<String>,
    Option<String>,
))
    ensures
        (views(r.0@), opt_view(r.1)) == table_page(
            tables_after(views(keys@), opt_str(exclusive_start)),
            limit,
        ),
{
    let ghost all = views(keys@);
    let mut names: Vec<(String, ())> = Vec::new();
    let mut i: usize = 0;
    assert(keyed(names@) =~= key_tables(all.take(0)));
    while i < keys.len()
        invariant
            i <= keys.len(),
            all == views(keys@),
            keyed(names@) == key_tables(all.take(i as int)),
        decreases keys.len() - i,
    {
        proof {
            assert(all.take(i + 1).drop_last() =~= all.take(i as int));
            assert(all.take(i + 1).last() == keys@[i as int]@);
        }
        if let Some((_, name)) = split_at_last(keys[i].as_str(), ':') {
            let ghost before = keyed(names@);
            let ghost added = (name@, ());
            names.push((name, ()));
            assert(keyed(names@) =~= before.push(added));
        }
        i = i + 1;
    }
    assert(all.take(i as int) =~= all);
    let kept = keep_after(sort_by_text(names), exclusive_start);
    let ghost goal = tables_after(all, opt_str(exclusive_start));
    assert(firsts(keyed(kept@)) == goal);
    let mut out: Vec<String> = Vec::new();
    let mut j: usize = 0;
    assert(goal.len() == kept@.len());
    assert(views(out@) =~= goal.take(0));
    while j < kept.len()
        invariant
            j <= kept.len(),
            goal == firsts(keyed(kept@)),
            goal.len() == kept@.len(),
            views(out@) == goal.take(j as int),
        decreases kept.len() - j,
    {
        let n = text(kept[j].0.as_str());
        let ghost added = n@;
        let ghost before = views(out@);
        out.push(n);
        j = j + 1;
        assert(views(out@) =~= before.push(added));
        assert(goal.take(j as int) =~= before.push(added));
    }
    assert(goal.take(j as int) =~= goal);
    let l: i64 = match limit {
        Some(l) => l,
        None => return (out, None),
    };
    if l >= 0 && (l as i128) < out.len() as i128 {
        let n: usize = l as usize;
        out.truncate(n);
        assert(views(out@) =~= goal.take(l as int));
        if n > 0 {
            let last = text(out[n - 1].as_str());
            (out, Some(last))
        } else {
            (out, None)
        }
    } else {
        (out, None)
    }
}

// ---------------------------------------------------------------------------
// What is known of tables and indexes
// ---------------------------------------------------------------------------

/// What is known of an index of a table.
pub open spec fn index_information(i: IndexView, id: Seq<char>, kind: IndexType) -> IndexInfoView {
    IndexInfoView { name: i.name, id, kind, schema: i.schema, projection: i.projection }
}

/// What is known of the indexes of a table, each under its own name.
pub open spec fn index_informations(l: Seq<IndexView>, kind: IndexType) -> Seq<IndexInfoView> {
    l.map_values(|i: IndexView| index_information(i, i.name, kind))
}

fn gsi_infos(l: &[GsiDescription]) -> (r: Vec<IndexInfo>)
    ensures
        info_views(r@) == index_informations(gsi_views(l@), IndexType::Gsi),
{
    let ghost goal = index_informations(gsi_views(l@), IndexType::Gsi);
    let mut out: Vec<IndexInfo> = Vec::new();
    let mut i: usize = 0;
    assert(info_views(out@) =~= goal.take(0));
    while i < l.len()
        invariant
            i <= l.len(),
            goal == index_informations(gsi_views(l@), IndexType::Gsi),
            info_views(out@) == goal.take(i as int),
        decreases l.len() - i,
    {
        let g = &l[i];
        let x = IndexInfo {
            index_name: text(g.index_name.as_str()),
            index_id: text(g.index_name.as_str()),
            index_type: IndexType::Gsi,
            key_schema: copy_schema(g.key_schema.as_slice()),
            projection: g.projection.clone(),
        };
        let ghost added = x@;
        let ghost before = info_views(out@);
        out.push(x);
        i = i + 1;
        assert(info_views(out@) =~= before.push(added));
        assert(goal.take(i as int) =~= before.push(added));
    }
    assert(goal.take(i as int) =~= goal);
    out
}

fn lsi_infos(l: &[LsiDescription]) -> (r: Vec<IndexInfo>)
    ensures
        info_views(r@) == index_informations(lsi_views(l@), IndexType::Lsi),
{
    let ghost goal = index_informations(lsi_views(l@), IndexType::Lsi);
    let mut out: Vec<IndexInfo> = Vec::new();
    let mut i: usize = 0;
    assert(info_views(out@) =~= goal.take(0));
    while i < l.len()
        invariant
            i <= l.len(),
            goal == index_informations(lsi_views(l@), IndexType::Lsi),
            info_views(out@) == goal.take(i as int),
        decreases l.len() - i,
    {
        let g = &l[i];
        let x = IndexInfo {
            index_name: text(g.index_name.as_str()),
            index_id: text(g.index_name.as_str()),
            index_type: IndexType::Lsi,
            key_schema: copy_schema(g.key_schema.as_slice()),
            projection: g.projection.clone(),
        };
        let ghost added = x@;
        let ghost before = info_views(out@);
        out.push(x);
        i = i + 1;
        assert(info_views(out@) =~= before.push(added));
        assert(goal.take(i as int) =~= before.push(added));
    }
    assert(goal.take(i as int) =~= goal);
    out
}

/// What an operation needs to know of a table.
pub open spec fn key_information(
    d: TableDescription,
    account: Seq<char>,
    name: Seq<char>,
) -> KeyInfoView {
    KeyInfoView {
        table_name: name,
        account_id: account,
        table_id: d.table_id@,
        schema: d.schema(),
        base_schema: d.schema(),
        definitions: definition_views(d.attribute_definitions@),
        has_lsi: d.local_secondary_indexes is Some,
        gsis: index_informations(d.gsis(), IndexType::Gsi),
        lsis: index_informations(d.lsis(), IndexType::Lsi),
        stream: d.stream_specification,
    }
}

/// Collects what an operation needs to know of a table.
pub fn table_key_info(d: &TableDescription, account_id: &str, table_name: &str) -> (r: TableKeyInfo)
    ensures
        r@ == key_information(*d, account_id@, table_name@),
{
    let gsis: Vec<IndexInfo> = match &d.global_secondary_indexes {
        Some(l) => gsi_infos(l.as_slice()),
        None => {
            let none: Vec<IndexInfo> = Vec::new();
            assert(info_views(none@) =~= index_informations(Seq::empty(), IndexType::Gsi));
            none
        },
    };
    let lsis: Vec<IndexInfo> = match &d.local_secondary_indexes {
        Some(l) => lsi_infos(l.as_slice()),
        None => {
            let none: Vec<IndexInfo> = Vec::new();
            assert(info_views(none@) =~= index_informations(Seq::empty(), IndexType::Lsi));
            none
        },
    };
    TableKeyInfo {
        table_name: text(table_name),
        account_id: text(account_id),
        table_id: text(d.table_id.as_str()),
        key_schema: copy_schema(d.key_schema.as_slice()),
        base_key_schema: copy_schema(d.key_schema.as_slice()),
        attribute_definitions: copy_definitions(d.attribute_definitions.as_slice()),
        has_lsi: d.local_secondary_indexes.is_some(),
        global_secondary_indexes: gsis,
        local_secondary_indexes: lsis,
        stream_specification: d.stream_specification,
    }
}

/// What is known of the index with a name: global secondary indexes come before
/// local ones.
pub open spec fn found_index(d: TableDescription, name: Seq<char>) -> Result<
    IndexInfoView,
    ErrView,
> {
    match index_named(d.gsis(), name) {
        Some(g) => Ok(index_information(g, d.table_id@ + "::"@ + g.name, IndexType::Gsi)),
        None => match index_named(d.lsis(), name) {
            Some(l) => Ok(index_information(l, d.table_id@ + "::"@ + l.name, IndexType::Lsi)),
            None => Err(ErrView::IndexNotFound(name)),
        },
    }
}

/// Finds what is known of the index with a name.
pub fn index_info(d: &TableDescription, index_name: &str) -> (r: Result<IndexInfo, StorageError>)
    ensures
        match r {
            Ok(i) => found_index(*d, index_name@) == Ok::<IndexInfoView, ErrView>(i@),
            Err(e) => found_index(*d, index_name@) == Err::<IndexInfoView, ErrView>(e@),
        },
{
    if let Some(l) = &d.global_secondary_indexes {
        if let Some(g) = find_gsi(l.as_slice(), index_name) {
            return Ok(
                IndexInfo {
                    index_name: text(g.index_name.as_str()),
                    index_id: cat3(d.table_id.as_str(), "::", g.index_name.as_str()),
                    index_type: IndexType::Gsi,
                    key_schema: copy_schema(g.key_schema.as_slice()),
                    projection: g.projection.clone(),
                },
            );
        }
    }
    if let Some(l) = &d.local_secondary_indexes {
        if let Some(g) = find_lsi(l.as_slice(), index_name) {
            return Ok(
                IndexInfo {
                    index_name: text(g.index_name.as_str()),
                    index_id: cat3(d.table_id.as_str(), "::", g.index_name.as_str()),
                    index_type: IndexType::Lsi,
                    key_schema: copy_schema(g.key_schema.as_slice()),
                    projection: g.projection.clone(),
                },
            );
        }
    }
    Err(StorageError::IndexNotFound(text(index_name)))
}

/// Where among descriptions the first table with an identifier stands, or how
/// many there are.
pub open spec fn table_with_id(l: Seq<Option<TableDescription>>, id: Seq<char>) -> int
    decreases l.len(),
{
    if l.len() == 0 {
        0
    } else if l[0] is Some && l[0]->0.table_id@ == id {
        0
    } else {
        1 + table_with_id(l.skip(1), id)
    }
}

/// Finds what is known of an index of the table with an identifier, among the
/// descriptions of all tables; those that cannot be read are passed over.
pub fn index_info_by_table_id(
    tables: &[Option<TableDescription>],
    table_id: &str,
    index_name: &str,
) -> (r: Result<IndexInfo, StorageError>)
    ensures
        ({
            let at = table_with_id(tables@, table_id@);
            match r {
                Ok(i) => at < tables@.len() && found_index(tables@[at]->0, index_name@) == Ok::<
                    IndexInfoView,
                    ErrView,
                >(i@),
                Err(e) => if at < tables@.len() {
                    found_index(tables@[at]->0, index_name@) == Err::<IndexInfoView, ErrView>(e@)
                } else {
                    e@ == ErrView::TableNotFound("table_id="@ + table_id@)
                },
            }
        }),
{
    let mut i: usize = 0;
    assert(tables@.skip(0) =~= tables@);
    while i < tables.len()
        invariant
            i <= tables.len(),
            table_with_id(tables@, table_id@) == i + table_with_id(
                tables@.skip(i as int),
                table_id@,
            ),
        decreases tables.len() - i,
    {
        assert(tables@.skip(i as int)[0] == tables@[i as int]);
        if let Some(d) = &tables[i] {
            if str_eq(d.table_id.as_str(), table_id) {
                return index_info(d, index_name);
            }
        }
        assert(tables@.skip(i as int).skip(1) =~= tables@.skip(i + 1));
        i = i + 1;
    }
    Err(StorageError::TableNotFound(cat2("table_id=", table_id)))
}

} // verus!

//! The engine: what a request of a client does to tables, shadow tables and
//! the index of expiry times.

use serde_json::Value;
use vstd::prelude::*;
use vstd::string::*;

use crate::bigtable::{
    row_views, table_path, BigtableClient, MutateRowRequest, MutateView, ReadRowsRequest, ReadView,
    Row,
};
use crate::catalog::Catalog;
use crate::error::{internal, invalid, ErrView, StorageError};
use crate::item_ops::{
    check_condition, condition_result, evaluation_view, guarded, intent_cutoff, intent_time_fits,
    opt_ref_view, put_mutations, GuardView, GuardedWrite, ItemOps,
};
use crate::json::{
    get_text, get_truth, json_clone, json_field, json_get, json_null, json_view, text_field,
    truth_field, JsonView,
};
use crate::query_scan::{
    index_query_read, index_scan_read, lsi_read, query_read, scan_read, KeyCondition, QueryScan,
};
use crate::row_key::{encode_key, row_key};
use crate::shadows::{
    change_request_views, change_requests, delete_ttl_index_entry, get_ttl_expiry,
    insert_ttl_index_entry, mutate_views, opt_expiry, opt_int, plan_shadow_changes, shadow_changes,
    ttl_change, ttl_entry_view,
};
use crate::table::{
    find_gsi, find_lsi, gsi_views, index_named, lsi_views, GsiDescription, IndexView, KeyInfoView,
    LsiDescription, TableDescription, TableKeyInfo,
};
use crate::text::{cat2, opt_view, str_eq, text, views};
use crate::transact::PartMutView;
use crate::value::{
    copy_item, copy_schema, opt_item_view, schema_view, Item, ItemView, KeySchemaElement,
    SchemaView,
};

verus! {

/// The families of a data table: attributes, versions and intents, and marks
/// of expiry.
pub fn data_families() -> (r: Vec<String>)
    ensures
        views(r@) == seq!["d"@, "m"@, "t"@],
{
    let r = vec![text("d"), text("m"), text("t")];
    assert(views(r@) =~= seq!["d"@, "m"@, "t"@]);
    r
}

/// The name of the data table of a table: `t` and the first 16 characters of
/// its identifier without hyphens.
pub open spec fn data_table(table_id: Seq<char>) -> Seq<char> {
    seq!['t'] + crate::text::without_char(table_id, '-').take(16)
}

/// Whether an identifier of a table names a data table: it is ASCII, and there
/// are 16 characters in it besides hyphens.
pub open spec fn names_data_table(table_id: Seq<char>) -> bool {
    vstd::utf8::is_ascii_chars(table_id) && crate::text::without_char(table_id, '-').len() >= 16
}

/// Derives the name of the data table of a table.
pub fn data_table_id(table_id: &str) -> (r: String)
    requires
        names_data_table(table_id@),
    ensures
        r@ == data_table(table_id@),
{
    let c = crate::text::remove_char(table_id, '-');
    let head = crate::text::string_of(c.as_slice(), 0, 16);
    let r = cat2("t", head.as_str());
    proof {
        reveal_strlit("t");
        assert("t"@ =~= seq!['t']);
        assert(head@ =~= c@.take(16));
    }
    r
}

/// The engine.
#[derive(Debug, PartialEq, Eq)]
pub struct BigtableEngine {
    pub catalog_client: BigtableClient,
    pub client: BigtableClient,
    pub intent_timeout_secs: u64,
    pub node_id: String,
}

impl BigtableEngine {
    /// An engine with an identifier of its own.
    pub fn new(
        catalog_client: BigtableClient,
        data_client: BigtableClient,
        intent_timeout_secs: u64,
    ) -> (r: BigtableEngine)
        ensures
            r.catalog_client == catalog_client,
            r.client == data_client,
            r.intent_timeout_secs == intent_timeout_secs,
            crate::random::is_uuid(r.node_id@),
    {
        BigtableEngine {
            catalog_client,
            client: data_client,
            intent_timeout_secs,
            node_id: crate::random::uuid_text(),
        }
    }

    pub fn node_id(&self) -> (r: &str)
        ensures
            r@ == self.node_id@,
    {
        self.node_id.as_str()
    }

    pub fn client_ref(&self) -> (r: &BigtableClient)
        ensures
            *r == self.client,
    {
        &self.client
    }

    pub fn intent_timeout_secs(&self) -> (r: u64)
        ensures
            r == self.intent_timeout_secs,
    {
        self.intent_timeout_secs
    }

    /// The catalog.
    pub fn cat(&self) -> (r: Catalog<'_>)
        ensures
            *r.client == self.catalog_client,
    {
        Catalog::new(&self.catalog_client)
    }

    /// The resource name of a table of the data client.
    pub open spec fn path(&self, table: Seq<char>) -> Seq<char> {
        table_path(self.client.project_id@, self.client.instance_id@, table)
    }
}

// ---------------------------------------------------------------------------
// Rows of tables in the catalog
// ---------------------------------------------------------------------------

/// The setting of expiry times in the row of a table: whether they are on, and
/// the attribute.
pub open spec fn ttl_setting(row: JsonView) -> (bool, Option<Seq<char>>) {
    match json_field(row, "ttl"@) {
        Some(t) => (
            truth_field(t, "enabled"@) == Some(true),
            text_field(t, "attribute"@),
        ),
        None => (false, None),
    }
}

/// The attribute that holds expiry times, where they are on.
pub open spec fn ttl_attribute(row: JsonView) -> Option<Seq<char>> {
    if ttl_setting(row).0 {
        ttl_setting(row).1
    } else {
        None
    }
}

/// Reads the setting of expiry times from the row of a table.
pub fn read_ttl_setting(row: &Value) -> (r: (bool, Option<String>))
    ensures
        (r.0, opt_view(r.1)) == ttl_setting(json_view(*row)),
{
    match json_get(row, "ttl") {
        Some(t) => {
            let enabled = match get_truth(t, "enabled") {
                Some(b) => b,
                None => false,
            };
            (enabled, get_text(t, "attribute"))
        },
        None => (false, None),
    }
}

/// The description in the row of a table, in JSON.
pub open spec fn row_description(row: JsonView) -> JsonView {
    match json_field(row, "description"@) {
        Some(d) => d,
        None => JsonView::Null,
    }
}

/// Takes the description from the row of a table.
pub fn description_of(row: &Value) -> (r: Value)
    ensures
        json_view(r) == row_description(json_view(*row)),
{
    match json_get(row, "description") {
        Some(d) => json_clone(d),
        None => json_null(),
    }
}

/// What the row of a table says: its data table, its description in JSON, and
/// the attribute that holds expiry times.
#[derive(Debug)]
pub struct TableRow {
    pub data_table: String,
    pub description: Value,
    pub ttl_attr: Option<String>,
}

/// What a [`TableRow`] is.
pub struct TableRowView {
    pub data_table: Seq<char>,
    pub description: JsonView,
    pub ttl_attr: Option<Seq<char>>,
}

impl TableRow {
    pub open spec fn view(&self) -> TableRowView {
        TableRowView {
            data_table: self.data_table@,
            description: json_view(self.description),
            ttl_attr: opt_view(self.ttl_attr),
        }
    }
}

/// What the row of a table says, where there is one.
pub open spec fn table_row(row: Option<JsonView>, table_name: Seq<char>) -> Result<
    TableRowView,
    ErrView,
> {
    match row {
        None => Err(ErrView::TableNotFound(table_name)),
        Some(v) => match text_field(v, "data_table"@) {
            None => Err(ErrView::Internal("missing data_table in catalog"@)),
            Some(t) => Ok(
                TableRowView {
                    data_table: t,
                    description: row_description(v),
                    ttl_attr: ttl_attribute(v),
                },
            ),
        },
    }
}

pub open spec fn opt_json_ref(v: Option<&Value>) -> Option<JsonView> {
    match v {
        Some(x) => Some(json_view(*x)),
        None => None,
    }
}

/// Reads the row of a table.
pub fn table_full_meta_for_raw(row: Option<&Value>, table_name: &str) -> (r: Result<
    TableRow,
    StorageError,
>)
    ensures
        match r {
            Ok(t) => table_row(opt_json_ref(row), table_name@) == Ok::<TableRowView, ErrView>(t@),
            Err(e) => table_row(opt_json_ref(row), table_name@) == Err::<TableRowView, ErrView>(
                e@,
            ),
        },
{
    let row = match row {
        Some(v) => v,
        None => return Err(StorageError::TableNotFound(text(table_name))),
    };
    let data_table = match get_text(row, "data_table") {
        Some(t) => t,
        None => return Err(internal("missing data_table in catalog")),
    };
    let (enabled, attribute) = read_ttl_setting(row);
    let ttl_attr = if enabled {
        attribute
    } else {
        None
    };
    Ok(TableRow { data_table, description: description_of(row), ttl_attr })
}

/// What reading a description from its JSON comes to.
pub fn parsed_description(parsed: Result<TableDescription, String>) -> (r: Result<
    TableDescription,
    StorageError,
>)
    ensures
        match parsed {
            Ok(d) => r == Ok::<TableDescription, StorageError>(d),
            Err(m) => r matches Err(e) && e@ == ErrView::Internal("catalog deserialize: "@ + m@),
        },
{
    match parsed {
        Ok(d) => Ok(d),
        Err(m) => Err(internal(cat2("catalog deserialize: ", m.as_str()).as_str())),
    }
}

/// What is known of a table.
#[derive(Debug, PartialEq, Eq)]
pub struct TableMeta {
    pub data_table: String,
    pub description: TableDescription,
    pub ttl_attr: Option<String>,
}

impl TableMeta {
    /// The global secondary indexes.
    pub fn gsis(&self) -> (r: &[GsiDescription])
        ensures
            gsi_views(r@) == self.description.gsis(),
    {
        match &self.description.global_secondary_indexes {
            Some(l) => l.as_slice(),
            None => {
                let none: &[GsiDescription] = &[];
                assert(gsi_views(none@) =~= Seq::<IndexView>::empty());
                none
            },
        }
    }

    /// The local secondary indexes.
    pub fn lsis(&self) -> (r: &[LsiDescription])
        ensures
            lsi_views(r@) == self.description.lsis(),
    {
        match &self.description.local_secondary_indexes {
            Some(l) => l.as_slice(),
            None => {
                let none: &[LsiDescription] = &[];
                assert(lsi_views(none@) =~= Seq::<IndexView>::empty());
                none
            },
        }
    }
}

// ---------------------------------------------------------------------------
// Writes
// ---------------------------------------------------------------------------

/// What the changes of the shadow tables come to, as requests.
pub open spec fn shadow_requests(
    client: BigtableClient,
    changes: Result<Seq<PartMutView>, ErrView>,
) -> Result<Seq<MutateView>, ErrView> {
    match changes {
        Ok(c) => Ok(change_request_views(client, c)),
        Err(e) => Err(e),
    }
}

pub open spec fn requests_view(r: Result<Vec<MutateRowRequest>, StorageError>) -> Result<
    Seq<MutateView>,
    ErrView,
> {
    match r {
        Ok(l) => Ok(mutate_views(l@)),
        Err(e) => Err(e@),
    }
}

/// The requests of a change in the index of expiry times: first what goes, then
/// what comes.
pub open spec fn ttl_requests(
    client: BigtableClient,
    change: Result<(Option<Seq<u8>>, Option<Seq<u8>>), ErrView>,
) -> Result<Seq<MutateView>, ErrView> {
    match change {
        Err(e) => Err(e),
        Ok((gone, come)) => {
            let first = match gone {
                Some(k) => seq![ttl_entry_view(client, k, false)],
                None => Seq::empty(),
            };
            Ok(
                match come {
                    Some(k) => first.push(ttl_entry_view(client, k, true)),
                    None => first,
                },
            )
        },
    }
}

/// Whether the item that is there must be read before a write: for a condition,
/// to return it, to clean up shadow tables, for a stream, and for expiry times.
pub open spec fn reads_first(meta: TableMeta, has_condition: bool, return_old: bool) -> bool {
    has_condition || return_old || meta.description.gsis().len() > 0
        || meta.description.latest_stream_arn is Some || meta.ttl_attr is Some
}

/// Whether the item that is there must be read before a write.
pub fn needs_existing(meta: &TableMeta, has_condition: bool, return_old: bool) -> (r: bool)
    ensures
        r == reads_first(*meta, has_condition, return_old),
        r == (has_condition || return_old || meta.description.gsis().len() > 0
            || meta.description.latest_stream_arn is Some || meta.ttl_attr is Some),
{
    has_condition || return_old || meta.gsis().len() > 0
        || meta.description.latest_stream_arn.is_some() || meta.ttl_attr.is_some()
}

fn expiry_of(item: Option<&Item>, attribute: &str) -> (r: Option<i64>)
    ensures
        opt_int(r) == opt_expiry(opt_ref_view(item), attribute@),
{
    match item {
        Some(i) => get_ttl_expiry(i, attribute),
        None => None,
    }
}

/// Plans the changes of the index of expiry times that follow from the change
/// of an item.
pub fn ttl_maintenance(
    client: &BigtableClient,
    key_info: &TableKeyInfo,
    ttl_attr: &Option<String>,
    new: Option<&Item>,
    old: Option<&Item>,
) -> (r: Result<Vec<MutateRowRequest>, StorageError>)
    ensures
        requests_view(r) == ttl_requests(
            *client,
            ttl_change(
                opt_ref_view(new),
                opt_ref_view(old),
                opt_view(*ttl_attr),
                key_info@.schema,
                key_info@.account_id,
                key_info@.table_name,
            ),
        ),
{
    let mut out: Vec<MutateRowRequest> = Vec::new();
    let ghost none = Seq::<MutateView>::empty();
    assert(mutate_views(out@) =~= none);
    let attribute = match ttl_attr {
        Some(a) => a,
        None => return Ok(out),
    };
    let was = expiry_of(old, attribute.as_str());
    let is = expiry_of(new, attribute.as_str());
    let same = match (was, is) {
        (Some(a), Some(b)) => a == b,
        (None, None) => true,
        _ => false,
    };
    if same {
        return Ok(out);
    }
    let ghost mut first = none;
    if let (Some(e), Some(item)) = (was, old) {
        let key = match encode_key(item, key_info.key_schema.as_slice()) {
            Ok(k) => k,
            Err(e) => return Err(e),
        };
        let q = delete_ttl_index_entry(
            client,
            key_info.account_id.as_str(),
            key_info.table_name.as_str(),
            key.as_slice(),
            e,
        );
        let ghost added = q@;
        out.push(q);
        proof {
            first = seq![added];
            assert(mutate_views(out@) =~= first);
        }
    }
    if let (Some(e), Some(item)) = (is, new) {
        let key = match encode_key(item, key_info.key_schema.as_slice()) {
            Ok(k) => k,
            Err(e) => return Err(e),
        };
        let q = insert_ttl_index_entry(
            client,
            key_info.account_id.as_str(),
            key_info.table_name.as_str(),
            key.as_slice(),
            e,
        );
        let ghost added = q@;
        let ghost before = mutate_views(out@);
        out.push(q);
        assert(mutate_views(out@) =~= before.push(added));
    }
    Ok(out)
}

/// The write of an item in its own table.
#[derive(Debug, PartialEq, Eq)]
pub enum BaseWrite {
    /// Unless a transaction holds the row.
    Guarded(GuardedWrite),
    /// In any case.
    Plain(MutateRowRequest),
}

/// A write and what follows from it. The write in the table itself comes first,
/// so that a failure leaves a superfluous entry rather than none. Failures in
/// the shadow tables are passed over, but where no key can be made for one, the
/// operation fails after the write.
#[derive(Debug, PartialEq, Eq)]
pub struct ShadowedWrite {
    pub base: BaseWrite,
    pub shadows: Result<Vec<MutateRowRequest>, StorageError>,
}

/// The name of an engine's table and its profile, as a guarded write has them.
pub open spec fn guarded_put(
    engine: BigtableEngine,
    table: Seq<char>,
    key: Seq<u8>,
    item: ItemView,
    now: int,
) -> GuardView {
    guarded(
        engine.path(table),
        engine.client.profile(),
        key,
        intent_cutoff(engine.intent_timeout_secs, now),
        None,
        false,
        put_mutations(item, 1),
    )
}

/// A write in any case. The version is the time.
pub open spec fn plain_put(
    engine: BigtableEngine,
    table: Seq<char>,
    key: Seq<u8>,
    item: ItemView,
    now: int,
) -> MutateView {
    MutateView {
        table: engine.path(table),
        profile: engine.client.profile(),
        key,
        mutations: put_mutations(item, now as nat),
    }
}

/// A deletion that goes through unless a transaction holds the row.
pub open spec fn guarded_delete(
    engine: BigtableEngine,
    table: Seq<char>,
    key: Seq<u8>,
    now: int,
) -> GuardView {
    guarded(
        engine.path(table),
        engine.client.profile(),
        key,
        intent_cutoff(engine.intent_timeout_secs, now),
        None,
        false,
        crate::item_ops::delete_mutations(),
    )
}

/// The read of the row with a key.
pub open spec fn item_read(engine: BigtableEngine, table: Seq<char>, key: Seq<u8>) -> ReadView {
    ReadView {
        table: engine.path(table),
        profile: engine.client.profile(),
        keys: seq![key],
        ranges: Seq::empty(),
        limit: 1,
        filter: crate::filter::FilterView::Limit(1),
        reversed: false,
    }
}

impl BigtableEngine {
    /// Plans the write of an item in its table and in every shadow table.
    pub fn write_with_shadows(
        &self,
        key_schema: &[KeySchemaElement],
        data_table: &str,
        gsis: &[GsiDescription],
        new_item: &Item,
        old_item: Option<&Item>,
        guarded: bool,
        now_micros: i64,
    ) -> (r: Result<ShadowedWrite, StorageError>)
        requires
            guarded ==> intent_time_fits(self.intent_timeout_secs, now_micros as int),
            !guarded ==> now_micros >= 0,
        ensures
            match r {
                Ok(w) => (row_key(new_item@, schema_view(key_schema@)) matches Ok(k)
                    && match w.base {
                    BaseWrite::Guarded(g) => guarded && g@ == guarded_put(
                        *self,
                        data_table@,
                        k,
                        new_item@,
                        now_micros as int,
                    ),
                    BaseWrite::Plain(q) => !guarded && q@ == plain_put(
                        *self,
                        data_table@,
                        k,
                        new_item@,
                        now_micros as int,
                    ),
                }) && requests_view(w.shadows) == shadow_requests(
                    self.client,
                    shadow_changes(
                        Some(new_item@),
                        opt_ref_view(old_item),
                        gsi_views(gsis@),
                        schema_view(key_schema@),
                        data_table@,
                    ),
                ),
                Err(e) => row_key(new_item@, schema_view(key_schema@)) == Err::<Seq<u8>, ErrView>(
                    e@,
                ),
            },
    {
        let ops = ItemOps::new(&self.client, data_table, self.intent_timeout_secs);
        let base = if guarded {
            match ops.put(key_schema, new_item, None, false, now_micros) {
                Ok((w, _)) => BaseWrite::Guarded(w),
                Err(e) => return Err(e),
            }
        } else {
            match ops.put_unconditional(key_schema, new_item, now_micros as u64) {
                Ok(q) => BaseWrite::Plain(q),
                Err(e) => return Err(e),
            }
        };
        let shadows = match plan_shadow_changes(
            Some(new_item),
            old_item,
            gsis,
            key_schema,
            data_table,
        ) {
            Ok(c) => change_requests(&self.client, c.as_slice()),
            Err(e) => Err(e),
        };
        Ok(ShadowedWrite { base, shadows })
    }

    /// Plans the deletion of the shadow rows of an item.
    pub fn delete_shadows(
        &self,
        key_schema: &[KeySchemaElement],
        data_table: &str,
        gsis: &[GsiDescription],
        item: &Item,
    ) -> (r: Result<Vec<MutateRowRequest>, StorageError>)
        ensures
            requests_view(r) == shadow_requests(
                self.client,
                shadow_changes(
                    None,
                    Some(item@),
                    gsi_views(gsis@),
                    schema_view(key_schema@),
                    data_table@,
                ),
            ),
    {
        match plan_shadow_changes(None, Some(item), gsis, key_schema, data_table) {
            Ok(c) => change_requests(&self.client, c.as_slice()),
            Err(e) => Err(e),
        }
    }
}

fn kept_if(item: Option<&Item>, keep: bool) -> (r: Option<Item>)
    ensures
        opt_item_view(r) == if keep {
            opt_ref_view(item)
        } else {
            None
        },
{
    match item {
        Some(i) => if keep {
            Some(copy_item(i))
        } else {
            None
        },
        None => None,
    }
}

/// A put: the write, the changes of the index of expiry times, and what is
/// returned.
#[derive(Debug, PartialEq, Eq)]
pub struct PutPlan {
    pub write: ShadowedWrite,
    pub ttl: Result<Vec<MutateRowRequest>, StorageError>,
    pub old: Option<Item>,
    pub new: Option<Item>,
}

/// Whether the plan deletes what is there at the key, which was `old`.
pub open spec fn plans_delete(
    plan: DeletePlan,
    engine: BigtableEngine,
    key_info: KeyInfoView,
    meta: TableMeta,
    key: ItemView,
    old: Option<ItemView>,
    now: int,
) -> bool {
    &&& row_key(key, key_info.schema) matches Ok(k) && plan.write@ == guarded_delete(
        engine,
        meta.data_table@,
        k,
        now,
    )
    &&& requests_view(plan.shadows) == shadow_requests(
        engine.client,
        match old {
            Some(o) => shadow_changes(
                None,
                Some(o),
                meta.description.gsis(),
                key_info.schema,
                meta.data_table@,
            ),
            None => Ok(Seq::empty()),
        },
    )
    &&& requests_view(plan.ttl) == ttl_requests(
        engine.client,
        ttl_change(
            None,
            old,
            opt_view(meta.ttl_attr),
            key_info.schema,
            key_info.account_id,
            key_info.table_name,
        ),
    )
}

/// Whether the plan writes `new` over `old`.
pub open spec fn plans_put(
    plan: PutPlan,
    engine: BigtableEngine,
    key_info: KeyInfoView,
    meta: TableMeta,
    new: ItemView,
    old: Option<ItemView>,
    now: int,
) -> bool {
    &&& row_key(new, key_info.schema) matches Ok(k) && (plan.write.base matches BaseWrite::Guarded(g)
        && g@ == guarded_put(engine, meta.data_table@, k, new, now))
    &&& requests_view(plan.write.shadows) == shadow_requests(
        engine.client,
        shadow_changes(
            Some(new),
            old,
            meta.description.gsis(),
            key_info.schema,
            meta.data_table@,
        ),
    )
    &&& requests_view(plan.ttl) == ttl_requests(
        engine.client,
        ttl_change(
            Some(new),
            old,
            opt_view(meta.ttl_attr),
            key_info.schema,
            key_info.account_id,
            key_info.table_name,
        ),
    )
}

/// A deletion: the write, what follows from it where there was an item, and
/// what is returned.
#[derive(Debug, PartialEq, Eq)]
pub struct DeletePlan {
    pub write: GuardedWrite,
    pub shadows: Result<Vec<MutateRowRequest>, StorageError>,
    pub ttl: Result<Vec<MutateRowRequest>, StorageError>,
    pub old: Option<Item>,
}

impl BigtableEngine {
    /// Plans a put. `existing` is the item that is there, where it had to be
    /// read, and `evaluated` what the condition gave on it.
    pub fn put_item(
        &self,
        key_info: &TableKeyInfo,
        meta: &TableMeta,
        item: &Item,
        existing: Option<&Item>,
        evaluated: Option<Result<bool, String>>,
        return_old: bool,
        now_micros: i64,
    ) -> (r: Result<PutPlan, StorageError>)
        requires
            intent_time_fits(self.intent_timeout_secs, now_micros as int),
        ensures
            match r {
                Ok(p) => condition_result(opt_ref_view(existing), evaluation_view(evaluated)) is Ok
                    && plans_put(
                    p,
                    *self,
                    key_info@,
                    *meta,
                    item@,
                    opt_ref_view(existing),
                    now_micros as int,
                ) && opt_item_view(p.old) == (if return_old {
                    opt_ref_view(existing)
                } else {
                    None
                }) && p.new is None,
                Err(e) => match condition_result(
                    opt_ref_view(existing),
                    evaluation_view(evaluated),
                ) {
                    Err(x) => x == e@,
                    Ok(_) => row_key(item@, key_info@.schema) == Err::<Seq<u8>, ErrView>(e@),
                },
            },
    {
        if let Err(e) = check_condition(existing, evaluated) {
            return Err(e);
        }
        let write = match self.write_with_shadows(
            key_info.key_schema.as_slice(),
            meta.data_table.as_str(),
            meta.gsis(),
            item,
            existing,
            true,
            now_micros,
        ) {
            Ok(w) => w,
            Err(e) => return Err(e),
        };
        let ttl = ttl_maintenance(&self.client, key_info, &meta.ttl_attr, Some(item), existing);
        Ok(PutPlan { write, ttl, old: kept_if(existing, return_old), new: None })
    }

    /// Plans a deletion. `existing` is the item that is there, where it had to
    /// be read, and `evaluated` what the condition gave on it.
    pub fn delete_item(
        &self,
        key_info: &TableKeyInfo,
        meta: &TableMeta,
        key: &Item,
        existing: Option<&Item>,
        evaluated: Option<Result<bool, String>>,
        return_old: bool,
        now_micros: i64,
    ) -> (r: Result<DeletePlan, StorageError>)
        requires
            intent_time_fits(self.intent_timeout_secs, now_micros as int),
        ensures
            match r {
                Ok(p) => {
                    &&& condition_result(opt_ref_view(existing), evaluation_view(evaluated)) is Ok
                    &&& row_key(key@, key_info@.schema) matches Ok(k) && p.write@ == guarded_delete(
                        *self,
                        meta.data_table@,
                        k,
                        now_micros as int,
                    )
                    &&& requests_view(p.shadows) == shadow_requests(
                        self.client,
                        match existing {
                            Some(old) => shadow_changes(
                                None,
                                Some(old@),
                                meta.description.gsis(),
                                key_info@.schema,
                                meta.data_table@,
                            ),
                            None => Ok(Seq::empty()),
                        },
                    )
                    &&& requests_view(p.ttl) == ttl_requests(
                        self.client,
                        ttl_change(
                            None,
                            opt_ref_view(existing),
                            opt_view(meta.ttl_attr),
                            key_info@.schema,
                            key_info@.account_id,
                            key_info@.table_name,
                        ),
                    )
                    &&& opt_item_view(p.old) == if return_old {
                        opt_ref_view(existing)
                    } else {
                        None
                    }
                    &&& plans_delete(
                        p,
                        *self,
                        key_info@,
                        *meta,
                        key@,
                        opt_ref_view(existing),
                        now_micros as int,
                    )
                },
                Err(e) => match condition_result(
                    opt_ref_view(existing),
                    evaluation_view(evaluated),
                ) {
                    Err(x) => x == e@,
                    Ok(_) => row_key(key@, key_info@.schema) == Err::<Seq<u8>, ErrView>(e@),
                },
            },
    {
        if let Err(e) = check_condition(existing, evaluated) {
            return Err(e);
        }
        let ops = ItemOps::new(&self.client, meta.data_table.as_str(), self.intent_timeout_secs);
        let write = match ops.delete(key_info.key_schema.as_slice(), key, None, false, now_micros) {
            Ok(w) => w,
            Err(e) => return Err(e),
        };
        let shadows: Result<Vec<MutateRowRequest>, StorageError> = match existing {
            Some(old) => self.delete_shadows(
                key_info.key_schema.as_slice(),
                meta.data_table.as_str(),
                meta.gsis(),
                old,
            ),
            None => {
                let none: Vec<MutateRowRequest> = Vec::new();
                proof {
                    let c = Seq::<PartMutView>::empty();
                    assert(mutate_views(none@) =~= change_request_views(self.client, c));
                }
                Ok(none)
            },
        };
        let ttl = ttl_maintenance(&self.client, key_info, &meta.ttl_attr, None, existing);
        Ok(DeletePlan { write, shadows, ttl, old: kept_if(existing, return_old) })
    }

    /// The item that an update starts from: the one that is there, or its key.
    pub fn update_base(existing: Option<&Item>, key: &Item) -> (r: Item)
        ensures
            r@ == match existing {
                Some(i) => i@,
                None => key@,
            },
    {
        match existing {
            Some(i) => copy_item(i),
            None => copy_item(key),
        }
    }

    /// Plans an update. `existing` is the item that is there, `evaluated` what
    /// the condition gave on it, and `updated` what the update made of it.
    pub fn update_item(
        &self,
        key_info: &TableKeyInfo,
        meta: &TableMeta,
        existing: Option<&Item>,
        evaluated: Option<Result<bool, String>>,
        updated: Result<Item, String>,
        return_old: bool,
        return_new: bool,
        now_micros: i64,
    ) -> (r: Result<PutPlan, StorageError>)
        requires
            intent_time_fits(self.intent_timeout_secs, now_micros as int),
        ensures
            match r {
                Ok(p) => condition_result(opt_ref_view(existing), evaluation_view(evaluated)) is Ok
                    && (updated matches Ok(new) && plans_put(
                    p,
                    *self,
                    key_info@,
                    *meta,
                    new@,
                    opt_ref_view(existing),
                    now_micros as int,
                ) && opt_item_view(p.new) == (if return_new {
                    Some(new@)
                } else {
                    None
                })) && opt_item_view(p.old) == (if return_old {
                    opt_ref_view(existing)
                } else {
                    None
                }),
                Err(e) => match condition_result(
                    opt_ref_view(existing),
                    evaluation_view(evaluated),
                ) {
                    Err(x) => x == e@,
                    Ok(_) => match updated {
                        Err(m) => e@ == ErrView::Validation(
                            "update expression evaluation: "@ + m@,
                        ),
                        Ok(new) => row_key(new@, key_info@.schema) == Err::<Seq<u8>, ErrView>(e@),
                    },
                },
            },
    {
        if let Err(e) = check_condition(existing, evaluated) {
            return Err(e);
        }
        let new = match crate::item_ops::apply_update_actions(updated) {
            Ok(i) => i,
            Err(e) => return Err(e),
        };
        let write = match self.write_with_shadows(
            key_info.key_schema.as_slice(),
            meta.data_table.as_str(),
            meta.gsis(),
            &new,
            existing,
            true,
            now_micros,
        ) {
            Ok(w) => w,
            Err(e) => return Err(e),
        };
        let ttl = ttl_maintenance(&self.client, key_info, &meta.ttl_attr, Some(&new), existing);
        Ok(
            PutPlan {
                write,
                ttl,
                old: kept_if(existing, return_old),
                new: if return_new {
                    Some(new)
                } else {
                    None
                },
            },
        )
    }

    /// Plans the read of an item.
    pub fn get_item(&self, key_info: &TableKeyInfo, meta: &TableMeta, key: &Item) -> (r: Result<
        ReadRowsRequest,
        StorageError,
    >)
        ensures
            match r {
                Ok(q) => row_key(key@, key_info@.schema) matches Ok(k) && q@ == (ReadView {
                    table: self.path(meta.data_table@),
                    profile: self.client.profile(),
                    keys: seq![k],
                    ranges: Seq::empty(),
                    limit: 1,
                    filter: crate::filter::FilterView::Limit(1),
                    reversed: false,
                }) && q@ == item_read(*self, meta.data_table@, k),
                Err(e) => row_key(key@, key_info@.schema) == Err::<Seq<u8>, ErrView>(e@),
            },
    {
        ItemOps::new(&self.client, meta.data_table.as_str(), self.intent_timeout_secs).get(
            key_info.key_schema.as_slice(),
            key,
        )
    }
}

// ---------------------------------------------------------------------------
// Queries and scans
// ---------------------------------------------------------------------------

/// Where a query or scan goes.
pub enum TargetView {
    /// The table itself.
    Base,
    /// The shadow table of a global secondary index.
    Gsi(IndexView),
    /// The table itself, by a local secondary index.
    Lsi(IndexView),
}

/// Where a query or scan by an index goes: global secondary indexes come before
/// local ones.
pub open spec fn target(desc: TableDescription, index: Option<Seq<char>>) -> Result<
    TargetView,
    ErrView,
> {
    match index {
        None => Ok(TargetView::Base),
        Some(name) => match index_named(desc.gsis(), name) {
            Some(g) => Ok(TargetView::Gsi(g)),
            None => match index_named(desc.lsis(), name) {
                Some(l) => Ok(TargetView::Lsi(l)),
                None => Err(ErrView::IndexNotFound(name)),
            },
        },
    }
}

/// The read of a query. The rows of a local secondary index still have to be
/// ordered by its sort key.
#[derive(Debug, PartialEq, Eq)]
pub enum QueryPlan {
    Rows(ReadRowsRequest),
    Lsi { request: ReadRowsRequest, sk_name: String },
}

/// What a [`QueryPlan`] is.
pub enum QueryPlanView {
    Rows(ReadView),
    Lsi { request: ReadView, sk_name: Seq<char> },
}

impl QueryPlan {
    pub open spec fn view(&self) -> QueryPlanView {
        match self {
            QueryPlan::Rows(q) => QueryPlanView::Rows(q@),
            QueryPlan::Lsi { request, sk_name } => QueryPlanView::Lsi {
                request: request@,
                sk_name: sk_name@,
            },
        }
    }
}

/// The read of a query.
pub open spec fn query_plan(
    engine: BigtableEngine,
    schema: SchemaView,
    meta: TableMeta,
    kc: KeyCondition,
    forward: bool,
    limit: Option<i64>,
    start: Option<ItemView>,
    index: Option<Seq<char>>,
) -> Result<QueryPlanView, ErrView> {
    match target(meta.description, index) {
        Err(e) => Err(e),
        Ok(TargetView::Base) => rows_plan(
            query_read(
                engine.path(meta.data_table@),
                schema,
                kc.pk_path@,
                kc.pk_value@,
                kc.sort_condition(),
                forward,
                limit,
                start,
            ),
        ),
        Ok(TargetView::Gsi(g)) => rows_plan(
            index_query_read(
                engine.path(crate::gsi::shadow_table(meta.data_table@, g.name)),
                g.schema,
                schema,
                kc.pk_path@,
                kc.pk_value@,
                kc.sort_condition(),
                forward,
                limit,
                start,
            ),
        ),
        Ok(TargetView::Lsi(l)) => match lsi_read(
            engine.path(meta.data_table@),
            l.schema,
            kc.pk_path@,
            kc.pk_value@,
        ) {
            Err(e) => Err(e),
            Ok((request, sk_name)) => Ok(QueryPlanView::Lsi { request, sk_name }),
        },
    }
}

pub open spec fn rows_plan(r: Result<ReadView, ErrView>) -> Result<QueryPlanView, ErrView> {
    match r {
        Ok(q) => Ok(QueryPlanView::Rows(q)),
        Err(e) => Err(e),
    }
}

/// The read of a scan, and the attributes that the key of a row is made of. Of a
/// local secondary index only the items that have its sort key belong to the
/// result.
#[derive(Debug, PartialEq, Eq)]
pub struct ScanPlan {
    pub request: ReadRowsRequest,
    pub lsi: Option<Vec<KeySchemaElement>>,
    pub schema: Vec<KeySchemaElement>,
}

/// What a [`ScanPlan`] is.
pub struct ScanPlanView {
    pub request: ReadView,
    pub lsi: Option<SchemaView>,
    pub schema: SchemaView,
}

impl ScanPlan {
    pub open spec fn view(&self) -> ScanPlanView {
        ScanPlanView {
            request: self.request@,
            lsi: match self.lsi {
                Some(l) => Some(schema_view(l@)),
                None => None,
            },
            schema: schema_view(self.schema@),
        }
    }
}

/// The read of a scan.
pub open spec fn scan_plan(
    engine: BigtableEngine,
    schema: SchemaView,
    meta: TableMeta,
    limit: Option<i64>,
    start: Option<ItemView>,
    index: Option<Seq<char>>,
) -> Result<ScanPlanView, ErrView> {
    match target(meta.description, index) {
        Err(e) => Err(e),
        Ok(TargetView::Base) => match scan_read(
            engine.path(meta.data_table@),
            schema,
            limit,
            start,
        ) {
            Err(e) => Err(e),
            Ok(request) => Ok(ScanPlanView { request, lsi: None, schema }),
        },
        Ok(TargetView::Lsi(l)) => match scan_read(
            engine.path(meta.data_table@),
            schema,
            limit,
            start,
        ) {
            Err(e) => Err(e),
            Ok(request) => Ok(ScanPlanView { request, lsi: Some(l.schema), schema }),
        },
        Ok(TargetView::Gsi(g)) => match index_scan_read(
            engine.path(crate::gsi::shadow_table(meta.data_table@, g.name)),
            g.schema,
            schema,
            limit,
            start,
        ) {
            Err(e) => Err(e),
            Ok(request) => Ok(ScanPlanView { request, lsi: None, schema: g.schema + schema }),
        },
    }
}

pub open spec fn opt_str(s: Option<&str>) -> Option<Seq<char>> {
    match s {
        Some(x) => Some(x@),
        None => None,
    }
}

impl BigtableEngine {
    /// Plans a query of a table or of one of its indexes.
    pub fn query(
        &self,
        key_info: &TableKeyInfo,
        meta: &TableMeta,
        kc: &KeyCondition,
        forward: bool,
        limit: Option<i64>,
        exclusive_start_key: Option<&Item>,
        index_name: Option<&str>,
    ) -> (r: Result<QueryPlan, StorageError>)
        ensures
            match r {
                Ok(p) => query_plan(
                    *self,
                    key_info@.schema,
                    *meta,
                    *kc,
                    forward,
                    limit,
                    opt_ref_view(exclusive_start_key),
                    opt_str(index_name),
                ) == Ok::<QueryPlanView, ErrView>(p@),
                Err(e) => query_plan(
                    *self,
                    key_info@.schema,
                    *meta,
                    *kc,
                    forward,
                    limit,
                    opt_ref_view(exclusive_start_key),
                    opt_str(index_name),
                ) == Err::<QueryPlanView, ErrView>(e@),
            },
    {
        let name = match index_name {
            None => {
                let qs = QueryScan::new(&self.client, meta.data_table.as_str());
                return match qs.query(
                    key_info.key_schema.as_slice(),
                    kc,
                    forward,
                    limit,
                    exclusive_start_key,
                ) {
                    Ok(q) => Ok(QueryPlan::Rows(q)),
                    Err(e) => Err(e),
                };
            },
            Some(n) => n,
        };
        if let Some(g) = find_gsi(meta.gsis(), name) {
            let table = crate::gsi::shadow_table_id(
                meta.data_table.as_str(),
                g.index_name.as_str(),
            );
            let qs = QueryScan::new(&self.client, table.as_str());
            return match qs.query_index(
                g.key_schema.as_slice(),
                key_info.key_schema.as_slice(),
                kc,
                forward,
                limit,
                exclusive_start_key,
            ) {
                Ok(q) => Ok(QueryPlan::Rows(q)),
                Err(e) => Err(e),
            };
        }
        if let Some(l) = find_lsi(meta.lsis(), name) {
            let qs = QueryScan::new(&self.client, meta.data_table.as_str());
            return match qs.query_lsi(l.key_schema.as_slice(), kc) {
                Ok((request, sk_name)) => Ok(QueryPlan::Lsi { request, sk_name }),
                Err(e) => Err(e),
            };
        }
        Err(StorageError::IndexNotFound(text(name)))
    }

    /// Plans a scan of a table or of one of its indexes.
    pub fn scan(
        &self,
        key_info: &TableKeyInfo,
        meta: &TableMeta,
        limit: Option<i64>,
        exclusive_start_key: Option<&Item>,
        index_name: Option<&str>,
    ) -> (r: Result<ScanPlan, StorageError>)
        ensures
            match r {
                Ok(p) => scan_plan(
                    *self,
                    key_info@.schema,
                    *meta,
                    limit,
                    opt_ref_view(exclusive_start_key),
                    opt_str(index_name),
                ) == Ok::<ScanPlanView, ErrView>(p@),
                Err(e) => scan_plan(
                    *self,
                    key_info@.schema,
                    *meta,
                    limit,
                    opt_ref_view(exclusive_start_key),
                    opt_str(index_name),
                ) == Err::<ScanPlanView, ErrView>(e@),
            },
    {
        let base = key_info.key_schema.as_slice();
        let mut lsi: Option<Vec<KeySchemaElement>> = None;
        if let Some(name) = index_name {
            if let Some(g) = find_gsi(meta.gsis(), name) {
                let table = crate::gsi::shadow_table_id(
                    meta.data_table.as_str(),
                    g.index_name.as_str(),
                );
                let gsi = g.key_schema.as_slice();
                let qs = QueryScan::new(&self.client, table.as_str());
                return match qs.scan_index(gsi, base, limit, exclusive_start_key) {
                    Ok(request) => Ok(ScanPlan { request, lsi: None, schema: entry_schema(gsi, base) }),
                    Err(e) => Err(e),
                };
            } else if let Some(l) = find_lsi(meta.lsis(), name) {
                lsi = Some(copy_schema(l.key_schema.as_slice()));
            } else {
                return Err(StorageError::IndexNotFound(text(name)));
            }
        }
        let qs = QueryScan::new(&self.client, meta.data_table.as_str());
        match qs.scan(base, limit, exclusive_start_key) {
            Ok(request) => Ok(ScanPlan { request, lsi, schema: copy_schema(base) }),
            Err(e) => Err(e),
        }
    }
}

/// The attributes that the key of an index entry is made of: those of the index,
/// and those of the base row.
pub fn entry_schema(gsi: &[KeySchemaElement], base: &[KeySchemaElement]) -> (r: Vec<
    KeySchemaElement,
>)
    ensures
        schema_view(r@) == schema_view(gsi@) + schema_view(base@),
{
    let mut out = copy_schema(gsi);
    let ghost g = schema_view(gsi@);
    let ghost b = schema_view(base@);
    let mut i: usize = 0;
    assert(g + b.take(0) =~= g);
    while i < base.len()
        invariant
            i <= base.len(),
            b == schema_view(base@),
            schema_view(out@) == g + b.take(i as int),
        decreases base.len() - i,
    {
        let k = base[i].clone();
        let ghost before = schema_view(out@);
        let ghost added = k@;
        out.push(k);
        i = i + 1;
        assert(schema_view(out@) =~= before.push(added));
        assert(b.take(i as int) =~= b.take(i - 1).push(b[i - 1]));
        assert(g + b.take(i as int) =~= before.push(added));
    }
    assert(b.take(i as int) =~= b);
    out
}

/// The page of a scan: of a local secondary index, the items without its sort
/// key are dropped, after the page was cut.
pub open spec fn scan_plan_result(
    plan: ScanPlanView,
    rows: Seq<crate::bigtable::RowView>,
    limit: Option<i64>,
    segment: Option<i64>,
    total_segments: Option<i64>,
) -> Result<crate::query_scan::PageView, ErrView> {
    match crate::query_scan::scan_result(rows, plan.schema, limit, segment, total_segments) {
        Err(e) => Err(e),
        Ok((items, last)) => match plan.lsi {
            None => Ok((items, last)),
            Some(l) => match crate::value::key_name(l, crate::value::KeyType::Range) {
                None => Err(ErrView::Validation("LSI missing RANGE key"@)),
                Some(name) => Ok((crate::query_scan::having(items, name), last)),
            },
        },
    }
}

/// Turns the rows that came back for a scan into a page.
pub fn scan_plan_page(
    plan: &ScanPlan,
    rows: &[Row],
    limit: Option<i64>,
    segment: Option<i64>,
    total_segments: Option<i64>,
) -> (r: Result<(Vec<Item>, Option<Item>), StorageError>)
    ensures
        match r {
            Ok(p) => scan_plan_result(plan@, row_views(rows@), limit, segment, total_segments)
                == Ok::<crate::query_scan::PageView, ErrView>(crate::query_scan::page_view(p)),
            Err(e) => scan_plan_result(plan@, row_views(rows@), limit, segment, total_segments)
                == Err::<crate::query_scan::PageView, ErrView>(e@),
        },
{
    let (items, last) = match crate::query_scan::scan_page(
        rows,
        plan.schema.as_slice(),
        limit,
        segment,
        total_segments,
    ) {
        Ok(p) => p,
        Err(e) => return Err(e),
    };
    match &plan.lsi {
        None => Ok((items, last)),
        Some(l) => match crate::value::find_key(l.as_slice(), crate::value::KeyType::Range) {
            None => Err(invalid("LSI missing RANGE key")),
            Some(name) => Ok((crate::query_scan::items_having(items, name.as_str()), last)),
        },
    }
}

// ---------------------------------------------------------------------------
// Transactional reads
// ---------------------------------------------------------------------------

/// Reads of one table in a transaction: the positions of the operations.
#[derive(Debug, PartialEq, Eq)]
pub struct ReadGroup {
    pub data_table: String,
    pub positions: Vec<usize>,
}

/// Whether groups hold the first `n` operations, each in the group of its
/// table, with the positions of a group in order and no two groups for one
/// table.
pub open spec fn grouped(groups: Seq<ReadGroup>, tables: Seq<Seq<char>>, n: int) -> bool {
    &&& forall|g: int, h: int|
        0 <= g < h < groups.len() ==> (#[trigger] groups[g]).data_table@ != (
        #[trigger] groups[h]).data_table@
    &&& forall|g: int, p: int|
        0 <= g < groups.len() && 0 <= p < groups[g].positions@.len() ==> (
        #[trigger] groups[g].positions@[p]) < n && tables[groups[g].positions@[p] as int]
            == groups[g].data_table@
    &&& forall|g: int, p: int, q: int|
        0 <= g < groups.len() && 0 <= p < q < groups[g].positions@.len() ==> (
        #[trigger] groups[g].positions@[p]) < (#[trigger] groups[g].positions@[q])
    &&& forall|i: int| 0 <= i < n ==> #[trigger] in_groups(groups, i)
}

/// Whether a position is in one of the groups.
pub open spec fn in_groups(groups: Seq<ReadGroup>, i: int) -> bool {
    exists|g: int, p: int|
        0 <= g < groups.len() && 0 <= p < groups[g].positions@.len()
            && #[trigger] groups[g].positions@[p] == i
}

/// Groups the operations of a transaction by their tables, so that each table
/// is read once.
pub fn group_reads(tables: &[String]) -> (r: Vec<ReadGroup>)
    ensures
        grouped(r@, views(tables@), tables@.len() as int),
{
    let ghost all = views(tables@);
    let mut out: Vec<ReadGroup> = Vec::new();
    let mut i: usize = 0;
    while i < tables.len()
        invariant
            i <= tables.len(),
            all == views(tables@),
            grouped(out@, all, i as int),
        decreases tables.len() - i,
    {
        let mut g: usize = 0;
        while g < out.len() && !str_eq(out[g].data_table.as_str(), tables[i].as_str())
            invariant
                g <= out.len(),
                i < tables.len(),
                forall|h: int| 0 <= h < g ==> (#[trigger] out@[h]).data_table@ != tables@[i as int]@,
            decreases out.len() - g,
        {
            g = g + 1;
        }
        let ghost before = out@;
        assert(all[i as int] == tables@[i as int]@);
        if g < out.len() {
            let mut positions: Vec<usize> = Vec::new();
            let mut name = String::new();
            std::mem::swap(&mut positions, &mut out[g].positions);
            std::mem::swap(&mut name, &mut out[g].data_table);
            let ghost old_positions = positions@;
            assert(old_positions == before[g as int].positions@);
            positions.push(i);
            let group = ReadGroup { data_table: name, positions };
            out[g] = group;
            proof {
                lemma_group_extended(before, out@, all, i as int, g as int);
            }
        } else {
            let positions = vec![i];
            assert(positions@ =~= seq![i]);
            out.push(ReadGroup { data_table: text(tables[i].as_str()), positions });
            proof {
                lemma_group_added(before, out@, all, i as int);
            }
        }
        i = i + 1;
    }
    out
}

proof fn lemma_group_extended(
    before: Seq<ReadGroup>,
    after: Seq<ReadGroup>,
    tables: Seq<Seq<char>>,
    i: int,
    g: int,
)
    requires
        0 <= g < before.len(),
        0 <= i < tables.len(),
        i <= usize::MAX,
        grouped(before, tables, i),
        before[g].data_table@ == tables[i],
        after.len() == before.len(),
        after[g].data_table@ == before[g].data_table@,
        after[g].positions@ == before[g].positions@.push(i as usize),
        forall|h: int| 0 <= h < before.len() && h != g ==> #[trigger] after[h] == before[h],
    ensures
        grouped(after, tables, i + 1),
{
    assert forall|h: int, p: int|
        0 <= h < after.len() && 0 <= p < after[h].positions@.len() implies (
    #[trigger] after[h].positions@[p]) < i + 1 && tables[after[h].positions@[p] as int]
        == after[h].data_table@ by {
        if h == g && p == before[g].positions@.len() {
        } else {
            assert(after[h].positions@[p] == before[h].positions@[p]);
        }
    }
    assert forall|h: int, p: int, q: int|
        0 <= h < after.len() && 0 <= p < q < after[h].positions@.len() implies (
    #[trigger] after[h].positions@[p]) < (#[trigger] after[h].positions@[q]) by {
        assert(after[h].positions@[p] == before[h].positions@[p]);
        if !(h == g && q == before[g].positions@.len()) {
            assert(after[h].positions@[q] == before[h].positions@[q]);
        }
    }
    assert forall|j: int| 0 <= j < i + 1 implies #[trigger] in_groups(after, j) by {
        if j == i {
            assert(after[g].positions@[before[g].positions@.len() as int] == j);
        } else {
            assert(in_groups(before, j));
            let (h, p) = choose|h: int, p: int|
                0 <= h < before.len() && 0 <= p < before[h].positions@.len()
                    && #[trigger] before[h].positions@[p] == j;
            assert(after[h].positions@[p] == j);
        }
    }
}

proof fn lemma_group_added(
    before: Seq<ReadGroup>,
    after: Seq<ReadGroup>,
    tables: Seq<Seq<char>>,
    i: int,
)
    requires
        0 <= i < tables.len(),
        i <= usize::MAX,
        grouped(before, tables, i),
        forall|h: int| 0 <= h < before.len() ==> (#[trigger] before[h]).data_table@ != tables[i],
        after.len() == before.len() + 1,
        forall|h: int| 0 <= h < before.len() ==> #[trigger] after[h] == before[h],
        after.last().data_table@ == tables[i],
        after.last().positions@ == seq![i as usize],
    ensures
        grouped(after, tables, i + 1),
{
    let n = before.len() as int;
    assert(after[n] == after.last());
    assert forall|h: int, p: int|
        0 <= h < after.len() && 0 <= p < after[h].positions@.len() implies (
    #[trigger] after[h].positions@[p]) < i + 1 && tables[after[h].positions@[p] as int]
        == after[h].data_table@ by {
        if h < n {
            assert(after[h].positions@[p] == before[h].positions@[p]);
        }
    }
    assert forall|h: int, p: int, q: int|
        0 <= h < after.len() && 0 <= p < q < after[h].positions@.len() implies (
    #[trigger] after[h].positions@[p]) < (#[trigger] after[h].positions@[q]) by {
        assert(after[h].positions@[p] == before[h].positions@[p]);
        assert(after[h].positions@[q] == before[h].positions@[q]);
    }
    assert forall|j: int| 0 <= j < i + 1 implies #[trigger] in_groups(after, j) by {
        if j == i {
            assert(after[n].positions@[0] == j);
        } else {
            assert(in_groups(before, j));
            let (h, p) = choose|h: int, p: int|
                0 <= h < before.len() && 0 <= p < before[h].positions@.len()
                    && #[trigger] before[h].positions@[p] == j;
            assert(after[h].positions@[p] == j);
        }
    }
}

/// Whether what was read of each group stands at the positions of the group.
pub open spec fn placed(
    groups: Seq<ReadGroup>,
    results: Seq<Vec<Option<Item>>>,
    out: Seq<Option<ItemView>>,
) -> bool {
    forall|g: int, p: int|
        0 <= g < groups.len() && 0 <= p < groups[g].positions@.len() ==> out[(
        #[trigger] groups[g].positions@[p]) as int] == opt_item_view(results[g]@[p])
}

/// Puts what was read of each group at the positions of its operations.
pub fn transact_get_items(
    groups: &[ReadGroup],
    results: &[Vec<Option<Item>>],
    tables: &[String],
) -> (r: Vec<Option<Item>>)
    requires
        grouped(groups@, views(tables@), tables@.len() as int),
        results@.len() == groups@.len(),
        forall|g: int|
            0 <= g < groups@.len() ==> (#[trigger] results@[g])@.len()
                == groups@[g].positions@.len(),
    ensures
        r@.len() == tables@.len(),
        placed(groups@, results@, crate::item_ops::opt_item_views(r@)),
{
    let n = tables.len();
    let mut out: Vec<Option<Item>> = Vec::new();
    let mut i: usize = 0;
    while i < n
        invariant
            i <= n,
            out@.len() == i,
        decreases n - i,
    {
        out.push(None);
        i = i + 1;
    }
    let mut g: usize = 0;
    while g < groups.len()
        invariant
            g <= groups.len(),
            n == tables@.len(),
            out@.len() == n,
            grouped(groups@, views(tables@), n as int),
            results@.len() == groups@.len(),
            forall|h: int|
                0 <= h < groups@.len() ==> (#[trigger] results@[h])@.len()
                    == groups@[h].positions@.len(),
            forall|h: int, p: int|
                0 <= h < g && 0 <= p < groups@[h].positions@.len() ==> opt_item_view(
                    out@[(#[trigger] groups@[h].positions@[p]) as int],
                ) == opt_item_view(results@[h]@[p]),
        decreases groups.len() - g,
    {
        let mut p: usize = 0;
        assert(results@[g as int]@.len() == groups@[g as int].positions@.len());
        while p < groups[g].positions.len()
            invariant
                g < groups.len(),
                p <= groups@[g as int].positions@.len(),
                n == tables@.len(),
                out@.len() == n,
                grouped(groups@, views(tables@), n as int),
                results@.len() == groups@.len(),
                results@[g as int]@.len() == groups@[g as int].positions@.len(),
                forall|h: int, q: int|
                    0 <= h < g && 0 <= q < groups@[h].positions@.len() ==> opt_item_view(
                        out@[(#[trigger] groups@[h].positions@[q]) as int],
                    ) == opt_item_view(results@[h]@[q]),
                forall|q: int|
                    0 <= q < p ==> opt_item_view(
                        out@[(#[trigger] groups@[g as int].positions@[q]) as int],
                    ) == opt_item_view(results@[g as int]@[q]),
            decreases groups@[g as int].positions@.len() - p,
        {
            let at = groups[g].positions[p];
            let item = match &results[g][p] {
                Some(x) => Some(copy_item(x)),
                None => None,
            };
            let ghost before = out@;
            assert(groups@[g as int].positions@[p as int] < n);
            out[at] = item;
            proof {
                assert forall|h: int, q: int|
                    0 <= h < g && 0 <= q < groups@[h].positions@.len() implies opt_item_view(
                    out@[(#[trigger] groups@[h].positions@[q]) as int],
                ) == opt_item_view(results@[h]@[q]) by {
                    let other = groups@[h].positions@[q];
                    if other == at {
                        assert(views(tables@)[other as int] == groups@[h].data_table@);
                        assert(views(tables@)[groups@[g as int].positions@[p as int] as int]
                            == groups@[g as int].data_table@);
                        assert(false);
                    }
                    assert(out@[other as int] == before[other as int]);
                }
                assert forall|q: int| 0 <= q < p + 1 implies opt_item_view(
                    out@[(#[trigger] groups@[g as int].positions@[q]) as int],
                ) == opt_item_view(results@[g as int]@[q]) by {
                    if q < p {
                        let other = groups@[g as int].positions@[q];
                        assert(other < groups@[g as int].positions@[p as int]);
                        assert(out@[other as int] == before[other as int]);
                    }
                }
            }
            p = p + 1;
        }
        g = g + 1;
    }
    out
}

} // verus!

//! Settings of tables: expiry of items, and tags.

use serde_json::Value;
use vstd::prelude::*;
use vstd::string::*;

use crate::catalog::record_views;
use crate::engine::{read_ttl_setting, ttl_attribute, ttl_setting};
use crate::error::{ErrView, StorageError};
use crate::json::{
    json_field, json_node, json_record, json_text, json_view, member, member_views, no_members,
    record_member, record_of_members, set_field, with_field, with_text, with_truth, JsonNode,
    JsonView,
};
use crate::lists::{lemma_next, reversed};
use crate::text::{
    opt_view, rsplit_once, split_at_last, str_eq, strip_prefix, text, views, without_prefix,
};

verus! {

// ---------------------------------------------------------------------------
// Expiry
// ---------------------------------------------------------------------------

/// Whether the items of a table expire, and the attribute that says when.
#[derive(Debug, PartialEq, Eq)]
pub struct TimeToLiveDescription {
    pub enabled: bool,
    pub attribute_name: Option<String>,
}

/// Reads from the row of a table whether its items expire.
pub fn describe_ttl(row: Option<&Value>, table_name: &str) -> (r: Result<
    TimeToLiveDescription,
    StorageError,
>)
    ensures
        match r {
            Ok(d) => row is Some && (d.enabled, opt_view(d.attribute_name)) == ttl_setting(
                json_view(*row->0),
            ),
            Err(e) => row is None && e@ == ErrView::TableNotFound(table_name@),
        },
{
    match row {
        None => Err(StorageError::TableNotFound(text(table_name))),
        Some(v) => {
            let (enabled, attribute_name) = read_ttl_setting(v);
            Ok(TimeToLiveDescription { enabled, attribute_name })
        },
    }
}

/// The setting of expiry times in JSON.
pub open spec fn ttl_record(attribute: Seq<char>, enabled: bool) -> JsonView {
    json_record(
        seq![("enabled"@, JsonView::Bool(enabled)), ("attribute"@, JsonView::Str(attribute))],
    )
}

/// The row of a table after its items were made to expire, or not.
pub open spec fn ttl_updated(row: Option<JsonView>, name: Seq<char>, attribute: Seq<char>, enabled: bool) -> Result<
    JsonView,
    ErrView,
> {
    match row {
        None => Err(ErrView::TableNotFound(name)),
        Some(v) => Ok(with_field(v, "ttl"@, ttl_record(attribute, enabled))),
    }
}

/// Writes into the row of a table whether its items expire.
pub fn update_ttl(row: Option<Value>, table_name: &str, attribute_name: &str, enabled: bool) -> (r:
    Result<Value, StorageError>)
    ensures
        match r {
            Ok(v) => ttl_updated(
                crate::catalog::opt_json(row),
                table_name@,
                attribute_name@,
                enabled,
            ) == Ok::<JsonView, ErrView>(json_view(v)),
            Err(e) => ttl_updated(
                crate::catalog::opt_json(row),
                table_name@,
                attribute_name@,
                enabled,
            ) == Err::<JsonView, ErrView>(e@),
        },
{
    match row {
        None => Err(StorageError::TableNotFound(text(table_name))),
        Some(v) => {
            let m = with_truth(no_members(), "enabled", enabled);
            let m = with_text(m, "attribute", attribute_name);
            assert(member_views(m@) =~= seq![
                ("enabled"@, JsonView::Bool(enabled)),
                ("attribute"@, JsonView::Str(attribute_name@)),
            ]);
            Ok(set_field(v, "ttl", record_of_members(m)))
        },
    }
}

/// What was set for the expiry of items is read back, and all else in the row
/// stays.
pub proof fn ttl_reads_back(
    m: Seq<(Seq<char>, JsonView)>,
    attribute: Seq<char>,
    enabled: bool,
    name: Seq<char>,
)
    requires
        name != "ttl"@,
    ensures
        ({
            let row = with_field(JsonView::Object(m), "ttl"@, ttl_record(attribute, enabled));
            &&& ttl_setting(row) == (enabled, Some(attribute))
            &&& ttl_attribute(row) == if enabled {
                Some(attribute)
            } else {
                None
            }
            &&& json_field(row, name) == json_field(JsonView::Object(m), name)
        }),
{
    let t = seq![("enabled"@, JsonView::Bool(enabled)), ("attribute"@, JsonView::Str(attribute))];
    let p = m.push(("ttl"@, json_record(t)));
    record_member(p, "ttl"@);
    record_member(p, name);
    record_member(t, "enabled"@);
    record_member(t, "attribute"@);
    assert(p.drop_last() =~= m);
    reveal_strlit("enabled");
    reveal_strlit("attribute");
    assert("enabled"@.len() == 7 && "attribute"@.len() == 9);
    reveal_with_fuel(member, 2);
    assert(t.drop_last().last() == t[0]);
}

/// The tables whose items expire, by their rows: name and attribute.
pub open spec fn expiring(rows: Seq<(Seq<char>, JsonView)>) -> Seq<(Seq<char>, Seq<char>)>
    decreases rows.len(),
{
    if rows.len() == 0 {
        Seq::empty()
    } else {
        let rest = expiring(rows.drop_last());
        match (ttl_attribute(rows.last().1), rsplit_once(rows.last().0, ':')) {
            (Some(a), Some((_, name))) => rest.push((name, a)),
            _ => rest,
        }
    }
}

pub open spec fn pair_views(l: Seq<(String, String)>) -> Seq<(Seq<char>, Seq<char>)> {
    l.map_values(|p: (String, String)| (p.0@, p.1@))
}

/// Lists the tables whose items expire, by their rows.
pub fn tables_with_ttl(rows: &[(String, Value)]) -> (r: Vec<(String, String)>)
    ensures
        pair_views(r@) == expiring(record_views(rows@)),
{
    let ghost all = record_views(rows@);
    let mut out: Vec<(String, String)> = Vec::new();
    let mut i: usize = 0;
    assert(pair_views(out@) =~= expiring(all.take(0)));
    while i < rows.len()
        invariant
            i <= rows.len(),
            all == record_views(rows@),
            pair_views(out@) == expiring(all.take(i as int)),
        decreases rows.len() - i,
    {
        proof {
            assert(all.take(i + 1).drop_last() =~= all.take(i as int));
            assert(all.take(i + 1).last() == (rows@[i as int].0@, json_view(rows@[i as int].1)));
        }
        let (enabled, attribute) = read_ttl_setting(&rows[i].1);
        if enabled {
            if let Some(a) = attribute {
                if let Some((_, name)) = split_at_last(rows[i].0.as_str(), ':') {
                    let ghost before = pair_views(out@);
                    let ghost added = (name@, a@);
                    out.push((name, a));
                    assert(pair_views(out@) =~= before.push(added));
                }
            }
        }
        i = i + 1;
    }
    assert(all.take(i as int) =~= all);
    out
}

/// The account that a row of the catalog is for; a key without the prefix of
/// accounts is taken whole.
pub open spec fn account_named(key: Seq<char>) -> Seq<char> {
    match strip_prefix(key, "acct:"@) {
        Some(a) => a,
        None => key,
    }
}

/// The tables of an account whose items expire: account, name and attribute.
pub open spec fn expiring_of(key: Seq<char>, rows: Seq<(Seq<char>, JsonView)>) -> Seq<
    (Seq<char>, Seq<char>, Seq<char>),
> {
    expiring(rows).map_values(|p: (Seq<char>, Seq<char>)| (account_named(key), p.0, p.1))
}

/// The tables of all accounts whose items expire, account by account.
pub open spec fn all_expiring(accounts: Seq<(String, Vec<(String, Value)>)>) -> Seq<
    (Seq<char>, Seq<char>, Seq<char>),
>
    decreases accounts.len(),
{
    if accounts.len() == 0 {
        Seq::empty()
    } else {
        all_expiring(accounts.drop_last()) + expiring_of(
            accounts.last().0@,
            record_views(accounts.last().1@),
        )
    }
}

pub open spec fn triple_views(l: Seq<(String, String, String)>) -> Seq<
    (Seq<char>, Seq<char>, Seq<char>),
> {
    l.map_values(|p: (String, String, String)| (p.0@, p.1@, p.2@))
}

/// Lists the tables of all accounts whose items expire. Each account comes with
/// the key of its row and with the rows of its tables.
pub fn all_tables_with_ttl(accounts: &[(String, Vec<(String, Value)>)]) -> (r: Vec<
    (String, String, String),
>)
    ensures
        triple_views(r@) == all_expiring(accounts@),
{
    let mut out: Vec<(String, String, String)> = Vec::new();
    let mut i: usize = 0;
    assert(triple_views(out@) =~= all_expiring(accounts@.take(0)));
    while i < accounts.len()
        invariant
            i <= accounts.len(),
            triple_views(out@) == all_expiring(accounts@.take(i as int)),
        decreases accounts.len() - i,
    {
        let key = &accounts[i].0;
        let account = match without_prefix(key.as_str(), "acct:") {
            Some(a) => a,
            None => text(key.as_str()),
        };
        let tables = tables_with_ttl(accounts[i].1.as_slice());
        let ghost before = triple_views(out@);
        let ghost found = expiring_of(key@, record_views(accounts@[i as int].1@));
        assert(found.len() == tables@.len());
        let mut j: usize = 0;
        assert(triple_views(out@) =~= before + found.take(0));
        while j < tables.len()
            invariant
                j <= tables.len(),
                account@ == account_named(key@),
                found.len() == tables@.len(),
                found == expiring_of(key@, record_views(accounts@[i as int].1@)),
                pair_views(tables@) == expiring(record_views(accounts@[i as int].1@)),
                triple_views(out@) == before + found.take(j as int),
            decreases tables.len() - j,
        {
            let t = (
                text(account.as_str()),
                text(tables[j].0.as_str()),
                text(tables[j].1.as_str()),
            );
            let ghost so_far = triple_views(out@);
            let ghost added = (t.0@, t.1@, t.2@);
            out.push(t);
            proof {
                assert(pair_views(tables@)[j as int] == (tables@[j as int].0@, tables@[j as int].1@));
                assert(triple_views(out@) =~= so_far.push(added));
                assert(found.take(j + 1) =~= found.take(j as int).push(added));
                assert(triple_views(out@) =~= before + found.take(j + 1));
            }
            j = j + 1;
        }
        proof {
            assert(found.take(j as int) =~= found);
            assert(accounts@.take(i + 1).drop_last() =~= accounts@.take(i as int));
            assert(accounts@.take(i + 1).last() == accounts@[i as int]);
        }
        i = i + 1;
    }
    assert(accounts@.take(i as int) =~= accounts@);
    out
}

// ---------------------------------------------------------------------------
// Tags
// ---------------------------------------------------------------------------

/// A tag of a table.
#[derive(Debug, PartialEq, Eq)]
pub struct Tag {
    pub key: String,
    pub value: String,
}

impl Tag {
    pub open spec fn view(&self) -> (Seq<char>, Seq<char>) {
        (self.key@, self.value@)
    }
}

pub open spec fn tag_views(l: Seq<Tag>) -> Seq<(Seq<char>, Seq<char>)> {
    l.map_values(|t: Tag| t@)
}

/// The members of the record of tags; what is no object has none.
pub open spec fn tag_members(record: Option<JsonView>) -> Seq<(Seq<char>, JsonView)> {
    match record {
        Some(JsonView::Object(m)) => m,
        _ => Seq::empty(),
    }
}

/// Tags in JSON.
pub open spec fn tags_json(l: Seq<(Seq<char>, Seq<char>)>) -> Seq<(Seq<char>, JsonView)> {
    l.map_values(|t: (Seq<char>, Seq<char>)| (t.0, JsonView::Str(t.1)))
}

fn members_of(record: Option<Value>) -> (r: Vec<(String, Value)>)
    ensures
        member_views(r@) == tag_members(crate::catalog::opt_json(record)),
{
    match record {
        None => no_members(),
        Some(v) => match json_node(v) {
            JsonNode::Object(m) => m,
            _ => no_members(),
        },
    }
}

/// Adds tags to the record of tags; a tag whose key is there takes its place.
pub fn tag_resource(record: Option<Value>, tags: &[Tag]) -> (r: Value)
    ensures
        json_view(r) == json_record(
            tag_members(crate::catalog::opt_json(record)) + tags_json(tag_views(tags@)),
        ),
{
    let ghost start = tag_members(crate::catalog::opt_json(record));
    let ghost added = tags_json(tag_views(tags@));
    let mut m = members_of(record);
    let mut i: usize = 0;
    assert(member_views(m@) =~= start + added.take(0));
    while i < tags.len()
        invariant
            i <= tags.len(),
            added == tags_json(tag_views(tags@)),
            member_views(m@) == start + added.take(i as int),
        decreases tags.len() - i,
    {
        let ghost before = member_views(m@);
        m = with_text(m, tags[i].key.as_str(), tags[i].value.as_str());
        i = i + 1;
        assert(member_views(m@) =~= start + added.take(i as int));
    }
    assert(added.take(i as int) =~= added);
    record_of_members(m)
}

/// The members whose names are not among the given ones.
pub open spec fn without_names(m: Seq<(Seq<char>, JsonView)>, names: Seq<Seq<char>>) -> Seq<
    (Seq<char>, JsonView),
>
    decreases m.len(),
{
    if m.len() == 0 {
        Seq::empty()
    } else if names.contains(m.last().0) {
        without_names(m.drop_last(), names)
    } else {
        without_names(m.drop_last(), names).push(m.last())
    }
}

fn named(names: &[String], name: &str) -> (r: bool)
    ensures
        r == views(names@).contains(name@),
{
    let mut i: usize = 0;
    while i < names.len()
        invariant
            i <= names.len(),
            forall|k: int| 0 <= k < i ==> names@[k]@ != name@,
        decreases names.len() - i,
    {
        if str_eq(names[i].as_str(), name) {
            assert(views(names@)[i as int] == name@);
            return true;
        }
        i = i + 1;
    }
    proof {
        if views(names@).contains(name@) {
            let k = choose|k: int| 0 <= k < views(names@).len() && views(names@)[k] == name@;
            assert(names@[k]@ == name@);
        }
    }
    false
}

/// Takes tags out of the record of tags, where there is one.
pub fn untag_resource(record: Option<Value>, tag_keys: &[String]) -> (r: Option<Value>)
    ensures
        match r {
            None => record is None,
            Some(v) => record is Some && json_view(v) == json_record(
                without_names(
                    tag_members(crate::catalog::opt_json(record)),
                    views(tag_keys@),
                ),
            ),
        },
{
    if record.is_none() {
        return None;
    }
    let ghost all = tag_members(crate::catalog::opt_json(record));
    let given = members_of(record);
    let ghost given_seq = given@;
    let mut left = reversed(given);
    let mut out: Vec<(String, Value)> = no_members();
    let ghost mut k: int = 0;
    proof {
        assert(given_seq.skip(0) =~= given_seq);
        assert(member_views(out@) =~= without_names(all.take(0), views(tag_keys@)));
    }
    while left.len() > 0
        invariant
            0 <= k <= given_seq.len(),
            all == member_views(given_seq),
            left@ == given_seq.skip(k).reverse(),
            member_views(out@) == without_names(all.take(k), views(tag_keys@)),
        decreases left.len(),
    {
        proof {
            lemma_next(given_seq, k);
            assert(all.take(k + 1).drop_last() =~= all.take(k));
            assert(all.take(k + 1).last() == (given_seq[k].0@, json_view(given_seq[k].1)));
        }
        let x = left.pop().unwrap();
        if !named(tag_keys, x.0.as_str()) {
            let ghost before = member_views(out@);
            let ghost added = (x.0@, json_view(x.1));
            out.push(x);
            assert(member_views(out@) =~= before.push(added));
        }
        proof {
            k = k + 1;
        }
    }
    assert(all.take(k) =~= all);
    Some(record_of_members(out))
}

/// The tags in the record of tags: the members that are texts.
pub open spec fn tags_of(m: Seq<(Seq<char>, JsonView)>) -> Seq<(Seq<char>, Seq<char>)>
    decreases m.len(),
{
    if m.len() == 0 {
        Seq::empty()
    } else {
        match json_text(m.last().1) {
            Some(v) => tags_of(m.drop_last()).push((m.last().0, v)),
            None => tags_of(m.drop_last()),
        }
    }
}

/// Lists the tags in the record of tags.
pub fn list_tags(record: Option<Value>) -> (r: Vec<Tag>)
    ensures
        tag_views(r@) == tags_of(tag_members(crate::catalog::opt_json(record))),
{
    let ghost all = tag_members(crate::catalog::opt_json(record));
    let given = members_of(record);
    let ghost given_seq = given@;
    let mut left = reversed(given);
    let mut out: Vec<Tag> = Vec::new();
    let ghost mut k: int = 0;
    proof {
        assert(given_seq.skip(0) =~= given_seq);
        assert(tag_views(out@) =~= tags_of(all.take(0)));
    }
    while left.len() > 0
        invariant
            0 <= k <= given_seq.len(),
            all == member_views(given_seq),
            left@ == given_seq.skip(k).reverse(),
            tag_views(out@) == tags_of(all.take(k)),
        decreases left.len(),
    {
        proof {
            lemma_next(given_seq, k);
            assert(all.take(k + 1).drop_last() =~= all.take(k));
            assert(all.take(k + 1).last() == (given_seq[k].0@, json_view(given_seq[k].1)));
        }
        let (key, v) = left.pop().unwrap();
        if let JsonNode::Str(value) = json_node(v) {
            let ghost before = tag_views(out@);
            let ghost added = (key@, value@);
            out.push(Tag { key, value });
            assert(tag_views(out@) =~= before.push(added));
        }
        proof {
            k = k + 1;
        }
    }
    assert(all.take(k) =~= all);
    out
}

/// The value of a tag after tags were added is that of the last of them with its
/// key, and that of before where none has it.
pub proof fn tags_read_back(
    m: Seq<(Seq<char>, JsonView)>,
    tags: Seq<(Seq<char>, Seq<char>)>,
    key: Seq<char>,
)
    ensures
        json_field(json_record(m + tags_json(tags)), key) == match member(tags_json(tags), key) {
            Some(v) => Some(v),
            None => member(m, key),
        },
{
    record_member(m + tags_json(tags), key);
    lemma_member_concat(m, tags_json(tags), key);
}

proof fn lemma_member_concat(
    a: Seq<(Seq<char>, JsonView)>,
    b: Seq<(Seq<char>, JsonView)>,
    key: Seq<char>,
)
    ensures
        member(a + b, key) == match member(b, key) {
            Some(v) => Some(v),
            None => member(a, key),
        },
    decreases b.len(),
{
    if b.len() > 0 {
        assert((a + b).drop_last() =~= a + b.drop_last());
        lemma_member_concat(a, b.drop_last(), key);
    } else {
        assert(a + b =~= a);
    }
}

/// A tag that was taken out is gone, and the others stay.
pub proof fn tags_are_taken_out(
    m: Seq<(Seq<char>, JsonView)>,
    names: Seq<Seq<char>>,
    key: Seq<char>,
)
    ensures
        json_field(json_record(without_names(m, names)), key) == if names.contains(key) {
            None
        } else {
            member(m, key)
        },
    decreases m.len(),
{
    record_member(without_names(m, names), key);
    lemma_without_names(m, names, key);
}

proof fn lemma_without_names(
    m: Seq<(Seq<char>, JsonView)>,
    names: Seq<Seq<char>>,
    key: Seq<char>,
)
    ensures
        member(without_names(m, names), key) == if names.contains(key) {
            None
        } else {
            member(m, key)
        },
    decreases m.len(),
{
    if m.len() > 0 {
        let d = m.drop_last();
        lemma_without_names(d, names, key);
        if !names.contains(m.last().0) {
            assert(without_names(m, names).drop_last() =~= without_names(d, names));
        }
    }
}

} // verus!

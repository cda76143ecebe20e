//! The first rows of a catalog: its version, its key, an account and an
//! administrator.

use serde_json::Value;
use vstd::prelude::*;
use vstd::string::*;

use crate::bytes::{be_value, be_value_round_trip, pow256, read_u64_be};
use crate::catalog::{CATALOG_TABLE, CF};
use crate::catalog_store::{admin_record, create_admin, cut, cut_text, OpErrView, OpError};
use crate::config::{connection_text, BigtableStorageConfig};
use crate::engine::opt_str;
use crate::hash::{bcrypt_hash, password_fits};
use crate::json::{
    base64_encode, base64_text, base64_url_encode, base64_url_text, get_text, get_truth_or,
    json_record, json_view, no_members, record_of_members, text_field, truth_field, with_text,
    JsonView,
};
use crate::keys::{lemma_padded, ten_to};
use crate::operations::{contains_text, holds_text, CATALOG_VERSION};
use crate::random::{drawn_view, draws, made_view, random_bytes};
use crate::text::{
    all_digits, cat2, cat3, cat4, cat6, decimal, decimal_round_trip, opt_view, padded_text,
    rsplit_once, split_at_last, str_eq, strip_prefix, text, views, without_prefix, zero_padded,
};
use crate::transact::TXN_LOG_TABLE;
use crate::ttl_key::TTL_INDEX_TABLE;

verus! {

/// The administrator, where none is named.
pub const DEFAULT_ADMIN_USER: &'static str = "admin";

/// How long a password is that is made up.
pub const ADMIN_PASSWORD_LEN: usize = 24;

/// The record of the version of the catalog.
pub open spec fn version_record(applied: Seq<char>) -> JsonView {
    json_record(
        seq![
            ("catalog_version"@, JsonView::Str(CATALOG_VERSION@)),
            ("applied_at"@, JsonView::Str(applied)),
        ],
    )
}

/// Builds the record of the version of the catalog. It says that version.
pub fn run_catalog_migrations(applied_at: &str) -> (r: Value)
    ensures
        json_view(r) == version_record(applied_at@),
        text_field(json_view(r), "catalog_version"@) == Some(CATALOG_VERSION@),
{
    let m = with_text(no_members(), "catalog_version", CATALOG_VERSION);
    let m = with_text(m, "applied_at", applied_at);
    proof {
        let s = seq![
            ("catalog_version"@, JsonView::Str(CATALOG_VERSION@)),
            ("applied_at"@, JsonView::Str(applied_at@)),
        ];
        assert(crate::json::member_views(m@) =~= s);
        crate::json::record_member(s, "catalog_version"@);
        reveal_strlit("catalog_version");
        reveal_strlit("applied_at");
        assert("catalog_version"@.len() == 15 && "applied_at"@.len() == 10);
        reveal_with_fuel(crate::json::member, 2);
        assert(s.drop_last().last() == s[0]);
    }
    record_of_members(m)
}

/// The version that a record says.
pub fn read_catalog_version(row: Option<&Value>) -> (r: Option<String>)
    ensures
        opt_view(r) == match row {
            Some(v) => text_field(json_view(*v), "catalog_version"@),
            None => None,
        },
{
    match row {
        Some(v) => get_text(v, "catalog_version"),
        None => None,
    }
}

/// Whether there is a catalog: its version can be read. Where the read fails
/// there is none.
pub fn is_catalog_initialized(read: Result<Option<Value>, String>) -> (r: bool)
    ensures
        r == (read matches Ok(Some(_))),
{
    match read {
        Ok(Some(_)) => true,
        _ => false,
    }
}

/// The record of the key that secrets are sealed with.
pub open spec fn key_record(key: Seq<u8>, created: Seq<char>) -> JsonView {
    json_record(
        seq![
            ("algorithm"@, JsonView::Str("AES-256-GCM"@)),
            ("key_b64"@, JsonView::Str(base64_text(key))),
            ("created_at"@, JsonView::Str(created)),
        ],
    )
}

/// Builds the record of a key.
pub fn key_material(key: &[u8], created_at: &str) -> (r: Value)
    ensures
        json_view(r) == key_record(key@, created_at@),
        text_field(json_view(r), "key_b64"@) == Some(base64_text(key@)),
{
    let m = with_text(no_members(), "algorithm", "AES-256-GCM");
    let m = with_text(m, "key_b64", base64_encode(key).as_str());
    let m = with_text(m, "created_at", created_at);
    proof {
        let s = seq![
            ("algorithm"@, JsonView::Str("AES-256-GCM"@)),
            ("key_b64"@, JsonView::Str(base64_text(key@))),
            ("created_at"@, JsonView::Str(created_at@)),
        ];
        assert(crate::json::member_views(m@) =~= s);
        crate::json::record_member(s, "key_b64"@);
        reveal_strlit("key_b64");
        reveal_strlit("created_at");
        assert("key_b64"@.len() == 7 && "created_at"@.len() == 10);
        reveal_with_fuel(crate::json::member, 2);
        assert(s.drop_last().last() == s[1]);
    }
    record_of_members(m)
}

/// The record of a key that is made of drawn bytes, unless there is a key.
pub open spec fn key_record_from(
    known: bool,
    d: Result<Seq<u8>, Seq<char>>,
    created: Seq<char>,
) -> Result<Option<JsonView>, OpErrView> {
    if known {
        Ok(None)
    } else {
        match d {
            Ok(k) => Ok(Some(key_record(k, created))),
            Err(m) => Err(OpErrView::Internal("rng: "@ + m)),
        }
    }
}

pub open spec fn key_record_made(r: Result<Option<Value>, OpError>) -> Result<
    Option<JsonView>,
    OpErrView,
> {
    match r {
        Ok(Some(v)) => Ok(Some(json_view(v))),
        Ok(None) => Ok(None),
        Err(e) => Err(e@),
    }
}

/// Makes the record of a key of drawn bytes, unless there is a key.
pub fn drawn_encryption_key(
    existing: Option<&Value>,
    drawn: Result<Vec<u8>, String>,
    created_at: &str,
) -> (r: Result<Option<Value>, OpError>)
    ensures
        key_record_made(r) == key_record_from(existing is Some, drawn_view(drawn), created_at@),
{
    if existing.is_some() {
        return Ok(None);
    }
    match drawn {
        Ok(k) => Ok(Some(key_material(k.as_slice(), created_at))),
        Err(e) => Err(OpError::Internal(cat2("rng: ", e.as_str()))),
    }
}

/// Makes up the record of a key of 32 bytes, unless there is a key. Whether there
/// are bytes to make it of, and which, is left to chance.
pub fn bootstrap_encryption_key(existing: Option<&Value>, created_at: &str) -> (r: Result<
    Option<Value>,
    OpError,
>)
    ensures
        match r {
            Ok(None) => existing is Some,
            Ok(Some(v)) => existing is None && exists|k: Seq<u8>|
                k.len() == 32 && json_view(v) == #[trigger] key_record(k, created_at@),
            Err(e) => existing is None && e@ is Internal,
        },
{
    if existing.is_some() {
        return Ok(None);
    }
    let drawn = random_bytes(32);
    let ghost d = drawn_view(drawn);
    let r = drawn_encryption_key(existing, drawn, created_at);
    proof {
        assert(key_record_made(r) == key_record_from(false, d, created_at@));
    }
    r
}

/// The key in its record.
pub fn encryption_key(row: Option<&Value>) -> (r: Option<String>)
    ensures
        opt_view(r) == match row {
            Some(v) => text_field(json_view(*v), "key_b64"@),
            None => None,
        },
{
    match row {
        Some(v) => get_text(v, "key_b64"),
        None => None,
    }
}

/// The identifier of an account that is made of a number: its last twelve
/// digits.
pub open spec fn account_number(n: nat) -> Seq<char> {
    zero_padded(decimal(n % 1_000_000_000_000), 12)
}

/// Makes the identifier of an account of a number.
pub fn account_id_of(n: u64) -> (r: String)
    ensures
        r@ == account_number(n as nat),
{
    padded_text((n % 1_000_000_000_000) as u128, 12)
}

/// The identifier of an account that is made of drawn bytes, read as a number.
/// Without bytes there is none.
pub open spec fn account_id_from(d: Result<Seq<u8>, Seq<char>>) -> Result<Seq<char>, Seq<char>> {
    match d {
        Ok(b) => Ok(account_number(be_value(b))),
        Err(m) => Err(m),
    }
}

/// Makes the identifier of an account of eight drawn bytes.
pub fn drawn_account_id(drawn: Result<Vec<u8>, String>) -> (r: Result<String, String>)
    requires
        draws(drawn, 8),
    ensures
        made_view(r) == account_id_from(drawn_view(drawn)),
{
    match drawn {
        Ok(b) => {
            let n = read_u64_be(b.as_slice(), 0);
            assert(b@.subrange(0, 8) =~= b@);
            Ok(account_id_of(n))
        },
        Err(e) => Err(e),
    }
}

/// Makes up the identifier of an account: twelve digits. Whether there are bytes
/// to make it of, and which, is left to chance.
pub fn random_account_id() -> (r: Result<String, String>)
    ensures
        r matches Ok(a) ==> exists|n: u64| a@ == #[trigger] account_number(n as nat),
        r matches Ok(a) ==> a@.len() == 12 && all_digits(a@),
{
    let drawn = random_bytes(8);
    let ghost bytes = drawn_view(drawn);
    let r = drawn_account_id(drawn);
    proof {
        if let Ok(b) = bytes {
            lemma_drawn_account(b);
        }
    }
    r
}

/// The identifier of an account that is made of eight bytes is twelve digits of a
/// number.
proof fn lemma_drawn_account(b: Seq<u8>)
    requires
        b.len() == 8,
    ensures
        account_number(be_value(b)).len() == 12,
        all_digits(account_number(be_value(b))),
        exists|n: u64| account_number(be_value(b)) == #[trigger] account_number(n as nat),
{
    let n = be_value(b);
    be_value_round_trip(b);
    reveal_with_fuel(pow256, 9);
    assert(account_number((n as u64) as nat) == account_number(n));
    let m = n % 1_000_000_000_000;
    reveal_with_fuel(ten_to, 13);
    lemma_padded(m, 12);
    decimal_round_trip(m);
}

/// The record of the first account.
pub open spec fn first_account_record(id: Seq<char>, created: Seq<char>) -> JsonView {
    json_record(
        seq![("account_id"@, JsonView::Str(id)), ("created_at"@, JsonView::Str(created))],
    )
}

/// The first account that is made of drawn bytes and its record, unless there is
/// an account.
pub open spec fn first_account_from(
    accounts: usize,
    d: Result<Seq<u8>, Seq<char>>,
    created: Seq<char>,
) -> Result<Option<(Seq<char>, JsonView)>, OpErrView> {
    if accounts > 0 {
        Ok(None)
    } else {
        match account_id_from(d) {
            Ok(id) => Ok(Some((id, first_account_record(id, created)))),
            Err(m) => Err(OpErrView::Internal(m)),
        }
    }
}

pub open spec fn first_account_made(r: Result<Option<(String, Value)>, OpError>) -> Result<
    Option<(Seq<char>, JsonView)>,
    OpErrView,
> {
    match r {
        Ok(Some((id, v))) => Ok(Some((id@, json_view(v)))),
        Ok(None) => Ok(None),
        Err(e) => Err(e@),
    }
}

/// Makes the first account of eight drawn bytes, and its record, unless there is
/// an account.
pub fn drawn_default_account(
    accounts: usize,
    drawn: Result<Vec<u8>, String>,
    created_at: &str,
) -> (r: Result<Option<(String, Value)>, OpError>)
    requires
        draws(drawn, 8),
    ensures
        first_account_made(r) == first_account_from(accounts, drawn_view(drawn), created_at@),
{
    if accounts > 0 {
        return Ok(None);
    }
    let id = match drawn_account_id(drawn) {
        Ok(a) => a,
        Err(e) => return Err(OpError::Internal(e)),
    };
    let m = with_text(no_members(), "account_id", id.as_str());
    let m = with_text(m, "created_at", created_at);
    assert(crate::json::member_views(m@) =~= seq![
        ("account_id"@, JsonView::Str(id@)),
        ("created_at"@, JsonView::Str(created_at@)),
    ]);
    Ok(Some((id, record_of_members(m))))
}

/// Makes up the first account and its record, unless there is an account. Whether
/// there are bytes to make it of, and which, is left to chance.
pub fn bootstrap_default_account(accounts: usize, created_at: &str) -> (r: Result<
    Option<(String, Value)>,
    OpError,
>)
    ensures
        match r {
            Ok(None) => accounts > 0,
            Ok(Some((id, v))) => accounts == 0 && json_view(v) == first_account_record(
                id@,
                created_at@,
            ) && id@.len() == 12 && all_digits(id@) && exists|n: u64|
                id@ == #[trigger] account_number(n as nat),
            Err(e) => accounts == 0 && e@ is Internal,
        },
{
    if accounts > 0 {
        return Ok(None);
    }
    let drawn = random_bytes(8);
    let ghost bytes = drawn_view(drawn);
    let r = drawn_default_account(accounts, drawn, created_at);
    proof {
        if let Ok(b) = bytes {
            lemma_drawn_account(b);
        }
    }
    r
}

/// How many bytes a password of the given length is made of.
pub open spec fn password_bytes(len: int) -> int {
    (len / 4 + if len % 4 > 0 {
        1int
    } else {
        0
    }) * 3 + 4
}

/// The password of the given length that is made of drawn bytes. Without bytes
/// there is none.
pub open spec fn password_from(d: Result<Seq<u8>, Seq<char>>, len: int) -> Result<
    Seq<char>,
    Seq<char>,
> {
    match d {
        Ok(b) => Ok(cut(base64_url_text(b), len)),
        Err(m) => Err(m),
    }
}

/// Makes a password of drawn bytes: as many characters of base64 as it shall
/// have.
pub fn drawn_password(drawn: Result<Vec<u8>, String>, len: usize) -> (r: Result<String, String>)
    requires
        draws(drawn, password_bytes(len as int)),
    ensures
        made_view(r) == password_from(drawn_view(drawn), len as int),
        r matches Ok(p) ==> p@.len() == len,
{
    match drawn {
        Ok(b) => Ok(cut_text(base64_url_encode(b.as_slice()).as_str(), len)),
        Err(e) => Err(e),
    }
}

/// Makes up a password: as many characters of base64 as it shall have. Whether
/// there are bytes to make it of, and which, is left to chance.
pub fn random_password(len: usize) -> (r: Result<String, String>)
    requires
        password_bytes(len as int) <= isize::MAX,
    ensures
        r matches Ok(p) ==> exists|b: Seq<u8>|
            b.len() == password_bytes(len as int) && p@ == cut(
                #[trigger] base64_url_text(b),
                len as int,
            ),
        r matches Ok(p) ==> p@.len() == len,
{
    let groups: usize = len / 4 + if len % 4 > 0 {
        1usize
    } else {
        0usize
    };
    let drawn = random_bytes(groups * 3 + 4);
    let ghost bytes = drawn_view(drawn);
    let r = drawn_password(drawn, len);
    assert(r matches Ok(p) ==> p@ == cut(base64_url_text(bytes->Ok_0), len as int));
    r
}

/// What became of the administrator.
#[derive(Debug, PartialEq, Eq)]
pub struct AdminBootstrapResult {
    pub username: String,
    pub generated_password: Option<String>,
    pub already_existed: bool,
    pub from_env: bool,
}

/// What an [`AdminBootstrapResult`] is.
pub struct AdminResultView {
    pub username: Seq<char>,
    pub generated_password: Option<Seq<char>>,
    pub already_existed: bool,
    pub from_env: bool,
}

impl AdminBootstrapResult {
    pub open spec fn view(&self) -> AdminResultView {
        AdminResultView {
            username: self.username@,
            generated_password: opt_view(self.generated_password),
            already_existed: self.already_existed,
            from_env: self.from_env,
        }
    }
}

/// The name of the administrator: the given one, or `admin`.
pub fn admin_username(env_user: Option<&str>) -> (r: String)
    ensures
        r@ == admin_name(opt_str(env_user)),
{
    match env_user {
        Some(u) => text(u),
        None => text(DEFAULT_ADMIN_USER),
    }
}

/// Whether a password fits the one in a record.
pub open spec fn record_accepts(v: JsonView, password: Seq<char>) -> bool {
    match text_field(v, "password_hash"@) {
        Some(h) => password_fits(password, h) == Some(true),
        None => false,
    }
}

/// The name that the administrator goes by.
pub open spec fn admin_name(env_user: Option<Seq<char>>) -> Seq<char> {
    match env_user {
        Some(u) => u,
        None => DEFAULT_ADMIN_USER@,
    }
}

/// Whether `a` and the record `v` are those of a new administrator with the
/// given password, or with one that was made up.
pub open spec fn makes_admin(
    a: AdminBootstrapResult,
    v: JsonView,
    env_user: Option<Seq<char>>,
    env_password: Option<Seq<char>>,
    created: Seq<char>,
) -> bool {
    &&& !a.already_existed
    &&& a.username@ == admin_name(env_user)
    &&& a.from_env == (env_password is Some)
    &&& match env_password {
        Some(p) => a.generated_password is None && record_accepts(v, p),
        None => a.generated_password is Some && a.generated_password->0@.len()
            == ADMIN_PASSWORD_LEN && record_accepts(v, a.generated_password->0@),
    }
    &&& exists|h: Seq<char>| v == #[trigger] admin_record(a.username@, h, a.from_env, created)
}

/// A new administrator, by what making up a password and hashing the password
/// gave. A password is made up only where none is given.
pub open spec fn admin_from(
    username: Seq<char>,
    env_password: Option<Seq<char>>,
    drawn: Result<Seq<char>, Seq<char>>,
    hashed: Result<Seq<char>, Seq<char>>,
    created: Seq<char>,
) -> Result<(AdminResultView, JsonView), OpErrView> {
    match (env_password, drawn, hashed) {
        (None, Err(m), _) => Err(OpErrView::Internal(m)),
        (_, _, Err(m)) => Err(OpErrView::Internal("bcrypt: "@ + m)),
        (_, _, Ok(h)) => Ok(
            (
                AdminResultView {
                    username,
                    generated_password: match env_password {
                        Some(_) => None,
                        None => Some(drawn->Ok_0),
                    },
                    already_existed: false,
                    from_env: env_password is Some,
                },
                admin_record(username, h, env_password is Some, created),
            ),
        ),
    }
}

pub open spec fn admin_made(r: Result<(AdminBootstrapResult, Value), OpError>) -> Result<
    (AdminResultView, JsonView),
    OpErrView,
> {
    match r {
        Ok((a, v)) => Ok((a@, json_view(v))),
        Err(e) => Err(e@),
    }
}

/// Makes a new administrator and its record. `drawn` is what making up a password
/// gave, and `hashed` what hashing the password gave, the given one or the one
/// that was made up.
pub fn made_admin(
    username: &str,
    env_password: Option<&str>,
    drawn: Result<String, String>,
    hashed: Result<String, String>,
    created_at: &str,
) -> (r: Result<(AdminBootstrapResult, Value), OpError>)
    ensures
        admin_made(r) == admin_from(
            username@,
            opt_str(env_password),
            made_view(drawn),
            made_view(hashed),
            created_at@,
        ),
        r matches Ok((_, v)) ==> text_field(json_view(v), "password_hash"@) == Some(hashed->Ok_0@),
{
    let (generated_password, from_env) = match env_password {
        Some(_) => (None, true),
        None => match drawn {
            Ok(p) => (Some(p), false),
            Err(e) => return Err(OpError::Internal(e)),
        },
    };
    let hash = match hashed {
        Ok(h) => h,
        Err(e) => return Err(OpError::Internal(cat2("bcrypt: ", e.as_str()))),
    };
    let v = create_admin(username, hash.as_str(), from_env, created_at);
    let a = AdminBootstrapResult {
        username: text(username),
        generated_password,
        already_existed: false,
        from_env,
    };
    Ok((a, v))
}

/// The administrator, and a record where one must be written: an administrator
/// that is there stays as it is, and a new one gets the given password, or one
/// that is made up. Which one that is, which salt its hash has, and whether either
/// can be had is left to chance.
pub fn bootstrap_admin_user(
    env_user: Option<&str>,
    existing: Option<&Value>,
    env_password: Option<&str>,
    created_at: &str,
) -> (r: Result<(AdminBootstrapResult, Option<Value>), OpError>)
    ensures
        match r {
            Ok((a, None)) => existing is Some && a.already_existed && a.generated_password is None
                && a.from_env == (truth_field(json_view(*existing->0), "from_env"@) == Some(true))
                && a.username@ == admin_name(opt_str(env_user)),
            Ok((a, Some(v))) => existing is None && makes_admin(
                a,
                json_view(v),
                opt_str(env_user),
                opt_str(env_password),
                created_at@,
            ),
            Err(e) => existing is None && e@ is Internal,
        },
{
    let username = admin_username(env_user);
    if let Some(v) = existing {
        return Ok(
            (
                AdminBootstrapResult {
                    username,
                    generated_password: None,
                    already_existed: true,
                    from_env: get_truth_or(v, "from_env", false),
                },
                None,
            ),
        );
    }
    let drawn: Result<String, String> = match env_password {
        Some(p) => Ok(text(p)),
        None => random_password(ADMIN_PASSWORD_LEN),
    };
    let hashed = match &drawn {
        Ok(p) => bcrypt_hash(p.as_str()),
        Err(e) => Err(text(e.as_str())),
    };
    let ghost p = made_view(drawn);
    let ghost h = made_view(hashed);
    match made_admin(username.as_str(), env_password, drawn, hashed, created_at) {
        Ok((a, v)) => {
            proof {
                let u = admin_name(opt_str(env_user));
                assert(json_view(v) == admin_record(u, h->Ok_0, env_password is Some, created_at@));
                assert(makes_admin(
                    a,
                    json_view(v),
                    opt_str(env_user),
                    opt_str(env_password),
                    created_at@,
                ));
            }
            Ok((a, Some(v)))
        },
        Err(e) => Err(e),
    }
}

/// The name of a table in a list of all tables: that of its account, a slash,
/// and its own, which is the last part of the key of its row.
pub open spec fn table_names(account: Seq<char>, keys: Seq<Seq<char>>) -> Seq<Seq<char>>
    decreases keys.len(),
{
    if keys.len() == 0 {
        Seq::empty()
    } else {
        let rest = table_names(account, keys.drop_last());
        match rsplit_once(keys.last(), ':') {
            Some((_, name)) => rest.push(account + "/"@ + name),
            None => rest,
        }
    }
}

/// Lists the tables of an account by the keys of their rows.
pub fn list_table_names(account_key: &str, keys: &[String]) -> (r: Vec<String>)
    ensures
        views(r@) == table_names(
            match strip_prefix(account_key@, "acct:"@) {
                Some(a) => a,
                None => account_key@,
            },
            views(keys@),
        ),
{
    let account = match without_prefix(account_key, "acct:") {
        Some(a) => a,
        None => text(account_key),
    };
    let ghost all = views(keys@);
    let mut out: Vec<String> = Vec::new();
    let mut i: usize = 0;
    assert(views(out@) =~= table_names(account@, all.take(0)));
    while i < keys.len()
        invariant
            i <= keys.len(),
            all == views(keys@),
            views(out@) == table_names(account@, all.take(i as int)),
        decreases keys.len() - i,
    {
        proof {
            assert(all.take(i + 1).drop_last() =~= all.take(i as int));
            assert(all.take(i + 1).last() == keys@[i as int]@);
        }
        if let Some((_, name)) = split_at_last(keys[i].as_str(), ':') {
            let n = cat3(account.as_str(), "/", name.as_str());
            let ghost before = views(out@);
            let ghost added = n@;
            out.push(n);
            assert(views(out@) =~= before.push(added));
        }
        i = i + 1;
    }
    assert(all.take(i as int) =~= all);
    out
}

/// Whether a table belongs to the backend and goes with it.
pub open spec fn goes_with_backend(t: Seq<char>) -> bool {
    t == CATALOG_TABLE@ || "__extenddb_"@.is_prefix_of(t) || holds_text(t, "__"@)
}

/// Whether a table goes when the backend is taken down.
pub fn drop_databases(table: &str) -> (r: bool)
    ensures
        r == goes_with_backend(table@),
{
    str_eq(table, CATALOG_TABLE) || without_prefix(table, "__extenddb_").is_some()
        || contains_text(table, "__")
}

/// Sets up a catalog.
#[derive(Debug, PartialEq, Eq)]
pub struct BigtableBootstrapper {
    pub config: BigtableStorageConfig,
}

impl BigtableBootstrapper {
    pub fn new(config: BigtableStorageConfig) -> (r: BigtableBootstrapper)
        ensures
            r.config == config,
    {
        BigtableBootstrapper { config }
    }

    /// The table of the catalog, and its families.
    pub fn create_catalog_db(&self) -> (r: (String, Vec<String>))
        ensures
            r.0@ == CATALOG_TABLE@,
            views(r.1@) == seq![CF@],
    {
        let v = vec![text(CF)];
        assert(views(v@) =~= seq![CF@]);
        (text(CATALOG_TABLE), v)
    }

    pub fn expected_catalog_version(&self) -> (r: String)
        ensures
            r@ == CATALOG_VERSION@,
    {
        text(CATALOG_VERSION)
    }

    pub fn catalog_database_name(&self) -> (r: String)
        ensures
            r@ == CATALOG_TABLE@ + " (bigtable://"@ + self.config@.project + "/"@
                + self.config@.instance + ")"@,
    {
        cat6(
            CATALOG_TABLE,
            " (bigtable://",
            self.config.project_id.as_str(),
            "/",
            self.config.instance_id.as_str(),
            ")",
        )
    }

    /// Where the backend is.
    pub fn endpoint_info(&self) -> (r: String)
        ensures
            r@ == match self.config@.emulator {
                Some(h) => "bigtable emulator @ "@ + h,
                None => "bigtable @ projects/"@ + self.config@.project + "/instances/"@
                    + self.config@.instance,
            },
    {
        match &self.config.emulator_host {
            Some(h) => cat2("bigtable emulator @ ", h.as_str()),
            None => cat4(
                "bigtable @ projects/",
                self.config.project_id.as_str(),
                "/instances/",
                self.config.instance_id.as_str(),
            ),
        }
    }

    pub fn catalog_connection_url(&self) -> (r: String)
        ensures
            r@ == connection_text(self.config@),
    {
        self.config.connection_string()
    }

    /// The section of a configuration file for these settings.
    pub fn generate_backend_config_section(&self) -> (r: String)
        ensures
            r@ == "[storage.bigtable]\nproject_id = \""@ + self.config@.project
                + "\"\ninstance_id = \""@ + self.config@.instance
                + "\"\n# data_instance_id = \"\"          # Optional instance ID for data tables\n# credentials_path = \"\"          # Optional path to a service account JSON file\nemulator_host = \""@
                + (match self.config@.emulator {
                Some(h) => h,
                None => "localhost:8086"@,
            })
                + "\"\n# pool_size = 20                 # Max concurrent connections (default 20)\n# dev_mode = false               # Bypass authentication for local testing (default false)"@,
    {
        let host = match &self.config.emulator_host {
            Some(h) => text(h.as_str()),
            None => text("localhost:8086"),
        };
        let head = cat6(
            "[storage.bigtable]\nproject_id = \"",
            self.config.project_id.as_str(),
            "\"\ninstance_id = \"",
            self.config.instance_id.as_str(),
            "\"\n# data_instance_id = \"\"          # Optional instance ID for data tables\n# credentials_path = \"\"          # Optional path to a service account JSON file\nemulator_host = \"",
            host.as_str(),
        );
        cat2(
            head.as_str(),
            "\"\n# pool_size = 20                 # Max concurrent connections (default 20)\n# dev_mode = false               # Bypass authentication for local testing (default false)",
        )
    }
}

/// With the backend go its own tables, whichever they are, and every table that has
/// two underscores in its name, and no others.
pub proof fn all_tables_of_the_backend_go(t: Seq<char>)
    ensures
        goes_with_backend(CATALOG_TABLE@),
        goes_with_backend(TXN_LOG_TABLE@),
        goes_with_backend(TTL_INDEX_TABLE@),
        goes_with_backend(t) <==> exists|i: int|
            0 <= i < t.len() - 1 && #[trigger] t[i] == '_' && t[i + 1] == '_',
{
    reveal_strlit("__");
    reveal_strlit("__extenddb_");
    reveal_strlit("__extenddb_catalog__");
    reveal_strlit("__extenddb_txn_log__");
    reveal_strlit("__extenddb_ttl_index__");
    let p = "__extenddb_"@;
    assert(CATALOG_TABLE@.subrange(0, p.len() as int) =~= p);
    assert(TXN_LOG_TABLE@.subrange(0, p.len() as int) =~= p);
    assert(TTL_INDEX_TABLE@.subrange(0, p.len() as int) =~= p);
    if p.is_prefix_of(t) {
        assert(t.subrange(0, p.len() as int)[0] == t[0]);
        assert(t.subrange(0, p.len() as int)[1] == t[1]);
        assert(t[0] == '_' && t[0int + 1] == '_');
    }
    if t == CATALOG_TABLE@ {
        assert(t[0] == '_' && t[0int + 1] == '_');
    }
    if holds_text(t, "__"@) {
        let i = choose|i: int|
            0 <= i <= t.len() - "__"@.len() && #[trigger] t.subrange(i, i + "__"@.len()) == "__"@;
        assert(t.subrange(i, i + "__"@.len())[0] == t[i]);
        assert(t.subrange(i, i + "__"@.len())[1] == t[i + 1]);
        assert(t[i] == '_' && t[i + 1] == '_');
    }
    if exists|i: int| 0 <= i < t.len() - 1 && #[trigger] t[i] == '_' && t[i + 1] == '_' {
        let i = choose|i: int| 0 <= i < t.len() - 1 && #[trigger] t[i] == '_' && t[i + 1] == '_';
        assert(t.subrange(i, i + "__"@.len()) =~= "__"@);
    }
}

} // verus!

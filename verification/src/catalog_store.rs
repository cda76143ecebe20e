//! Accounts, users, policies and access keys in the catalog.

use serde_json::Value;
use vstd::prelude::*;
use vstd::string::*;

use crate::bigtable::BigtableClient;
use crate::catalog::{record_views, Catalog};
use crate::debug::{debug_text, str_debug};
use crate::dev_auth::DEV_USER_NAME;
use crate::engine::{opt_json_ref, opt_str};
use crate::hash::{bcrypt_verify, password_fits};
use crate::json::{
    base64_encode, base64_text, get_text, get_text_or_empty, get_truth_or, json_bytes, json_clone,
    json_field, json_get, json_null, json_record, json_string, json_to_text, json_view, member,
    no_members, record_member, record_of_members, set_field, text_field, text_or_empty,
    truth_field, with_field, with_member, with_text, with_truth, JsonView,
};
use crate::random::{
    drawn_view, draws, iso_parsed, made_view, parse_iso, parse_rfc3339, random_bytes,
    rfc3339_parsed,
};
use crate::table::TableDescription;
use crate::text::{
    cat2, cat4, cat6, chars_of, decode_text, opt_text, opt_view, str_eq, string_of, strip_prefix,
    text, usize_text, utf8_decoded, without_prefix,
};

verus! {

/// An error of an operation on the catalog.
#[derive(Debug, PartialEq, Eq)]
pub enum OpError {
    Internal(String),
    NotFound(String),
}

/// What an [`OpError`] is.
pub enum OpErrView {
    Internal(Seq<char>),
    NotFound(Seq<char>),
}

impl OpError {
    pub open spec fn view(&self) -> OpErrView {
        match self {
            OpError::Internal(m) => OpErrView::Internal(m@),
            OpError::NotFound(m) => OpErrView::NotFound(m@),
        }
    }
}

/// The policy of the user of development: everything is allowed.
pub const DEV_ADMIN_POLICY: &'static str =
    "{\n  \"Version\": \"2012-10-17\",\n  \"Statement\": [{\"Effect\":\"Allow\",\"Action\":\"dynamodb:*\",\"Resource\":\"*\"}]\n}";

/// The catalog of a server.
#[derive(Debug, PartialEq, Eq)]
pub struct BigtableCatalogStore {
    pub client: BigtableClient,
    pub encryption_key: Option<String>,
    pub dev_mode: bool,
}

/// The name of a user.
pub open spec fn user_arn(account: Seq<char>, user: Seq<char>) -> Seq<char> {
    "arn:aws:iam::"@ + account + ":user/"@ + user
}

impl BigtableCatalogStore {
    pub fn new(client: BigtableClient, encryption_key: Option<String>, dev_mode: bool) -> (r:
        BigtableCatalogStore)
        ensures
            r.client == client,
            r.encryption_key == encryption_key,
            r.dev_mode == dev_mode,
    {
        BigtableCatalogStore { client, encryption_key, dev_mode }
    }

    pub fn cat(&self) -> (r: Catalog<'_>)
        ensures
            *r.client == self.client,
    {
        Catalog::new(&self.client)
    }

    /// The key that secrets are sealed with.
    pub fn enc_key(&self) -> (r: Result<&str, OpError>)
        ensures
            match r {
                Ok(k) => opt_view(self.encryption_key) == Some(k@),
                Err(e) => self.encryption_key is None && e@ == OpErrView::Internal(
                    "encryption key not loaded"@,
                ),
            },
    {
        match &self.encryption_key {
            Some(k) => Ok(k.as_str()),
            None => Err(OpError::Internal(text("encryption key not loaded"))),
        }
    }

    /// The name of a user.
    pub fn user_arn(account_id: &str, user_name: &str) -> (r: String)
        ensures
            r@ == user_arn(account_id@, user_name@),
    {
        cat4("arn:aws:iam::", account_id, ":user/", user_name)
    }

    pub fn cached_encryption_key(&self) -> (r: Option<String>)
        ensures
            opt_view(r) == opt_view(self.encryption_key),
    {
        opt_text(&self.encryption_key)
    }

    /// Whether the policies of a user are those of the user of development.
    pub fn is_dev_user(&self, user_name: &str) -> (r: bool)
        ensures
            r == (self.dev_mode && user_name@ == DEV_USER_NAME@),
    {
        self.dev_mode && str_eq(user_name, DEV_USER_NAME)
    }
}

// ---------------------------------------------------------------------------
// Access keys that are made up
// ---------------------------------------------------------------------------

/// The character that a byte stands for in the identifier of an access key.
pub open spec fn key_char(b: u8) -> char {
    let n = (b % 32) as u32;
    if n < 26 {
        ('A' as u32 + n) as char
    } else {
        ('2' as u32 + (n - 26)) as char
    }
}

/// The identifier of an access key that is made of bytes.
pub open spec fn access_key_id(bytes: Seq<u8>) -> Seq<char> {
    "AKIA"@ + bytes.map_values(|b: u8| key_char(b))
}

/// Makes the identifier of an access key of bytes.
pub fn access_key_id_of(bytes: &[u8]) -> (r: String)
    ensures
        r@ == access_key_id(bytes@),
{
    let mut out = text("AKIA");
    let mut i: usize = 0;
    let ghost goal = bytes@.map_values(|b: u8| key_char(b));
    assert(out@ =~= "AKIA"@ + goal.take(0));
    while i < bytes.len()
        invariant
            i <= bytes.len(),
            goal == bytes@.map_values(|b: u8| key_char(b)),
            out@ == "AKIA"@ + goal.take(i as int),
        decreases bytes.len() - i,
    {
        let n: u32 = (bytes[i] % 32) as u32;
        let c: char = if n < 26 {
            (('A' as u32 + n) as u8) as char
        } else {
            (('2' as u32 + (n - 26)) as u8) as char
        };
        let ghost before = out@;
        out.push(c);
        i = i + 1;
        assert(c == goal[i - 1]);
        assert(out@ =~= "AKIA"@ + goal.take(i as int));
    }
    assert(goal.take(i as int) =~= goal);
    out
}

/// The identifier of an access key that is made of drawn bytes. Without bytes
/// there is none.
pub open spec fn access_key_id_from(d: Result<Seq<u8>, Seq<char>>) -> Result<
    Seq<char>,
    Seq<char>,
> {
    match d {
        Ok(b) => Ok(access_key_id(b)),
        Err(m) => Err(m),
    }
}

/// Makes the identifier of an access key of drawn bytes.
pub fn drawn_access_key_id(drawn: Result<Vec<u8>, String>) -> (r: Result<String, String>)
    ensures
        made_view(r) == access_key_id_from(drawn_view(drawn)),
{
    match drawn {
        Ok(b) => Ok(access_key_id_of(b.as_slice())),
        Err(e) => Err(e),
    }
}

/// Makes up the identifier of an access key: `AKIA` and 16 characters. Whether
/// there are bytes to make it of, and which, is left to chance.
pub fn generate_access_key_id() -> (r: Result<String, String>)
    ensures
        r matches Ok(k) ==> exists|b: Seq<u8>| b.len() == 16 && k@ == #[trigger] access_key_id(b),
        r matches Ok(k) ==> k@.len() == 20,
{
    let drawn = random_bytes(16);
    let ghost bytes = drawn_view(drawn);
    let r = drawn_access_key_id(drawn);
    proof {
        reveal_strlit("AKIA");
        assert(r matches Ok(k) ==> k@ == access_key_id(bytes->Ok_0));
    }
    r
}

/// The first characters of a text.
pub open spec fn cut(s: Seq<char>, n: int) -> Seq<char> {
    if s.len() <= n {
        s
    } else {
        s.take(n)
    }
}

/// Cuts a text after `n` characters.
pub fn cut_text(s: &str, n: usize) -> (r: String)
    ensures
        r@ == cut(s@, n as int),
{
    let c = chars_of(s);
    if c.len() <= n {
        text(s)
    } else {
        let r = string_of(c.as_slice(), 0, n);
        assert(r@ =~= s@.take(n as int));
        r
    }
}

/// Makes a secret of bytes: 40 characters of base64.
pub fn secret_of(bytes: &[u8]) -> (r: String)
    ensures
        r@ == cut(base64_text(bytes@), 40),
        bytes@.len() >= 30 ==> r@.len() == 40,
{
    cut_text(base64_encode(bytes).as_str(), 40)
}

/// The secret that is made of drawn bytes. Without bytes there is none.
pub open spec fn secret_from(d: Result<Seq<u8>, Seq<char>>) -> Result<Seq<char>, Seq<char>> {
    match d {
        Ok(b) => Ok(cut(base64_text(b), 40)),
        Err(m) => Err(m),
    }
}

/// Makes a secret of drawn bytes.
pub fn drawn_secret(drawn: Result<Vec<u8>, String>) -> (r: Result<String, String>)
    ensures
        made_view(r) == secret_from(drawn_view(drawn)),
        draws(drawn, 30) ==> (r matches Ok(k) ==> k@.len() == 40),
{
    match drawn {
        Ok(b) => Ok(secret_of(b.as_slice())),
        Err(e) => Err(e),
    }
}

/// Makes up a secret: 40 characters of base64. Whether there are bytes to make it
/// of, and which, is left to chance.
pub fn generate_secret() -> (r: Result<String, String>)
    ensures
        r matches Ok(k) ==> exists|b: Seq<u8>|
            b.len() == 30 && k@ == cut(#[trigger] base64_text(b), 40),
        r matches Ok(k) ==> k@.len() == 40,
{
    let drawn = random_bytes(30);
    let ghost bytes = drawn_view(drawn);
    let r = drawn_secret(drawn);
    assert(r matches Ok(k) ==> k@ == cut(base64_text(bytes->Ok_0), 40));
    r
}

// ---------------------------------------------------------------------------
// Administrators
// ---------------------------------------------------------------------------

/// The record of an administrator.
pub open spec fn admin_record(
    name: Seq<char>,
    hash: Seq<char>,
    from_env: bool,
    created: Seq<char>,
) -> JsonView {
    json_record(
        seq![
            ("username"@, JsonView::Str(name)),
            ("password_hash"@, JsonView::Str(hash)),
            ("from_env"@, JsonView::Bool(from_env)),
            ("created_at"@, JsonView::Str(created)),
        ],
    )
}

/// Builds the record of an administrator.
pub fn create_admin(admin_name: &str, password_hash: &str, from_env: bool, created_at: &str) -> (r:
    Value)
    ensures
        json_view(r) == admin_record(admin_name@, password_hash@, from_env, created_at@),
        text_field(json_view(r), "password_hash"@) == Some(password_hash@),
        truth_field(json_view(r), "from_env"@) == Some(from_env),
{
    let m = with_text(no_members(), "username", admin_name);
    let m = with_text(m, "password_hash", password_hash);
    let m = with_truth(m, "from_env", from_env);
    let m = with_text(m, "created_at", created_at);
    proof {
        let s = seq![
            ("username"@, JsonView::Str(admin_name@)),
            ("password_hash"@, JsonView::Str(password_hash@)),
            ("from_env"@, JsonView::Bool(from_env)),
            ("created_at"@, JsonView::Str(created_at@)),
        ];
        assert(crate::json::member_views(m@) =~= s);
        lemma_admin_fields(admin_name@, password_hash@, from_env, created_at@);
    }
    record_of_members(m)
}

proof fn lemma_admin_fields(
    name: Seq<char>,
    hash: Seq<char>,
    from_env: bool,
    created: Seq<char>,
)
    ensures
        text_field(admin_record(name, hash, from_env, created), "password_hash"@) == Some(hash),
        truth_field(admin_record(name, hash, from_env, created), "from_env"@) == Some(from_env),
{
    let s = seq![
        ("username"@, JsonView::Str(name)),
        ("password_hash"@, JsonView::Str(hash)),
        ("from_env"@, JsonView::Bool(from_env)),
        ("created_at"@, JsonView::Str(created)),
    ];
    record_member(s, "password_hash"@);
    record_member(s, "from_env"@);
    reveal_strlit("created_at");
    reveal_strlit("from_env");
    reveal_strlit("password_hash");
    assert("created_at"@.len() == 10 && "from_env"@.len() == 8 && "password_hash"@.len() == 13);
    reveal_with_fuel(member, 4);
    let d = s.drop_last();
    assert(d.last() == s[2]);
    assert(d.drop_last().last() == s[1]);
}

/// When a record was made, in nanoseconds since the epoch: now, where it does
/// not say so.
pub open spec fn created_at(v: JsonView, now: int) -> int {
    match text_field(v, "created_at"@) {
        Some(s) => match iso_parsed(s) {
            Some(t) => t,
            None => now,
        },
        None => now,
    }
}

fn read_created(v: &Value, now_nanos: i128) -> (r: i128)
    ensures
        r == created_at(json_view(*v), now_nanos as int),
{
    match get_text(v, "created_at") {
        Some(s) => match parse_iso(s.as_str()) {
            Some(t) => t,
            None => now_nanos,
        },
        None => now_nanos,
    }
}

/// An administrator: name, and when the record was made.
#[derive(Debug, PartialEq, Eq)]
pub struct AdminEntry {
    pub admin_name: String,
    pub created_at: i128,
}

/// Lists the administrators.
pub fn list_admins(rows: &[(String, Value)], now_nanos: i128) -> (r: Vec<AdminEntry>)
    ensures
        r@.len() == rows@.len(),
        forall|i: int|
            0 <= i < r@.len() ==> (#[trigger] r@[i]).admin_name@ == text_or_empty(
                json_view(rows@[i].1),
                "username"@,
            ) && r@[i].created_at == created_at(json_view(rows@[i].1), now_nanos as int),
{
    let mut out: Vec<AdminEntry> = Vec::new();
    let mut i: usize = 0;
    while i < rows.len()
        invariant
            i <= rows.len(),
            out@.len() == i,
            forall|j: int|
                0 <= j < i ==> (#[trigger] out@[j]).admin_name@ == text_or_empty(
                    json_view(rows@[j].1),
                    "username"@,
                ) && out@[j].created_at == created_at(json_view(rows@[j].1), now_nanos as int),
        decreases rows.len() - i,
    {
        let v = &rows[i].1;
        out.push(
            AdminEntry {
                admin_name: get_text_or_empty(v, "username"),
                created_at: read_created(v, now_nanos),
            },
        );
        i = i + 1;
    }
    out
}

/// The record of an administrator with another password.
pub open spec fn changed_password(
    row: Option<JsonView>,
    name: Seq<char>,
    hash: Seq<char>,
) -> Result<JsonView, OpErrView> {
    match row {
        None => Err(OpErrView::NotFound(name)),
        Some(v) => Ok(with_field(v, "password_hash"@, JsonView::Str(hash))),
    }
}

/// Changes the password in the record of an administrator.
pub fn change_admin_password(row: Option<Value>, admin_name: &str, password_hash: &str) -> (r: Result<
    Value,
    OpError,
>)
    ensures
        match r {
            Ok(v) => changed_password(crate::catalog::opt_json(row), admin_name@, password_hash@)
                == Ok::<JsonView, OpErrView>(json_view(v)),
            Err(e) => changed_password(crate::catalog::opt_json(row), admin_name@, password_hash@)
                == Err::<JsonView, OpErrView>(e@),
        },
{
    match row {
        None => Err(OpError::NotFound(text(admin_name))),
        Some(v) => Ok(set_field(v, "password_hash", json_string(text(password_hash)))),
    }
}

/// Whether a password is that of an administrator; nothing where there is no
/// such administrator.
pub open spec fn admin_password(row: Option<JsonView>, password: Seq<char>) -> Result<
    Option<bool>,
    OpErrView,
> {
    match row {
        None => Ok(None),
        Some(v) => match text_field(v, "password_hash"@) {
            None => Err(OpErrView::Internal("admin missing password_hash"@)),
            Some(h) => Ok(Some(password_fits(password, h) == Some(true))),
        },
    }
}

/// Holds a password against the record of an administrator.
pub fn verify_admin_password(row: Option<&Value>, password: &str) -> (r: Result<
    Option<bool>,
    OpError,
>)
    ensures
        match r {
            Ok(b) => admin_password(opt_json_ref(row), password@) == Ok::<
                Option<bool>,
                OpErrView,
            >(b),
            Err(e) => admin_password(opt_json_ref(row), password@) == Err::<
                Option<bool>,
                OpErrView,
            >(e@),
        },
{
    let v = match row {
        None => return Ok(None),
        Some(v) => v,
    };
    match get_text(v, "password_hash") {
        None => Err(OpError::Internal(text("admin missing password_hash"))),
        Some(h) => Ok(
            Some(
                match bcrypt_verify(password, h.as_str()) {
                    Some(b) => b,
                    None => false,
                },
            ),
        ),
    }
}

/// The password that an administrator was made with is theirs, and once it was
/// changed the new one is.
pub proof fn passwords_verify(
    name: Seq<char>,
    password: Seq<char>,
    hash: Seq<char>,
    from_env: bool,
    created: Seq<char>,
    new_password: Seq<char>,
    new_hash: Seq<char>,
)
    requires
        password_fits(password, hash) == Some(true),
        password_fits(new_password, new_hash) == Some(true),
    ensures
        admin_password(Some(admin_record(name, hash, from_env, created)), password) == Ok::<
            Option<bool>,
            OpErrView,
        >(Some(true)),
        ({
            let row = admin_record(name, hash, from_env, created);
            let changed = changed_password(Some(row), name, new_hash);
            changed is Ok && admin_password(Some(changed->Ok_0), new_password) == Ok::<
                Option<bool>,
                OpErrView,
            >(Some(true))
        }),
{
    lemma_admin_fields(name, hash, from_env, created);
    let row = admin_record(name, hash, from_env, created);
    let m = row->Object_0.push(("password_hash"@, JsonView::Str(new_hash)));
    record_member(m, "password_hash"@);
}

// ---------------------------------------------------------------------------
// Accounts
// ---------------------------------------------------------------------------

/// The first account.
pub fn default_account_id(rows: &[(String, Value)]) -> (r: Option<String>)
    ensures
        opt_view(r) == if rows@.len() == 0 {
            None
        } else {
            strip_prefix(rows@[0].0@, "acct:"@)
        },
{
    if rows.len() == 0 {
        None
    } else {
        without_prefix(rows[0].0.as_str(), "acct:")
    }
}

/// The record of an account.
pub open spec fn account_record(id: Seq<char>, name: Seq<char>, created: Seq<char>) -> JsonView {
    json_record(
        seq![
            ("account_id"@, JsonView::Str(id)),
            ("account_name"@, JsonView::Str(name)),
            ("created_at"@, JsonView::Str(created)),
        ],
    )
}

/// Builds the record of an account.
pub fn create_account(account_id: &str, account_name: &str, created_at: &str) -> (r: Value)
    ensures
        json_view(r) == account_record(account_id@, account_name@, created_at@),
{
    let m = with_text(no_members(), "account_id", account_id);
    let m = with_text(m, "account_name", account_name);
    let m = with_text(m, "created_at", created_at);
    assert(crate::json::member_views(m@) =~= seq![
        ("account_id"@, JsonView::Str(account_id@)),
        ("account_name"@, JsonView::Str(account_name@)),
        ("created_at"@, JsonView::Str(created_at@)),
    ]);
    record_of_members(m)
}

/// Whether an account may be deleted: only one without tables.
pub fn delete_account(account_id: &str, tables: usize) -> (r: Result<(), OpError>)
    ensures
        match r {
            Ok(_) => tables == 0,
            Err(e) => tables > 0 && e@ == OpErrView::Internal(
                "account "@ + account_id@ + " still owns "@ + crate::text::decimal(tables as nat)
                    + " table(s)"@,
            ),
        },
{
    if tables == 0 {
        Ok(())
    } else {
        let n = usize_text(tables);
        Err(
            OpError::Internal(
                crate::text::cat5("account ", account_id, " still owns ", n.as_str(), " table(s)"),
            ),
        )
    }
}

/// Lists the accounts: identifier and name.
pub fn list_all_accounts(rows: &[(String, Value)]) -> (r: Vec<(String, String)>)
    ensures
        r@.len() == rows@.len(),
        forall|i: int|
            0 <= i < r@.len() ==> (#[trigger] r@[i]).0@ == text_or_empty(
                json_view(rows@[i].1),
                "account_id"@,
            ) && r@[i].1@ == text_or_empty(json_view(rows@[i].1), "account_name"@),
{
    let mut out: Vec<(String, String)> = Vec::new();
    let mut i: usize = 0;
    while i < rows.len()
        invariant
            i <= rows.len(),
            out@.len() == i,
            forall|j: int|
                0 <= j < i ==> (#[trigger] out@[j]).0@ == text_or_empty(
                    json_view(rows@[j].1),
                    "account_id"@,
                ) && out@[j].1@ == text_or_empty(json_view(rows@[j].1), "account_name"@),
        decreases rows.len() - i,
    {
        let v = &rows[i].1;
        out.push((get_text_or_empty(v, "account_id"), get_text_or_empty(v, "account_name")));
        i = i + 1;
    }
    out
}

// ---------------------------------------------------------------------------
// Users
// ---------------------------------------------------------------------------

/// A text, or null.
pub open spec fn opt_str_json(s: Option<Seq<char>>) -> JsonView {
    match s {
        Some(x) => JsonView::Str(x),
        None => JsonView::Null,
    }
}

/// The record of a user.
pub open spec fn user_record(
    account: Seq<char>,
    user: Seq<char>,
    hash: Option<Seq<char>>,
    created: Seq<char>,
) -> JsonView {
    json_record(
        seq![
            ("user_name"@, JsonView::Str(user)),
            ("account_id"@, JsonView::Str(account)),
            ("password_hash"@, opt_str_json(hash)),
            ("has_password"@, JsonView::Bool(hash is Some)),
            ("user_arn"@, JsonView::Str(user_arn(account, user))),
            ("created_at"@, JsonView::Str(created)),
        ],
    )
}

/// Builds the record of a user.
pub fn create_user(
    account_id: &str,
    user_name: &str,
    password_hash: Option<&str>,
    created_at: &str,
) -> (r: Value)
    ensures
        json_view(r) == user_record(
            account_id@,
            user_name@,
            opt_str(password_hash),
            created_at@,
        ),
{
    let m = with_text(no_members(), "user_name", user_name);
    let m = with_text(m, "account_id", account_id);
    let hash = match password_hash {
        Some(h) => json_string(text(h)),
        None => json_null(),
    };
    let ghost hv = json_view(hash);
    assert(hv == opt_str_json(opt_str(password_hash)));
    let m = with_member(m, "password_hash", hash);
    let m = with_truth(m, "has_password", password_hash.is_some());
    let arn = BigtableCatalogStore::user_arn(account_id, user_name);
    let m = with_text(m, "user_arn", arn.as_str());
    let m = with_text(m, "created_at", created_at);
    assert(crate::json::member_views(m@) =~= seq![
        ("user_name"@, JsonView::Str(user_name@)),
        ("account_id"@, JsonView::Str(account_id@)),
        ("password_hash"@, hv),
        ("has_password"@, JsonView::Bool(password_hash is Some)),
        ("user_arn"@, JsonView::Str(user_arn(account_id@, user_name@))),
        ("created_at"@, JsonView::Str(created_at@)),
    ]);
    record_of_members(m)
}

/// A user in a list.
#[derive(Debug, PartialEq, Eq)]
pub struct UserListEntry {
    pub account_id: String,
    pub user_name: String,
    pub user_arn: String,
    pub has_password: bool,
    pub created_at: i128,
}

/// Whether an entry is what a record says of a user.
pub open spec fn lists_user(e: UserListEntry, account: Seq<char>, v: JsonView, now: int) -> bool {
    &&& e.account_id@ == account
    &&& e.user_name@ == text_or_empty(v, "user_name"@)
    &&& e.user_arn@ == text_or_empty(v, "user_arn"@)
    &&& e.has_password == (truth_field(v, "has_password"@) == Some(true))
    &&& e.created_at == created_at(v, now)
}

/// Lists the users of an account.
pub fn list_users(account_id: &str, rows: &[(String, Value)], now_nanos: i128) -> (r: Vec<
    UserListEntry,
>)
    ensures
        r@.len() == rows@.len(),
        forall|i: int|
            0 <= i < r@.len() ==> lists_user(
                #[trigger] r@[i],
                account_id@,
                json_view(rows@[i].1),
                now_nanos as int,
            ),
{
    let mut out: Vec<UserListEntry> = Vec::new();
    let mut i: usize = 0;
    while i < rows.len()
        invariant
            i <= rows.len(),
            out@.len() == i,
            forall|j: int|
                0 <= j < i ==> lists_user(
                    #[trigger] out@[j],
                    account_id@,
                    json_view(rows@[j].1),
                    now_nanos as int,
                ),
        decreases rows.len() - i,
    {
        let v = &rows[i].1;
        out.push(
            UserListEntry {
                account_id: text(account_id),
                user_name: get_text_or_empty(v, "user_name"),
                user_arn: get_text_or_empty(v, "user_arn"),
                has_password: get_truth_or(v, "has_password", false),
                created_at: read_created(v, now_nanos),
            },
        );
        i = i + 1;
    }
    out
}

// ---------------------------------------------------------------------------
// Policies
// ---------------------------------------------------------------------------

/// The row of a policy of a user or of a role.
pub open spec fn policy_key(
    account: Seq<char>,
    kind: Seq<char>,
    name: Seq<char>,
    policy: Seq<char>,
) -> Result<Seq<char>, OpErrView> {
    if kind == "user"@ {
        Ok("user_policy:"@ + account + ":"@ + name + ":"@ + policy)
    } else if kind == "role"@ {
        Ok("role_policy:"@ + account + ":"@ + name + ":"@ + policy)
    } else {
        Err(OpErrView::Internal("unknown principal_type "@ + str_debug(kind)))
    }
}

/// Finds the row of a policy.
pub fn policy_row(account_id: &str, principal_type: &str, principal_name: &str, policy_name: &str) -> (r:
    Result<String, OpError>)
    ensures
        match r {
            Ok(k) => policy_key(account_id@, principal_type@, principal_name@, policy_name@)
                == Ok::<Seq<char>, OpErrView>(k@),
            Err(e) => policy_key(account_id@, principal_type@, principal_name@, policy_name@)
                == Err::<Seq<char>, OpErrView>(e@),
        },
{
    if str_eq(principal_type, "user") {
        Ok(crate::keys::user_policy(account_id, principal_name, policy_name))
    } else if str_eq(principal_type, "role") {
        Ok(crate::keys::role_policy(account_id, principal_name, policy_name))
    } else {
        Err(
            OpError::Internal(
                cat2("unknown principal_type ", debug_text(principal_type).as_str()),
            ),
        )
    }
}

/// The record of a policy.
pub open spec fn policy_record(name: Seq<char>, document: JsonView, created: Seq<char>) -> JsonView {
    json_record(
        seq![
            ("policy_name"@, JsonView::Str(name)),
            ("document"@, document),
            ("created_at"@, JsonView::Str(created)),
        ],
    )
}

/// The row and the record of a policy.
pub fn put_policy(
    account_id: &str,
    principal_type: &str,
    principal_name: &str,
    policy_name: &str,
    document: &Value,
    created_at: &str,
) -> (r: Result<(String, Value), OpError>)
    ensures
        match r {
            Ok((k, v)) => policy_key(account_id@, principal_type@, principal_name@, policy_name@)
                == Ok::<Seq<char>, OpErrView>(k@) && json_view(v) == policy_record(
                policy_name@,
                json_view(*document),
                created_at@,
            ),
            Err(e) => policy_key(account_id@, principal_type@, principal_name@, policy_name@)
                == Err::<Seq<char>, OpErrView>(e@),
        },
{
    let key = match policy_row(account_id, principal_type, principal_name, policy_name) {
        Ok(k) => k,
        Err(e) => return Err(e),
    };
    let m = with_text(no_members(), "policy_name", policy_name);
    let m = with_member(m, "document", json_clone(document));
    let m = with_text(m, "created_at", created_at);
    assert(crate::json::member_views(m@) =~= seq![
        ("policy_name"@, JsonView::Str(policy_name@)),
        ("document"@, json_view(*document)),
        ("created_at"@, JsonView::Str(created_at@)),
    ]);
    Ok((key, record_of_members(m)))
}

/// The row of a policy that is deleted.
pub fn delete_policy(
    account_id: &str,
    principal_type: &str,
    principal_name: &str,
    policy_name: &str,
) -> (r: Result<String, OpError>)
    ensures
        match r {
            Ok(k) => policy_key(account_id@, principal_type@, principal_name@, policy_name@)
                == Ok::<Seq<char>, OpErrView>(k@),
            Err(e) => policy_key(account_id@, principal_type@, principal_name@, policy_name@)
                == Err::<Seq<char>, OpErrView>(e@),
        },
{
    policy_row(account_id, principal_type, principal_name, policy_name)
}

/// What the rows of the policies of a user or role begin with.
pub fn policy_prefix(account_id: &str, principal_type: &str, principal_name: &str) -> (r: String)
    ensures
        r@ == principal_type@ + "_policy:"@ + account_id@ + ":"@ + principal_name@ + ":"@,
{
    cat6(principal_type, "_policy:", account_id, ":", principal_name, ":")
}

/// A policy in a list.
#[derive(Debug)]
pub struct PolicyEntry {
    pub policy_name: String,
    pub document: Value,
    pub created_at: i128,
}

/// The document of a policy.
pub open spec fn policy_document(v: JsonView) -> JsonView {
    match json_field(v, "document"@) {
        Some(d) => d,
        None => JsonView::Null,
    }
}

/// Lists policies.
pub fn list_policies(rows: &[(String, Value)], now_nanos: i128) -> (r: Vec<PolicyEntry>)
    ensures
        r@.len() == rows@.len(),
        forall|i: int|
            0 <= i < r@.len() ==> (#[trigger] r@[i]).policy_name@ == text_or_empty(
                json_view(rows@[i].1),
                "policy_name"@,
            ) && json_view(r@[i].document) == policy_document(json_view(rows@[i].1))
                && r@[i].created_at == created_at(json_view(rows@[i].1), now_nanos as int),
{
    let mut out: Vec<PolicyEntry> = Vec::new();
    let mut i: usize = 0;
    while i < rows.len()
        invariant
            i <= rows.len(),
            out@.len() == i,
            forall|j: int|
                0 <= j < i ==> (#[trigger] out@[j]).policy_name@ == text_or_empty(
                    json_view(rows@[j].1),
                    "policy_name"@,
                ) && json_view(out@[j].document) == policy_document(json_view(rows@[j].1))
                    && out@[j].created_at == created_at(json_view(rows@[j].1), now_nanos as int),
        decreases rows.len() - i,
    {
        let v = &rows[i].1;
        let document = match json_get(v, "document") {
            Some(d) => json_clone(d),
            None => json_null(),
        };
        out.push(
            PolicyEntry {
                policy_name: get_text_or_empty(v, "policy_name"),
                document,
                created_at: read_created(v, now_nanos),
            },
        );
        i = i + 1;
    }
    out
}

/// The documents of policies, as JSON texts.
pub open spec fn documents(rows: Seq<(Seq<char>, JsonView)>) -> Seq<Seq<u8>>
    decreases rows.len(),
{
    if rows.len() == 0 {
        Seq::empty()
    } else {
        match json_field(rows.last().1, "document"@) {
            Some(d) => documents(rows.drop_last()).push(json_bytes(d)),
            None => documents(rows.drop_last()),
        }
    }
}

pub open spec fn text_bytes_of(l: Seq<String>) -> Seq<Seq<u8>> {
    l.map_values(|s: String| vstd::utf8::encode_utf8(s@))
}

fn documents_of(rows: &[(String, Value)]) -> (r: Vec<String>)
    ensures
        text_bytes_of(r@) == documents(record_views(rows@)),
{
    let ghost all = record_views(rows@);
    let mut out: Vec<String> = Vec::new();
    let mut i: usize = 0;
    assert(text_bytes_of(out@) =~= documents(all.take(0)));
    while i < rows.len()
        invariant
            i <= rows.len(),
            all == record_views(rows@),
            text_bytes_of(out@) == documents(all.take(i as int)),
        decreases rows.len() - i,
    {
        proof {
            assert(all.take(i + 1).drop_last() =~= all.take(i as int));
            assert(all.take(i + 1).last() == (rows@[i as int].0@, json_view(rows@[i as int].1)));
        }
        if let Some(d) = json_get(&rows[i].1, "document") {
            let t = json_to_text(d);
            let ghost before = text_bytes_of(out@);
            let ghost added = vstd::utf8::encode_utf8(t@);
            out.push(t);
            assert(text_bytes_of(out@) =~= before.push(added));
        }
        i = i + 1;
    }
    assert(all.take(i as int) =~= all);
    out
}

impl BigtableCatalogStore {
    /// The policies of a user, as JSON texts. To the user of development
    /// everything is allowed.
    pub fn fetch_user_policies(&self, user_name: &str, rows: &[(String, Value)]) -> (r: Vec<String>)
        ensures
            self.dev_mode && user_name@ == DEV_USER_NAME@ ==> crate::text::views(r@) == seq![
                DEV_ADMIN_POLICY@,
            ],
            !(self.dev_mode && user_name@ == DEV_USER_NAME@) ==> text_bytes_of(r@) == documents(
                record_views(rows@),
            ),
    {
        if self.is_dev_user(user_name) {
            let r = vec![text(DEV_ADMIN_POLICY)];
            assert(crate::text::views(r@) =~= seq![DEV_ADMIN_POLICY@]);
            r
        } else {
            documents_of(rows)
        }
    }

    /// The policies of a role, as JSON texts.
    pub fn fetch_role_policies(&self, rows: &[(String, Value)]) -> (r: Vec<String>)
        ensures
            text_bytes_of(r@) == documents(record_views(rows@)),
    {
        documents_of(rows)
    }
}

// ---------------------------------------------------------------------------
// Access keys
// ---------------------------------------------------------------------------

/// The record of an access key. Its secret is sealed.
pub open spec fn access_key_record(
    id: Seq<char>,
    account: Seq<char>,
    user: Seq<char>,
    sealed: Seq<char>,
    created: Seq<char>,
) -> JsonView {
    json_record(
        seq![
            ("access_key_id"@, JsonView::Str(id)),
            ("account_id"@, JsonView::Str(account)),
            ("user_name"@, JsonView::Str(user)),
            ("secret_encrypted"@, JsonView::Str(sealed)),
            ("is_active"@, JsonView::Bool(true)),
            ("is_session"@, JsonView::Bool(false)),
            ("created_at"@, JsonView::Str(created)),
        ],
    )
}

/// Builds the record of an access key.
pub fn import_access_key(
    account_id: &str,
    user_name: &str,
    access_key_id: &str,
    sealed: &str,
    created_at: &str,
) -> (r: Value)
    ensures
        json_view(r) == access_key_record(
            access_key_id@,
            account_id@,
            user_name@,
            sealed@,
            created_at@,
        ),
{
    let m = with_text(no_members(), "access_key_id", access_key_id);
    let m = with_text(m, "account_id", account_id);
    let m = with_text(m, "user_name", user_name);
    let m = with_text(m, "secret_encrypted", sealed);
    let m = with_truth(m, "is_active", true);
    let m = with_truth(m, "is_session", false);
    let m = with_text(m, "created_at", created_at);
    assert(crate::json::member_views(m@) =~= seq![
        ("access_key_id"@, JsonView::Str(access_key_id@)),
        ("account_id"@, JsonView::Str(account_id@)),
        ("user_name"@, JsonView::Str(user_name@)),
        ("secret_encrypted"@, JsonView::Str(sealed@)),
        ("is_active"@, JsonView::Bool(true)),
        ("is_session"@, JsonView::Bool(false)),
        ("created_at"@, JsonView::Str(created_at@)),
    ]);
    record_of_members(m)
}

/// An access key that was made up, with its secret.
#[derive(Debug, PartialEq, Eq)]
pub struct AccessKeyCreated {
    pub access_key_id: String,
    pub secret_access_key: String,
}

/// What an [`AccessKeyCreated`] is: the identifier and the secret.
pub open spec fn access_key_made(r: Result<AccessKeyCreated, OpError>) -> Result<
    (Seq<char>, Seq<char>),
    OpErrView,
> {
    match r {
        Ok(k) => Ok((k.access_key_id@, k.secret_access_key@)),
        Err(e) => Err(e@),
    }
}

/// The access key of a user that is made of what was drawn for its identifier
/// and for its secret. The user must be there, and both must have been drawn.
pub open spec fn access_key_from(
    user_exists: bool,
    user_name: Seq<char>,
    id: Result<Seq<u8>, Seq<char>>,
    secret: Result<Seq<u8>, Seq<char>>,
) -> Result<(Seq<char>, Seq<char>), OpErrView> {
    if !user_exists {
        Err(OpErrView::NotFound(user_name))
    } else {
        match (access_key_id_from(id), secret_from(secret)) {
            (Err(m), _) => Err(OpErrView::Internal(m)),
            (Ok(_), Err(m)) => Err(OpErrView::Internal(m)),
            (Ok(k), Ok(s)) => Ok((k, s)),
        }
    }
}

/// Makes an access key for a user of what was drawn for its identifier and for
/// its secret.
pub fn drawn_access_key(
    user_row: Option<&Value>,
    user_name: &str,
    id: Result<Vec<u8>, String>,
    secret: Result<Vec<u8>, String>,
) -> (r: Result<AccessKeyCreated, OpError>)
    requires
        draws(id, 16),
        draws(secret, 30),
    ensures
        access_key_made(r) == access_key_from(
            user_row is Some,
            user_name@,
            drawn_view(id),
            drawn_view(secret),
        ),
        r matches Ok(k) ==> k.access_key_id@.len() == 20 && k.secret_access_key@.len() == 40,
{
    if user_row.is_none() {
        return Err(OpError::NotFound(text(user_name)));
    }
    proof {
        reveal_strlit("AKIA");
    }
    let access_key_id = match drawn_access_key_id(id) {
        Ok(k) => k,
        Err(e) => return Err(OpError::Internal(e)),
    };
    let secret_access_key = match drawn_secret(secret) {
        Ok(k) => k,
        Err(e) => return Err(OpError::Internal(e)),
    };
    Ok(AccessKeyCreated { access_key_id, secret_access_key })
}

/// Makes up an access key for a user, who must be there. Whether there are bytes
/// to make it of, and which, is left to chance.
pub fn create_access_key(user_row: Option<&Value>, user_name: &str) -> (r: Result<
    AccessKeyCreated,
    OpError,
>)
    ensures
        match r {
            Ok(k) => user_row is Some && (exists|b: Seq<u8>|
                b.len() == 16 && k.access_key_id@ == #[trigger] access_key_id(b)) && (exists|
                b: Seq<u8>,
            | b.len() == 30 && k.secret_access_key@ == cut(#[trigger] base64_text(b), 40)),
            Err(e) => if user_row is None {
                e@ == OpErrView::NotFound(user_name@)
            } else {
                e@ is Internal
            },
        },
{
    if user_row.is_none() {
        return Err(OpError::NotFound(text(user_name)));
    }
    let id = random_bytes(16);
    let secret = random_bytes(30);
    let ghost i = drawn_view(id);
    let ghost s = drawn_view(secret);
    let r = drawn_access_key(user_row, user_name, id, secret);
    proof {
        let made = access_key_made(r);
        assert(made is Ok ==> made->Ok_0.0 == access_key_id(i->Ok_0));
        assert(made is Ok ==> made->Ok_0.1 == cut(base64_text(s->Ok_0), 40));
    }
    r
}

/// Whether a record of an access key is that of a user.
pub open spec fn owned_by(v: JsonView, account: Seq<char>, user: Seq<char>) -> bool {
    text_or_empty(v, "account_id"@) == account && text_or_empty(v, "user_name"@) == user
}

fn is_owned(v: &Value, account_id: &str, user_name: &str) -> (r: bool)
    ensures
        r == owned_by(json_view(*v), account_id@, user_name@),
{
    str_eq(get_text_or_empty(v, "account_id").as_str(), account_id) && str_eq(
        get_text_or_empty(v, "user_name").as_str(),
        user_name,
    )
}

/// Whether an access key may be deleted: it must be there and be the user's.
pub fn delete_access_key(
    row: Option<&Value>,
    account_id: &str,
    user_name: &str,
    key_id: &str,
) -> (r: Result<(), OpError>)
    ensures
        match r {
            Ok(_) => row is Some && owned_by(json_view(*row->0), account_id@, user_name@),
            Err(e) => (row is None || !owned_by(json_view(*row->0), account_id@, user_name@)) && e@
                == OpErrView::NotFound(key_id@),
        },
{
    match row {
        Some(v) => if is_owned(v, account_id, user_name) {
            Ok(())
        } else {
            Err(OpError::NotFound(text(key_id)))
        },
        None => Err(OpError::NotFound(text(key_id))),
    }
}

/// The records of the access keys of a user.
pub open spec fn owned_rows(
    rows: Seq<(Seq<char>, JsonView)>,
    account: Seq<char>,
    user: Seq<char>,
) -> Seq<(Seq<char>, JsonView)>
    decreases rows.len(),
{
    if rows.len() == 0 {
        Seq::empty()
    } else if owned_by(rows.last().1, account, user) {
        owned_rows(rows.drop_last(), account, user).push(rows.last())
    } else {
        owned_rows(rows.drop_last(), account, user)
    }
}

pub open spec fn row_names(rows: Seq<(Seq<char>, JsonView)>) -> Seq<Seq<char>> {
    rows.map_values(|e: (Seq<char>, JsonView)| e.0)
}

/// The rows of the access keys that go with a user.
pub fn delete_user(rows: &[(String, Value)], account_id: &str, user_name: &str) -> (r: Vec<String>)
    ensures
        crate::text::views(r@) == row_names(
            owned_rows(record_views(rows@), account_id@, user_name@),
        ),
{
    let ghost all = record_views(rows@);
    let mut out: Vec<String> = Vec::new();
    let mut i: usize = 0;
    assert(crate::text::views(out@) =~= row_names(
        owned_rows(all.take(0), account_id@, user_name@),
    ));
    while i < rows.len()
        invariant
            i <= rows.len(),
            all == record_views(rows@),
            crate::text::views(out@) == row_names(
                owned_rows(all.take(i as int), account_id@, user_name@),
            ),
        decreases rows.len() - i,
    {
        proof {
            assert(all.take(i + 1).drop_last() =~= all.take(i as int));
            assert(all.take(i + 1).last() == (rows@[i as int].0@, json_view(rows@[i as int].1)));
        }
        let ghost before = owned_rows(all.take(i as int), account_id@, user_name@);
        if is_owned(&rows[i].1, account_id, user_name) {
            let ghost texts = crate::text::views(out@);
            let k = text(rows[i].0.as_str());
            let ghost added = k@;
            out.push(k);
            proof {
                assert(crate::text::views(out@) =~= texts.push(added));
                assert(row_names(before.push(all[i as int])) =~= row_names(before).push(added));
            }
        }
        i = i + 1;
    }
    assert(all.take(i as int) =~= all);
    out
}

/// An access key in a list.
#[derive(Debug, PartialEq, Eq)]
pub struct AccessKeyEntry {
    pub access_key_id: String,
    pub is_active: bool,
    pub created_at: i128,
}

/// What an entry says of a record.
pub open spec fn key_entry(v: JsonView, now: int) -> (Seq<char>, bool, int) {
    (
        text_or_empty(v, "access_key_id"@),
        truth_field(v, "is_active"@) == Some(true),
        created_at(v, now),
    )
}

pub open spec fn key_entries(rows: Seq<(Seq<char>, JsonView)>, now: int) -> Seq<
    (Seq<char>, bool, int),
> {
    rows.map_values(|e: (Seq<char>, JsonView)| key_entry(e.1, now))
}

pub open spec fn key_entry_views(l: Seq<AccessKeyEntry>) -> Seq<(Seq<char>, bool, int)> {
    l.map_values(|e: AccessKeyEntry| (e.access_key_id@, e.is_active, e.created_at as int))
}

/// Lists the access keys of a user.
pub fn list_access_keys(
    rows: &[(String, Value)],
    account_id: &str,
    user_name: &str,
    now_nanos: i128,
) -> (r: Vec<AccessKeyEntry>)
    ensures
        key_entry_views(r@) == key_entries(
            owned_rows(record_views(rows@), account_id@, user_name@),
            now_nanos as int,
        ),
{
    let ghost all = record_views(rows@);
    let mut out: Vec<AccessKeyEntry> = Vec::new();
    let mut i: usize = 0;
    assert(key_entry_views(out@) =~= key_entries(
        owned_rows(all.take(0), account_id@, user_name@),
        now_nanos as int,
    ));
    while i < rows.len()
        invariant
            i <= rows.len(),
            all == record_views(rows@),
            key_entry_views(out@) == key_entries(
                owned_rows(all.take(i as int), account_id@, user_name@),
                now_nanos as int,
            ),
        decreases rows.len() - i,
    {
        proof {
            assert(all.take(i + 1).drop_last() =~= all.take(i as int));
            assert(all.take(i + 1).last() == (rows@[i as int].0@, json_view(rows@[i as int].1)));
        }
        let ghost before = owned_rows(all.take(i as int), account_id@, user_name@);
        let v = &rows[i].1;
        if is_owned(v, account_id, user_name) {
            let ghost texts = key_entry_views(out@);
            let e = AccessKeyEntry {
                access_key_id: get_text_or_empty(v, "access_key_id"),
                is_active: get_truth_or(v, "is_active", false),
                created_at: read_created(v, now_nanos),
            };
            let ghost added = (e.access_key_id@, e.is_active, e.created_at as int);
            out.push(e);
            proof {
                assert(key_entry_views(out@) =~= texts.push(added));
                assert(key_entries(before.push(all[i as int]), now_nanos as int) =~= key_entries(
                    before,
                    now_nanos as int,
                ).push(added));
            }
        }
        i = i + 1;
    }
    assert(all.take(i as int) =~= all);
    out
}

/// An access key that was made for a user is that user's, and no other's.
pub proof fn keys_have_one_owner(
    id: Seq<char>,
    account: Seq<char>,
    user: Seq<char>,
    sealed: Seq<char>,
    created: Seq<char>,
    a: Seq<char>,
    u: Seq<char>,
)
    ensures
        owned_by(access_key_record(id, account, user, sealed, created), a, u) <==> a == account && u
            == user,
        text_field(access_key_record(id, account, user, sealed, created), "secret_encrypted"@)
            == Some(sealed),
{
    let s = seq![
        ("access_key_id"@, JsonView::Str(id)),
        ("account_id"@, JsonView::Str(account)),
        ("user_name"@, JsonView::Str(user)),
        ("secret_encrypted"@, JsonView::Str(sealed)),
        ("is_active"@, JsonView::Bool(true)),
        ("is_session"@, JsonView::Bool(false)),
        ("created_at"@, JsonView::Str(created)),
    ];
    record_member(s, "account_id"@);
    record_member(s, "user_name"@);
    record_member(s, "secret_encrypted"@);
    reveal_strlit("account_id");
    reveal_strlit("user_name");
    reveal_strlit("secret_encrypted");
    reveal_strlit("is_active");
    reveal_strlit("is_session");
    reveal_strlit("created_at");
    assert("account_id"@[0] == 'a' && "user_name"@[0] == 'u' && "secret_encrypted"@[0] == 's');
    assert("is_active"@[0] == 'i' && "is_session"@[0] == 'i' && "created_at"@[0] == 'c');
    reveal_with_fuel(member, 7);
    let s6 = s.drop_last();
    let s5 = s6.drop_last();
    let s4 = s5.drop_last();
    let s3 = s4.drop_last();
    let s2 = s3.drop_last();
    assert(s6.last() == s[5] && s5.last() == s[4] && s4.last() == s[3]);
    assert(s3.last() == s[2] && s2.last() == s[1]);
}

// ---------------------------------------------------------------------------
// Credentials
// ---------------------------------------------------------------------------

/// The credentials of an access key.
#[derive(Debug, PartialEq, Eq)]
pub struct StoredCredential {
    pub secret_key: String,
    pub account_id: String,
    pub principal_name: String,
    pub session_name: Option<String>,
    pub is_session: bool,
    pub session_token: Option<String>,
    pub is_active: bool,
    pub expires_at: Option<i128>,
}

/// What credentials are.
pub struct CredentialView {
    pub secret: Seq<char>,
    pub account: Seq<char>,
    pub principal: Seq<char>,
    pub session_name: Option<Seq<char>>,
    pub is_session: bool,
    pub session_token: Option<Seq<char>>,
    pub is_active: bool,
    pub expires_at: Option<int>,
}

impl StoredCredential {
    pub open spec fn view(&self) -> CredentialView {
        CredentialView {
            secret: self.secret_key@,
            account: self.account_id@,
            principal: self.principal_name@,
            session_name: opt_view(self.session_name),
            is_session: self.is_session,
            session_token: opt_view(self.session_token),
            is_active: self.is_active,
            expires_at: match self.expires_at {
                Some(t) => Some(t as int),
                None => None,
            },
        }
    }
}

/// The sealed secret of an access key, where there is one.
pub fn sealed_secret(row: &Value) -> (r: Result<String, String>)
    ensures
        match r {
            Ok(s) => text_field(json_view(*row), "secret_encrypted"@) == Some(s@),
            Err(e) => text_field(json_view(*row), "secret_encrypted"@) is None && e@
                == "access key missing secret_encrypted"@,
        },
{
    match get_text(row, "secret_encrypted") {
        Some(s) => Ok(s),
        None => Err(text("access key missing secret_encrypted")),
    }
}

/// The credentials in the record of an access key, by what opening its secret
/// gave.
pub open spec fn credential(v: JsonView, opened: Result<Seq<u8>, Seq<char>>) -> Result<
    CredentialView,
    Seq<char>,
> {
    match opened {
        Err(m) => Err("decrypt: "@ + m),
        Ok(b) => match utf8_decoded(b) {
            Err(m) => Err("secret utf8: "@ + m),
            Ok(secret) => Ok(
                CredentialView {
                    secret,
                    account: text_or_empty(v, "account_id"@),
                    principal: text_or_empty(v, "user_name"@),
                    session_name: text_field(v, "session_name"@),
                    is_session: truth_field(v, "is_session"@) == Some(true),
                    session_token: text_field(v, "session_token"@),
                    is_active: truth_field(v, "is_active"@) != Some(false),
                    expires_at: match text_field(v, "expires_at"@) {
                        Some(s) => rfc3339_parsed(s),
                        None => None,
                    },
                },
            ),
        },
    }
}

pub open spec fn opened_view(r: Result<Vec<u8>, String>) -> Result<Seq<u8>, Seq<char>> {
    match r {
        Ok(b) => Ok(b@),
        Err(m) => Err(m@),
    }
}

/// Reads the credentials of an access key. `opened` is what opening its sealed
/// secret gave.
pub fn lookup_credential(row: &Value, opened: Result<Vec<u8>, String>) -> (r: Result<
    StoredCredential,
    String,
>)
    ensures
        match r {
            Ok(c) => credential(json_view(*row), opened_view(opened)) == Ok::<
                CredentialView,
                Seq<char>,
            >(c@),
            Err(e) => credential(json_view(*row), opened_view(opened)) == Err::<
                CredentialView,
                Seq<char>,
            >(e@),
        },
{
    let bytes = match opened {
        Ok(b) => b,
        Err(m) => return Err(cat2("decrypt: ", m.as_str())),
    };
    let secret_key = match decode_text(bytes.as_slice()) {
        Ok(s) => s,
        Err(m) => return Err(cat2("secret utf8: ", m.as_str())),
    };
    let expires_at = match get_text(row, "expires_at") {
        Some(s) => parse_rfc3339(s.as_str()),
        None => None,
    };
    Ok(
        StoredCredential {
            secret_key,
            account_id: get_text_or_empty(row, "account_id"),
            principal_name: get_text_or_empty(row, "user_name"),
            session_name: get_text(row, "session_name"),
            is_session: get_truth_or(row, "is_session", false),
            session_token: get_text(row, "session_token"),
            is_active: get_truth_or(row, "is_active", true),
            expires_at,
        },
    )
}

/// The credentials of a server.
#[derive(Debug, PartialEq, Eq)]
pub struct BigtableCredentialStore {
    pub client: BigtableClient,
    pub encryption_key: String,
}

impl BigtableCredentialStore {
    pub fn new(client: BigtableClient, encryption_key: String) -> (r: BigtableCredentialStore)
        ensures
            r.client == client,
            r.encryption_key == encryption_key,
    {
        BigtableCredentialStore { client, encryption_key }
    }
}

// ---------------------------------------------------------------------------
// Diagnostics
// ---------------------------------------------------------------------------

/// How many indexes a table has.
pub open spec fn index_count(d: Option<TableDescription>) -> nat {
    match d {
        Some(t) => t.gsis().len() + t.lsis().len(),
        None => 0,
    }
}

/// How many indexes tables have.
pub open spec fn indexes(l: Seq<Option<TableDescription>>) -> nat
    decreases l.len(),
{
    if l.len() == 0 {
        0
    } else {
        indexes(l.drop_last()) + index_count(l.last())
    }
}

proof fn lemma_indexes(l: Seq<Option<TableDescription>>, n: int)
    requires
        0 <= n <= l.len(),
    ensures
        indexes(l.take(n)) <= indexes(l),
    decreases l.len(),
{
    if n < l.len() {
        assert(l.drop_last().take(n) =~= l.take(n));
        lemma_indexes(l.drop_last(), n);
    } else {
        assert(l.take(n) =~= l);
    }
}

/// Counts the indexes of tables. Tables whose description cannot be read have
/// none.
pub fn count_indexes(tables: &[Option<TableDescription>]) -> (r: usize)
    requires
        indexes(tables@) <= usize::MAX,
    ensures
        r == indexes(tables@),
{
    let mut n: usize = 0;
    let mut i: usize = 0;
    while i < tables.len()
        invariant
            i <= tables.len(),
            indexes(tables@) <= usize::MAX,
            n == indexes(tables@.take(i as int)),
        decreases tables.len() - i,
    {
        proof {
            assert(tables@.take(i + 1).drop_last() =~= tables@.take(i as int));
            lemma_indexes(tables@, i + 1);
        }
        if let Some(t) = &tables[i] {
            if let Some(l) = &t.global_secondary_indexes {
                assert(crate::table::gsi_views(l@).len() == l@.len());
                n = n + l.len();
            }
            if let Some(l) = &t.local_secondary_indexes {
                assert(crate::table::lsi_views(l@).len() == l@.len());
                n = n + l.len();
            }
        }
        i = i + 1;
    }
    assert(tables@.take(i as int) =~= tables@);
    n
}

} // verus!

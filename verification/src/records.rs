//! What the records of the catalog say when they are read: accounts, users,
//! policies, access keys and backups.

use vstd::prelude::*;
use vstd::string::*;

use crate::backups::{
    backups_of, describes_backup, describes_pitr, items_size, keeps_items, pitr_enabled,
    restored_item, row_part, BackupDescription, BackupSummary, ContinuousBackupsDescription,
};
use crate::bootstrapper::{account_number, admin_from, first_account_from, key_record_from};
use crate::catalog_store::{
    access_key_from, access_key_id, access_key_record, account_record, admin_password,
    changed_password, credential, documents, indexes, key_char, key_entry, lists_user, owned_by,
    owned_rows, policy_document, policy_key, policy_record, user_record, OpErrView, UserListEntry,
};
use crate::error::ErrView;
use crate::hash::password_fits;
use crate::json::{
    json_bytes, json_field, json_record, member, record_member, text_field, text_or_empty,
    truth_field, JsonView,
};
use crate::keys::backup_item_key;
use crate::random::iso_parsed;
use crate::table::TableDescription;
use crate::text::{
    all_digits, dec_value, decimal, decimal_round_trip, utf8_decoded, utf8_round_trip,
};
use crate::value::{schema_view, ItemView};

verus! {

proof fn lemma_member_at(s: Seq<(Seq<char>, JsonView)>, i: int)
    requires
        0 <= i < s.len(),
        forall|j: int| i < j < s.len() ==> (#[trigger] s[j]).0 != s[i].0,
    ensures
        member(s, s[i].0) == Some(s[i].1),
    decreases s.len(),
{
    if i < s.len() - 1 {
        let d = s.drop_last();
        let n = s.len() - 1;
        assert(s[n].0 != s[i].0);
        assert(d[i] == s[i]);
        assert forall|j: int| i < j < d.len() implies (#[trigger] d[j]).0 != d[i].0 by {
            assert(d[j] == s[j]);
        }
        lemma_member_at(d, i);
    }
}

proof fn lemma_no_member(s: Seq<(Seq<char>, JsonView)>, name: Seq<char>)
    requires
        forall|j: int| 0 <= j < s.len() ==> (#[trigger] s[j]).0 != name,
    ensures
        member(s, name) is None,
    decreases s.len(),
{
    if s.len() > 0 {
        let d = s.drop_last();
        let n = s.len() - 1;
        assert(s[n].0 != name);
        assert forall|j: int| 0 <= j < d.len() implies (#[trigger] d[j]).0 != name by {
            assert(d[j] == s[j]);
        }
        lemma_no_member(d, name);
    }
}

/// A member of a record whose names all differ.
proof fn lemma_record_at(s: Seq<(Seq<char>, JsonView)>, i: int)
    requires
        0 <= i < s.len(),
        forall|j: int| i < j < s.len() ==> (#[trigger] s[j]).0 != s[i].0,
    ensures
        json_field(json_record(s), s[i].0) == Some(s[i].1),
{
    record_member(s, s[i].0);
    lemma_member_at(s, i);
}

// ---------------------------------------------------------------------------
// Accounts and users
// ---------------------------------------------------------------------------

/// The record of an account gives back its identifier and its name.
pub proof fn accounts_read_back(id: Seq<char>, name: Seq<char>, created: Seq<char>)
    ensures
        text_or_empty(account_record(id, name, created), "account_id"@) == id,
        text_or_empty(account_record(id, name, created), "account_name"@) == name,
        text_field(account_record(id, name, created), "created_at"@) == Some(created),
{
    reveal_strlit("account_id");
    reveal_strlit("account_name");
    reveal_strlit("created_at");
    assert("account_id"@[0] == 'a' && "created_at"@[0] == 'c');
    assert("account_id"@.len() == 10 && "account_name"@.len() == 12 && "created_at"@.len() == 10);
    let s = seq![
        ("account_id"@, JsonView::Str(id)),
        ("account_name"@, JsonView::Str(name)),
        ("created_at"@, JsonView::Str(created)),
    ];
    lemma_record_at(s, 0);
    lemma_record_at(s, 1);
    lemma_record_at(s, 2);
}

/// The record of a user gives back the name, the account and the password hash,
/// says whether there is one, and names the user in full.
pub proof fn users_read_back(
    account: Seq<char>,
    user: Seq<char>,
    hash: Option<Seq<char>>,
    created: Seq<char>,
)
    ensures
        ({
            let r = user_record(account, user, hash, created);
            &&& text_or_empty(r, "user_name"@) == user
            &&& text_field(r, "account_id"@) == Some(account)
            &&& text_field(r, "password_hash"@) == hash
            &&& truth_field(r, "has_password"@) == Some(hash is Some)
            &&& text_or_empty(r, "user_arn"@) == "arn:aws:iam::"@ + account + ":user/"@ + user
            &&& text_field(r, "created_at"@) == Some(created)
        }),
{
    reveal_strlit("user_name");
    reveal_strlit("account_id");
    reveal_strlit("password_hash");
    reveal_strlit("has_password");
    reveal_strlit("user_arn");
    reveal_strlit("created_at");
    assert("account_id"@[0] == 'a' && "created_at"@[0] == 'c');
    assert("user_name"@.len() == 9 && "account_id"@.len() == 10 && "password_hash"@.len() == 13);
    assert("has_password"@.len() == 12 && "user_arn"@.len() == 8 && "created_at"@.len() == 10);
    let s = seq![
        ("user_name"@, JsonView::Str(user)),
        ("account_id"@, JsonView::Str(account)),
        ("password_hash"@, crate::catalog_store::opt_str_json(hash)),
        ("has_password"@, JsonView::Bool(hash is Some)),
        ("user_arn"@, JsonView::Str(crate::catalog_store::user_arn(account, user))),
        ("created_at"@, JsonView::Str(created)),
    ];
    lemma_record_at(s, 0);
    lemma_record_at(s, 1);
    lemma_record_at(s, 2);
    lemma_record_at(s, 3);
    lemma_record_at(s, 4);
    lemma_record_at(s, 5);
}

/// Whether the password of an administrator is accepted goes by the hash in the
/// record alone. A new password is set only where there is a record, and all else
/// in it stays.
pub proof fn passwords_are_checked(
    row: Option<JsonView>,
    name: Seq<char>,
    password: Seq<char>,
    hash: Seq<char>,
    m: Seq<(Seq<char>, JsonView)>,
    other: Seq<char>,
)
    ensures
        row is None ==> admin_password(row, password) == Ok::<Option<bool>, OpErrView>(None),
        row is None ==> changed_password(row, name, hash) == Err::<JsonView, OpErrView>(
            OpErrView::NotFound(name),
        ),
        row matches Some(v) ==> (text_field(v, "password_hash"@) matches Some(h) ==> (admin_password(
            row,
            password,
        ) == Ok::<Option<bool>, OpErrView>(Some(true)) <==> password_fits(password, h) == Some(
            true,
        ))),
        row matches Some(v) ==> (text_field(v, "password_hash"@) is None ==> admin_password(
            row,
            password,
        ) is Err),
        row == Some(JsonView::Object(m)) ==> (changed_password(row, name, hash) matches Ok(v)
            && text_field(v, "password_hash"@) == Some(hash) && (other != "password_hash"@
            ==> json_field(v, other) == json_field(JsonView::Object(m), other))),
{
    let p = m.push(("password_hash"@, JsonView::Str(hash)));
    record_member(p, "password_hash"@);
    record_member(p, other);
    assert(p.drop_last() =~= m);
}

// ---------------------------------------------------------------------------
// Policies
// ---------------------------------------------------------------------------

/// The policies of users and of roles are kept apart, each under its principal and
/// its name; there are no policies of anything else. The record of a policy gives
/// back its document and its name.
pub proof fn policies_are_kept_by_principal(
    account: Seq<char>,
    kind: Seq<char>,
    name: Seq<char>,
    policy: Seq<char>,
    document: JsonView,
    created: Seq<char>,
)
    ensures
        policy_key(account, kind, name, policy) is Ok <==> kind == "user"@ || kind == "role"@,
        policy_key(account, kind, name, policy) matches Ok(k) ==> k == kind + "_policy:"@ + account
            + ":"@ + name + ":"@ + policy,
        policy_document(policy_record(policy, document, created)) == document,
        text_or_empty(policy_record(policy, document, created), "policy_name"@) == policy,
        text_field(policy_record(policy, document, created), "created_at"@) == Some(created),
{
    reveal_strlit("user");
    reveal_strlit("role");
    reveal_strlit("_policy:");
    reveal_strlit("user_policy:");
    reveal_strlit("role_policy:");
    assert("user"@ + "_policy:"@ =~= "user_policy:"@);
    assert("role"@ + "_policy:"@ =~= "role_policy:"@);
    reveal_strlit("policy_name");
    reveal_strlit("document");
    reveal_strlit("created_at");
    assert("policy_name"@.len() == 11 && "document"@.len() == 8 && "created_at"@.len() == 10);
    let s = seq![
        ("policy_name"@, JsonView::Str(policy)),
        ("document"@, document),
        ("created_at"@, JsonView::Str(created)),
    ];
    lemma_record_at(s, 0);
    lemma_record_at(s, 1);
    lemma_record_at(s, 2);
}

/// The policies of a principal are the documents of all rows that have one, in
/// order.
pub proof fn all_policies_count(rows: Seq<(Seq<char>, JsonView)>)
    ensures
        documents(rows) == rows.filter(
            |r: (Seq<char>, JsonView)| json_field(r.1, "document"@) is Some,
        ).map_values(|r: (Seq<char>, JsonView)| json_bytes(json_field(r.1, "document"@)->0)),
    decreases rows.len(),
{
    reveal(Seq::filter);
    let p = |r: (Seq<char>, JsonView)| json_field(r.1, "document"@) is Some;
    let e = |r: (Seq<char>, JsonView)| json_bytes(json_field(r.1, "document"@)->0);
    if rows.len() > 0 {
        let d = rows.drop_last();
        all_policies_count(d);
        let f = d.filter(p);
        assert(f.push(rows.last()).map_values(e) =~= f.map_values(e).push(e(rows.last())));
    } else {
        assert(documents(rows) =~= rows.filter(p).map_values(e));
    }
}

// ---------------------------------------------------------------------------
// Access keys
// ---------------------------------------------------------------------------

/// The access keys of a user are exactly those whose records name the account and
/// the user, in order: they are listed, and they go with the user.
pub proof fn keys_go_with_their_users(
    rows: Seq<(Seq<char>, JsonView)>,
    account: Seq<char>,
    user: Seq<char>,
)
    requires
        account.len() > 0,
        user.len() > 0,
    ensures
        owned_rows(rows, account, user) == rows.filter(
            |r: (Seq<char>, JsonView)|
                text_field(r.1, "account_id"@) == Some(account) && text_field(r.1, "user_name"@)
                    == Some(user),
        ),
    decreases rows.len(),
{
    reveal(Seq::filter);
    let p = |r: (Seq<char>, JsonView)|
        text_field(r.1, "account_id"@) == Some(account) && text_field(r.1, "user_name"@) == Some(
            user,
        );
    if rows.len() > 0 {
        keys_go_with_their_users(rows.drop_last(), account, user);
        let v = rows.last().1;
        assert(owned_by(v, account, user) <==> p(rows.last()));
    } else {
        assert(owned_rows(rows, account, user) =~= rows.filter(p));
    }
}

/// The record of a new access key says that it is active, not of a session, and
/// does not expire. Looked up, it gives the secret that was sealed, as it was
/// opened, and the account and the user that it is for.
pub proof fn new_keys_are_good(
    id: Seq<char>,
    account: Seq<char>,
    user: Seq<char>,
    sealed: Seq<char>,
    created: Seq<char>,
    secret: Seq<char>,
    now: int,
)
    ensures
        ({
            let r = access_key_record(id, account, user, sealed, created);
            &&& key_entry(r, now) == (
                id,
                true,
                match iso_parsed(created) {
                    Some(t) => t,
                    None => now,
                },
            )
            &&& text_field(r, "secret_encrypted"@) == Some(sealed)
            &&& credential(r, Ok(vstd::utf8::encode_utf8(secret))) matches Ok(c) && {
                &&& c.secret == secret
                &&& c.account == account
                &&& c.principal == user
                &&& c.is_active
                &&& !c.is_session
                &&& c.session_name is None
                &&& c.session_token is None
                &&& c.expires_at is None
            }
        }),
{
    reveal_strlit("access_key_id");
    reveal_strlit("account_id");
    reveal_strlit("user_name");
    reveal_strlit("secret_encrypted");
    reveal_strlit("is_active");
    reveal_strlit("is_session");
    reveal_strlit("created_at");
    reveal_strlit("session_name");
    reveal_strlit("session_token");
    reveal_strlit("expires_at");
    assert("access_key_id"@.len() == 13 && "access_key_id"@[0] == 'a');
    assert("account_id"@.len() == 10 && "account_id"@[0] == 'a');
    assert("user_name"@.len() == 9 && "user_name"@[0] == 'u');
    assert("secret_encrypted"@.len() == 16);
    assert("is_active"@.len() == 9 && "is_active"@[0] == 'i');
    assert("is_session"@.len() == 10 && "is_session"@[0] == 'i');
    assert("created_at"@.len() == 10 && "created_at"@[0] == 'c');
    assert("session_name"@.len() == 12);
    assert("session_token"@.len() == 13 && "session_token"@[0] == 's');
    assert("expires_at"@.len() == 10 && "expires_at"@[0] == 'e');
    let s = seq![
        ("access_key_id"@, JsonView::Str(id)),
        ("account_id"@, JsonView::Str(account)),
        ("user_name"@, JsonView::Str(user)),
        ("secret_encrypted"@, JsonView::Str(sealed)),
        ("is_active"@, JsonView::Bool(true)),
        ("is_session"@, JsonView::Bool(false)),
        ("created_at"@, JsonView::Str(created)),
    ];
    lemma_record_at(s, 0);
    lemma_record_at(s, 1);
    lemma_record_at(s, 2);
    lemma_record_at(s, 3);
    lemma_record_at(s, 4);
    lemma_record_at(s, 5);
    lemma_record_at(s, 6);
    record_member(s, "session_name"@);
    record_member(s, "session_token"@);
    record_member(s, "expires_at"@);
    lemma_no_member(s, "session_name"@);
    lemma_no_member(s, "session_token"@);
    lemma_no_member(s, "expires_at"@);
    utf8_round_trip(secret);
}

/// A credential says what the record says: whether it is active, of a session, and
/// of whom. Where the secret could not be opened there is none.
pub proof fn credentials_say_what_records_say(v: JsonView, opened: Result<Seq<u8>, Seq<char>>)
    ensures
        opened is Err ==> credential(v, opened) is Err,
        credential(v, opened) matches Ok(c) ==> {
            &&& utf8_decoded(opened->Ok_0) == Ok::<Seq<char>, Seq<char>>(c.secret)
            &&& c.is_active <==> truth_field(v, "is_active"@) != Some(false)
            &&& c.is_session <==> truth_field(v, "is_session"@) == Some(true)
            &&& text_field(v, "account_id"@) matches Some(a) ==> c.account == a
            &&& text_field(v, "user_name"@) matches Some(u) ==> c.principal == u
            &&& c.session_name == text_field(v, "session_name"@)
            &&& c.session_token == text_field(v, "session_token"@)
            &&& text_field(v, "expires_at"@) is None ==> c.expires_at is None
            &&& text_field(v, "expires_at"@) matches Some(s) ==> c.expires_at
                == crate::random::rfc3339_parsed(s)
        },
{
}

/// The identifier of an access key is `AKIA` and a letter from `A` to `Z` or a
/// digit from `2` to `7` for each byte. Bytes give one character exactly where
/// their last five bits are the same.
pub proof fn key_identifiers_are_made_of_bytes(bytes: Seq<u8>, i: int, a: u8, b: u8)
    requires
        0 <= i < bytes.len(),
    ensures
        access_key_id(bytes).len() == 4 + bytes.len(),
        access_key_id(bytes).take(4) == "AKIA"@,
        access_key_id(bytes)[4 + i] == key_char(bytes[i]),
        'A' <= key_char(a) <= 'Z' || '2' <= key_char(a) <= '7',
        key_char(a) == key_char(b) <==> a % 32 == b % 32,
{
    reveal_strlit("AKIA");
    assert(access_key_id(bytes).take(4) =~= "AKIA"@);
}

/// An access key is made only for a user who is there, and only where the bytes of
/// both its parts were drawn.
pub proof fn keys_are_made_for_users(
    there: bool,
    user: Seq<char>,
    id: Result<Seq<u8>, Seq<char>>,
    secret: Result<Seq<u8>, Seq<char>>,
)
    ensures
        access_key_from(there, user, id, secret) is Ok <==> there && id is Ok && secret is Ok,
        !there ==> access_key_from(there, user, id, secret) == Err::<
            (Seq<char>, Seq<char>),
            OpErrView,
        >(OpErrView::NotFound(user)),
        access_key_from(there, user, id, secret) matches Ok((k, s)) ==> k == access_key_id(id->Ok_0)
            && s.len() <= 40 && s.is_prefix_of(crate::json::base64_text(secret->Ok_0)),
{
    if let Ok(b) = secret {
        let t = crate::json::base64_text(b);
        assert(t.subrange(0, t.len() as int) =~= t);
        if t.len() > 40 {
            assert(t.subrange(0, 40) =~= t.take(40));
        }
    }
}

/// The indexes of tables are counted table by table, global and local ones alike.
pub proof fn indexes_add_up(l: Seq<Option<TableDescription>>, d: Option<TableDescription>)
    ensures
        indexes(Seq::empty()) == 0,
        d matches Some(t) ==> indexes(l.push(d)) == indexes(l) + t.gsis().len() + t.lsis().len(),
        d is None ==> indexes(l.push(d)) == indexes(l),
{
    assert(l.push(d).drop_last() =~= l);
}

// ---------------------------------------------------------------------------
// First records
// ---------------------------------------------------------------------------

/// A first account is made only where there is none. Its identifier has twelve
/// digits, which are the last ones of the number that was drawn, and its record
/// gives the identifier back.
pub proof fn first_accounts_read_back(
    accounts: usize,
    d: Result<Seq<u8>, Seq<char>>,
    created: Seq<char>,
)
    requires
        d matches Ok(b) ==> b.len() == 8,
    ensures
        accounts > 0 ==> first_account_from(accounts, d, created) == Ok::<
            Option<(Seq<char>, JsonView)>,
            OpErrView,
        >(None),
        accounts == 0 ==> (first_account_from(accounts, d, created) is Ok <==> d is Ok),
        first_account_from(accounts, d, created) matches Ok(Some((id, v))) ==> {
            &&& accounts == 0
            &&& id.len() == 12
            &&& all_digits(id)
            &&& dec_value(id) == crate::bytes::be_value(d->Ok_0) % 1_000_000_000_000
            &&& text_or_empty(v, "account_id"@) == id
            &&& text_field(v, "created_at"@) == Some(created)
        },
{
    if let Ok(b) = d {
        let n = crate::bytes::be_value(b) % 1_000_000_000_000;
        let id = account_number(crate::bytes::be_value(b));
        decimal_round_trip(n);
        reveal_with_fuel(crate::keys::ten_to, 13);
        crate::keys::lemma_padded(n, 12);
        lemma_padded_value(decimal(n), 12);
        reveal_strlit("account_id");
        reveal_strlit("created_at");
        assert("account_id"@[0] == 'a' && "created_at"@[0] == 'c');
        let s = seq![("account_id"@, JsonView::Str(id)), ("created_at"@, JsonView::Str(created))];
        lemma_record_at(s, 0);
        lemma_record_at(s, 1);
    }
}

proof fn lemma_padded_value(s: Seq<char>, width: nat)
    ensures
        dec_value(crate::text::zero_padded(s, width)) == dec_value(s),
{
    if s.len() < width {
        let z = Seq::new((width - s.len()) as nat, |i: int| '0');
        lemma_zeros_before(z, s);
    }
}

proof fn lemma_zeros_before(z: Seq<char>, s: Seq<char>)
    requires
        forall|i: int| 0 <= i < z.len() ==> #[trigger] z[i] == '0',
    ensures
        dec_value(z + s) == dec_value(s),
    decreases z.len() + s.len(),
{
    let w = z + s;
    if s.len() > 0 {
        lemma_zeros_before(z, s.drop_last());
        assert(w.drop_last() =~= z + s.drop_last());
        assert(w.last() == s.last());
    } else if z.len() > 0 {
        lemma_zeros_before(z.drop_last(), s);
        assert(w.drop_last() =~= z.drop_last() + s);
        assert(w.last() == z[z.len() - 1]);
    } else {
        assert(w =~= s);
    }
}

/// The key that secrets are sealed with is made only where there is none, of
/// exactly the bytes that were drawn.
pub proof fn sealing_keys_read_back(
    known: bool,
    d: Result<Seq<u8>, Seq<char>>,
    created: Seq<char>,
)
    ensures
        known ==> key_record_from(known, d, created) == Ok::<Option<JsonView>, OpErrView>(None),
        !known ==> (key_record_from(known, d, created) is Ok <==> d is Ok),
        key_record_from(known, d, created) matches Ok(Some(v)) ==> !known && text_field(
            v,
            "key_b64"@,
        ) == Some(crate::json::base64_text(d->Ok_0)) && text_field(v, "algorithm"@) == Some(
            "AES-256-GCM"@,
        ),
{
    if let Ok(b) = d {
        reveal_strlit("algorithm");
        reveal_strlit("key_b64");
        reveal_strlit("created_at");
        assert("algorithm"@.len() == 9 && "key_b64"@.len() == 7 && "created_at"@.len() == 10);
        let s = seq![
            ("algorithm"@, JsonView::Str("AES-256-GCM"@)),
            ("key_b64"@, JsonView::Str(crate::json::base64_text(b))),
            ("created_at"@, JsonView::Str(created)),
        ];
        lemma_record_at(s, 0);
        lemma_record_at(s, 1);
    }
}

/// A first administrator is made with the password that the environment gives,
/// which is not told, or with the one that was drawn, which is. The record holds
/// the hash, the name and whether the environment gave the password.
pub proof fn first_administrators_are_made(
    username: Seq<char>,
    env_password: Option<Seq<char>>,
    drawn: Result<Seq<char>, Seq<char>>,
    hashed: Result<Seq<char>, Seq<char>>,
    created: Seq<char>,
)
    ensures
        admin_from(username, env_password, drawn, hashed, created) is Ok <==> hashed is Ok && (
        env_password is Some || drawn is Ok),
        admin_from(username, env_password, drawn, hashed, created) matches Ok((a, v)) ==> {
            &&& a.username == username
            &&& !a.already_existed
            &&& a.from_env <==> env_password is Some
            &&& env_password is Some ==> a.generated_password is None
            &&& env_password is None ==> a.generated_password == Some(drawn->Ok_0)
            &&& text_field(v, "username"@) == Some(username)
            &&& text_field(v, "password_hash"@) == Some(hashed->Ok_0)
            &&& truth_field(v, "from_env"@) == Some(env_password is Some)
            &&& text_field(v, "created_at"@) == Some(created)
        },
{
    if let Ok(h) = hashed {
        reveal_strlit("username");
        reveal_strlit("password_hash");
        reveal_strlit("from_env");
        reveal_strlit("created_at");
        assert("username"@.len() == 8 && "username"@[0] == 'u');
        assert("from_env"@.len() == 8 && "from_env"@[0] == 'f');
        assert("password_hash"@.len() == 13 && "created_at"@.len() == 10);
        let s = seq![
            ("username"@, JsonView::Str(username)),
            ("password_hash"@, JsonView::Str(h)),
            ("from_env"@, JsonView::Bool(env_password is Some)),
            ("created_at"@, JsonView::Str(created)),
        ];
        lemma_record_at(s, 0);
        lemma_record_at(s, 1);
        lemma_record_at(s, 2);
        lemma_record_at(s, 3);
    }
}

// ---------------------------------------------------------------------------
// Backups
// ---------------------------------------------------------------------------

/// A backup holds every item of the table, in order, and gives each back as it
/// was. Its description names the table, its keys and how many items there are.
pub proof fn backups_hold_all_items(
    b: BackupDescription,
    rows: Seq<(String, serde_json::Value)>,
    account: Seq<char>,
    table: Seq<char>,
    d: TableDescription,
    items: Seq<ItemView>,
    name: Seq<char>,
    ts_ms: int,
)
    requires
        describes_backup(b, account, table, d, items, name, ts_ms),
        keeps_items(rows, b.backup_details.backup_arn@, items),
    ensures
        rows.len() == items.len(),
        forall|i: int|
            0 <= i < items.len() ==> restored_item(
                crate::json::json_view((#[trigger] rows[i]).1),
            ) == Some(items[i]) && rows[i].0@ == backup_item_key(
                b.backup_details.backup_arn@,
                i as nat,
            ),
        b.source_table_details.item_count == items.len(),
        b.source_table_details.table_name@ == table,
        b.source_table_details.table_id@ == d.table_id@,
        b.source_table_details.table_arn@ == d.table_arn@,
        schema_view(b.source_table_details.key_schema@) == schema_view(d.key_schema@),
        b.backup_details.backup_name@ == name,
        b.backup_details.backup_creation_ms == ts_ms,
        b.backup_details.backup_status@ == "AVAILABLE"@,
        b.backup_details.backup_arn@ == "arn:aws:dynamodb:us-east-1:"@ + account + ":table/"@ + table
            + "/backup/"@ + crate::text::signed_decimal(ts_ms),
        items_size(items) <= i64::MAX ==> b.backup_details.backup_size_bytes == items_size(items),
{
}

/// The size of a backup is that of its items in JSON.
pub proof fn backup_sizes_add_up(items: Seq<ItemView>, item: ItemView)
    ensures
        items_size(Seq::empty()) == 0,
        items_size(items.push(item)) == items_size(items) + json_bytes(
            JsonView::Object(crate::cell::map_json(item)),
        ).len(),
{
    assert(items.push(item).drop_last() =~= items);
}

/// Whether a backup could be read and is one of a table, if one is asked for.
pub open spec fn is_backup_of(b: Option<BackupDescription>, table: Option<Seq<char>>) -> bool {
    b matches Some(x) && (table matches Some(t) ==> x.source_table_details.table_name@ == t)
}

/// The backups that are listed are exactly those of the table, or all where no
/// table is asked for, in order, each with what its description says.
pub proof fn backups_are_listed(l: Seq<Option<BackupDescription>>, table: Option<Seq<char>>)
    ensures
        backups_of(l, table) == l.filter(
            |b: Option<BackupDescription>| is_backup_of(b, table),
        ).map_values(
            |b: Option<BackupDescription>|
                BackupSummary {
                    backup_arn: b->0.backup_details.backup_arn,
                    backup_name: b->0.backup_details.backup_name,
                    table_name: b->0.source_table_details.table_name,
                    table_arn: b->0.source_table_details.table_arn,
                    backup_status: b->0.backup_details.backup_status,
                    backup_type: b->0.backup_details.backup_type,
                    backup_size_bytes: b->0.backup_details.backup_size_bytes,
                    backup_creation_ms: b->0.backup_details.backup_creation_ms,
                },
        ),
    decreases l.len(),
{
    reveal(Seq::filter);
    let p = |b: Option<BackupDescription>| is_backup_of(b, table);
    let e = |b: Option<BackupDescription>|
        BackupSummary {
            backup_arn: b->0.backup_details.backup_arn,
            backup_name: b->0.backup_details.backup_name,
            table_name: b->0.source_table_details.table_name,
            table_arn: b->0.source_table_details.table_arn,
            backup_status: b->0.backup_details.backup_status,
            backup_type: b->0.backup_details.backup_type,
            backup_size_bytes: b->0.backup_details.backup_size_bytes,
            backup_creation_ms: b->0.backup_details.backup_creation_ms,
        };
    if l.len() > 0 {
        let d = l.drop_last();
        backups_are_listed(d, table);
        let f = d.filter(p);
        assert(f.push(l.last()).map_values(e) =~= f.map_values(e).push(e(l.last())));
    } else {
        assert(backups_of(l, table) =~= l.filter(p).map_values(e));
    }
}

/// The row of a backup gives back what it was made with, and what is not there is
/// not found. Recovery to a point in time is on exactly where the row says so.
pub proof fn backup_rows_read_back(
    backup: JsonView,
    source: JsonView,
    arn: Seq<char>,
    row: Option<JsonView>,
)
    ensures
        row_part(Some(crate::backups::backup_row(backup, source)), "backup_desc"@, arn) == Ok::<
            JsonView,
            ErrView,
        >(backup),
        row_part(Some(crate::backups::backup_row(backup, source)), "source_desc"@, arn) == Ok::<
            JsonView,
            ErrView,
        >(source),
        row_part(None, "backup_desc"@, arn) == Err::<JsonView, ErrView>(
            ErrView::Validation("Backup not found: "@ + arn),
        ),
        pitr_enabled(row) <==> (row matches Some(v) && truth_field(v, "pitr_enabled"@) == Some(
            true,
        )),
{
    reveal_strlit("backup_desc");
    reveal_strlit("source_desc");
    assert("backup_desc"@[0] == 'b' && "source_desc"@[0] == 's');
    let s = seq![("backup_desc"@, backup), ("source_desc"@, source)];
    lemma_record_at(s, 0);
    lemma_record_at(s, 1);
}

/// A user is listed with what its record was made of.
pub proof fn users_are_listed(
    e: UserListEntry,
    account: Seq<char>,
    user: Seq<char>,
    hash: Option<Seq<char>>,
    created: Seq<char>,
    now: int,
)
    requires
        lists_user(e, account, user_record(account, user, hash, created), now),
    ensures
        e.account_id@ == account,
        e.user_name@ == user,
        e.user_arn@ == "arn:aws:iam::"@ + account + ":user/"@ + user,
        e.has_password <==> hash is Some,
        e.created_at == match iso_parsed(created) {
            Some(t) => t,
            None => now,
        },
{
    users_read_back(account, user, hash, created);
}

/// What is told of recovery to a point in time is what was set.
pub proof fn recovery_is_told_as_set(d: ContinuousBackupsDescription, enabled: bool)
    requires
        describes_pitr(d, enabled),
    ensures
        enabled <==> d.point_in_time_recovery_status@ == "ENABLED"@,
        !enabled ==> d.point_in_time_recovery_status@ == "DISABLED"@,
        d.continuous_backups_status@ == "ENABLED"@,
{
    reveal_strlit("ENABLED");
    reveal_strlit("DISABLED");
    assert("ENABLED"@.len() != "DISABLED"@.len());
}

} // verus!

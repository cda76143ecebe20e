//! The keys of the rows of the catalog.

use vstd::prelude::*;
use vstd::string::*;
use vstd::utf8::{encode_utf8, is_ascii_chars, is_ascii_chars_encode_utf8};

use crate::bytes::{lex_common_prefix, lex_lt};
use crate::text::{
    cat2, cat3, cat4, cat5, cat6, decimal, digit_char, lemma_digit_char, padded_text, zero_padded,
};

verus! {

/// The row of the version of the catalog.
pub const VERSION: &'static str = "version:catalog";

/// The row of the key material.
pub const KEY_MATERIAL_ENC: &'static str = "key_material:enc";

/// What the rows of request tokens begin with.
pub const IDEMPOTENCY_SCAN_PREFIX: &'static str = "idem:";

/// What the rows of access keys begin with.
pub const ACCESS_KEY_SCAN_PREFIX: &'static str = "access_key:";

/// What the rows of tables begin with.
pub const TABLE_META_SCAN_PREFIX: &'static str = "table_meta:";

/// What the rows of accounts begin with.
pub const ACCOUNT_SCAN_PREFIX: &'static str = "acct:";

/// The row of an account.
pub fn account(account_id: &str) -> (r: String)
    ensures
        r@ == "acct:"@ + account_id@,
{
    cat2("acct:", account_id)
}

/// The row of an administrator.
pub fn admin(username: &str) -> (r: String)
    ensures
        r@ == "admin:"@ + username@,
{
    cat2("admin:", username)
}

/// The row of a user.
pub fn user(account_id: &str, user_name: &str) -> (r: String)
    ensures
        r@ == "user:"@ + account_id@ + ":"@ + user_name@,
{
    cat4("user:", account_id, ":", user_name)
}

/// The row of a role.
pub fn role(account_id: &str, role_name: &str) -> (r: String)
    ensures
        r@ == "role:"@ + account_id@ + ":"@ + role_name@,
{
    cat4("role:", account_id, ":", role_name)
}

/// The row of a policy of a user.
pub fn user_policy(account_id: &str, user_name: &str, policy_name: &str) -> (r: String)
    ensures
        r@ == "user_policy:"@ + account_id@ + ":"@ + user_name@ + ":"@ + policy_name@,
{
    cat6("user_policy:", account_id, ":", user_name, ":", policy_name)
}

/// The row of a policy of a role.
pub fn role_policy(account_id: &str, role_name: &str, policy_name: &str) -> (r: String)
    ensures
        r@ == "role_policy:"@ + account_id@ + ":"@ + role_name@ + ":"@ + policy_name@,
{
    cat6("role_policy:", account_id, ":", role_name, ":", policy_name)
}

/// The row of an access key.
pub fn access_key(key_id: &str) -> (r: String)
    ensures
        r@ == "access_key:"@ + key_id@,
{
    cat2("access_key:", key_id)
}

/// The row of a table.
pub fn table_meta(account_id: &str, table_name: &str) -> (r: String)
    ensures
        r@ == "table_meta:"@ + account_id@ + ":"@ + table_name@,
{
    cat4("table_meta:", account_id, ":", table_name)
}

/// The row of the tags of a resource.
pub fn tags(arn: &str) -> (r: String)
    ensures
        r@ == "tags:"@ + arn@,
{
    cat2("tags:", arn)
}

/// The row of a request token of a transaction.
pub fn idempotency(token: &str) -> (r: String)
    ensures
        r@ == "idem:"@ + token@,
{
    cat2("idem:", token)
}

/// The row of a backup.
pub fn backup_meta(arn: &str) -> (r: String)
    ensures
        r@ == "backup:"@ + arn@,
{
    cat2("backup:", arn)
}

/// What the rows of the items of a backup begin with.
pub fn backup_item_scan_prefix(arn: &str) -> (r: String)
    ensures
        r@ == "backup_item:"@ + arn@ + ":"@,
{
    cat3("backup_item:", arn, ":")
}

/// What the rows of the backups of an account begin with.
pub fn backup_scan_prefix_for_account(region: &str, account_id: &str) -> (r: String)
    ensures
        r@ == "backup:arn:aws:dynamodb:"@ + region@ + ":"@ + account_id@ + ":"@,
{
    cat5("backup:arn:aws:dynamodb:", region, ":", account_id, ":")
}

/// The row of the continuous backups of a table.
pub fn continuous_backups(account_id: &str, table_name: &str) -> (r: String)
    ensures
        r@ == "continuous_backups:"@ + account_id@ + ":"@ + table_name@,
{
    cat4("continuous_backups:", account_id, ":", table_name)
}

/// The row of a stream.
pub fn stream_meta(arn: &str) -> (r: String)
    ensures
        r@ == "stream:"@ + arn@,
{
    cat2("stream:", arn)
}

/// The row of a stream record.
pub fn stream_record(arn: &str, shard_id: &str, seq: &str) -> (r: String)
    ensures
        r@ == "stream_record:"@ + arn@ + ":"@ + shard_id@ + ":"@ + seq@,
{
    cat6("stream_record:", arn, ":", shard_id, ":", seq)
}

/// What the rows of the records of a shard begin with.
pub fn stream_record_shard_prefix(arn: &str, shard_id: &str) -> (r: String)
    ensures
        r@ == "stream_record:"@ + arn@ + ":"@ + shard_id@ + ":"@,
{
    cat5("stream_record:", arn, ":", shard_id, ":")
}

/// What the rows of the streams of an account begin with.
pub fn stream_scan_prefix_for_account(region: &str, account_id: &str) -> (r: String)
    ensures
        r@ == "stream:arn:aws:dynamodb:"@ + region@ + ":"@ + account_id@ + ":"@,
{
    cat5("stream:arn:aws:dynamodb:", region, ":", account_id, ":")
}

/// What the rows of the users of an account begin with.
pub fn user_scan_prefix(account_id: &str) -> (r: String)
    ensures
        r@ == "user:"@ + account_id@ + ":"@,
{
    cat3("user:", account_id, ":")
}

/// What the rows of the tables of an account begin with.
pub fn table_meta_scan_prefix(account_id: &str) -> (r: String)
    ensures
        r@ == "table_meta:"@ + account_id@ + ":"@,
{
    cat3("table_meta:", account_id, ":")
}

/// The row of an item of a backup.
pub open spec fn backup_item_key(arn: Seq<char>, seq: nat) -> Seq<char> {
    "backup_item:"@ + arn + ":"@ + zero_padded(decimal(seq), 20)
}

/// The row of an item of a backup. The rows sort as the items were read.
pub fn backup_item(arn: &str, seq: u64) -> (r: String)
    ensures
        r@ == backup_item_key(arn@, seq as nat),
{
    let n = padded_text(seq as u128, 20);
    cat4("backup_item:", arn, ":", n.as_str())
}

// ---------------------------------------------------------------------------
// Numbers in keys
// ---------------------------------------------------------------------------

/// The last `width` decimal digits of `n`.
pub open spec fn fixed_digits(n: nat, width: nat) -> Seq<char>
    decreases width,
{
    if width == 0 {
        Seq::empty()
    } else {
        fixed_digits(n / 10, (width - 1) as nat).push(digit_char(n % 10))
    }
}

pub open spec fn ten_to(width: nat) -> nat
    decreases width,
{
    if width == 0 {
        1
    } else {
        10 * ten_to((width - 1) as nat)
    }
}

/// A numeral that is padded has the width that it is padded to.
pub proof fn lemma_padded(n: nat, width: nat)
    requires
        n < ten_to(width),
        width >= 1,
    ensures
        zero_padded(decimal(n), width) == fixed_digits(n, width),
        fixed_digits(n, width).len() == width,
        decimal(n).len() <= width,
    decreases width,
{
    let f = fixed_digits(n, width);
    if width == 1 {
        assert(fixed_digits(n / 10, 0) =~= Seq::<char>::empty());
        assert(ten_to(0) == 1);
        assert(n % 10 == n);
        assert(f =~= seq![digit_char(n)]);
        assert(zero_padded(decimal(n), width) =~= f);
    } else {
        let w = (width - 1) as nat;
        assert(n / 10 < ten_to(w));
        lemma_padded(n / 10, w);
        if n < 10 {
            lemma_digit_char(0);
            assert(decimal(n / 10) =~= seq!['0']);
            assert(zero_padded(decimal(n), width) =~= f);
        } else {
            assert(zero_padded(decimal(n), width) =~= f);
        }
    }
}

proof fn lemma_fixed_ascii(n: nat, width: nat)
    ensures
        is_ascii_chars(fixed_digits(n, width)),
        fixed_digits(n, width).len() == width,
    decreases width,
{
    if width > 0 {
        lemma_fixed_ascii(n / 10, (width - 1) as nat);
        lemma_digit_char(n % 10);
    }
}

proof fn lemma_fixed_order(m: nat, n: nat, width: nat) -> (i: int)
    requires
        m < n < ten_to(width),
    ensures
        0 <= i < width,
        fixed_digits(m, width).len() == width,
        fixed_digits(n, width).len() == width,
        forall|j: int| 0 <= j < i ==> fixed_digits(m, width)[j] == fixed_digits(n, width)[j],
        fixed_digits(m, width)[i] < fixed_digits(n, width)[i],
    decreases width,
{
    lemma_fixed_ascii(m, width);
    lemma_fixed_ascii(n, width);
    if width == 0 {
        assert(false);
        0
    } else {
        let w = (width - 1) as nat;
        lemma_fixed_ascii(m / 10, w);
        lemma_fixed_ascii(n / 10, w);
        if m / 10 < n / 10 {
            let i = lemma_fixed_order(m / 10, n / 10, w);
            i
        } else {
            assert(m / 10 == n / 10);
            assert(m % 10 < n % 10);
            w as int
        }
    }
}

/// Numerals that are padded to one width sort as the numbers, whatever follows
/// them.
pub proof fn padded_order(m: nat, n: nat, width: nat, x: Seq<char>, y: Seq<char>)
    requires
        m < n < ten_to(width),
    ensures
        lex_lt(
            encode_utf8(zero_padded(decimal(m), width) + x),
            encode_utf8(zero_padded(decimal(n), width) + y),
        ),
{
    assert(width >= 1) by {
        if width == 0 {
            assert(ten_to(0) == 1);
        }
    }
    lemma_padded(m, width);
    lemma_padded(n, width);
    let a = fixed_digits(m, width);
    let b = fixed_digits(n, width);
    let i = lemma_fixed_order(m, n, width);
    lemma_fixed_ascii(m, width);
    lemma_fixed_ascii(n, width);
    crate::text::lemma_encode_concat(a, x);
    crate::text::lemma_encode_concat(b, y);
    is_ascii_chars_encode_utf8(a);
    is_ascii_chars_encode_utf8(b);
    let ea = encode_utf8(a);
    let eb = encode_utf8(b);
    assert forall|j: int| 0 <= j < i implies ea[j] == eb[j] by {
        assert(a[j] == b[j]);
    }
    assert(a[i] < b[i]);
    assert('\0' <= a[i] <= '\u{7f}' && '\0' <= b[i] <= '\u{7f}');
    crate::bytes::lex_decided(ea, eb, encode_utf8(x), encode_utf8(y), i);
}

/// The rows of the items of a backup sort in the order of their numbers.
pub proof fn backup_items_in_order(arn: Seq<char>, m: u64, n: u64)
    requires
        m < n,
    ensures
        lex_lt(
            encode_utf8(backup_item_key(arn, m as nat)),
            encode_utf8(backup_item_key(arn, n as nat)),
        ),
{
    reveal_with_fuel(ten_to, 21);
    let p = "backup_item:"@ + arn + ":"@;
    let a = zero_padded(decimal(m as nat), 20);
    let b = zero_padded(decimal(n as nat), 20);
    let none = Seq::<char>::empty();
    padded_order(m as nat, n as nat, 20, none, none);
    assert(a + none =~= a);
    assert(b + none =~= b);
    crate::text::lemma_encode_concat(p, a);
    crate::text::lemma_encode_concat(p, b);
    lex_common_prefix(encode_utf8(p), encode_utf8(a), encode_utf8(b));
}

// ---------------------------------------------------------------------------
// Prefixes
// ---------------------------------------------------------------------------

/// The keys of the rows that a prefix is scanned for begin with that prefix:
/// users, tables, items of a backup and records of a shard.
pub proof fn scanned_by_prefix(
    account: Seq<char>,
    name: Seq<char>,
    arn: Seq<char>,
    shard: Seq<char>,
    seq: Seq<char>,
    n: nat,
)
    ensures
        ("user:"@ + account + ":"@).is_prefix_of("user:"@ + account + ":"@ + name),
        ("table_meta:"@ + account + ":"@).is_prefix_of("table_meta:"@ + account + ":"@ + name),
        ("backup_item:"@ + arn + ":"@).is_prefix_of(backup_item_key(arn, n)),
        ("stream_record:"@ + arn + ":"@ + shard + ":"@).is_prefix_of(
            "stream_record:"@ + arn + ":"@ + shard + ":"@ + seq,
        ),
{
    let p = "user:"@ + account + ":"@;
    assert((p + name).subrange(0, p.len() as int) =~= p);
    let p = "table_meta:"@ + account + ":"@;
    assert((p + name).subrange(0, p.len() as int) =~= p);
    let p = "backup_item:"@ + arn + ":"@;
    assert(backup_item_key(arn, n).subrange(0, p.len() as int) =~= p);
    let p = "stream_record:"@ + arn + ":"@ + shard + ":"@;
    assert((p + seq).subrange(0, p.len() as int) =~= p);
}

/// Tables of accounts whose names hold no colon have different keys, unless
/// account and table are the same.
pub proof fn table_keys_differ(a: Seq<char>, t: Seq<char>, b: Seq<char>, u: Seq<char>)
    requires
        !a.contains(':'),
        !b.contains(':'),
        "table_meta:"@ + a + ":"@ + t == "table_meta:"@ + b + ":"@ + u,
    ensures
        a == b,
        t == u,
{
    reveal_strlit(":");
    let h = "table_meta:"@;
    let x = h + a + ":"@ + t;
    let y = h + b + ":"@ + u;
    if a.len() < b.len() {
        assert(x[(h.len() + a.len()) as int] == ':');
        assert(y[(h.len() + a.len()) as int] == b[a.len() as int]);
        assert(b.contains(b[a.len() as int]));
    }
    if b.len() < a.len() {
        assert(y[(h.len() + b.len()) as int] == ':');
        assert(x[(h.len() + b.len()) as int] == a[b.len() as int]);
        assert(a.contains(a[b.len() as int]));
    }
    assert forall|i: int| 0 <= i < a.len() implies a[i] == b[i] by {
        assert(x[h.len() + i] == a[i]);
        assert(y[h.len() + i] == b[i]);
    }
    assert(a =~= b);
    assert(x.len() == y.len());
    let k = h.len() + a.len() + 1;
    assert forall|i: int| 0 <= i < t.len() implies t[i] == u[i] by {
        assert(x[k + i] == t[i]);
        assert(y[k + i] == u[i]);
    }
    assert(t =~= u);
}

} // verus!

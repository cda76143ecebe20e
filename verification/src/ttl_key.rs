//! Row keys of the index that finds expired items.
//!
//! ```text
//! [shard:1] [expiry:i64BE] [account_len:1] [account] [table_len:1] [table] [base row key]
//! ```
//!
//! The shard comes from a hash of the base row key; within a shard entries sort
//! by the time at which they expire.

use vstd::prelude::*;
use vstd::string::*;
use vstd::utf8::encode_utf8;

use crate::bytes::{
    be_bytes, be_bytes_order, be_bytes_round_trip, be_value, bytes_slice, fnv1a, fnv1a_hash,
    lemma_be_bytes_len, lemma_pow256, lex_asymmetric, lex_common_prefix, lex_le, lex_lt, lex_lt_at,
    lex_witness, push_bytes, push_u64_be, read_u64_be,
};
use crate::error::{internal, ErrView, StorageError};
use crate::text::{cat2, decode_text, utf8_decoded, utf8_round_trip};

verus! {

pub const TTL_INDEX_TABLE: &'static str = "__extenddb_ttl_index__";

pub const NUM_SHARDS: u8 = 16;

/// A 64-bit integer in two's complement.
pub open spec fn twos(e: int) -> nat {
    if e >= 0 {
        e as nat
    } else {
        (e + 0x1_0000_0000_0000_0000) as nat
    }
}

/// The integer that a 64-bit two's complement stands for.
pub open spec fn from_twos(u: nat) -> int {
    if u < 0x8000_0000_0000_0000 {
        u as int
    } else {
        u - 0x1_0000_0000_0000_0000
    }
}

/// The shard of a base row key.
pub open spec fn shard_of(base: Seq<u8>) -> u8 {
    (fnv1a(base) % (NUM_SHARDS as u64)) as u8
}

/// A name with its length, modulo 256, before it.
pub open spec fn counted(b: Seq<u8>) -> Seq<u8> {
    seq![(b.len() % 256) as u8] + b
}

/// What a key begins with.
pub open spec fn ttl_head(shard: u8, expiry: int) -> Seq<u8> {
    seq![shard] + be_bytes(twos(expiry), 8)
}

/// The key of an entry.
pub open spec fn ttl_key(account: Seq<char>, table: Seq<char>, base: Seq<u8>, expiry: int) -> Seq<
    u8,
> {
    ttl_head(shard_of(base), expiry) + counted(encode_utf8(account)) + counted(encode_utf8(table))
        + base
}

pub fn i64_bits(e: i64) -> (u: u64)
    ensures
        u as nat == twos(e as int),
{
    if e >= 0 {
        e as u64
    } else {
        (e as i128 + 0x1_0000_0000_0000_0000) as u64
    }
}

pub fn bits_i64(u: u64) -> (e: i64)
    ensures
        e as int == from_twos(u as nat),
{
    if u < 0x8000_0000_0000_0000 {
        u as i64
    } else {
        (u as i128 - 0x1_0000_0000_0000_0000) as i64
    }
}

/// Builds what a key begins with.
pub fn encode_ttl_head(shard: u8, expiry: i64) -> (r: Vec<u8>)
    ensures
        r@ == ttl_head(shard, expiry as int),
{
    let mut out: Vec<u8> = Vec::new();
    out.push(shard);
    push_u64_be(&mut out, i64_bits(expiry));
    assert(out@ =~= ttl_head(shard, expiry as int));
    out
}

fn push_counted(out: &mut Vec<u8>, b: &[u8])
    ensures
        final(out)@ == old(out)@ + counted(b@),
{
    let ghost start = out@;
    out.push((b.len() % 256) as u8);
    push_bytes(out, b);
    assert(out@ =~= start + counted(b@));
}

/// Builds the key of an entry.
pub fn encode_ttl_key(account_id: &str, table_name: &str, base_row_key: &[u8], expiry: i64) -> (r:
    Vec<u8>)
    ensures
        r@ == ttl_key(account_id@, table_name@, base_row_key@, expiry as int),
{
    let h: u64 = fnv1a_hash(base_row_key);
    let mut out = encode_ttl_head((h % (NUM_SHARDS as u64)) as u8, expiry);
    push_counted(&mut out, account_id.as_bytes());
    push_counted(&mut out, table_name.as_bytes());
    push_bytes(&mut out, base_row_key);
    out
}

/// What the key of an entry holds.
pub struct TtlEntry {
    pub shard: u8,
    pub expiry: int,
    pub account: Seq<char>,
    pub table: Seq<char>,
    pub base: Seq<u8>,
}

/// What a key holds.
pub open spec fn ttl_entry(key: Seq<u8>) -> Result<TtlEntry, ErrView> {
    let n = key[9] as int;
    let at = 10 + n;
    let m = key[at] as int;
    if key.len() < 11 {
        Err(ErrView::Internal("malformed TTL key"@))
    } else if key.len() < 9 + 1 + n + 1 {
        Err(ErrView::Internal("malformed TTL key (account)"@))
    } else {
        match utf8_decoded(key.subrange(10, 10 + n)) {
            Err(e) => Err(ErrView::Internal("decode account: "@ + e)),
            Ok(account) => if key.len() < at + 1 + m {
                Err(ErrView::Internal("malformed TTL key (table)"@))
            } else {
                match utf8_decoded(key.subrange(at + 1, at + 1 + m)) {
                    Err(e) => Err(ErrView::Internal("decode table: "@ + e)),
                    Ok(table) => Ok(
                        TtlEntry {
                            shard: key[0],
                            expiry: from_twos(be_value(key.subrange(1, 9))),
                            account,
                            table,
                            base: key.skip(at + 1 + m),
                        },
                    ),
                }
            },
        }
    }
}

/// Reads the key of an entry: shard, expiry, account, table and base row key.
pub fn decode_ttl_key(key: &[u8]) -> (r: Result<
    (u8, i64, String, String, Vec<u8>),
    StorageError,
>)
    ensures
        match r {
            Ok((shard, expiry, account, table, base)) => ttl_entry(key@) == Ok::<
                TtlEntry,
                ErrView,
            >(
                TtlEntry {
                    shard,
                    expiry: expiry as int,
                    account: account@,
                    table: table@,
                    base: base@,
                },
            ),
            Err(e) => ttl_entry(key@) == Err::<TtlEntry, ErrView>(e@),
        },
{
    if key.len() < 11 {
        return Err(internal("malformed TTL key"));
    }
    let shard_id: u8 = key[0];
    let expiry: i64 = bits_i64(read_u64_be(key, 1));
    let acct_len: usize = key[9] as usize;
    if key.len() < 11 + acct_len {
        return Err(internal("malformed TTL key (account)"));
    }
    let at: usize = 10 + acct_len;
    let account_bytes = bytes_slice(key, 10, at);
    let account_id = match decode_text(account_bytes.as_slice()) {
        Ok(s) => s,
        Err(e) => {
            return Err(internal(cat2("decode account: ", e.as_str()).as_str()));
        },
    };
    let table_len: usize = key[at] as usize;
    if key.len() - at - 1 < table_len {
        return Err(internal("malformed TTL key (table)"));
    }
    let end: usize = at + 1 + table_len;
    let table_bytes = bytes_slice(key, at + 1, end);
    let table_name = match decode_text(table_bytes.as_slice()) {
        Ok(s) => s,
        Err(e) => {
            return Err(internal(cat2("decode table: ", e.as_str()).as_str()));
        },
    };
    let base_row_key = bytes_slice(key, end, key.len());
    assert(base_row_key@ =~= key@.skip(end as int));
    Ok((shard_id, expiry, account_id, table_name, base_row_key))
}

proof fn lemma_shard_bound(base: Seq<u8>)
    ensures
        shard_of(base) < NUM_SHARDS,
{
}

proof fn lemma_head(shard: u8, expiry: int, rest: Seq<u8>)
    requires
        i64::MIN <= expiry <= i64::MAX,
    ensures
        ({
            let k = ttl_head(shard, expiry) + rest;
            &&& ttl_head(shard, expiry).len() == 9
            &&& k[0] == shard
            &&& k.subrange(1, 9) == be_bytes(twos(expiry), 8)
            &&& be_value(k.subrange(1, 9)) == twos(expiry)
            &&& from_twos(twos(expiry)) == expiry
            &&& k.skip(9) == rest
        }),
{
    lemma_be_bytes_len(twos(expiry), 8);
    lemma_pow256();
    be_bytes_round_trip(twos(expiry), 8);
    let k = ttl_head(shard, expiry) + rest;
    assert(k.subrange(1, 9) =~= be_bytes(twos(expiry), 8));
    assert(k.skip(9) =~= rest);
}

/// Reading a key gives back what it was built from, and a shard below
/// [`NUM_SHARDS`]. Names of 256 bytes and more do not fit into their length.
pub proof fn ttl_key_round_trip(account: Seq<char>, table: Seq<char>, base: Seq<u8>, expiry: int)
    requires
        i64::MIN <= expiry <= i64::MAX,
        encode_utf8(account).len() < 256,
        encode_utf8(table).len() < 256,
    ensures
        ttl_entry(ttl_key(account, table, base, expiry)) == Ok::<TtlEntry, ErrView>(
            TtlEntry { shard: shard_of(base), expiry, account, table, base },
        ),
        shard_of(base) < NUM_SHARDS,
{
    let (a, t) = (encode_utf8(account), encode_utf8(table));
    let h = ttl_head(shard_of(base), expiry);
    lemma_shard_bound(base);
    lemma_head(shard_of(base), expiry, counted(a) + counted(t) + base);
    assert(h + (counted(a) + counted(t) + base) =~= h + counted(a) + counted(t) + base);
    lemma_pieces(h, a, t, base);
    utf8_round_trip(account);
    utf8_round_trip(table);
}

proof fn lemma_pieces(h: Seq<u8>, a: Seq<u8>, t: Seq<u8>, base: Seq<u8>)
    requires
        h.len() == 9,
        a.len() < 256,
        t.len() < 256,
    ensures
        ({
            let k = h + counted(a) + counted(t) + base;
            let n = a.len() as int;
            let m = t.len() as int;
            &&& k.len() == 11 + n + m + base.len()
            &&& k[9] == n
            &&& k.subrange(10, 10 + n) == a
            &&& k[10 + n] == m
            &&& k.subrange(11 + n, 11 + n + m) == t
            &&& k.skip(11 + n + m) == base
        }),
{
    let k = h + counted(a) + counted(t) + base;
    let n = a.len() as int;
    let m = t.len() as int;
    assert(k.subrange(10, 10 + n) =~= a);
    assert(k.subrange(11 + n, 11 + n + m) =~= t);
    assert(k.skip(11 + n + m) =~= base);
}

/// Within a shard, an entry that expires earlier sorts first. Times before the
/// epoch sort behind all others.
pub proof fn ttl_keys_sort_by_expiry(
    a1: Seq<char>,
    t1: Seq<char>,
    b1: Seq<u8>,
    e1: int,
    a2: Seq<char>,
    t2: Seq<char>,
    b2: Seq<u8>,
    e2: int,
)
    requires
        0 <= e1 < e2 <= i64::MAX,
        shard_of(b1) == shard_of(b2),
    ensures
        lex_lt(ttl_key(a1, t1, b1, e1), ttl_key(a2, t2, b2, e2)),
{
    let s = shard_of(b1);
    let r1 = counted(encode_utf8(a1)) + counted(encode_utf8(t1)) + b1;
    let r2 = counted(encode_utf8(a2)) + counted(encode_utf8(t2)) + b2;
    assert(ttl_key(a1, t1, b1, e1) =~= ttl_head(s, e1) + r1);
    assert(ttl_key(a2, t2, b2, e2) =~= ttl_head(s, e2) + r2);
    lemma_head_order(s, e1, r1, e2, r2);
}

proof fn lemma_head_order(s: u8, e1: int, r1: Seq<u8>, e2: int, r2: Seq<u8>)
    requires
        0 <= e1 < e2 <= i64::MAX,
    ensures
        lex_lt(ttl_head(s, e1) + r1, ttl_head(s, e2) + r2),
{
    lemma_head(s, e1, r1);
    lemma_head(s, e2, r2);
    let x = be_bytes(twos(e1), 8);
    let y = be_bytes(twos(e2), 8);
    be_bytes_order(x, y);
    let i = lex_witness(x, y);
    crate::bytes::lex_decided(x, y, r1, r2, i);
    lex_common_prefix(seq![s], x + r1, y + r2);
    assert(ttl_head(s, e1) + r1 =~= seq![s] + (x + r1));
    assert(ttl_head(s, e2) + r2 =~= seq![s] + (y + r2));
}

/// The range that a sweep of a shard reads: from time zero up to, and without,
/// the second after `now`.
pub open spec fn in_sweep_range(key: Seq<u8>, shard: u8, now: int) -> bool {
    lex_le(ttl_head(shard, 0), key) && lex_lt(key, ttl_head(shard, now + 1))
}

/// A sweep of a shard reads exactly the entries of that shard whose time has
/// come: those that expire from the epoch up to and including `now`.
pub proof fn sweep_range_exact(
    account: Seq<char>,
    table: Seq<char>,
    base: Seq<u8>,
    expiry: int,
    shard: u8,
    now: int,
)
    requires
        i64::MIN <= expiry <= i64::MAX,
        0 <= now < i64::MAX,
    ensures
        in_sweep_range(ttl_key(account, table, base, expiry), shard, now) <==> (shard_of(base)
            == shard && 0 <= expiry <= now),
{
    let s = shard_of(base);
    let rest = counted(encode_utf8(account)) + counted(encode_utf8(table)) + base;
    let k = ttl_key(account, table, base, expiry);
    assert(k =~= ttl_head(s, expiry) + rest);
    lemma_head(s, expiry, rest);
    lemma_head(shard, 0, Seq::empty());
    lemma_head(shard, now + 1, Seq::empty());
    let lo = ttl_head(shard, 0);
    let hi = ttl_head(shard, now + 1);
    assert(lo + Seq::<u8>::empty() =~= lo);
    assert(hi + Seq::<u8>::empty() =~= hi);
    if s < shard {
        assert(lex_lt_at(k, lo, 0));
        lex_asymmetric(k, lo);
    } else if shard < s {
        assert(lex_lt_at(hi, k, 0));
        lex_asymmetric(hi, k);
    } else {
        let z = be_bytes(0, 8);
        let x = be_bytes(twos(expiry), 8);
        let y = be_bytes(twos(now + 1), 8);
        be_bytes_order(x, y);
        be_bytes_order(y, x);
        be_bytes_order(z, x);
        be_bytes_order(x, z);
        assert(k =~= seq![s] + (x + rest));
        assert(lo =~= seq![s] + z);
        assert(hi =~= seq![s] + y);
        lex_common_prefix(seq![s], x + rest, y);
        lex_common_prefix(seq![s], z, x + rest);
        lex_common_prefix(seq![s], y, x + rest);
        if twos(expiry) < twos(now + 1) {
            let i = lex_witness(x, y);
            crate::bytes::lex_decided(x, y, rest, Seq::empty(), i);
            assert(y + Seq::<u8>::empty() =~= y);
        } else if twos(expiry) == twos(now + 1) {
            if lex_lt(x + rest, y) {
                let i = lex_witness(x + rest, y);
                assert((x + rest)[i] == y[i]);
            }
        } else {
            let i = lex_witness(y, x);
            crate::bytes::lex_decided(y, x, Seq::empty(), rest, i);
            assert(y + Seq::<u8>::empty() =~= y);
            lex_asymmetric(y, x + rest);
        }
        if twos(expiry) == 0 {
            assert(x == z);
            assert((x + rest).len() > z.len());
            assert(lex_lt_at(z, x + rest, 8));
        } else {
            let i = lex_witness(z, x);
            crate::bytes::lex_decided(z, x, Seq::empty(), rest, i);
            assert(z + Seq::<u8>::empty() =~= z);
        }
    }
}

} // verus!

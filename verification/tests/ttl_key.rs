//! Keys of the index of expiry times.

use extenddb_storage_bigtable::ttl_key::{
    decode_ttl_key, encode_ttl_head, encode_ttl_key, NUM_SHARDS,
};

#[test]
fn test_ttl_key_roundtrip() {
    let account_id = "test-account";
    let table_name = "test-table";
    let base_row_key = b"my-base-row-key";
    let expiry = 1719692400i64;

    let key = encode_ttl_key(account_id, table_name, base_row_key, expiry);
    let (shard_id, decoded_expiry, decoded_acct, decoded_table, decoded_base_key) =
        decode_ttl_key(&key).unwrap();

    assert!(shard_id < NUM_SHARDS);
    assert_eq!(decoded_expiry, expiry);
    assert_eq!(decoded_acct, account_id);
    assert_eq!(decoded_table, table_name);
    assert_eq!(decoded_base_key, base_row_key);
}

#[test]
fn test_ttl_key_lexicographical_sorting() {
    let account_id = "test-account";
    let table_name = "test-table";
    let base_row_key = b"row-1";

    let key_early = encode_ttl_key(account_id, table_name, base_row_key, 1000);
    let key_late = encode_ttl_key(account_id, table_name, base_row_key, 2000);

    assert!(key_early < key_late);
}

#[test]
fn a_ttl_key_byte_by_byte() {
    let key = encode_ttl_key("a", "tt", b"k", 258);
    assert_eq!(&key[1..9], &258i64.to_be_bytes());
    assert_eq!(&key[9..], b"\x01a\x02ttk");
    assert_eq!(encode_ttl_head(3, -1), [&[3u8][..], &(-1i64).to_be_bytes()[..]].concat());
}

#[test]
fn ttl_keys_that_cannot_be_read() {
    assert!(decode_ttl_key(&[]).is_err());
    assert!(decode_ttl_key(&[0; 11]).is_ok());
    let mut key = vec![0u8; 9];
    key.push(200);
    key.extend_from_slice(b"xx");
    assert!(decode_ttl_key(&key).is_err());
    let mut key = vec![0u8; 9];
    key.extend_from_slice(&[1, 0xFF, 0]);
    assert!(decode_ttl_key(&key).is_err());
}

#[test]
fn the_sweep_range_holds_what_is_due() {
    let early = encode_ttl_key("a", "t", b"row", 100);
    let shard = early[0];
    let start = encode_ttl_head(shard, 0);
    let end = encode_ttl_head(shard, 101);
    assert!(start <= early && early < end);
    let late = encode_ttl_key("a", "t", b"row", 101);
    assert!(late >= end);
}

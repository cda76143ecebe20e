//! Row keys.

use extenddb_storage_bigtable::error::StorageError;
use extenddb_storage_bigtable::row_key::{
    append_sk_upper_trailer, decode_key, encode_key, pk_range_end_inclusive, pk_range_start, tag_for,
    TAG_B, TAG_N, TAG_S,
};
use extenddb_storage_bigtable::value::{AttributeValue, Item, KeySchemaElement, KeyType};

fn ks(name: &str, kt: KeyType) -> KeySchemaElement {
    KeySchemaElement { attribute_name: name.into(), key_type: kt }
}

#[test]
fn pk_only_encoding() {
    let schema = vec![ks("pk", KeyType::Hash)];
    let mut item = Item::new();
    item.insert("pk".to_string(), AttributeValue::S("hello".into()));
    let key = encode_key(&item, &schema).unwrap();
    assert_eq!(&key[0..1], &[0x53]);
    assert_eq!(&key[1..5], &(5u32).to_be_bytes());
    assert_eq!(&key[5..], b"hello");
}

#[test]
fn composite_encoding_orders_within_partition() {
    let schema = vec![ks("pk", KeyType::Hash), ks("sk", KeyType::Range)];
    let mk = |sk: &str| {
        let mut item = Item::new();
        item.insert("pk".to_string(), AttributeValue::S("p".into()));
        item.insert("sk".to_string(), AttributeValue::S(sk.into()));
        encode_key(&item, &schema).unwrap()
    };
    assert!(mk("aa") < mk("abc"));
    assert!(mk("abc") < mk("z"));
}

#[test]
fn n_composite_sk_orders_numerically() {
    let schema = vec![ks("pk", KeyType::Hash), ks("sk", KeyType::Range)];
    let mk = |sk: &str| {
        let mut item = Item::new();
        item.insert("pk".to_string(), AttributeValue::S("p".into()));
        item.insert("sk".to_string(), AttributeValue::N(sk.into()));
        encode_key(&item, &schema).unwrap()
    };
    let series = ["-100", "-1.5", "-1", "0", "0.5", "1", "1.5", "100", "1e10"];
    for w in series.windows(2) {
        assert!(mk(w[0]) < mk(w[1]), "{} < {}", w[0], w[1]);
    }
}

#[test]
fn n_pk_encoding_round_trips_via_helpers() {
    let pk = AttributeValue::N("42".into());
    let lo = pk_range_start(&pk).unwrap();
    let hi = pk_range_end_inclusive(&pk).unwrap();
    assert!(lo < hi);
    assert_eq!(lo[0], TAG_N);
}

#[test]
fn round_trip_key_decoding() {
    let schema = vec![ks("pk", KeyType::Hash), ks("sk", KeyType::Range)];
    let mut item = Item::new();
    item.insert("pk".to_string(), AttributeValue::S("partition".into()));
    item.insert("sk".to_string(), AttributeValue::N("123.45".into()));

    let key = encode_key(&item, &schema).unwrap();
    let decoded = decode_key(&key, &schema).unwrap();

    assert_eq!(item.get("pk"), decoded.get("pk"));
    let enc_orig = encode_key(&item, &schema).unwrap();
    let enc_dec = encode_key(&decoded, &schema).unwrap();
    assert_eq!(enc_orig, enc_dec);
}

#[test]
fn round_trip_key_decoding_with_binary_and_number() {
    let schema = vec![ks("pk", KeyType::Hash), ks("sk", KeyType::Range)];
    let mut item = Item::new();
    item.insert("pk".to_string(), AttributeValue::B(vec![1, 2, 3, 4]));
    item.insert("sk".to_string(), AttributeValue::N("-99.99".into()));

    let key = encode_key(&item, &schema).unwrap();
    let decoded = decode_key(&key, &schema).unwrap();

    assert_eq!(item.get("pk"), decoded.get("pk"));

    let enc_orig = encode_key(&item, &schema).unwrap();
    let enc_dec = encode_key(&decoded, &schema).unwrap();
    assert_eq!(enc_orig, enc_dec);
}

#[test]
fn keys_that_cannot_be_made() {
    let schema = vec![ks("pk", KeyType::Hash), ks("sk", KeyType::Range)];
    let mut item = Item::new();
    assert!(matches!(encode_key(&item, &schema), Err(StorageError::Validation(_))));
    item.insert("pk".to_string(), AttributeValue::S("p".into()));
    assert_eq!(
        encode_key(&item, &schema),
        Err(StorageError::Validation("missing key attr sk".to_string()))
    );
    item.insert("sk".to_string(), AttributeValue::Bool(true));
    assert!(encode_key(&item, &schema).is_err());
    assert!(encode_key(&item, &[]).is_err());
}

#[test]
fn tags_of_key_types() {
    assert_eq!(tag_for(&AttributeValue::S("x".into())).unwrap(), TAG_S);
    assert_eq!(tag_for(&AttributeValue::N("1".into())).unwrap(), TAG_N);
    assert_eq!(tag_for(&AttributeValue::B(vec![1])).unwrap(), TAG_B);
    assert!(tag_for(&AttributeValue::Null).is_err());
}

#[test]
fn the_trailer_is_beyond_all_keys_with_the_prefix() {
    let mut b = vec![1u8, 2];
    append_sk_upper_trailer(&mut b);
    let mut expected = vec![1u8, 2];
    expected.extend_from_slice(&[0xFF; 17]);
    assert_eq!(b, expected);
}

#[test]
fn the_partition_encloses_its_rows() {
    let schema = vec![ks("pk", KeyType::Hash), ks("sk", KeyType::Range)];
    let pk = AttributeValue::S("p".into());
    let lo = pk_range_start(&pk).unwrap();
    let hi = pk_range_end_inclusive(&pk).unwrap();
    let mut item = Item::new();
    item.insert("pk".to_string(), AttributeValue::S("p".into()));
    item.insert("sk".to_string(), AttributeValue::S("\u{10FFFF}".into()));
    let key = encode_key(&item, &schema).unwrap();
    assert!(lo <= key && key <= hi);
    item.insert("pk".to_string(), AttributeValue::S("q".into()));
    let other = encode_key(&item, &schema).unwrap();
    assert!(!(lo <= other && other <= hi));
}

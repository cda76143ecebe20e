//! Keys of shadow rows.

use extenddb_storage_bigtable::bigtable::RowCell;
use extenddb_storage_bigtable::error::StorageError;
use extenddb_storage_bigtable::gsi::{
    decode_shadow_cells, decode_shadow_row_key, escape_bytes, escape_bytes_terminated,
    project_for_shadow, shadow_prefix_for_pk, shadow_row_key_for_item, shadow_table_id, Projection,
    ProjectionType,
};
use extenddb_storage_bigtable::value::{AttributeValue, Item, KeySchemaElement, KeyType};

fn ks(name: &str, kt: KeyType) -> KeySchemaElement {
    KeySchemaElement { attribute_name: name.into(), key_type: kt }
}

#[test]
fn test_gsi_sk_sort_order_no_inversion() {
    let base_ks = vec![ks("pk", KeyType::Hash)];
    let gsi_ks = vec![ks("gsi_pk", KeyType::Hash), ks("gsi_sk", KeyType::Range)];

    let mk_item = |gsi_sk_val: &str, pk_val: &str| {
        let mut item = Item::new();
        item.insert("pk".to_string(), AttributeValue::S(pk_val.to_string()));
        item.insert("gsi_pk".to_string(), AttributeValue::S("common_gsi_pk".to_string()));
        item.insert("gsi_sk".to_string(), AttributeValue::S(gsi_sk_val.to_string()));
        item
    };

    let key_a =
        shadow_row_key_for_item(&mk_item("A", "base1"), &gsi_ks, &base_ks).unwrap().unwrap();
    let key_ab =
        shadow_row_key_for_item(&mk_item("AB", "base1"), &gsi_ks, &base_ks).unwrap().unwrap();
    let key_b =
        shadow_row_key_for_item(&mk_item("B", "base1"), &gsi_ks, &base_ks).unwrap().unwrap();

    assert!(key_a < key_ab, "sort inversion: 'A' should sort before 'AB'");
    assert!(key_ab < key_b, "'AB' should sort before 'B'");
}

#[test]
fn test_gsi_sk_with_embedded_zeros() {
    let base_ks = vec![ks("pk", KeyType::Hash)];
    let gsi_ks = vec![ks("gsi_pk", KeyType::Hash), ks("gsi_sk", KeyType::Range)];

    let mk_item = |gsi_sk_bytes: Vec<u8>| {
        let mut item = Item::new();
        item.insert("pk".to_string(), AttributeValue::S("base1".to_string()));
        item.insert("gsi_pk".to_string(), AttributeValue::S("common_gsi_pk".to_string()));
        item.insert("gsi_sk".to_string(), AttributeValue::B(gsi_sk_bytes));
        item
    };

    let k1 = shadow_row_key_for_item(&mk_item(vec![0x41]), &gsi_ks, &base_ks).unwrap().unwrap();
    let k2 =
        shadow_row_key_for_item(&mk_item(vec![0x41, 0x00]), &gsi_ks, &base_ks).unwrap().unwrap();
    let k3 = shadow_row_key_for_item(&mk_item(vec![0x41, 0x00, 0x01]), &gsi_ks, &base_ks)
        .unwrap()
        .unwrap();
    let k4 =
        shadow_row_key_for_item(&mk_item(vec![0x41, 0x01]), &gsi_ks, &base_ks).unwrap().unwrap();

    assert!(k1 < k2);
    assert!(k2 < k3);
    assert!(k3 < k4);
}

#[test]
fn test_gsi_number_sk_sorting() {
    let base_ks = vec![ks("pk", KeyType::Hash)];
    let gsi_ks = vec![ks("gsi_pk", KeyType::Hash), ks("gsi_sk", KeyType::Range)];

    let mk_item = |n: &str| {
        let mut item = Item::new();
        item.insert("pk".to_string(), AttributeValue::S("base1".to_string()));
        item.insert("gsi_pk".to_string(), AttributeValue::S("g1".to_string()));
        item.insert("gsi_sk".to_string(), AttributeValue::N(n.to_string()));
        item
    };

    let series = ["-100", "-1.5", "-1", "0", "0.5", "1", "1.5", "100", "1e10"];
    let keys: Vec<Vec<u8>> = series
        .iter()
        .map(|s| shadow_row_key_for_item(&mk_item(s), &gsi_ks, &base_ks).unwrap().unwrap())
        .collect();

    for w in keys.windows(2) {
        assert!(w[0] < w[1]);
    }
}

#[test]
fn test_decode_shadow_row_key_round_trip() {
    let base_ks = vec![ks("pk", KeyType::Hash), ks("sk", KeyType::Range)];
    let gsi_ks = vec![ks("gsi_pk", KeyType::Hash), ks("gsi_sk", KeyType::Range)];

    let mut item = Item::new();
    item.insert("pk".to_string(), AttributeValue::S("my_base_pk".into()));
    item.insert("sk".to_string(), AttributeValue::N("99.9".into()));
    item.insert("gsi_pk".to_string(), AttributeValue::B(vec![1, 2, 3]));
    item.insert("gsi_sk".to_string(), AttributeValue::S("gsi_sort_val".into()));

    let key = shadow_row_key_for_item(&item, &gsi_ks, &base_ks).unwrap().unwrap();
    let decoded = decode_shadow_row_key(&key, &gsi_ks, &base_ks).unwrap();

    assert_eq!(item.get("pk"), decoded.get("pk"));
    assert_eq!(item.get("gsi_pk"), decoded.get("gsi_pk"));
    assert_eq!(item.get("gsi_sk"), decoded.get("gsi_sk"));

    let re_encoded = shadow_row_key_for_item(&decoded, &gsi_ks, &base_ks).unwrap().unwrap();
    assert_eq!(key, re_encoded);
}

#[test]
fn test_shadow_row_key_unambiguous_boundaries() {
    let base_ks = vec![ks("pk", KeyType::Hash)];
    let gsi_ks = vec![ks("gsi_pk", KeyType::Hash), ks("gsi_sk", KeyType::Range)];

    let mk_item = |gsi_sk: &str, base_pk: &str| {
        let mut item = Item::new();
        item.insert("pk".to_string(), AttributeValue::S(base_pk.into()));
        item.insert("gsi_pk".to_string(), AttributeValue::S("gsi_p".into()));
        item.insert("gsi_sk".to_string(), AttributeValue::S(gsi_sk.into()));
        item
    };

    let key1 = shadow_row_key_for_item(&mk_item("A", "B"), &gsi_ks, &base_ks).unwrap().unwrap();
    let key2 = shadow_row_key_for_item(&mk_item("AB", ""), &gsi_ks, &base_ks).unwrap().unwrap();
    assert_ne!(key1, key2);

    let dec1 = decode_shadow_row_key(&key1, &gsi_ks, &base_ks).unwrap();
    let dec2 = decode_shadow_row_key(&key2, &gsi_ks, &base_ks).unwrap();
    assert_eq!(dec1.get("gsi_sk"), Some(&AttributeValue::S("A".into())));
    assert_eq!(dec1.get("pk"), Some(&AttributeValue::S("B".into())));
    assert_eq!(dec2.get("gsi_sk"), Some(&AttributeValue::S("AB".into())));
    assert_eq!(dec2.get("pk"), Some(&AttributeValue::S("".into())));
}

#[test]
fn test_shadow_row_key_4kb_limit() {
    let base_ks = vec![ks("pk", KeyType::Hash)];
    let gsi_ks = vec![ks("gsi_pk", KeyType::Hash)];

    let mut item = Item::new();
    item.insert("pk".to_string(), AttributeValue::S("pk_val".to_string()));
    item.insert("gsi_pk".to_string(), AttributeValue::S("x".repeat(5000)));

    let res = shadow_row_key_for_item(&item, &gsi_ks, &base_ks);
    assert!(res.is_err());
    let err = res.unwrap_err();
    match err {
        StorageError::Validation(msg) => {
            assert!(msg.contains("exceeds Bigtable maximum limit of 4096 bytes"));
        }
        other => panic!("expected Validation error, got {other:?}"),
    }
}

#[test]
fn sparse_items_have_no_shadow_row() {
    let base_ks = vec![ks("pk", KeyType::Hash)];
    let gsi_ks = vec![ks("gsi_pk", KeyType::Hash)];
    let mut item = Item::new();
    item.insert("pk".to_string(), AttributeValue::S("p".into()));
    assert_eq!(shadow_row_key_for_item(&item, &gsi_ks, &base_ks), Ok(None));
}

#[test]
fn escaping_byte_by_byte() {
    assert_eq!(escape_bytes(&[1, 0, 2]), vec![1, 0, 0xFF, 2]);
    assert_eq!(escape_bytes_terminated(&[0]), vec![0, 0xFF, 0, 0]);
}

#[test]
fn shadow_table_names() {
    let a = shadow_table_id("t0123", "by_city");
    assert_eq!(a.len(), "t0123_g".len() + 8);
    assert!(a.starts_with("t0123_g"));
    assert_ne!(a, shadow_table_id("t0123", "by_name"));
    assert_eq!(a, shadow_table_id("t0123", "by_city"));
    // The hash of the empty name is the starting value of the hash.
    assert_eq!(shadow_table_id("t", ""), "t_g84222325");
}

#[test]
fn projections() {
    let base = vec![ks("pk", KeyType::Hash)];
    let index = vec![ks("g", KeyType::Hash)];
    let mut item = Item::new();
    for n in ["pk", "g", "x", "y"] {
        item.insert(n.to_string(), AttributeValue::S(n.to_string()));
    }
    let keys_only = Projection { projection_type: ProjectionType::KeysOnly, non_key_attributes: None };
    let p = project_for_shadow(&item, &keys_only, &base, &index);
    assert_eq!(p.len(), 2);
    assert!(p.contains_key("pk") && p.contains_key("g"));
    let some = Projection {
        projection_type: ProjectionType::Include,
        non_key_attributes: Some(vec!["y".to_string(), "missing".to_string()]),
    };
    let p = project_for_shadow(&item, &some, &base, &index);
    assert_eq!(p.len(), 3);
    assert!(p.contains_key("y") && !p.contains_key("x"));
    let all = Projection { projection_type: ProjectionType::All, non_key_attributes: None };
    assert_eq!(project_for_shadow(&item, &all, &base, &index), item);
}

#[test]
fn shadow_rows_are_read_like_others() {
    assert_eq!(
        shadow_prefix_for_pk(&AttributeValue::S("ab".into())),
        Ok(b"S\x00\x00\x00\x02ab".to_vec())
    );
    assert!(shadow_prefix_for_pk(&AttributeValue::Null).is_err());
    let cell = |family: &str, name: &[u8], value: &[u8]| RowCell {
        family_name: family.to_string(),
        qualifier: name.to_vec(),
        value: value.to_vec(),
        timestamp_micros: 1,
    };
    let value = extenddb_storage_bigtable::cell::encode(&AttributeValue::S("v".into())).unwrap();
    let found = decode_shadow_cells(&[cell("m", b"v", b"1"), cell("d", b"x", &value)]).unwrap();
    let mut expected = Item::new();
    expected.insert("x".into(), AttributeValue::S("v".into()));
    assert_eq!(found, Some(expected));
    assert_eq!(decode_shadow_cells(&[cell("m", b"v", b"1")]), Ok(None));
    assert!(decode_shadow_cells(&[cell("d", &[0xFF], &value)]).is_err());
}

//! Attribute values in cells.

use extenddb_storage_bigtable::cell::{decode, encode};
use extenddb_storage_bigtable::value::{AttributeValue, BytesSet, Item, StringSet};

fn rt(av: AttributeValue) {
    let enc = encode(&av).unwrap();
    let dec = decode(&enc).unwrap();
    assert_eq!(av, dec);
}

#[test]
fn roundtrip_scalars() {
    rt(AttributeValue::S("hello".into()));
    rt(AttributeValue::N("3.14159".into()));
    rt(AttributeValue::B(vec![0, 1, 2, 255]));
    rt(AttributeValue::Bool(true));
    rt(AttributeValue::Bool(false));
    rt(AttributeValue::Null);
}

#[test]
fn n_preserves_string_form() {
    let enc = encode(&AttributeValue::N("3.14159".into())).unwrap();
    let dec = decode(&enc).unwrap();
    if let AttributeValue::N(s) = dec {
        assert_eq!(s, "3.14159");
    } else {
        panic!("expected N");
    }
}

#[test]
fn roundtrip_sets() {
    let mut ss = StringSet::new();
    ss.insert("a".to_string());
    ss.insert("b".to_string());
    ss.insert("c".to_string());
    rt(AttributeValue::SS(ss));

    let mut ns = StringSet::new();
    ns.insert("1".to_string());
    ns.insert("2".to_string());
    rt(AttributeValue::NS(ns));

    let mut bs = BytesSet::new();
    bs.insert(vec![0u8, 1, 2]);
    bs.insert(vec![3u8, 4, 5]);
    rt(AttributeValue::BS(bs));
}

#[test]
fn roundtrip_list_recursive() {
    let l = AttributeValue::L(vec![
        AttributeValue::S("x".into()),
        AttributeValue::N("42".into()),
        AttributeValue::Bool(true),
        AttributeValue::L(vec![AttributeValue::Null, AttributeValue::S("nested".into())]),
    ]);
    rt(l);
}

#[test]
fn roundtrip_map_recursive() {
    let mut inner = Item::new();
    inner.insert("city".to_string(), AttributeValue::S("Brooklyn".into()));
    inner.insert("zip".to_string(), AttributeValue::N("11201".into()));

    let mut outer = Item::new();
    outer.insert("name".to_string(), AttributeValue::S("Alice".into()));
    outer.insert("age".to_string(), AttributeValue::N("30".into()));
    outer.insert("address".to_string(), AttributeValue::M(inner));
    outer.insert(
        "tags".to_string(),
        AttributeValue::L(vec![
            AttributeValue::S("dev".into()),
            AttributeValue::S("rust".into()),
        ]),
    );
    rt(AttributeValue::M(outer));
}

#[test]
fn sets_and_lists_nest() {
    let mut bs = BytesSet::new();
    bs.insert(vec![9u8]);
    bs.insert(vec![]);
    let mut ss = StringSet::new();
    ss.insert("ß\"\\".to_string());
    rt(AttributeValue::L(vec![
        AttributeValue::BS(bs),
        AttributeValue::SS(ss),
        AttributeValue::B(vec![1, 2, 3]),
        AttributeValue::Null,
    ]));
}

#[test]
fn cells_byte_by_byte() {
    assert_eq!(encode(&AttributeValue::S("hi".into())).unwrap(), b"\x01hi".to_vec());
    assert_eq!(encode(&AttributeValue::N("7".into())).unwrap(), b"\x027".to_vec());
    assert_eq!(encode(&AttributeValue::B(vec![9])).unwrap(), vec![3, 9]);
    assert_eq!(encode(&AttributeValue::Bool(true)).unwrap(), vec![4, 1]);
    assert_eq!(encode(&AttributeValue::Null).unwrap(), vec![5]);
    let mut ss = StringSet::new();
    ss.insert("b".to_string());
    ss.insert("a".to_string());
    assert_eq!(encode(&AttributeValue::SS(ss)).unwrap(), b"\x06[\"a\",\"b\"]".to_vec());
    let l = AttributeValue::L(vec![AttributeValue::S("x".into()), AttributeValue::Null]);
    assert_eq!(encode(&l).unwrap(), b"\x09[{\"S\":\"x\"},{\"NULL\":true}]".to_vec());
    let mut bs = BytesSet::new();
    bs.insert(vec![0, 1, 2]);
    assert_eq!(encode(&AttributeValue::BS(bs)).unwrap(), b"\x08[\"AAEC\"]".to_vec());
}

#[test]
fn cells_that_cannot_be_read() {
    assert!(decode(&[]).is_err());
    assert!(decode(&[0xEE, 1]).is_err());
    assert!(decode(&[1, 0xFF]).is_err());
    assert!(decode(b"\x06not json").is_err());
    assert!(decode(b"\x08[\"?\"]").is_err());
    assert!(decode(b"\x09{\"S\":\"x\"}").is_err());
}

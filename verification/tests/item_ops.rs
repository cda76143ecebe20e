//! Versions and filters of rows.

use extenddb_storage_bigtable::filter::Filter;
use extenddb_storage_bigtable::item_ops::{
    apply_update_actions, build_active_intent_filter, build_occ_conflict_filter,
    build_row_presence_conflict_filter, build_version_match_filter, build_version_mismatch_filter,
    check_condition, decode_version,
};
use extenddb_storage_bigtable::error::StorageError;
use extenddb_storage_bigtable::value::{AttributeValue, Item};

#[test]
fn test_decode_version_string_and_bytes() {
    assert_eq!(decode_version(b"1"), Some(1));
    assert_eq!(decode_version(b"42"), Some(42));
    assert_eq!(decode_version(b"18446744073709551615"), Some(u64::MAX));

    let be_bytes = 123456789012345u64.to_be_bytes();
    assert_eq!(decode_version(&be_bytes), Some(123456789012345));

    assert_eq!(decode_version(b"not_a_number"), None);
    assert_eq!(decode_version(b""), None);
}

#[test]
fn test_filter_builders() {
    let intent_filter = build_active_intent_filter(1000);
    assert!(intent_filter.filter.is_some());

    let version_filter = build_version_match_filter(42);
    assert!(version_filter.filter.is_some());

    let mismatch_filter = build_version_mismatch_filter(42);
    assert!(mismatch_filter.filter.is_some());

    let occ_conflict_filter = build_occ_conflict_filter(1000, 42);
    assert!(occ_conflict_filter.filter.is_some());

    let conflict_filter = build_row_presence_conflict_filter(1000);
    assert!(conflict_filter.filter.is_some());
}

#[test]
fn test_version_match_filter_order() {
    let filter = build_version_match_filter(42);
    if let Some(Filter::Chain(chain)) = filter.filter {
        assert_eq!(chain.filters.len(), 4);
        assert!(matches!(
            chain.filters[0].filter,
            Some(Filter::FamilyNameRegexFilter(_))
        ));
        assert!(matches!(
            chain.filters[1].filter,
            Some(Filter::ColumnQualifierRegexFilter(_))
        ));
        assert!(matches!(
            chain.filters[2].filter,
            Some(Filter::CellsPerColumnLimitFilter(1))
        ));
        assert!(matches!(
            chain.filters[3].filter,
            Some(Filter::ValueRegexFilter(_))
        ));
    } else {
        panic!("expected Filter::Chain");
    }
}

#[test]
fn a_version_of_any_length_reads_back() {
    for v in [0u64, 9999999, 10000000, 12345678, 99999999, 100000000, u64::MAX] {
        assert_eq!(decode_version(v.to_string().as_bytes()), Some(v));
    }
    assert_eq!(decode_version(b"1234567x"), Some(u64::from_be_bytes(*b"1234567x")));
    assert_eq!(decode_version(b"1234567"), Some(1234567));
    assert_eq!(decode_version(b"123456789"), Some(123456789));
}

#[test]
fn conditions() {
    let mut item = Item::new();
    item.insert("a".to_string(), AttributeValue::Bool(true));
    assert_eq!(check_condition(Some(&item), None), Ok(()));
    assert_eq!(check_condition(None, Some(Ok(true))), Ok(()));
    assert_eq!(
        check_condition(Some(&item), Some(Ok(false))),
        Err(StorageError::ConditionFailed(Some(item.clone())))
    );
    assert_eq!(
        check_condition(None, Some(Err("bad".to_string()))),
        Err(StorageError::Validation("condition evaluation: bad".to_string()))
    );
    assert_eq!(
        apply_update_actions(Err("bad".to_string())),
        Err(StorageError::Validation("update expression evaluation: bad".to_string()))
    );
    assert_eq!(apply_update_actions(Ok(item.clone())), Ok(item));
}

use shipyard::StorageId;
use std::cmp::Ordering;

#[test]
fn custom_ids_come_before_type_ids() {
    assert_eq!(
        StorageId::Custom(u64::MAX).cmp(&StorageId::TypeId(0)),
        Ordering::Less
    );
    assert_eq!(
        StorageId::TypeId(0).cmp(&StorageId::Custom(u64::MAX)),
        Ordering::Greater
    );
    assert!(StorageId::Custom(9) < StorageId::TypeId(1));
    assert!(StorageId::Custom(9).precedes(&StorageId::TypeId(1)));
    assert!(!StorageId::TypeId(1).precedes(&StorageId::Custom(9)));
}

#[test]
fn ids_of_a_family_are_ordered_by_key() {
    assert_eq!(StorageId::Custom(1).cmp(&StorageId::Custom(2)), Ordering::Less);
    assert_eq!(StorageId::Custom(2).cmp(&StorageId::Custom(2)), Ordering::Equal);
    assert_eq!(StorageId::Custom(3).cmp(&StorageId::Custom(2)), Ordering::Greater);
    assert_eq!(StorageId::TypeId(1).cmp(&StorageId::TypeId(2)), Ordering::Less);
    assert_eq!(StorageId::TypeId(2).cmp(&StorageId::TypeId(2)), Ordering::Equal);
    assert_eq!(StorageId::TypeId(3).cmp(&StorageId::TypeId(2)), Ordering::Greater);
    assert_eq!(
        StorageId::TypeId(3).partial_cmp(&StorageId::TypeId(2)),
        Some(Ordering::Greater)
    );
    assert!(!StorageId::Custom(2).precedes(&StorageId::Custom(2)));
}

#[test]
fn derived_order_agrees_with_cmp() {
    let ids = [
        StorageId::TypeId(2),
        StorageId::Custom(5),
        StorageId::TypeId(0),
        StorageId::Custom(1),
    ];
    for a in ids {
        for b in ids {
            assert_eq!(Ord::cmp(&a, &b), a.cmp(&b));
            assert_eq!(a == b, a.cmp(&b) == Ordering::Equal);
        }
    }
    let mut sorted = ids.to_vec();
    sorted.sort();
    assert_eq!(
        sorted,
        vec![
            StorageId::Custom(1),
            StorageId::Custom(5),
            StorageId::TypeId(0),
            StorageId::TypeId(2)
        ]
    );
    assert_eq!(shipyard::pack::sort_ids(&ids), sorted);
}

#[test]
fn from_u64_is_custom() {
    assert_eq!(StorageId::from(7u64), StorageId::Custom(7));
    let id: StorageId = 9u64.into();
    assert_eq!(id, StorageId::Custom(9));
}

use shipyard::pack::Pack;
use shipyard::{EntityId, OldComponent, SparseSet, StorageId};

fn id(index: u64) -> EntityId {
    EntityId::new(index, 0)
}

fn update_bounds<T>(set: &SparseSet<T>) -> (usize, usize) {
    match &set.pack_info().pack {
        Pack::Update(pack) => (pack.inserted_end, pack.modified_end),
        _ => panic!("not update-packed"),
    }
}

#[test]
fn basic_sparse_set() {
    let mut set: SparseSet<&'static str> = SparseSet::new(StorageId::Custom(0));
    set.insert("test5", id(5));
    set.insert("test10", id(10));
    set.insert("test1", id(1));
    assert_eq!(set.len(), 3);

    assert_eq!(set.actual_remove(id(5)), Some(OldComponent::Owned("test5")));
    assert_eq!(set.get(id(5)), None);
    assert_eq!(set.get(id(10)), Some(&"test10"));
    assert_eq!(set.get(id(1)), Some(&"test1"));

    set.actual_remove(id(10));
    set.actual_remove(id(1));
    assert_eq!(set.get(id(5)), None);
    assert_eq!(set.get(id(10)), None);
    assert_eq!(set.get(id(1)), None);
    assert!(set.is_empty());
}

#[test]
fn insert_appends_and_overwrites() {
    let mut set: SparseSet<u32> = SparseSet::new(StorageId::Custom(0));
    assert_eq!(set.insert(10, id(3)), None);
    assert_eq!(set.insert(20, id(7)), None);
    assert_eq!(set.as_ids(), &[id(3), id(7)]);
    assert_eq!(set.as_slice(), &[10, 20]);
    assert_eq!(set.insert(30, id(3)), Some(OldComponent::Owned(10)));
    assert_eq!(set.as_ids(), &[id(3), id(7)]);
    assert_eq!(set.as_slice(), &[30, 20]);
    assert_eq!(set.position(id(7)), Some(1));
    assert_eq!(set.position(id(8)), None);
}

#[test]
fn remove_moves_the_last_entry_into_the_gap() {
    let mut set: SparseSet<u32> = SparseSet::new(StorageId::Custom(0));
    for index in 0..5 {
        set.insert(index as u32 * 10, id(index));
    }
    assert_eq!(set.actual_remove(id(1)), Some(OldComponent::Owned(10)));
    assert_eq!(set.as_ids(), &[id(0), id(4), id(2), id(3)]);
    assert_eq!(set.as_slice(), &[0, 40, 20, 30]);
    for (position, entity) in set.as_ids().iter().enumerate() {
        assert_eq!(set.position(*entity), Some(position));
    }
    assert_eq!(set.actual_remove(id(1)), None);
    assert_eq!(set.actual_remove(id(3)), Some(OldComponent::Owned(30)));
    assert_eq!(set.as_ids(), &[id(0), id(4), id(2)]);
}

#[test]
fn contains_follows_inserts_and_removes() {
    let mut set: SparseSet<u8> = SparseSet::new(StorageId::Custom(0));
    let mut inserted: Vec<u64> = Vec::new();
    let calls: [(bool, u64); 12] = [
        (true, 4),
        (true, 9),
        (false, 4),
        (true, 2),
        (true, 4),
        (false, 7),
        (true, 0),
        (false, 9),
        (false, 0),
        (true, 9),
        (true, 9),
        (false, 2),
    ];
    for (insert, index) in calls {
        if insert {
            set.insert(index as u8, id(index));
            if !inserted.contains(&index) {
                inserted.push(index);
            }
        } else {
            set.actual_remove(id(index));
            inserted.retain(|other| *other != index);
        }
        for probe in 0..12 {
            assert_eq!(set.contains(id(probe)), inserted.contains(&probe));
        }
        assert_eq!(set.len(), inserted.len());
        for (position, entity) in set.as_ids().iter().enumerate() {
            assert_eq!(set.position(*entity), Some(position));
        }
    }
}

#[test]
fn other_generation_of_a_slot_is_absent() {
    let mut set: SparseSet<u32> = SparseSet::new(StorageId::Custom(0));
    let old = EntityId::new(3, 0);
    let new = EntityId::new(3, 1);
    set.insert(1, old);
    assert!(set.contains(old));
    assert!(!set.contains(new));
    assert_eq!(set.get(new), None);
    assert_eq!(set.actual_remove(new), None);
    assert_eq!(set.occupant_of(3), Some(old));
    assert_eq!(set.occupant_of(4), None);
}

#[test]
fn insert_takes_out_the_other_generation_of_the_slot() {
    let mut set: SparseSet<u32> = SparseSet::new(StorageId::Custom(0));
    let old = EntityId::new(3, 0);
    let new = EntityId::new(3, 1);
    set.insert(1, old);
    set.insert(5, id(8));
    assert_eq!(set.insert(2, new), None);
    assert!(!set.contains(old));
    assert_eq!(set.get(new), Some(&2));
    assert_eq!(set.as_ids(), &[id(8), new]);
    assert_eq!(set.position(new), Some(1));
    assert_eq!(set.position(id(8)), Some(0));
}

#[test]
fn get_mut_writes_through() {
    let mut set: SparseSet<u32> = SparseSet::new(StorageId::Custom(0));
    set.insert(1, id(0));
    *set.get_mut(id(0)).unwrap() += 41;
    assert_eq!(set.get(id(0)), Some(&42));
    assert!(set.get_mut(id(1)).is_none());
}

#[test]
fn update_pack_insert() {
    let mut set: SparseSet<u32> = SparseSet::new(StorageId::Custom(0));
    set.try_update_pack().unwrap();
    set.insert(0, id(0));
    set.insert(1, id(1));
    set.insert(2, id(2));
    assert_eq!(set.try_inserted().unwrap().len(), 3);
    assert_eq!(set.try_modified().unwrap().len(), 0);
    set.try_clear_inserted().unwrap();
    assert_eq!(set.try_inserted().unwrap().len(), 0);
    assert_eq!(set.try_modified().unwrap().len(), 0);
}

#[test]
fn update_pack_modification_via_mut_iter() {
    let mut set: SparseSet<u32> = SparseSet::new(StorageId::Custom(0));
    set.try_update_pack().unwrap();
    set.insert(0, id(0));
    set.insert(1, id(1));
    set.insert(2, id(2));
    set.try_clear_inserted().unwrap();
    for position in 0..set.len() {
        *set.value_at_mut(position) += 1;
    }
    assert_eq!(set.try_modified().unwrap().len(), 3);
    assert_eq!(set.try_inserted().unwrap().len(), 0);
    assert_eq!(set.as_slice(), &[1, 2, 3]);
}

#[test]
fn update_pack_of_a_filled_set_counts_all_as_inserted() {
    let mut set: SparseSet<u32> = SparseSet::new(StorageId::Custom(0));
    set.insert(0, id(0));
    set.insert(1, id(1));
    assert!(!set.is_update_packed());
    assert_eq!(set.try_inserted(), Err(shipyard::error::NotUpdatePack));
    assert_eq!(set.try_update_pack(), Ok(()));
    assert!(set.is_update_packed());
    assert_eq!(update_bounds(&set), (2, 2));
    assert_eq!(set.try_update_pack(), Ok(()));
    assert_eq!(update_bounds(&set), (2, 2));
}

#[test]
fn update_pack_insert_keeps_the_modified_region() {
    let mut set: SparseSet<u32> = SparseSet::new(StorageId::Custom(0));
    set.try_update_pack().unwrap();
    for index in 0..4 {
        set.insert(index as u32, id(index));
    }
    set.try_clear_inserted().unwrap();
    // entities 2 and 3 become modified
    set.get_mut(id(2)).unwrap();
    set.get_mut(id(3)).unwrap();
    assert_eq!(set.try_modified_ids().unwrap(), &[id(2), id(3)]);
    // a new entity goes first, the modified region moves up by one
    set.insert(9, id(9));
    assert_eq!(update_bounds(&set), (1, 3));
    assert_eq!(set.try_inserted_ids().unwrap(), &[id(9)]);
    let mut modified = set.try_modified_ids().unwrap().to_vec();
    modified.sort_by_key(|entity| entity.index());
    assert_eq!(modified, vec![id(2), id(3)]);
    assert_eq!(set.as_ids(), &[id(9), id(3), id(2), id(1), id(0)]);
    assert_eq!(set.as_slice(), &[9, 3, 2, 1, 0]);
    for (position, entity) in set.as_ids().iter().enumerate() {
        assert_eq!(set.position(*entity), Some(position));
    }
}

#[test]
fn update_pack_overwrite_marks_modified_once() {
    let mut set: SparseSet<u32> = SparseSet::new(StorageId::Custom(0));
    set.try_update_pack().unwrap();
    set.insert(0, id(0));
    set.insert(1, id(1));
    set.insert(2, id(2));
    // an inserted entry stays inserted when overwritten
    assert_eq!(set.insert(10, id(1)), Some(OldComponent::Owned(1)));
    assert_eq!(update_bounds(&set), (3, 3));
    set.try_clear_inserted().unwrap();
    assert_eq!(set.insert(20, id(2)), Some(OldComponent::Owned(2)));
    assert_eq!(update_bounds(&set), (0, 1));
    assert_eq!(set.try_modified_ids().unwrap(), &[id(2)]);
    assert_eq!(set.insert(30, id(2)), Some(OldComponent::Owned(20)));
    assert_eq!(update_bounds(&set), (0, 1));
    assert_eq!(set.as_ids(), &[id(2), id(1), id(0)]);
}

#[test]
fn update_pack_clear_inserted_keeps_modified() {
    let mut set: SparseSet<u32> = SparseSet::new(StorageId::Custom(0));
    set.try_update_pack().unwrap();
    for index in 0..3 {
        set.insert(index as u32, id(index));
    }
    set.try_clear_inserted().unwrap();
    set.get_mut(id(1)).unwrap();
    set.insert(7, id(7));
    set.insert(8, id(8));
    assert_eq!(update_bounds(&set), (2, 3));
    set.try_clear_inserted().unwrap();
    assert_eq!(update_bounds(&set), (0, 1));
    assert_eq!(set.try_modified_ids().unwrap(), &[id(1)]);
    assert_eq!(set.len(), 5);
    for index in [0, 1, 2, 7, 8] {
        assert_eq!(set.get(id(index)), Some(&(index as u32)));
    }
    for (position, entity) in set.as_ids().iter().enumerate() {
        assert_eq!(set.position(*entity), Some(position));
    }
}

#[test]
fn update_pack_clear_modified_and_both() {
    let mut set: SparseSet<u32> = SparseSet::new(StorageId::Custom(0));
    set.try_update_pack().unwrap();
    for index in 0..3 {
        set.insert(index as u32, id(index));
    }
    set.try_clear_inserted().unwrap();
    set.get_mut(id(0)).unwrap();
    set.insert(5, id(5));
    assert_eq!(update_bounds(&set), (1, 2));
    set.try_clear_modified().unwrap();
    assert_eq!(update_bounds(&set), (1, 1));
    set.get_mut(id(2)).unwrap();
    assert_eq!(update_bounds(&set), (1, 2));
    set.try_clear_inserted_and_modified().unwrap();
    assert_eq!(update_bounds(&set), (0, 0));

    let mut plain: SparseSet<u32> = SparseSet::new(StorageId::Custom(1));
    assert_eq!(plain.try_clear_inserted(), Err(shipyard::error::NotUpdatePack));
    assert_eq!(plain.try_clear_modified(), Err(shipyard::error::NotUpdatePack));
    assert_eq!(
        plain.try_clear_inserted_and_modified(),
        Err(shipyard::error::NotUpdatePack)
    );
    assert_eq!(plain.try_modified(), Err(shipyard::error::NotUpdatePack));
    assert_eq!(
        plain.try_inserted_or_modified(),
        Err(shipyard::error::NotUpdatePack)
    );
    assert!(plain.try_take_removed().is_err());
}

#[test]
fn update_pack_removed_log() {
    let mut set: SparseSet<u32> = SparseSet::new(StorageId::Custom(0));
    set.try_update_pack().unwrap();
    for index in 0..4 {
        set.insert(index as u32 + 100, id(index));
    }
    set.try_clear_inserted().unwrap();
    set.get_mut(id(1)).unwrap();
    set.insert(104, id(4));
    // one entry of each region leaves
    assert_eq!(set.actual_remove(id(4)), Some(OldComponent::OldValue(0)));
    assert_eq!(set.actual_remove(id(1)), Some(OldComponent::OldValue(1)));
    assert_eq!(set.actual_remove(id(3)), Some(OldComponent::OldValue(2)));
    assert_eq!(set.actual_remove(id(3)), None);
    assert_eq!(update_bounds(&set), (0, 0));
    assert_eq!(set.len(), 2);
    assert_eq!(
        set.try_take_removed().unwrap(),
        vec![(id(4), 104), (id(1), 101), (id(3), 103)]
    );
    assert_eq!(set.try_take_removed().unwrap(), vec![]);
    assert_eq!(set.actual_remove(id(0)), Some(OldComponent::OldValue(0)));
    assert_eq!(set.try_take_removed().unwrap(), vec![(id(0), 100)]);
}

#[test]
fn inserted_then_removed_leaves_only_the_log() {
    let mut set: SparseSet<u32> = SparseSet::new(StorageId::Custom(0));
    set.try_update_pack().unwrap();
    set.insert(1, id(1));
    set.actual_remove(id(1));
    assert_eq!(set.try_inserted().unwrap().len(), 0);
    assert_eq!(set.try_take_removed().unwrap(), vec![(id(1), 1)]);
}

#[test]
fn regions_make_up_the_dense_array() {
    let mut set: SparseSet<u32> = SparseSet::new(StorageId::Custom(0));
    set.try_update_pack().unwrap();
    for index in 0..6 {
        set.insert(index as u32, id(index));
    }
    set.try_clear_inserted().unwrap();
    set.get_mut(id(4)).unwrap();
    set.get_mut(id(5)).unwrap();
    set.insert(9, id(9));
    let mut all = set.try_inserted_ids().unwrap().to_vec();
    all.extend_from_slice(set.try_modified_ids().unwrap());
    let (_, modified_end) = update_bounds(&set);
    all.extend_from_slice(&set.as_ids()[modified_end..]);
    assert_eq!(all, set.as_ids());
    assert_eq!(set.try_inserted_or_modified().unwrap().len(), 3);
}

#[test]
fn clear_empties_and_logs() {
    let mut set: SparseSet<u32> = SparseSet::new(StorageId::Custom(0));
    set.insert(1, id(1));
    set.insert(2, id(2));
    set.clear();
    assert!(set.is_empty());
    assert!(!set.contains(id(1)));

    let mut logged: SparseSet<u32> = SparseSet::new(StorageId::Custom(0));
    logged.try_update_pack().unwrap();
    logged.insert(1, id(1));
    logged.insert(2, id(2));
    logged.clear();
    assert!(logged.is_empty());
    assert_eq!(update_bounds(&logged), (0, 0));
    assert_eq!(
        logged.try_take_removed().unwrap(),
        vec![(id(2), 2), (id(1), 1)]
    );
}

#[test]
fn delete_names_the_storages_to_repair() {
    let mut set: SparseSet<u32> = SparseSet::new(StorageId::Custom(0));
    set.add_observer(StorageId::Custom(7));
    set.add_observer(StorageId::Custom(7));
    set.add_observer(StorageId::TypeId(1));
    set.insert(1, id(1));
    let mut storage_to_unpack = vec![StorageId::Custom(3)];
    set.delete(id(1), &mut storage_to_unpack);
    assert!(!set.contains(id(1)));
    assert_eq!(
        storage_to_unpack,
        vec![
            StorageId::Custom(3),
            StorageId::Custom(7),
            StorageId::TypeId(1)
        ]
    );
}

#[test]
fn replace_values_checks_the_length() {
    let mut set: SparseSet<u32> = SparseSet::new(StorageId::Custom(0));
    set.try_update_pack().unwrap();
    set.insert(1, id(1));
    set.insert(2, id(2));
    set.try_clear_inserted().unwrap();
    assert_eq!(set.replace_values(vec![1]), Err(vec![1]));
    assert_eq!(update_bounds(&set), (0, 0));
    assert_eq!(set.replace_values(vec![10, 20]), Ok(vec![1, 2]));
    assert_eq!(update_bounds(&set), (0, 2));
    assert_eq!(set.get(id(2)), Some(&20));
}

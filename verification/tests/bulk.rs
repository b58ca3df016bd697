use shipyard::bulk::{tight_pack_all, try_add_components, try_remove_components};
use shipyard::error;
use shipyard::pack::Pack;
use shipyard::{
    AllStorages, Entities, EntityId, OldComponent, SparseSet, Storage, StorageId, ThreadId,
    UnknownStorage,
};

fn packed_len(set: &SparseSet<u32>) -> usize {
    match &set.pack_info().pack {
        Pack::Tight(pack) => pack.len,
        _ => panic!("not tight"),
    }
}

fn prefix(set: &SparseSet<u32>) -> Vec<EntityId> {
    set.as_ids()[..packed_len(set)].to_vec()
}

fn three_sets() -> Vec<SparseSet<u32>> {
    vec![
        SparseSet::new(StorageId::Custom(3)),
        SparseSet::new(StorageId::Custom(1)),
        SparseSet::new(StorageId::Custom(2)),
    ]
}

#[test]
fn pack_of_three_gathers_what_all_hold() {
    let mut sets = three_sets();
    for index in [0, 1, 2, 3, 4, 5] {
        sets[0].insert(index as u32, EntityId::new(index, 0));
    }
    for index in [5, 3, 1, 7] {
        sets[1].insert(10 + index as u32, EntityId::new(index, 0));
    }
    for index in [1, 2, 3, 9] {
        sets[2].insert(20 + index as u32, EntityId::new(index, 0));
    }
    assert_eq!(tight_pack_all(&mut sets), Ok(()));
    let common = vec![EntityId::new(1, 0), EntityId::new(3, 0)];
    for set in &sets {
        assert_eq!(prefix(set), common);
        match &set.pack_info().pack {
            Pack::Tight(pack) => assert_eq!(
                pack.types,
                vec![
                    StorageId::Custom(1),
                    StorageId::Custom(2),
                    StorageId::Custom(3)
                ]
            ),
            _ => panic!("not tight"),
        }
    }
    assert_eq!(sets[0].len(), 6);
    assert_eq!(sets[1].get(EntityId::new(7, 0)), Some(&17));
    assert_eq!(sets[2].get(EntityId::new(3, 0)), Some(&23));
    for set in &sets {
        for (position, entity) in set.as_ids().iter().enumerate() {
            assert_eq!(set.position(*entity), Some(position));
        }
    }
}

#[test]
fn pack_of_three_refuses_a_packed_storage() {
    let mut sets = three_sets();
    sets[1].try_update_pack().unwrap();
    sets[2].try_tight_pack(vec![]).unwrap();
    assert_eq!(tight_pack_all(&mut sets), Err(error::Pack::AlreadyUpdatePack));
    assert!(sets[0].pack_info().plain());
    let mut none: Vec<SparseSet<u32>> = Vec::new();
    assert_eq!(tight_pack_all(&mut none), Ok(()));
}

#[test]
fn bulk_add_to_three() {
    let mut entities = Entities::new();
    let mut sets = three_sets();
    tight_pack_all(&mut sets).unwrap();
    let e0 = entities.allocate();
    let e1 = entities.allocate();
    let e2 = entities.allocate();
    // all three are targets
    assert_eq!(
        try_add_components(&mut sets, vec![1, 2, 3], e0, &entities),
        Ok(())
    );
    for set in &sets {
        assert_eq!(prefix(set), vec![e0]);
    }
    assert_eq!(sets[0].get(e0), Some(&1));
    assert_eq!(sets[1].get(e0), Some(&2));
    assert_eq!(sets[2].get(e0), Some(&3));
    // two targets, the third beside them does not hold the entity
    assert_eq!(
        try_add_components(&mut sets, vec![4, 5], e1, &entities),
        Ok(())
    );
    for set in &sets {
        assert_eq!(prefix(set), vec![e0]);
    }
    assert!(sets[0].contains(e1));
    assert!(sets[1].contains(e1));
    assert!(!sets[2].contains(e1));
    // the third takes its component: packed everywhere
    sets.rotate_left(2);
    assert_eq!(try_add_components(&mut sets, vec![6], e1, &entities), Ok(()));
    for set in &sets {
        assert_eq!(prefix(set), vec![e0, e1]);
    }
    // no target at all changes nothing
    assert_eq!(try_add_components(&mut sets, vec![], e2, &entities), Ok(()));
    for set in &sets {
        assert!(!set.contains(e2));
        assert_eq!(set.len(), 2);
    }
}

#[test]
fn bulk_add_refusals() {
    let mut entities = Entities::new();
    let mut sets = three_sets();
    tight_pack_all(&mut sets).unwrap();
    let entity = entities.allocate();
    let dead = entities.allocate();
    entities.kill(dead);
    assert_eq!(
        try_add_components(&mut sets, vec![1, 2, 3], dead, &entities),
        Err(error::AddComponent::EntityIsNotAlive)
    );
    let mut two: Vec<SparseSet<u32>> = sets.drain(..2).collect();
    assert_eq!(
        try_add_components(&mut two, vec![1, 2], entity, &entities),
        Err(error::AddComponent::MissingPackStorage(StorageId::Custom(3)))
    );
    assert_eq!(
        try_add_components(&mut two, vec![1], entity, &entities),
        Err(error::AddComponent::MissingPackStorage(StorageId::Custom(3)))
    );
    two.swap(0, 1);
    assert_eq!(
        try_add_components(&mut two, vec![1], entity, &entities),
        Err(error::AddComponent::MissingPackStorage(StorageId::Custom(1)))
    );
    for set in &two {
        assert!(set.is_empty());
    }
    assert_eq!(
        try_remove_components(&mut two, 2, entity),
        Err(error::Remove::MissingPackStorage(StorageId::Custom(1)))
    );
}

#[test]
fn bulk_remove_from_three() {
    let mut entities = Entities::new();
    let mut sets = three_sets();
    tight_pack_all(&mut sets).unwrap();
    let mut ids = Vec::new();
    for value in 0..4 {
        let entity = entities.allocate();
        try_add_components(&mut sets, vec![value, value + 10, value + 20], entity, &entities)
            .unwrap();
        ids.push(entity);
    }
    for set in &sets {
        assert_eq!(prefix(set), ids);
    }
    // one target, two storages beside it
    assert_eq!(
        try_remove_components(&mut sets, 1, ids[1]),
        Ok(vec![Some(OldComponent::Owned(1))])
    );
    for set in &sets {
        assert_eq!(prefix(set), vec![ids[0], ids[3], ids[2]]);
    }
    assert!(!sets[0].contains(ids[1]));
    assert_eq!(sets[1].get(ids[1]), Some(&11));
    assert_eq!(sets[2].get(ids[1]), Some(&21));
    // all three are targets
    assert_eq!(
        try_remove_components(&mut sets, 3, ids[0]),
        Ok(vec![
            Some(OldComponent::Owned(0)),
            Some(OldComponent::Owned(10)),
            Some(OldComponent::Owned(20))
        ])
    );
    for set in &sets {
        assert_eq!(prefix(set), vec![ids[2], ids[3]]);
    }
    // an entity that is not packed any more
    assert_eq!(
        try_remove_components(&mut sets, 2, ids[1]),
        Ok(vec![None, Some(OldComponent::Owned(11))])
    );
    for set in &sets {
        assert_eq!(prefix(set), vec![ids[2], ids[3]]);
    }
    // no target: nothing is unpacked
    assert_eq!(try_remove_components(&mut sets, 0, ids[2]), Ok(vec![]));
    for set in &sets {
        assert_eq!(prefix(set), vec![ids[2], ids[3]]);
    }
}

#[test]
fn bulk_add_to_plain_and_update_packed_storages() {
    let mut entities = Entities::new();
    let mut sets = three_sets();
    sets[1].try_update_pack().unwrap();
    let entity = entities.allocate();
    assert_eq!(
        try_add_components(&mut sets, vec![1, 2], entity, &entities),
        Ok(())
    );
    assert_eq!(sets[0].get(entity), Some(&1));
    assert_eq!(sets[1].try_inserted().unwrap(), &[2]);
    assert!(sets[2].is_empty());
    assert_eq!(
        try_remove_components(&mut sets, 3, entity),
        Ok(vec![
            Some(OldComponent::Owned(1)),
            Some(OldComponent::OldValue(0)),
            None
        ])
    );
    assert_eq!(sets[1].try_take_removed().unwrap(), vec![(entity, 2)]);
}

#[test]
fn bulk_add_to_storages_of_a_registry() {
    let thread = ThreadId(0);
    let ids = [
        StorageId::Custom(1),
        StorageId::Custom(2),
        StorageId::Custom(3),
    ];
    let mut all_storages: AllStorages<u32> = AllStorages::new();
    let mut sets = Vec::new();
    for id in ids {
        all_storages.register(id);
        match all_storages.take(id).unwrap().into_content() {
            UnknownStorage::SparseSet(set) => sets.push(set),
            _ => panic!("not a component container"),
        }
    }
    tight_pack_all(&mut sets).unwrap();
    let entity = all_storages.entities_mut(thread).unwrap().allocate();
    try_add_components(
        &mut sets,
        vec![1, 2, 3],
        entity,
        all_storages.entities(thread).unwrap(),
    )
    .unwrap();
    for set in sets {
        let id = set.id();
        let storage = Storage::with(id, UnknownStorage::SparseSet(set), None, true);
        assert!(all_storages.put(storage).is_none());
    }
    assert_eq!(all_storages.len(), 3);
    assert_eq!(all_storages.delete(entity, thread), Ok(true));
    for id in ids {
        let set = all_storages
            .storage(id)
            .unwrap()
            .sparse_set(thread)
            .unwrap();
        assert!(set.is_empty());
        assert_eq!(packed_len(set), 0);
    }
}

use shipyard::error;
use shipyard::pack::{LoosePack, Pack, PackInfo, TightPack};
use shipyard::packing::{loose_pack, tight_pack};
use shipyard::{
    AddComponent, AllStorages, Entities, EntityId, OldComponent, Remove, SparseSet, StorageId,
    ThreadId,
};

const USIZES: StorageId = StorageId::TypeId(1);
const U32S: StorageId = StorageId::TypeId(2);

fn packed_len<T>(set: &SparseSet<T>) -> usize {
    match &set.pack_info().pack {
        Pack::Tight(pack) => pack.len,
        Pack::Loose(pack) => pack.len,
        _ => panic!("not packed"),
    }
}

fn prefix<T>(set: &SparseSet<T>) -> Vec<EntityId> {
    set.as_ids()[..packed_len(set)].to_vec()
}

#[test]
fn tight_pack_add() {
    let mut entities = Entities::new();
    let mut usizes: SparseSet<usize> = SparseSet::new(USIZES);
    let mut u32s: SparseSet<u32> = SparseSet::new(U32S);
    tight_pack(&mut usizes, &mut u32s).unwrap();
    let entity1 = entities.allocate();
    (&mut usizes, &mut u32s)
        .try_add_component((0usize, 1u32), entity1, &entities)
        .unwrap();
    assert_eq!(prefix(&usizes), vec![entity1]);
    assert_eq!(prefix(&u32s), vec![entity1]);

    let old = Remove::<(usize,)>::try_remove((&mut usizes, &mut u32s), entity1).unwrap();
    assert_eq!(old, (Some(OldComponent::Owned(0)),));
    assert!(!prefix(&u32s).contains(&entity1));
    assert_eq!(packed_len(&u32s), 0);
    assert_eq!(packed_len(&usizes), 0);
    assert!(!usizes.contains(entity1));
    assert_eq!(u32s.get(entity1), Some(&1));
}

#[test]
fn missing_pack_sibling() {
    let mut entities = Entities::new();
    let mut usizes: SparseSet<usize> = SparseSet::new(USIZES);
    let mut u32s: SparseSet<u32> = SparseSet::new(U32S);
    tight_pack(&mut usizes, &mut u32s).unwrap();
    let entity1 = entities.allocate();
    assert_eq!(
        (&mut usizes).try_add_component(0usize, entity1, &entities),
        Err(error::AddComponent::MissingPackStorage(USIZES))
    );
    assert_eq!(usizes.len(), 0);
    assert_eq!(
        (&mut usizes,).try_add_component((0usize,), entity1, &entities),
        Err(error::AddComponent::MissingPackStorage(USIZES))
    );
    assert_eq!(usizes.len(), 0);
    assert_eq!(
        Remove::<(usize,)>::try_remove((&mut usizes,), entity1),
        Err(error::Remove::MissingPackStorage(USIZES))
    );
}

#[test]
fn delete_any_with_pack_repair() {
    let thread = ThreadId(0);
    let (a, b) = (StorageId::Custom(1), StorageId::Custom(2));
    let mut all_storages: AllStorages<u32> = AllStorages::new();
    assert!(all_storages.register(a));
    assert!(all_storages.register(b));
    let mut storage_a = all_storages.take(a).unwrap();
    let mut storage_b = all_storages.take(b).unwrap();
    let (entity, other) = {
        let entities = all_storages.entities_mut(thread).unwrap();
        let set_a = storage_a.sparse_set_mut(thread).unwrap();
        let set_b = storage_b.sparse_set_mut(thread).unwrap();
        tight_pack(set_a, set_b).unwrap();
        let other = entities.allocate();
        let entity = entities.allocate();
        (&mut *set_a, &mut *set_b)
            .try_add_component((10, 20), other, entities)
            .unwrap();
        (&mut *set_a, &mut *set_b)
            .try_add_component((1, 2), entity, entities)
            .unwrap();
        assert_eq!(packed_len(set_a), 2);
        assert_eq!(packed_len(set_b), 2);
        (entity, other)
    };
    assert!(all_storages.put(storage_a).is_none());
    assert!(all_storages.put(storage_b).is_none());

    assert_eq!(all_storages.delete(entity, thread), Ok(true));

    for id in [a, b] {
        let set = all_storages
            .storage(id)
            .unwrap()
            .sparse_set(thread)
            .unwrap();
        assert!(!set.contains(entity));
        assert!(set.contains(other));
        assert_eq!(packed_len(set), 1);
        assert_eq!(prefix(set), vec![other]);
    }
    assert!(!all_storages.entities(thread).unwrap().is_alive(entity));
    assert!(all_storages.entities(thread).unwrap().is_alive(other));
    assert_eq!(all_storages.delete(entity, thread), Ok(false));
}

#[test]
fn tight_pack_gathers_what_both_hold() {
    let mut a: SparseSet<u8> = SparseSet::new(StorageId::Custom(1));
    let mut b: SparseSet<u16> = SparseSet::new(StorageId::Custom(2));
    for index in 0..6 {
        a.insert(index as u8, EntityId::new(index, 0));
    }
    for index in [5, 1, 8, 3] {
        b.insert(index as u16, EntityId::new(index, 0));
    }
    assert_eq!(tight_pack(&mut a, &mut b), Ok(()));
    assert_eq!(packed_len(&a), 3);
    assert_eq!(packed_len(&b), 3);
    assert_eq!(prefix(&a), prefix(&b));
    let mut common = prefix(&a);
    common.sort_by_key(|entity| entity.index());
    assert_eq!(
        common,
        vec![EntityId::new(1, 0), EntityId::new(3, 0), EntityId::new(5, 0)]
    );
    for index in 0..6 {
        assert_eq!(a.get(EntityId::new(index, 0)), Some(&(index as u8)));
    }
    for index in [5, 1, 8, 3] {
        assert_eq!(b.get(EntityId::new(index, 0)), Some(&(index as u16)));
    }
    match &a.pack_info().pack {
        Pack::Tight(pack) => {
            assert_eq!(pack.types, vec![StorageId::Custom(1), StorageId::Custom(2)])
        }
        _ => panic!("not tight"),
    }
    match &b.pack_info().pack {
        Pack::Tight(pack) => {
            assert_eq!(pack.types, vec![StorageId::Custom(1), StorageId::Custom(2)])
        }
        _ => panic!("not tight"),
    }
}

#[test]
fn pack_refuses_a_packed_storage() {
    let mut a: SparseSet<u8> = SparseSet::new(StorageId::Custom(1));
    let mut b: SparseSet<u16> = SparseSet::new(StorageId::Custom(2));
    let mut c: SparseSet<u32> = SparseSet::new(StorageId::Custom(3));
    let mut d: SparseSet<u64> = SparseSet::new(StorageId::Custom(4));
    tight_pack(&mut a, &mut b).unwrap();
    assert_eq!(tight_pack(&mut a, &mut c), Err(error::Pack::AlreadyTightPack));
    assert_eq!(tight_pack(&mut c, &mut b), Err(error::Pack::AlreadyTightPack));
    assert_eq!(loose_pack(&mut a, &mut c), Err(error::Pack::AlreadyTightPack));
    assert_eq!(a.try_update_pack(), Err(error::Pack::AlreadyTightPack));
    assert!(c.pack_info().plain());
    c.try_update_pack().unwrap();
    assert_eq!(tight_pack(&mut c, &mut d), Err(error::Pack::AlreadyUpdatePack));
    assert_eq!(c.try_tight_pack(vec![]), Err(error::Pack::AlreadyUpdatePack));
    assert_eq!(
        c.try_loose_pack(vec![], vec![]),
        Err(error::Pack::AlreadyUpdatePack)
    );
    assert!(d.pack_info().plain());
    loose_pack(&mut d, &mut a).unwrap();
    assert_eq!(d.try_update_pack(), Err(error::Pack::AlreadyLoosePack));
    assert_eq!(tight_pack(&mut d, &mut c), Err(error::Pack::AlreadyLoosePack));
    assert_eq!(loose_pack(&mut d, &mut c), Err(error::Pack::AlreadyLoosePack));
}

#[test]
fn bulk_add_packs_when_the_entity_is_in_both() {
    let mut entities = Entities::new();
    let mut a: SparseSet<u8> = SparseSet::new(StorageId::Custom(1));
    let mut b: SparseSet<u16> = SparseSet::new(StorageId::Custom(2));
    tight_pack(&mut a, &mut b).unwrap();
    let e0 = entities.allocate();
    let e1 = entities.allocate();
    let e2 = entities.allocate();
    // only in a: not packed
    AddComponent::<(u8,)>::try_add_component((&mut a, &mut b), (1,), e0, &entities).unwrap();
    assert_eq!(packed_len(&a), 0);
    assert_eq!(packed_len(&b), 0);
    // only in b
    AddComponent::<(u16,)>::try_add_component((&mut b, &mut a), (2,), e1, &entities).unwrap();
    assert_eq!(packed_len(&b), 0);
    // in both at once
    (&mut a, &mut b)
        .try_add_component((3, 4), e2, &entities)
        .unwrap();
    assert_eq!(prefix(&a), vec![e2]);
    assert_eq!(prefix(&b), vec![e2]);
    // e0 joins b: packed in both
    AddComponent::<(u16,)>::try_add_component((&mut b, &mut a), (5,), e0, &entities).unwrap();
    assert_eq!(prefix(&a), vec![e2, e0]);
    assert_eq!(prefix(&b), vec![e2, e0]);
    assert_eq!(a.as_ids(), &[e2, e0]);
    assert_eq!(b.as_ids(), &[e2, e0, e1]);
    // overwriting changes no order
    (&mut a, &mut b)
        .try_add_component((7, 8), e2, &entities)
        .unwrap();
    assert_eq!(prefix(&a), vec![e2, e0]);
    assert_eq!(a.get(e2), Some(&7));
    assert_eq!(b.get(e2), Some(&8));
}

#[test]
fn bulk_remove_keeps_the_prefixes_alike() {
    let mut entities = Entities::new();
    let mut a: SparseSet<u8> = SparseSet::new(StorageId::Custom(1));
    let mut b: SparseSet<u16> = SparseSet::new(StorageId::Custom(2));
    tight_pack(&mut a, &mut b).unwrap();
    let mut ids = Vec::new();
    for value in 0..4 {
        let entity = entities.allocate();
        (&mut a, &mut b)
            .try_add_component((value, value as u16), entity, &entities)
            .unwrap();
        ids.push(entity);
    }
    assert_eq!(prefix(&a), ids);
    let old = Remove::<(u8, u16)>::try_remove((&mut a, &mut b), ids[1]).unwrap();
    assert_eq!(
        old,
        (Some(OldComponent::Owned(1)), Some(OldComponent::Owned(1)))
    );
    assert_eq!(prefix(&a), vec![ids[0], ids[3], ids[2]]);
    assert_eq!(prefix(&a), prefix(&b));
    let old = Remove::<(u16,)>::try_remove((&mut b, &mut a), ids[0]).unwrap();
    assert_eq!(old, (Some(OldComponent::Owned(0)),));
    assert_eq!(prefix(&a), vec![ids[2], ids[3]]);
    assert_eq!(prefix(&a), prefix(&b));
    assert_eq!(a.len(), 3);
    assert_eq!(b.len(), 2);
    let old = Remove::<(u8,)>::try_remove((&mut a, &mut b), ids[1]).unwrap();
    assert_eq!(old, (None,));
    assert_eq!(prefix(&a), prefix(&b));
}

#[test]
fn rejected_add_writes_nothing() {
    let mut entities = Entities::new();
    let mut a: SparseSet<u8> = SparseSet::new(StorageId::Custom(1));
    let mut b: SparseSet<u16> = SparseSet::new(StorageId::Custom(2));
    let mut c: SparseSet<u32> = SparseSet::new(StorageId::Custom(3));
    c.try_update_pack().unwrap();
    tight_pack(&mut a, &mut b).unwrap();
    let entity = entities.allocate();
    (&mut a, &mut b)
        .try_add_component((1, 2), entity, &entities)
        .unwrap();
    c.insert(3, entity);
    c.try_clear_inserted().unwrap();
    let next = entities.allocate();
    // a names b, which is not passed
    assert_eq!(
        (&mut a, &mut c).try_add_component((5, 6), next, &entities),
        Err(error::AddComponent::MissingPackStorage(StorageId::Custom(1)))
    );
    assert_eq!(
        (&mut c, &mut a).try_add_component((6, 5), next, &entities),
        Err(error::AddComponent::MissingPackStorage(StorageId::Custom(1)))
    );
    assert_eq!(
        AddComponent::<(u8,)>::try_add_component((&mut a, &mut c), (5,), next, &entities),
        Err(error::AddComponent::MissingPackStorage(StorageId::Custom(1)))
    );
    assert_eq!(a.len(), 1);
    assert_eq!(c.len(), 1);
    assert_eq!(c.get(entity), Some(&3));
    assert_eq!(c.try_inserted().unwrap().len(), 0);
    assert_eq!(c.try_modified().unwrap().len(), 0);
    assert_eq!(c.try_take_removed().unwrap(), vec![]);
    assert_eq!(packed_len(&a), 1);
    assert_eq!(
        Remove::<(u8, u32)>::try_remove((&mut a, &mut c), entity),
        Err(error::Remove::MissingPackStorage(StorageId::Custom(1)))
    );
    assert_eq!(
        Remove::<(u32, u8)>::try_remove((&mut c, &mut a), entity),
        Err(error::Remove::MissingPackStorage(StorageId::Custom(1)))
    );
    assert_eq!(a.len(), 1);
    assert_eq!(c.len(), 1);
}

#[test]
fn dead_entity_takes_no_component() {
    let mut entities = Entities::new();
    let mut a: SparseSet<u8> = SparseSet::new(StorageId::Custom(1));
    let mut b: SparseSet<u16> = SparseSet::new(StorageId::Custom(2));
    let id1 = entities.allocate();
    entities.kill(id1);
    let id2 = entities.allocate();
    assert_eq!(id1.index(), id2.index());
    assert_eq!(
        (&mut a).try_add_component(1, id1, &entities),
        Err(error::AddComponent::EntityIsNotAlive)
    );
    assert_eq!(
        (&mut a,).try_add_component((1,), id1, &entities),
        Err(error::AddComponent::EntityIsNotAlive)
    );
    assert_eq!(
        (&mut a, &mut b).try_add_component((1, 2), id1, &entities),
        Err(error::AddComponent::EntityIsNotAlive)
    );
    assert_eq!(
        AddComponent::<(u8,)>::try_add_component((&mut a, &mut b), (1,), id1, &entities),
        Err(error::AddComponent::EntityIsNotAlive)
    );
    assert!(a.is_empty());
    assert!(b.is_empty());
    assert_eq!((&mut a).try_add_component(1, id2, &entities), Ok(()));
    assert_eq!(a.get(id2), Some(&1));
    assert_eq!(a.get(id1), None);
}

#[test]
fn observed_storage_needs_its_observer() {
    let mut entities = Entities::new();
    let mut a: SparseSet<u8> = SparseSet::new(StorageId::Custom(1));
    let mut b: SparseSet<u16> = SparseSet::new(StorageId::Custom(2));
    b.insert(7, EntityId::new(0, 0));
    loose_pack(&mut a, &mut b).unwrap();
    assert_eq!(b.pack_info().observer_types, vec![StorageId::Custom(1)]);
    let entity = entities.allocate();
    assert_eq!(entity, EntityId::new(0, 0));
    assert_eq!(
        (&mut b).try_add_component(1, entity, &entities),
        Err(error::AddComponent::MissingPackStorage(StorageId::Custom(2)))
    );
    assert_eq!(
        (&mut a).try_add_component(1, entity, &entities),
        Err(error::AddComponent::MissingPackStorage(StorageId::Custom(1)))
    );
    // a is loose-packed over b, which holds the entity: packed at once
    AddComponent::<(u8,)>::try_add_component((&mut a, &mut b), (1,), entity, &entities).unwrap();
    assert_eq!(prefix(&a), vec![entity]);
    // the entity leaves b: a is told and unpacks it
    let old = Remove::<(u16,)>::try_remove((&mut b, &mut a), entity).unwrap();
    assert_eq!(old, (Some(OldComponent::Owned(7)),));
    assert_eq!(packed_len(&a), 0);
    assert!(a.contains(entity));
}

#[test]
fn loose_pack_gathers_what_the_other_holds() {
    let mut a: SparseSet<u8> = SparseSet::new(StorageId::Custom(1));
    let mut b: SparseSet<u16> = SparseSet::new(StorageId::Custom(2));
    for index in 0..5 {
        a.insert(index as u8, EntityId::new(index, 0));
    }
    for index in [4, 2, 9] {
        b.insert(index as u16, EntityId::new(index, 0));
    }
    loose_pack(&mut a, &mut b).unwrap();
    let mut packed = prefix(&a);
    packed.sort_by_key(|entity| entity.index());
    assert_eq!(packed, vec![EntityId::new(2, 0), EntityId::new(4, 0)]);
    assert_eq!(
        b.as_ids(),
        &[EntityId::new(4, 0), EntityId::new(2, 0), EntityId::new(9, 0)]
    );
    match &a.pack_info().pack {
        Pack::Loose(pack) => {
            assert_eq!(pack.tight_types, vec![StorageId::Custom(1)]);
            assert_eq!(pack.loose_types, vec![StorageId::Custom(2)]);
        }
        _ => panic!("not loose"),
    }
}

#[test]
fn packable_asks_for_every_storage_of_the_pack() {
    let (a, b, c) = (
        StorageId::Custom(1),
        StorageId::Custom(2),
        StorageId::TypeId(3),
    );
    let tight = TightPack::new(vec![a, b]);
    assert_eq!(tight.is_packable(&[a, b]), Ok(&[a, b][..]));
    assert_eq!(tight.is_packable(&[c, b, a]), Ok(&[a, b][..]));
    assert_eq!(tight.is_packable(&[a, c]), Err(()));
    assert_eq!(tight.is_packable(&[]), Err(()));
    assert!(tight.has_all_storages(&[a], &[b]));
    assert!(!tight.has_all_storages(&[a], &[c]));

    let loose = LoosePack::new(vec![a], vec![b, c]);
    assert_eq!(loose.is_packable(&[a, b, c]), Ok(&[a][..]));
    assert_eq!(loose.is_packable(&[a, b]), Err(()));
    assert_eq!(loose.is_packable(&[b, c]), Err(()));
    assert!(loose.has_all_storages(&[a, b], &[c]));
    assert!(!loose.has_all_storages(&[a, b], &[]));

    let mut info: PackInfo<u8> = PackInfo::new();
    assert!(info.plain());
    assert!(info.has_all_storages(&[], &[]));
    info.observer_types.push(c);
    assert!(!info.plain());
    assert!(!info.has_all_storages(&[a], &[b]));
    assert!(info.has_all_storages(&[a], &[c]));
    info.pack = Pack::Tight(tight);
    assert!(!info.has_all_storages(&[a], &[c]));
    assert!(info.has_all_storages(&[a, b], &[c]));
}

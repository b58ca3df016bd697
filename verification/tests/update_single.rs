use shipyard::{AddComponent, AllStorages, Entities, EntityId, SparseSet, StorageId, ThreadId};

const THREAD: ThreadId = ThreadId(1);
const U32S: StorageId = StorageId::Custom(32);

fn add_entity(entities: &mut Entities, u32s: &mut SparseSet<u32>, component: u32) -> EntityId {
    let entity = entities.allocate();
    u32s.try_add_component(component, entity, entities).unwrap();
    entity
}

fn update_packed_world(components: &[u32]) -> (AllStorages<u32>, Vec<EntityId>) {
    let mut all_storages: AllStorages<u32> = AllStorages::new();
    all_storages.register(U32S);
    let mut storage = all_storages.take(U32S).unwrap();
    let mut keys = Vec::new();
    {
        let entities = all_storages.entities_mut(THREAD).unwrap();
        let u32s = storage.sparse_set_mut(THREAD).unwrap();
        u32s.try_update_pack().unwrap();
        for component in components {
            keys.push(add_entity(entities, u32s, *component));
        }
    }
    assert!(all_storages.put(storage).is_none());
    (all_storages, keys)
}

#[test]
fn basic() {
    let (mut all_storages, _) = update_packed_world(&[0, 1, 2]);
    let u32s = all_storages
        .storage_mut(U32S)
        .unwrap()
        .sparse_set_mut(THREAD)
        .unwrap();

    assert_eq!(u32s.try_inserted().unwrap().len(), 3);
    assert_eq!(u32s.try_modified().unwrap().len(), 0);
    assert_eq!(u32s.try_inserted_or_modified().unwrap().len(), 3);

    u32s.try_clear_inserted().unwrap();

    assert_eq!(u32s.try_inserted().unwrap().len(), 0);
    assert_eq!(u32s.try_modified().unwrap().len(), 0);
    assert_eq!(u32s.try_inserted_or_modified().unwrap().len(), 0);

    let mut vec = Vec::new();
    {
        let u32s = all_storages
            .storage(U32S)
            .unwrap()
            .sparse_set(THREAD)
            .unwrap();
        let iter = u32s.as_slice().iter();
        assert_eq!(iter.size_hint(), (3, Some(3)));
        iter.for_each(|&x| vec.push(x));

        assert_eq!(u32s.try_inserted().unwrap().len(), 0);
        assert_eq!(u32s.try_modified().unwrap().len(), 0);
        assert_eq!(u32s.try_inserted_or_modified().unwrap().len(), 0);
    }
    {
        let u32s = all_storages
            .storage_mut(U32S)
            .unwrap()
            .sparse_set_mut(THREAD)
            .unwrap();
        for i in 0..u32s.len() {
            let x = *u32s.value_at_mut(i);
            vec.push(x);
        }
        u32s.try_modified()
            .unwrap()
            .iter()
            .for_each(|&x| vec.push(x));
        for i in 0..u32s.len() {
            u32s.value_at_mut(i);
        }

        assert_eq!(u32s.try_inserted().unwrap().len(), 0);
        assert_eq!(u32s.try_modified().unwrap().len(), 3);
        assert_eq!(u32s.try_inserted_or_modified().unwrap().len(), 3);
    }

    assert_eq!(vec, vec![0, 1, 2, 0, 1, 2, 0, 1, 2]);
}

#[test]
fn with_id() {
    let (mut all_storages, keys) = update_packed_world(&[0, 1, 2]);
    let (key0, key1, key2) = (keys[0], keys[1], keys[2]);
    all_storages
        .storage_mut(U32S)
        .unwrap()
        .sparse_set_mut(THREAD)
        .unwrap()
        .try_clear_inserted()
        .unwrap();

    let mut vec = Vec::new();
    {
        let u32s = all_storages
            .storage(U32S)
            .unwrap()
            .sparse_set(THREAD)
            .unwrap();
        for i in 0..u32s.len() {
            vec.push((u32s.id_at(i), *u32s.value_at(i)));
        }
    }
    {
        let u32s = all_storages
            .storage_mut(U32S)
            .unwrap()
            .sparse_set_mut(THREAD)
            .unwrap();
        for i in 0..u32s.len() {
            let id = u32s.id_at(i);
            let x = *u32s.value_at_mut(i);
            vec.push((id, x));
        }
        let ids = u32s.try_modified_ids().unwrap();
        let values = u32s.try_modified().unwrap();
        for (id, &x) in ids.iter().zip(values.iter()) {
            vec.push((*id, x));
        }
    }

    assert_eq!(
        vec,
        vec![
            (key0, 0),
            (key1, 1),
            (key2, 2),
            (key0, 0),
            (key1, 1),
            (key2, 2),
            (key0, 0),
            (key1, 1),
            (key2, 2)
        ]
    );
}

#[test]
fn map() {
    let (mut all_storages, _) = update_packed_world(&[0, 1, 2]);
    all_storages
        .storage_mut(U32S)
        .unwrap()
        .sparse_set_mut(THREAD)
        .unwrap()
        .try_clear_inserted()
        .unwrap();

    let mut vec = Vec::new();
    {
        let u32s = all_storages
            .storage(U32S)
            .unwrap()
            .sparse_set(THREAD)
            .unwrap();
        u32s.as_slice()
            .iter()
            .map(|x| *x + 10)
            .for_each(|x| vec.push(x));
    }
    {
        let u32s = all_storages
            .storage_mut(U32S)
            .unwrap()
            .sparse_set_mut(THREAD)
            .unwrap();
        for i in 0..u32s.len() {
            let x = *u32s.value_at_mut(i) + 1;
            vec.push(x);
        }
        u32s.try_modified()
            .unwrap()
            .iter()
            .for_each(|&x| vec.push(x));
    }

    assert_eq!(vec, vec![10, 11, 12, 1, 2, 3, 0, 1, 2]);
}

#[test]
fn single_filter() {
    let (mut all_storages, _) = update_packed_world(&[0, 1, 2]);
    let u32s = all_storages
        .storage_mut(U32S)
        .unwrap()
        .sparse_set_mut(THREAD)
        .unwrap();
    u32s.try_clear_inserted().unwrap();

    assert_eq!(u32s.as_slice().iter().size_hint(), (3, Some(3)));
    assert_eq!(
        u32s.as_slice()
            .iter()
            .filter(|&&x| x % 2 == 0)
            .collect::<Vec<_>>(),
        vec![&0, &2]
    );
    let mut odd = Vec::new();
    for i in 0..u32s.len() {
        if *u32s.value_at(i) % 2 != 0 {
            odd.push(*u32s.value_at_mut(i));
        }
    }
    assert_eq!(odd, vec![1]);
    assert_eq!(
        u32s.try_modified().unwrap().iter().collect::<Vec<_>>(),
        vec![&1]
    );
}

#[test]
fn enumerate_map_filter_with_id() {
    let (mut all_storages, keys) = update_packed_world(&[10, 11, 12]);
    let (key0, key2) = (keys[0], keys[2]);
    let u32s = all_storages
        .storage_mut(U32S)
        .unwrap()
        .sparse_set_mut(THREAD)
        .unwrap();
    u32s.try_clear_inserted().unwrap();

    let mut vec = Vec::new();
    let mut modified = Vec::new();
    for i in 0..u32s.len() {
        let id = u32s.id_at(i);
        let x = *u32s.value_at_mut(i);
        let i = i * 3;
        if i % 2 == 0 {
            vec.push((i, id, x));
        }
    }
    u32s.try_modified()
        .unwrap()
        .iter()
        .for_each(|&x| modified.push(x));

    assert_eq!(vec, vec![(0, key0, 10), (6, key2, 12)]);
    assert_eq!(modified, vec![10, 11, 12]);
}

#[test]
fn enumerate_filter_map_with_id() {
    let (mut all_storages, keys) = update_packed_world(&[10, 11, 12]);
    let (key0, key2) = (keys[0], keys[2]);
    let u32s = all_storages
        .storage_mut(U32S)
        .unwrap()
        .sparse_set_mut(THREAD)
        .unwrap();
    u32s.try_clear_inserted().unwrap();

    let mut vec = Vec::new();
    let mut modified = Vec::new();
    for i in 0..u32s.len() {
        if i % 2 == 0 {
            let id = u32s.id_at(i);
            let x = *u32s.value_at_mut(i);
            vec.push((i * 3, id, x));
        }
    }
    u32s.try_modified()
        .unwrap()
        .iter()
        .for_each(|&x| modified.push(x));

    assert_eq!(vec, vec![(0, key0, 10), (6, key2, 12)]);
    assert_eq!(modified, vec![10, 12]);
}

use shipyard::{EntityId, Storage, StorageId, ThreadId};

#[test]
fn delete() {
    let thread = ThreadId(0);
    let mut storage = Storage::<&'static str>::new(StorageId::Custom(0));
    let mut entity_id = EntityId::zero();
    let mut storage_to_unpack = Vec::new();
    entity_id.set_index(5);
    storage.sparse_set_mut(thread).unwrap().insert("test5", entity_id);
    entity_id.set_index(10);
    storage
        .sparse_set_mut(thread)
        .unwrap()
        .insert("test10", entity_id);
    entity_id.set_index(1);
    storage.sparse_set_mut(thread).unwrap().insert("test1", entity_id);
    entity_id.set_index(5);
    storage
        .delete(entity_id, &mut storage_to_unpack, thread)
        .unwrap();
    assert_eq!(storage.sparse_set(thread).unwrap().get(entity_id), None);
    entity_id.set_index(10);
    assert_eq!(
        storage.sparse_set(thread).unwrap().get(entity_id),
        Some(&"test10")
    );
    entity_id.set_index(1);
    assert_eq!(
        storage.sparse_set(thread).unwrap().get(entity_id),
        Some(&"test1")
    );
    entity_id.set_index(10);
    storage
        .delete(entity_id, &mut storage_to_unpack, thread)
        .unwrap();
    entity_id.set_index(1);
    storage
        .delete(entity_id, &mut storage_to_unpack, thread)
        .unwrap();
    entity_id.set_index(5);
    assert_eq!(storage.sparse_set(thread).unwrap().get(entity_id), None);
    entity_id.set_index(10);
    assert_eq!(storage.sparse_set(thread).unwrap().get(entity_id), None);
    entity_id.set_index(1);
    assert_eq!(storage.sparse_set(thread).unwrap().get(entity_id), None);
}

use shipyard::atomic_refcell::{AtomicRefCell, BorrowState};
use shipyard::error;
use shipyard::{AllStorages, EntityId, Storage, StorageId, ThreadId, UnknownStorage};

const HERE: ThreadId = ThreadId(1);
const THERE: ThreadId = ThreadId(2);

#[test]
fn borrow_state_counts_shared_borrowers() {
    let mut state = BorrowState::new();
    assert!(state.is_unused());
    assert_eq!(state.try_borrow(true), Ok(()));
    assert_eq!(state.try_borrow(true), Ok(()));
    assert!(!state.is_unused());
    assert_eq!(state.try_borrow_mut(), Err(error::Borrow::Exclusive));
    assert!(state.release());
    assert_eq!(state.try_borrow_mut(), Err(error::Borrow::Exclusive));
    assert!(state.release());
    assert!(!state.release());
    assert!(state.is_unused());
    assert_eq!(state.try_borrow_mut(), Ok(()));
    assert!(state.is_exclusive());
    assert_eq!(state.try_borrow(true), Err(error::Borrow::Shared));
    assert_eq!(state.try_borrow_mut(), Err(error::Borrow::Exclusive));
    assert!(!state.release());
    assert!(state.release_mut());
    assert!(!state.release_mut());
    assert_eq!(state.try_borrow(true), Ok(()));
}

#[test]
fn non_sync_cell_takes_one_borrower() {
    let mut cell = AtomicRefCell::new(5u32, None, false);
    assert_eq!(cell.acquire(HERE), Ok(()));
    assert_eq!(cell.acquire(HERE), Err(error::Borrow::Shared));
    assert_eq!(cell.acquire(THERE), Err(error::Borrow::Shared));
    assert_eq!(cell.acquire_mut(HERE), Err(error::Borrow::Exclusive));
    assert!(cell.release());
    assert_eq!(cell.acquire(THERE), Ok(()));
}

#[test]
fn bound_cell_refuses_other_threads() {
    let mut cell = AtomicRefCell::new(5u32, Some(HERE), true);
    assert_eq!(cell.try_borrow(THERE), Err(error::Borrow::WrongThread));
    assert_eq!(cell.check_shared(THERE), Err(error::Borrow::WrongThread));
    assert_eq!(cell.check_exclusive(THERE), Err(error::Borrow::WrongThread));
    assert_eq!(cell.acquire(THERE), Err(error::Borrow::WrongThread));
    assert_eq!(cell.acquire_mut(THERE), Err(error::Borrow::WrongThread));
    assert!(cell.try_borrow_mut(THERE).is_err());
    assert_eq!(cell.try_borrow(HERE), Ok(&5));
    *cell.try_borrow_mut(HERE).unwrap() = 6;
    assert_eq!(cell.try_borrow(HERE), Ok(&6));
    assert_eq!(cell.acquire(HERE), Ok(()));
    assert_eq!(cell.acquire(HERE), Ok(()));
    assert_eq!(cell.try_borrow(HERE), Ok(&6));
    assert!(cell.try_borrow_mut(HERE).is_err());
    assert_eq!(cell.check_exclusive(HERE), Err(error::Borrow::Exclusive));
}

#[test]
fn exclusive_borrower_shuts_everyone_out() {
    let mut cell = AtomicRefCell::new(5u32, None, true);
    assert_eq!(cell.acquire_mut(HERE), Ok(()));
    assert_eq!(cell.try_borrow(HERE), Err(error::Borrow::Shared));
    assert_eq!(cell.try_borrow(THERE), Err(error::Borrow::Shared));
    assert_eq!(cell.acquire(THERE), Err(error::Borrow::Shared));
    assert_eq!(cell.acquire_mut(THERE), Err(error::Borrow::Exclusive));
    assert!(!cell.release());
    assert!(cell.release_mut());
    assert_eq!(cell.try_borrow(THERE), Ok(&5));
}

#[test]
fn storage_reports_its_id_with_a_refusal() {
    let id = StorageId::Custom(4);
    let mut storage: Storage<u32> = Storage::new(id);
    assert_eq!(storage.id(), id);
    assert!(storage.sparse_set(HERE).is_ok());
    assert_eq!(
        storage.unique(HERE),
        Err(error::GetStorage::NonUnique(id, error::Borrow::Shared))
    );
    assert_eq!(
        storage.unique_mut(HERE),
        Err(error::GetStorage::NonUnique(id, error::Borrow::Exclusive))
    );
    assert_eq!(storage.acquire(HERE), Ok(()));
    assert!(storage.sparse_set(HERE).is_ok());
    assert_eq!(
        storage.sparse_set_mut(HERE).err(),
        Some(error::GetStorage::StorageBorrow(id, error::Borrow::Exclusive))
    );
    let mut storage_to_unpack = Vec::new();
    assert_eq!(
        storage.delete(EntityId::zero(), &mut storage_to_unpack, HERE),
        Err(error::Borrow::Exclusive)
    );
    assert_eq!(
        storage.unpack(EntityId::zero(), HERE),
        Err(error::Borrow::Exclusive)
    );
    assert_eq!(storage.clear(HERE), Err(error::Borrow::Exclusive));
    assert!(storage.release());
    assert_eq!(storage.acquire_mut(HERE), Ok(()));
    assert_eq!(
        storage.sparse_set(HERE).err(),
        Some(error::GetStorage::StorageBorrow(id, error::Borrow::Shared))
    );
    assert_eq!(storage.cell_check_shared(HERE), Err(error::Borrow::Shared));
    assert!(storage.release_mut());
    assert!(storage.sparse_set_mut(HERE).is_ok());
}

#[test]
fn unique_storage_holds_one_value() {
    let id = StorageId::TypeId(9);
    let mut storage: Storage<u32> = Storage::new_unique(id, 7);
    assert_eq!(storage.unique(HERE), Ok(&7));
    *storage.unique_mut(HERE).unwrap() += 1;
    assert_eq!(storage.unique(THERE), Ok(&8));
    assert_eq!(
        storage.sparse_set(HERE).err(),
        Some(error::GetStorage::Unique(id, error::Borrow::Shared))
    );
    assert_eq!(
        storage.sparse_set_mut(HERE).err(),
        Some(error::GetStorage::Unique(id, error::Borrow::Exclusive))
    );
    let mut storage_to_unpack = Vec::new();
    assert_eq!(
        storage.delete(EntityId::zero(), &mut storage_to_unpack, HERE),
        Ok(())
    );
    assert_eq!(storage.clear(HERE), Ok(()));
    assert_eq!(storage.unique(HERE), Ok(&8));
    assert!(storage_to_unpack.is_empty());
}

#[test]
fn storage_flavours() {
    let id = StorageId::Custom(1);
    let non_send: Storage<u32> = Storage::new_non_send(id, HERE);
    assert!(non_send.sparse_set(HERE).is_ok());
    assert_eq!(
        non_send.sparse_set(THERE).err(),
        Some(error::GetStorage::StorageBorrow(id, error::Borrow::WrongThread))
    );
    let mut non_sync: Storage<u32> = Storage::new_non_sync(id);
    assert!(non_sync.sparse_set(THERE).is_ok());
    assert_eq!(non_sync.acquire(HERE), Ok(()));
    assert_eq!(
        non_sync.sparse_set(HERE).err(),
        Some(error::GetStorage::StorageBorrow(id, error::Borrow::Shared))
    );
    let mut non_send_sync: Storage<u32> = Storage::new_non_send_sync(id, HERE);
    assert!(non_send_sync.sparse_set_mut(THERE).is_err());
    assert!(non_send_sync.sparse_set_mut(HERE).is_ok());
    assert_eq!(non_send_sync.acquire(HERE), Ok(()));
    assert_eq!(non_send_sync.acquire(HERE), Err(error::Borrow::Shared));

    let unique: Storage<u32> = Storage::new_unique_non_send(id, 1, HERE);
    assert_eq!(
        unique.unique(THERE),
        Err(error::GetStorage::StorageBorrow(id, error::Borrow::WrongThread))
    );
    assert_eq!(unique.unique(HERE), Ok(&1));
    let mut unique: Storage<u32> = Storage::new_unique_non_sync(id, 2);
    assert_eq!(unique.acquire(THERE), Ok(()));
    assert_eq!(
        unique.unique(HERE),
        Err(error::GetStorage::StorageBorrow(id, error::Borrow::Shared))
    );
    let mut unique: Storage<u32> = Storage::new_unique_non_send_sync(id, 3, HERE);
    assert!(unique.unique_mut(THERE).is_err());
    assert_eq!(unique.unique_mut(HERE).map(|value| *value), Ok(3));

    let mut entities: Storage<u32> = Storage::new_entities(id);
    let first = entities.entities_mut(HERE).unwrap().allocate();
    assert!(entities.entities(THERE).unwrap().is_alive(first));
    assert_eq!(entities.clear(HERE), Ok(()));
    assert!(!entities.entities(THERE).unwrap().is_alive(first));
}

#[test]
fn unknown_storage_tells_its_shapes_apart() {
    let mut unique: UnknownStorage<u32> = UnknownStorage::Unique(3);
    assert!(unique.sparse_set().is_none());
    assert!(unique.sparse_set_mut().is_none());
    assert!(unique.entities().is_none());
    assert!(unique.entities_mut().is_none());
    assert_eq!(unique.unique(), Some(&3));
    *unique.unique_mut().unwrap() = 4;
    assert_eq!(unique.unique(), Some(&4));
    unique.unpack(EntityId::zero());
    unique.clear();
    assert_eq!(unique.unique(), Some(&4));

    let mut set: UnknownStorage<u32> =
        UnknownStorage::SparseSet(shipyard::SparseSet::new(StorageId::Custom(0)));
    assert!(set.unique().is_none());
    assert!(set.unique_mut().is_none());
    assert!(set.entities().is_none());
    set.sparse_set_mut().unwrap().insert(1, EntityId::zero());
    assert_eq!(set.sparse_set().unwrap().len(), 1);
    let mut storage_to_unpack = Vec::new();
    set.delete(EntityId::zero(), &mut storage_to_unpack);
    assert_eq!(set.sparse_set().unwrap().len(), 0);

    let mut entities: UnknownStorage<u32> = UnknownStorage::Entities(shipyard::Entities::new());
    assert!(entities.sparse_set().is_none());
    assert!(entities.unique().is_none());
    let id = entities.entities_mut().unwrap().allocate();
    assert!(entities.entities().unwrap().is_alive(id));
    entities.delete(id, &mut storage_to_unpack);
    assert!(entities.entities().unwrap().is_alive(id));
    entities.clear();
    assert!(!entities.entities().unwrap().is_alive(id));
}

#[test]
fn registry_keeps_storages_in_order() {
    let mut all_storages: AllStorages<u32> = AllStorages::new();
    let ids = [
        StorageId::TypeId(5),
        StorageId::Custom(9),
        StorageId::TypeId(1),
        StorageId::Custom(2),
    ];
    for id in ids {
        assert!(all_storages.register(id));
    }
    assert!(!all_storages.register(ids[0]));
    assert_eq!(all_storages.len(), 4);
    assert_eq!(all_storages.find(StorageId::Custom(2)), Ok(0));
    assert_eq!(all_storages.find(StorageId::Custom(9)), Ok(1));
    assert_eq!(all_storages.find(StorageId::TypeId(1)), Ok(2));
    assert_eq!(all_storages.find(StorageId::TypeId(5)), Ok(3));
    assert_eq!(all_storages.find(StorageId::Custom(3)), Err(1));
    assert_eq!(all_storages.find(StorageId::TypeId(9)), Err(4));
    assert!(all_storages.contains(StorageId::TypeId(1)));
    assert!(!all_storages.contains(StorageId::TypeId(2)));
    assert!(all_storages.storage(StorageId::TypeId(2)).is_none());
    assert!(all_storages.storage_mut(StorageId::TypeId(2)).is_none());
    assert!(all_storages.take(StorageId::TypeId(2)).is_none());

    assert_eq!(all_storages.register_unique(StorageId::Custom(5), 50), None);
    assert_eq!(all_storages.register_unique(StorageId::Custom(5), 51), Some(51));
    assert_eq!(all_storages.register_unique(StorageId::Custom(9), 52), Some(52));
    assert_eq!(all_storages.find(StorageId::Custom(5)), Ok(1));
    assert_eq!(
        all_storages
            .storage(StorageId::Custom(5))
            .unwrap()
            .unique(HERE),
        Ok(&50)
    );
    let taken = all_storages.take(StorageId::Custom(9)).unwrap();
    assert_eq!(taken.id(), StorageId::Custom(9));
    assert_eq!(all_storages.len(), 4);
    assert!(!all_storages.contains(StorageId::Custom(9)));
    assert!(all_storages.put(taken).is_none());
    assert_eq!(all_storages.find(StorageId::Custom(9)), Ok(2));
    let twice: Storage<u32> = Storage::new(StorageId::Custom(9));
    assert!(all_storages.put(twice).is_some());
    assert_eq!(all_storages.len(), 5);
}

#[test]
fn registry_delete_and_clear_write_nothing_when_refused() {
    let mut all_storages: AllStorages<u32> = AllStorages::new();
    let (a, b) = (StorageId::Custom(1), StorageId::Custom(2));
    all_storages.register(a);
    all_storages.register(b);
    let entity = all_storages.entities_mut(HERE).unwrap().allocate();
    for id in [a, b] {
        all_storages
            .storage_mut(id)
            .unwrap()
            .sparse_set_mut(HERE)
            .unwrap()
            .insert(3, entity);
    }
    assert_eq!(all_storages.storage_mut(b).unwrap().acquire(THERE), Ok(()));
    assert_eq!(all_storages.check_exclusive(HERE), Err(error::Borrow::Exclusive));
    assert_eq!(all_storages.delete(entity, HERE), Err(error::Borrow::Exclusive));
    assert_eq!(all_storages.clear(HERE), Err(error::Borrow::Exclusive));
    assert!(all_storages.entities(HERE).unwrap().is_alive(entity));
    for id in [a, b] {
        assert!(all_storages
            .storage(id)
            .unwrap()
            .sparse_set(HERE)
            .unwrap()
            .contains(entity));
    }
    assert!(all_storages.storage_mut(b).unwrap().release());
    assert_eq!(all_storages.check_exclusive(HERE), Ok(()));
    let second = all_storages.entities_mut(HERE).unwrap().allocate();
    all_storages
        .storage_mut(a)
        .unwrap()
        .sparse_set_mut(HERE)
        .unwrap()
        .insert(4, second);
    assert_eq!(all_storages.delete(entity, HERE), Ok(true));
    assert!(all_storages
        .storage(a)
        .unwrap()
        .sparse_set(HERE)
        .unwrap()
        .contains(second));
    assert_eq!(all_storages.clear(HERE), Ok(()));
    assert!(!all_storages.entities(HERE).unwrap().is_alive(second));
    for id in [a, b] {
        assert!(all_storages
            .storage(id)
            .unwrap()
            .sparse_set(HERE)
            .unwrap()
            .is_empty());
    }
}

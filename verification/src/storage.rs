//! A storage: a cell with borrow arbitration around a component
//! container, a unique value or the entity table.

use crate::atomic_refcell::{AtomicRefCell, Borrowing, ThreadId};
use crate::entities::Entities;
use crate::entity_id::EntityId;
use crate::error;
use crate::sparse_set::SparseSet;
use crate::storage_id::StorageId;
use crate::unknown_storage::UnknownStorage;
use vstd::prelude::*;

verus! {

/// One storage of a world, known under an id.
pub struct Storage<T> {
    id: StorageId,
    cell: AtomicRefCell<UnknownStorage<T>>,
}

impl<T> Storage<T> {
    /// Id under which the storage is known.
    pub closed spec fn storage_id(&self) -> StorageId {
        self.id
    }

    /// The cell that arbitrates the borrows of the storage.
    pub closed spec fn cell(&self) -> AtomicRefCell<UnknownStorage<T>> {
        self.cell
    }

    /// What the storage holds.
    pub open spec fn content(&self) -> UnknownStorage<T> {
        self.cell().value()
    }

    /// Invariant of the storage: the content is well-formed, and a
    /// component container is known under the id of the storage.
    pub open spec fn wf(&self) -> bool {
        &&& self.content().wf()
        &&& self.content() matches UnknownStorage::SparseSet(set) ==> set.storage_id()
            == self.storage_id()
    }

    /// Nobody holds the storage and any thread may borrow it, any number
    /// of threads at once to read.
    pub open spec fn open_to_all(&self) -> bool {
        &&& self.cell().held() == Borrowing::Unused
        &&& self.cell().affinity() == None::<ThreadId>
        &&& self.cell().sync()
    }

    /// The storage is an empty component container known under `id`,
    /// neither packed nor observed, that nobody holds and any thread may
    /// borrow.
    pub open spec fn new_container(&self, id: StorageId) -> bool {
        &&& self.wf()
        &&& self.storage_id() == id
        &&& self.open_to_all()
        &&& self.content() matches UnknownStorage::SparseSet(set) && set.ids().len() == 0
            && set.pack_view().is_plain() && set@ == Map::<EntityId, T>::empty()
    }

    /// Whether the storage is `earlier` but for its content.
    pub open spec fn same_cell(&self, earlier: &Storage<T>) -> bool {
        &&& self.storage_id() == earlier.storage_id()
        &&& self.cell().same_access(&earlier.cell())
    }

    /// Takes the storage apart and hands out what it holds.
    pub fn into_content(self) -> (content: UnknownStorage<T>)
        ensures
            content == self.content(),
    {
        self.cell.into_inner()
    }

    /// A storage around `content` that nobody holds, bound to the thread
    /// `send` if any, for several readers at once if `is_sync`.
    pub fn with(id: StorageId, content: UnknownStorage<T>, send: Option<ThreadId>, is_sync: bool) -> (storage:
        Storage<T>)
        ensures
            storage.storage_id() == id,
            storage.content() == content,
            storage.cell().held() == Borrowing::Unused,
            storage.cell().affinity() == send,
            storage.cell().sync() == is_sync,
    {
        Storage { id, cell: AtomicRefCell::new(content, send, is_sync) }
    }

    /// An empty component container that any thread may borrow.
    pub fn new(id: StorageId) -> (storage: Storage<T>)
        ensures
            storage.new_container(id),
            storage.wf(),
            storage.storage_id() == id,
            storage.content() matches UnknownStorage::SparseSet(set) && set.ids().len() == 0
                && set.pack_view().is_plain() && set@ == Map::<EntityId, T>::empty(),
            storage.cell().held() == Borrowing::Unused,
            storage.cell().affinity() == None::<ThreadId>,
            storage.cell().sync(),
    {
        Storage::with(id, UnknownStorage::SparseSet(SparseSet::new(id)), None, true)
    }

    /// An empty component container bound to the thread of the world.
    pub fn new_non_send(id: StorageId, world_thread_id: ThreadId) -> (storage: Storage<T>)
        ensures
            storage.wf(),
            storage.storage_id() == id,
            storage.content() matches UnknownStorage::SparseSet(set) && set.ids().len() == 0
                && set.pack_view().is_plain() && set@ == Map::<EntityId, T>::empty(),
            storage.cell().held() == Borrowing::Unused,
            storage.cell().affinity() == Some(world_thread_id),
            storage.cell().sync(),
    {
        Storage::with(
            id,
            UnknownStorage::SparseSet(SparseSet::new(id)),
            Some(world_thread_id),
            true,
        )
    }

    /// An empty component container that takes one borrower at a time.
    pub fn new_non_sync(id: StorageId) -> (storage: Storage<T>)
        ensures
            storage.wf(),
            storage.storage_id() == id,
            storage.content() matches UnknownStorage::SparseSet(set) && set.ids().len() == 0
                && set.pack_view().is_plain() && set@ == Map::<EntityId, T>::empty(),
            storage.cell().held() == Borrowing::Unused,
            storage.cell().affinity() == None::<ThreadId>,
            !storage.cell().sync(),
    {
        Storage::with(id, UnknownStorage::SparseSet(SparseSet::new(id)), None, false)
    }

    /// An empty component container bound to the thread of the world,
    /// that takes one borrower at a time.
    pub fn new_non_send_sync(id: StorageId, world_thread_id: ThreadId) -> (storage: Storage<T>)
        ensures
            storage.wf(),
            storage.storage_id() == id,
            storage.content() matches UnknownStorage::SparseSet(set) && set.ids().len() == 0
                && set.pack_view().is_plain() && set@ == Map::<EntityId, T>::empty(),
            storage.cell().held() == Borrowing::Unused,
            storage.cell().affinity() == Some(world_thread_id),
            !storage.cell().sync(),
    {
        Storage::with(
            id,
            UnknownStorage::SparseSet(SparseSet::new(id)),
            Some(world_thread_id),
            false,
        )
    }

    /// A unique value that any thread may borrow.
    pub fn new_unique(id: StorageId, component: T) -> (storage: Storage<T>)
        ensures
            storage.open_to_all(),
            storage.wf(),
            storage.storage_id() == id,
            storage.content() == UnknownStorage::Unique(component),
            storage.cell().held() == Borrowing::Unused,
            storage.cell().affinity() == None::<ThreadId>,
            storage.cell().sync(),
    {
        Storage::with(id, UnknownStorage::Unique(component), None, true)
    }

    /// A unique value bound to the thread of the world.
    pub fn new_unique_non_send(id: StorageId, component: T, world_thread_id: ThreadId) -> (storage:
        Storage<T>)
        ensures
            storage.wf(),
            storage.storage_id() == id,
            storage.content() == UnknownStorage::Unique(component),
            storage.cell().held() == Borrowing::Unused,
            storage.cell().affinity() == Some(world_thread_id),
            storage.cell().sync(),
    {
        Storage::with(id, UnknownStorage::Unique(component), Some(world_thread_id), true)
    }

    /// A unique value that takes one borrower at a time.
    pub fn new_unique_non_sync(id: StorageId, component: T) -> (storage: Storage<T>)
        ensures
            storage.wf(),
            storage.storage_id() == id,
            storage.content() == UnknownStorage::Unique(component),
            storage.cell().held() == Borrowing::Unused,
            storage.cell().affinity() == None::<ThreadId>,
            !storage.cell().sync(),
    {
        Storage::with(id, UnknownStorage::Unique(component), None, false)
    }

    /// A unique value bound to the thread of the world, that takes one
    /// borrower at a time.
    pub fn new_unique_non_send_sync(id: StorageId, component: T, world_thread_id: ThreadId) -> (storage:
        Storage<T>)
        ensures
            storage.wf(),
            storage.storage_id() == id,
            storage.content() == UnknownStorage::Unique(component),
            storage.cell().held() == Borrowing::Unused,
            storage.cell().affinity() == Some(world_thread_id),
            !storage.cell().sync(),
    {
        Storage::with(id, UnknownStorage::Unique(component), Some(world_thread_id), false)
    }

    /// An empty entity table that any thread may borrow.
    pub fn new_entities(id: StorageId) -> (storage: Storage<T>)
        ensures
            storage.open_to_all(),
            storage.wf(),
            storage.storage_id() == id,
            storage.content() matches UnknownStorage::Entities(entities) && entities@.slots.len()
                == 0 && entities@.free.len() == 0,
            storage.cell().held() == Borrowing::Unused,
            storage.cell().affinity() == None::<ThreadId>,
            storage.cell().sync(),
    {
        Storage::with(id, UnknownStorage::Entities(Entities::new()), None, true)
    }

    /// What an exclusive borrow of the storage from `thread` gets.
    pub fn cell_check_exclusive(&self, thread: ThreadId) -> (granted: Result<(), error::Borrow>)
        ensures
            granted == self.cell().exclusive_access(thread),
    {
        self.cell.check_exclusive(thread)
    }

    /// What a shared borrow of the storage from `thread` gets.
    pub fn cell_check_shared(&self, thread: ThreadId) -> (granted: Result<(), error::Borrow>)
        ensures
            granted == self.cell().shared_access(thread),
    {
        self.cell.check_shared(thread)
    }

    /// Id under which the storage is known.
    pub fn id(&self) -> (id: StorageId)
        ensures
            id == self.storage_id(),
    {
        self.id
    }

    /// What borrowing the component container immutably gets.
    pub open spec fn sparse_set_outcome(&self, thread: ThreadId) -> Result<
        &SparseSet<T>,
        error::GetStorage,
    > {
        match self.cell().shared_access(thread) {
            Err(denied) => Err(error::GetStorage::StorageBorrow(self.storage_id(), denied)),
            Ok(_) => match self.content() {
                UnknownStorage::SparseSet(set) => Ok(&set),
                _ => Err(error::GetStorage::Unique(self.storage_id(), error::Borrow::Shared)),
            },
        }
    }

    /// Immutably borrows the component container.
    pub fn sparse_set(&self, thread: ThreadId) -> (set: Result<&SparseSet<T>, error::GetStorage>)
        ensures
            set == self.sparse_set_outcome(thread),
    {
        match self.cell.try_borrow(thread) {
            Err(denied) => Err(error::GetStorage::StorageBorrow(self.id, denied)),
            Ok(unknown) => match unknown.sparse_set() {
                Some(set) => Ok(set),
                None => Err(error::GetStorage::Unique(self.id, error::Borrow::Shared)),
            },
        }
    }

    /// The error that borrowing the component container mutably gets, if any.
    pub open spec fn sparse_set_mut_denied(&self, thread: ThreadId) -> Option<error::GetStorage> {
        match self.cell().exclusive_access(thread) {
            Err(denied) => Some(error::GetStorage::StorageBorrow(self.storage_id(), denied)),
            Ok(_) => match self.content() {
                UnknownStorage::SparseSet(_) => None,
                _ => Some(error::GetStorage::Unique(self.storage_id(), error::Borrow::Exclusive)),
            },
        }
    }

    /// Mutably borrows the component container.
    pub fn sparse_set_mut(&mut self, thread: ThreadId) -> (set: Result<
        &mut SparseSet<T>,
        error::GetStorage,
    >)
        ensures
            old(self).sparse_set_mut_denied(thread) matches Some(denied) ==> set == Err::<
                &mut SparseSet<T>,
                error::GetStorage,
            >(denied),
            old(self).sparse_set_mut_denied(thread) is None ==> set is Ok,
            final(self).same_cell(old(self)),
            set is Err ==> final(self).content() == old(self).content(),
            set matches Ok(inner) ==> *inner == old(self).content()->SparseSet_0 && final(self).content() == UnknownStorage::SparseSet(*final(inner)),
    {
        let id = self.id;
        match self.cell.try_borrow_mut(thread) {
            Err(denied) => Err(error::GetStorage::StorageBorrow(id, denied)),
            Ok(unknown) => match unknown.sparse_set_mut() {
                Some(set) => Ok(set),
                None => Err(error::GetStorage::Unique(id, error::Borrow::Exclusive)),
            },
        }
    }

    /// Immutably borrows the entity table of a storage that holds it.
    pub fn entities(&self, thread: ThreadId) -> (entities: Result<&Entities, error::Borrow>)
        requires
            self.content() is Entities,
        ensures
            entities == (match self.cell().shared_access(thread) {
                Err(denied) => Err::<&Entities, error::Borrow>(denied),
                Ok(_) => Ok(&self.content()->Entities_0),
            }),
    {
        match self.cell.try_borrow(thread) {
            Err(denied) => Err(denied),
            Ok(unknown) => Ok(unknown.entities().unwrap()),
        }
    }

    /// Mutably borrows the entity table of a storage that holds it.
    pub fn entities_mut(&mut self, thread: ThreadId) -> (entities: Result<
        &mut Entities,
        error::Borrow,
    >)
        requires
            old(self).content() is Entities,
        ensures
            old(self).cell().exclusive_access(thread) matches Err(denied) ==> entities == Err::<
                &mut Entities,
                error::Borrow,
            >(denied),
            old(self).cell().exclusive_access(thread) is Ok ==> entities is Ok,
            final(self).same_cell(old(self)),
            entities is Err ==> final(self).content() == old(self).content(),
            entities matches Ok(inner) ==> *inner == old(self).content()->Entities_0 && final(self).content() == UnknownStorage::<T>::Entities(*final(inner)),
    {
        match self.cell.try_borrow_mut(thread) {
            Err(denied) => Err(denied),
            Ok(unknown) => Ok(unknown.entities_mut().unwrap()),
        }
    }

    /// What borrowing the unique value immutably gets.
    pub open spec fn unique_outcome(&self, thread: ThreadId) -> Result<&T, error::GetStorage> {
        match self.cell().shared_access(thread) {
            Err(denied) => Err(error::GetStorage::StorageBorrow(self.storage_id(), denied)),
            Ok(_) => match self.content() {
                UnknownStorage::Unique(unique) => Ok(&unique),
                _ => Err(error::GetStorage::NonUnique(self.storage_id(), error::Borrow::Shared)),
            },
        }
    }

    /// Immutably borrows the unique value.
    pub fn unique(&self, thread: ThreadId) -> (unique: Result<&T, error::GetStorage>)
        ensures
            unique == self.unique_outcome(thread),
    {
        match self.cell.try_borrow(thread) {
            Err(denied) => Err(error::GetStorage::StorageBorrow(self.id, denied)),
            Ok(unknown) => match unknown.unique() {
                Some(unique) => Ok(unique),
                None => Err(error::GetStorage::NonUnique(self.id, error::Borrow::Shared)),
            },
        }
    }

    /// The error that borrowing the unique value mutably gets, if any.
    pub open spec fn unique_mut_denied(&self, thread: ThreadId) -> Option<error::GetStorage> {
        match self.cell().exclusive_access(thread) {
            Err(denied) => Some(error::GetStorage::StorageBorrow(self.storage_id(), denied)),
            Ok(_) => match self.content() {
                UnknownStorage::Unique(_) => None,
                _ => Some(
                    error::GetStorage::NonUnique(self.storage_id(), error::Borrow::Exclusive),
                ),
            },
        }
    }

    /// Mutably borrows the unique value.
    pub fn unique_mut(&mut self, thread: ThreadId) -> (unique: Result<&mut T, error::GetStorage>)
        ensures
            old(self).unique_mut_denied(thread) matches Some(denied) ==> unique == Err::<
                &mut T,
                error::GetStorage,
            >(denied),
            old(self).unique_mut_denied(thread) is None ==> unique is Ok,
            final(self).same_cell(old(self)),
            unique is Err ==> final(self).content() == old(self).content(),
            unique matches Ok(inner) ==> *inner == old(self).content()->Unique_0 && final(self).content() == UnknownStorage::Unique(*final(inner)),
    {
        let id = self.id;
        match self.cell.try_borrow_mut(thread) {
            Err(denied) => Err(error::GetStorage::StorageBorrow(id, denied)),
            Ok(unknown) => match unknown.unique_mut() {
                Some(unique) => Ok(unique),
                None => Err(error::GetStorage::NonUnique(id, error::Borrow::Exclusive)),
            },
        }
    }

    /// Mutably borrows the content and deletes `entity` from it; the
    /// storages to repair afterwards are appended to `storage_to_unpack`.
    pub fn delete(&mut self, entity: EntityId, storage_to_unpack: &mut Vec<StorageId>, thread: ThreadId) -> (done:
        Result<(), error::Borrow>)
        requires
            old(self).wf(),
        ensures
            final(self).wf(),
            final(self).same_cell(old(self)),
            done == old(self).cell().exclusive_access(thread),
            done is Err ==> final(self).content() == old(self).content() && final(storage_to_unpack)@ == old(storage_to_unpack)@,
            done is Ok ==> old(self).content().deleted(final(self).content(), entity) && final(storage_to_unpack)@ == old(storage_to_unpack)@ + old(self).content().siblings(),
    {
        match self.cell.try_borrow_mut(thread) {
            Err(denied) => Err(denied),
            Ok(unknown) => {
                unknown.delete(entity, storage_to_unpack);
                Ok(())
            },
        }
    }

    /// Mutably borrows the content and moves `entity` out of its packed prefix.
    pub fn unpack(&mut self, entity: EntityId, thread: ThreadId) -> (done: Result<(), error::Borrow>)
        requires
            old(self).wf(),
        ensures
            final(self).wf(),
            final(self).same_cell(old(self)),
            done == old(self).cell().exclusive_access(thread),
            done is Err ==> final(self).content() == old(self).content(),
            done is Ok ==> old(self).content().unpacked(final(self).content(), entity),
    {
        match self.cell.try_borrow_mut(thread) {
            Err(denied) => Err(denied),
            Ok(unknown) => {
                unknown.unpack(entity);
                Ok(())
            },
        }
    }

    /// Mutably borrows the content and clears it.
    pub fn clear(&mut self, thread: ThreadId) -> (done: Result<(), error::Borrow>)
        requires
            old(self).wf(),
        ensures
            final(self).wf(),
            final(self).same_cell(old(self)),
            done == old(self).cell().exclusive_access(thread),
            done is Err ==> final(self).content() == old(self).content(),
            done is Ok ==> old(self).content().cleared(final(self).content()),
    {
        match self.cell.try_borrow_mut(thread) {
            Err(denied) => Err(denied),
            Ok(unknown) => {
                unknown.clear();
                Ok(())
            },
        }
    }

    /// Registers a shared borrower from `thread` that stays until
    /// [`Storage::release`].
    pub fn acquire(&mut self, thread: ThreadId) -> (granted: Result<(), error::Borrow>)
        ensures
            granted == old(self).cell().shared_access(thread),
            final(self).storage_id() == old(self).storage_id(),
            final(self).content() == old(self).content(),
            final(self).cell().affinity() == old(self).cell().affinity(),
            final(self).cell().sync() == old(self).cell().sync(),
            final(self).cell().held() == (if granted is Ok {
                crate::atomic_refcell::shared_borrow(
                    old(self).cell().held(),
                    old(self).cell().sync(),
                )->Ok_0
            } else {
                old(self).cell().held()
            }),
    {
        self.cell.acquire(thread)
    }

    /// Registers the exclusive borrower from `thread`, who stays until
    /// [`Storage::release_mut`].
    pub fn acquire_mut(&mut self, thread: ThreadId) -> (granted: Result<(), error::Borrow>)
        ensures
            granted == old(self).cell().exclusive_access(thread),
            final(self).storage_id() == old(self).storage_id(),
            final(self).content() == old(self).content(),
            final(self).cell().affinity() == old(self).cell().affinity(),
            final(self).cell().sync() == old(self).cell().sync(),
            final(self).cell().held() == (if granted is Ok {
                Borrowing::Exclusive
            } else {
                old(self).cell().held()
            }),
    {
        self.cell.acquire_mut(thread)
    }

    /// Lets one registered shared borrower go and says whether there was one.
    pub fn release(&mut self) -> (released: bool)
        ensures
            released == (old(self).cell().held() is Shared),
            final(self).storage_id() == old(self).storage_id(),
            final(self).content() == old(self).content(),
            final(self).cell().affinity() == old(self).cell().affinity(),
            final(self).cell().sync() == old(self).cell().sync(),
            final(self).cell().held() == crate::atomic_refcell::shared_release(
                old(self).cell().held(),
            ),
    {
        self.cell.release()
    }

    /// Lets the registered exclusive borrower go and says whether there was one.
    pub fn release_mut(&mut self) -> (released: bool)
        ensures
            released == (old(self).cell().held() is Exclusive),
            final(self).storage_id() == old(self).storage_id(),
            final(self).content() == old(self).content(),
            final(self).cell().affinity() == old(self).cell().affinity(),
            final(self).cell().sync() == old(self).cell().sync(),
            final(self).cell().held() == crate::atomic_refcell::exclusive_release(
                old(self).cell().held(),
            ),
    {
        self.cell.release_mut()
    }
}

} // verus!

//! What a storage cell can hold, with the operations that need not know
//! which.

use crate::entities::Entities;
use crate::entity_id::EntityId;
use crate::sparse_set::SparseSet;
use crate::storage_id::StorageId;
use vstd::prelude::*;

verus! {

/// The content of a storage cell: one of three shapes.
pub enum UnknownStorage<T> {
    /// Components of entities.
    SparseSet(SparseSet<T>),
    /// A single value that belongs to the world, not to an entity.
    Unique(T),
    /// The entity table.
    Entities(Entities),
}

impl<T> UnknownStorage<T> {
    /// Invariant of the content.
    pub open spec fn wf(&self) -> bool {
        match self {
            UnknownStorage::SparseSet(set) => set.wf(),
            UnknownStorage::Unique(_) => true,
            UnknownStorage::Entities(entities) => entities.wf(),
        }
    }

    /// Whether a component container holds `entity`.
    pub open spec fn has(&self, entity: EntityId) -> bool {
        self matches UnknownStorage::SparseSet(set) && set.has(entity)
    }

    /// Whether `now` is the content after `entity` was deleted from it: a
    /// component container loses the component of `entity`, other
    /// contents stay.
    pub open spec fn deleted(self, now: UnknownStorage<T>, entity: EntityId) -> bool {
        match self {
            UnknownStorage::SparseSet(set) => now matches UnknownStorage::SparseSet(after)
                && after.model() == set.model().without(entity) && after.storage_id()
                == set.storage_id(),
            _ => now == self,
        }
    }

    /// Whether `now` is the content after everything was cleared: a
    /// component container is empty, every entity of an entity table is
    /// killed, a unique value stays.
    pub open spec fn cleared(self, now: UnknownStorage<T>) -> bool {
        match self {
            UnknownStorage::SparseSet(set) => now matches UnknownStorage::SparseSet(after)
                && after.model() == set.model().cleared() && after.storage_id()
                == set.storage_id(),
            UnknownStorage::Unique(_) => now == self,
            UnknownStorage::Entities(entities) => now matches UnknownStorage::Entities(after)
                && after@ == entities@.kill_all(entities@.slots.len() as int),
        }
    }

    /// Whether `now` is the content after `entity` was moved out of the
    /// packed prefix of a component container; other contents stay.
    pub open spec fn unpacked(self, now: UnknownStorage<T>, entity: EntityId) -> bool {
        match self {
            UnknownStorage::SparseSet(set) => now matches UnknownStorage::SparseSet(after)
                && after.model() == set.model().unpack_entity(entity) && after.storage_id()
                == set.storage_id(),
            _ => now == self,
        }
    }

    /// The storages to repair after an entity left this one.
    pub open spec fn siblings(&self) -> Seq<StorageId> {
        match self {
            UnknownStorage::SparseSet(set) => set.model().siblings(),
            _ => Seq::empty(),
        }
    }

    /// Deletes `entity` from a component container and appends to
    /// `storage_to_unpack` the storages to repair afterwards. Other
    /// contents stay as they are.
    pub fn delete(&mut self, entity: EntityId, storage_to_unpack: &mut Vec<StorageId>)
        requires
            old(self).wf(),
        ensures
            final(self).wf(),
            old(self).deleted(*final(self), entity),
            !final(self).has(entity),
            final(storage_to_unpack)@ == old(storage_to_unpack)@ + old(self).siblings(),
    {
        match self {
            UnknownStorage::SparseSet(set) => {
                set.delete(entity, storage_to_unpack);
            },
            _ => {
                assert(storage_to_unpack@ + Seq::<StorageId>::empty() =~= storage_to_unpack@);
            },
        }
    }

    /// Empties a component container and kills every entity of an entity
    /// table. A unique value stays.
    pub fn clear(&mut self)
        requires
            old(self).wf(),
        ensures
            final(self).wf(),
            old(self).cleared(*final(self)),
    {
        match self {
            UnknownStorage::SparseSet(set) => {
                set.clear();
            },
            UnknownStorage::Unique(_) => {},
            UnknownStorage::Entities(entities) => {
                entities.clear();
            },
        }
    }

    /// Moves `entity` out of the packed prefix of a component container.
    /// Other contents stay as they are.
    pub fn unpack(&mut self, entity: EntityId)
        requires
            old(self).wf(),
        ensures
            final(self).wf(),
            old(self).unpacked(*final(self), entity),
    {
        match self {
            UnknownStorage::SparseSet(set) => {
                set.unpack(entity);
            },
            _ => {},
        }
    }

    /// The component container, if the content is one.
    pub fn sparse_set(&self) -> (set: Option<&SparseSet<T>>)
        ensures
            set == (match self {
                UnknownStorage::SparseSet(inner) => Some(inner),
                _ => None,
            }),
    {
        match self {
            UnknownStorage::SparseSet(set) => Some(set),
            _ => None,
        }
    }

    /// The component container, mutably, if the content is one.
    pub fn sparse_set_mut(&mut self) -> (set: Option<&mut SparseSet<T>>)
        ensures
            set is Some <==> *old(self) is SparseSet,
            set is None ==> *final(self) == *old(self),
            set matches Some(inner) ==> *inner == (*old(self))->SparseSet_0 && *final(self)
                == UnknownStorage::SparseSet(*final(inner)),
    {
        match self {
            UnknownStorage::SparseSet(set) => Some(set),
            _ => None,
        }
    }

    /// The entity table, if the content is one.
    pub fn entities(&self) -> (entities: Option<&Entities>)
        ensures
            entities == (match self {
                UnknownStorage::Entities(inner) => Some(inner),
                _ => None,
            }),
    {
        match self {
            UnknownStorage::Entities(entities) => Some(entities),
            _ => None,
        }
    }

    /// The entity table, mutably, if the content is one.
    pub fn entities_mut(&mut self) -> (entities: Option<&mut Entities>)
        ensures
            entities is Some <==> *old(self) is Entities,
            entities is None ==> *final(self) == *old(self),
            entities matches Some(inner) ==> *inner == (*old(self))->Entities_0 && *final(self)
                == UnknownStorage::<T>::Entities(*final(inner)),
    {
        match self {
            UnknownStorage::Entities(entities) => Some(entities),
            _ => None,
        }
    }

    /// The unique value, if the content is one.
    pub fn unique(&self) -> (unique: Option<&T>)
        ensures
            unique == (match self {
                UnknownStorage::Unique(inner) => Some(inner),
                _ => None,
            }),
    {
        match self {
            UnknownStorage::Unique(unique) => Some(unique),
            _ => None,
        }
    }

    /// The unique value, mutably, if the content is one.
    pub fn unique_mut(&mut self) -> (unique: Option<&mut T>)
        ensures
            unique is Some <==> *old(self) is Unique,
            unique is None ==> *final(self) == *old(self),
            unique matches Some(inner) ==> *inner == (*old(self))->Unique_0 && *final(self)
                == UnknownStorage::Unique(*final(inner)),
    {
        match self {
            UnknownStorage::Unique(unique) => Some(unique),
            _ => None,
        }
    }
}

} // verus!

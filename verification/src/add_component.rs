//! Adding components to an existing entity, in one storage or in several
//! at once, with the packs of the storages kept in order.

use crate::entities::Entities;
use crate::entity_id::EntityId;
use crate::error;
use crate::pack::{
    contains_id, lemma_packable_by_members, lemma_shape_by_members, pack_step, sort_ids,
    PackShape,
};
use crate::packing::{lemma_pair_add_both, lemma_pair_add_one, slot_free_for, tight_pair};
use crate::sparse_set::SparseSet;
use crate::storage_id::StorageId;
use vstd::prelude::*;

verus! {

/// Adds components to an existing entity without creating a storage.
///
/// Implemented by a mutable borrow of one storage, for one component, and
/// by tuples of such borrows: the first storages of the tuple are the
/// targets, which take the components; the others are passed beside them
/// because a target is packed with them or observed by them.
pub trait AddComponent<T>: Sized {
    /// The storages are well-formed.
    spec fn storages_wf(&self) -> bool;

    /// Gives `entity` the components `component`.
    ///
    /// Nothing is written unless the entity is alive and every target
    /// finds the storages that its pack metadata names among those passed.
    fn try_add_component(self, component: T, entity: EntityId, entities: &Entities) -> (done:
        Result<(), error::AddComponent>)
        requires
            self.storages_wf(),
            entities.wf(),
        ensures
            !entities@.alive(entity) ==> done == Err::<(), error::AddComponent>(
                error::AddComponent::EntityIsNotAlive,
            ),
    ;
}

/// Whether a storage takes a component with no other storage passed:
/// it is in no tight or loose pack and nobody observes it.
pub open spec fn addable_alone(shape: PackShape) -> bool {
    !shape.is_grouped() && shape.observer_types.len() == 0
}

impl<T> AddComponent<T> for &mut SparseSet<T> {
    open spec fn storages_wf(&self) -> bool {
        (**self).wf()
    }

    fn try_add_component(self, component: T, entity: EntityId, entities: &Entities) -> (done:
        Result<(), error::AddComponent>)
        ensures
            final(self).wf(),
            final(self).storage_id() == old(self).storage_id(),
            done == (if !entities@.alive(entity) {
                Err::<(), error::AddComponent>(error::AddComponent::EntityIsNotAlive)
            } else if !addable_alone(old(self).pack_view().shape()) {
                Err(error::AddComponent::MissingPackStorage(old(self).storage_id()))
            } else {
                Ok(())
            }),
            done is Ok ==> final(self).model() == old(self).model().insert(entity, component),
            done is Err ==> *final(self) == *old(self),
    {
        if entities.is_alive(entity) {
            let alone = match &self.pack_info().pack {
                crate::pack::Pack::Tight(_) => false,
                crate::pack::Pack::Loose(_) => false,
                crate::pack::Pack::Update(_) => self.pack_info().observer_types.len() == 0,
                crate::pack::Pack::NoPack => self.pack_info().observer_types.len() == 0,
            };
            if alone {
                self.insert(component, entity);
                Ok(())
            } else {
                Err(error::AddComponent::MissingPackStorage(self.id()))
            }
        } else {
            Err(error::AddComponent::EntityIsNotAlive)
        }
    }
}

/// The storages that hold the entity for sure once the targets have taken
/// their components: the targets, and each storage passed beside them
/// that holds the entity already.
pub open spec fn real_types(targets: Seq<StorageId>, beside: Seq<(StorageId, bool)>) -> Seq<StorageId>
    decreases beside.len(),
{
    if beside.len() == 0 {
        targets
    } else {
        let rest = real_types(targets, beside.drop_last());
        if beside.last().1 {
            rest.push(beside.last().0)
        } else {
            rest
        }
    }
}

impl<A> AddComponent<(A,)> for (&mut SparseSet<A>,) {
    open spec fn storages_wf(&self) -> bool {
        (*self.0).wf()
    }

    fn try_add_component(self, component: (A,), entity: EntityId, entities: &Entities) -> (done:
        Result<(), error::AddComponent>)
        ensures
            final(self.0).wf(),
            final(self.0).storage_id() == old(self.0).storage_id(),
            done == (if !entities@.alive(entity) {
                Err::<(), error::AddComponent>(error::AddComponent::EntityIsNotAlive)
            } else if !old(self.0).pack_view().shape().all_storages_in(
                seq![old(self.0).storage_id()],
                Seq::empty(),
            ) {
                Err(error::AddComponent::MissingPackStorage(old(self.0).storage_id()))
            } else {
                Ok(())
            }),
            done is Ok ==> final(self.0).model() == old(self.0).model().insert(
                entity,
                component.0,
            ).packed_if(
                pack_step(
                    Seq::empty(),
                    old(self.0).storage_id(),
                    old(self.0).pack_view().shape(),
                    seq![old(self.0).storage_id()],
                ).contains(old(self.0).storage_id()),
                entity,
            ),
            done is Err ==> *final(self.0) == *old(self.0),
    {
        if !entities.is_alive(entity) {
            return Err(error::AddComponent::EntityIsNotAlive);
        }
        let (a,) = self;
        let id_a = a.id();
        let mut should_pack: Vec<StorageId> = Vec::new();
        if !a.pack_info().plain() {
            let mut ids: Vec<StorageId> = Vec::new();
            ids.push(id_a);
            let storage_ids = sort_ids(ids.as_slice());
            let add_types: Vec<StorageId> = Vec::new();
            let held = sort_ids(ids.as_slice());
            proof {
                let shape = a.pack_view().shape();
                assert(ids@ =~= seq![id_a]);
                lemma_shape_by_members(shape, storage_ids@, add_types@, seq![id_a], Seq::empty());
                lemma_packable_by_members(shape, held@, seq![id_a]);
            }
            if !a.pack_info().has_all_storages(storage_ids.as_slice(), add_types.as_slice()) {
                return Err(error::AddComponent::MissingPackStorage(id_a));
            }
            a.pack_info().collect_packable(id_a, held.as_slice(), &mut should_pack);
        }
        a.insert(component.0, entity);
        if contains_id(should_pack.as_slice(), id_a) {
            a.pack(entity);
        }
        Ok(())
    }
}

impl<A, B> AddComponent<(A,)> for (&mut SparseSet<A>, &mut SparseSet<B>) {
    open spec fn storages_wf(&self) -> bool {
        (*self.0).wf() && (*self.1).wf()
    }

    fn try_add_component(self, component: (A,), entity: EntityId, entities: &Entities) -> (done:
        Result<(), error::AddComponent>)
        ensures
            final(self.0).wf(),
            final(self.1).wf(),
            final(self.0).storage_id() == old(self.0).storage_id(),
            final(self.1).storage_id() == old(self.1).storage_id(),
            done == (if !entities@.alive(entity) {
                Err::<(), error::AddComponent>(error::AddComponent::EntityIsNotAlive)
            } else if !old(self.0).pack_view().shape().all_storages_in(
                seq![old(self.0).storage_id()],
                seq![old(self.1).storage_id()],
            ) {
                Err(error::AddComponent::MissingPackStorage(old(self.0).storage_id()))
            } else {
                Ok(())
            }),
            done is Ok ==> ({
                let id_a = old(self.0).storage_id();
                let id_b = old(self.1).storage_id();
                let should_pack = pack_step(
                    Seq::empty(),
                    id_a,
                    old(self.0).pack_view().shape(),
                    real_types(seq![id_a], seq![(id_b, old(self.1).has(entity))]),
                );
                &&& final(self.0).model() == old(self.0).model().insert(
                    entity,
                    component.0,
                ).packed_if(should_pack.contains(id_a), entity)
                &&& final(self.1).model() == old(self.1).model().packed_if(
                    should_pack.contains(id_b),
                    entity,
                )
            }),
            done is Err ==> *final(self.0) == *old(self.0) && *final(self.1) == *old(self.1),
            done is Ok && old(self.0).storage_id() != old(self.1).storage_id() && tight_pair(
                old(self.0).model(),
                old(self.0).storage_id(),
                old(self.1).model(),
                old(self.1).storage_id(),
            ) && slot_free_for(old(self.0).model(), entity) ==> tight_pair(
                final(self.0).model(),
                old(self.0).storage_id(),
                final(self.1).model(),
                old(self.1).storage_id(),
            ),
    {
        if !entities.is_alive(entity) {
            return Err(error::AddComponent::EntityIsNotAlive);
        }
        let (a, b) = self;
        let id_a = a.id();
        let id_b = b.id();
        proof {
            if id_a != id_b && tight_pair(a.model(), id_a, b.model(), id_b) && slot_free_for(
                a.model(),
                entity,
            ) {
                lemma_pair_add_one(a.model(), id_a, b.model(), id_b, entity, component.0);
            }
        }
        let mut should_pack: Vec<StorageId> = Vec::new();
        let ghost held_spec = real_types(seq![id_a], seq![(id_b, b.has(entity))]);
        proof {
            let beside = seq![(id_b, b.has(entity))];
            assert(beside.drop_last() =~= Seq::<(StorageId, bool)>::empty());
            assert(real_types(seq![id_a], beside.drop_last()) == seq![id_a]);
        }
        if !a.pack_info().plain() {
            let mut ids: Vec<StorageId> = Vec::new();
            ids.push(id_a);
            assert(ids@ =~= seq![id_a]);
            let storage_ids = sort_ids(ids.as_slice());
            let mut adds: Vec<StorageId> = Vec::new();
            adds.push(id_b);
            let add_types = sort_ids(adds.as_slice());
            if b.contains(entity) {
                ids.push(id_b);
            }
            let held = sort_ids(ids.as_slice());
            proof {
                let shape = a.pack_view().shape();
                assert(ids@ =~= held_spec);
                assert(adds@ =~= seq![id_b]);
                lemma_shape_by_members(shape, storage_ids@, add_types@, seq![id_a], seq![id_b]);
                lemma_packable_by_members(shape, held@, held_spec);
            }
            if !a.pack_info().has_all_storages(storage_ids.as_slice(), add_types.as_slice()) {
                return Err(error::AddComponent::MissingPackStorage(id_a));
            }
            a.pack_info().collect_packable(id_a, held.as_slice(), &mut should_pack);
            if contains_id(should_pack.as_slice(), id_b) {
                b.pack(entity);
            }
        }
        a.insert(component.0, entity);
        if contains_id(should_pack.as_slice(), id_a) {
            a.pack(entity);
        }
        Ok(())
    }
}

impl<A, B> AddComponent<(A, B)> for (&mut SparseSet<A>, &mut SparseSet<B>) {
    open spec fn storages_wf(&self) -> bool {
        (*self.0).wf() && (*self.1).wf()
    }

    fn try_add_component(self, component: (A, B), entity: EntityId, entities: &Entities) -> (done:
        Result<(), error::AddComponent>)
        ensures
            final(self.0).wf(),
            final(self.1).wf(),
            final(self.0).storage_id() == old(self.0).storage_id(),
            final(self.1).storage_id() == old(self.1).storage_id(),
            done == (if !entities@.alive(entity) {
                Err::<(), error::AddComponent>(error::AddComponent::EntityIsNotAlive)
            } else if !old(self.0).pack_view().shape().all_storages_in(
                seq![old(self.0).storage_id(), old(self.1).storage_id()],
                Seq::empty(),
            ) {
                Err(error::AddComponent::MissingPackStorage(old(self.0).storage_id()))
            } else if !old(self.1).pack_view().shape().all_storages_in(
                seq![old(self.0).storage_id(), old(self.1).storage_id()],
                Seq::empty(),
            ) {
                Err(error::AddComponent::MissingPackStorage(old(self.1).storage_id()))
            } else {
                Ok(())
            }),
            done is Ok ==> ({
                let id_a = old(self.0).storage_id();
                let id_b = old(self.1).storage_id();
                let held = seq![id_a, id_b];
                let should_pack = pack_step(
                    pack_step(Seq::empty(), id_a, old(self.0).pack_view().shape(), held),
                    id_b,
                    old(self.1).pack_view().shape(),
                    held,
                );
                &&& final(self.0).model() == old(self.0).model().insert(
                    entity,
                    component.0,
                ).packed_if(should_pack.contains(id_a), entity)
                &&& final(self.1).model() == old(self.1).model().insert(
                    entity,
                    component.1,
                ).packed_if(should_pack.contains(id_b), entity)
            }),
            done is Err ==> *final(self.0) == *old(self.0) && *final(self.1) == *old(self.1),
            done is Ok && tight_pair(
                old(self.0).model(),
                old(self.0).storage_id(),
                old(self.1).model(),
                old(self.1).storage_id(),
            ) && slot_free_for(old(self.0).model(), entity) && slot_free_for(
                old(self.1).model(),
                entity,
            ) ==> tight_pair(
                final(self.0).model(),
                old(self.0).storage_id(),
                final(self.1).model(),
                old(self.1).storage_id(),
            ),
    {
        if !entities.is_alive(entity) {
            return Err(error::AddComponent::EntityIsNotAlive);
        }
        let (a, b) = self;
        let id_a = a.id();
        let id_b = b.id();
        proof {
            if tight_pair(a.model(), id_a, b.model(), id_b) && slot_free_for(a.model(), entity)
                && slot_free_for(b.model(), entity) {
                lemma_pair_add_both(
                    a.model(),
                    id_a,
                    b.model(),
                    id_b,
                    entity,
                    component.0,
                    component.1,
                );
            }
        }
        let mut should_pack: Vec<StorageId> = Vec::new();
        if !a.pack_info().plain() || !b.pack_info().plain() {
            let mut ids: Vec<StorageId> = Vec::new();
            ids.push(id_a);
            ids.push(id_b);
            let storage_ids = sort_ids(ids.as_slice());
            let add_types: Vec<StorageId> = Vec::new();
            let held = sort_ids(ids.as_slice());
            proof {
                assert(ids@ =~= seq![id_a, id_b]);
                lemma_shape_by_members(
                    a.pack_view().shape(),
                    storage_ids@,
                    add_types@,
                    seq![id_a, id_b],
                    Seq::empty(),
                );
                lemma_shape_by_members(
                    b.pack_view().shape(),
                    storage_ids@,
                    add_types@,
                    seq![id_a, id_b],
                    Seq::empty(),
                );
                lemma_packable_by_members(a.pack_view().shape(), held@, seq![id_a, id_b]);
                lemma_packable_by_members(b.pack_view().shape(), held@, seq![id_a, id_b]);
            }
            if !a.pack_info().has_all_storages(storage_ids.as_slice(), add_types.as_slice()) {
                return Err(error::AddComponent::MissingPackStorage(id_a));
            }
            a.pack_info().collect_packable(id_a, held.as_slice(), &mut should_pack);
            if !b.pack_info().has_all_storages(storage_ids.as_slice(), add_types.as_slice()) {
                return Err(error::AddComponent::MissingPackStorage(id_b));
            }
            b.pack_info().collect_packable(id_b, held.as_slice(), &mut should_pack);
        }
        a.insert(component.0, entity);
        if contains_id(should_pack.as_slice(), id_a) {
            a.pack(entity);
        }
        b.insert(component.1, entity);
        if contains_id(should_pack.as_slice(), id_b) {
            b.pack(entity);
        }
        Ok(())
    }
}

} // verus!

//! Removing components from an entity, in one storage or in several at
//! once, with the packs of the storages kept in order.

use crate::entity_id::EntityId;
use crate::error;
use crate::pack::{contains_id, lemma_shape_by_members, sort_ids, unpack_step};
use crate::packing::{lemma_pair_remove_both, lemma_pair_remove_one, tight_pair};
use crate::sparse_set::{old_component, OldComponent, SparseSet};
use crate::storage_id::StorageId;
use vstd::prelude::*;

verus! {

/// A tuple of component types that can be removed together.
pub trait Removable {
    /// What the removal hands back: for each type the old component, if
    /// the entity had one.
    type Out;
}

impl<A> Removable for (A,) {
    type Out = (Option<OldComponent<A>>,);
}

impl<A, B> Removable for (A, B) {
    type Out = (Option<OldComponent<A>>, Option<OldComponent<B>>);
}

/// Removes components from entities.
///
/// Implemented by tuples of mutable borrows of storages: the first
/// storages of the tuple are the targets, which give up their components;
/// the others are passed beside them because a target is packed with them
/// or observed by them.
pub trait Remove<T: Removable>: Sized {
    /// The storages are well-formed.
    spec fn storages_wf(&self) -> bool;

    /// What the removal of `entity` hands back, given the storages as
    /// they are before it.
    spec fn outcome(&self, entity: EntityId) -> Result<T::Out, error::Remove>;

    /// Takes the components of `entity` out of the targets and hands back
    /// those it had.
    ///
    /// Nothing is written unless every target finds the storages that its
    /// pack metadata names among those passed. What becomes of each
    /// storage is stated by the function of this module that the
    /// implementation calls.
    fn try_remove(self, entity: EntityId) -> (removed: Result<T::Out, error::Remove>)
        requires
            self.storages_wf(),
        ensures
            removed == self.outcome(entity),
    ;
}

/// What removing from the one target `a` hands back.
pub open spec fn outcome_one<A>(a: SparseSet<A>, entity: EntityId) -> Result<
    (Option<OldComponent<A>>,),
    error::Remove,
> {
    if !a.pack_view().shape().all_storages_in(seq![a.storage_id()], Seq::empty()) {
        Err(error::Remove::MissingPackStorage(a.storage_id()))
    } else {
        Ok((old_component(a.model(), entity),))
    }
}

/// What removing from the target `a`, with `b` passed beside it, hands back.
pub open spec fn outcome_one_beside<A, B>(
    a: SparseSet<A>,
    b: SparseSet<B>,
    entity: EntityId,
) -> Result<(Option<OldComponent<A>>,), error::Remove> {
    if !a.pack_view().shape().all_storages_in(seq![a.storage_id()], seq![b.storage_id()]) {
        Err(error::Remove::MissingPackStorage(a.storage_id()))
    } else {
        Ok((old_component(a.model(), entity),))
    }
}

/// What removing from the two targets `a` and `b` hands back.
pub open spec fn outcome_two<A, B>(a: SparseSet<A>, b: SparseSet<B>, entity: EntityId) -> Result<
    (Option<OldComponent<A>>, Option<OldComponent<B>>),
    error::Remove,
> {
    if !a.pack_view().shape().all_storages_in(seq![a.storage_id(), b.storage_id()], Seq::empty()) {
        Err(error::Remove::MissingPackStorage(a.storage_id()))
    } else if !b.pack_view().shape().all_storages_in(
        seq![a.storage_id(), b.storage_id()],
        Seq::empty(),
    ) {
        Err(error::Remove::MissingPackStorage(b.storage_id()))
    } else {
        Ok((old_component(a.model(), entity), old_component(b.model(), entity)))
    }
}

/// Takes the component of `entity` out of the one target `a`.
pub fn try_remove_one<A>(a: &mut SparseSet<A>, entity: EntityId) -> (removed: Result<
    (Option<OldComponent<A>>,),
    error::Remove,
>)
    requires
        old(a).wf(),
    ensures
        final(a).wf(),
        final(a).storage_id() == old(a).storage_id(),
        removed == outcome_one(*old(a), entity),
        removed is Ok ==> final(a).model() == old(a).model().without(entity),
        removed is Err ==> *final(a) == *old(a),
{
    let id_a = a.id();
    if !a.pack_info().plain() {
        let mut ids: Vec<StorageId> = Vec::new();
        ids.push(id_a);
        let types = sort_ids(ids.as_slice());
        let add_types: Vec<StorageId> = Vec::new();
        proof {
            assert(ids@ =~= seq![id_a]);
            lemma_shape_by_members(
                a.pack_view().shape(),
                types@,
                add_types@,
                seq![id_a],
                Seq::empty(),
            );
        }
        let mut should_unpack: Vec<StorageId> = Vec::new();
        if a.pack_info().has_all_storages(types.as_slice(), add_types.as_slice()) {
            a.pack_info().collect_siblings(&mut should_unpack);
        } else {
            return Err(error::Remove::MissingPackStorage(id_a));
        }
    }
    Ok((a.actual_remove(entity),))
}

/// Takes the component of `entity` out of the target `a`; `b` is passed
/// beside it and is unpacked if the pack metadata of `a` names it.
pub fn try_remove_one_beside<A, B>(
    a: &mut SparseSet<A>,
    b: &mut SparseSet<B>,
    entity: EntityId,
) -> (removed: Result<(Option<OldComponent<A>>,), error::Remove>)
    requires
        old(a).wf(),
        old(b).wf(),
    ensures
        final(a).wf(),
        final(b).wf(),
        final(a).storage_id() == old(a).storage_id(),
        final(b).storage_id() == old(b).storage_id(),
        removed == outcome_one_beside(*old(a), *old(b), entity),
        removed is Ok ==> {
            &&& final(a).model() == old(a).model().without(entity)
            &&& final(b).model() == old(b).model().unpacked_if(
                unpack_step(Seq::empty(), old(a).pack_view().shape()).contains(
                    old(b).storage_id(),
                ),
                entity,
            )
        },
        removed is Err ==> *final(a) == *old(a) && *final(b) == *old(b),
        removed is Ok && tight_pair(
            old(a).model(),
            old(a).storage_id(),
            old(b).model(),
            old(b).storage_id(),
        ) ==> tight_pair(
            final(a).model(),
            old(a).storage_id(),
            final(b).model(),
            old(b).storage_id(),
        ),
{
    let id_a = a.id();
    let id_b = b.id();
    proof {
        if tight_pair(a.model(), id_a, b.model(), id_b) {
            lemma_pair_remove_one(a.model(), id_a, b.model(), id_b, entity);
        }
    }
    if !a.pack_info().plain() {
        let mut ids: Vec<StorageId> = Vec::new();
        ids.push(id_a);
        let types = sort_ids(ids.as_slice());
        let mut adds: Vec<StorageId> = Vec::new();
        adds.push(id_b);
        let add_types = sort_ids(adds.as_slice());
        proof {
            assert(ids@ =~= seq![id_a]);
            assert(adds@ =~= seq![id_b]);
            lemma_shape_by_members(
                a.pack_view().shape(),
                types@,
                add_types@,
                seq![id_a],
                seq![id_b],
            );
        }
        let mut should_unpack: Vec<StorageId> = Vec::new();
        if a.pack_info().has_all_storages(types.as_slice(), add_types.as_slice()) {
            a.pack_info().collect_siblings(&mut should_unpack);
        } else {
            return Err(error::Remove::MissingPackStorage(id_a));
        }
        if contains_id(should_unpack.as_slice(), id_b) {
            b.unpack(entity);
        }
    } else {
        proof {
            let shape = a.pack_view().shape();
            assert(unpack_step(Seq::empty(), shape) =~= Seq::<StorageId>::empty());
        }
    }
    Ok((a.actual_remove(entity),))
}

/// Takes the components of `entity` out of the two targets `a` and `b`.
pub fn try_remove_two<A, B>(a: &mut SparseSet<A>, b: &mut SparseSet<B>, entity: EntityId) -> (removed:
    Result<(Option<OldComponent<A>>, Option<OldComponent<B>>), error::Remove>)
    requires
        old(a).wf(),
        old(b).wf(),
    ensures
        final(a).wf(),
        final(b).wf(),
        final(a).storage_id() == old(a).storage_id(),
        final(b).storage_id() == old(b).storage_id(),
        removed == outcome_two(*old(a), *old(b), entity),
        removed is Ok ==> {
            &&& final(a).model() == old(a).model().without(entity)
            &&& final(b).model() == old(b).model().without(entity)
        },
        removed is Err ==> *final(a) == *old(a) && *final(b) == *old(b),
        removed is Ok && tight_pair(
            old(a).model(),
            old(a).storage_id(),
            old(b).model(),
            old(b).storage_id(),
        ) ==> tight_pair(
            final(a).model(),
            old(a).storage_id(),
            final(b).model(),
            old(b).storage_id(),
        ),
{
    let id_a = a.id();
    let id_b = b.id();
    proof {
        if tight_pair(a.model(), id_a, b.model(), id_b) {
            lemma_pair_remove_both(a.model(), id_a, b.model(), id_b, entity);
        }
    }
    if !a.pack_info().plain() || !b.pack_info().plain() {
        let mut ids: Vec<StorageId> = Vec::new();
        ids.push(id_a);
        ids.push(id_b);
        let types = sort_ids(ids.as_slice());
        let add_types: Vec<StorageId> = Vec::new();
        proof {
            assert(ids@ =~= seq![id_a, id_b]);
            lemma_shape_by_members(
                a.pack_view().shape(),
                types@,
                add_types@,
                seq![id_a, id_b],
                Seq::empty(),
            );
            lemma_shape_by_members(
                b.pack_view().shape(),
                types@,
                add_types@,
                seq![id_a, id_b],
                Seq::empty(),
            );
        }
        let mut should_unpack: Vec<StorageId> = Vec::new();
        if a.pack_info().has_all_storages(types.as_slice(), add_types.as_slice()) {
            a.pack_info().collect_siblings(&mut should_unpack);
        } else {
            return Err(error::Remove::MissingPackStorage(id_a));
        }
        if b.pack_info().has_all_storages(types.as_slice(), add_types.as_slice()) {
            b.pack_info().collect_siblings(&mut should_unpack);
        } else {
            return Err(error::Remove::MissingPackStorage(id_b));
        }
    }
    let old_a = a.actual_remove(entity);
    let old_b = b.actual_remove(entity);
    Ok((old_a, old_b))
}

impl<A> Remove<(A,)> for (&mut SparseSet<A>,) {
    open spec fn storages_wf(&self) -> bool {
        (*self.0).wf()
    }

    open spec fn outcome(&self, entity: EntityId) -> Result<<(A,) as Removable>::Out, error::Remove> {
        outcome_one(*self.0, entity)
    }

    fn try_remove(self, entity: EntityId) -> (removed: Result<
        <(A,) as Removable>::Out,
        error::Remove,
    >) {
        try_remove_one(self.0, entity)
    }
}

impl<A, B> Remove<(A,)> for (&mut SparseSet<A>, &mut SparseSet<B>) {
    open spec fn storages_wf(&self) -> bool {
        (*self.0).wf() && (*self.1).wf()
    }

    open spec fn outcome(&self, entity: EntityId) -> Result<<(A,) as Removable>::Out, error::Remove> {
        outcome_one_beside(*self.0, *self.1, entity)
    }

    fn try_remove(self, entity: EntityId) -> (removed: Result<
        <(A,) as Removable>::Out,
        error::Remove,
    >) {
        try_remove_one_beside(self.0, self.1, entity)
    }
}

impl<A, B> Remove<(A, B)> for (&mut SparseSet<A>, &mut SparseSet<B>) {
    open spec fn storages_wf(&self) -> bool {
        (*self.0).wf() && (*self.1).wf()
    }

    open spec fn outcome(&self, entity: EntityId) -> Result<
        <(A, B) as Removable>::Out,
        error::Remove,
    > {
        outcome_two(*self.0, *self.1, entity)
    }

    fn try_remove(self, entity: EntityId) -> (removed: Result<
        <(A, B) as Removable>::Out,
        error::Remove,
    >) {
        try_remove_two(self.0, self.1, entity)
    }
}

} // verus!
